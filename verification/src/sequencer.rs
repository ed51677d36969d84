//! Playing back a decoded sequence: which operation runs next, and what each one does to the
//! playback state.
//!
//! Running an operation is split in two. The sequencer decides: where playback goes on, what is
//! on the call stack, how long to wait, and which field of the node the next operation works
//! on (the sum of the offsets pushed since the last field operation). The engine does the work
//! on the node's memory that `run_single_op` hands it as an `Effect`, and for a branch on a
//! field it tells the sequencer whether the field passes the test.
use vstd::prelude::*;
use crate::sequence_decode::Op;

verus! {

/// The playback state of a sequence.
pub struct GenSequencer<'sequence> {
    pub script: &'sequence [Op],
    pub position: usize,
    pub call_stack: Vec<usize>,
    pub wait_timer: u16,
    pub offset: usize,
}

/// The work an operation does on the node's memory, at `offset` bytes into the node.
#[derive(Clone, Copy, Debug, PartialEq, Eq, Structural)]
pub enum Effect {
    /// Nothing.
    Nothing,
    /// Copy `len` bytes from the data buffer at `data_idx` into the field.
    SetField { offset: usize, data_idx: u32, len: u8 },
    /// Set the string field to the string stored in the data buffer at `data_idx`.
    SetFieldString { offset: usize, data_idx: u32 },
    /// Add the `len`-byte integer at `data_idx`, wrapping around.
    ModifyFieldInt { offset: usize, data_idx: u32, len: u8 },
    /// Add the `f32` at `data_idx`.
    ModifyFieldF32 { offset: usize, data_idx: u32 },
    /// Add the `f64` at `data_idx`.
    ModifyFieldF64 { offset: usize, data_idx: u32 },
}

impl<'sequence> GenSequencer<'sequence> {
    /// A sequencer at the start of `script`. Returning from the main script ends the sequence.
    pub fn new(script: &'sequence [Op]) -> (out: GenSequencer<'sequence>)
        ensures
            out.script@ == script@,
            out.position == 0,
            out.call_stack@ == seq![script@.len() as usize],
            out.wait_timer == 0,
            out.offset == 0,
    {
        GenSequencer { script, position: 0, call_stack: vec![script.len()], wait_timer: 0, offset: 0 }
    }

    /// The next operation to run: none while waiting, which counts down one update, or past
    /// the end of the script; otherwise the operation at the current position, which moves on.
    pub fn fetch_next(&mut self) -> (out: Option<Op>)
        ensures
            final(self).script == old(self).script,
            final(self).call_stack == old(self).call_stack,
            final(self).offset == old(self).offset,
            old(self).wait_timer > 0 ==> out is None && final(self).wait_timer == old(self).wait_timer - 1
                && final(self).position == old(self).position,
            old(self).wait_timer == 0 && old(self).position >= old(self).script@.len() ==> out is None
                && final(self).wait_timer == 0 && final(self).position == old(self).position,
            old(self).wait_timer == 0 && old(self).position < old(self).script@.len() ==> out == Some(
                old(self).script@[old(self).position as int],
            ) && final(self).wait_timer == 0 && final(self).position == old(self).position + 1,
    {
        if self.wait_timer > 0 {
            self.wait_timer = self.wait_timer - 1;
            None
        } else if self.position >= self.script.len() {
            None
        } else {
            let op = self.script[self.position];
            self.position = self.position + 1;
            Some(op)
        }
    }

    /// Runs `op`, which is not a custom operation: `passes` tells whether the field the
    /// operation works on passes its test, for a branch on a field.
    pub fn run_single_op(&mut self, op: Op, passes: bool) -> (out: Effect)
        requires
            !(op is RunCustom) && !(op is BranchCustom),
            op matches Op::PushOffset(o) ==> old(self).offset + o <= usize::MAX,
            op matches Op::CallSub { .. } ==> old(self).position + 1 <= usize::MAX,
            op is Return ==> old(self).call_stack@.len() > 0,
        ensures
            final(self).script == old(self).script,
            step_result(*old(self), op, passes, *final(self), out),
    {
        match op {
            Op::PushOffset(offset) => {
                self.offset = self.offset + offset as usize;
                Effect::Nothing
            },
            Op::SetField { data_idx, len } => {
                let effect = Effect::SetField { offset: self.offset, data_idx, len };
                self.offset = 0;
                effect
            },
            Op::SetFieldString(data_idx) => {
                let effect = Effect::SetFieldString { offset: self.offset, data_idx };
                self.offset = 0;
                effect
            },
            Op::ModifyFieldInt { data_idx, len } => {
                let effect = Effect::ModifyFieldInt { offset: self.offset, data_idx, len };
                self.offset = 0;
                effect
            },
            Op::ModifyFieldF32(data_idx) => Effect::ModifyFieldF32 { offset: self.offset, data_idx },
            Op::ModifyFieldF64(data_idx) => Effect::ModifyFieldF64 { offset: self.offset, data_idx },
            Op::Jump { target } => {
                self.position = target as usize;
                Effect::Nothing
            },
            Op::CallSub { target } => {
                self.call_stack.push(self.position + 1);
                self.position = target as usize;
                Effect::Nothing
            },
            Op::Return => {
                self.position = self.call_stack.pop().unwrap();
                Effect::Nothing
            },
            Op::Wait { num_updates } => {
                self.wait_timer = num_updates;
                Effect::Nothing
            },
            Op::BranchIfTrue { target } => {
                if passes {
                    self.position = target as usize;
                }
                Effect::Nothing
            },
            Op::BranchIfFalse { target } => {
                if !passes {
                    self.position = target as usize;
                }
                Effect::Nothing
            },
            Op::BranchUInt { target, .. } | Op::BranchSInt { target, .. } | Op::BranchF32 { target, .. }
            | Op::BranchF64 { target, .. } => {
                if passes {
                    self.position = target as usize;
                }
                self.offset = 0;
                Effect::Nothing
            },
            _ => Effect::Nothing,
        }
    }
}

/// Whether running `op` from the state `s`, with `passes` the outcome of its field test, gives
/// the state `t` and the work `e` on the node.
pub open spec fn step_result(s: GenSequencer, op: Op, passes: bool, t: GenSequencer, e: Effect) -> bool {
    let same_flow = t.position == s.position && t.call_stack@ == s.call_stack@ && t.wait_timer == s.wait_timer;
    match op {
        Op::PushOffset(o) => same_flow && t.offset == s.offset + o && e == Effect::Nothing,
        Op::SetField { data_idx, len } => same_flow && t.offset == 0 && e == (Effect::SetField {
            offset: s.offset,
            data_idx,
            len,
        }),
        Op::SetFieldString(data_idx) => same_flow && t.offset == 0 && e == (Effect::SetFieldString {
            offset: s.offset,
            data_idx,
        }),
        Op::ModifyFieldInt { data_idx, len } => same_flow && t.offset == 0 && e == (Effect::ModifyFieldInt {
            offset: s.offset,
            data_idx,
            len,
        }),
        Op::ModifyFieldF32(data_idx) => same_flow && t.offset == s.offset && e == (Effect::ModifyFieldF32 {
            offset: s.offset,
            data_idx,
        }),
        Op::ModifyFieldF64(data_idx) => same_flow && t.offset == s.offset && e == (Effect::ModifyFieldF64 {
            offset: s.offset,
            data_idx,
        }),
        Op::Jump { target } => t.position == target && t.call_stack@ == s.call_stack@ && t.wait_timer == s.wait_timer
            && t.offset == s.offset && e == Effect::Nothing,
        Op::CallSub { target } => t.position == target && t.call_stack@ == s.call_stack@.push(
            (s.position + 1) as usize,
        ) && t.wait_timer == s.wait_timer && t.offset == s.offset && e == Effect::Nothing,
        Op::Return => t.position == s.call_stack@.last() && t.call_stack@ == s.call_stack@.drop_last()
            && t.wait_timer == s.wait_timer && t.offset == s.offset && e == Effect::Nothing,
        Op::Wait { num_updates } => t.position == s.position && t.call_stack@ == s.call_stack@ && t.wait_timer
            == num_updates && t.offset == s.offset && e == Effect::Nothing,
        Op::BranchIfTrue { target } => t.position == (if passes {
            target as usize
        } else {
            s.position
        }) && t.call_stack@ == s.call_stack@ && t.wait_timer == s.wait_timer && t.offset == s.offset && e
            == Effect::Nothing,
        Op::BranchIfFalse { target } => t.position == (if !passes {
            target as usize
        } else {
            s.position
        }) && t.call_stack@ == s.call_stack@ && t.wait_timer == s.wait_timer && t.offset == s.offset && e
            == Effect::Nothing,
        Op::BranchUInt { target, .. } | Op::BranchSInt { target, .. } | Op::BranchF32 { target, .. }
        | Op::BranchF64 { target, .. } => t.position == (if passes {
            target as usize
        } else {
            s.position
        }) && t.call_stack@ == s.call_stack@ && t.wait_timer == s.wait_timer && t.offset == 0 && e == Effect::Nothing,
        _ => false,
    }
}

/// The two branches on a boolean field are opposite: on the same field value and target,
/// branch-if-true jumps to the target exactly when the field is true, and branch-if-false
/// exactly when it is false; otherwise playback goes on after the branch. Neither touches the
/// call stack, the wait, the offset or the node.
pub proof fn lemma_bool_branches_opposite(
    s: GenSequencer,
    target: u32,
    field: bool,
    t_true: GenSequencer,
    e_true: Effect,
    t_false: GenSequencer,
    e_false: Effect,
)
    requires
        step_result(s, Op::BranchIfTrue { target }, field, t_true, e_true),
        step_result(s, Op::BranchIfFalse { target }, field, t_false, e_false),
    ensures
        field ==> t_true.position == target && t_false.position == s.position,
        !field ==> t_false.position == target && t_true.position == s.position,
        t_true.call_stack@ == s.call_stack@ && t_false.call_stack@ == s.call_stack@,
        t_true.offset == s.offset && t_false.offset == s.offset,
        e_true == Effect::Nothing && e_false == Effect::Nothing,
{
}

/// How each operation moves playback on: a jump goes to its target; a call goes to its target
/// and stacks the position after the call's own position; a return goes to the position on
/// top of the stack and removes it; a wait stays put and sets the wait; a comparison branch
/// goes to its target exactly when the field passes; the field operations stay put.
pub proof fn lemma_control_flow(s: GenSequencer, op: Op, passes: bool, t: GenSequencer, e: Effect)
    requires
        step_result(s, op, passes, t, e),
        op is CallSub ==> s.position + 1 <= usize::MAX,
        op is Return ==> s.call_stack@.len() > 0,
    ensures
        op matches Op::Jump { target } ==> t.position == target && t.call_stack@ == s.call_stack@,
        op matches Op::CallSub { target } ==> t.position == target && t.call_stack@.len() == s.call_stack@.len() + 1
            && t.call_stack@.last() == s.position + 1 && t.call_stack@.drop_last() == s.call_stack@,
        op is Return ==> t.position == s.call_stack@[s.call_stack@.len() - 1] && t.call_stack@.len() + 1
            == s.call_stack@.len(),
        op matches Op::Wait { num_updates } ==> t.position == s.position && t.wait_timer == num_updates,
        op matches Op::BranchUInt { target, .. } ==> (passes ==> t.position == target) && (!passes ==> t.position
            == s.position),
        op matches Op::BranchSInt { target, .. } ==> (passes ==> t.position == target) && (!passes ==> t.position
            == s.position),
        (op is SetField || op is SetFieldString || op is ModifyFieldInt || op is ModifyFieldF32 || op is ModifyFieldF64
            || op is PushOffset) ==> t.position == s.position && t.call_stack@ == s.call_stack@,
        op is SetField || op is SetFieldString || op is ModifyFieldInt ==> t.offset == 0,
        op matches Op::PushOffset(o) ==> t.offset == s.offset + o,
{
}

} // verus!

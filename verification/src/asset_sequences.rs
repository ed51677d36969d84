//! Sequence assets as the asset server sends them: metadata, the node the sequence runs on,
//! and its operations, each one an opcode and its operands.
use vstd::prelude::*;
use crate::asset_values::{
    TypedValue, ValueView, after, is_value_at, lemma_type_view_at, text_at, type_view_at,
    value_outcome,
};
use crate::assets::{
    AssetError, AssetMeta, Comparison, Type, comparison_of, is_meta, is_reported_error,
    lemma_rest_after, lemma_skip_skip, meta_outcome, type_outcome,
};
use crate::base_serde::{
    ByteReader, Deserialize, ParseOutcome, chain_outcome, fixed_outcome, is_eof_error, le_value,
    offset_of, outcome_error,
};

verus! {

/// An operation of a sequence. Floating-point operands hold the bits of the number.
#[derive(Debug, PartialEq)]
pub enum Op {
    PushOffset { node: String, property: String },
    SetValue { value: TypedValue },
    SetString { value: String },
    Modify { value: TypedValue },
    ModifyF32 { value: u32 },
    ModifyF64 { value: u64 },
    BranchIfTrue { target: u32 },
    BranchIfFalse { target: u32 },
    BranchUInt { comparison: Comparison, value: TypedValue, target: u32 },
    BranchSInt { comparison: Comparison, value: TypedValue, target: u32 },
    BranchF32 { comparison: Comparison, value: u32, target: u32 },
    BranchF64 { comparison: Comparison, value: u64, target: u32 },
    Jump { target: u32 },
    Call { target: u32 },
    Return,
    Wait { frames: u16 },
    RunCustom { fname: String },
    BranchCustom { fname: String, target: u32 },
}

/// What reading a type and then a value of that type from `input` gives.
pub open spec fn typed_outcome(input: Seq<u8>) -> ParseOutcome {
    match type_outcome(input) {
        ParseOutcome::Value(l) => if l <= input.len() {
            after(l, value_outcome(input.skip(l as int), type_view_at(input)))
        } else {
            ParseOutcome::Eof
        },
        other => other,
    }
}

/// Whether `v` is the value after the type at the start of `input`.
pub open spec fn is_typed_at(input: Seq<u8>, v: ValueView) -> bool {
    is_value_at(input.skip(offset_of(type_outcome(input)) as int), type_view_at(input), v)
}

/// What reading a comparison from `input` gives.
pub open spec fn comparison_outcome(input: Seq<u8>) -> ParseOutcome {
    if input.len() == 0 {
        ParseOutcome::Eof
    } else if input[0] <= 5 {
        ParseOutcome::Value(1)
    } else {
        ParseOutcome::BadTag
    }
}

/// What reading a comparison, a typed value and a `u32` target from `f` gives.
pub open spec fn typed_branch_outcome(f: Seq<u8>) -> ParseOutcome {
    match comparison_outcome(f) {
        ParseOutcome::Value(_) => after(
            1,
            chain_outcome(typed_outcome(f.skip(1)), |o: nat| fixed_outcome(f.skip(1).skip(o as int), 4)),
        ),
        other => other,
    }
}

/// What reading the operands of an operation with opcode `tag` from `f` gives.
pub open spec fn operands_outcome(f: Seq<u8>, tag: u8) -> ParseOutcome {
    if tag == 0 {
        chain_outcome(<String as Deserialize>::outcome(f), |o: nat| <String as Deserialize>::outcome(f.skip(o as int)))
    } else if tag == 1 || tag == 3 {
        typed_outcome(f)
    } else if tag == 2 || tag == 16 {
        <String as Deserialize>::outcome(f)
    } else if tag == 4 || tag == 6 || tag == 7 || tag == 12 || tag == 13 {
        fixed_outcome(f, 4)
    } else if tag == 5 {
        fixed_outcome(f, 8)
    } else if tag == 8 || tag == 9 {
        typed_branch_outcome(f)
    } else if tag == 10 {
        match comparison_outcome(f) {
            ParseOutcome::Value(_) => after(1, fixed_outcome(f.skip(1), 8)),
            other => other,
        }
    } else if tag == 11 {
        match comparison_outcome(f) {
            ParseOutcome::Value(_) => after(1, fixed_outcome(f.skip(1), 12)),
            other => other,
        }
    } else if tag == 14 {
        ParseOutcome::Value(0)
    } else if tag == 15 {
        fixed_outcome(f, 2)
    } else if tag == 17 {
        chain_outcome(<String as Deserialize>::outcome(f), |o: nat| fixed_outcome(f.skip(o as int), 4))
    } else {
        ParseOutcome::BadTag
    }
}

/// What reading an operation from `input` gives: its opcode, then its operands. An unknown
/// opcode or comparison stops the reader.
pub open spec fn op_outcome(input: Seq<u8>) -> ParseOutcome {
    if input.len() == 0 {
        ParseOutcome::Eof
    } else {
        after(1, operands_outcome(input.skip(1), input[0]))
    }
}

/// Whether `op` is the operation at the start of `input`.
pub open spec fn is_op(input: Seq<u8>, op: Op) -> bool {
    let tag = input[0];
    let f = input.skip(1);
    let g = f.skip(1);
    if tag == 0 {
        op matches Op::PushOffset { node, property } && node@ == text_at(f) && property@ == text_at(
            f.skip(offset_of(<String as Deserialize>::outcome(f)) as int),
        )
    } else if tag == 1 {
        op matches Op::SetValue { value } && is_typed_at(f, value@)
    } else if tag == 2 {
        op matches Op::SetString { value } && value@ == text_at(f)
    } else if tag == 3 {
        op matches Op::Modify { value } && is_typed_at(f, value@)
    } else if tag == 4 {
        op matches Op::ModifyF32 { value } && value as nat == le_value(f, 4)
    } else if tag == 5 {
        op matches Op::ModifyF64 { value } && value as nat == le_value(f, 8)
    } else if tag == 6 {
        op matches Op::BranchIfTrue { target } && target as nat == le_value(f, 4)
    } else if tag == 7 {
        op matches Op::BranchIfFalse { target } && target as nat == le_value(f, 4)
    } else if tag == 8 {
        op matches Op::BranchUInt { comparison, value, target } && comparison == comparison_of(f[0])
            && is_typed_at(g, value@) && target as nat == le_value(g.skip(offset_of(typed_outcome(g)) as int), 4)
    } else if tag == 9 {
        op matches Op::BranchSInt { comparison, value, target } && comparison == comparison_of(f[0])
            && is_typed_at(g, value@) && target as nat == le_value(g.skip(offset_of(typed_outcome(g)) as int), 4)
    } else if tag == 10 {
        op matches Op::BranchF32 { comparison, value, target } && comparison == comparison_of(f[0])
            && value as nat == le_value(g, 4) && target as nat == le_value(g.skip(4), 4)
    } else if tag == 11 {
        op matches Op::BranchF64 { comparison, value, target } && comparison == comparison_of(f[0])
            && value as nat == le_value(g, 8) && target as nat == le_value(g.skip(8), 4)
    } else if tag == 12 {
        op matches Op::Jump { target } && target as nat == le_value(f, 4)
    } else if tag == 13 {
        op matches Op::Call { target } && target as nat == le_value(f, 4)
    } else if tag == 14 {
        op is Return
    } else if tag == 15 {
        op matches Op::Wait { frames } && frames as nat == le_value(f, 2)
    } else if tag == 16 {
        op matches Op::RunCustom { fname } && fname@ == text_at(f)
    } else {
        op matches Op::BranchCustom { fname, target } && fname@ == text_at(f) && target as nat == le_value(
            f.skip(offset_of(<String as Deserialize>::outcome(f)) as int),
            4,
        )
    }
}

/// Reads a type, then a value of that type.
fn read_typed_value(input: &mut ByteReader) -> (out: Result<TypedValue, AssetError>)
    requires
        old(input).wf(),
        !(typed_outcome(old(input).rest()) is BadTag),
    ensures
        final(input).wf(),
        final(input).data@ == old(input).data@,
        match out {
            Ok(v) => final(input).pos >= old(input).pos && typed_outcome(old(input).rest()) == ParseOutcome::Value(
                (final(input).pos - old(input).pos) as nat,
            ) && is_typed_at(old(input).rest(), v@),
            Err(e) => outcome_error(typed_outcome(old(input).rest()), e),
        },
{
    let ghost r0 = input.rest();
    let ghost b0 = *input;
    let type_ = Type::read(input)?;
    let ghost l = (input.pos - b0.pos) as nat;
    proof {
        lemma_rest_after(b0, *input, l);
        lemma_type_view_at(r0, type_);
    }
    let ghost b1 = *input;
    let value = TypedValue::read(input, &type_)?;
    proof {
        let l2 = (input.pos - b1.pos) as nat;
        lemma_rest_after(b1, *input, l2);
        lemma_skip_skip(r0, l, l2);
    }
    Ok(value)
}


impl Op {
    /// Reads an operation: its opcode, then its operands.
    #[verifier::spinoff_prover]
    #[verifier::rlimit(40)]
    pub fn read(input: &mut ByteReader) -> (out: Result<Op, AssetError>)
        requires
            old(input).wf(),
            !(op_outcome(old(input).rest()) is BadTag),
        ensures
            final(input).wf(),
            final(input).data@ == old(input).data@,
            match out {
                Ok(op) => final(input).pos >= old(input).pos && op_outcome(old(input).rest()) == ParseOutcome::Value(
                    (final(input).pos - old(input).pos) as nat,
                ) && is_op(old(input).rest(), op),
                Err(e) => outcome_error(op_outcome(old(input).rest()), e),
            },
    {
        let ghost r0 = input.rest();
        let ghost b0 = *input;
        let opcode = u8::deserialize(input)?;
        let ghost f = r0.skip(1);
        proof {
            reveal_with_fuel(le_value, 2);
            lemma_rest_after(b0, *input, 1);
        }
        let ghost b1 = *input;
        match opcode {
            0 => {
                let node = String::deserialize(input)?;
                let ghost l1 = (input.pos - b1.pos) as nat;
                proof {
                    lemma_rest_after(b1, *input, l1);
                    lemma_skip_skip(f, l1, 0);
                }
                let ghost b2 = *input;
                let property = String::deserialize(input)?;
                proof {
                    lemma_rest_after(b2, *input, (input.pos - b2.pos) as nat);
                }
                Ok(Op::PushOffset { node, property })
            },
            1 => {
                let value = read_typed_value(input)?;
                Ok(Op::SetValue { value })
            },
            2 => {
                let value = String::deserialize(input)?;
                Ok(Op::SetString { value })
            },
            3 => {
                let value = read_typed_value(input)?;
                Ok(Op::Modify { value })
            },
            4 => {
                let value = u32::deserialize(input)?;
                Ok(Op::ModifyF32 { value })
            },
            5 => {
                let value = u64::deserialize(input)?;
                Ok(Op::ModifyF64 { value })
            },
            6 => {
                let target = u32::deserialize(input)?;
                Ok(Op::BranchIfTrue { target })
            },
            7 => {
                let target = u32::deserialize(input)?;
                Ok(Op::BranchIfFalse { target })
            },
            8 => {
                let (comparison, value, target) = read_typed_branch(input)?;
                Ok(Op::BranchUInt { comparison, value, target })
            },
            9 => {
                let (comparison, value, target) = read_typed_branch(input)?;
                Ok(Op::BranchSInt { comparison, value, target })
            },
            10 => {
                let comparison = Comparison::read(input)?;
                let ghost b2 = *input;
                proof {
                    lemma_rest_after(b1, *input, 1);
                    lemma_skip_skip(f, 1, 0);
                }
                let value = match u32::deserialize(input) {
                    Ok(v) => v,
                    Err(e) => return Err(e),
                };
                let ghost b3 = *input;
                proof {
                    lemma_rest_after(b2, *input, 4);
                    lemma_skip_skip(f.skip(1), 4, 0);
                }
                let target = match u32::deserialize(input) {
                    Ok(t) => t,
                    Err(e) => return Err(e),
                };
                proof {
                    lemma_rest_after(b3, *input, 4);
                }
                Ok(Op::BranchF32 { comparison, value, target })
            },
            11 => {
                let comparison = Comparison::read(input)?;
                let ghost b2 = *input;
                proof {
                    lemma_rest_after(b1, *input, 1);
                    lemma_skip_skip(f, 1, 0);
                }
                let value = match u64::deserialize(input) {
                    Ok(v) => v,
                    Err(e) => return Err(e),
                };
                let ghost b3 = *input;
                proof {
                    lemma_rest_after(b2, *input, 8);
                    lemma_skip_skip(f.skip(1), 8, 0);
                }
                let target = match u32::deserialize(input) {
                    Ok(t) => t,
                    Err(e) => return Err(e),
                };
                proof {
                    lemma_rest_after(b3, *input, 4);
                }
                Ok(Op::BranchF64 { comparison, value, target })
            },
            12 => {
                let target = u32::deserialize(input)?;
                Ok(Op::Jump { target })
            },
            13 => {
                let target = u32::deserialize(input)?;
                Ok(Op::Call { target })
            },
            14 => Ok(Op::Return),
            15 => {
                let frames = u16::deserialize(input)?;
                Ok(Op::Wait { frames })
            },
            16 => {
                let fname = String::deserialize(input)?;
                Ok(Op::RunCustom { fname })
            },
            _ => {
                let fname = String::deserialize(input)?;
                let ghost l1 = (input.pos - b1.pos) as nat;
                proof {
                    lemma_rest_after(b1, *input, l1);
                }
                let ghost b2 = *input;
                let target = u32::deserialize(input)?;
                proof {
                    lemma_rest_after(b2, *input, 4);
                }
                Ok(Op::BranchCustom { fname, target })
            },
        }
    }
}

/// Reads the operands of a branch on a typed value: the comparison, the value with its type,
/// and the target.
fn read_typed_branch(input: &mut ByteReader) -> (out: Result<(Comparison, TypedValue, u32), AssetError>)
    requires
        old(input).wf(),
        !(typed_branch_outcome(old(input).rest()) is BadTag),
    ensures
        final(input).wf(),
        final(input).data@ == old(input).data@,
        match out {
            Ok((comparison, value, target)) => {
                let f = old(input).rest();
                let g = f.skip(1);
                &&& final(input).pos >= old(input).pos
                &&& typed_branch_outcome(f) == ParseOutcome::Value((final(input).pos - old(input).pos) as nat)
                &&& comparison == comparison_of(f[0])
                &&& is_typed_at(g, value@)
                &&& target as nat == le_value(g.skip(offset_of(typed_outcome(g)) as int), 4)
            },
            Err(e) => outcome_error(typed_branch_outcome(old(input).rest()), e),
        },
{
    let ghost f = input.rest();
    let ghost b0 = *input;
    let comparison = Comparison::read(input)?;
    let ghost g = f.skip(1);
    proof {
        lemma_rest_after(b0, *input, 1);
    }
    let ghost b1 = *input;
    let value = read_typed_value(input)?;
    let ghost l = (input.pos - b1.pos) as nat;
    proof {
        lemma_rest_after(b1, *input, l);
        lemma_skip_skip(g, l, 0);
    }
    let ghost b2 = *input;
    let target = u32::deserialize(input)?;
    proof {
        lemma_rest_after(b2, *input, 4);
    }
    Ok((comparison, value, target))
}


/// A sequence asset: its metadata, the node it runs on and its script.
#[derive(Debug, PartialEq)]
pub struct Sequence {
    pub meta: AssetMeta,
    pub node: String,
    pub script: Vec<Op>,
}

/// What reading `k` operations one after the other from `s` gives.
pub open spec fn ops_outcome(s: Seq<u8>, k: nat) -> ParseOutcome
    decreases k,
{
    if k == 0 {
        ParseOutcome::Value(0)
    } else {
        match ops_outcome(s, (k - 1) as nat) {
            ParseOutcome::Value(off) => if off <= s.len() {
                after(off, op_outcome(s.skip(off as int)))
            } else {
                ParseOutcome::Eof
            },
            other => other,
        }
    }
}

/// Whether the first `k` of `ops` are the operations one after the other at the start of `s`.
pub open spec fn ops_are(s: Seq<u8>, ops: Seq<Op>, k: nat) -> bool
    decreases k,
{
    if k == 0 {
        true
    } else {
        ops_are(s, ops, (k - 1) as nat) && match ops_outcome(s, (k - 1) as nat) {
            ParseOutcome::Value(off) => off <= s.len() && is_op(s.skip(off as int), ops[k - 1]),
            _ => false,
        }
    }
}

/// The outcomes of reading the parts of a sequence from `input`, one after the other: the
/// metadata, the node, the number of operations, and the operations.
pub open spec fn sequence_outcomes(input: Seq<u8>) -> (ParseOutcome, ParseOutcome, ParseOutcome, ParseOutcome) {
    let r1 = meta_outcome(input);
    let r2 = chain_outcome(r1, |o: nat| <String as Deserialize>::outcome(input.skip(o as int)));
    let r3 = chain_outcome(r2, |o: nat| fixed_outcome(input.skip(o as int), 4));
    let r4 = chain_outcome(
        r3,
        |o: nat| ops_outcome(input.skip(o as int), le_value(input.skip(offset_of(r2) as int), 4)),
    );
    (r1, r2, r3, r4)
}

/// What reading a sequence from `input` gives.
pub open spec fn sequence_outcome(input: Seq<u8>) -> ParseOutcome {
    sequence_outcomes(input).3
}

/// Whether `sq` is the sequence at the start of `input`.
pub open spec fn is_sequence(input: Seq<u8>, sq: Sequence) -> bool {
    let (r1, r2, r3, r4) = sequence_outcomes(input);
    &&& r4 is Value
    &&& is_meta(input, sq.meta)
    &&& sq.node@ == text_at(input.skip(offset_of(r1) as int))
    &&& sq.script@.len() == le_value(input.skip(offset_of(r2) as int), 4)
    &&& ops_are(input.skip(offset_of(r3) as int), sq.script@, sq.script@.len())
}

proof fn lemma_ops_stuck(s: Seq<u8>, j: nat, k: nat)
    requires
        j <= k,
        !(ops_outcome(s, j) is Value),
    ensures
        ops_outcome(s, k) == ops_outcome(s, j),
    decreases k,
{
    if j < k {
        lemma_ops_stuck(s, j, (k - 1) as nat);
    }
}

proof fn lemma_ops_are_prefix(s: Seq<u8>, ops: Seq<Op>, more: Seq<Op>, k: nat)
    requires
        k <= ops.len(),
        k <= more.len(),
        forall|j: int| 0 <= j < k ==> ops[j] == more[j],
        ops_are(s, ops, k),
    ensures
        ops_are(s, more, k),
    decreases k,
{
    if k > 0 {
        lemma_ops_are_prefix(s, ops, more, (k - 1) as nat);
    }
}

impl Sequence {
    /// Reads a sequence: its metadata, the node it runs on, the number of operations as a
    /// `u32`, and the operations.
    pub fn read(input: &mut ByteReader) -> (out: Result<Sequence, AssetError>)
        requires
            old(input).wf(),
            !(sequence_outcome(old(input).rest()) is BadTag),
        ensures
            final(input).wf(),
            final(input).data@ == old(input).data@,
            match out {
                Ok(sq) => final(input).pos >= old(input).pos && sequence_outcome(old(input).rest())
                    == ParseOutcome::Value((final(input).pos - old(input).pos) as nat) && is_sequence(old(input).rest(), sq),
                Err(e) => outcome_error(sequence_outcome(old(input).rest()), e),
            },
    {
        let ghost r0 = input.rest();
        let ghost b0 = *input;
        let meta = AssetMeta::read(input)?;
        let ghost o1 = offset_of(sequence_outcomes(r0).0);
        proof {
            lemma_rest_after(b0, *input, o1);
        }
        let node = String::deserialize(input)?;
        let ghost o2 = offset_of(sequence_outcomes(r0).1);
        proof {
            lemma_rest_after(b0, *input, o2);
        }
        let script_len = u32::deserialize(input)?;
        let ghost o3 = offset_of(sequence_outcomes(r0).2);
        let ghost t = r0.skip(o3 as int);
        proof {
            lemma_rest_after(b0, *input, o3);
            assert(t.skip(0) =~= t);
        }
        let mut script: Vec<Op> = Vec::new();
        let mut i: u32 = 0;
        let ghost mut off: nat = 0;
        while i < script_len
            invariant
                input.wf(),
                b0 == *old(input),
                b0.wf(),
                input.data@ == b0.data@,
                r0 == b0.rest(),
                o3 == offset_of(sequence_outcomes(r0).2),
                sequence_outcomes(r0).2 == ParseOutcome::Value(o3),
                o3 <= r0.len(),
                t == r0.skip(o3 as int),
                script_len as nat == le_value(r0.skip(offset_of(sequence_outcomes(r0).1) as int), 4),
                !(sequence_outcome(r0) is BadTag),
                i <= script_len,
                script@.len() == i,
                ops_outcome(t, i as nat) == ParseOutcome::Value(off),
                off <= t.len(),
                input.rest() == t.skip(off as int),
                input.pos == b0.pos + o3 + off,
                ops_are(t, script@, i as nat),
            decreases script_len - i,
        {
            proof {
                if op_outcome(t.skip(off as int)) is BadTag {
                    lemma_ops_stuck(t, (i + 1) as nat, script_len as nat);
                }
            }
            let ghost before = *input;
            let op = match Op::read(input) {
                Ok(op) => op,
                Err(e) => {
                    proof {
                        lemma_ops_stuck(t, (i + 1) as nat, script_len as nat);
                    }
                    return Err(e);
                },
            };
            proof {
                let l = (input.pos - before.pos) as nat;
                lemma_rest_after(before, *input, l);
                lemma_skip_skip(t, off, l);
                off = off + l;
            }
            let ghost prev = script@;
            script.push(op);
            proof {
                lemma_ops_are_prefix(t, prev, script@, i as nat);
            }
            i = i + 1;
        }
        proof {
            lemma_rest_after(b0, *input, o3 + off);
        }
        Ok(Sequence { meta, node, script })
    }
}

/// Whether `out` is what the answer `response` to a request to load a sequence gives: a status
/// byte, then the sequence when the status is 0, or else an exception report.
pub open spec fn is_sequence_answer(response: Seq<u8>, out: Result<Sequence, AssetError>) -> bool {
    if response.len() == 0 {
        out matches Err(e) && is_eof_error(e)
    } else if response[0] == 0 {
        match out {
            Ok(sq) => is_sequence(response.skip(1), sq),
            Err(e) => outcome_error(sequence_outcome(response.skip(1)), e),
        }
    } else {
        out matches Err(e) && is_reported_error(response.skip(1), e)
    }
}

/// Reads a sequence from the asset server's answer to a request to load it.
pub fn load_sequence(response: &[u8]) -> (out: Result<Sequence, AssetError>)
    requires
        response@.len() > 0 && response@[0] == 0 ==> !(sequence_outcome(response@.skip(1)) is BadTag),
    ensures
        is_sequence_answer(response@, out),
{
    let mut input = ByteReader::new(response);
    let status = input.read_exact(1)?;
    proof {
        assert(input.rest() =~= response@.skip(1));
    }
    if status[0] == 0 {
        Ok(Sequence::read(&mut input)?)
    } else {
        Err(AssetError::read(&mut input))
    }
}

} // verus!

use lib::assets::Comparison;
use lib::sequence_decode::Op;
use lib::sequencer::{Effect, GenSequencer};

/// Runs operations until the sequencer waits or ends, collecting the work on the node; every
/// field test passes when `passes` says so.
fn update(sequencer: &mut GenSequencer, passes: bool) -> Vec<Effect> {
    let mut effects = Vec::new();
    while let Some(op) = sequencer.fetch_next() {
        let effect = sequencer.run_single_op(op, passes);
        if effect != Effect::Nothing {
            effects.push(effect);
        }
    }
    effects
}

#[test]
fn operations_run_until_a_wait() {
    let script = [
        Op::PushOffset(4),
        Op::PushOffset(2),
        Op::SetField { data_idx: 0, len: 2 },
        Op::Wait { num_updates: 1 },
        Op::ModifyFieldInt { data_idx: 2, len: 1 },
        Op::Return,
    ];
    let mut sequencer = GenSequencer::new(&script);
    assert_eq!(
        update(&mut sequencer, false),
        vec![Effect::SetField {
            offset: 6,
            data_idx: 0,
            len: 2
        }]
    );
    assert_eq!(sequencer.position, 4);
    // The update that meets the wait already counts it down.
    assert_eq!(sequencer.wait_timer, 0);
    assert_eq!(
        update(&mut sequencer, false),
        vec![Effect::ModifyFieldInt {
            offset: 0,
            data_idx: 2,
            len: 1
        }]
    );
    // Returning from the main script ends the sequence.
    assert_eq!(sequencer.position, script.len());
    assert_eq!(update(&mut sequencer, false), vec![]);
}

#[test]
fn calls_and_branches() {
    let script = [
        Op::CallSub { target: 4 },
        Op::Wait { num_updates: 0 },
        Op::Return,
        Op::Return,
        Op::BranchUInt {
            comparison: Comparison::Equals,
            rhs_idx: 0,
            rhs_len: 1,
            target: 6,
        },
        Op::Return,
        Op::Jump { target: 2 },
    ];
    let mut sequencer = GenSequencer::new(&script);
    assert_eq!(sequencer.fetch_next(), Some(Op::CallSub { target: 4 }));
    sequencer.run_single_op(Op::CallSub { target: 4 }, false);
    assert_eq!(sequencer.position, 4);
    assert_eq!(sequencer.call_stack, vec![script.len(), 2]);
    let op = sequencer.fetch_next().unwrap();
    sequencer.run_single_op(op, true);
    assert_eq!(sequencer.position, 6);
    let op = sequencer.fetch_next().unwrap();
    sequencer.run_single_op(op, true);
    assert_eq!(sequencer.position, 2);
    let op = sequencer.fetch_next().unwrap();
    assert_eq!(op, Op::Return);
    sequencer.run_single_op(op, true);
    assert_eq!(sequencer.position, 2);
    assert_eq!(sequencer.call_stack, vec![script.len()]);
}

#[test]
fn float_additions_keep_the_offset() {
    let script = [
        Op::PushOffset(8),
        Op::ModifyFieldF32(0),
        Op::ModifyFieldF64(4),
    ];
    let mut sequencer = GenSequencer::new(&script);
    assert_eq!(
        update(&mut sequencer, false),
        vec![
            Effect::ModifyFieldF32 {
                offset: 8,
                data_idx: 0
            },
            Effect::ModifyFieldF64 {
                offset: 8,
                data_idx: 4
            }
        ]
    );
}

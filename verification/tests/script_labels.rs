use lib::script_labels::{rename_labels, validate_labels, SkyliteProcError};
use lib::sequence_ir::{InputLine, InputOp};

fn line(labels: &[&str], input_op: InputOp) -> InputLine {
    InputLine {
        labels: labels.iter().map(|l| l.to_string()).collect(),
        input_op,
    }
}

fn jump(label: &str) -> InputOp {
    InputOp::Jump {
        label: label.to_owned(),
    }
}

fn anonymous_script() -> Vec<InputLine> {
    vec![
        line(&["-"], InputOp::Wait { updates: 1 }),
        line(&["-"], jump("-")),
        line(&[], jump("+")),
        line(&["+"], jump("+")),
        line(&["+", "loop"], InputOp::Wait { updates: 2 }),
        line(
            &[],
            InputOp::BranchCustom {
                id: "cond".to_owned(),
                label: "loop".to_owned(),
            },
        ),
    ]
}

#[test]
fn anonymous_labels_are_numbered_in_order() {
    let mut script = anonymous_script();
    assert!(validate_labels(&script).is_ok());
    rename_labels(&mut script, "s");
    assert_eq!(
        script,
        vec![
            line(&["s-b---0"], InputOp::Wait { updates: 1 }),
            line(&["s-b---1"], jump("s-b---0")),
            line(&[], jump("s-f-+-0")),
            line(&["s-f-+-0"], jump("s-f-+-1")),
            line(&["s-f-+-1", "s-l-loop"], InputOp::Wait { updates: 2 }),
            line(
                &[],
                InputOp::BranchCustom {
                    id: "cond".to_owned(),
                    label: "s-l-loop".to_owned()
                }
            ),
        ]
    );
}

#[test]
fn labels_numbered_past_ten() {
    let mut script: Vec<InputLine> = (0..12)
        .map(|_| line(&["-"], InputOp::Return))
        .collect();
    script.push(line(&[], jump("-")));
    rename_labels(&mut script, "main");
    assert_eq!(script[11].labels, vec!["main-b---11".to_owned()]);
    assert_eq!(script[12].input_op, jump("main-b---11"));
}

#[test]
fn missing_targets_are_reported() {
    let script = vec![line(&["a"], jump("b"))];
    match validate_labels(&script) {
        Err(SkyliteProcError::DataError(msg)) => assert_eq!(msg, "Jump target b not found"),
        other => panic!("unexpected {:?}", other),
    }
}

#[test]
fn anonymous_targets_are_searched_in_their_direction() {
    let backward_to_later = vec![line(&[], jump("-")), line(&["-"], InputOp::Return)];
    assert!(validate_labels(&backward_to_later).is_err());
    let forward_to_earlier = vec![line(&["+"], InputOp::Return), line(&[], jump("+"))];
    assert!(validate_labels(&forward_to_earlier).is_err());
    let forward_to_later = vec![line(&[], jump("+")), line(&["+"], InputOp::Return)];
    assert!(validate_labels(&forward_to_later).is_ok());
    let named_anywhere = vec![line(&[], jump("x")), line(&["x"], InputOp::Return)];
    assert!(validate_labels(&named_anywhere).is_ok());
}

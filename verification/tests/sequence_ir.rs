use lib::assets::Comparison;
use lib::script_labels::SkyliteProcError;
use lib::sequence_ir::{
    append_subroutine, end_script_section, expect_numeric_type, generate_ir, input_to_ir_single,
    sequence_to_ir, BranchCondition, Field, FieldPathSegment, InputLine,
    InputOp, OpIR, OpIRLine, Sequence, Type, TypedValue,
};

fn input_line(labels: &[&str], input_op: InputOp) -> InputLine {
    InputLine {
        labels: labels.iter().map(|l| l.to_string()).collect(),
        input_op,
    }
}

fn ir_line(labels: &[&str], op_ir: OpIR) -> OpIRLine {
    OpIRLine {
        labels: labels.iter().map(|l| l.to_string()).collect(),
        op_ir,
    }
}

fn segment(node: &str, property: &str) -> FieldPathSegment {
    FieldPathSegment(node.to_owned(), property.to_owned())
}

#[test]
fn test_compile_to_ir() {
    let sequence = Sequence {
        target_node_name: "TestNode1".to_owned(),
        subs: vec![(
            "sub1".to_owned(),
            vec![input_line(&[], InputOp::Wait { updates: 5 })],
        )],
        script: vec![
            input_line(
                &["start"],
                InputOp::SetValue {
                    field: Field {
                        path: vec![
                            segment("TestNode1", "static-1"),
                            segment("TestNode2", "prop-2"),
                        ],
                        typename: Type::U8,
                    },
                    val: TypedValue::U8(5),
                },
            ),
            input_line(
                &["second"],
                InputOp::Branch {
                    condition: BranchCondition::Equals(
                        Field {
                            path: vec![segment("TestNode1", "prop-1")],
                            typename: Type::U16,
                        },
                        TypedValue::U16(10),
                    ),
                    label: "start".to_owned(),
                },
            ),
            input_line(
                &[],
                InputOp::CallSub {
                    sub: "sub1".to_owned(),
                },
            ),
            input_line(
                &[],
                InputOp::Jump {
                    label: "second".to_owned(),
                },
            ),
        ],
    };

    let ir = sequence_to_ir(&sequence);

    assert_eq!(
        ir,
        vec![
            ir_line(
                &["start"],
                OpIR::PushOffset("TestNode1".to_owned(), "static_1".to_owned())
            ),
            ir_line(
                &[],
                OpIR::PushOffset("TestNode2".to_owned(), "prop_2".to_owned())
            ),
            ir_line(
                &[],
                OpIR::SetField {
                    val: TypedValue::U8(5)
                }
            ),
            ir_line(
                &["second"],
                OpIR::PushOffset("TestNode1".to_owned(), "prop_1".to_owned())
            ),
            ir_line(
                &[],
                OpIR::BranchCmp {
                    comparison: Comparison::Equals,
                    rhs: TypedValue::U16(10),
                    label: "start".to_owned()
                }
            ),
            ir_line(
                &[],
                OpIR::CallSub {
                    sub: "sub-sub1".to_owned()
                }
            ),
            ir_line(
                &[],
                OpIR::Jump {
                    label: "second".to_owned()
                }
            ),
            ir_line(&["sub-sub1"], OpIR::Wait { updates: 5 }),
            ir_line(&[], OpIR::Return),
        ]
    )
}

#[test]
fn modify_and_custom_lines() {
    let modify = input_line(
        &["a", "b"],
        InputOp::Modify {
            field: Field {
                path: vec![segment("my-node", "Some Value")],
                typename: Type::F32,
            },
            delta: TypedValue::F32(1.5f32.to_bits()),
        },
    );
    assert_eq!(
        input_to_ir_single(&modify),
        vec![
            ir_line(
                &["a", "b"],
                OpIR::PushOffset("MyNode".to_owned(), "some_value".to_owned())
            ),
            ir_line(
                &[],
                OpIR::ModifyField {
                    delta: TypedValue::F32(1.5f32.to_bits())
                }
            ),
        ]
    );
    let custom = input_line(
        &["x"],
        InputOp::BranchCustom {
            id: "cond".to_owned(),
            label: "x".to_owned(),
        },
    );
    assert_eq!(
        input_to_ir_single(&custom),
        vec![ir_line(
            &["x"],
            OpIR::BranchCustom {
                id: "cond".to_owned(),
                label: "x".to_owned()
            }
        )]
    );
}

#[test]
fn branch_conditions_and_nested_values() {
    let field = || Field {
        path: vec![segment("n", "f")],
        typename: Type::Tuple(vec![Type::I8, Type::String]),
    };
    let value = TypedValue::Tuple(vec![
        TypedValue::I8(-3),
        TypedValue::String("hi".to_owned()),
        TypedValue::Vec(vec![TypedValue::Bool(true)]),
    ]);
    let line = input_line(
        &[],
        InputOp::Branch {
            condition: BranchCondition::GreaterEquals(field(), value.clone()),
            label: "l".to_owned(),
        },
    );
    assert_eq!(
        input_to_ir_single(&line),
        vec![
            ir_line(&[], OpIR::PushOffset("N".to_owned(), "f".to_owned())),
            ir_line(
                &[],
                OpIR::BranchCmp {
                    comparison: Comparison::GreaterEquals,
                    rhs: value.clone(),
                    label: "l".to_owned()
                }
            ),
        ]
    );
    let if_false = input_line(
        &[],
        InputOp::Branch {
            condition: BranchCondition::IfFalse(field()),
            label: "l".to_owned(),
        },
    );
    assert_eq!(
        input_to_ir_single(&if_false)[1],
        ir_line(
            &[],
            OpIR::BranchIfFalse {
                label: "l".to_owned()
            }
        )
    );
}

#[test]
fn sections_end_with_return_or_jump() {
    let mut script = generate_ir(&[input_line(&[], InputOp::Return)]);
    end_script_section(&mut script);
    assert_eq!(script, vec![ir_line(&[], OpIR::Return)]);

    let mut script = generate_ir(&[input_line(&[], InputOp::Wait { updates: 1 })]);
    end_script_section(&mut script);
    assert_eq!(
        script,
        vec![
            ir_line(&[], OpIR::Wait { updates: 1 }),
            ir_line(&[], OpIR::Return)
        ]
    );
}

#[test]
fn subroutine_calls_are_renamed_everywhere() {
    let mut script = vec![
        ir_line(&[], OpIR::CallSub { sub: "s".to_owned() }),
        ir_line(&[], OpIR::CallSub { sub: "t".to_owned() }),
        ir_line(&[], OpIR::Return),
    ];
    let sub = vec![
        ir_line(&["inner"], OpIR::CallSub { sub: "s".to_owned() }),
        ir_line(&[], OpIR::Return),
    ];
    append_subroutine(&mut script, "s", sub);
    assert_eq!(
        script,
        vec![
            ir_line(&[], OpIR::CallSub { sub: "sub-s".to_owned() }),
            ir_line(&[], OpIR::CallSub { sub: "t".to_owned() }),
            ir_line(&[], OpIR::Return),
            ir_line(&["inner", "sub-s"], OpIR::CallSub { sub: "sub-s".to_owned() }),
            ir_line(&[], OpIR::Return),
        ]
    );
}

#[test]
fn numeric_types() {
    assert!(expect_numeric_type(&Type::F64).is_ok());
    assert!(expect_numeric_type(&Type::I8).is_ok());
    match expect_numeric_type(&Type::Bool) {
        Err(SkyliteProcError::DataError(msg)) => assert_eq!(msg, "Expected numeric type"),
        other => panic!("unexpected {:?}", other),
    }
    assert!(expect_numeric_type(&Type::Vec(Box::new(Type::U8))).is_err());
}

use lib::scheme_ops::{
    branch_condition_from_scheme, input_op_from_scheme, Datum, FieldEntry, NodeListEntry, SchemeNumber,
    SchemeValue,
};
use lib::script_labels::SkyliteProcError;
use lib::sequence_ir::{BranchCondition, Field, FieldPathSegment, InputOp, Type, TypedValue};

fn sym(s: &str) -> Datum {
    Datum { value: SchemeValue::Symbol(s.to_owned()), written: s.to_owned() }
}

fn integer(i: i64) -> Datum {
    Datum {
        value: SchemeValue::Number(SchemeNumber { int: Some(i), f32_bits: (i as f32).to_bits(), f64_bits: (i as f64).to_bits() }),
        written: i.to_string(),
    }
}

fn decimal_number(x: f64) -> Datum {
    Datum {
        value: SchemeValue::Number(SchemeNumber { int: None, f32_bits: (x as f32).to_bits(), f64_bits: x.to_bits() }),
        written: x.to_string(),
    }
}

fn list(items: Vec<Datum>) -> Datum {
    let written = format!("({})", items.iter().map(|d| d.written.clone()).collect::<Vec<_>>().join(" "));
    Datum { value: SchemeValue::List(items), written }
}

fn field(name: &str, typename: Type) -> Field {
    Field { path: vec![FieldPathSegment("node".to_owned(), name.to_owned())], typename }
}

fn fields() -> Vec<FieldEntry> {
    vec![
        FieldEntry { path: "flag".to_owned(), field: Ok(field("flag", Type::Bool)) },
        FieldEntry { path: "count".to_owned(), field: Ok(field("count", Type::U8)) },
        FieldEntry { path: "speed".to_owned(), field: Ok(field("speed", Type::F32)) },
        FieldEntry { path: "name".to_owned(), field: Ok(field("name", Type::String)) },
        FieldEntry {
            path: "pair".to_owned(),
            field: Ok(field("pair", Type::Tuple(vec![Type::U8, Type::Vec(Box::new(Type::I16))]))),
        },
        FieldEntry { path: "list".to_owned(), field: Ok(field("list", Type::NodeList)) },
        FieldEntry {
            path: "missing".to_owned(),
            field: Err(SkyliteProcError::DataError("Property not found one node: missing".to_owned())),
        },
    ]
}

fn data_error(r: Result<InputOp, SkyliteProcError>) -> String {
    match r {
        Err(SkyliteProcError::DataError(m)) => m,
        other => panic!("expected a data error, got {other:?}"),
    }
}

fn syntax_error(r: Result<InputOp, SkyliteProcError>) -> String {
    match r {
        Err(SkyliteProcError::SyntaxError(m)) => m,
        other => panic!("expected a syntax error, got {other:?}"),
    }
}

#[test]
fn branch_conditions_are_read() {
    assert_eq!(
        branch_condition_from_scheme(&sym("flag"), fields()).unwrap(),
        BranchCondition::IfTrue(field("flag", Type::Bool))
    );
    assert_eq!(
        branch_condition_from_scheme(&list(vec![sym("!"), sym("flag")]), fields()).unwrap(),
        BranchCondition::IfFalse(field("flag", Type::Bool))
    );
    assert_eq!(
        branch_condition_from_scheme(&list(vec![sym("=="), sym("count"), integer(5)]), fields()).unwrap(),
        BranchCondition::Equals(field("count", Type::U8), TypedValue::U8(5))
    );
    assert_eq!(
        branch_condition_from_scheme(&list(vec![sym(">="), sym("speed"), decimal_number(1.5)]), fields()).unwrap(),
        BranchCondition::GreaterEquals(field("speed", Type::F32), TypedValue::F32(1.5f32.to_bits()))
    );
    assert_eq!(
        branch_condition_from_scheme(&list(vec![sym("flag")]), fields()).unwrap(),
        BranchCondition::IfTrue(field("flag", Type::Bool))
    );
    match branch_condition_from_scheme(&list(vec![sym("<"), sym("name"), integer(1)]), fields()) {
        Err(SkyliteProcError::DataError(m)) => assert_eq!(m, "Expected numeric type"),
        other => panic!("{other:?}"),
    }
    match branch_condition_from_scheme(&sym("count"), fields()) {
        Err(SkyliteProcError::DataError(m)) => assert_eq!(m, "Expected bool for branch condition."),
        other => panic!("{other:?}"),
    }
    match branch_condition_from_scheme(&list(vec![sym("~"), sym("count"), integer(1)]), fields()) {
        Err(SkyliteProcError::SyntaxError(m)) => assert_eq!(m, "Unknown operator ~"),
        other => panic!("{other:?}"),
    }
    match branch_condition_from_scheme(&list(vec![sym("!="), sym("count")]), fields()) {
        Err(SkyliteProcError::SyntaxError(m)) => {
            assert_eq!(m, "branch if not equals (!=): expected 2 arguments, got 1")
        }
        other => panic!("{other:?}"),
    }
}

#[test]
fn operations_are_read() {
    assert_eq!(
        input_op_from_scheme(&list(vec![sym("set"), sym("count"), integer(7)]), fields(), &[]).unwrap(),
        InputOp::SetValue { field: field("count", Type::U8), val: TypedValue::U8(7) }
    );
    let pair = list(vec![integer(1), list(vec![integer(-2), integer(3)])]);
    assert_eq!(
        input_op_from_scheme(&list(vec![sym("set"), sym("pair"), pair]), fields(), &[]).unwrap(),
        InputOp::SetValue {
            field: field("pair", Type::Tuple(vec![Type::U8, Type::Vec(Box::new(Type::I16))])),
            val: TypedValue::Tuple(vec![TypedValue::U8(1), TypedValue::Vec(vec![TypedValue::I16(-2), TypedValue::I16(3)])]),
        }
    );
    let lists = [NodeListEntry { name: "enemies".to_owned(), id: 4 }];
    assert_eq!(
        input_op_from_scheme(&list(vec![sym("set"), sym("list"), sym("enemies")]), fields(), &lists).unwrap(),
        InputOp::SetValue { field: field("list", Type::NodeList), val: TypedValue::NodeList(4) }
    );
    assert_eq!(
        input_op_from_scheme(&list(vec![sym("modify"), sym("count"), integer(2)]), fields(), &[]).unwrap(),
        InputOp::Modify { field: field("count", Type::U8), delta: TypedValue::U8(2) }
    );
    assert_eq!(
        input_op_from_scheme(&list(vec![sym("branch"), sym("flag"), sym("end")]), fields(), &[]).unwrap(),
        InputOp::Branch { condition: BranchCondition::IfTrue(field("flag", Type::Bool)), label: "end".to_owned() }
    );
    assert_eq!(
        input_op_from_scheme(&list(vec![sym("jump"), sym("start")]), fields(), &[]).unwrap(),
        InputOp::Jump { label: "start".to_owned() }
    );
    assert_eq!(
        input_op_from_scheme(&list(vec![sym("call"), sym("sub")]), fields(), &[]).unwrap(),
        InputOp::CallSub { sub: "sub".to_owned() }
    );
    assert_eq!(input_op_from_scheme(&list(vec![sym("return")]), fields(), &[]).unwrap(), InputOp::Return);
    assert_eq!(
        input_op_from_scheme(&list(vec![sym("wait"), integer(30)]), fields(), &[]).unwrap(),
        InputOp::Wait { updates: 30 }
    );
    assert_eq!(
        input_op_from_scheme(&list(vec![sym("run-custom"), sym("f")]), fields(), &[]).unwrap(),
        InputOp::RunCustom { id: "f".to_owned() }
    );
    assert_eq!(
        input_op_from_scheme(&list(vec![sym("branch-custom"), sym("f"), sym("l")]), fields(), &[]).unwrap(),
        InputOp::BranchCustom { id: "f".to_owned(), label: "l".to_owned() }
    );
}

#[test]
fn operation_errors_say_what_went_wrong() {
    assert_eq!(
        syntax_error(input_op_from_scheme(&list(vec![]), fields(), &[])),
        "Expected sequence directive, got empty list"
    );
    assert_eq!(
        syntax_error(input_op_from_scheme(&list(vec![sym("fly")]), fields(), &[])),
        "Illegal sequence directive 'fly'"
    );
    assert_eq!(
        syntax_error(input_op_from_scheme(&list(vec![sym("return"), integer(1)]), fields(), &[])),
        "return: expected 0 arguments, got 1"
    );
    assert_eq!(data_error(input_op_from_scheme(&sym("set"), fields(), &[])), "Not a list: set");
    assert_eq!(
        data_error(input_op_from_scheme(&list(vec![integer(1)]), fields(), &[])),
        "Expected symbol, found 1"
    );
    assert_eq!(
        data_error(input_op_from_scheme(&list(vec![sym("set"), sym("count"), integer(300)]), fields(), &[])),
        "out of range integral type conversion attempted"
    );
    assert_eq!(
        data_error(input_op_from_scheme(&list(vec![sym("set"), sym("count"), sym("x")]), fields(), &[])),
        "Expected integer, found x"
    );
    assert_eq!(
        data_error(input_op_from_scheme(&list(vec![sym("set"), sym("missing"), integer(1)]), fields(), &[])),
        "Property not found one node: missing"
    );
    assert_eq!(
        data_error(input_op_from_scheme(&list(vec![sym("set"), sym("list"), sym("nope")]), fields(), &[])),
        "Node list not found: nope"
    );
    assert_eq!(
        data_error(input_op_from_scheme(&list(vec![sym("wait"), integer(-1)]), fields(), &[])),
        "out of range integral type conversion attempted"
    );
    let short_pair = list(vec![integer(1)]);
    assert_eq!(
        data_error(input_op_from_scheme(&list(vec![sym("set"), sym("pair"), short_pair]), fields(), &[])),
        "Tuple definition has differing number of types and values."
    );
}

use lib::asset_sequences::{load_sequence, Op, Sequence};
use lib::asset_values::{NodeArgs, TypedValue};
use lib::assets::{AssetError, AssetMeta, AssetType, Comparison, Type};
use lib::base_serde::{ByteReader, Serialize};

fn push_str(out: &mut Vec<u8>, s: &str) {
    s.to_owned().serialize(out).unwrap();
}

fn push_u32(out: &mut Vec<u8>, v: u32) {
    v.serialize(out).unwrap();
}

fn push_offset(out: &mut Vec<u8>, node: &str, property: &str) {
    out.push(0);
    push_str(out, node);
    push_str(out, property);
}

/// The answer of the asset server to a request for the sequence `sequence1` of the test
/// project.
fn sequence_answer() -> Vec<u8> {
    let mut out = vec![0u8];
    push_u32(&mut out, 7);
    push_str(&mut out, "sequence1");
    out.push(3);
    push_u32(&mut out, 0);
    push_str(&mut out, "node2");
    push_u32(&mut out, 12);
    push_offset(&mut out, "node2", "prop-u16");
    out.extend_from_slice(&[1, 1, 5, 0]);
    push_offset(&mut out, "node2", "prop-string");
    out.push(2);
    push_str(&mut out, "hello");
    out.push(4);
    push_u32(&mut out, 1.0f32.to_bits());
    out.push(5);
    (-1.0f64).to_bits().serialize(&mut out).unwrap();
    out.extend_from_slice(&[8, 2, 1, 10, 0, 0, 0, 0, 0]);
    out.extend_from_slice(&[9, 3, 5, 10, 0, 0, 0, 0, 0]);
    out.extend_from_slice(&[10, 0]);
    push_u32(&mut out, 10.0f32.to_bits());
    push_u32(&mut out, 0);
    out.extend_from_slice(&[11, 1]);
    10.0f64.to_bits().serialize(&mut out).unwrap();
    push_u32(&mut out, 0);
    out.extend_from_slice(&[13, 28, 0, 0, 0]);
    out.extend_from_slice(&[17]);
    push_str(&mut out, "custom-cond");
    push_u32(&mut out, 0);
    out
}

#[test]
fn sequence_from_answer() {
    let sequence = load_sequence(&sequence_answer()).unwrap();
    assert_eq!(
        sequence,
        Sequence {
            meta: AssetMeta {
                id: 7,
                name: "sequence1".to_owned(),
                asset_type: AssetType::Sequence,
                tracked_paths: vec![],
            },
            node: "node2".to_string(),
            script: vec![
                Op::PushOffset {
                    node: "node2".to_owned(),
                    property: "prop-u16".to_owned()
                },
                Op::SetValue {
                    value: TypedValue::U16(5)
                },
                Op::PushOffset {
                    node: "node2".to_owned(),
                    property: "prop-string".to_owned()
                },
                Op::SetString {
                    value: "hello".to_owned()
                },
                Op::ModifyF32 {
                    value: 1.0f32.to_bits()
                },
                Op::ModifyF64 {
                    value: (-1.0f64).to_bits()
                },
                Op::BranchUInt {
                    comparison: Comparison::LessThan,
                    value: TypedValue::U16(10),
                    target: 0
                },
                Op::BranchSInt {
                    comparison: Comparison::GreaterThan,
                    value: TypedValue::I16(10),
                    target: 0
                },
                Op::BranchF32 {
                    comparison: Comparison::Equals,
                    value: 10.0f32.to_bits(),
                    target: 0
                },
                Op::BranchF64 {
                    comparison: Comparison::NotEquals,
                    value: 10.0f64.to_bits(),
                    target: 0
                },
                Op::Call { target: 28 },
                Op::BranchCustom {
                    fname: "custom-cond".to_owned(),
                    target: 0
                },
            ]
        }
    );
}

#[test]
fn truncated_sequence_is_an_io_error() {
    let answer = sequence_answer();
    let err = load_sequence(&answer[..answer.len() - 3]).unwrap_err();
    assert!(matches!(err, AssetError::IOError(_)));
}

#[test]
fn simple_operations_by_opcode() {
    let mut data = vec![6u8, 3, 0, 0, 0, 7, 4, 0, 0, 0, 12, 9, 0, 0, 0, 14, 15, 2, 1];
    data.push(16);
    push_str(&mut data, "custom-fn");
    let mut input = ByteReader::new(&data);
    assert_eq!(Op::read(&mut input).unwrap(), Op::BranchIfTrue { target: 3 });
    assert_eq!(Op::read(&mut input).unwrap(), Op::BranchIfFalse { target: 4 });
    assert_eq!(Op::read(&mut input).unwrap(), Op::Jump { target: 9 });
    assert_eq!(Op::read(&mut input).unwrap(), Op::Return);
    assert_eq!(Op::read(&mut input).unwrap(), Op::Wait { frames: 0x102 });
    assert_eq!(
        Op::read(&mut input).unwrap(),
        Op::RunCustom {
            fname: "custom-fn".to_owned()
        }
    );
    assert!(Op::read(&mut input).is_err());
}

#[test]
fn typed_values_follow_their_types() {
    let mut data: Vec<u8> = Vec::new();
    // a vector of two i8
    push_u32(&mut data, 2);
    data.extend_from_slice(&[0xff, 0x05]);
    // a tuple (bool, string)
    data.push(1);
    push_str(&mut data, "ab");
    // a node with one argument, an u32
    push_u32(&mut data, 1);
    data.push(2);
    push_u32(&mut data, 0x01020304);
    // a node list by name
    push_str(&mut data, "list");
    let mut input = ByteReader::new(&data);
    assert_eq!(
        TypedValue::read(&mut input, &Type::Vec(Box::new(Type::I8))).unwrap(),
        TypedValue::Vec(vec![TypedValue::I8(-1), TypedValue::I8(5)])
    );
    assert_eq!(
        TypedValue::read(&mut input, &Type::Tuple(vec![Type::Bool, Type::String])).unwrap(),
        TypedValue::Tuple(vec![
            TypedValue::Bool(true),
            TypedValue::String("ab".to_owned())
        ])
    );
    assert_eq!(
        TypedValue::read(&mut input, &Type::Node("n".to_owned())).unwrap(),
        TypedValue::Node(NodeArgs {
            args: vec![TypedValue::U32(0x01020304)]
        })
    );
    assert_eq!(
        TypedValue::read(&mut input, &Type::NodeList).unwrap(),
        TypedValue::NodeList("list".to_owned())
    );
    assert!(matches!(
        TypedValue::read(&mut input, &Type::U64),
        Err(AssetError::IOError(_))
    ));
}

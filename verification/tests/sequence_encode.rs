use lib::asset_sequences::{Op, Sequence};
use lib::asset_values::TypedValue;
use lib::assets::{AssetMeta, AssetType, Comparison};
use lib::compression::make_decoder;
use lib::decoder::Decoder;
use lib::sequence_encode::{compile_sequences, encode_script, len_of_typed_value};

fn decompress(data: &[u8], len: usize) -> Vec<u8> {
    let mut decoder = make_decoder(data);
    (0..len).map(|_| decoder.decode_u8()).collect()
}

fn push_offset(node: &str, property: &str) -> Op {
    Op::PushOffset {
        node: node.to_owned(),
        property: property.to_owned(),
    }
}

fn run_custom(name: &str) -> Op {
    Op::RunCustom {
        fname: name.to_owned(),
    }
}

#[test]
fn scripts_are_compiled_op_by_op() {
    let f32_bits = 1.5f32.to_bits();
    let f64_bits = (-2.0f64).to_bits();
    let script = vec![
        push_offset("n1", "p1"),
        Op::SetValue {
            value: TypedValue::U16(5),
        },
        push_offset("n2", "p2"),
        push_offset("n1", "p1"),
        Op::SetString {
            value: "hi".to_owned(),
        },
        Op::Modify {
            value: TypedValue::I8(-1),
        },
        Op::ModifyF32 { value: f32_bits },
        Op::Jump { target: 300 },
        Op::Call { target: 2 },
        Op::Return,
        Op::Wait { frames: 1 },
        Op::BranchIfTrue { target: 3 },
        Op::BranchIfFalse { target: 4 },
        Op::BranchUInt {
            comparison: Comparison::LessThan,
            value: TypedValue::U32(7),
            target: 5,
        },
        Op::BranchSInt {
            comparison: Comparison::GreaterThan,
            value: TypedValue::I16(-2),
            target: 6,
        },
        Op::BranchF32 {
            comparison: Comparison::Equals,
            value: f32_bits,
            target: 7,
        },
        Op::BranchF64 {
            comparison: Comparison::NotEquals,
            value: f64_bits,
            target: 8,
        },
        run_custom("b"),
        run_custom("a"),
        run_custom("b"),
        Op::BranchCustom {
            fname: "c".to_owned(),
            target: 9,
        },
    ];
    let mut offsets = vec![("n0".to_owned(), "p0".to_owned())];
    let compiled = encode_script(&script, &mut offsets);

    let mut expected: Vec<u8> = vec![21];
    expected.extend_from_slice(&[0x30, 0, 1]);
    expected.extend_from_slice(&[0x01, 0, 5]);
    expected.extend_from_slice(&[0x30, 0, 2]);
    expected.extend_from_slice(&[0x30, 0, 1]);
    expected.extend_from_slice(&[0x0f, 2, b'h', b'i']);
    expected.extend_from_slice(&[0x10, 0xff]);
    expected.push(0x1e);
    expected.extend_from_slice(&f32_bits.to_be_bytes());
    // 300 is written in two 7-bit groups, the high one first.
    expected.extend_from_slice(&[0x31, 0x82, 0x2c]);
    expected.extend_from_slice(&[0x32, 2]);
    expected.push(0x33);
    expected.extend_from_slice(&[0x34, 1]);
    expected.extend_from_slice(&[0x2e, 3]);
    expected.extend_from_slice(&[0x2f, 4]);
    expected.extend_from_slice(&[0x22, 5, 2, 0, 0, 0, 7]);
    expected.extend_from_slice(&[0x29, 6, 3, 0xff, 0xfe]);
    expected.extend_from_slice(&[0x2c, 7, 0]);
    expected.extend_from_slice(&f32_bits.to_be_bytes());
    expected.extend_from_slice(&[0x2d, 8, 1]);
    expected.extend_from_slice(&f64_bits.to_be_bytes());
    expected.extend_from_slice(&[0x35, 2, 0x35, 0, 0x35, 2]);
    expected.extend_from_slice(&[0x36, 0, 9]);

    assert_eq!(decompress(&compiled, expected.len()), expected);
    assert_eq!(
        offsets,
        vec![
            ("n0".to_owned(), "p0".to_owned()),
            ("n1".to_owned(), "p1".to_owned()),
            ("n2".to_owned(), "p2".to_owned()),
        ]
    );
}

fn sequence(id: u32, script: Vec<Op>) -> Sequence {
    Sequence {
        meta: AssetMeta {
            id,
            name: format!("seq{id}"),
            asset_type: AssetType::Sequence,
            tracked_paths: vec![],
        },
        node: "node".to_owned(),
        script,
    }
}

#[test]
fn sequences_share_field_ids() {
    let sequences = vec![
        sequence(0, vec![push_offset("a", "x"), Op::Return]),
        sequence(1, vec![push_offset("b", "y"), push_offset("a", "x")]),
    ];
    let result = compile_sequences(&sequences);
    assert_eq!(result.compiled_data.len(), 2);
    assert_eq!(
        decompress(&result.compiled_data[0], 5),
        vec![2, 0x30, 0, 0, 0x33]
    );
    assert_eq!(
        decompress(&result.compiled_data[1], 7),
        vec![2, 0x30, 0, 1, 0x30, 0, 0]
    );
    assert_eq!(
        result.required_offsets,
        vec![
            ("a".to_owned(), "x".to_owned()),
            ("b".to_owned(), "y".to_owned())
        ]
    );
}

#[test]
fn value_lengths() {
    assert_eq!(len_of_typed_value(&TypedValue::U8(1)), 1);
    assert_eq!(len_of_typed_value(&TypedValue::I16(1)), 2);
    assert_eq!(len_of_typed_value(&TypedValue::F32(0)), 4);
    assert_eq!(len_of_typed_value(&TypedValue::U64(0)), 8);
    assert_eq!(len_of_typed_value(&TypedValue::Bool(true)), 1);
}

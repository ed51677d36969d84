use lib::assets::Comparison;
use lib::decoder::RawSliceDecoder;
use lib::sequence_decode::Op;

fn decode_all(bytes: &[u8], count: usize, offsets: &[u32]) -> (Vec<Op>, Vec<u8>) {
    let mut decoder = RawSliceDecoder::new(bytes);
    let mut data = Vec::new();
    let ops = (0..count)
        .map(|_| Op::decode(&mut decoder, &mut data, offsets))
        .collect();
    (ops, data)
}

#[test]
fn field_operations_copy_their_operands() {
    let bytes = [
        0x01, 0xaa, 0xbb, // set a 2-byte field
        0x0f, 0x03, b'a', b'b', b'c', // set a string field
        0x10, 0x07, // add to a 1-byte field
        0x1e, 1, 2, 3, 4, // add to an f32 field
        0x1f, 1, 2, 3, 4, 5, 6, 7, 8, // add to an f64 field
    ];
    let (ops, data) = decode_all(&bytes, 5, &[]);
    assert_eq!(
        ops,
        vec![
            Op::SetField { data_idx: 0, len: 2 },
            Op::SetFieldString(2),
            Op::ModifyFieldInt { data_idx: 7, len: 1 },
            Op::ModifyFieldF32(8),
            Op::ModifyFieldF64(12),
        ]
    );
    assert_eq!(&data[0..2], &[0xaa, 0xbb]);
    assert_eq!(u16::from_ne_bytes([data[2], data[3]]), 3);
    assert_eq!(&data[4..7], b"abc");
    assert_eq!(data[7], 0x07);
    assert_eq!(&data[8..12], &[1, 2, 3, 4]);
    assert_eq!(&data[12..20], &[1, 2, 3, 4, 5, 6, 7, 8]);
}

#[test]
fn branches_on_fields() {
    let bytes = [
        0x2e, 0, 0, 0, 9, // if true
        0x2f, 0, 0, 1, 0, // if false
        0x22, 0, 0, 0, 3, 2, 0x12, 0x34, // unsigned, 2 bytes, less than
        0x29, 0, 0, 0, 4, 5, 0xff, // signed, 1 byte, greater or equal
        0x2c, 0, 0, 0, 5, 0, 1, 2, 3, 4, // f32, equals
        0x2d, 0, 0, 0, 6, 1, 1, 2, 3, 4, 5, 6, 7, 8, // f64, not equal
    ];
    let (ops, data) = decode_all(&bytes, 6, &[]);
    assert_eq!(
        ops,
        vec![
            Op::BranchIfTrue { target: 9 },
            Op::BranchIfFalse { target: 256 },
            Op::BranchUInt {
                comparison: Comparison::LessThan,
                rhs_idx: 0,
                rhs_len: 2,
                target: 3
            },
            Op::BranchSInt {
                comparison: Comparison::GreaterEquals,
                rhs_idx: 2,
                rhs_len: 1,
                target: 4
            },
            Op::BranchF32 {
                comparison: Comparison::Equals,
                rhs_idx: 3,
                target: 5
            },
            Op::BranchF64 {
                comparison: Comparison::NotEquals,
                rhs_idx: 7,
                target: 6
            },
        ]
    );
    assert_eq!(data, vec![0x12, 0x34, 0xff, 1, 2, 3, 4, 1, 2, 3, 4, 5, 6, 7, 8]);
}

#[test]
fn control_operations() {
    let bytes = [
        0x30, 0, 0, 0, 1, // push the offset of field 1
        0x31, 0, 0, 0, 2, // jump
        0x32, 0, 0, 0, 3, // call
        0x33, // return
        0x34, 1, 0, // wait 256 updates
        0x35, 0, 7, // run custom 7
        0x36, 0, 8, 0, 0, 0, 9, // branch custom 8 to 9
    ];
    let (ops, data) = decode_all(&bytes, 7, &[100, 200]);
    assert_eq!(
        ops,
        vec![
            Op::PushOffset(200),
            Op::Jump { target: 2 },
            Op::CallSub { target: 3 },
            Op::Return,
            Op::Wait { num_updates: 256 },
            Op::RunCustom { id: 7 },
            Op::BranchCustom { id: 8, target: 9 },
        ]
    );
    assert!(data.is_empty());
}

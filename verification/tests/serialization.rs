use lib::compression::make_decoder;
use lib::decoder::{RawSliceDecoder, SourceDecoder};
use lib::deserialize::{read_varint, Deserialize};
use lib::serialize::{CompressionBuffer, Serialize};

#[test]
fn test_deserialize() {
    // Should be the same as the result in test_serialize
    let input = vec![
        3,
        0, 1, 6, 18,
        64, 232, 140, 25,
        133, 254, 148, 114,
        121, 80, 150, 38,
        203, 10, 145, 49,
        75, 159, 24, 235,
        88, 128, 173, 107,
        26, 106, 176, 79,
        150, 183, 6, 57,
        242, 188, 94, 113,
        15, 244, 245, 231,
        182, 250, 51, 110,
        98, 154, 5, 119,
        126, 131, 176, 116,
        178, 13, 45, 142,
        113, 4, 128
    ];
    let mut decoder = make_decoder(&input);

    assert_eq!(u8::deserialize(&mut decoder), 0x12_u8);
    assert_eq!(u16::deserialize(&mut decoder), 0x1234_u16);
    assert_eq!(u32::deserialize(&mut decoder), 0x12345678_u32);

    assert_eq!(i8::deserialize(&mut decoder), -0x12_i8);
    assert_eq!(i16::deserialize(&mut decoder), -0x1234_i16);
    assert_eq!(i32::deserialize(&mut decoder), -0x12345678_i32);

    // Floats are stored as their IEEE 754 bits.
    assert_eq!(f32::from_bits(u32::deserialize(&mut decoder)), 0.5_f32);
    let high = u32::deserialize(&mut decoder) as u64;
    let low = u32::deserialize(&mut decoder) as u64;
    assert_eq!(f64::from_bits((high << 32) | low), 0.5_f64);

    assert_eq!(bool::deserialize(&mut decoder), true);
    assert_eq!(bool::deserialize(&mut decoder), false);

    assert_eq!(String::deserialize(&mut decoder), "A Test! 🎵");
    assert_eq!(<(bool, i32)>::deserialize(&mut decoder), (true, 5));

    assert_eq!(Vec::<(i32, i32)>::deserialize(&mut decoder), vec![(5, 10), (15, 20), (25, 30)]);
}

#[test]
fn test_serialize() {
    let mut buffer = CompressionBuffer::new();

    0x12_u8.serialize(&mut buffer);
    0x1234_u16.serialize(&mut buffer);
    0x12345678_u32.serialize(&mut buffer);

    (-0x12_i8).serialize(&mut buffer);
    (-0x1234_i16).serialize(&mut buffer);
    (-0x12345678_i32).serialize(&mut buffer);

    // Floats are written as their IEEE 754 bits.
    0.5_f32.to_bits().serialize(&mut buffer);
    0.5_f64.to_bits().serialize(&mut buffer);

    true.serialize(&mut buffer);
    false.serialize(&mut buffer);

    "A Test! 🎵".serialize(&mut buffer);
    (true, 5).serialize(&mut buffer);

    let data = [(5, 10), (15, 20), (25, 30)];
    (&data[..]).serialize(&mut buffer);

    let encoded = buffer.encode();
    let expected = vec![
        3,
        0, 1, 6, 18,
        64, 232, 140, 25,
        133, 254, 148, 114,
        121, 80, 150, 38,
        203, 10, 145, 49,
        75, 159, 24, 235,
        88, 128, 173, 107,
        26, 106, 176, 79,
        150, 183, 6, 57,
        242, 188, 94, 113,
        15, 244, 245, 231,
        182, 250, 51, 110,
        98, 154, 5, 119,
        126, 131, 176, 116,
        178, 13, 45, 142,
        113, 4, 128
    ];
    assert_eq!(encoded, expected);
}

#[test]
fn serialized_values_are_big_endian() {
    let mut buffer = CompressionBuffer::new();
    0x0102_u16.serialize(&mut buffer);
    (-2_i32).serialize(&mut buffer);
    0x0102030405060708_u64.serialize(&mut buffer);
    assert_eq!(buffer.len(), 14);
    let raw = buffer.encode();
    // Too short to compress: only the raw tag is added.
    assert_eq!(raw, vec![0, 1, 2, 255, 255, 255, 254, 1, 2, 3, 4, 5, 6, 7, 8]);
}

#[test]
fn write_varint_of_small_and_large_values() {
    let mut buffer = CompressionBuffer::new();
    buffer.write_varint(0);
    buffer.write_varint(5);
    buffer.write_varint(127);
    assert_eq!(buffer.encode(), vec![0, 0, 5, 127]);

    // Larger values take one byte per 7-bit group, the high groups first.
    let mut buffer = CompressionBuffer::new();
    buffer.write_varint(300);
    assert_eq!(buffer.encode(), vec![0, 0x82, 0x2c]);
    let mut buffer = CompressionBuffer::new();
    buffer.write_varint(0x1_0000);
    assert_eq!(buffer.encode(), vec![0, 0x84, 0x80, 0]);
}

#[test]
fn written_varints_read_back() {
    let values = [0usize, 1, 127, 128, 300, 0x3fff, 0x4000, 0x1_0000, 123_456_789];
    let mut buffer = CompressionBuffer::new();
    for v in values {
        buffer.write_varint(v);
    }
    let encoded = buffer.encode();
    let mut decoder = make_decoder(&encoded);
    for v in values {
        assert_eq!(read_varint(&mut decoder), v);
    }
}

#[test]
fn long_strings_and_vectors_read_back() {
    let text: String = "abcdefghij".repeat(30);
    let numbers: Vec<u16> = (0..200).collect();
    let mut buffer = CompressionBuffer::new();
    text.as_str().serialize(&mut buffer);
    numbers.as_slice().serialize(&mut buffer);
    let encoded = buffer.encode();
    let mut decoder = make_decoder(&encoded);
    assert_eq!(String::deserialize(&mut decoder), text);
    assert_eq!(Vec::<u16>::deserialize(&mut decoder), numbers);
}

#[test]
fn deserialize_reads_raw_streams() {
    let data = [0x03u8, 0x41, 0x42, 0x43, 0xff, 0xfe, 0x01];
    let mut decoder = RawSliceDecoder::new(&data);
    assert_eq!(String::deserialize(&mut decoder), "ABC");
    assert_eq!(i16::deserialize(&mut decoder), -2);
    assert_eq!(bool::deserialize(&mut decoder), true);
    let mut decoder = SourceDecoder::Raw(RawSliceDecoder::new(&data[4..]));
    assert_eq!(u16::deserialize(&mut decoder), 0xfffe);
}

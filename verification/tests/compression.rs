use std::iter::repeat_with;

use lib::compression::{compress, make_decoder, CompressionMethods};
use lib::decoder::{Decoder, RawSliceDecoder, SourceDecoder};
use lib::fibonacci_code::{decode_fibonacci, encode_fibonacci, BitDecoder};
use lib::lz77::{encode_lz77, LZ77Decoder};
use lib::lz78::{encode_lz78, LZ78Decoder};
use lib::range_coding::{encode_rc, RCDecoder};

fn sample_data(len: usize) -> Vec<u8> {
    (0..len)
        .map(|i| match i % 10 {
            1 => 0x11,
            2 => 0x11,
            3 => 0x11,
            5 => 0x55,
            _ => 0,
        })
        .collect()
}

fn raw(data: &[u8]) -> Box<SourceDecoder<'_>> {
    Box::new(SourceDecoder::Raw(RawSliceDecoder::new(data)))
}

#[test]
fn test_fibonacci_simple() {
    let res = encode_fibonacci(12);
    assert_eq!(res, vec![false, false, false, false, false, true, true]);

    let res = encode_fibonacci(16);
    assert_eq!(res, vec![true, false, true, false, false, true, true]);

    let decoded = decode_fibonacci(&mut BitDecoder::new(&res));
    assert_eq!(decoded, 16);
}

#[test]
fn test_encode_zero() {
    let res = encode_fibonacci(0);
    assert_eq!(res, vec![true, true]);

    let decoded = decode_fibonacci(&mut BitDecoder::new(&res));
    assert_eq!(decoded, 0);
}

#[test]
fn fibonacci_codes_follow_each_other() {
    let mut bits = encode_fibonacci(1);
    assert_eq!(bits, vec![false, true, true]);
    bits.extend(encode_fibonacci(7));
    bits.extend(encode_fibonacci(0));
    let mut decoder = BitDecoder::new(&bits);
    assert_eq!(decode_fibonacci(&mut decoder), 1);
    assert_eq!(decode_fibonacci(&mut decoder), 7);
    assert_eq!(decode_fibonacci(&mut decoder), 0);
    assert_eq!(decoder.index, bits.len());
}

#[test]
fn lz77_test_compression() {
    let data = sample_data(1024);

    let encoded = encode_lz77(&data);

    let expectation = &[
        238, 28, 0, 17, 17, 17, 0, 85, 17, 27, 17, 147, 17, 11, 17, 11, 17, 11, 17, 11, 17, 11,
        5, 11,
    ];
    assert_eq!(&encoded[..], expectation);

    let mut decoder = LZ77Decoder::new(raw(&encoded));
    let decoded: Vec<u8> = repeat_with(|| decoder.decode_u8()).take(data.len()).collect();
    assert_eq!(decoded[..], data);
}

#[test]
fn lz78_test_compression() {
    let data = sample_data(256);

    let expectation = vec![
        0, 0, 0, 17,
        2, 17, 1, 85,
        1, 0, 5, 0, 3,
        17, 4, 0, 6,
        0, 7, 0, 0,
        85, 9, 0, 10,
        85, 12, 17, 3,
        0, 11, 0, 9,
        17, 15, 85, 14,
        17, 2, 0, 16,
        0, 6, 17, 18,
        0, 17, 17, 20,
        85, 19, 17, 8,
        0, 22, 17, 25,
        0, 24, 17, 27,
        0, 5, 17, 23,
        0, 28, 17, 31,
        0, 1, 17, 33,
        0, 32, 17, 29,
        0, 34, 0, 21,
        0, 38, 17, 35,
        0, 13, 0, 30,
        0, 41, 0, 36,
        17, 39, 0, 42,
        0, 46, 0, 44,
        0, 40, 85, 26,
        0, 50, 17, 18,
        0
    ];
    let encoded = encode_lz78(&data);
    assert_eq!(encoded, expectation);

    let mut decoder = LZ78Decoder::new(raw(&encoded));
    let decoded: Vec<u8> = repeat_with(|| decoder.decode_u8()).take(data.len()).collect();
    assert_eq!(decoded[..], data);
}

#[test]
fn range_coding_test_compression() {
    let data = sample_data(128);

    let encoded = encode_rc(&data);
    let expectation = &[
        0, 17, 85, 1,
        10, 115, 248, 183,
        244, 208, 233, 246,
        143, 246, 104, 202,
        59, 38, 2, 131,
        66, 90, 223, 250,
        135, 18, 227, 13,
        12, 164, 160, 175,
        89, 143, 71, 255,
        118, 5, 21, 65,
        75, 88, 204, 114,
        117, 15, 160, 88,
        239, 207
    ];
    assert_eq!(&encoded[..], expectation);

    let mut decoder = RCDecoder::new(raw(&encoded));
    let decoded: Vec<u8> = repeat_with(|| decoder.decode_u8()).take(data.len()).collect();
    assert_eq!(decoded[..], data);
}

#[test]
fn lz78_encodes_pairs_of_index_and_byte() {
    // "aab": the empty phrase and 'a', then the phrase 'a' and 'b', then the empty phrase and
    // the dummy byte.
    assert_eq!(encode_lz78(b"aab"), vec![0, b'a', 1, b'b', 0, 0]);
    assert_eq!(encode_lz78(&[]), vec![0, 0]);
}

#[test]
fn lz78_indices_above_127_take_two_bytes() {
    // The first round makes a phrase of every byte; the second refers to them.
    let data: Vec<u8> = (0..600).map(|i| (i % 256) as u8).collect();
    let encoded = encode_lz78(&data);
    let mut decoder = LZ78Decoder::new(raw(&encoded));
    let decoded: Vec<u8> = repeat_with(|| decoder.decode_u8()).take(data.len()).collect();
    assert_eq!(decoded, data);
    assert!(encoded.windows(2).any(|w| w[0] >= 0x80));
}

#[test]
fn range_coding_starts_with_the_most_frequent_bytes() {
    let data = [7u8, 7, 7, 3, 3, 9, 1, 1, 1, 1];
    let encoded = encode_rc(&data);
    assert_eq!(&encoded[..4], &[1, 7, 3, 9]);
    let mut decoder = RCDecoder::new(raw(&encoded));
    let decoded: Vec<u8> = repeat_with(|| decoder.decode_u8()).take(data.len()).collect();
    assert_eq!(decoded, data);
}

#[test]
fn compress_skips_methods_that_do_not_shrink() {
    let data = [1u8, 2, 3];
    let (out, reports) = compress(&data, &[CompressionMethods::LZ77, CompressionMethods::LZ78]);
    assert_eq!(out, vec![0, 1, 2, 3]);
    assert_eq!(reports.len(), 2);
    assert!(reports.iter().all(|r| r.skipped && r.compressed_size == 4));
}

#[test]
fn compressed_data_can_be_decoded() {
    let data = sample_data(300);
    let (encoded, reports) = compress(&data, &[CompressionMethods::LZ77, CompressionMethods::RC]);
    assert_eq!(reports.len(), 2);
    assert!(!reports[0].skipped);
    assert_eq!(reports[1].compressed_size, encoded.len());
    assert_eq!(encoded[0], if reports[1].skipped { 1 } else { 3 });

    let mut decoder = make_decoder(&encoded);
    let decoded: Vec<u8> = repeat_with(|| decoder.decode_u8()).take(data.len()).collect();
    assert_eq!(decoded, data);
}

#[test]
fn lz78_compressed_data_can_be_decoded() {
    let data = sample_data(500);
    let (encoded, reports) = compress(&data, &[CompressionMethods::LZ78]);
    assert!(!reports[0].skipped);
    assert_eq!(encoded[0], 2);
    let mut decoder = make_decoder(&encoded);
    let decoded: Vec<u8> = repeat_with(|| decoder.decode_u8()).take(data.len()).collect();
    assert_eq!(decoded, data);
}

#[test]
fn raw_decoder_yields_zeros_past_the_end() {
    let data = [5u8, 6];
    let mut decoder = RawSliceDecoder::new(&data);
    assert_eq!(decoder.decode_u8(), 5);
    assert_eq!(decoder.decode_u8(), 6);
    assert_eq!(decoder.decode_u8(), 0);
    assert_eq!(decoder.decode_u8(), 0);
}

use std::iter::repeat_with;

use lib::compression::{compress, make_decoder, CompressionMethods};
use lib::decoder::{Decoder, RawSliceDecoder, SourceDecoder};
use lib::deserialize::Deserialize;
use lib::lz77::{encode_lz77, LZ77Decoder};
use lib::lz78::{encode_lz78, LZ78Decoder};
use lib::range_coding::{encode_rc, RCDecoder};
use lib::serialize::{CompressionBuffer, Serialize};

fn varied_data(len: usize) -> Vec<u8> {
    (0..len as u32)
        .map(|i| match (i / 37) % 3 {
            0 => (i % 7) as u8,
            1 => ((i * 7919) % 251) as u8,
            _ => 0x42,
        })
        .collect()
}

fn raw(data: &[u8]) -> Box<SourceDecoder<'_>> {
    Box::new(SourceDecoder::Raw(RawSliceDecoder::new(data)))
}

#[test]
fn lz77_round_trips() {
    for data in [vec![9u8], vec![0u8; 700], varied_data(1500)] {
        let encoded = encode_lz77(&data);
        let mut decoder = LZ77Decoder::new(raw(&encoded));
        let decoded: Vec<u8> = repeat_with(|| decoder.decode_u8()).take(data.len()).collect();
        assert_eq!(decoded, data);
    }
}

#[test]
fn lz78_round_trips() {
    for data in [vec![9u8], vec![0u8; 700], varied_data(3000)] {
        let encoded = encode_lz78(&data);
        let mut decoder = LZ78Decoder::new(raw(&encoded));
        let decoded: Vec<u8> = repeat_with(|| decoder.decode_u8()).take(data.len()).collect();
        assert_eq!(decoded, data);
    }
}

#[test]
fn range_coding_round_trips() {
    for data in [vec![9u8], vec![0u8; 700], varied_data(1500)] {
        let encoded = encode_rc(&data);
        let mut decoder = RCDecoder::new(raw(&encoded));
        let decoded: Vec<u8> = repeat_with(|| decoder.decode_u8()).take(data.len()).collect();
        assert_eq!(decoded, data);
    }
}

#[test]
fn chained_methods_round_trip() {
    let data = varied_data(2000);
    let methods = [CompressionMethods::LZ78, CompressionMethods::LZ77, CompressionMethods::RC, CompressionMethods::Raw];
    let (encoded, reports) = compress(&data, &methods);
    assert_eq!(reports.len(), 4);
    assert!(reports[3].skipped);
    let mut decoder = make_decoder(&encoded);
    let decoded: Vec<u8> = repeat_with(|| decoder.decode_u8()).take(data.len()).collect();
    assert_eq!(decoded, data);
}

#[test]
fn serialized_values_read_back() {
    let mut buffer = CompressionBuffer::new();
    (-7i8).serialize(&mut buffer);
    40000u16.serialize(&mut buffer);
    (-123456i32).serialize(&mut buffer);
    0xfedc_ba98u32.serialize(&mut buffer);
    true.serialize(&mut buffer);
    "grüße".serialize(&mut buffer);
    let encoded = buffer.encode();
    let mut decoder = make_decoder(&encoded);
    assert_eq!(i8::deserialize(&mut decoder), -7);
    assert_eq!(u16::deserialize(&mut decoder), 40000);
    assert_eq!(i32::deserialize(&mut decoder), -123456);
    assert_eq!(u32::deserialize(&mut decoder), 0xfedc_ba98);
    assert_eq!(bool::deserialize(&mut decoder), true);
    assert_eq!(String::deserialize(&mut decoder), "grüße");
}

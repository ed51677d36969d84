use lib::bits::{bits_to_data, data_to_bits};
use lib::fibonacci_code::BitDecoder;
use lib::lempel_ziv::{encode_lz77, LZ77Decoder, LZ77Encoder, RingBuffer};

fn decode_bytes(encoded: &[u8], n_bytes: usize) -> Vec<u8> {
    let bits = data_to_bits(encoded);
    let mut decoder = LZ77Decoder::new(BitDecoder::new(&bits));
    let mut decoded_bits = Vec::new();
    for _ in 0..n_bytes * 8 {
        decoded_bits.push(decoder.decode_bit());
    }
    bits_to_data(&decoded_bits)
}

#[test]
fn lempel_ziv_test_compression() {
    let data: Vec<u8> = (0..1024)
        .map(|i| match i % 10 {
            1 => 0x11,
            2 => 0x11,
            3 => 0x11,
            5 => 0x55,
            _ => 0,
        })
        .collect();

    let encoded = bits_to_data(&encode_lz77(&data_to_bits(&data)));

    let expectation = &[
        3, 0, 25, 29, 145, 129, 85, 84, 137, 209, 117, 72, 152, 144, 78, 169, 19, 18, 9, 196, 130,
        98, 65, 48,
    ];
    assert_eq!(&encoded[..], expectation);

    let decoded = decode_bytes(&encoded, data.len());
    assert_eq!(decoded[..], data);
}

#[test]
fn ring_buffer_reads_back_its_writes() {
    let mut buffer = RingBuffer::new();
    for offset in 0..2048 {
        assert!(!buffer.read(offset));
    }
    buffer.push(true);
    buffer.push(false);
    buffer.push(true);
    assert!(buffer.read(0));
    assert!(!buffer.read(1));
    assert!(buffer.read(2));
    assert!(!buffer.read(3));
    for _ in 0..2045 {
        buffer.push(false);
    }
    // The first bit written is still in reach, at the largest offset.
    assert!(buffer.read(2047));
    buffer.push(false);
    // Now it has been overwritten.
    assert!(!buffer.read(2047));
    assert!(buffer.read(2046));
}

#[test]
fn lempel_ziv_short_input_is_written_as_direct_data() {
    // A single bit: a direct-data code (false), the Fibonacci code of 1 (0, 1, 1), the bit.
    assert_eq!(encode_lz77(&[true]), vec![false, false, true, true, true]);
    assert_eq!(encode_lz77(&[]), Vec::<bool>::new());
}

#[test]
fn lempel_ziv_long_runs_become_recall_codes() {
    let data = vec![true; 64];
    let encoded = encode_lz77(&data);
    assert!(encoded.len() < data.len());
    let bits = encoded.clone();
    let mut decoder = LZ77Decoder::new(BitDecoder::new(&bits));
    for _ in 0..data.len() {
        assert!(decoder.decode_bit());
    }
}

#[test]
fn lempel_ziv_encoder_can_be_fed_bit_by_bit() {
    let data = data_to_bits(&[0x11, 0x11, 0x11, 0x55, 0x11, 0x11]);
    let mut encoder = LZ77Encoder::new();
    for b in &data {
        encoder.push_symbol(*b);
    }
    assert_eq!(encoder.finish(), encode_lz77(&data));
}

#[test]
fn lempel_ziv_round_trips_varied_data() {
    let data: Vec<u8> = (0..3000u32).map(|i| ((i * 7919) % 251) as u8 ^ ((i / 300) as u8)).collect();
    let encoded = bits_to_data(&encode_lz77(&data_to_bits(&data)));
    assert_eq!(decode_bytes(&encoded, data.len()), data);
}

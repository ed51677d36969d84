use lib::bit_prediction::{encode, BitPredictor};
use lib::bits::{bits_to_data, data_to_bits};

#[test]
fn test_bit_prediction_simple() {
    let data: &[u8] = &[0x55, 0x55, 0x55, 0x55, 0x55, 0x55, 0x55, 0x55];

    let (encoded, taps) = encode(&data_to_bits(&data));

    assert_eq!(bits_to_data(&encoded), vec![0x40, 0x0, 0x0, 0x0, 0x0, 0x0, 0x0, 0x0]);
    assert_eq!(taps, 0x2);
}

#[test]
fn test_bit_prediction_iota() {
    let data: Vec<u8> = (0..=255).collect();

    let (encoded, taps) = encode(&data_to_bits(&data));
    assert_eq!(
        bits_to_data(&encoded),
        vec![
            0, 1, 2, 2, 6, 6, 2, 2,
            14, 14, 2, 2, 6, 6, 2, 2,
            30, 30, 2, 2, 6, 6, 2, 2,
            14, 14, 2, 2, 6, 6, 2, 2,
            62, 62, 2, 2, 6, 6, 2, 2,
            14, 14, 2, 2, 6, 6, 2, 2,
            30, 30, 2, 2, 6, 6, 2, 2,
            14, 14, 2, 2, 6, 6, 2, 2,
            126, 126, 2, 2, 6, 6, 2, 2,
            14, 14, 2, 2, 6, 6, 2, 2,
            30, 30, 2, 2, 6, 6, 2, 2,
            14, 14, 2, 2, 6, 6, 2, 2,
            62, 62, 2, 2, 6, 6, 2, 2,
            14, 14, 2, 2, 6, 6, 2, 2,
            30, 30, 2, 2, 6, 6, 2, 2,
            14, 14, 2, 2, 6, 6, 2, 2,
            254, 254, 2, 2, 6, 6, 2, 2,
            14, 14, 2, 2, 6, 6, 2, 2,
            30, 30, 2, 2, 6, 6, 2, 2,
            14, 14, 2, 2, 6, 6, 2, 2,
            62, 62, 2, 2, 6, 6, 2, 2,
            14, 14, 2, 2, 6, 6, 2, 2,
            30, 30, 2, 2, 6, 6, 2, 2,
            14, 14, 2, 2, 6, 6, 2, 2,
            126, 126, 2, 2, 6, 6, 2, 2,
            14, 14, 2, 2, 6, 6, 2, 2,
            30, 30, 2, 2, 6, 6, 2, 2,
            14, 14, 2, 2, 6, 6, 2, 2,
            62, 62, 2, 2, 6, 6, 2, 2,
            14, 14, 2, 2, 6, 6, 2, 2,
            30, 30, 2, 2, 6, 6, 2, 2,
            14, 14, 2, 2, 6, 6, 2, 2
        ]
    );
    assert_eq!(taps, 0x8000);
}

#[test]
fn predictor_uses_parity_of_tapped_bits() {
    let mut p = BitPredictor::new(0b101);
    assert!(!p.predict());
    p.push_bit(true);
    // state 0b1: tapped bits 0b1, odd parity
    assert!(p.predict());
    p.push_bit(false);
    // state 0b10: no tapped bit set
    assert!(!p.predict());
    p.push_bit(true);
    // state 0b101: both tapped bits set, even parity
    assert!(!p.predict());
}

#[test]
fn encode_of_empty_data_chooses_no_taps() {
    let (encoded, taps) = encode(&[]);
    assert!(encoded.is_empty());
    assert_eq!(taps, 0);
}

#[test]
fn bits_round_trip_through_bytes() {
    let data = vec![0x00u8, 0xff, 0x12, 0x80, 0x01];
    let bits = data_to_bits(&data);
    assert_eq!(bits.len(), 40);
    assert_eq!(&bits[16..24], &[false, false, false, true, false, false, true, false]);
    assert_eq!(bits_to_data(&bits), data);
    // A partial last byte is padded with zeros.
    assert_eq!(bits_to_data(&[true, false, true]), vec![0xa0]);
}

#[test]
fn only_the_last_16_bits_decide_the_prediction() {
    let tail: Vec<bool> = (0..16).map(|i| i % 3 == 0).collect();
    let mut a = BitPredictor::new(0b1010_0000_0001_0011);
    let mut b = BitPredictor::new(0b1010_0000_0001_0011);
    for bit in [true, true, false, true, false, false, true] {
        a.push_bit(bit);
    }
    for bit in [false, true] {
        b.push_bit(bit);
    }
    for &bit in &tail {
        a.push_bit(bit);
        b.push_bit(bit);
    }
    assert_eq!(a.state, b.state);
    assert_eq!(a.predict(), b.predict());
}

use lib::assets::Comparison;
use lib::field_compare::{compare_field_int, compare_field_int_for, data_to_u64, test_comparison};

#[test]
fn comparisons_of_numbers() {
    assert!(test_comparison(3u64, Comparison::LessThan, 4));
    assert!(!test_comparison(4u64, Comparison::LessThan, 4));
    assert!(test_comparison(4u64, Comparison::LessEquals, 4));
    assert!(test_comparison(5i32, Comparison::GreaterThan, -5));
    assert!(test_comparison(5i32, Comparison::GreaterEquals, 5));
    assert!(test_comparison(7u8, Comparison::Equals, 7));
    assert!(test_comparison(7u8, Comparison::NotEquals, 8));
}

#[test]
fn field_bytes_in_machine_order() {
    let v = data_to_u64(&[0x34, 0x12]);
    assert_eq!(v, u64::from_ne_bytes([0x34, 0x12, 0, 0, 0, 0, 0, 0]));
    assert_eq!(data_to_u64(&[]), 0);
}

#[test]
fn signed_fields_compare_after_moving_the_sign_bit() {
    // On a big-endian machine the top bit is moved for every length.
    let minus_one = data_to_u64(&[0xff]);
    let one = data_to_u64(&[0x01]);
    assert!(compare_field_int_for(
        Comparison::LessThan,
        0xff00_0000_0000_0000,
        0x0100_0000_0000_0000,
        1,
        true,
        false
    ));
    assert!(compare_field_int_for(
        Comparison::LessThan,
        0x7f00_0000_0000_0000,
        0x8100_0000_0000_0000,
        1,
        false,
        false
    ));
    // One-byte values on a little-endian machine get 0x80 added in 64 bits, which does not
    // wrap within the byte: 0xff becomes 0x17f and 0x01 becomes 0x81.
    assert!(compare_field_int_for(Comparison::GreaterThan, 0xff, 0x01, 1, true, true));
    assert!(compare_field_int_for(Comparison::LessThan, 0x01, 0x7f, 1, true, true));
    assert!(compare_field_int_for(Comparison::GreaterThan, 0x80, 0x01, 1, true, true));
    if u16::from_ne_bytes([1, 0]) == 1 {
        assert!(compare_field_int(Comparison::GreaterThan, minus_one, one, 1, true));
    }
    assert!(compare_field_int(Comparison::Equals, one, one, 1, true));
}

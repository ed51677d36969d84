//! Comparing field values in sequence branches.
//!
//! A field's bytes are read as an integer in the machine's byte order; signed values are
//! compared after moving their sign bit, so that unsigned comparison orders them.
use vstd::prelude::*;
use std::cmp::Ordering;
use vstd::std_specs::cmp::{PartialEqSpec, PartialOrdSpec};
use crate::assets::Comparison;
use crate::base_serde::le_value;

verus! {

/// Whether `lhs` and `rhs` stand in the relation `comparison`, by the values' own equality and
/// order.
pub open spec fn comparison_holds<T: PartialEq + PartialOrd>(lhs: T, comparison: Comparison, rhs: T) -> bool {
    match comparison {
        Comparison::Equals => lhs.eq_spec(&rhs),
        Comparison::NotEquals => !lhs.eq_spec(&rhs),
        Comparison::LessThan => lhs.partial_cmp_spec(&rhs) == Some(Ordering::Less),
        Comparison::GreaterThan => lhs.partial_cmp_spec(&rhs) == Some(Ordering::Greater),
        Comparison::LessEquals => lhs.partial_cmp_spec(&rhs) matches Some(Ordering::Less | Ordering::Equal),
        Comparison::GreaterEquals => lhs.partial_cmp_spec(&rhs) matches Some(Ordering::Greater | Ordering::Equal),
    }
}

/// Whether `lhs` and `rhs` stand in the relation `comparison`.
pub fn test_comparison<T: PartialEq + PartialOrd>(lhs: T, comparison: Comparison, rhs: T) -> (out: bool)
    ensures
        T::obeys_eq_spec() && T::obeys_partial_cmp_spec() ==> out == comparison_holds(lhs, comparison, rhs),
{
    match comparison {
        Comparison::Equals => lhs == rhs,
        Comparison::NotEquals => lhs != rhs,
        Comparison::LessThan => lhs < rhs,
        Comparison::GreaterThan => lhs > rhs,
        Comparison::LessEquals => lhs <= rhs,
        Comparison::GreaterEquals => lhs >= rhs,
    }
}


/// Whether the numbers `lhs` and `rhs` stand in the relation `comparison`.
pub open spec fn int_comparison_holds(lhs: u64, comparison: Comparison, rhs: u64) -> bool {
    match comparison {
        Comparison::Equals => lhs == rhs,
        Comparison::NotEquals => lhs != rhs,
        Comparison::LessThan => lhs < rhs,
        Comparison::GreaterThan => lhs > rhs,
        Comparison::LessEquals => lhs <= rhs,
        Comparison::GreaterEquals => lhs >= rhs,
    }
}

/// `data` followed by zeros, eight bytes in all.
pub open spec fn padded(data: Seq<u8>) -> Seq<u8> {
    data + Seq::new((8 - data.len()) as nat, |i: int| 0u8)
}

/// Whether `v` is the number whose bytes are `bytes`, in little- or in big-endian order.
pub open spec fn is_native_u64(bytes: Seq<u8>, v: u64) -> bool {
    v as nat == le_value(bytes, 8) || v as nat == le_value(bytes.reverse(), 8)
}

/// Calls `u64::from_ne_bytes`, which reads the bytes in the machine's byte order: little- or
/// big-endian.
#[verifier::external_body]
fn u64_from_native_bytes(bytes: [u8; 8]) -> (out: u64)
    ensures
        is_native_u64(bytes@, out),
{
    u64::from_ne_bytes(bytes)
}

/// Calls `u16::from_ne_bytes`, which reads the bytes in the machine's byte order: little- or
/// big-endian.
#[verifier::external_body]
fn u16_from_native_bytes(bytes: [u8; 2]) -> (out: u16)
    ensures
        out == bytes@[0] + 256 * bytes@[1] || out == bytes@[1] + 256 * bytes@[0],
{
    u16::from_ne_bytes(bytes)
}

/// The bytes of a field, at most eight, read as a number in the machine's byte order after
/// padding them with zeros.
pub fn data_to_u64(data: &[u8]) -> (out: u64)
    requires
        data@.len() <= 8,
    ensures
        is_native_u64(padded(data@), out),
{
    let mut bytes = [0u8; 8];
    let mut i: usize = 0;
    while i < data.len()
        invariant
            i <= data@.len() <= 8,
            bytes@.len() == 8,
            forall|j: int| 0 <= j < i ==> bytes@[j] == data@[j],
            forall|j: int| i <= j < 8 ==> bytes@[j] == 0,
        decreases data@.len() - i,
    {
        bytes.set(i, data[i]);
        i = i + 1;
    }
    proof {
        assert(bytes@ =~= padded(data@));
    }
    u64_from_native_bytes(bytes)
}

/// The bit added to signed values before they are compared: the sign bit of a `len`-byte value
/// in a little-endian machine, the top bit in a big-endian one.
pub open spec fn sign_adjust(len: usize, little_endian: bool) -> u64 {
    if little_endian {
        (0x80u64 << (len - 1) as u64) as u64
    } else {
        0x8000_0000_0000_0000u64
    }
}

/// How `lhs` and `rhs` compare as field values of `len` bytes on a machine of the given byte
/// order.
pub open spec fn compare_field_int_for_spec(
    comparison: Comparison,
    lhs: u64,
    rhs: u64,
    len: usize,
    signed: bool,
    little_endian: bool,
) -> bool {
    if signed {
        int_comparison_holds(
            ((lhs + sign_adjust(len, little_endian)) % 0x1_0000_0000_0000_0000) as u64,
            comparison,
            ((rhs + sign_adjust(len, little_endian)) % 0x1_0000_0000_0000_0000) as u64,
        )
    } else {
        int_comparison_holds(lhs, comparison, rhs)
    }
}

/// Compares two field values read by `data_to_u64`, on a machine of the given byte order.
pub fn compare_field_int_for(
    comparison: Comparison,
    lhs: u64,
    rhs: u64,
    len: usize,
    signed: bool,
    little_endian: bool,
) -> (out: bool)
    requires
        signed && little_endian ==> 1 <= len <= 64,
    ensures
        out == compare_field_int_for_spec(comparison, lhs, rhs, len, signed, little_endian),
{
    let mut lhs = lhs;
    let mut rhs = rhs;
    if signed {
        let adjust: u64 = if little_endian {
            0x80u64 << (len - 1) as u64
        } else {
            0x8000_0000_0000_0000
        };
        lhs = lhs.wrapping_add(adjust);
        rhs = rhs.wrapping_add(adjust);
    }
    test_comparison(lhs, comparison, rhs)
}

/// Compares two field values of `len` bytes read by `data_to_u64`, moving the sign bit of
/// signed values so that they order as numbers.
pub fn compare_field_int(comparison: Comparison, lhs: u64, rhs: u64, len: usize, signed: bool) -> (out: bool)
    requires
        signed ==> 1 <= len <= 64,
    ensures
        out == compare_field_int_for_spec(comparison, lhs, rhs, len, signed, true) || out
            == compare_field_int_for_spec(comparison, lhs, rhs, len, signed, false),
{
    let little_endian = u16_from_native_bytes([1, 0]) == 1;
    compare_field_int_for(comparison, lhs, rhs, len, signed, little_endian)
}

} // verus!

//! Reading values back from a decoded byte stream.
//!
//! Numbers are stored big-endian; lengths of sequences and strings as varints (7 bits per byte,
//! most significant group first, the top bit set on all bytes but the last).
use vstd::prelude::*;
use vstd::utf8::{decode_utf8, valid_utf8};
use crate::decoder::{Decoder, lemma_shift_twice, shift, take};
use crate::lz78::{varint_ends, varint_len, varint_stop};

verus! {

/// The value of the first `j` bytes of the varint at the start of `t`, accumulated in a `usize`
/// as `read_varint` does (higher bits shifted out are lost).
pub open spec fn varint_prefix_value(t: spec_fn(nat) -> u8, j: nat) -> usize
    decreases j,
{
    if j == 0 {
        0
    } else {
        (((varint_prefix_value(t, (j - 1) as nat) * 128) as usize) + t((j - 1) as nat) % 128) as usize
    }
}

/// The number of bytes of the varint at the start of `t`.
pub open spec fn varint_size(t: spec_fn(nat) -> u8) -> nat {
    varint_len(t) + 1
}

/// The value of the varint at the start of `t`.
pub open spec fn varint_value(t: spec_fn(nat) -> u8) -> usize {
    varint_prefix_value(t, varint_size(t))
}

proof fn lemma_varint_value_step(out: usize, b: u8)
    by (bit_vector)
    ensures
        (out << 7usize) & 0x7f == 0,
        (out << 7usize) == ((out * 128) as usize),
        (out << 7usize) + (b & 0x7f) as usize == (((out << 7usize) + (b & 0x7f) as usize) as usize),
        b & 0x7f == b % 128,
{
}

/// Reads a varint.
#[verifier::spinoff_prover]
#[verifier::rlimit(30)]
pub fn read_varint<D: Decoder>(decoder: &mut D) -> (out: usize)
    requires
        varint_ends(old(decoder).stream()),
        old(decoder).can_produce(varint_size(old(decoder).stream())),
    ensures
        out == varint_value(old(decoder).stream()),
        final(decoder).stream() == shift(old(decoder).stream(), varint_size(old(decoder).stream())),
        forall|n: nat| #[trigger] final(decoder).can_produce(n) <== old(decoder).can_produce(n + varint_size(old(decoder).stream())),
{
    let ghost s = decoder.stream();
    let ghost d0 = *decoder;
    let ghost len = varint_len(s);
    proof {
        assert(shift(s, 0) =~= s);
        d0.lemma_produce_monotone(1, (len + 1) as nat);
        lemma_shift_twice(s, 0, 1);
    }
    let mut out: usize = 0;
    let mut byte = decoder.decode_u8();
    let ghost mut cnt: nat = 0;
    while byte >= 0x80
        invariant
            s == d0.stream(),
            varint_stop(s, len),
            d0.can_produce((len + 1) as nat),
            cnt <= len,
            byte == s(cnt),
            forall|j: nat| j < cnt ==> #[trigger] s(j) >= 128,
            out == varint_prefix_value(s, cnt),
            decoder.stream() == shift(s, cnt + 1),
            forall|n: nat| #[trigger] decoder.can_produce(n) <== d0.can_produce((n + cnt + 1) as nat),
        decreases len - cnt,
    {
        proof {
            if cnt == len {
                assert(s(len) < 128);
            }
            lemma_varint_value_step(out, byte);
        }
        out = (out << 7) + (byte & 0x7f) as usize;
        proof {
            d0.lemma_produce_monotone((cnt + 2) as nat, (len + 1) as nat);
            lemma_shift_twice(s, cnt + 1, 1);
            cnt = cnt + 1;
        }
        let ghost before = *decoder;
        byte = decoder.decode_u8();
        proof {
            assert forall|n: nat| d0.can_produce((n + cnt + 1) as nat) implies #[trigger] decoder.can_produce(n) by {
                if d0.can_produce((n + cnt + 1) as nat) {
                    assert(before.can_produce((n + 1) as nat));
                }
            }
        }
    }
    proof {
        assert(varint_stop(s, cnt));
        crate::lz78::lemma_varint_stop_unique(s, cnt, len);
        lemma_varint_value_step(out, byte);
    }
    (out << 7) + (byte & 0x7f) as usize
}

/// The big-endian number in the first `k` bytes of `s`.
pub open spec fn be_value(s: spec_fn(nat) -> u8, k: nat) -> nat
    decreases k,
{
    if k == 0 {
        0
    } else {
        (be_value(s, (k - 1) as nat) * 256 + s((k - 1) as nat)) as nat
    }
}

proof fn lemma_be_step(v: u64, b: u8)
    by (bit_vector)
    requires
        v < 0x100_0000,
    ensures
        (v << 8u64) | (b as u64) == v * 256 + b,
        (v << 8u64) | (b as u64) < 0x1_0000_0000,
{
}

/// Reads a `k`-byte big-endian number.
fn read_be<D: Decoder>(decoder: &mut D, k: usize) -> (out: u64)
    requires
        k <= 4,
        old(decoder).can_produce(k as nat),
    ensures
        out == be_value(old(decoder).stream(), k as nat),
        out < pow256(k as nat),
        final(decoder).stream() == shift(old(decoder).stream(), k as nat),
        forall|n: nat| #[trigger] final(decoder).can_produce(n) <== old(decoder).can_produce((n + k) as nat),
{
    let ghost s = decoder.stream();
    let ghost d0 = *decoder;
    let mut out: u64 = 0;
    let mut i: usize = 0;
    proof {
        assert(shift(s, 0) =~= s);
    }
    while i < k
        invariant
            k <= 4,
            i <= k,
            s == d0.stream(),
            d0.can_produce(k as nat),
            out == be_value(s, i as nat),
            out < pow256(i as nat),
            decoder.stream() == shift(s, i as nat),
            forall|n: nat| #[trigger] decoder.can_produce(n) <== d0.can_produce((n + i) as nat),
        decreases k - i,
    {
        proof {
            d0.lemma_produce_monotone((i + 1) as nat, k as nat);
        }
        let b = decoder.decode_u8();
        proof {
            lemma_pow256();
            assert(pow256((i + 1) as nat) == 256 * pow256(i as nat));
            lemma_be_step(out, b);
            lemma_shift_twice(s, i as nat, 1);
            assert forall|n: nat| d0.can_produce((n + i + 1) as nat) implies #[trigger] decoder.can_produce(n) by {
                assert(d0.can_produce((n + 1 + i) as nat) ==> true);
            }
        }
        out = (out << 8) | (b as u64);
        i = i + 1;
    }
    out
}

/// 256 to the power `i`.
pub open spec fn pow256(i: nat) -> nat
    decreases i,
{
    if i == 0 {
        1
    } else {
        256 * pow256((i - 1) as nat)
    }
}

proof fn lemma_pow256()
    ensures
        pow256(0) == 1,
        pow256(1) == 0x100,
        pow256(2) == 0x1_0000,
        pow256(3) == 0x100_0000,
        pow256(4) == 0x1_0000_0000,
{
    reveal_with_fuel(pow256, 5);
}

pub proof fn lemma_pow256_positive(i: nat)
    ensures
        pow256(i) > 0,
    decreases i,
{
    if i > 0 {
        lemma_pow256_positive((i - 1) as nat);
    }
}

proof fn lemma_pow2_pow256(i: nat)
    ensures
        vstd::arithmetic::power2::pow2(8 * i) == pow256(i),
    decreases i,
{
    vstd::arithmetic::power2::lemma2_to64();
    if i > 0 {
        lemma_pow2_pow256((i - 1) as nat);
        vstd::arithmetic::power2::lemma_pow2_adds(8 * (i - 1) as nat, 8);
        assert(8 * (i - 1) as nat + 8 == 8 * i);
    }
}

/// The byte of `v` at bit offset `8 * e` is its `e`-th base-256 digit.
pub proof fn lemma_byte_digit(v: u64, e: nat)
    requires
        e < 8,
    ensures
        ((v >> (8 * e) as u64) & 0xff) as u8 as nat == (v as nat / pow256(e)) % 256,
{
    let sh = (8 * e) as u64;
    vstd::bits::lemma_u64_shr_is_div(v, sh);
    let x = v >> sh;
    vstd::bits::lemma_u64_low_bits_mask_is_mod(x, 8);
    vstd::arithmetic::power2::lemma2_to64();
    lemma_pow2_pow256(e);
    assert(vstd::bits::low_bits_mask(8) == 255);
}

/// A value that can be read back from a decoded byte stream.
pub trait Deserialize: Sized {
    /// The number of bytes the value at the start of `s` takes.
    spec fn encoded_len(s: spec_fn(nat) -> u8) -> nat;

    /// Whether the start of `s` holds a value of this type.
    spec fn well_encoded(s: spec_fn(nat) -> u8) -> bool;

    /// Whether `v` is the value at the start of `s`.
    spec fn is_decoded(s: spec_fn(nat) -> u8, v: Self) -> bool;

    /// Reads a value from the decoder.
    fn deserialize<D: Decoder>(decoder: &mut D) -> (out: Self)
        requires
            Self::well_encoded(old(decoder).stream()),
            old(decoder).can_produce(Self::encoded_len(old(decoder).stream())),
        ensures
            Self::is_decoded(old(decoder).stream(), out),
            final(decoder).stream() == shift(old(decoder).stream(), Self::encoded_len(old(decoder).stream())),
            forall|n: nat|
                #[trigger] final(decoder).can_produce(n) <== old(decoder).can_produce(
                    n + Self::encoded_len(old(decoder).stream()),
                ),
    ;
}

impl Deserialize for u8 {
    open spec fn encoded_len(s: spec_fn(nat) -> u8) -> nat {
        1
    }

    open spec fn well_encoded(s: spec_fn(nat) -> u8) -> bool {
        true
    }

    open spec fn is_decoded(s: spec_fn(nat) -> u8, v: Self) -> bool {
        v as nat == be_value(s, 1)
    }

    fn deserialize<D: Decoder>(decoder: &mut D) -> (out: Self) {
        proof {
            lemma_pow256();
        }
        read_be(decoder, 1) as u8
    }
}

impl Deserialize for u16 {
    open spec fn encoded_len(s: spec_fn(nat) -> u8) -> nat {
        2
    }

    open spec fn well_encoded(s: spec_fn(nat) -> u8) -> bool {
        true
    }

    open spec fn is_decoded(s: spec_fn(nat) -> u8, v: Self) -> bool {
        v as nat == be_value(s, 2)
    }

    fn deserialize<D: Decoder>(decoder: &mut D) -> (out: Self) {
        proof {
            lemma_pow256();
        }
        read_be(decoder, 2) as u16
    }
}

impl Deserialize for u32 {
    open spec fn encoded_len(s: spec_fn(nat) -> u8) -> nat {
        4
    }

    open spec fn well_encoded(s: spec_fn(nat) -> u8) -> bool {
        true
    }

    open spec fn is_decoded(s: spec_fn(nat) -> u8, v: Self) -> bool {
        v as nat == be_value(s, 4)
    }

    fn deserialize<D: Decoder>(decoder: &mut D) -> (out: Self) {
        proof {
            lemma_pow256();
        }
        read_be(decoder, 4) as u32
    }
}

impl Deserialize for i8 {
    open spec fn encoded_len(s: spec_fn(nat) -> u8) -> nat {
        1
    }

    open spec fn well_encoded(s: spec_fn(nat) -> u8) -> bool {
        true
    }

    /// The two's complement bits of the value are the big-endian number.
    open spec fn is_decoded(s: spec_fn(nat) -> u8, v: Self) -> bool {
        v as u8 as nat == be_value(s, 1)
    }

    fn deserialize<D: Decoder>(decoder: &mut D) -> (out: Self) {
        proof {
            lemma_pow256();
        }
        let bits = read_be(decoder, 1) as u8;
        proof {
            lemma_signed_bits(bits, 0, 0, 0);
        }
        bits as i8
    }
}

impl Deserialize for i16 {
    open spec fn encoded_len(s: spec_fn(nat) -> u8) -> nat {
        2
    }

    open spec fn well_encoded(s: spec_fn(nat) -> u8) -> bool {
        true
    }

    /// The two's complement bits of the value are the big-endian number.
    open spec fn is_decoded(s: spec_fn(nat) -> u8, v: Self) -> bool {
        v as u16 as nat == be_value(s, 2)
    }

    fn deserialize<D: Decoder>(decoder: &mut D) -> (out: Self) {
        proof {
            lemma_pow256();
        }
        let bits = read_be(decoder, 2) as u16;
        proof {
            lemma_signed_bits(0, bits, 0, 0);
        }
        bits as i16
    }
}

impl Deserialize for i32 {
    open spec fn encoded_len(s: spec_fn(nat) -> u8) -> nat {
        4
    }

    open spec fn well_encoded(s: spec_fn(nat) -> u8) -> bool {
        true
    }

    /// The two's complement bits of the value are the big-endian number.
    open spec fn is_decoded(s: spec_fn(nat) -> u8, v: Self) -> bool {
        v as u32 as nat == be_value(s, 4)
    }

    fn deserialize<D: Decoder>(decoder: &mut D) -> (out: Self) {
        proof {
            lemma_pow256();
        }
        let bits = read_be(decoder, 4) as u32;
        proof {
            lemma_signed_bits(0, 0, bits, 0);
        }
        bits as i32
    }
}

/// Reinterpreting an unsigned value as signed and back gives the value again.
pub proof fn lemma_signed_bits(a: u8, b: u16, c: u32, d: u64)
    by (bit_vector)
    ensures
        (a as i8) as u8 == a,
        (b as i16) as u16 == b,
        (c as i32) as u32 == c,
        (d as i64) as u64 == d,
{
}

impl Deserialize for bool {
    open spec fn encoded_len(s: spec_fn(nat) -> u8) -> nat {
        1
    }

    open spec fn well_encoded(s: spec_fn(nat) -> u8) -> bool {
        true
    }

    open spec fn is_decoded(s: spec_fn(nat) -> u8, v: Self) -> bool {
        v == (s(0) != 0)
    }

    fn deserialize<D: Decoder>(decoder: &mut D) -> (out: Self) {
        decoder.decode_u8() != 0
    }
}

/// The number of bytes of the first `k` values of type `T` at the start of `t`.
pub open spec fn elems_len<T: Deserialize>(t: spec_fn(nat) -> u8, k: nat) -> nat
    decreases k,
{
    if k == 0 {
        0
    } else {
        let l = elems_len::<T>(t, (k - 1) as nat);
        l + T::encoded_len(shift(t, l))
    }
}

proof fn lemma_elems_len_monotone<T: Deserialize>(t: spec_fn(nat) -> u8, a: nat, b: nat)
    requires
        a <= b,
    ensures
        elems_len::<T>(t, a) <= elems_len::<T>(t, b),
    decreases b,
{
    if a < b {
        lemma_elems_len_monotone::<T>(t, a, (b - 1) as nat);
    }
}

impl<T: Deserialize> Deserialize for Vec<T> {
    /// A varint count, then that many values.
    open spec fn encoded_len(s: spec_fn(nat) -> u8) -> nat {
        let l = varint_size(s);
        l + elems_len::<T>(shift(s, l), varint_value(s) as nat)
    }

    open spec fn well_encoded(s: spec_fn(nat) -> u8) -> bool {
        let l = varint_size(s);
        &&& varint_ends(s)
        &&& forall|i: nat|
            i < varint_value(s) ==> T::well_encoded(shift(shift(s, l), #[trigger] elems_len::<T>(shift(s, l), i)))
    }

    open spec fn is_decoded(s: spec_fn(nat) -> u8, v: Self) -> bool {
        let l = varint_size(s);
        &&& v@.len() == varint_value(s)
        &&& forall|i: nat|
            i < varint_value(s) ==> T::is_decoded(shift(shift(s, l), #[trigger] elems_len::<T>(shift(s, l), i)), v@[i as int])
    }

    fn deserialize<D: Decoder>(decoder: &mut D) -> (out: Self) {
        let ghost s = decoder.stream();
        let ghost d0 = *decoder;
        let ghost l = varint_size(s);
        let ghost t = shift(s, l);
        let ghost total = Self::encoded_len(s);
        proof {
            lemma_elems_len_monotone::<T>(t, 0, varint_value(s) as nat);
            d0.lemma_produce_monotone(l, total);
            assert(<Vec<T> as Deserialize>::well_encoded(s));
            assert(forall|j: nat|
                j < varint_value(s) ==> T::well_encoded(shift(shift(s, l), #[trigger] elems_len::<T>(shift(s, l), j))));
        }
        let len = read_varint(decoder);
        let mut out: Vec<T> = Vec::new();
        let mut i: usize = 0;
        proof {
            assert(shift(t, 0) =~= t);
        }
        while i < len
            invariant
                i <= len,
                len == varint_value(s),
                s == d0.stream(),
                t == shift(s, l),
                total == l + elems_len::<T>(t, len as nat),
                d0.can_produce(total),
                forall|j: nat| j < len ==> T::well_encoded(shift(t, #[trigger] elems_len::<T>(t, j))),
                out@.len() == i,
                forall|j: nat| j < i ==> T::is_decoded(shift(t, #[trigger] elems_len::<T>(t, j)), out@[j as int]),
                decoder.stream() == shift(t, elems_len::<T>(t, i as nat)),
                forall|n: nat| #[trigger] decoder.can_produce(n) <== d0.can_produce(n + l + elems_len::<T>(t, i as nat)),
            decreases len - i,
        {
            let ghost o = elems_len::<T>(t, i as nat);
            proof {
                lemma_elems_len_monotone::<T>(t, (i + 1) as nat, len as nat);
                d0.lemma_produce_monotone(l + elems_len::<T>(t, (i + 1) as nat), total);
                assert(T::well_encoded(shift(t, elems_len::<T>(t, i as nat))));
                assert(decoder.can_produce(T::encoded_len(shift(t, o))));
                lemma_shift_twice(t, o, T::encoded_len(shift(t, o)));
            }
            let ghost before = *decoder;
            let v = T::deserialize(decoder);
            out.push(v);
            proof {
                assert(elems_len::<T>(t, (i + 1) as nat) == o + T::encoded_len(shift(t, o)));
                assert forall|n: nat| d0.can_produce(n + l + elems_len::<T>(t, (i + 1) as nat)) implies #[trigger] decoder.can_produce(n) by {
                    if d0.can_produce(n + l + elems_len::<T>(t, (i + 1) as nat)) {
                        assert(before.can_produce(n + T::encoded_len(shift(t, o))));
                    }
                }
                assert forall|j: nat| j < i + 1 implies T::is_decoded(
                    shift(t, #[trigger] elems_len::<T>(t, j)),
                    out@[j as int],
                ) by {
                    if j == i {
                        assert(out@[j as int] == v);
                    }
                }
            }
            i = i + 1;
        }
        proof {
            lemma_shift_twice(s, l, elems_len::<T>(t, len as nat));
        }
        out
    }
}

/// Calls `String::from_utf8`, which std documents to succeed exactly when the bytes are valid
/// UTF-8, giving the string those bytes encode; on failure, gives the message of its error,
/// of which nothing is stated.
#[verifier::external_body]
pub(crate) fn utf8_string(bytes: Vec<u8>) -> (out: Result<String, String>)
    ensures
        match out {
            Ok(s) => valid_utf8(bytes@) && s@ == decode_utf8(bytes@),
            Err(_) => !valid_utf8(bytes@),
        },
{
    match String::from_utf8(bytes) {
        Ok(s) => Ok(s),
        Err(err) => Err(err.to_string()),
    }
}

impl Deserialize for String {
    /// A varint length in bytes, then the UTF-8 bytes.
    open spec fn encoded_len(s: spec_fn(nat) -> u8) -> nat {
        varint_size(s) + varint_value(s) as nat
    }

    open spec fn well_encoded(s: spec_fn(nat) -> u8) -> bool {
        &&& varint_ends(s)
        &&& valid_utf8(take(shift(s, varint_size(s)), varint_value(s) as nat))
    }

    open spec fn is_decoded(s: spec_fn(nat) -> u8, v: Self) -> bool {
        v@ == decode_utf8(take(shift(s, varint_size(s)), varint_value(s) as nat))
    }

    fn deserialize<D: Decoder>(decoder: &mut D) -> (out: Self) {
        let ghost s = decoder.stream();
        let ghost d0 = *decoder;
        let ghost l = varint_size(s);
        let ghost t = shift(s, l);
        proof {
            d0.lemma_produce_monotone(l, Self::encoded_len(s));
        }
        let len = read_varint(decoder);
        let mut bytes: Vec<u8> = Vec::new();
        let mut i: usize = 0;
        proof {
            assert(shift(t, 0) =~= t);
        }
        while i < len
            invariant
                i <= len,
                len == varint_value(s),
                s == d0.stream(),
                t == shift(s, l),
                d0.can_produce((l + len) as nat),
                bytes@ == take(t, i as nat),
                decoder.stream() == shift(t, i as nat),
                forall|n: nat| #[trigger] decoder.can_produce(n) <== d0.can_produce((n + l + i) as nat),
            decreases len - i,
        {
            proof {
                d0.lemma_produce_monotone((l + i + 1) as nat, (l + len) as nat);
                lemma_shift_twice(t, i as nat, 1);
            }
            let ghost before = *decoder;
            let b = decoder.decode_u8();
            bytes.push(b);
            proof {
                assert(bytes@ =~= take(t, (i + 1) as nat));
                assert forall|n: nat| d0.can_produce((n + l + i + 1) as nat) implies #[trigger] decoder.can_produce(n) by {
                    if d0.can_produce((n + l + i + 1) as nat) {
                        assert(before.can_produce((n + 1) as nat));
                    }
                }
            }
            i = i + 1;
        }
        proof {
            lemma_shift_twice(s, l, len as nat);
        }
        match utf8_string(bytes) {
            Ok(text) => text,
            Err(_) => String::new(),
        }
    }
}

impl<T1: Deserialize> Deserialize for (T1,) {
    open spec fn encoded_len(s: spec_fn(nat) -> u8) -> nat {
        let o0: nat = 0;
        let o1: nat = o0 + T1::encoded_len(shift(s, o0));
        o1
    }

    open spec fn well_encoded(s: spec_fn(nat) -> u8) -> bool {
        let o0: nat = 0;
        T1::well_encoded(shift(s, o0))
    }

    open spec fn is_decoded(s: spec_fn(nat) -> u8, v: Self) -> bool {
        let o0: nat = 0;
        T1::is_decoded(shift(s, o0), v.0)
    }

    fn deserialize<D: Decoder>(decoder: &mut D) -> (out: Self) {
        let ghost s = decoder.stream();
        let ghost d0 = *decoder;
        let ghost total = Self::encoded_len(s);
        let ghost o0: nat = 0;
        let ghost o1: nat = o0 + T1::encoded_len(shift(s, o0));
        proof {
            assert(shift(s, 0) =~= s);
        }
        proof {
            d0.lemma_produce_monotone(o1, total);
            lemma_shift_twice(s, o0, T1::encoded_len(shift(s, o0)));
        }
        let v1 = T1::deserialize(decoder);
        proof {
            assert forall|n: nat| d0.can_produce((n + o1) as nat) implies #[trigger] decoder.can_produce(n) by {
                if d0.can_produce((n + o1) as nat) {
                    assert(d0.can_produce(n + T1::encoded_len(shift(s, o0)) + o0));
                }
            }
        }
        (v1,)
    }
}

impl<T1: Deserialize, T2: Deserialize> Deserialize for (T1, T2) {
    open spec fn encoded_len(s: spec_fn(nat) -> u8) -> nat {
        let o0: nat = 0;
        let o1: nat = o0 + T1::encoded_len(shift(s, o0));
        let o2: nat = o1 + T2::encoded_len(shift(s, o1));
        o2
    }

    open spec fn well_encoded(s: spec_fn(nat) -> u8) -> bool {
        let o0: nat = 0;
        let o1: nat = o0 + T1::encoded_len(shift(s, o0));
        T1::well_encoded(shift(s, o0)) && T2::well_encoded(shift(s, o1))
    }

    open spec fn is_decoded(s: spec_fn(nat) -> u8, v: Self) -> bool {
        let o0: nat = 0;
        let o1: nat = o0 + T1::encoded_len(shift(s, o0));
        T1::is_decoded(shift(s, o0), v.0) && T2::is_decoded(shift(s, o1), v.1)
    }

    fn deserialize<D: Decoder>(decoder: &mut D) -> (out: Self) {
        let ghost s = decoder.stream();
        let ghost d0 = *decoder;
        let ghost total = Self::encoded_len(s);
        let ghost o0: nat = 0;
        let ghost o1: nat = o0 + T1::encoded_len(shift(s, o0));
        let ghost o2: nat = o1 + T2::encoded_len(shift(s, o1));
        proof {
            assert(shift(s, 0) =~= s);
        }
        proof {
            d0.lemma_produce_monotone(o1, total);
            lemma_shift_twice(s, o0, T1::encoded_len(shift(s, o0)));
        }
        let v1 = T1::deserialize(decoder);
        proof {
            assert forall|n: nat| d0.can_produce((n + o1) as nat) implies #[trigger] decoder.can_produce(n) by {
                if d0.can_produce((n + o1) as nat) {
                    assert(d0.can_produce(n + T1::encoded_len(shift(s, o0)) + o0));
                }
            }
        }
        proof {
            d0.lemma_produce_monotone(o2, total);
            lemma_shift_twice(s, o1, T2::encoded_len(shift(s, o1)));
        }
        let v2 = T2::deserialize(decoder);
        proof {
            assert forall|n: nat| d0.can_produce((n + o2) as nat) implies #[trigger] decoder.can_produce(n) by {
                if d0.can_produce((n + o2) as nat) {
                    assert(d0.can_produce(n + T2::encoded_len(shift(s, o1)) + o1));
                }
            }
        }
        (v1, v2)
    }
}

impl<T1: Deserialize, T2: Deserialize, T3: Deserialize> Deserialize for (T1, T2, T3) {
    open spec fn encoded_len(s: spec_fn(nat) -> u8) -> nat {
        let o0: nat = 0;
        let o1: nat = o0 + T1::encoded_len(shift(s, o0));
        let o2: nat = o1 + T2::encoded_len(shift(s, o1));
        let o3: nat = o2 + T3::encoded_len(shift(s, o2));
        o3
    }

    open spec fn well_encoded(s: spec_fn(nat) -> u8) -> bool {
        let o0: nat = 0;
        let o1: nat = o0 + T1::encoded_len(shift(s, o0));
        let o2: nat = o1 + T2::encoded_len(shift(s, o1));
        T1::well_encoded(shift(s, o0)) && T2::well_encoded(shift(s, o1)) && T3::well_encoded(shift(s, o2))
    }

    open spec fn is_decoded(s: spec_fn(nat) -> u8, v: Self) -> bool {
        let o0: nat = 0;
        let o1: nat = o0 + T1::encoded_len(shift(s, o0));
        let o2: nat = o1 + T2::encoded_len(shift(s, o1));
        T1::is_decoded(shift(s, o0), v.0) && T2::is_decoded(shift(s, o1), v.1) && T3::is_decoded(shift(s, o2), v.2)
    }

    fn deserialize<D: Decoder>(decoder: &mut D) -> (out: Self) {
        let ghost s = decoder.stream();
        let ghost d0 = *decoder;
        let ghost total = Self::encoded_len(s);
        let ghost o0: nat = 0;
        let ghost o1: nat = o0 + T1::encoded_len(shift(s, o0));
        let ghost o2: nat = o1 + T2::encoded_len(shift(s, o1));
        let ghost o3: nat = o2 + T3::encoded_len(shift(s, o2));
        proof {
            assert(shift(s, 0) =~= s);
        }
        proof {
            d0.lemma_produce_monotone(o1, total);
            lemma_shift_twice(s, o0, T1::encoded_len(shift(s, o0)));
        }
        let v1 = T1::deserialize(decoder);
        proof {
            assert forall|n: nat| d0.can_produce((n + o1) as nat) implies #[trigger] decoder.can_produce(n) by {
                if d0.can_produce((n + o1) as nat) {
                    assert(d0.can_produce(n + T1::encoded_len(shift(s, o0)) + o0));
                }
            }
        }
        proof {
            d0.lemma_produce_monotone(o2, total);
            lemma_shift_twice(s, o1, T2::encoded_len(shift(s, o1)));
        }
        let v2 = T2::deserialize(decoder);
        proof {
            assert forall|n: nat| d0.can_produce((n + o2) as nat) implies #[trigger] decoder.can_produce(n) by {
                if d0.can_produce((n + o2) as nat) {
                    assert(d0.can_produce(n + T2::encoded_len(shift(s, o1)) + o1));
                }
            }
        }
        proof {
            d0.lemma_produce_monotone(o3, total);
            lemma_shift_twice(s, o2, T3::encoded_len(shift(s, o2)));
        }
        let v3 = T3::deserialize(decoder);
        proof {
            assert forall|n: nat| d0.can_produce((n + o3) as nat) implies #[trigger] decoder.can_produce(n) by {
                if d0.can_produce((n + o3) as nat) {
                    assert(d0.can_produce(n + T3::encoded_len(shift(s, o2)) + o2));
                }
            }
        }
        (v1, v2, v3)
    }
}

impl<T1: Deserialize, T2: Deserialize, T3: Deserialize, T4: Deserialize> Deserialize for (T1, T2, T3, T4) {
    open spec fn encoded_len(s: spec_fn(nat) -> u8) -> nat {
        let o0: nat = 0;
        let o1: nat = o0 + T1::encoded_len(shift(s, o0));
        let o2: nat = o1 + T2::encoded_len(shift(s, o1));
        let o3: nat = o2 + T3::encoded_len(shift(s, o2));
        let o4: nat = o3 + T4::encoded_len(shift(s, o3));
        o4
    }

    open spec fn well_encoded(s: spec_fn(nat) -> u8) -> bool {
        let o0: nat = 0;
        let o1: nat = o0 + T1::encoded_len(shift(s, o0));
        let o2: nat = o1 + T2::encoded_len(shift(s, o1));
        let o3: nat = o2 + T3::encoded_len(shift(s, o2));
        T1::well_encoded(shift(s, o0)) && T2::well_encoded(shift(s, o1)) && T3::well_encoded(shift(s, o2)) && T4::well_encoded(shift(s, o3))
    }

    open spec fn is_decoded(s: spec_fn(nat) -> u8, v: Self) -> bool {
        let o0: nat = 0;
        let o1: nat = o0 + T1::encoded_len(shift(s, o0));
        let o2: nat = o1 + T2::encoded_len(shift(s, o1));
        let o3: nat = o2 + T3::encoded_len(shift(s, o2));
        T1::is_decoded(shift(s, o0), v.0) && T2::is_decoded(shift(s, o1), v.1) && T3::is_decoded(shift(s, o2), v.2) && T4::is_decoded(shift(s, o3), v.3)
    }

    fn deserialize<D: Decoder>(decoder: &mut D) -> (out: Self) {
        let ghost s = decoder.stream();
        let ghost d0 = *decoder;
        let ghost total = Self::encoded_len(s);
        let ghost o0: nat = 0;
        let ghost o1: nat = o0 + T1::encoded_len(shift(s, o0));
        let ghost o2: nat = o1 + T2::encoded_len(shift(s, o1));
        let ghost o3: nat = o2 + T3::encoded_len(shift(s, o2));
        let ghost o4: nat = o3 + T4::encoded_len(shift(s, o3));
        proof {
            assert(shift(s, 0) =~= s);
        }
        proof {
            d0.lemma_produce_monotone(o1, total);
            lemma_shift_twice(s, o0, T1::encoded_len(shift(s, o0)));
        }
        let v1 = T1::deserialize(decoder);
        proof {
            assert forall|n: nat| d0.can_produce((n + o1) as nat) implies #[trigger] decoder.can_produce(n) by {
                if d0.can_produce((n + o1) as nat) {
                    assert(d0.can_produce(n + T1::encoded_len(shift(s, o0)) + o0));
                }
            }
        }
        proof {
            d0.lemma_produce_monotone(o2, total);
            lemma_shift_twice(s, o1, T2::encoded_len(shift(s, o1)));
        }
        let v2 = T2::deserialize(decoder);
        proof {
            assert forall|n: nat| d0.can_produce((n + o2) as nat) implies #[trigger] decoder.can_produce(n) by {
                if d0.can_produce((n + o2) as nat) {
                    assert(d0.can_produce(n + T2::encoded_len(shift(s, o1)) + o1));
                }
            }
        }
        proof {
            d0.lemma_produce_monotone(o3, total);
            lemma_shift_twice(s, o2, T3::encoded_len(shift(s, o2)));
        }
        let v3 = T3::deserialize(decoder);
        proof {
            assert forall|n: nat| d0.can_produce((n + o3) as nat) implies #[trigger] decoder.can_produce(n) by {
                if d0.can_produce((n + o3) as nat) {
                    assert(d0.can_produce(n + T3::encoded_len(shift(s, o2)) + o2));
                }
            }
        }
        proof {
            d0.lemma_produce_monotone(o4, total);
            lemma_shift_twice(s, o3, T4::encoded_len(shift(s, o3)));
        }
        let v4 = T4::deserialize(decoder);
        proof {
            assert forall|n: nat| d0.can_produce((n + o4) as nat) implies #[trigger] decoder.can_produce(n) by {
                if d0.can_produce((n + o4) as nat) {
                    assert(d0.can_produce(n + T4::encoded_len(shift(s, o3)) + o3));
                }
            }
        }
        (v1, v2, v3, v4)
    }
}

impl<T1: Deserialize, T2: Deserialize, T3: Deserialize, T4: Deserialize, T5: Deserialize> Deserialize for (T1, T2, T3, T4, T5) {
    open spec fn encoded_len(s: spec_fn(nat) -> u8) -> nat {
        let o0: nat = 0;
        let o1: nat = o0 + T1::encoded_len(shift(s, o0));
        let o2: nat = o1 + T2::encoded_len(shift(s, o1));
        let o3: nat = o2 + T3::encoded_len(shift(s, o2));
        let o4: nat = o3 + T4::encoded_len(shift(s, o3));
        let o5: nat = o4 + T5::encoded_len(shift(s, o4));
        o5
    }

    open spec fn well_encoded(s: spec_fn(nat) -> u8) -> bool {
        let o0: nat = 0;
        let o1: nat = o0 + T1::encoded_len(shift(s, o0));
        let o2: nat = o1 + T2::encoded_len(shift(s, o1));
        let o3: nat = o2 + T3::encoded_len(shift(s, o2));
        let o4: nat = o3 + T4::encoded_len(shift(s, o3));
        T1::well_encoded(shift(s, o0)) && T2::well_encoded(shift(s, o1)) && T3::well_encoded(shift(s, o2)) && T4::well_encoded(shift(s, o3)) && T5::well_encoded(shift(s, o4))
    }

    open spec fn is_decoded(s: spec_fn(nat) -> u8, v: Self) -> bool {
        let o0: nat = 0;
        let o1: nat = o0 + T1::encoded_len(shift(s, o0));
        let o2: nat = o1 + T2::encoded_len(shift(s, o1));
        let o3: nat = o2 + T3::encoded_len(shift(s, o2));
        let o4: nat = o3 + T4::encoded_len(shift(s, o3));
        T1::is_decoded(shift(s, o0), v.0) && T2::is_decoded(shift(s, o1), v.1) && T3::is_decoded(shift(s, o2), v.2) && T4::is_decoded(shift(s, o3), v.3) && T5::is_decoded(shift(s, o4), v.4)
    }

    fn deserialize<D: Decoder>(decoder: &mut D) -> (out: Self) {
        let ghost s = decoder.stream();
        let ghost d0 = *decoder;
        let ghost total = Self::encoded_len(s);
        let ghost o0: nat = 0;
        let ghost o1: nat = o0 + T1::encoded_len(shift(s, o0));
        let ghost o2: nat = o1 + T2::encoded_len(shift(s, o1));
        let ghost o3: nat = o2 + T3::encoded_len(shift(s, o2));
        let ghost o4: nat = o3 + T4::encoded_len(shift(s, o3));
        let ghost o5: nat = o4 + T5::encoded_len(shift(s, o4));
        proof {
            assert(shift(s, 0) =~= s);
        }
        proof {
            d0.lemma_produce_monotone(o1, total);
            lemma_shift_twice(s, o0, T1::encoded_len(shift(s, o0)));
        }
        let v1 = T1::deserialize(decoder);
        proof {
            assert forall|n: nat| d0.can_produce((n + o1) as nat) implies #[trigger] decoder.can_produce(n) by {
                if d0.can_produce((n + o1) as nat) {
                    assert(d0.can_produce(n + T1::encoded_len(shift(s, o0)) + o0));
                }
            }
        }
        proof {
            d0.lemma_produce_monotone(o2, total);
            lemma_shift_twice(s, o1, T2::encoded_len(shift(s, o1)));
        }
        let v2 = T2::deserialize(decoder);
        proof {
            assert forall|n: nat| d0.can_produce((n + o2) as nat) implies #[trigger] decoder.can_produce(n) by {
                if d0.can_produce((n + o2) as nat) {
                    assert(d0.can_produce(n + T2::encoded_len(shift(s, o1)) + o1));
                }
            }
        }
        proof {
            d0.lemma_produce_monotone(o3, total);
            lemma_shift_twice(s, o2, T3::encoded_len(shift(s, o2)));
        }
        let v3 = T3::deserialize(decoder);
        proof {
            assert forall|n: nat| d0.can_produce((n + o3) as nat) implies #[trigger] decoder.can_produce(n) by {
                if d0.can_produce((n + o3) as nat) {
                    assert(d0.can_produce(n + T3::encoded_len(shift(s, o2)) + o2));
                }
            }
        }
        proof {
            d0.lemma_produce_monotone(o4, total);
            lemma_shift_twice(s, o3, T4::encoded_len(shift(s, o3)));
        }
        let v4 = T4::deserialize(decoder);
        proof {
            assert forall|n: nat| d0.can_produce((n + o4) as nat) implies #[trigger] decoder.can_produce(n) by {
                if d0.can_produce((n + o4) as nat) {
                    assert(d0.can_produce(n + T4::encoded_len(shift(s, o3)) + o3));
                }
            }
        }
        proof {
            d0.lemma_produce_monotone(o5, total);
            lemma_shift_twice(s, o4, T5::encoded_len(shift(s, o4)));
        }
        let v5 = T5::deserialize(decoder);
        proof {
            assert forall|n: nat| d0.can_produce((n + o5) as nat) implies #[trigger] decoder.can_produce(n) by {
                if d0.can_produce((n + o5) as nat) {
                    assert(d0.can_produce(n + T5::encoded_len(shift(s, o4)) + o4));
                }
            }
        }
        (v1, v2, v3, v4, v5)
    }
}

impl<T1: Deserialize, T2: Deserialize, T3: Deserialize, T4: Deserialize, T5: Deserialize, T6: Deserialize> Deserialize for (T1, T2, T3, T4, T5, T6) {
    open spec fn encoded_len(s: spec_fn(nat) -> u8) -> nat {
        let o0: nat = 0;
        let o1: nat = o0 + T1::encoded_len(shift(s, o0));
        let o2: nat = o1 + T2::encoded_len(shift(s, o1));
        let o3: nat = o2 + T3::encoded_len(shift(s, o2));
        let o4: nat = o3 + T4::encoded_len(shift(s, o3));
        let o5: nat = o4 + T5::encoded_len(shift(s, o4));
        let o6: nat = o5 + T6::encoded_len(shift(s, o5));
        o6
    }

    open spec fn well_encoded(s: spec_fn(nat) -> u8) -> bool {
        let o0: nat = 0;
        let o1: nat = o0 + T1::encoded_len(shift(s, o0));
        let o2: nat = o1 + T2::encoded_len(shift(s, o1));
        let o3: nat = o2 + T3::encoded_len(shift(s, o2));
        let o4: nat = o3 + T4::encoded_len(shift(s, o3));
        let o5: nat = o4 + T5::encoded_len(shift(s, o4));
        T1::well_encoded(shift(s, o0)) && T2::well_encoded(shift(s, o1)) && T3::well_encoded(shift(s, o2)) && T4::well_encoded(shift(s, o3)) && T5::well_encoded(shift(s, o4)) && T6::well_encoded(shift(s, o5))
    }

    open spec fn is_decoded(s: spec_fn(nat) -> u8, v: Self) -> bool {
        let o0: nat = 0;
        let o1: nat = o0 + T1::encoded_len(shift(s, o0));
        let o2: nat = o1 + T2::encoded_len(shift(s, o1));
        let o3: nat = o2 + T3::encoded_len(shift(s, o2));
        let o4: nat = o3 + T4::encoded_len(shift(s, o3));
        let o5: nat = o4 + T5::encoded_len(shift(s, o4));
        T1::is_decoded(shift(s, o0), v.0) && T2::is_decoded(shift(s, o1), v.1) && T3::is_decoded(shift(s, o2), v.2) && T4::is_decoded(shift(s, o3), v.3) && T5::is_decoded(shift(s, o4), v.4) && T6::is_decoded(shift(s, o5), v.5)
    }

    fn deserialize<D: Decoder>(decoder: &mut D) -> (out: Self) {
        let ghost s = decoder.stream();
        let ghost d0 = *decoder;
        let ghost total = Self::encoded_len(s);
        let ghost o0: nat = 0;
        let ghost o1: nat = o0 + T1::encoded_len(shift(s, o0));
        let ghost o2: nat = o1 + T2::encoded_len(shift(s, o1));
        let ghost o3: nat = o2 + T3::encoded_len(shift(s, o2));
        let ghost o4: nat = o3 + T4::encoded_len(shift(s, o3));
        let ghost o5: nat = o4 + T5::encoded_len(shift(s, o4));
        let ghost o6: nat = o5 + T6::encoded_len(shift(s, o5));
        proof {
            assert(shift(s, 0) =~= s);
        }
        proof {
            d0.lemma_produce_monotone(o1, total);
            lemma_shift_twice(s, o0, T1::encoded_len(shift(s, o0)));
        }
        let v1 = T1::deserialize(decoder);
        proof {
            assert forall|n: nat| d0.can_produce((n + o1) as nat) implies #[trigger] decoder.can_produce(n) by {
                if d0.can_produce((n + o1) as nat) {
                    assert(d0.can_produce(n + T1::encoded_len(shift(s, o0)) + o0));
                }
            }
        }
        proof {
            d0.lemma_produce_monotone(o2, total);
            lemma_shift_twice(s, o1, T2::encoded_len(shift(s, o1)));
        }
        let v2 = T2::deserialize(decoder);
        proof {
            assert forall|n: nat| d0.can_produce((n + o2) as nat) implies #[trigger] decoder.can_produce(n) by {
                if d0.can_produce((n + o2) as nat) {
                    assert(d0.can_produce(n + T2::encoded_len(shift(s, o1)) + o1));
                }
            }
        }
        proof {
            d0.lemma_produce_monotone(o3, total);
            lemma_shift_twice(s, o2, T3::encoded_len(shift(s, o2)));
        }
        let v3 = T3::deserialize(decoder);
        proof {
            assert forall|n: nat| d0.can_produce((n + o3) as nat) implies #[trigger] decoder.can_produce(n) by {
                if d0.can_produce((n + o3) as nat) {
                    assert(d0.can_produce(n + T3::encoded_len(shift(s, o2)) + o2));
                }
            }
        }
        proof {
            d0.lemma_produce_monotone(o4, total);
            lemma_shift_twice(s, o3, T4::encoded_len(shift(s, o3)));
        }
        let v4 = T4::deserialize(decoder);
        proof {
            assert forall|n: nat| d0.can_produce((n + o4) as nat) implies #[trigger] decoder.can_produce(n) by {
                if d0.can_produce((n + o4) as nat) {
                    assert(d0.can_produce(n + T4::encoded_len(shift(s, o3)) + o3));
                }
            }
        }
        proof {
            d0.lemma_produce_monotone(o5, total);
            lemma_shift_twice(s, o4, T5::encoded_len(shift(s, o4)));
        }
        let v5 = T5::deserialize(decoder);
        proof {
            assert forall|n: nat| d0.can_produce((n + o5) as nat) implies #[trigger] decoder.can_produce(n) by {
                if d0.can_produce((n + o5) as nat) {
                    assert(d0.can_produce(n + T5::encoded_len(shift(s, o4)) + o4));
                }
            }
        }
        proof {
            d0.lemma_produce_monotone(o6, total);
            lemma_shift_twice(s, o5, T6::encoded_len(shift(s, o5)));
        }
        let v6 = T6::deserialize(decoder);
        proof {
            assert forall|n: nat| d0.can_produce((n + o6) as nat) implies #[trigger] decoder.can_produce(n) by {
                if d0.can_produce((n + o6) as nat) {
                    assert(d0.can_produce(n + T6::encoded_len(shift(s, o5)) + o5));
                }
            }
        }
        (v1, v2, v3, v4, v5, v6)
    }
}

impl<T1: Deserialize, T2: Deserialize, T3: Deserialize, T4: Deserialize, T5: Deserialize, T6: Deserialize, T7: Deserialize> Deserialize for (T1, T2, T3, T4, T5, T6, T7) {
    open spec fn encoded_len(s: spec_fn(nat) -> u8) -> nat {
        let o0: nat = 0;
        let o1: nat = o0 + T1::encoded_len(shift(s, o0));
        let o2: nat = o1 + T2::encoded_len(shift(s, o1));
        let o3: nat = o2 + T3::encoded_len(shift(s, o2));
        let o4: nat = o3 + T4::encoded_len(shift(s, o3));
        let o5: nat = o4 + T5::encoded_len(shift(s, o4));
        let o6: nat = o5 + T6::encoded_len(shift(s, o5));
        let o7: nat = o6 + T7::encoded_len(shift(s, o6));
        o7
    }

    open spec fn well_encoded(s: spec_fn(nat) -> u8) -> bool {
        let o0: nat = 0;
        let o1: nat = o0 + T1::encoded_len(shift(s, o0));
        let o2: nat = o1 + T2::encoded_len(shift(s, o1));
        let o3: nat = o2 + T3::encoded_len(shift(s, o2));
        let o4: nat = o3 + T4::encoded_len(shift(s, o3));
        let o5: nat = o4 + T5::encoded_len(shift(s, o4));
        let o6: nat = o5 + T6::encoded_len(shift(s, o5));
        T1::well_encoded(shift(s, o0)) && T2::well_encoded(shift(s, o1)) && T3::well_encoded(shift(s, o2)) && T4::well_encoded(shift(s, o3)) && T5::well_encoded(shift(s, o4)) && T6::well_encoded(shift(s, o5)) && T7::well_encoded(shift(s, o6))
    }

    open spec fn is_decoded(s: spec_fn(nat) -> u8, v: Self) -> bool {
        let o0: nat = 0;
        let o1: nat = o0 + T1::encoded_len(shift(s, o0));
        let o2: nat = o1 + T2::encoded_len(shift(s, o1));
        let o3: nat = o2 + T3::encoded_len(shift(s, o2));
        let o4: nat = o3 + T4::encoded_len(shift(s, o3));
        let o5: nat = o4 + T5::encoded_len(shift(s, o4));
        let o6: nat = o5 + T6::encoded_len(shift(s, o5));
        T1::is_decoded(shift(s, o0), v.0) && T2::is_decoded(shift(s, o1), v.1) && T3::is_decoded(shift(s, o2), v.2) && T4::is_decoded(shift(s, o3), v.3) && T5::is_decoded(shift(s, o4), v.4) && T6::is_decoded(shift(s, o5), v.5) && T7::is_decoded(shift(s, o6), v.6)
    }

    fn deserialize<D: Decoder>(decoder: &mut D) -> (out: Self) {
        let ghost s = decoder.stream();
        let ghost d0 = *decoder;
        let ghost total = Self::encoded_len(s);
        let ghost o0: nat = 0;
        let ghost o1: nat = o0 + T1::encoded_len(shift(s, o0));
        let ghost o2: nat = o1 + T2::encoded_len(shift(s, o1));
        let ghost o3: nat = o2 + T3::encoded_len(shift(s, o2));
        let ghost o4: nat = o3 + T4::encoded_len(shift(s, o3));
        let ghost o5: nat = o4 + T5::encoded_len(shift(s, o4));
        let ghost o6: nat = o5 + T6::encoded_len(shift(s, o5));
        let ghost o7: nat = o6 + T7::encoded_len(shift(s, o6));
        proof {
            assert(shift(s, 0) =~= s);
        }
        proof {
            d0.lemma_produce_monotone(o1, total);
            lemma_shift_twice(s, o0, T1::encoded_len(shift(s, o0)));
        }
        let v1 = T1::deserialize(decoder);
        proof {
            assert forall|n: nat| d0.can_produce((n + o1) as nat) implies #[trigger] decoder.can_produce(n) by {
                if d0.can_produce((n + o1) as nat) {
                    assert(d0.can_produce(n + T1::encoded_len(shift(s, o0)) + o0));
                }
            }
        }
        proof {
            d0.lemma_produce_monotone(o2, total);
            lemma_shift_twice(s, o1, T2::encoded_len(shift(s, o1)));
        }
        let v2 = T2::deserialize(decoder);
        proof {
            assert forall|n: nat| d0.can_produce((n + o2) as nat) implies #[trigger] decoder.can_produce(n) by {
                if d0.can_produce((n + o2) as nat) {
                    assert(d0.can_produce(n + T2::encoded_len(shift(s, o1)) + o1));
                }
            }
        }
        proof {
            d0.lemma_produce_monotone(o3, total);
            lemma_shift_twice(s, o2, T3::encoded_len(shift(s, o2)));
        }
        let v3 = T3::deserialize(decoder);
        proof {
            assert forall|n: nat| d0.can_produce((n + o3) as nat) implies #[trigger] decoder.can_produce(n) by {
                if d0.can_produce((n + o3) as nat) {
                    assert(d0.can_produce(n + T3::encoded_len(shift(s, o2)) + o2));
                }
            }
        }
        proof {
            d0.lemma_produce_monotone(o4, total);
            lemma_shift_twice(s, o3, T4::encoded_len(shift(s, o3)));
        }
        let v4 = T4::deserialize(decoder);
        proof {
            assert forall|n: nat| d0.can_produce((n + o4) as nat) implies #[trigger] decoder.can_produce(n) by {
                if d0.can_produce((n + o4) as nat) {
                    assert(d0.can_produce(n + T4::encoded_len(shift(s, o3)) + o3));
                }
            }
        }
        proof {
            d0.lemma_produce_monotone(o5, total);
            lemma_shift_twice(s, o4, T5::encoded_len(shift(s, o4)));
        }
        let v5 = T5::deserialize(decoder);
        proof {
            assert forall|n: nat| d0.can_produce((n + o5) as nat) implies #[trigger] decoder.can_produce(n) by {
                if d0.can_produce((n + o5) as nat) {
                    assert(d0.can_produce(n + T5::encoded_len(shift(s, o4)) + o4));
                }
            }
        }
        proof {
            d0.lemma_produce_monotone(o6, total);
            lemma_shift_twice(s, o5, T6::encoded_len(shift(s, o5)));
        }
        let v6 = T6::deserialize(decoder);
        proof {
            assert forall|n: nat| d0.can_produce((n + o6) as nat) implies #[trigger] decoder.can_produce(n) by {
                if d0.can_produce((n + o6) as nat) {
                    assert(d0.can_produce(n + T6::encoded_len(shift(s, o5)) + o5));
                }
            }
        }
        proof {
            d0.lemma_produce_monotone(o7, total);
            lemma_shift_twice(s, o6, T7::encoded_len(shift(s, o6)));
        }
        let v7 = T7::deserialize(decoder);
        proof {
            assert forall|n: nat| d0.can_produce((n + o7) as nat) implies #[trigger] decoder.can_produce(n) by {
                if d0.can_produce((n + o7) as nat) {
                    assert(d0.can_produce(n + T7::encoded_len(shift(s, o6)) + o6));
                }
            }
        }
        (v1, v2, v3, v4, v5, v6, v7)
    }
}

impl<T1: Deserialize, T2: Deserialize, T3: Deserialize, T4: Deserialize, T5: Deserialize, T6: Deserialize, T7: Deserialize, T8: Deserialize> Deserialize for (T1, T2, T3, T4, T5, T6, T7, T8) {
    open spec fn encoded_len(s: spec_fn(nat) -> u8) -> nat {
        let o0: nat = 0;
        let o1: nat = o0 + T1::encoded_len(shift(s, o0));
        let o2: nat = o1 + T2::encoded_len(shift(s, o1));
        let o3: nat = o2 + T3::encoded_len(shift(s, o2));
        let o4: nat = o3 + T4::encoded_len(shift(s, o3));
        let o5: nat = o4 + T5::encoded_len(shift(s, o4));
        let o6: nat = o5 + T6::encoded_len(shift(s, o5));
        let o7: nat = o6 + T7::encoded_len(shift(s, o6));
        let o8: nat = o7 + T8::encoded_len(shift(s, o7));
        o8
    }

    open spec fn well_encoded(s: spec_fn(nat) -> u8) -> bool {
        let o0: nat = 0;
        let o1: nat = o0 + T1::encoded_len(shift(s, o0));
        let o2: nat = o1 + T2::encoded_len(shift(s, o1));
        let o3: nat = o2 + T3::encoded_len(shift(s, o2));
        let o4: nat = o3 + T4::encoded_len(shift(s, o3));
        let o5: nat = o4 + T5::encoded_len(shift(s, o4));
        let o6: nat = o5 + T6::encoded_len(shift(s, o5));
        let o7: nat = o6 + T7::encoded_len(shift(s, o6));
        T1::well_encoded(shift(s, o0)) && T2::well_encoded(shift(s, o1)) && T3::well_encoded(shift(s, o2)) && T4::well_encoded(shift(s, o3)) && T5::well_encoded(shift(s, o4)) && T6::well_encoded(shift(s, o5)) && T7::well_encoded(shift(s, o6)) && T8::well_encoded(shift(s, o7))
    }

    open spec fn is_decoded(s: spec_fn(nat) -> u8, v: Self) -> bool {
        let o0: nat = 0;
        let o1: nat = o0 + T1::encoded_len(shift(s, o0));
        let o2: nat = o1 + T2::encoded_len(shift(s, o1));
        let o3: nat = o2 + T3::encoded_len(shift(s, o2));
        let o4: nat = o3 + T4::encoded_len(shift(s, o3));
        let o5: nat = o4 + T5::encoded_len(shift(s, o4));
        let o6: nat = o5 + T6::encoded_len(shift(s, o5));
        let o7: nat = o6 + T7::encoded_len(shift(s, o6));
        T1::is_decoded(shift(s, o0), v.0) && T2::is_decoded(shift(s, o1), v.1) && T3::is_decoded(shift(s, o2), v.2) && T4::is_decoded(shift(s, o3), v.3) && T5::is_decoded(shift(s, o4), v.4) && T6::is_decoded(shift(s, o5), v.5) && T7::is_decoded(shift(s, o6), v.6) && T8::is_decoded(shift(s, o7), v.7)
    }

    fn deserialize<D: Decoder>(decoder: &mut D) -> (out: Self) {
        let ghost s = decoder.stream();
        let ghost d0 = *decoder;
        let ghost total = Self::encoded_len(s);
        let ghost o0: nat = 0;
        let ghost o1: nat = o0 + T1::encoded_len(shift(s, o0));
        let ghost o2: nat = o1 + T2::encoded_len(shift(s, o1));
        let ghost o3: nat = o2 + T3::encoded_len(shift(s, o2));
        let ghost o4: nat = o3 + T4::encoded_len(shift(s, o3));
        let ghost o5: nat = o4 + T5::encoded_len(shift(s, o4));
        let ghost o6: nat = o5 + T6::encoded_len(shift(s, o5));
        let ghost o7: nat = o6 + T7::encoded_len(shift(s, o6));
        let ghost o8: nat = o7 + T8::encoded_len(shift(s, o7));
        proof {
            assert(shift(s, 0) =~= s);
        }
        proof {
            d0.lemma_produce_monotone(o1, total);
            lemma_shift_twice(s, o0, T1::encoded_len(shift(s, o0)));
        }
        let v1 = T1::deserialize(decoder);
        proof {
            assert forall|n: nat| d0.can_produce((n + o1) as nat) implies #[trigger] decoder.can_produce(n) by {
                if d0.can_produce((n + o1) as nat) {
                    assert(d0.can_produce(n + T1::encoded_len(shift(s, o0)) + o0));
                }
            }
        }
        proof {
            d0.lemma_produce_monotone(o2, total);
            lemma_shift_twice(s, o1, T2::encoded_len(shift(s, o1)));
        }
        let v2 = T2::deserialize(decoder);
        proof {
            assert forall|n: nat| d0.can_produce((n + o2) as nat) implies #[trigger] decoder.can_produce(n) by {
                if d0.can_produce((n + o2) as nat) {
                    assert(d0.can_produce(n + T2::encoded_len(shift(s, o1)) + o1));
                }
            }
        }
        proof {
            d0.lemma_produce_monotone(o3, total);
            lemma_shift_twice(s, o2, T3::encoded_len(shift(s, o2)));
        }
        let v3 = T3::deserialize(decoder);
        proof {
            assert forall|n: nat| d0.can_produce((n + o3) as nat) implies #[trigger] decoder.can_produce(n) by {
                if d0.can_produce((n + o3) as nat) {
                    assert(d0.can_produce(n + T3::encoded_len(shift(s, o2)) + o2));
                }
            }
        }
        proof {
            d0.lemma_produce_monotone(o4, total);
            lemma_shift_twice(s, o3, T4::encoded_len(shift(s, o3)));
        }
        let v4 = T4::deserialize(decoder);
        proof {
            assert forall|n: nat| d0.can_produce((n + o4) as nat) implies #[trigger] decoder.can_produce(n) by {
                if d0.can_produce((n + o4) as nat) {
                    assert(d0.can_produce(n + T4::encoded_len(shift(s, o3)) + o3));
                }
            }
        }
        proof {
            d0.lemma_produce_monotone(o5, total);
            lemma_shift_twice(s, o4, T5::encoded_len(shift(s, o4)));
        }
        let v5 = T5::deserialize(decoder);
        proof {
            assert forall|n: nat| d0.can_produce((n + o5) as nat) implies #[trigger] decoder.can_produce(n) by {
                if d0.can_produce((n + o5) as nat) {
                    assert(d0.can_produce(n + T5::encoded_len(shift(s, o4)) + o4));
                }
            }
        }
        proof {
            d0.lemma_produce_monotone(o6, total);
            lemma_shift_twice(s, o5, T6::encoded_len(shift(s, o5)));
        }
        let v6 = T6::deserialize(decoder);
        proof {
            assert forall|n: nat| d0.can_produce((n + o6) as nat) implies #[trigger] decoder.can_produce(n) by {
                if d0.can_produce((n + o6) as nat) {
                    assert(d0.can_produce(n + T6::encoded_len(shift(s, o5)) + o5));
                }
            }
        }
        proof {
            d0.lemma_produce_monotone(o7, total);
            lemma_shift_twice(s, o6, T7::encoded_len(shift(s, o6)));
        }
        let v7 = T7::deserialize(decoder);
        proof {
            assert forall|n: nat| d0.can_produce((n + o7) as nat) implies #[trigger] decoder.can_produce(n) by {
                if d0.can_produce((n + o7) as nat) {
                    assert(d0.can_produce(n + T7::encoded_len(shift(s, o6)) + o6));
                }
            }
        }
        proof {
            d0.lemma_produce_monotone(o8, total);
            lemma_shift_twice(s, o7, T8::encoded_len(shift(s, o7)));
        }
        let v8 = T8::deserialize(decoder);
        proof {
            assert forall|n: nat| d0.can_produce((n + o8) as nat) implies #[trigger] decoder.can_produce(n) by {
                if d0.can_produce((n + o8) as nat) {
                    assert(d0.can_produce(n + T8::encoded_len(shift(s, o7)) + o7));
                }
            }
        }
        (v1, v2, v3, v4, v5, v6, v7, v8)
    }
}

} // verus!

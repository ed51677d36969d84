//! The little-endian byte format of the asset server's messages.
//!
//! Integers are little-endian; strings and sequences are preceded by their length as a `u32`.
//! Messages are read from the bytes received so far, kept in a `ByteReader`.
use vstd::prelude::*;
use vstd::utf8::{decode_utf8, encode_utf8, valid_utf8};
use vstd::string::StringSliceAdditionalSpecFns;
use crate::assets::{AssetError, IoFault};
use crate::deserialize::{lemma_byte_digit, lemma_pow256_positive, lemma_signed_bits, pow256, utf8_string};

verus! {

/// The bytes received, and how many of them were read.
pub struct ByteReader<'a> {
    pub data: &'a [u8],
    pub pos: usize,
}

impl<'a> ByteReader<'a> {
    /// A reader at the start of `data`.
    pub fn new(data: &'a [u8]) -> (out: ByteReader<'a>)
        ensures
            out.data@ == data@,
            out.pos == 0,
    {
        ByteReader { data, pos: 0 }
    }

    /// The bytes not read yet.
    pub open spec fn rest(&self) -> Seq<u8> {
        self.data@.skip(self.pos as int)
    }

    pub open spec fn wf(&self) -> bool {
        self.pos <= self.data@.len()
    }

    /// Reads the next `n` bytes, or fails with the error `read_exact` gives at the end of the
    /// data, reading nothing.
    pub fn read_exact(&mut self, n: usize) -> (out: Result<Vec<u8>, AssetError>)
        requires
            old(self).wf(),
        ensures
            final(self).wf(),
            final(self).data@ == old(self).data@,
            match out {
                Ok(bytes) => n <= old(self).rest().len() && bytes@ == old(self).rest().take(n as int)
                    && final(self).pos == old(self).pos + n,
                Err(e) => n > old(self).rest().len() && is_eof_error(e) && final(self).pos == old(self).pos,
            },
    {
        if n > self.data.len() - self.pos {
            return Err(eof_error_value());
        }
        let mut out: Vec<u8> = Vec::new();
        let mut i: usize = 0;
        while i < n
            invariant
                self.wf(),
                i <= n,
                self.pos + n <= self.data@.len(),
                self.data@.len() <= usize::MAX,
                out@ == self.rest().take(i as int),
            decreases n - i,
        {
            out.push(self.data[self.pos + i]);
            proof {
                assert(self.rest().take(i + 1) =~= self.rest().take(i as int).push(self.data@[self.pos + i]));
            }
            i = i + 1;
        }
        self.pos = self.pos + n;
        Ok(out)
    }
}

/// Whether `e` is the error of reading past the end of the data.
pub open spec fn is_eof_error(e: AssetError) -> bool {
    e matches AssetError::IOError(IoFault::UnexpectedEof)
}

fn eof_error_value() -> (out: AssetError)
    ensures
        is_eof_error(out),
{
    AssetError::IOError(IoFault::UnexpectedEof)
}

proof fn lemma_reader_skip(r: ByteReader)
    requires
        r.wf(),
    ensures
        forall|n: nat| #![trigger r.rest().skip(n as int)] n <= r.rest().len() ==> r.data@.skip(r.pos + n) == r.rest().skip(n as int),
{
    assert forall|n: nat| n <= r.rest().len() implies r.data@.skip(r.pos + n) == #[trigger] r.rest().skip(n as int) by {
        assert(r.data@.skip(r.pos + n) =~= r.rest().skip(n as int));
    }
}

/// What reading a value from `input` gives: a value taking the given number of bytes, the end
/// of the data, invalid data, or a tag the reader does not know (on which it panics).
pub enum ParseOutcome {
    Value(nat),
    Eof,
    Invalid,
    BadTag,
}

/// Whether `e` is the error for the outcome `r`: the end of the data gives the error of
/// `read_exact`, invalid data an `OtherError`.
pub open spec fn outcome_error(r: ParseOutcome, e: AssetError) -> bool {
    match r {
        ParseOutcome::Eof => is_eof_error(e),
        ParseOutcome::Invalid => e is OtherError,
        _ => false,
    }
}

/// A value that can be written in the asset server's format.
pub trait Serialize {
    /// The bytes written for this value.
    spec fn encoding(&self) -> Seq<u8>;

    /// Writes this value at the end of `output`.
    fn serialize(&self, output: &mut Vec<u8>) -> (out: Result<(), AssetError>)
        ensures
            out is Ok,
            final(output)@ == old(output)@ + self.encoding(),
    ;
}

/// A value that can be read in the asset server's format.
pub trait Deserialize: Sized {
    /// What reading a value from `input` gives.
    spec fn outcome(input: Seq<u8>) -> ParseOutcome;

    /// Whether `v` is the value at the start of `input`.
    spec fn is_value(input: Seq<u8>, v: Self) -> bool;

    /// Reads a value.
    fn deserialize(input: &mut ByteReader) -> (out: Result<Self, AssetError>)
        requires
            old(input).wf(),
        ensures
            final(input).wf(),
            final(input).data@ == old(input).data@,
            match out {
                Ok(v) => match Self::outcome(old(input).rest()) {
                    ParseOutcome::Value(n) => Self::is_value(old(input).rest(), v) && final(input).pos == old(input).pos + n,
                    _ => false,
                },
                Err(e) => outcome_error(Self::outcome(old(input).rest()), e),
            },
    ;
}

/// The little-endian number in the first `k` bytes of `s`.
pub open spec fn le_value(s: Seq<u8>, k: nat) -> nat
    decreases k,
{
    if k == 0 {
        0
    } else {
        (le_value(s.skip(1), (k - 1) as nat) * 256 + s[0]) as nat
    }
}

/// The `k` low bytes of `v`, least significant first.
pub open spec fn le_bytes(v: u64, k: nat) -> Seq<u8> {
    Seq::new(k, |i: int| ((v >> (8 * i) as u64) & 0xff) as u8)
}

/// What reading a `k`-byte number gives.
pub open spec fn fixed_outcome(input: Seq<u8>, k: nat) -> ParseOutcome {
    if input.len() < k {
        ParseOutcome::Eof
    } else {
        ParseOutcome::Value(k)
    }
}

fn write_le(output: &mut Vec<u8>, v: u64, k: u32)
    requires
        k <= 8,
    ensures
        final(output)@ == old(output)@ + le_bytes(v, k as nat),
{
    let mut j: u32 = 0;
    while j < k
        invariant
            j <= k <= 8,
            output@ == old(output)@ + le_bytes(v, k as nat).take(j as int),
        decreases k - j,
    {
        let b = ((v >> (8 * j)) & 0xff) as u8;
        output.push(b);
        proof {
            assert(le_bytes(v, k as nat).take(j + 1) =~= le_bytes(v, k as nat).take(j as int).push(b));
        }
        j = j + 1;
    }
    proof {
        assert(le_bytes(v, k as nat).take(k as int) =~= le_bytes(v, k as nat));
    }
}

proof fn lemma_pow256_values()
    ensures
        pow256(1) == 0x100,
        pow256(2) == 0x1_0000,
        pow256(4) == 0x1_0000_0000,
        pow256(7) == 0x100_0000_0000_0000,
        pow256(8) == 0x1_0000_0000_0000_0000,
{
    reveal_with_fuel(pow256, 9);
}

proof fn lemma_pow256_monotone(a: nat, b: nat)
    requires
        a <= b,
    ensures
        pow256(a) <= pow256(b),
    decreases b,
{
    if a < b {
        lemma_pow256_monotone(a, (b - 1) as nat);
    }
}

proof fn lemma_le_shift(v: u64, b: u8)
    by (bit_vector)
    requires
        v < 0x100_0000_0000_0000,
    ensures
        (v << 8u64) | (b as u64) == v * 256 + b,
{
}

/// A little-endian number depends on its own bytes only.
proof fn lemma_le_take(s: Seq<u8>, k: nat)
    requires
        k <= s.len(),
    ensures
        le_value(s, k) == le_value(s.take(k as int), k),
    decreases k,
{
    if k > 0 {
        lemma_le_take(s.skip(1), (k - 1) as nat);
        assert(s.skip(1).take(k - 1) =~= s.take(k as int).skip(1));
    }
}

/// Reads a `k`-byte little-endian number.
fn read_le(input: &mut ByteReader, k: usize) -> (out: Result<u64, AssetError>)
    requires
        1 <= k <= 8,
        old(input).wf(),
    ensures
        final(input).wf(),
        final(input).data@ == old(input).data@,
        match out {
            Ok(v) => k <= old(input).rest().len() && v as nat == le_value(old(input).rest(), k as nat)
                && v < pow256(k as nat) && final(input).pos == old(input).pos + k,
            Err(e) => k > old(input).rest().len() && is_eof_error(e),
        },
{
    let ghost r0 = input.rest();
    let bytes = input.read_exact(k)?;
    let ghost s = bytes@;
    let mut v: u64 = 0;
    let mut j: usize = k;
    proof {
        assert(s.skip(k as int) =~= Seq::<u8>::empty());
    }
    while j > 0
        invariant
            j <= k <= 8,
            bytes@ == s,
            s.len() == k,
            v as nat == le_value(s.skip(j as int), (k - j) as nat),
            v < pow256((k - j) as nat),
        decreases j,
    {
        j = j - 1;
        proof {
            lemma_pow256_values();
            lemma_pow256_monotone((k - j - 1) as nat, 7);
            assert(s.skip(j as int).skip(1) =~= s.skip(j + 1));
            lemma_le_shift(v, s[j as int]);
        }
        v = (v << 8) | (bytes[j] as u64);
    }
    proof {
        assert(s.skip(0) =~= s);
        lemma_le_take(r0, k as nat);
    }
    Ok(v)
}

impl Serialize for u8 {
    open spec fn encoding(&self) -> Seq<u8> {
        le_bytes(*self as u64, 1)
    }

    fn serialize(&self, output: &mut Vec<u8>) -> (out: Result<(), AssetError>) {
        write_le(output, *self as u64, 1);
        Ok(())
    }
}

impl Deserialize for u8 {
    open spec fn outcome(input: Seq<u8>) -> ParseOutcome {
        fixed_outcome(input, 1)
    }

    open spec fn is_value(input: Seq<u8>, v: Self) -> bool {
        v as nat == le_value(input, 1)
    }

    fn deserialize(input: &mut ByteReader) -> (out: Result<Self, AssetError>) {
        proof {
            lemma_pow256_values();
        }
        let v = match read_le(input, 1) {
            Ok(v) => v,
            Err(e) => return Err(e),
        };
        assert(v < pow256(1));
        Ok(v as u8)
    }
}

impl Serialize for u16 {
    open spec fn encoding(&self) -> Seq<u8> {
        le_bytes(*self as u64, 2)
    }

    fn serialize(&self, output: &mut Vec<u8>) -> (out: Result<(), AssetError>) {
        write_le(output, *self as u64, 2);
        Ok(())
    }
}

impl Deserialize for u16 {
    open spec fn outcome(input: Seq<u8>) -> ParseOutcome {
        fixed_outcome(input, 2)
    }

    open spec fn is_value(input: Seq<u8>, v: Self) -> bool {
        v as nat == le_value(input, 2)
    }

    fn deserialize(input: &mut ByteReader) -> (out: Result<Self, AssetError>) {
        proof {
            lemma_pow256_values();
        }
        let v = match read_le(input, 2) {
            Ok(v) => v,
            Err(e) => return Err(e),
        };
        assert(v < pow256(2));
        Ok(v as u16)
    }
}

impl Serialize for u32 {
    open spec fn encoding(&self) -> Seq<u8> {
        le_bytes(*self as u64, 4)
    }

    fn serialize(&self, output: &mut Vec<u8>) -> (out: Result<(), AssetError>) {
        write_le(output, *self as u64, 4);
        Ok(())
    }
}

impl Deserialize for u32 {
    open spec fn outcome(input: Seq<u8>) -> ParseOutcome {
        fixed_outcome(input, 4)
    }

    open spec fn is_value(input: Seq<u8>, v: Self) -> bool {
        v as nat == le_value(input, 4)
    }

    #[verifier::spinoff_prover]
    fn deserialize(input: &mut ByteReader) -> (out: Result<Self, AssetError>) {
        proof {
            lemma_pow256_values();
        }
        let ghost r0 = input.rest();
        let v = match read_le(input, 4) {
            Ok(v) => v,
            Err(e) => {
                assert(fixed_outcome(r0, 4) == ParseOutcome::Eof);
                assert(outcome_error(<u32 as Deserialize>::outcome(r0), e));
                assert(is_eof_error(e));
                return Err(e);
            },
        };
        assert(v < pow256(4));
        assert(fixed_outcome(r0, 4) == ParseOutcome::Value(4));
        let out = v as u32;
        assert(out as nat == v as nat);
        assert(<u32 as Deserialize>::is_value(r0, out));
        Ok(out)
    }
}

impl Serialize for u64 {
    open spec fn encoding(&self) -> Seq<u8> {
        le_bytes(*self, 8)
    }

    fn serialize(&self, output: &mut Vec<u8>) -> (out: Result<(), AssetError>) {
        write_le(output, *self, 8);
        Ok(())
    }
}

impl Deserialize for u64 {
    open spec fn outcome(input: Seq<u8>) -> ParseOutcome {
        fixed_outcome(input, 8)
    }

    open spec fn is_value(input: Seq<u8>, v: Self) -> bool {
        v as nat == le_value(input, 8)
    }

    fn deserialize(input: &mut ByteReader) -> (out: Result<Self, AssetError>) {
        proof {
            lemma_pow256_values();
        }
        let v = match read_le(input, 8) {
            Ok(v) => v,
            Err(e) => return Err(e),
        };
        Ok(v as u64)
    }
}

impl Serialize for i8 {
    open spec fn encoding(&self) -> Seq<u8> {
        le_bytes(*self as u8 as u64, 1)
    }

    fn serialize(&self, output: &mut Vec<u8>) -> (out: Result<(), AssetError>) {
        write_le(output, *self as u8 as u64, 1);
        Ok(())
    }
}

impl Deserialize for i8 {
    open spec fn outcome(input: Seq<u8>) -> ParseOutcome {
        fixed_outcome(input, 1)
    }

    open spec fn is_value(input: Seq<u8>, v: Self) -> bool {
        v as u8 as nat == le_value(input, 1)
    }

    fn deserialize(input: &mut ByteReader) -> (out: Result<Self, AssetError>) {
        proof {
            lemma_pow256_values();
        }
        let v = match read_le(input, 1) {
            Ok(v) => v,
            Err(e) => return Err(e),
        };
        proof {
            lemma_signed_bits(v as u8, 0, 0, 0);
        }
        Ok((v as u8) as i8)
    }
}

impl Serialize for i16 {
    open spec fn encoding(&self) -> Seq<u8> {
        le_bytes(*self as u16 as u64, 2)
    }

    fn serialize(&self, output: &mut Vec<u8>) -> (out: Result<(), AssetError>) {
        write_le(output, *self as u16 as u64, 2);
        Ok(())
    }
}

impl Deserialize for i16 {
    open spec fn outcome(input: Seq<u8>) -> ParseOutcome {
        fixed_outcome(input, 2)
    }

    open spec fn is_value(input: Seq<u8>, v: Self) -> bool {
        v as u16 as nat == le_value(input, 2)
    }

    fn deserialize(input: &mut ByteReader) -> (out: Result<Self, AssetError>) {
        proof {
            lemma_pow256_values();
        }
        let v = match read_le(input, 2) {
            Ok(v) => v,
            Err(e) => return Err(e),
        };
        proof {
            lemma_signed_bits(0, v as u16, 0, 0);
        }
        Ok((v as u16) as i16)
    }
}

impl Serialize for i32 {
    open spec fn encoding(&self) -> Seq<u8> {
        le_bytes(*self as u32 as u64, 4)
    }

    fn serialize(&self, output: &mut Vec<u8>) -> (out: Result<(), AssetError>) {
        write_le(output, *self as u32 as u64, 4);
        Ok(())
    }
}

impl Deserialize for i32 {
    open spec fn outcome(input: Seq<u8>) -> ParseOutcome {
        fixed_outcome(input, 4)
    }

    open spec fn is_value(input: Seq<u8>, v: Self) -> bool {
        v as u32 as nat == le_value(input, 4)
    }

    fn deserialize(input: &mut ByteReader) -> (out: Result<Self, AssetError>) {
        proof {
            lemma_pow256_values();
        }
        let v = match read_le(input, 4) {
            Ok(v) => v,
            Err(e) => return Err(e),
        };
        proof {
            lemma_signed_bits(0, 0, v as u32, 0);
        }
        Ok((v as u32) as i32)
    }
}

impl Serialize for i64 {
    open spec fn encoding(&self) -> Seq<u8> {
        le_bytes(*self as u64 as u64, 8)
    }

    fn serialize(&self, output: &mut Vec<u8>) -> (out: Result<(), AssetError>) {
        write_le(output, *self as u64 as u64, 8);
        Ok(())
    }
}

impl Deserialize for i64 {
    open spec fn outcome(input: Seq<u8>) -> ParseOutcome {
        fixed_outcome(input, 8)
    }

    open spec fn is_value(input: Seq<u8>, v: Self) -> bool {
        v as u64 as nat == le_value(input, 8)
    }

    fn deserialize(input: &mut ByteReader) -> (out: Result<Self, AssetError>) {
        proof {
            lemma_pow256_values();
        }
        let v = match read_le(input, 8) {
            Ok(v) => v,
            Err(e) => return Err(e),
        };
        proof {
            lemma_signed_bits(0, 0, 0, v as u64);
        }
        Ok((v as u64) as i64)
    }
}
impl Serialize for bool {
    open spec fn encoding(&self) -> Seq<u8> {
        seq![if *self {
            1u8
        } else {
            0u8
        }]
    }

    fn serialize(&self, output: &mut Vec<u8>) -> (out: Result<(), AssetError>) {
        let ghost o0 = output@;
        if *self {
            1u8.serialize(output)?;
        } else {
            0u8.serialize(output)?;
        }
        assert(((1u64 >> 0u64) & 0xff) == 1 && ((0u64 >> 0u64) & 0xff) == 0) by (bit_vector);
        assert(le_bytes(1, 1) =~= seq![1u8]);
        assert(le_bytes(0, 1) =~= seq![0u8]);
        assert(output@ =~= o0 + self.encoding());
        Ok(())
    }
}

impl Deserialize for bool {
    open spec fn outcome(input: Seq<u8>) -> ParseOutcome {
        fixed_outcome(input, 1)
    }

    open spec fn is_value(input: Seq<u8>, v: Self) -> bool {
        v == (input[0] != 0)
    }

    fn deserialize(input: &mut ByteReader) -> (out: Result<Self, AssetError>) {
        let ghost r0 = input.rest();
        let b = u8::deserialize(input)?;
        proof {
            reveal_with_fuel(le_value, 2);
        }
        Ok(b != 0)
    }
}

/// The length of a string or sequence at the start of `input`.
pub open spec fn length_prefix(input: Seq<u8>) -> nat {
    le_value(input, 4)
}

impl Serialize for String {
    /// The byte length as a `u32` (truncated), then the UTF-8 bytes.
    open spec fn encoding(&self) -> Seq<u8> {
        le_bytes(encode_utf8(self@).len() as u32 as u64, 4) + encode_utf8(self@)
    }

    fn serialize(&self, output: &mut Vec<u8>) -> (out: Result<(), AssetError>) {
        let ghost o0 = output@;
        let bytes = self.as_str().as_bytes();
        (bytes.len() as u32).serialize(output)?;
        let mut i: usize = 0;
        let ghost o1 = output@;
        while i < bytes.len()
            invariant
                i <= bytes@.len(),
                output@ == o1 + bytes@.take(i as int),
            decreases bytes@.len() - i,
        {
            output.push(bytes[i]);
            proof {
                assert(bytes@.take(i + 1) =~= bytes@.take(i as int).push(bytes@[i as int]));
            }
            i = i + 1;
        }
        proof {
            assert(bytes@.take(bytes@.len() as int) =~= bytes@);
            assert(output@ =~= o0 + self.encoding());
        }
        Ok(())
    }
}

impl Deserialize for String {
    /// A `u32` byte length, then that many bytes of valid UTF-8.
    open spec fn outcome(input: Seq<u8>) -> ParseOutcome {
        if input.len() < 4 {
            ParseOutcome::Eof
        } else if input.len() < 4 + length_prefix(input) {
            ParseOutcome::Eof
        } else if valid_utf8(input.skip(4).take(length_prefix(input) as int)) {
            ParseOutcome::Value(4 + length_prefix(input))
        } else {
            ParseOutcome::Invalid
        }
    }

    open spec fn is_value(input: Seq<u8>, v: Self) -> bool {
        v@ == decode_utf8(input.skip(4).take(length_prefix(input) as int))
    }

    fn deserialize(input: &mut ByteReader) -> (out: Result<Self, AssetError>) {
        let ghost r0 = input.rest();
        let ghost p0 = input.pos;
        proof {
            lemma_reader_skip(*input);
        }
        let len = u32::deserialize(input)? as usize;
        let buf = input.read_exact(len)?;
        proof {
            lemma_skip_skip(r0, 4, 0);
        }
        match utf8_string(buf) {
            Ok(s) => Ok(s),
            Err(msg) => Err(AssetError::OtherError(msg)),
        }
    }
}

impl<T: Serialize> Serialize for Vec<T> {
    /// The length as a `u32` (truncated), then the values.
    open spec fn encoding(&self) -> Seq<u8> {
        le_bytes(self@.len() as u32 as u64, 4) + encode_values(self@)
    }

    fn serialize(&self, output: &mut Vec<u8>) -> (out: Result<(), AssetError>) {
        let ghost o0 = output@;
        (self.len() as u32).serialize(output)?;
        let ghost o1 = output@;
        let mut i: usize = 0;
        while i < self.len()
            invariant
                i <= self@.len(),
                output@ == o1 + encode_values(self@.take(i as int)),
            decreases self@.len() - i,
        {
            self[i].serialize(output)?;
            proof {
                assert(self@.take(i + 1).drop_last() =~= self@.take(i as int));
                assert(output@ =~= o1 + encode_values(self@.take(i + 1)));
            }
            i = i + 1;
        }
        proof {
            assert(self@.take(i as int) =~= self@);
        }
        Ok(())
    }
}

/// The bytes written for the values of `items`, in order.
pub open spec fn encode_values<T: Serialize>(items: Seq<T>) -> Seq<u8>
    decreases items.len(),
{
    if items.len() == 0 {
        seq![]
    } else {
        encode_values(items.drop_last()) + items.last().encoding()
    }
}

/// Reading one value after another: the outcome `r` of the first, and `next` giving the
/// outcome of the second from the offset where it starts.
pub open spec fn chain_outcome(r: ParseOutcome, next: spec_fn(nat) -> ParseOutcome) -> ParseOutcome {
    match r {
        ParseOutcome::Value(o) => match next(o) {
            ParseOutcome::Value(l) => ParseOutcome::Value(o + l),
            other => other,
        },
        other => other,
    }
}

/// The number of bytes of a value read, or 0 when none was.
pub open spec fn offset_of(r: ParseOutcome) -> nat {
    match r {
        ParseOutcome::Value(o) => o,
        _ => 0,
    }
}

proof fn lemma_skip_skip(s: Seq<u8>, a: nat, b: nat)
    requires
        a + b <= s.len(),
    ensures
        s.skip(a as int).skip(b as int) == s.skip((a + b) as int),
{
    assert(s.skip(a as int).skip(b as int) =~= s.skip((a + b) as int));
}

/// What reading `k` values of type `T` one after the other from `input` gives.
pub open spec fn values_outcome<T: Deserialize>(input: Seq<u8>, k: nat) -> ParseOutcome
    decreases k,
{
    if k == 0 {
        ParseOutcome::Value(0)
    } else {
        chain_outcome(values_outcome::<T>(input, (k - 1) as nat), |o: nat| T::outcome(input.skip(o as int)))
    }
}

proof fn lemma_values_outcome_stuck<T: Deserialize>(input: Seq<u8>, j: nat, k: nat)
    requires
        j <= k,
        !(values_outcome::<T>(input, j) is Value),
    ensures
        values_outcome::<T>(input, k) == values_outcome::<T>(input, j),
    decreases k,
{
    if j < k {
        lemma_values_outcome_stuck::<T>(input, j, (k - 1) as nat);
    }
}

impl<T: Deserialize> Deserialize for Vec<T> {
    /// A `u32` count, then that many values.
    open spec fn outcome(input: Seq<u8>) -> ParseOutcome {
        if input.len() < 4 {
            ParseOutcome::Eof
        } else {
            chain_outcome(ParseOutcome::Value(4), |o: nat| values_outcome::<T>(input.skip(4), length_prefix(input)))
        }
    }

    open spec fn is_value(input: Seq<u8>, v: Self) -> bool {
        &&& v@.len() == length_prefix(input)
        &&& forall|i: nat|
            i < v@.len() ==> T::is_value(
                input.skip(4).skip(offset_of(#[trigger] values_outcome::<T>(input.skip(4), i)) as int),
                v@[i as int],
            )
    }

    fn deserialize(input: &mut ByteReader) -> (out: Result<Self, AssetError>) {
        let ghost r0 = input.rest();
        let ghost p0 = input.pos;
        let ghost t = r0.skip(4);
        proof {
            lemma_reader_skip(*input);
        }
        let len = u32::deserialize(input)? as usize;
        let mut vec: Vec<T> = Vec::new();
        let mut i: usize = 0;
        let ghost mut off: nat = 0;
        proof {
            lemma_skip_skip(r0, 4, 0);
        }
        while i < len
            invariant
                input.wf(),
                input.data@ == old(input).data@,
                r0 == old(input).rest(),
                t == r0.skip(4),
                r0.len() >= 4,
                len == length_prefix(r0),
                i <= len,
                vec@.len() == i,
                values_outcome::<T>(t, i as nat) == ParseOutcome::Value(off),
                input.rest() == t.skip(off as int),
                input.pos == old(input).pos + 4 + off,
                off <= t.len(),
                forall|j: nat|
                    j < i ==> T::is_value(t.skip(offset_of(#[trigger] values_outcome::<T>(t, j)) as int), vec@[j as int]),
            decreases len - i,
        {
            let ghost before = *input;
            proof {
                lemma_reader_skip(before);
            }
            let v = match T::deserialize(input) {
                Ok(v) => v,
                Err(e) => {
                    proof {
                        lemma_values_outcome_stuck::<T>(t, (i + 1) as nat, len as nat);
                    }
                    return Err(e);
                },
            };
            proof {
                let l = offset_of(T::outcome(t.skip(off as int)));
                lemma_reader_skip(before);
                lemma_skip_skip(t, off, l);
                off = off + l;
            }
            let ghost vec_before = vec@;
            vec.push(v);
            proof {
                assert forall|j: nat| j < i + 1 implies T::is_value(
                    t.skip(offset_of(#[trigger] values_outcome::<T>(t, j)) as int),
                    vec@[j as int],
                ) by {
                    if j < i {
                        assert(vec@[j as int] == vec_before[j as int]);
                    }
                }
            }
            i = i + 1;
        }
        Ok(vec)
    }
}

impl<T1: Serialize> Serialize for (T1,) {
    open spec fn encoding(&self) -> Seq<u8> {
        self.0.encoding()
    }

    fn serialize(&self, output: &mut Vec<u8>) -> (out: Result<(), AssetError>) {
        let ghost o0 = output@;
        self.0.serialize(output)?;
        assert(output@ =~= o0 + (self.0.encoding()));
        Ok(())
    }
}

impl<T1: Deserialize> Deserialize for (T1,) {
    open spec fn outcome(input: Seq<u8>) -> ParseOutcome {
        let r1 = T1::outcome(input);
        r1
    }

    open spec fn is_value(input: Seq<u8>, v: Self) -> bool {
        let r1 = T1::outcome(input);
        &&& r1 is Value
        &&& T1::is_value(input, v.0)
    }

    fn deserialize(input: &mut ByteReader) -> (out: Result<Self, AssetError>) {
        let ghost r0 = input.rest();
        let ghost p0 = input.pos;
        let ghost r1 = T1::outcome(r0);
        let ghost before1 = *input;
        proof {
            lemma_reader_skip(before1);
        }
        let v1 = T1::deserialize(input)?;
        proof {
            lemma_reader_skip(before1);
            lemma_skip_skip(r0, 0, offset_of(T1::outcome(r0.skip(0 as int))));
        }
        Ok((v1,))
    }
}

impl<T1: Serialize, T2: Serialize> Serialize for (T1, T2) {
    open spec fn encoding(&self) -> Seq<u8> {
        self.0.encoding() + self.1.encoding()
    }

    fn serialize(&self, output: &mut Vec<u8>) -> (out: Result<(), AssetError>) {
        let ghost o0 = output@;
        self.0.serialize(output)?;
        self.1.serialize(output)?;
        assert(output@ =~= o0 + (self.0.encoding() + self.1.encoding()));
        Ok(())
    }
}

impl<T1: Deserialize, T2: Deserialize> Deserialize for (T1, T2) {
    open spec fn outcome(input: Seq<u8>) -> ParseOutcome {
        let r1 = T1::outcome(input);
        let r2 = chain_outcome(r1, |o: nat| T2::outcome(input.skip(o as int)));
        r2
    }

    open spec fn is_value(input: Seq<u8>, v: Self) -> bool {
        let r1 = T1::outcome(input);
        let r2 = chain_outcome(r1, |o: nat| T2::outcome(input.skip(o as int)));
        &&& r2 is Value
        &&& T1::is_value(input, v.0)
        &&& T2::is_value(input.skip(offset_of(r1) as int), v.1)
    }

    fn deserialize(input: &mut ByteReader) -> (out: Result<Self, AssetError>) {
        let ghost r0 = input.rest();
        let ghost p0 = input.pos;
        let ghost r1 = T1::outcome(r0);
        let ghost r2 = chain_outcome(r1, |o: nat| T2::outcome(r0.skip(o as int)));
        let ghost before1 = *input;
        proof {
            lemma_reader_skip(before1);
        }
        let v1 = T1::deserialize(input)?;
        proof {
            lemma_reader_skip(before1);
            lemma_skip_skip(r0, 0, offset_of(T1::outcome(r0.skip(0 as int))));
        }
        let ghost before2 = *input;
        proof {
            lemma_reader_skip(before2);
        }
        let v2 = T2::deserialize(input)?;
        proof {
            lemma_reader_skip(before2);
            lemma_skip_skip(r0, offset_of(r1), offset_of(T2::outcome(r0.skip(offset_of(r1) as int))));
        }
        Ok((v1, v2))
    }
}

impl<T1: Serialize, T2: Serialize, T3: Serialize> Serialize for (T1, T2, T3) {
    open spec fn encoding(&self) -> Seq<u8> {
        self.0.encoding() + self.1.encoding() + self.2.encoding()
    }

    fn serialize(&self, output: &mut Vec<u8>) -> (out: Result<(), AssetError>) {
        let ghost o0 = output@;
        self.0.serialize(output)?;
        self.1.serialize(output)?;
        self.2.serialize(output)?;
        assert(output@ =~= o0 + (self.0.encoding() + self.1.encoding() + self.2.encoding()));
        Ok(())
    }
}

impl<T1: Deserialize, T2: Deserialize, T3: Deserialize> Deserialize for (T1, T2, T3) {
    open spec fn outcome(input: Seq<u8>) -> ParseOutcome {
        let r1 = T1::outcome(input);
        let r2 = chain_outcome(r1, |o: nat| T2::outcome(input.skip(o as int)));
        let r3 = chain_outcome(r2, |o: nat| T3::outcome(input.skip(o as int)));
        r3
    }

    open spec fn is_value(input: Seq<u8>, v: Self) -> bool {
        let r1 = T1::outcome(input);
        let r2 = chain_outcome(r1, |o: nat| T2::outcome(input.skip(o as int)));
        let r3 = chain_outcome(r2, |o: nat| T3::outcome(input.skip(o as int)));
        &&& r3 is Value
        &&& T1::is_value(input, v.0)
        &&& T2::is_value(input.skip(offset_of(r1) as int), v.1)
        &&& T3::is_value(input.skip(offset_of(r2) as int), v.2)
    }

    fn deserialize(input: &mut ByteReader) -> (out: Result<Self, AssetError>) {
        let ghost r0 = input.rest();
        let ghost p0 = input.pos;
        let ghost r1 = T1::outcome(r0);
        let ghost r2 = chain_outcome(r1, |o: nat| T2::outcome(r0.skip(o as int)));
        let ghost r3 = chain_outcome(r2, |o: nat| T3::outcome(r0.skip(o as int)));
        let ghost before1 = *input;
        proof {
            lemma_reader_skip(before1);
        }
        let v1 = T1::deserialize(input)?;
        proof {
            lemma_reader_skip(before1);
            lemma_skip_skip(r0, 0, offset_of(T1::outcome(r0.skip(0 as int))));
        }
        let ghost before2 = *input;
        proof {
            lemma_reader_skip(before2);
        }
        let v2 = T2::deserialize(input)?;
        proof {
            lemma_reader_skip(before2);
            lemma_skip_skip(r0, offset_of(r1), offset_of(T2::outcome(r0.skip(offset_of(r1) as int))));
        }
        let ghost before3 = *input;
        proof {
            lemma_reader_skip(before3);
        }
        let v3 = T3::deserialize(input)?;
        proof {
            lemma_reader_skip(before3);
            lemma_skip_skip(r0, offset_of(r2), offset_of(T3::outcome(r0.skip(offset_of(r2) as int))));
        }
        Ok((v1, v2, v3))
    }
}

impl<T1: Serialize, T2: Serialize, T3: Serialize, T4: Serialize> Serialize for (T1, T2, T3, T4) {
    open spec fn encoding(&self) -> Seq<u8> {
        self.0.encoding() + self.1.encoding() + self.2.encoding() + self.3.encoding()
    }

    fn serialize(&self, output: &mut Vec<u8>) -> (out: Result<(), AssetError>) {
        let ghost o0 = output@;
        self.0.serialize(output)?;
        self.1.serialize(output)?;
        self.2.serialize(output)?;
        self.3.serialize(output)?;
        assert(output@ =~= o0 + (self.0.encoding() + self.1.encoding() + self.2.encoding() + self.3.encoding()));
        Ok(())
    }
}

impl<T1: Deserialize, T2: Deserialize, T3: Deserialize, T4: Deserialize> Deserialize for (T1, T2, T3, T4) {
    open spec fn outcome(input: Seq<u8>) -> ParseOutcome {
        let r1 = T1::outcome(input);
        let r2 = chain_outcome(r1, |o: nat| T2::outcome(input.skip(o as int)));
        let r3 = chain_outcome(r2, |o: nat| T3::outcome(input.skip(o as int)));
        let r4 = chain_outcome(r3, |o: nat| T4::outcome(input.skip(o as int)));
        r4
    }

    open spec fn is_value(input: Seq<u8>, v: Self) -> bool {
        let r1 = T1::outcome(input);
        let r2 = chain_outcome(r1, |o: nat| T2::outcome(input.skip(o as int)));
        let r3 = chain_outcome(r2, |o: nat| T3::outcome(input.skip(o as int)));
        let r4 = chain_outcome(r3, |o: nat| T4::outcome(input.skip(o as int)));
        &&& r4 is Value
        &&& T1::is_value(input, v.0)
        &&& T2::is_value(input.skip(offset_of(r1) as int), v.1)
        &&& T3::is_value(input.skip(offset_of(r2) as int), v.2)
        &&& T4::is_value(input.skip(offset_of(r3) as int), v.3)
    }

    fn deserialize(input: &mut ByteReader) -> (out: Result<Self, AssetError>) {
        let ghost r0 = input.rest();
        let ghost p0 = input.pos;
        let ghost r1 = T1::outcome(r0);
        let ghost r2 = chain_outcome(r1, |o: nat| T2::outcome(r0.skip(o as int)));
        let ghost r3 = chain_outcome(r2, |o: nat| T3::outcome(r0.skip(o as int)));
        let ghost r4 = chain_outcome(r3, |o: nat| T4::outcome(r0.skip(o as int)));
        let ghost before1 = *input;
        proof {
            lemma_reader_skip(before1);
        }
        let v1 = T1::deserialize(input)?;
        proof {
            lemma_reader_skip(before1);
            lemma_skip_skip(r0, 0, offset_of(T1::outcome(r0.skip(0 as int))));
        }
        let ghost before2 = *input;
        proof {
            lemma_reader_skip(before2);
        }
        let v2 = T2::deserialize(input)?;
        proof {
            lemma_reader_skip(before2);
            lemma_skip_skip(r0, offset_of(r1), offset_of(T2::outcome(r0.skip(offset_of(r1) as int))));
        }
        let ghost before3 = *input;
        proof {
            lemma_reader_skip(before3);
        }
        let v3 = T3::deserialize(input)?;
        proof {
            lemma_reader_skip(before3);
            lemma_skip_skip(r0, offset_of(r2), offset_of(T3::outcome(r0.skip(offset_of(r2) as int))));
        }
        let ghost before4 = *input;
        proof {
            lemma_reader_skip(before4);
        }
        let v4 = T4::deserialize(input)?;
        proof {
            lemma_reader_skip(before4);
            lemma_skip_skip(r0, offset_of(r3), offset_of(T4::outcome(r0.skip(offset_of(r3) as int))));
        }
        Ok((v1, v2, v3, v4))
    }
}

impl<T1: Serialize, T2: Serialize, T3: Serialize, T4: Serialize, T5: Serialize> Serialize for (T1, T2, T3, T4, T5) {
    open spec fn encoding(&self) -> Seq<u8> {
        self.0.encoding() + self.1.encoding() + self.2.encoding() + self.3.encoding() + self.4.encoding()
    }

    fn serialize(&self, output: &mut Vec<u8>) -> (out: Result<(), AssetError>) {
        let ghost o0 = output@;
        self.0.serialize(output)?;
        self.1.serialize(output)?;
        self.2.serialize(output)?;
        self.3.serialize(output)?;
        self.4.serialize(output)?;
        assert(output@ =~= o0 + (self.0.encoding() + self.1.encoding() + self.2.encoding() + self.3.encoding() + self.4.encoding()));
        Ok(())
    }
}

impl<T1: Deserialize, T2: Deserialize, T3: Deserialize, T4: Deserialize, T5: Deserialize> Deserialize for (T1, T2, T3, T4, T5) {
    open spec fn outcome(input: Seq<u8>) -> ParseOutcome {
        let r1 = T1::outcome(input);
        let r2 = chain_outcome(r1, |o: nat| T2::outcome(input.skip(o as int)));
        let r3 = chain_outcome(r2, |o: nat| T3::outcome(input.skip(o as int)));
        let r4 = chain_outcome(r3, |o: nat| T4::outcome(input.skip(o as int)));
        let r5 = chain_outcome(r4, |o: nat| T5::outcome(input.skip(o as int)));
        r5
    }

    open spec fn is_value(input: Seq<u8>, v: Self) -> bool {
        let r1 = T1::outcome(input);
        let r2 = chain_outcome(r1, |o: nat| T2::outcome(input.skip(o as int)));
        let r3 = chain_outcome(r2, |o: nat| T3::outcome(input.skip(o as int)));
        let r4 = chain_outcome(r3, |o: nat| T4::outcome(input.skip(o as int)));
        let r5 = chain_outcome(r4, |o: nat| T5::outcome(input.skip(o as int)));
        &&& r5 is Value
        &&& T1::is_value(input, v.0)
        &&& T2::is_value(input.skip(offset_of(r1) as int), v.1)
        &&& T3::is_value(input.skip(offset_of(r2) as int), v.2)
        &&& T4::is_value(input.skip(offset_of(r3) as int), v.3)
        &&& T5::is_value(input.skip(offset_of(r4) as int), v.4)
    }

    fn deserialize(input: &mut ByteReader) -> (out: Result<Self, AssetError>) {
        let ghost r0 = input.rest();
        let ghost p0 = input.pos;
        let ghost r1 = T1::outcome(r0);
        let ghost r2 = chain_outcome(r1, |o: nat| T2::outcome(r0.skip(o as int)));
        let ghost r3 = chain_outcome(r2, |o: nat| T3::outcome(r0.skip(o as int)));
        let ghost r4 = chain_outcome(r3, |o: nat| T4::outcome(r0.skip(o as int)));
        let ghost r5 = chain_outcome(r4, |o: nat| T5::outcome(r0.skip(o as int)));
        let ghost before1 = *input;
        proof {
            lemma_reader_skip(before1);
        }
        let v1 = T1::deserialize(input)?;
        proof {
            lemma_reader_skip(before1);
            lemma_skip_skip(r0, 0, offset_of(T1::outcome(r0.skip(0 as int))));
        }
        let ghost before2 = *input;
        proof {
            lemma_reader_skip(before2);
        }
        let v2 = T2::deserialize(input)?;
        proof {
            lemma_reader_skip(before2);
            lemma_skip_skip(r0, offset_of(r1), offset_of(T2::outcome(r0.skip(offset_of(r1) as int))));
        }
        let ghost before3 = *input;
        proof {
            lemma_reader_skip(before3);
        }
        let v3 = T3::deserialize(input)?;
        proof {
            lemma_reader_skip(before3);
            lemma_skip_skip(r0, offset_of(r2), offset_of(T3::outcome(r0.skip(offset_of(r2) as int))));
        }
        let ghost before4 = *input;
        proof {
            lemma_reader_skip(before4);
        }
        let v4 = T4::deserialize(input)?;
        proof {
            lemma_reader_skip(before4);
            lemma_skip_skip(r0, offset_of(r3), offset_of(T4::outcome(r0.skip(offset_of(r3) as int))));
        }
        let ghost before5 = *input;
        proof {
            lemma_reader_skip(before5);
        }
        let v5 = T5::deserialize(input)?;
        proof {
            lemma_reader_skip(before5);
            lemma_skip_skip(r0, offset_of(r4), offset_of(T5::outcome(r0.skip(offset_of(r4) as int))));
        }
        Ok((v1, v2, v3, v4, v5))
    }
}

impl<T1: Serialize, T2: Serialize, T3: Serialize, T4: Serialize, T5: Serialize, T6: Serialize> Serialize for (T1, T2, T3, T4, T5, T6) {
    open spec fn encoding(&self) -> Seq<u8> {
        self.0.encoding() + self.1.encoding() + self.2.encoding() + self.3.encoding() + self.4.encoding() + self.5.encoding()
    }

    fn serialize(&self, output: &mut Vec<u8>) -> (out: Result<(), AssetError>) {
        let ghost o0 = output@;
        self.0.serialize(output)?;
        self.1.serialize(output)?;
        self.2.serialize(output)?;
        self.3.serialize(output)?;
        self.4.serialize(output)?;
        self.5.serialize(output)?;
        assert(output@ =~= o0 + (self.0.encoding() + self.1.encoding() + self.2.encoding() + self.3.encoding() + self.4.encoding() + self.5.encoding()));
        Ok(())
    }
}

impl<T1: Deserialize, T2: Deserialize, T3: Deserialize, T4: Deserialize, T5: Deserialize, T6: Deserialize> Deserialize for (T1, T2, T3, T4, T5, T6) {
    open spec fn outcome(input: Seq<u8>) -> ParseOutcome {
        let r1 = T1::outcome(input);
        let r2 = chain_outcome(r1, |o: nat| T2::outcome(input.skip(o as int)));
        let r3 = chain_outcome(r2, |o: nat| T3::outcome(input.skip(o as int)));
        let r4 = chain_outcome(r3, |o: nat| T4::outcome(input.skip(o as int)));
        let r5 = chain_outcome(r4, |o: nat| T5::outcome(input.skip(o as int)));
        let r6 = chain_outcome(r5, |o: nat| T6::outcome(input.skip(o as int)));
        r6
    }

    open spec fn is_value(input: Seq<u8>, v: Self) -> bool {
        let r1 = T1::outcome(input);
        let r2 = chain_outcome(r1, |o: nat| T2::outcome(input.skip(o as int)));
        let r3 = chain_outcome(r2, |o: nat| T3::outcome(input.skip(o as int)));
        let r4 = chain_outcome(r3, |o: nat| T4::outcome(input.skip(o as int)));
        let r5 = chain_outcome(r4, |o: nat| T5::outcome(input.skip(o as int)));
        let r6 = chain_outcome(r5, |o: nat| T6::outcome(input.skip(o as int)));
        &&& r6 is Value
        &&& T1::is_value(input, v.0)
        &&& T2::is_value(input.skip(offset_of(r1) as int), v.1)
        &&& T3::is_value(input.skip(offset_of(r2) as int), v.2)
        &&& T4::is_value(input.skip(offset_of(r3) as int), v.3)
        &&& T5::is_value(input.skip(offset_of(r4) as int), v.4)
        &&& T6::is_value(input.skip(offset_of(r5) as int), v.5)
    }

    fn deserialize(input: &mut ByteReader) -> (out: Result<Self, AssetError>) {
        let ghost r0 = input.rest();
        let ghost p0 = input.pos;
        let ghost r1 = T1::outcome(r0);
        let ghost r2 = chain_outcome(r1, |o: nat| T2::outcome(r0.skip(o as int)));
        let ghost r3 = chain_outcome(r2, |o: nat| T3::outcome(r0.skip(o as int)));
        let ghost r4 = chain_outcome(r3, |o: nat| T4::outcome(r0.skip(o as int)));
        let ghost r5 = chain_outcome(r4, |o: nat| T5::outcome(r0.skip(o as int)));
        let ghost r6 = chain_outcome(r5, |o: nat| T6::outcome(r0.skip(o as int)));
        let ghost before1 = *input;
        proof {
            lemma_reader_skip(before1);
        }
        let v1 = T1::deserialize(input)?;
        proof {
            lemma_reader_skip(before1);
            lemma_skip_skip(r0, 0, offset_of(T1::outcome(r0.skip(0 as int))));
        }
        let ghost before2 = *input;
        proof {
            lemma_reader_skip(before2);
        }
        let v2 = T2::deserialize(input)?;
        proof {
            lemma_reader_skip(before2);
            lemma_skip_skip(r0, offset_of(r1), offset_of(T2::outcome(r0.skip(offset_of(r1) as int))));
        }
        let ghost before3 = *input;
        proof {
            lemma_reader_skip(before3);
        }
        let v3 = T3::deserialize(input)?;
        proof {
            lemma_reader_skip(before3);
            lemma_skip_skip(r0, offset_of(r2), offset_of(T3::outcome(r0.skip(offset_of(r2) as int))));
        }
        let ghost before4 = *input;
        proof {
            lemma_reader_skip(before4);
        }
        let v4 = T4::deserialize(input)?;
        proof {
            lemma_reader_skip(before4);
            lemma_skip_skip(r0, offset_of(r3), offset_of(T4::outcome(r0.skip(offset_of(r3) as int))));
        }
        let ghost before5 = *input;
        proof {
            lemma_reader_skip(before5);
        }
        let v5 = T5::deserialize(input)?;
        proof {
            lemma_reader_skip(before5);
            lemma_skip_skip(r0, offset_of(r4), offset_of(T5::outcome(r0.skip(offset_of(r4) as int))));
        }
        let ghost before6 = *input;
        proof {
            lemma_reader_skip(before6);
        }
        let v6 = T6::deserialize(input)?;
        proof {
            lemma_reader_skip(before6);
            lemma_skip_skip(r0, offset_of(r5), offset_of(T6::outcome(r0.skip(offset_of(r5) as int))));
        }
        Ok((v1, v2, v3, v4, v5, v6))
    }
}

impl<T1: Serialize, T2: Serialize, T3: Serialize, T4: Serialize, T5: Serialize, T6: Serialize, T7: Serialize> Serialize for (T1, T2, T3, T4, T5, T6, T7) {
    open spec fn encoding(&self) -> Seq<u8> {
        self.0.encoding() + self.1.encoding() + self.2.encoding() + self.3.encoding() + self.4.encoding() + self.5.encoding() + self.6.encoding()
    }

    fn serialize(&self, output: &mut Vec<u8>) -> (out: Result<(), AssetError>) {
        let ghost o0 = output@;
        self.0.serialize(output)?;
        self.1.serialize(output)?;
        self.2.serialize(output)?;
        self.3.serialize(output)?;
        self.4.serialize(output)?;
        self.5.serialize(output)?;
        self.6.serialize(output)?;
        assert(output@ =~= o0 + (self.0.encoding() + self.1.encoding() + self.2.encoding() + self.3.encoding() + self.4.encoding() + self.5.encoding() + self.6.encoding()));
        Ok(())
    }
}

impl<T1: Deserialize, T2: Deserialize, T3: Deserialize, T4: Deserialize, T5: Deserialize, T6: Deserialize, T7: Deserialize> Deserialize for (T1, T2, T3, T4, T5, T6, T7) {
    open spec fn outcome(input: Seq<u8>) -> ParseOutcome {
        let r1 = T1::outcome(input);
        let r2 = chain_outcome(r1, |o: nat| T2::outcome(input.skip(o as int)));
        let r3 = chain_outcome(r2, |o: nat| T3::outcome(input.skip(o as int)));
        let r4 = chain_outcome(r3, |o: nat| T4::outcome(input.skip(o as int)));
        let r5 = chain_outcome(r4, |o: nat| T5::outcome(input.skip(o as int)));
        let r6 = chain_outcome(r5, |o: nat| T6::outcome(input.skip(o as int)));
        let r7 = chain_outcome(r6, |o: nat| T7::outcome(input.skip(o as int)));
        r7
    }

    open spec fn is_value(input: Seq<u8>, v: Self) -> bool {
        let r1 = T1::outcome(input);
        let r2 = chain_outcome(r1, |o: nat| T2::outcome(input.skip(o as int)));
        let r3 = chain_outcome(r2, |o: nat| T3::outcome(input.skip(o as int)));
        let r4 = chain_outcome(r3, |o: nat| T4::outcome(input.skip(o as int)));
        let r5 = chain_outcome(r4, |o: nat| T5::outcome(input.skip(o as int)));
        let r6 = chain_outcome(r5, |o: nat| T6::outcome(input.skip(o as int)));
        let r7 = chain_outcome(r6, |o: nat| T7::outcome(input.skip(o as int)));
        &&& r7 is Value
        &&& T1::is_value(input, v.0)
        &&& T2::is_value(input.skip(offset_of(r1) as int), v.1)
        &&& T3::is_value(input.skip(offset_of(r2) as int), v.2)
        &&& T4::is_value(input.skip(offset_of(r3) as int), v.3)
        &&& T5::is_value(input.skip(offset_of(r4) as int), v.4)
        &&& T6::is_value(input.skip(offset_of(r5) as int), v.5)
        &&& T7::is_value(input.skip(offset_of(r6) as int), v.6)
    }

    fn deserialize(input: &mut ByteReader) -> (out: Result<Self, AssetError>) {
        let ghost r0 = input.rest();
        let ghost p0 = input.pos;
        let ghost r1 = T1::outcome(r0);
        let ghost r2 = chain_outcome(r1, |o: nat| T2::outcome(r0.skip(o as int)));
        let ghost r3 = chain_outcome(r2, |o: nat| T3::outcome(r0.skip(o as int)));
        let ghost r4 = chain_outcome(r3, |o: nat| T4::outcome(r0.skip(o as int)));
        let ghost r5 = chain_outcome(r4, |o: nat| T5::outcome(r0.skip(o as int)));
        let ghost r6 = chain_outcome(r5, |o: nat| T6::outcome(r0.skip(o as int)));
        let ghost r7 = chain_outcome(r6, |o: nat| T7::outcome(r0.skip(o as int)));
        let ghost before1 = *input;
        proof {
            lemma_reader_skip(before1);
        }
        let v1 = T1::deserialize(input)?;
        proof {
            lemma_reader_skip(before1);
            lemma_skip_skip(r0, 0, offset_of(T1::outcome(r0.skip(0 as int))));
        }
        let ghost before2 = *input;
        proof {
            lemma_reader_skip(before2);
        }
        let v2 = T2::deserialize(input)?;
        proof {
            lemma_reader_skip(before2);
            lemma_skip_skip(r0, offset_of(r1), offset_of(T2::outcome(r0.skip(offset_of(r1) as int))));
        }
        let ghost before3 = *input;
        proof {
            lemma_reader_skip(before3);
        }
        let v3 = T3::deserialize(input)?;
        proof {
            lemma_reader_skip(before3);
            lemma_skip_skip(r0, offset_of(r2), offset_of(T3::outcome(r0.skip(offset_of(r2) as int))));
        }
        let ghost before4 = *input;
        proof {
            lemma_reader_skip(before4);
        }
        let v4 = T4::deserialize(input)?;
        proof {
            lemma_reader_skip(before4);
            lemma_skip_skip(r0, offset_of(r3), offset_of(T4::outcome(r0.skip(offset_of(r3) as int))));
        }
        let ghost before5 = *input;
        proof {
            lemma_reader_skip(before5);
        }
        let v5 = T5::deserialize(input)?;
        proof {
            lemma_reader_skip(before5);
            lemma_skip_skip(r0, offset_of(r4), offset_of(T5::outcome(r0.skip(offset_of(r4) as int))));
        }
        let ghost before6 = *input;
        proof {
            lemma_reader_skip(before6);
        }
        let v6 = T6::deserialize(input)?;
        proof {
            lemma_reader_skip(before6);
            lemma_skip_skip(r0, offset_of(r5), offset_of(T6::outcome(r0.skip(offset_of(r5) as int))));
        }
        let ghost before7 = *input;
        proof {
            lemma_reader_skip(before7);
        }
        let v7 = T7::deserialize(input)?;
        proof {
            lemma_reader_skip(before7);
            lemma_skip_skip(r0, offset_of(r6), offset_of(T7::outcome(r0.skip(offset_of(r6) as int))));
        }
        Ok((v1, v2, v3, v4, v5, v6, v7))
    }
}

impl<T1: Serialize, T2: Serialize, T3: Serialize, T4: Serialize, T5: Serialize, T6: Serialize, T7: Serialize, T8: Serialize> Serialize for (T1, T2, T3, T4, T5, T6, T7, T8) {
    open spec fn encoding(&self) -> Seq<u8> {
        self.0.encoding() + self.1.encoding() + self.2.encoding() + self.3.encoding() + self.4.encoding() + self.5.encoding() + self.6.encoding() + self.7.encoding()
    }

    fn serialize(&self, output: &mut Vec<u8>) -> (out: Result<(), AssetError>) {
        let ghost o0 = output@;
        self.0.serialize(output)?;
        self.1.serialize(output)?;
        self.2.serialize(output)?;
        self.3.serialize(output)?;
        self.4.serialize(output)?;
        self.5.serialize(output)?;
        self.6.serialize(output)?;
        self.7.serialize(output)?;
        assert(output@ =~= o0 + (self.0.encoding() + self.1.encoding() + self.2.encoding() + self.3.encoding() + self.4.encoding() + self.5.encoding() + self.6.encoding() + self.7.encoding()));
        Ok(())
    }
}

impl<T1: Deserialize, T2: Deserialize, T3: Deserialize, T4: Deserialize, T5: Deserialize, T6: Deserialize, T7: Deserialize, T8: Deserialize> Deserialize for (T1, T2, T3, T4, T5, T6, T7, T8) {
    open spec fn outcome(input: Seq<u8>) -> ParseOutcome {
        let r1 = T1::outcome(input);
        let r2 = chain_outcome(r1, |o: nat| T2::outcome(input.skip(o as int)));
        let r3 = chain_outcome(r2, |o: nat| T3::outcome(input.skip(o as int)));
        let r4 = chain_outcome(r3, |o: nat| T4::outcome(input.skip(o as int)));
        let r5 = chain_outcome(r4, |o: nat| T5::outcome(input.skip(o as int)));
        let r6 = chain_outcome(r5, |o: nat| T6::outcome(input.skip(o as int)));
        let r7 = chain_outcome(r6, |o: nat| T7::outcome(input.skip(o as int)));
        let r8 = chain_outcome(r7, |o: nat| T8::outcome(input.skip(o as int)));
        r8
    }

    open spec fn is_value(input: Seq<u8>, v: Self) -> bool {
        let r1 = T1::outcome(input);
        let r2 = chain_outcome(r1, |o: nat| T2::outcome(input.skip(o as int)));
        let r3 = chain_outcome(r2, |o: nat| T3::outcome(input.skip(o as int)));
        let r4 = chain_outcome(r3, |o: nat| T4::outcome(input.skip(o as int)));
        let r5 = chain_outcome(r4, |o: nat| T5::outcome(input.skip(o as int)));
        let r6 = chain_outcome(r5, |o: nat| T6::outcome(input.skip(o as int)));
        let r7 = chain_outcome(r6, |o: nat| T7::outcome(input.skip(o as int)));
        let r8 = chain_outcome(r7, |o: nat| T8::outcome(input.skip(o as int)));
        &&& r8 is Value
        &&& T1::is_value(input, v.0)
        &&& T2::is_value(input.skip(offset_of(r1) as int), v.1)
        &&& T3::is_value(input.skip(offset_of(r2) as int), v.2)
        &&& T4::is_value(input.skip(offset_of(r3) as int), v.3)
        &&& T5::is_value(input.skip(offset_of(r4) as int), v.4)
        &&& T6::is_value(input.skip(offset_of(r5) as int), v.5)
        &&& T7::is_value(input.skip(offset_of(r6) as int), v.6)
        &&& T8::is_value(input.skip(offset_of(r7) as int), v.7)
    }

    fn deserialize(input: &mut ByteReader) -> (out: Result<Self, AssetError>) {
        let ghost r0 = input.rest();
        let ghost p0 = input.pos;
        let ghost r1 = T1::outcome(r0);
        let ghost r2 = chain_outcome(r1, |o: nat| T2::outcome(r0.skip(o as int)));
        let ghost r3 = chain_outcome(r2, |o: nat| T3::outcome(r0.skip(o as int)));
        let ghost r4 = chain_outcome(r3, |o: nat| T4::outcome(r0.skip(o as int)));
        let ghost r5 = chain_outcome(r4, |o: nat| T5::outcome(r0.skip(o as int)));
        let ghost r6 = chain_outcome(r5, |o: nat| T6::outcome(r0.skip(o as int)));
        let ghost r7 = chain_outcome(r6, |o: nat| T7::outcome(r0.skip(o as int)));
        let ghost r8 = chain_outcome(r7, |o: nat| T8::outcome(r0.skip(o as int)));
        let ghost before1 = *input;
        proof {
            lemma_reader_skip(before1);
        }
        let v1 = T1::deserialize(input)?;
        proof {
            lemma_reader_skip(before1);
            lemma_skip_skip(r0, 0, offset_of(T1::outcome(r0.skip(0 as int))));
        }
        let ghost before2 = *input;
        proof {
            lemma_reader_skip(before2);
        }
        let v2 = T2::deserialize(input)?;
        proof {
            lemma_reader_skip(before2);
            lemma_skip_skip(r0, offset_of(r1), offset_of(T2::outcome(r0.skip(offset_of(r1) as int))));
        }
        let ghost before3 = *input;
        proof {
            lemma_reader_skip(before3);
        }
        let v3 = T3::deserialize(input)?;
        proof {
            lemma_reader_skip(before3);
            lemma_skip_skip(r0, offset_of(r2), offset_of(T3::outcome(r0.skip(offset_of(r2) as int))));
        }
        let ghost before4 = *input;
        proof {
            lemma_reader_skip(before4);
        }
        let v4 = T4::deserialize(input)?;
        proof {
            lemma_reader_skip(before4);
            lemma_skip_skip(r0, offset_of(r3), offset_of(T4::outcome(r0.skip(offset_of(r3) as int))));
        }
        let ghost before5 = *input;
        proof {
            lemma_reader_skip(before5);
        }
        let v5 = T5::deserialize(input)?;
        proof {
            lemma_reader_skip(before5);
            lemma_skip_skip(r0, offset_of(r4), offset_of(T5::outcome(r0.skip(offset_of(r4) as int))));
        }
        let ghost before6 = *input;
        proof {
            lemma_reader_skip(before6);
        }
        let v6 = T6::deserialize(input)?;
        proof {
            lemma_reader_skip(before6);
            lemma_skip_skip(r0, offset_of(r5), offset_of(T6::outcome(r0.skip(offset_of(r5) as int))));
        }
        let ghost before7 = *input;
        proof {
            lemma_reader_skip(before7);
        }
        let v7 = T7::deserialize(input)?;
        proof {
            lemma_reader_skip(before7);
            lemma_skip_skip(r0, offset_of(r6), offset_of(T7::outcome(r0.skip(offset_of(r6) as int))));
        }
        let ghost before8 = *input;
        proof {
            lemma_reader_skip(before8);
        }
        let v8 = T8::deserialize(input)?;
        proof {
            lemma_reader_skip(before8);
            lemma_skip_skip(r0, offset_of(r7), offset_of(T8::outcome(r0.skip(offset_of(r7) as int))));
        }
        Ok((v1, v2, v3, v4, v5, v6, v7, v8))
    }
}


/// Byte `i` of the little-endian bytes of `v` is its `i`-th base-256 digit.
proof fn lemma_le_digit(v: u64, k: nat, i: int)
    requires
        0 <= i < k <= 8,
    ensures
        le_bytes(v, k)[i] as nat == (v as nat / pow256(i as nat)) % 256,
{
    lemma_byte_digit(v, i as nat);
}

/// Bytes holding the base-256 digits of `v` read back as `v` modulo `256^k`.
proof fn lemma_le_value_digits(s: Seq<u8>, v: nat, k: nat)
    requires
        k <= s.len(),
        forall|i: int| 0 <= i < k ==> #[trigger] s[i] as nat == (v / pow256(i as nat)) % 256,
    ensures
        le_value(s, k) == v % pow256(k),
    decreases k,
{
    if k > 0 {
        let s1 = s.skip(1);
        assert forall|i: int| 0 <= i < k - 1 implies #[trigger] s1[i] as nat == ((v / 256) / pow256(
            i as nat,
        )) % 256 by {
            assert(s1[i] == s[i + 1]);
            lemma_pow256_positive(i as nat);
            vstd::arithmetic::div_mod::lemma_div_denominator(v as int, 256, pow256(i as nat) as int);
            assert(pow256((i + 1) as nat) == 256 * pow256(i as nat));
        }
        lemma_le_value_digits(s1, v / 256, (k - 1) as nat);
        lemma_pow256_positive((k - 1) as nat);
        vstd::arithmetic::div_mod::lemma_mod_breakdown(v as int, 256, pow256((k - 1) as nat) as int);
        assert(s[0] as nat == (v / pow256(0)) % 256);
        assert(pow256(0) == 1);
        assert(v / 1 == v) by (nonlinear_arith);
    }
}

/// Reading `k` little-endian bytes written for `v` gives `v` back.
proof fn lemma_le_round_trip(v: u64, k: nat, rest: Seq<u8>)
    requires
        1 <= k <= 8,
        v < pow256(k),
    ensures
        le_value(le_bytes(v, k) + rest, k) == v,
{
    let s = le_bytes(v, k) + rest;
    assert forall|i: int| 0 <= i < k implies #[trigger] s[i] as nat == (v as nat / pow256(i as nat)) % 256 by {
        lemma_le_digit(v, k, i);
    }
    lemma_le_value_digits(s, v as nat, k);
    vstd::arithmetic::div_mod::lemma_small_mod(v as nat, pow256(k));
}

/// Whether reading a `T` from the bytes written for `v`, followed by any further bytes, reads
/// exactly those bytes and gives `v`.
pub open spec fn reads_back<T: Serialize + Deserialize>(v: T, rest: Seq<u8>) -> bool {
    &&& T::outcome(v.encoding() + rest) == ParseOutcome::Value(v.encoding().len())
    &&& T::is_value(v.encoding() + rest, v)
}

/// Every integer reads back as it was written.
pub proof fn lemma_integers_read_back(
    a: u8,
    b: u16,
    c: u32,
    d: u64,
    e: i8,
    f: i16,
    g: i32,
    h: i64,
    rest: Seq<u8>,
)
    ensures
        reads_back(a, rest),
        reads_back(b, rest),
        reads_back(c, rest),
        reads_back(d, rest),
        reads_back(e, rest),
        reads_back(f, rest),
        reads_back(g, rest),
        reads_back(h, rest),
{
    lemma_pow256_values();
    lemma_le_round_trip(a as u64, 1, rest);
    lemma_le_round_trip(b as u64, 2, rest);
    lemma_le_round_trip(c as u64, 4, rest);
    lemma_le_round_trip(d, 8, rest);
    lemma_le_round_trip(e as u8 as u64, 1, rest);
    lemma_le_round_trip(f as u16 as u64, 2, rest);
    lemma_le_round_trip(g as u32 as u64, 4, rest);
    lemma_le_round_trip(h as u64, 8, rest);
}

/// A boolean reads back as it was written.
pub proof fn lemma_bool_reads_back(v: bool, rest: Seq<u8>)
    ensures
        reads_back(v, rest),
{
}

/// A string reads back as it was written, where its UTF-8 length fits the `u32` prefix.
pub proof fn lemma_string_reads_back(v: String, rest: Seq<u8>)
    requires
        encode_utf8(v@).len() <= u32::MAX,
    ensures
        reads_back(v, rest),
{
    let bytes = encode_utf8(v@);
    let input = v.encoding() + rest;
    lemma_pow256_values();
    lemma_le_round_trip(bytes.len() as u32 as u64, 4, bytes + rest);
    assert(input =~= le_bytes(bytes.len() as u32 as u64, 4) + (bytes + rest));
    assert(length_prefix(input) == bytes.len());
    assert(input.skip(4).take(bytes.len() as int) =~= bytes);
    vstd::utf8::encode_utf8_valid_utf8(v@);
    vstd::utf8::encode_utf8_decode_utf8(v@);
}


/// A pair reads back when its first part reads back before the second and the second reads
/// back before the rest.
pub proof fn lemma_pair_reads_back<T1: Serialize + Deserialize, T2: Serialize + Deserialize>(v: (T1, T2), rest: Seq<u8>)
    requires
        reads_back(v.0, v.1.encoding() + rest),
        reads_back(v.1, rest),
    ensures
        reads_back(v, rest),
{
    let e1 = v.0.encoding();
    let input = v.encoding() + rest;
    assert(input =~= e1 + (v.1.encoding() + rest));
    assert(input.skip(e1.len() as int) =~= v.1.encoding() + rest);
}

/// The bytes of a sequence of values split where a value starts.
proof fn lemma_encode_values_split<T: Serialize>(items: Seq<T>, k: int)
    requires
        0 <= k <= items.len(),
    ensures
        encode_values(items) == encode_values(items.take(k)) + encode_values(items.skip(k)),
    decreases items.len() - k,
{
    if k < items.len() {
        lemma_encode_values_split(items, k + 1);
        assert(items.take(k + 1).drop_last() =~= items.take(k));
        lemma_encode_values_first(items.skip(k));
        assert(items.skip(k).drop_first() =~= items.skip(k + 1));
        assert(items.skip(k)[0] == items[k]);
        assert(items.take(k + 1).last() == items[k]);
    } else {
        assert(items.take(k) =~= items);
        assert(items.skip(k) =~= Seq::<T>::empty());
    }
}

/// The bytes of a non-empty sequence of values: those of its first value, then the others.
proof fn lemma_encode_values_first<T: Serialize>(items: Seq<T>)
    requires
        items.len() > 0,
    ensures
        encode_values(items) == items[0].encoding() + encode_values(items.drop_first()),
    decreases items.len(),
{
    if items.len() > 1 {
        lemma_encode_values_first(items.drop_last());
        assert(items.drop_last().drop_first() =~= items.drop_first().drop_last());
        assert(items.drop_first().last() == items.last());
    } else {
        assert(items.drop_last() =~= Seq::<T>::empty());
        assert(items.drop_first() =~= Seq::<T>::empty());
    }
}

/// Reading values one after the other from the bytes written for `items` reads each of them
/// back, up to the first `k`.
proof fn lemma_values_read_back<T: Serialize + Deserialize>(items: Seq<T>, rest: Seq<u8>, k: nat)
    requires
        k <= items.len(),
        forall|i: int| 0 <= i < items.len() ==> reads_back(#[trigger] items[i], encode_values(items.skip(i + 1)) + rest),
    ensures
        values_outcome::<T>(encode_values(items) + rest, k) == ParseOutcome::Value(encode_values(items.take(k as int)).len()),
        forall|i: nat|
            i < k ==> T::is_value(
                (encode_values(items) + rest).skip(offset_of(#[trigger] values_outcome::<T>(encode_values(items) + rest, i)) as int),
                items[i as int],
            ),
    decreases k,
{
    let s = encode_values(items) + rest;
    if k == 0 {
        assert(items.take(0) =~= Seq::<T>::empty());
    } else {
        lemma_values_read_back(items, rest, (k - 1) as nat);
        let j = (k - 1) as int;
        lemma_encode_values_split(items, j);
        let pre = encode_values(items.take(j));
        assert(s.skip(pre.len() as int) =~= encode_values(items.skip(j)) + rest);
        lemma_encode_values_first(items.skip(j));
        assert(items.skip(j).drop_first() =~= items.skip(j + 1));
        assert(items.skip(j)[0] == items[j]);
        assert(encode_values(items.skip(j)) + rest =~= items[j].encoding() + (encode_values(items.skip(j + 1)) + rest));
        assert(reads_back(items[j], encode_values(items.skip(j + 1)) + rest));
        assert(items.take(k as int).drop_last() =~= items.take(j));
        assert(items.take(k as int).last() == items[j]);
    }
}

/// A sequence of values reads back when each value reads back before those after it, and its
/// length fits the `u32` prefix.
pub proof fn lemma_vec_reads_back<T: Serialize + Deserialize>(v: Vec<T>, rest: Seq<u8>)
    requires
        v@.len() <= u32::MAX,
        forall|i: int| 0 <= i < v@.len() ==> reads_back(#[trigger] v@[i], encode_values(v@.skip(i + 1)) + rest),
    ensures
        reads_back(v, rest),
{
    let input = v.encoding() + rest;
    let body = encode_values(v@) + rest;
    lemma_pow256_values();
    lemma_le_round_trip(v@.len() as u32 as u64, 4, body);
    assert(input =~= le_bytes(v@.len() as u32 as u64, 4) + body);
    assert(input.skip(4) =~= body);
    assert(length_prefix(input) == v@.len());
    lemma_values_read_back(v@, rest, v@.len());
    assert(v@.take(v@.len() as int) =~= v@);
}

} // verus!

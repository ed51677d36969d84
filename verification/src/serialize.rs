//! Writing values into a byte buffer that is compressed once complete.
//!
//! Numbers are written big-endian; lengths of sequences and strings as varints.
use vstd::prelude::*;
use vstd::arithmetic::power2::{pow2, lemma2_to64, lemma_pow2_unfold};
use vstd::string::StringSliceAdditionalSpecFns;
use crate::compression::{CompressionMethods, chain_length, chain_level, compress, compress_after, compress_fits, decodable};
use crate::compress_round_trip::{lemma_compress_decodable, lemma_compress_round_trip, only_lz77_from, range_coding_last};
use crate::decoder::{shift, starts_with, take};
use crate::deserialize::{Deserialize, be_value, elems_len, lemma_byte_digit, pow256, varint_prefix_value, varint_size, varint_value};
use crate::lz78::{lemma_varint_stop_unique, varint_bytes, varint_cont, varint_ends, varint_len, varint_stop};

verus! {

/// A value that can be written into a `CompressionBuffer`.
pub trait Serialize {
    /// The bytes written for this value.
    spec fn encoding(&self) -> Seq<u8>;

    /// Writes this value at the end of the buffer.
    fn serialize(&self, buffer: &mut CompressionBuffer)
        ensures
            final(buffer)@ == old(buffer)@ + self.encoding(),
    ;
}

/// A buffer of bytes to be compressed.
pub struct CompressionBuffer {
    buffer: Vec<u8>,
}

impl View for CompressionBuffer {
    type V = Seq<u8>;

    closed spec fn view(&self) -> Seq<u8> {
        self.buffer@
    }
}

/// The base 2 logarithm of `v`, rounded down (0 for 0).
pub open spec fn log2(v: nat) -> nat
    decreases v,
{
    if v <= 1 {
        0
    } else {
        1 + log2(v / 2)
    }
}

proof fn lemma_log2_bound(v: nat, k: nat)
    requires
        1 <= v < pow2(k),
    ensures
        log2(v) < k,
    decreases v,
{
    if k == 0 {
        lemma2_to64();
    } else {
        lemma_pow2_unfold(k);
        if v > 1 {
            lemma_log2_bound(v / 2, (k - 1) as nat);
        }
    }
}

/// The base 2 logarithm of `val`, rounded down.
fn ilog2(val: usize) -> (out: u32)
    requires
        val > 0,
    ensures
        out as nat == log2(val as nat),
        out < usize::BITS,
{
    proof {
        lemma2_to64();
        lemma_log2_bound(val as nat, usize::BITS as nat);
    }
    let mut x = val;
    let mut l: u32 = 0;
    while x > 1
        invariant
            x >= 1,
            log2(val as nat) == l + log2(x as nat),
            log2(val as nat) < usize::BITS,
        decreases x,
    {
        assert(x >> 1 == x / 2) by (bit_vector);
        x = x >> 1;
        l = l + 1;
    }
    l
}

/// The bytes `write_varint` writes for `val`: its 7-bit groups, most significant first, with
/// the top bit set on every byte but the last; as many as the value needs, and one for 0.
pub open spec fn written_varint(val: usize) -> Seq<u8> {
    varint_bytes(val as nat)
}

/// The `k` low bytes of `v`, most significant first.
pub open spec fn be_bytes(v: u64, k: nat) -> Seq<u8> {
    Seq::new(k, |i: int| ((v >> (8 * (k - 1 - i)) as u64) & 0xff) as u8)
}

impl CompressionBuffer {
    /// An empty buffer.
    pub fn new() -> (out: CompressionBuffer)
        ensures
            out@ == Seq::<u8>::empty(),
    {
        CompressionBuffer { buffer: Vec::new() }
    }

    fn write_byte(&mut self, byte: u8)
        ensures
            final(self)@ == old(self)@.push(byte),
    {
        self.buffer.push(byte);
    }

    /// Writes the `k` low bytes of `v`, most significant first.
    fn write_be(&mut self, v: u64, k: u32)
        requires
            k <= 8,
        ensures
            final(self)@ == old(self)@ + be_bytes(v, k as nat),
    {
        let mut j = k;
        while j > 0
            invariant
                j <= k <= 8,
                self@ == old(self)@ + be_bytes(v, k as nat).take(k - j),
            decreases j,
        {
            j = j - 1;
            let b = ((v >> (8 * j)) & 0xff) as u8;
            self.write_byte(b);
            proof {
                assert(be_bytes(v, k as nat).take(k - j) =~= be_bytes(v, k as nat).take(k - j - 1).push(b));
            }
        }
        proof {
            assert(be_bytes(v, k as nat).take(k as int) =~= be_bytes(v, k as nat));
        }
    }

    /// Writes the continuation groups of a varint for `u`: the groups of `u`, most
    /// significant first, each with the top bit set.
    fn write_varint_groups(&mut self, u: usize)
        ensures
            final(self)@ == old(self)@ + varint_cont(u as nat),
        decreases u,
    {
        if u > 0 {
            self.write_varint_groups(u / 128);
            self.write_byte((u % 128 + 128) as u8);
            proof {
                assert(old(self)@ + varint_cont(u as nat) =~= old(self)@ + varint_cont(u as nat / 128)
                    + seq![(u % 128 + 128) as u8]);
            }
        }
    }

    /// Writes `val` as a varint.
    pub fn write_varint(&mut self, val: usize)
        ensures
            final(self)@ == old(self)@ + written_varint(val),
    {
        self.write_varint_groups(val / 128);
        self.write_byte((val % 128) as u8);
        proof {
            assert(old(self)@ + written_varint(val) =~= old(self)@ + varint_cont(val as nat / 128)
                + seq![(val % 128) as u8]);
        }
    }

    /// Compresses the buffer with LZ77 and then range coding.
    pub fn encode(self) -> (out: Vec<u8>)
        requires
            self@.len() < usize::MAX,
            self@.len() < 65535 || compress_fits(self@, seq![CompressionMethods::LZ77, CompressionMethods::RC]),
        ensures
            out@ == compress_after(self@, seq![CompressionMethods::LZ77, CompressionMethods::RC], 2),
            self@.len() < 65535 ==> {
                let top = chain_level(out@, chain_length(out@));
                &&& decodable(out@)
                &&& forall|n: nat| n <= self@.len() ==> #[trigger] (top.ok)(n + 1)
                &&& forall|j: nat| j < self@.len() ==> #[trigger] shift(top.stream, 1)(j) == self@[j as int]
            },
    {
        let methods = [CompressionMethods::LZ77, CompressionMethods::RC];
        let ghost ms = seq![CompressionMethods::LZ77, CompressionMethods::RC];
        assert(methods@ =~= ms);
        let (out, _reports) = compress(&self.buffer, methods.as_slice());
        proof {
            if self@.len() < 65535 {
                assert(range_coding_last(ms)) by {
                    assert forall|k: int| 0 <= k < ms.len() && (#[trigger] ms[k] is RC) implies only_lz77_from(ms, (k + 1) as nat) by {
                        assert(k == 1);
                    }
                }
                lemma_compress_decodable(self@, ms);
                lemma_compress_round_trip(self@, ms);
            }
        }
        out
    }

    /// The number of bytes written.
    pub fn len(&self) -> (out: usize)
        ensures
            out == self@.len(),
    {
        self.buffer.len()
    }
}

impl Serialize for u8 {
    open spec fn encoding(&self) -> Seq<u8> {
        be_bytes(*self as u64, 1)
    }

    fn serialize(&self, buffer: &mut CompressionBuffer) {
        buffer.write_be(*self as u64, 1);
    }
}

impl Serialize for u16 {
    open spec fn encoding(&self) -> Seq<u8> {
        be_bytes(*self as u64, 2)
    }

    fn serialize(&self, buffer: &mut CompressionBuffer) {
        buffer.write_be(*self as u64, 2);
    }
}

impl Serialize for u32 {
    open spec fn encoding(&self) -> Seq<u8> {
        be_bytes(*self as u64, 4)
    }

    fn serialize(&self, buffer: &mut CompressionBuffer) {
        buffer.write_be(*self as u64, 4);
    }
}

impl Serialize for u64 {
    open spec fn encoding(&self) -> Seq<u8> {
        be_bytes(*self, 8)
    }

    fn serialize(&self, buffer: &mut CompressionBuffer) {
        buffer.write_be(*self, 8);
    }
}

impl Serialize for i8 {
    /// The two's complement bits, as for `u8`.
    open spec fn encoding(&self) -> Seq<u8> {
        be_bytes(*self as u8 as u64, 1)
    }

    fn serialize(&self, buffer: &mut CompressionBuffer) {
        buffer.write_be(*self as u8 as u64, 1);
    }
}

impl Serialize for i16 {
    /// The two's complement bits, as for `u16`.
    open spec fn encoding(&self) -> Seq<u8> {
        be_bytes(*self as u16 as u64, 2)
    }

    fn serialize(&self, buffer: &mut CompressionBuffer) {
        buffer.write_be(*self as u16 as u64, 2);
    }
}

impl Serialize for i32 {
    /// The two's complement bits, as for `u32`.
    open spec fn encoding(&self) -> Seq<u8> {
        be_bytes(*self as u32 as u64, 4)
    }

    fn serialize(&self, buffer: &mut CompressionBuffer) {
        buffer.write_be(*self as u32 as u64, 4);
    }
}

impl Serialize for i64 {
    /// The two's complement bits, as for `u64`.
    open spec fn encoding(&self) -> Seq<u8> {
        be_bytes(*self as u64, 8)
    }

    fn serialize(&self, buffer: &mut CompressionBuffer) {
        buffer.write_be(*self as u64, 8);
    }
}

impl Serialize for bool {
    open spec fn encoding(&self) -> Seq<u8> {
        seq![if *self {
            1u8
        } else {
            0u8
        }]
    }

    fn serialize(&self, buffer: &mut CompressionBuffer) {
        buffer.write_byte(if *self { 1 } else { 0 });
    }
}

/// The bytes written for the values of `items`, in order.
pub open spec fn encode_all<T: Serialize>(items: Seq<T>) -> Seq<u8>
    decreases items.len(),
{
    if items.len() == 0 {
        seq![]
    } else {
        encode_all(items.drop_last()) + items.last().encoding()
    }
}

impl<'a, T: Serialize> Serialize for &'a [T] {
    /// A varint count, then the values.
    open spec fn encoding(&self) -> Seq<u8> {
        written_varint(self@.len() as usize) + encode_all(self@)
    }

    fn serialize(&self, buffer: &mut CompressionBuffer) {
        let ghost b0 = buffer@;
        buffer.write_varint(self.len());
        let mut i: usize = 0;
        while i < self.len()
            invariant
                i <= self@.len(),
                buffer@ == b0 + written_varint(self@.len() as usize) + encode_all(self@.take(i as int)),
            decreases self@.len() - i,
        {
            let ghost before = buffer@;
            self[i].serialize(buffer);
            proof {
                assert(self@.take(i + 1).drop_last() =~= self@.take(i as int));
                assert(buffer@ =~= b0 + written_varint(self@.len() as usize) + encode_all(self@.take(i + 1)));
            }
            i = i + 1;
        }
        proof {
            assert(self@.take(i as int) =~= self@);
        }
    }
}

impl<'a> Serialize for &'a str {
    /// A varint length in bytes, then the UTF-8 bytes.
    open spec fn encoding(&self) -> Seq<u8> {
        written_varint(self.spec_bytes().len() as usize) + encode_all(self.spec_bytes())
    }

    fn serialize(&self, buffer: &mut CompressionBuffer) {
        self.as_bytes().serialize(buffer);
    }
}

impl<T1: Serialize> Serialize for (T1,) {
    open spec fn encoding(&self) -> Seq<u8> {
        self.0.encoding()
    }

    fn serialize(&self, buffer: &mut CompressionBuffer) {
        let ghost b0 = buffer@;
        self.0.serialize(buffer);
        assert(buffer@ =~= b0 + (self.0.encoding()));
    }
}

impl<T1: Serialize, T2: Serialize> Serialize for (T1, T2) {
    open spec fn encoding(&self) -> Seq<u8> {
        self.0.encoding() + self.1.encoding()
    }

    fn serialize(&self, buffer: &mut CompressionBuffer) {
        let ghost b0 = buffer@;
        self.0.serialize(buffer);
        self.1.serialize(buffer);
        assert(buffer@ =~= b0 + (self.0.encoding() + self.1.encoding()));
    }
}

impl<T1: Serialize, T2: Serialize, T3: Serialize> Serialize for (T1, T2, T3) {
    open spec fn encoding(&self) -> Seq<u8> {
        self.0.encoding() + self.1.encoding() + self.2.encoding()
    }

    fn serialize(&self, buffer: &mut CompressionBuffer) {
        let ghost b0 = buffer@;
        self.0.serialize(buffer);
        self.1.serialize(buffer);
        self.2.serialize(buffer);
        assert(buffer@ =~= b0 + (self.0.encoding() + self.1.encoding() + self.2.encoding()));
    }
}

impl<T1: Serialize, T2: Serialize, T3: Serialize, T4: Serialize> Serialize for (T1, T2, T3, T4) {
    open spec fn encoding(&self) -> Seq<u8> {
        self.0.encoding() + self.1.encoding() + self.2.encoding() + self.3.encoding()
    }

    fn serialize(&self, buffer: &mut CompressionBuffer) {
        let ghost b0 = buffer@;
        self.0.serialize(buffer);
        self.1.serialize(buffer);
        self.2.serialize(buffer);
        self.3.serialize(buffer);
        assert(buffer@ =~= b0 + (self.0.encoding() + self.1.encoding() + self.2.encoding() + self.3.encoding()));
    }
}

impl<T1: Serialize, T2: Serialize, T3: Serialize, T4: Serialize, T5: Serialize> Serialize for (T1, T2, T3, T4, T5) {
    open spec fn encoding(&self) -> Seq<u8> {
        self.0.encoding() + self.1.encoding() + self.2.encoding() + self.3.encoding() + self.4.encoding()
    }

    fn serialize(&self, buffer: &mut CompressionBuffer) {
        let ghost b0 = buffer@;
        self.0.serialize(buffer);
        self.1.serialize(buffer);
        self.2.serialize(buffer);
        self.3.serialize(buffer);
        self.4.serialize(buffer);
        assert(buffer@ =~= b0 + (self.0.encoding() + self.1.encoding() + self.2.encoding() + self.3.encoding() + self.4.encoding()));
    }
}

impl<T1: Serialize, T2: Serialize, T3: Serialize, T4: Serialize, T5: Serialize, T6: Serialize> Serialize for (T1, T2, T3, T4, T5, T6) {
    open spec fn encoding(&self) -> Seq<u8> {
        self.0.encoding() + self.1.encoding() + self.2.encoding() + self.3.encoding() + self.4.encoding() + self.5.encoding()
    }

    fn serialize(&self, buffer: &mut CompressionBuffer) {
        let ghost b0 = buffer@;
        self.0.serialize(buffer);
        self.1.serialize(buffer);
        self.2.serialize(buffer);
        self.3.serialize(buffer);
        self.4.serialize(buffer);
        self.5.serialize(buffer);
        assert(buffer@ =~= b0 + (self.0.encoding() + self.1.encoding() + self.2.encoding() + self.3.encoding() + self.4.encoding() + self.5.encoding()));
    }
}

impl<T1: Serialize, T2: Serialize, T3: Serialize, T4: Serialize, T5: Serialize, T6: Serialize, T7: Serialize> Serialize for (T1, T2, T3, T4, T5, T6, T7) {
    open spec fn encoding(&self) -> Seq<u8> {
        self.0.encoding() + self.1.encoding() + self.2.encoding() + self.3.encoding() + self.4.encoding() + self.5.encoding() + self.6.encoding()
    }

    fn serialize(&self, buffer: &mut CompressionBuffer) {
        let ghost b0 = buffer@;
        self.0.serialize(buffer);
        self.1.serialize(buffer);
        self.2.serialize(buffer);
        self.3.serialize(buffer);
        self.4.serialize(buffer);
        self.5.serialize(buffer);
        self.6.serialize(buffer);
        assert(buffer@ =~= b0 + (self.0.encoding() + self.1.encoding() + self.2.encoding() + self.3.encoding() + self.4.encoding() + self.5.encoding() + self.6.encoding()));
    }
}

impl<T1: Serialize, T2: Serialize, T3: Serialize, T4: Serialize, T5: Serialize, T6: Serialize, T7: Serialize, T8: Serialize> Serialize for (T1, T2, T3, T4, T5, T6, T7, T8) {
    open spec fn encoding(&self) -> Seq<u8> {
        self.0.encoding() + self.1.encoding() + self.2.encoding() + self.3.encoding() + self.4.encoding() + self.5.encoding() + self.6.encoding() + self.7.encoding()
    }

    fn serialize(&self, buffer: &mut CompressionBuffer) {
        let ghost b0 = buffer@;
        self.0.serialize(buffer);
        self.1.serialize(buffer);
        self.2.serialize(buffer);
        self.3.serialize(buffer);
        self.4.serialize(buffer);
        self.5.serialize(buffer);
        self.6.serialize(buffer);
        self.7.serialize(buffer);
        assert(buffer@ =~= b0 + (self.0.encoding() + self.1.encoding() + self.2.encoding() + self.3.encoding() + self.4.encoding() + self.5.encoding() + self.6.encoding() + self.7.encoding()));
    }
}


/// Whether reading a `T` from a stream that starts with the bytes written for `v` reads
/// exactly those bytes and gives `v`.
pub open spec fn decodes_back<T: Serialize + Deserialize>(v: T, s: spec_fn(nat) -> u8) -> bool {
    &&& T::well_encoded(s)
    &&& T::encoded_len(s) == v.encoding().len()
    &&& T::is_decoded(s, v)
}

/// The first `j` of the `k` big-endian bytes of `v` read as the high digits of `v`.
proof fn lemma_be_prefix(v: u64, k: nat, s: spec_fn(nat) -> u8, j: nat)
    requires
        1 <= k <= 8,
        j <= k,
        v < pow256(k),
        starts_with(s, be_bytes(v, k)),
    ensures
        be_value(s, j) == v as nat / pow256((k - j) as nat),
    decreases j,
{
    crate::deserialize::lemma_pow256_positive((k - j) as nat);
    if j == 0 {
        vstd::arithmetic::div_mod::lemma_basic_div(v as int, pow256(k) as int);
    } else {
        let e = (k - j) as nat;
        lemma_be_prefix(v, k, s, (j - 1) as nat);
        assert(s((j - 1) as nat) == be_bytes(v, k)[j - 1]);
        lemma_byte_digit(v, e);
        let x = v as nat / pow256(e);
        crate::deserialize::lemma_pow256_positive(e);
        vstd::arithmetic::div_mod::lemma_div_denominator(v as int, pow256(e) as int, 256);
        assert(pow256(e + 1) == 256 * pow256(e));
        assert(x == (x / 256) * 256 + x % 256) by {
            vstd::arithmetic::div_mod::lemma_fundamental_div_mod(x as int, 256);
        }
        assert((k - (j - 1)) as nat == e + 1);
        assert(pow256(e) * 256 == 256 * pow256(e)) by (nonlinear_arith);
    }
}

proof fn lemma_be_round_trip(v: u64, k: nat, s: spec_fn(nat) -> u8)
    requires
        1 <= k <= 8,
        v < pow256(k),
        starts_with(s, be_bytes(v, k)),
    ensures
        be_value(s, k) == v,
{
    lemma_be_prefix(v, k, s, k);
    assert(pow256(0) == 1);
    assert(v as nat / 1 == v) by (nonlinear_arith);
}

proof fn lemma_pow256_small()
    ensures
        pow256(1) == 0x100,
        pow256(2) == 0x1_0000,
        pow256(4) == 0x1_0000_0000,
{
    reveal_with_fuel(pow256, 5);
}

/// Unsigned numbers read back as they were written.
pub proof fn lemma_unsigned_decode_back(
    a: u8,
    sa: spec_fn(nat) -> u8,
    b: u16,
    sb: spec_fn(nat) -> u8,
    c: u32,
    sc: spec_fn(nat) -> u8,
)
    requires
        starts_with(sa, a.encoding()),
        starts_with(sb, b.encoding()),
        starts_with(sc, c.encoding()),
    ensures
        decodes_back(a, sa),
        decodes_back(b, sb),
        decodes_back(c, sc),
{
    lemma_pow256_small();
    lemma_be_round_trip(a as u64, 1, sa);
    lemma_be_round_trip(b as u64, 2, sb);
    lemma_be_round_trip(c as u64, 4, sc);
}

/// Signed numbers read back as they were written.
pub proof fn lemma_signed_decode_back(
    a: i8,
    sa: spec_fn(nat) -> u8,
    b: i16,
    sb: spec_fn(nat) -> u8,
    c: i32,
    sc: spec_fn(nat) -> u8,
)
    requires
        starts_with(sa, a.encoding()),
        starts_with(sb, b.encoding()),
        starts_with(sc, c.encoding()),
    ensures
        decodes_back(a, sa),
        decodes_back(b, sb),
        decodes_back(c, sc),
{
    lemma_pow256_small();
    lemma_be_round_trip(a as u8 as u64, 1, sa);
    lemma_be_round_trip(b as u16 as u64, 2, sb);
    lemma_be_round_trip(c as u32 as u64, 4, sc);
}

/// Booleans read back as they were written.
pub proof fn lemma_bool_decodes_back(v: bool, s: spec_fn(nat) -> u8)
    requires
        starts_with(s, v.encoding()),
    ensures
        decodes_back(v, s),
{
    assert(s(0) == v.encoding()[0]);
}

proof fn lemma_encode_all_bytes(bytes: Seq<u8>)
    ensures
        encode_all(bytes) == bytes,
    decreases bytes.len(),
{
    if bytes.len() > 0 {
        lemma_encode_all_bytes(bytes.drop_last());
        reveal_with_fuel(crate::deserialize::pow256, 2);
        lemma_byte_digit(bytes.last() as u64, 0);
        assert(pow256(0) == 1);
        assert(bytes.last() as nat / 1 == bytes.last() as nat) by (nonlinear_arith);
        assert(be_bytes(bytes.last() as u64, 1)[0] == ((bytes.last() as u64 >> (8 * 0nat) as u64) & 0xff) as u8);
        assert(be_bytes(bytes.last() as u64, 1) =~= seq![bytes.last()]);
        assert(bytes =~= bytes.drop_last().push(bytes.last()));
    }
}

/// The continuation groups written for `u` all have the top bit set, and read back as `u`.
proof fn lemma_varint_cont_reads_back(u: nat, s: spec_fn(nat) -> u8)
    requires
        u <= usize::MAX,
        starts_with(s, varint_cont(u)),
    ensures
        forall|j: nat| j < varint_cont(u).len() ==> #[trigger] s(j) >= 128,
        varint_prefix_value(s, varint_cont(u).len()) == u,
    decreases u,
{
    if u > 0 {
        let c = varint_cont(u);
        let c1 = varint_cont(u / 128);
        assert(c == c1.push((u % 128 + 128) as u8));
        assert(starts_with(s, c1)) by {
            assert forall|i: nat| i < c1.len() implies s(i) == #[trigger] c1[i as int] by {
                assert(c[i as int] == c1[i as int]);
            }
        }
        lemma_varint_cont_reads_back(u / 128, s);
        assert(s(c1.len()) == c[c1.len() as int]);
        assert((u / 128) * 128 + u % 128 == u);
    }
}

/// A varint written for any value reads back as that value, taking the bytes written.
pub proof fn lemma_varint_reads_back(val: usize, s: spec_fn(nat) -> u8)
    requires
        starts_with(s, written_varint(val)),
    ensures
        varint_ends(s),
        varint_size(s) == written_varint(val).len(),
        varint_value(s) == val,
{
    let w = written_varint(val);
    let c = varint_cont(val as nat / 128);
    assert(w == c.push((val % 128) as u8));
    assert(starts_with(s, c)) by {
        assert forall|i: nat| i < c.len() implies s(i) == #[trigger] c[i as int] by {
            assert(w[i as int] == c[i as int]);
        }
    }
    lemma_varint_cont_reads_back(val as nat / 128, s);
    assert(s(c.len()) == w[c.len() as int]);
    assert(varint_stop(s, c.len()));
    lemma_varint_stop_unique(s, c.len(), varint_len(s));
    assert((val as nat / 128) * 128 + val % 128 == val);
}

/// A string reads back as it was written.
pub proof fn lemma_str_decodes_back(v: &str, out: String, s: spec_fn(nat) -> u8)
    requires
        v.spec_bytes().len() <= usize::MAX,
        out@ == v@,
        starts_with(s, v.encoding()),
    ensures
        <String as Deserialize>::well_encoded(s),
        <String as Deserialize>::encoded_len(s) == v.encoding().len(),
        <String as Deserialize>::is_decoded(s, out),
{
    let bytes = v.spec_bytes();
    let n = bytes.len() as usize;
    lemma_encode_all_bytes(bytes);
    assert forall|i: nat| i < written_varint(n).len() implies s(i) == #[trigger] written_varint(n)[i as int] by {
        assert(v.encoding()[i as int] == written_varint(n)[i as int]);
    }
    lemma_varint_reads_back(n, s);
    let k = written_varint(n).len();
    assert(take(shift(s, k), n as nat) =~= bytes) by {
        assert forall|i: int| 0 <= i < n implies take(shift(s, k), n as nat)[i] == bytes[i] by {
            assert(v.encoding()[i + k] == bytes[i]);
            assert(s((i + k) as nat) == v.encoding()[i + k]);
        }
    }
    vstd::utf8::encode_utf8_valid_utf8(v@);
    vstd::utf8::encode_utf8_decode_utf8(v@);
}


/// The values before position `i` take the bytes written for them.
proof fn lemma_elems_len_written<T: Serialize + Deserialize>(items: Seq<T>, t: spec_fn(nat) -> u8, i: nat)
    requires
        i <= items.len(),
        forall|j: int|
            0 <= j < items.len() ==> decodes_back(#[trigger] items[j], shift(t, encode_all(items.take(j)).len())),
    ensures
        elems_len::<T>(t, i) == encode_all(items.take(i as int)).len(),
    decreases i,
{
    if i == 0 {
        assert(items.take(0) =~= Seq::<T>::empty());
    } else {
        lemma_elems_len_written(items, t, (i - 1) as nat);
        let j = (i - 1) as int;
        assert(items.take(i as int).drop_last() =~= items.take(j));
        assert(items.take(i as int).last() == items[j]);
        assert(decodes_back(items[j], shift(t, encode_all(items.take(j)).len())));
    }
}

/// A slice reads back as a vector of the same values, when each value reads back from where
/// it was written.
#[verifier::rlimit(80)]
#[verifier::spinoff_prover]
pub proof fn lemma_slice_decodes_back<T: Serialize + Deserialize>(v: &[T], out: Vec<T>, s: spec_fn(nat) -> u8)
    requires
        v@.len() <= usize::MAX,
        out@ == v@,
        starts_with(s, v.encoding()),
        forall|j: int|
            0 <= j < v@.len() ==> decodes_back(
                #[trigger] v@[j],
                shift(s, written_varint(v@.len() as usize).len() + encode_all(v@.take(j)).len()),
            ),
    ensures
        <Vec<T> as Deserialize>::well_encoded(s),
        <Vec<T> as Deserialize>::encoded_len(s) == v.encoding().len(),
        <Vec<T> as Deserialize>::is_decoded(s, out),
{
    let n = v@.len() as usize;
    assert forall|i: nat| i < written_varint(n).len() implies s(i) == #[trigger] written_varint(n)[i as int] by {
        assert(v.encoding()[i as int] == written_varint(n)[i as int]);
    }
    lemma_varint_reads_back(n, s);
    let k = written_varint(n).len();
    let t = shift(s, k);
    assert(v.encoding() == written_varint(n) + encode_all(v@));
    assert forall|j: int| 0 <= j < v@.len() implies decodes_back(
        #[trigger] v@[j],
        shift(t, encode_all(v@.take(j)).len()),
    ) by {
        crate::decoder::lemma_shift_twice(s, k, encode_all(v@.take(j)).len());
    }
    lemma_elems_len_written(v@, t, n as nat);
    assert(v@.take(n as int) =~= v@);
    assert forall|i: nat| i < varint_value(s) implies {
        &&& T::well_encoded(shift(t, #[trigger] elems_len::<T>(t, i)))
        &&& T::is_decoded(shift(t, elems_len::<T>(t, i)), out@[i as int])
    } by {
        lemma_elems_len_written(v@, t, i);
        assert(decodes_back(v@[i as int], shift(t, encode_all(v@.take(i as int)).len())));
    }
}


/// A pair reads back when its first part reads back from the start and its second part from
/// where the first one ends.
pub proof fn lemma_pair_decodes_back<T1: Serialize + Deserialize, T2: Serialize + Deserialize>(
    v: (T1, T2),
    s: spec_fn(nat) -> u8,
)
    requires
        decodes_back(v.0, s),
        decodes_back(v.1, shift(s, v.0.encoding().len())),
    ensures
        decodes_back(v, s),
{
    assert(shift(s, 0) =~= s);
}

} // verus!

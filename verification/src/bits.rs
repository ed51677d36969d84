//! Conversion between byte sequences and bit sequences (most significant bit first).
use vstd::prelude::*;

verus! {

/// Bit number `bit` (0 = least significant) of `v`.
pub open spec fn bit_of(v: u8, bit: int) -> bool {
    (v >> (bit as u8)) & 1 == 1
}

/// The bits of `data`, every byte most significant bit first.
pub open spec fn bits_of(data: Seq<u8>) -> Seq<bool> {
    Seq::new(8 * data.len(), |k: int| bit_of(data[k / 8], 7 - k % 8))
}

/// Bit `i` of `bits`, where positions past the end read as `false`.
pub open spec fn bit_or_zero(bits: Seq<bool>, i: int) -> bool {
    0 <= i < bits.len() && bits[i]
}

/// The value of the first `k` of the eight bits starting at `start`, read as a binary
/// number, most significant bit first.
pub open spec fn pack_prefix(bits: Seq<bool>, start: int, k: nat) -> int
    decreases k,
{
    if k == 0 {
        0
    } else {
        2 * pack_prefix(bits, start, (k - 1) as nat) + if bit_or_zero(bits, start + k - 1) {
            1int
        } else {
            0int
        }
    }
}

/// The byte made of the eight bits starting at `start`, most significant bit first;
/// missing bits past the end count as zero.
pub open spec fn pack_byte(bits: Seq<bool>, start: int) -> u8 {
    pack_prefix(bits, start, 8) as u8
}

/// The bytes packed from `bits`, eight bits per byte, the last byte padded with zero bits.
pub open spec fn pack_bits(bits: Seq<bool>) -> Seq<u8> {
    Seq::new(((bits.len() + 7) / 8) as nat, |i: int| pack_byte(bits, 8 * i))
}

proof fn lemma_pack_prefix_bound(bits: Seq<bool>, start: int, k: nat)
    ensures
        0 <= pack_prefix(bits, start, k) < vstd::arithmetic::power2::pow2(k),
    decreases k,
{
    if k > 0 {
        lemma_pack_prefix_bound(bits, start, (k - 1) as nat);
        vstd::arithmetic::power2::lemma_pow2_unfold(k);
    } else {
        vstd::arithmetic::power2::lemma2_to64();
    }
}

proof fn lemma_div_mod_8(i: int, j: int)
    requires
        0 <= j < 8,
    ensures
        (8 * i + j) / 8 == i,
        (8 * i + j) % 8 == j,
{
    assert((8 * i + j) / 8 == i && (8 * i + j) % 8 == j) by (nonlinear_arith)
        requires
            0 <= j < 8,
    ;
}

/// Reading the bits of a byte most significant bit first gives back the byte.
proof fn lemma_pack_byte_bits(v: u8, bits: Seq<bool>, start: int)
    requires
        0 <= start,
        start + 8 <= bits.len(),
        forall|k: int| 0 <= k < 8 ==> #[trigger] bits[start + k] == bit_of(v, 7 - k),
    ensures
        pack_byte(bits, start) == v,
{
    lemma_pack_prefix_shift(v, bits, start, 8);
    assert(v >> 0u8 == v) by (bit_vector);
}

proof fn lemma_pack_prefix_shift(v: u8, bits: Seq<bool>, start: int, k: nat)
    requires
        0 <= start,
        start + 8 <= bits.len(),
        k <= 8,
        forall|j: int| 0 <= j < 8 ==> #[trigger] bits[start + j] == bit_of(v, 7 - j),
    ensures
        pack_prefix(bits, start, k) == (v >> ((8 - k) as u8)) as int,
    decreases k,
{
    if k == 0 {
        assert(v >> 8u8 == 0) by (bit_vector);
    } else {
        lemma_pack_prefix_shift(v, bits, start, (k - 1) as nat);
        let s: u8 = (8 - k) as u8;
        assert(bits[start + k - 1] == bit_of(v, 7 - (k - 1)));
        assert((v >> s) as int == 2 * (v >> ((s + 1) as u8)) as int + if (v >> s) & 1 == 1 {
            1int
        } else {
            0int
        }) by (bit_vector)
            requires
                s < 8,
        ;
    }
}

/// Splits every byte of `data` into its eight bits, most significant bit first.
pub fn data_to_bits(data: &[u8]) -> (out: Vec<bool>)
    requires
        8 * data@.len() <= usize::MAX,
    ensures
        out@ == bits_of(data@),
{
    let mut out: Vec<bool> = Vec::new();
    let mut i: usize = 0;
    while i < data.len()
        invariant
            i <= data@.len(),
            8 * data@.len() <= usize::MAX,
            out@.len() == 8 * i,
            forall|k: int| 0 <= k < 8 * i ==> out@[k] == bit_of(data@[k / 8], 7 - k % 8),
        decreases data@.len() - i,
    {
        let v = data[i];
        let mut bit: u8 = 8;
        while bit > 0
            invariant
                i < data@.len(),
                v == data@[i as int],
                bit <= 8,
                8 * data@.len() <= usize::MAX,
                out@.len() == 8 * i + (8 - bit),
                forall|k: int| 0 <= k < out@.len() ==> out@[k] == bit_of(data@[k / 8], 7 - k % 8),
            decreases bit,
        {
            bit = bit - 1;
            let b = (v & (1u8 << bit)) != 0;
            assert(((v & (1u8 << bit)) != 0) == ((v >> bit) & 1 == 1)) by (bit_vector)
                requires
                    bit < 8,
            ;
            proof {
                lemma_div_mod_8(i as int, 7 - bit as int);
            }
            out.push(b);
        }
        i = i + 1;
    }
    out
}

/// Packs bits into bytes, eight bits per byte, most significant bit first.
/// The last byte is padded with zero bits.
pub fn bits_to_data(bits: &[bool]) -> (out: Vec<u8>)
    ensures
        out@ == pack_bits(bits@),
{
    let len = bits.len();
    let n_bytes: usize = len / 8 + if len % 8 != 0 { 1 } else { 0 };
    let mut out: Vec<u8> = Vec::new();
    let mut j: usize = 0;
    while j < n_bytes
        invariant
            n_bytes == (bits@.len() + 7) / 8,
            len == bits@.len(),
            j <= n_bytes,
            out@.len() == j,
            forall|i: int| 0 <= i < j ==> out@[i] == pack_byte(bits@, 8 * i),
        decreases n_bytes - j,
    {
        assert(8 * j < bits@.len()) by (nonlinear_arith)
            requires
                j < n_bytes,
                n_bytes == (bits@.len() + 7) / 8,
        ;
        let base: usize = 8 * j;
        let mut byte: u8 = 0;
        let mut k: usize = 0;
        while k < 8
            invariant
                j < n_bytes,
                base == 8 * j,
                base < bits@.len(),
                n_bytes == (bits@.len() + 7) / 8,
                k <= 8,
                byte as int == pack_prefix(bits@, 8 * j, k as nat),
            decreases 8 - k,
        {
            proof {
                lemma_pack_prefix_bound(bits@, 8 * j, (k + 1) as nat);
                vstd::arithmetic::power2::lemma2_to64();
                if k + 1 < 8 {
                    vstd::arithmetic::power2::lemma_pow2_strictly_increases((k + 1) as nat, 8);
                }
            }
            let b: u8 = if k < bits.len() - base && bits[base + k] { 1 } else { 0 };
            byte = 2 * byte + b;
            k = k + 1;
        }
        out.push(byte);
        j = j + 1;
    }
    out
}

/// Packing the bits of a byte sequence gives back the bytes.
pub proof fn lemma_bits_round_trip(data: Seq<u8>)
    ensures
        pack_bits(bits_of(data)) == data,
{
    let bits = bits_of(data);
    assert forall|i: int| 0 <= i < data.len() implies pack_byte(bits, 8 * i) == data[i] by {
        assert forall|k: int| 0 <= k < 8 implies #[trigger] bits[8 * i + k] == bit_of(data[i], 7 - k) by {
            lemma_div_mod_8(i, k);
        }
        assert(8 * i + 8 <= bits.len()) by (nonlinear_arith)
            requires
                0 <= i < data.len(),
                bits.len() == 8 * data.len(),
        ;
        lemma_pack_byte_bits(data[i], bits, 8 * i);
    }
    assert((8 * data.len() + 7) / 8 == data.len()) by (nonlinear_arith);
    assert(pack_bits(bits) =~= data);
}

} // verus!

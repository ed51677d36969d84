//! Adaptive range coding of byte streams.
//!
//! The probability of each byte is its number of occurrences among the last 255 bytes coded
//! (plus one), so the model adapts to the data. The coder keeps a range `[start, start + width)`
//! of 32-bit fixed point numbers and emits its leading byte whenever that byte is settled or
//! the range has become too narrow.
use vstd::prelude::*;
use crate::decoder::{Decoder, SourceDecoder, can_follow, lemma_can_follow_step, lemma_shift_shift, shift};

verus! {

/// The number of occurrences of `c` in `s`.
pub open spec fn count(s: Seq<u8>, c: u8) -> nat
    decreases s.len(),
{
    if s.len() == 0 {
        0
    } else {
        count(s.drop_last(), c) + if s.last() == c {
            1nat
        } else {
            0nat
        }
    }
}

pub(crate) proof fn lemma_count_bound(s: Seq<u8>, c: u8)
    ensures
        count(s, c) <= s.len(),
    decreases s.len(),
{
    if s.len() > 0 {
        lemma_count_bound(s.drop_last(), c);
    }
}

pub(crate) proof fn lemma_count_update(s: Seq<u8>, i: int, v: u8, c: u8)
    requires
        0 <= i < s.len(),
    ensures
        count(s.update(i, v), c) + (if s[i] == c {
            1int
        } else {
            0int
        }) == count(s, c) + (if v == c {
            1int
        } else {
            0int
        }),
    decreases s.len(),
{
    let t = s.update(i, v);
    if i < s.len() - 1 {
        assert(t.drop_last() =~= s.drop_last().update(i, v));
        lemma_count_update(s.drop_last(), i, v, c);
    } else {
        assert(t.drop_last() =~= s.drop_last());
    }
}

proof fn lemma_count_push(s: Seq<u8>, v: u8, c: u8)
    ensures
        count(s.push(v), c) == count(s, c) + if v == c {
            1nat
        } else {
            0nat
        },
{
    assert(s.push(v).drop_last() =~= s);
}

/// Whether byte `a` comes before byte `b` when the bytes are ordered by decreasing number of
/// occurrences in `data`, ties broken by increasing value.
pub open spec fn ranks_before(data: Seq<u8>, a: u8, b: u8) -> bool {
    count(data, a) > count(data, b) || (count(data, a) == count(data, b) && a < b)
}

/// Whether `c` is none of the first `j` entries of `chosen`.
pub open spec fn not_chosen(chosen: Seq<u8>, j: int, c: u8) -> bool {
    forall|i: int| 0 <= i < j ==> c != #[trigger] chosen[i]
}

/// Whether `r` lists the four bytes that come first in that order, in order.
pub open spec fn is_top_four(data: Seq<u8>, r: Seq<u8>) -> bool {
    &&& r.len() == 4
    &&& forall|j: int| 0 <= j < 4 ==> not_chosen(r, j, #[trigger] r[j])
    &&& forall|j: int, c: u8| 0 <= j < 4 && #[trigger] not_chosen(r, j, c) ==> c == r[j] || ranks_before(data, r[j], c)
}

/// The four most frequent bytes of `data`, most frequent first and ties broken by value.
pub open spec fn top_four(data: Seq<u8>) -> Seq<u8> {
    choose|r: Seq<u8>| is_top_four(data, r)
}

pub(crate) proof fn lemma_top_four_unique(data: Seq<u8>, r1: Seq<u8>, r2: Seq<u8>)
    requires
        is_top_four(data, r1),
        is_top_four(data, r2),
    ensures
        r1 == r2,
{
    assert forall|j: int| 0 <= j < 4 implies r1[j] == r2[j] by {
        lemma_top_four_prefix(data, r1, r2, j);
    }
    assert(r1 =~= r2);
}

proof fn lemma_top_four_prefix(data: Seq<u8>, r1: Seq<u8>, r2: Seq<u8>, j: int)
    requires
        is_top_four(data, r1),
        is_top_four(data, r2),
        0 <= j < 4,
    ensures
        r1[j] == r2[j],
    decreases j,
{
    assert forall|i: int| 0 <= i < j implies r1[i] == r2[i] by {
        lemma_top_four_prefix(data, r1, r2, i);
    }
    if r1[j] != r2[j] {
        // Both are the best of the bytes not listed before position j, so each comes before
        // the other.
        assert(not_chosen(r2, j, r2[j]));
        assert(not_chosen(r1, j, r1[j]));
        assert forall|i: int| 0 <= i < j implies r2[j] != #[trigger] r1[i] by {
            assert(r1[i] == r2[i]);
        }
        assert forall|i: int| 0 <= i < j implies r1[j] != #[trigger] r2[i] by {
            assert(r1[i] == r2[i]);
        }
        assert(not_chosen(r1, j, r2[j]));
        assert(not_chosen(r2, j, r1[j]));
        assert(ranks_before(data, r1[j], r2[j]));
        assert(ranks_before(data, r2[j], r1[j]));
    }
}

/// Picks the four most frequent bytes of `data`, most frequent first (ties go to the smaller
/// byte value).
fn calc_ring_buffer_init(data: &[u8]) -> (out: [u8; 4])
    ensures
        is_top_four(data@, out@),
        out@ == top_four(data@),
{
    let mut counts: [usize; 256] = [0; 256];
    let mut i: usize = 0;
    while i < data.len()
        invariant
            i <= data@.len(),
            data@.len() == data.len(),
            forall|c: u8| #[trigger] counts@[c as int] == count(data@.subrange(0, i as int), c),
        decreases data@.len() - i,
    {
        let d = data[i];
        proof {
            assert(data@.subrange(0, i + 1) =~= data@.subrange(0, i as int).push(d));
            assert forall|c: u8| count(data@.subrange(0, i + 1), c) == count(data@.subrange(0, i as int), c) + if d == c {
                1nat
            } else {
                0nat
            } by {
                lemma_count_push(data@.subrange(0, i as int), d, c);
            }
            lemma_count_bound(data@.subrange(0, i as int), d);
            assert(counts@[d as int] == count(data@.subrange(0, i as int), d));
        }
        let ghost before = counts@;
        counts[d as usize] = counts[d as usize] + 1;
        proof {
            assert forall|c: u8| #[trigger] counts@[c as int] == count(data@.subrange(0, i + 1), c) by {
                if c != d {
                    assert(counts@[c as int] == before[c as int]);
                }
            }
        }
        i = i + 1;
    }
    proof {
        assert(data@.subrange(0, i as int) =~= data@);
    }
    let mut out: [u8; 4] = [0; 4];
    let mut j: usize = 0;
    while j < 4
        invariant
            j <= 4,
            forall|c: u8| #[trigger] counts@[c as int] == count(data@, c),
            forall|jj: int, c: u8|
                0 <= jj < j && #[trigger] not_chosen(out@, jj, c) ==> c == out@[jj] || ranks_before(data@, out@[jj], c),
            forall|jj: int| 0 <= jj < j ==> not_chosen(out@, jj, #[trigger] out@[jj]),
        decreases 4 - j,
    {
        let best = pick_best(&counts, &out, j, Ghost(data@));
        let ghost prev = out@;
        out[j] = best;
        proof {
            assert forall|jj: int, c: u8| 0 <= jj < j + 1 && #[trigger] not_chosen(out@, jj, c) implies c
                == out@[jj] || ranks_before(data@, out@[jj], c) by {
                assert forall|ii: int| 0 <= ii < jj implies c != #[trigger] prev[ii] by {
                    assert(out@[ii] == prev[ii]);
                }
                assert(not_chosen(prev, jj, c));
            }
            assert forall|jj: int| 0 <= jj < j + 1 implies not_chosen(out@, jj, #[trigger] out@[jj]) by {
                assert forall|ii: int| 0 <= ii < jj implies out@[jj] != #[trigger] out@[ii] by {
                    assert(out@[ii] == prev[ii]);
                    if jj < j {
                        assert(out@[jj] == prev[jj]);
                        assert(not_chosen(prev, jj, prev[jj]));
                    } else {
                        assert(not_chosen(prev, j as int, best));
                    }
                }
            }
        }
        j = j + 1;
    }
    proof {
        assert(is_top_four(data@, out@));
        lemma_top_four_unique(data@, out@, top_four(data@));
    }
    out
}

/// The byte that comes first, in order of decreasing count and increasing value, among the
/// bytes not among the first `j` entries of `chosen`.
fn pick_best(counts: &[usize; 256], chosen: &[u8; 4], j: usize, Ghost(data): Ghost<Seq<u8>>) -> (out: u8)
    requires
        j < 4,
        forall|c: u8| #[trigger] counts@[c as int] == count(data, c),
    ensures
        not_chosen(chosen@, j as int, out),
        forall|c: u8| #[trigger] not_chosen(chosen@, j as int, c) ==> c == out || ranks_before(data, out, c),
{
    let mut best: u16 = 256;
    let mut c: u16 = 0;
    while c < 256
        invariant
            c <= 256,
            j < 4,
            forall|c2: u8| #[trigger] counts@[c2 as int] == count(data, c2),
            best <= 256,
            best < 256 ==> best < c && not_chosen(chosen@, j as int, best as u8),
            forall|c2: u8|
                (c2 as int) < c && #[trigger] not_chosen(chosen@, j as int, c2) ==> best < 256 && (c2 == best as u8
                    || ranks_before(data, best as u8, c2)),
        decreases 256 - c,
    {
        let cb = c as u8;
        let mut taken = false;
        let mut i: usize = 0;
        while i < j
            invariant
                i <= j < 4,
                taken <==> exists|ii: int| 0 <= ii < i && cb == #[trigger] chosen@[ii],
            decreases j - i,
        {
            if chosen[i] == cb {
                taken = true;
            }
            i = i + 1;
        }
        if !taken {
            if best == 256 || counts[cb as usize] > counts[best as usize] {
                best = c;
            }
        }
        proof {
            assert forall|c2: u8| (c2 as int) < c + 1 && #[trigger] not_chosen(chosen@, j as int, c2) implies best
                < 256 && (c2 == best as u8 || ranks_before(data, best as u8, c2)) by {
                if c2 as int == c as int {
                    assert(c2 == cb);
                    if taken {
                        let ii = choose|ii: int| 0 <= ii < j && cb == #[trigger] chosen@[ii];
                        assert(c2 != chosen@[ii]);
                    }
                }
            }
        }
        c = c + 1;
    }
    proof {
        lemma_free_byte(chosen@, j as int);
    }
    best as u8
}

/// Fewer than four bytes are chosen, so some byte is not among them.
proof fn lemma_free_byte(chosen: Seq<u8>, j: int)
    requires
        0 <= j < 4,
        chosen.len() == 4,
    ensures
        exists|c: u8| #[trigger] not_chosen(chosen, j, c),
{
    if !not_chosen(chosen, j, 0) && !not_chosen(chosen, j, 1) && !not_chosen(chosen, j, 2) && !not_chosen(chosen, j, 3) {
        let i0 = choose|i: int| 0 <= i < j && 0u8 == #[trigger] chosen[i];
        let i1 = choose|i: int| 0 <= i < j && 1u8 == #[trigger] chosen[i];
        let i2 = choose|i: int| 0 <= i < j && 2u8 == #[trigger] chosen[i];
        let i3 = choose|i: int| 0 <= i < j && 3u8 == #[trigger] chosen[i];
        assert(i0 != i1 && i0 != i2 && i0 != i3 && i1 != i2 && i1 != i3 && i2 != i3);
    }
}

/// The cumulative frequency of the bytes below `n`: each byte counts its occurrences plus one.
pub open spec fn cum(counts: Seq<u8>, n: nat) -> nat
    decreases n,
{
    if n == 0 {
        0
    } else {
        (cum(counts, (n - 1) as nat) + counts[n - 1] + 1) as nat
    }
}

pub(crate) proof fn lemma_cum_update(counts: Seq<u8>, i: int, v: u8, n: nat)
    requires
        0 <= i < counts.len(),
        n <= counts.len(),
    ensures
        cum(counts.update(i, v), n) + (if i < n {
            counts[i] as int
        } else {
            0int
        }) == cum(counts, n) + (if i < n {
            v as int
        } else {
            0int
        }),
    decreases n,
{
    if n > 0 {
        lemma_cum_update(counts, i, v, (n - 1) as nat);
    }
}

pub(crate) proof fn lemma_cum_monotone(counts: Seq<u8>, a: nat, b: nat)
    requires
        a <= b,
    ensures
        cum(counts, a) <= cum(counts, b),
        a < b ==> cum(counts, a) + counts[a as int] + 1 <= cum(counts, b),
    decreases b,
{
    if a < b {
        lemma_cum_monotone(counts, a, (b - 1) as nat);
    }
}

proof fn lemma_cum_zeros(counts: Seq<u8>, n: nat)
    requires
        n <= counts.len(),
        forall|c: int| 0 <= c < counts.len() ==> counts[c] == 0,
    ensures
        cum(counts, n) == n,
    decreases n,
{
    if n > 0 {
        lemma_cum_zeros(counts, (n - 1) as nat);
    }
}

/// One emitted byte: the leading byte of `start`, and the range with that byte shifted out,
/// cut at the next multiple of 2^24 when it reaches beyond one.
pub open spec fn rc_emit(start: nat, width: nat) -> (u8, nat, nat) {
    let low = start % 0x100_0000;
    let room = (0x100_0000 - low) as nat;
    (
        (start / 0x100_0000) as u8,
        low * 256,
        if room < width {
            room * 256
        } else {
            width * 256
        },
    )
}

/// Whether a byte must be emitted: the leading byte is settled or the range is too narrow.
pub open spec fn rc_needs_emit(start: nat, width: nat) -> bool {
    start / 0x100_0000 == (start + width) / 0x100_0000 || width <= 0xffff
}

/// Emits bytes while they are needed, at most `fuel` of them.
pub open spec fn rc_renorm(start: nat, width: nat, fuel: nat) -> (Seq<u8>, nat, nat)
    decreases fuel,
{
    if fuel == 0 || !rc_needs_emit(start, width) {
        (seq![], start, width)
    } else {
        let (c, s1, w1) = rc_emit(start, width);
        let (cs, s2, w2) = rc_renorm(s1, w1, (fuel - 1) as nat);
        (seq![c] + cs, s2, w2)
    }
}

/// Emits bytes until the range spans the whole 32-bit space, at most `fuel` of them.
pub open spec fn rc_flush(start: nat, width: nat, fuel: nat) -> Seq<u8>
    decreases fuel,
{
    if fuel == 0 || width >= 0x1_0000_0000 {
        seq![]
    } else {
        let (c, s1, w1) = rc_emit(start, width);
        seq![c] + rc_flush(s1, w1, (fuel - 1) as nat)
    }
}

/// The state of the coder: byte counts, the last 255 bytes (a ring buffer and its position),
/// and the current range.
pub struct RcModel {
    pub counts: Seq<u8>,
    pub ring: Seq<u8>,
    pub idx: nat,
    pub start: nat,
    pub width: nat,
}

/// The counts the coder starts with for the ring buffer `init` repeated.
pub open spec fn initial_counts(init: Seq<u8>) -> Seq<u8> {
    Seq::new(
        256,
        |c: int|
            if c == init[3] as int {
                63u8
            } else if c == init[2] as int || c == init[1] as int || c == init[0] as int {
                64u8
            } else {
                0u8
            },
    )
}

/// The ring buffer filled with `init` repeated.
pub open spec fn initial_ring(init: Seq<u8>) -> Seq<u8> {
    Seq::new(255, |i: int| init[i % 4])
}

/// The state of a coder whose ring buffer is initialized from `init`.
pub open spec fn rc_initial(init: Seq<u8>) -> RcModel {
    RcModel { counts: initial_counts(init), ring: initial_ring(init), idx: 0, start: 0, width: 0x1_0000_0000 }
}

/// The range narrowed to the part that stands for byte `b`.
pub open spec fn rc_narrow(m: RcModel, b: u8) -> (nat, nat) {
    let lo = (cum(m.counts, b as nat) * 0x80_0000) as nat;
    let inc = ((m.counts[b as int] + 1) * 0x80_0000) as nat;
    ((m.start + m.width * lo / 0x1_0000_0000) as nat, (m.width * inc / 0x1_0000_0000) as nat)
}

/// The model after byte `b` replaces the oldest byte of the ring buffer.
pub open spec fn rc_update(m: RcModel, b: u8, start: nat, width: nat) -> RcModel {
    let r = m.ring[m.idx as int];
    let c1 = m.counts.update(r as int, (m.counts[r as int] - 1) as u8);
    RcModel {
        counts: c1.update(b as int, (c1[b as int] + 1) as u8),
        ring: m.ring.update(m.idx as int, b),
        idx: (m.idx + 1) % 255,
        start,
        width,
    }
}

/// Codes byte `b`: the bytes emitted and the next state.
pub open spec fn rc_code_byte(m: RcModel, b: u8) -> (Seq<u8>, RcModel) {
    let (s1, w1) = rc_narrow(m, b);
    let (codes, s2, w2) = rc_renorm(s1, w1, 4);
    (codes, rc_update(m, b, s2, w2))
}

/// Codes the bytes of `data` in order.
pub open spec fn rc_code_all(m: RcModel, data: Seq<u8>) -> (Seq<u8>, RcModel)
    decreases data.len(),
{
    if data.len() == 0 {
        (seq![], m)
    } else {
        let (c0, m0) = rc_code_all(m, data.drop_last());
        let (c1, m1) = rc_code_byte(m0, data.last());
        (c0 + c1, m1)
    }
}

/// The first `min(255, len)` bytes of `data`, from which the ring buffer is initialized.
pub open spec fn rc_sample(data: Seq<u8>) -> Seq<u8> {
    data.take(if data.len() < 255 {
        data.len() as int
    } else {
        255
    })
}

/// The range coding of `data`: the four bytes the ring buffer is initialized from, the bytes
/// emitted while coding, and the bytes that settle the final range.
pub open spec fn rc_encode(data: Seq<u8>) -> Seq<u8> {
    let init = top_four(rc_sample(data));
    let (codes, m) = rc_code_all(rc_initial(init), data);
    init + codes + rc_flush(m.start, m.width, 4)
}

/// The invariant of a coder state.
pub open spec fn rc_wf(m: RcModel) -> bool {
    &&& m.counts.len() == 256
    &&& m.ring.len() == 255
    &&& m.idx < 255
    &&& forall|c: u8| #[trigger] m.counts[c as int] == count(m.ring, c)
    &&& cum(m.counts, 256) == 511
    &&& m.start < 0x1_0000_0000
    &&& 0xffff < m.width
    &&& m.start + m.width <= 0x1_0000_0000
}

/// The mask of the low bytes that are zero in the range after `k` emitted bytes.
pub open spec fn rc_mask(k: nat) -> u64 {
    if k == 0 {
        0
    } else if k == 1 {
        0xff
    } else if k == 2 {
        0xffff
    } else if k == 3 {
        0xff_ffff
    } else {
        0xffff_ffff
    }
}

proof fn lemma_shift24(x: u64)
    by (bit_vector)
    ensures
        x >> 24 == x / 0x100_0000,
{
}

pub(crate) proof fn lemma_emit_bits(start: u64, width: u64)
    by (bit_vector)
    requires
        start < 0x1_0000_0000,
        width <= 0x1_0000_0000,
    ensures
        start >> 24 == start / 0x100_0000,
        start & 0xff_ffff == start % 0x100_0000,
        (0xff00_0000 & start) + 0x0100_0000 - start == 0x100_0000 - start % 0x100_0000,
        (start & 0xff_ffff) << 8 == (start % 0x100_0000) * 256,
        (((0xff00_0000 & start) + 0x0100_0000 - start) as u64) << 8 == (0x100_0000 - start % 0x100_0000) * 256,
        width << 8 == width * 256,
{
}

proof fn lemma_emit_masks(start: u64, width: u64, m: u64)
    by (bit_vector)
    requires
        m == 0 || m == 0xff || m == 0xffff || m == 0xff_ffff,
        start & m == 0,
        width & m == 0,
        start < 0x1_0000_0000,
        width <= 0x1_0000_0000,
    ensures
        ((start & 0xff_ffff) << 8) & ((m << 8) | 0xff) == 0,
        ((((0xff00_0000 & start) + 0x0100_0000 - start) as u64) << 8) & ((m << 8) | 0xff) == 0,
        (width << 8) & ((m << 8) | 0xff) == 0,
{
}

pub(crate) proof fn lemma_full_mask(start: u64, width: u64)
    by (bit_vector)
    requires
        start & 0xffff_ffff == 0,
        width & 0xffff_ffff == 0,
        start < 0x1_0000_0000,
        1 <= width <= 0x1_0000_0000,
    ensures
        start == 0,
        width == 0x1_0000_0000,
{
}

pub(crate) proof fn lemma_zero_mask(x: u64)
    by (bit_vector)
    ensures
        x & 0 == 0,
{
}

/// Splits the range for the next byte: the leading byte, and the remaining range.
fn emit_code(start: u64, width: u64) -> (out: (u8, u64, u64))
    requires
        start < 0x1_0000_0000,
        width <= 0x1_0000_0000,
    ensures
        (out.0, out.1 as nat, out.2 as nat) == rc_emit(start as nat, width as nat),
{
    proof {
        lemma_emit_bits(start, width);
    }
    let code = (start >> 24) as u8;
    let start_masked = start & 0x00ff_ffff;

    // If start and start + width to not share the same leading byte,
    // either start or width has to be adjusted so that the leading
    // byte is the same for both ends of the range.
    let discrepancy = (0xff00_0000 & start) + 0x0100_0000 - start;
    if discrepancy < width {
        // Adjust range from the top
        (code, start_masked << 8, discrepancy << 8)
    } else {
        // Keep range as-is
        (code, start_masked << 8, width << 8)
    }
}

/// Emitting a byte keeps the range within the 32-bit space, nonempty, and clears one more low
/// byte of both ends.
pub(crate) proof fn lemma_emit_step(start: u64, width: u64, k: nat)
    requires
        k < 4,
        start & rc_mask(k) == 0,
        width & rc_mask(k) == 0,
        start < 0x1_0000_0000,
        1 <= width,
        start + width <= 0x1_0000_0000,
    ensures
        ({
            let (c, s1, w1) = rc_emit(start as nat, width as nat);
            &&& s1 < 0x1_0000_0000
            &&& 1 <= w1
            &&& s1 + w1 <= 0x1_0000_0000
            &&& (s1 as u64) & rc_mask(k + 1) == 0
            &&& (w1 as u64) & rc_mask(k + 1) == 0
        }),
{
    lemma_emit_bits(start, width);
    lemma_emit_masks(start, width, rc_mask(k));
    let m = rc_mask(k);
    assert(rc_mask(k + 1) == (m << 8) | 0xff) by {
        assert((0u64 << 8u64) | 0xff == 0xffu64 && (0xffu64 << 8u64) | 0xff == 0xffffu64
            && (0xffffu64 << 8u64) | 0xff == 0xff_ffffu64 && (0xff_ffffu64 << 8u64) | 0xff
            == 0xffff_ffffu64) by (bit_vector);
    }
}

/// The number of occurrences of `c` in the first `n` entries of the ring buffer filled with
/// `init` repeated.
proof fn lemma_ring_count(init: Seq<u8>, c: u8, n: nat)
    requires
        init.len() == 4,
        n <= 255,
    ensures
        count(initial_ring(init).take(n as int), c) == (if init[0] == c {
            (n + 3) / 4
        } else {
            0
        }) + (if init[1] == c {
            (n + 2) / 4
        } else {
            0
        }) + (if init[2] == c {
            (n + 1) / 4
        } else {
            0
        }) + (if init[3] == c {
            n / 4
        } else {
            0
        }),
    decreases n,
{
    if n > 0 {
        lemma_ring_count(init, c, (n - 1) as nat);
        let r = initial_ring(init);
        assert(r.take(n as int).drop_last() =~= r.take(n - 1));
        assert(r.take(n as int).last() == init[(n - 1) % 4]);
    }
}

/// The counts the coder starts with are those of the ring buffer it starts with.
pub(crate) proof fn lemma_initial_wf(init: Seq<u8>)
    requires
        init.len() == 4,
        forall|j: int| 0 <= j < 4 ==> not_chosen(init, j, #[trigger] init[j]),
    ensures
        rc_wf(rc_initial(init)),
{
    let m = rc_initial(init);
    assert(not_chosen(init, 1, init[1]));
    assert(not_chosen(init, 2, init[2]));
    assert(not_chosen(init, 3, init[3]));
    assert forall|c: u8| #[trigger] m.counts[c as int] == count(m.ring, c) by {
        lemma_ring_count(init, c, 255);
        assert(initial_ring(init).take(255) =~= initial_ring(init));
    }
    let zeros = Seq::new(256, |c: int| 0u8);
    let c0 = zeros.update(init[0] as int, 64u8);
    let c1 = c0.update(init[1] as int, 64u8);
    let c2 = c1.update(init[2] as int, 64u8);
    let c3 = c2.update(init[3] as int, 63u8);
    assert(c3 =~= m.counts);
    lemma_cum_zeros(zeros, 256);
    lemma_cum_update(zeros, init[0] as int, 64u8, 256);
    lemma_cum_update(c0, init[1] as int, 64u8, 256);
    lemma_cum_update(c1, init[2] as int, 64u8, 256);
    lemma_cum_update(c2, init[3] as int, 63u8, 256);
}

pub(crate) proof fn lemma_narrow_arith(w: int, lo: int, inc: int)
    by (nonlinear_arith)
    requires
        0xffff < w <= 0x1_0000_0000,
        0 <= lo,
        0x80_0000 <= inc,
        lo + inc <= 511 * 0x80_0000,
    ensures
        w * lo / 0x1_0000_0000 + w * inc / 0x1_0000_0000 <= w,
        w * inc / 0x1_0000_0000 >= 128,
        w * lo < 0x1_0000_0000 * 0x1_0000_0000,
        w * inc < 0x1_0000_0000 * 0x1_0000_0000,
        w * (lo + inc) < 0x1_0000_0000 * 0x1_0000_0000,
{
    let d = 0x1_0000_0000int;
    let qa = w * lo / d;
    let qb = w * inc / d;
    assert(qa * d <= w * lo);
    assert(qb * d <= w * inc);
    assert(w * lo + w * inc <= w * d);
    assert((qa + qb) * d <= w * d);
    assert(0x10000 * 0x80_0000 <= w * inc);
}

/// Narrowing the range to a byte keeps it within the 32-bit space and at least 128 wide.
pub(crate) proof fn lemma_narrow(m: RcModel, b: u8)
    requires
        rc_wf(m),
    ensures
        cum(m.counts, b as nat) + m.counts[b as int] + 1 <= 511,
        ({
            let (s1, w1) = rc_narrow(m, b);
            &&& s1 < 0x1_0000_0000
            &&& 128 <= w1
            &&& s1 + w1 <= 0x1_0000_0000
        }),
{
    lemma_cum_monotone(m.counts, b as nat, 256);
    let lo = (cum(m.counts, b as nat) * 0x80_0000) as int;
    let inc = ((m.counts[b as int] + 1) * 0x80_0000) as int;
    lemma_narrow_arith(m.width as int, lo, inc);
}

/// The cumulative frequency of the bytes below `b`.
fn cum_below(counts: &[u8; 256], b: u8) -> (out: u64)
    requires
        cum(counts@, 256) == 511,
    ensures
        out == cum(counts@, b as nat),
        out <= 511,
{
    let mut count_acc: u64 = 0;
    let mut c: usize = 0;
    while c < b as usize
        invariant
            c <= b,
            cum(counts@, 256) == 511,
            count_acc == cum(counts@, c as nat),
        decreases b - c,
    {
        proof {
            lemma_cum_monotone(counts@, c as nat, 256);
        }
        count_acc = count_acc + counts[c] as u64 + 1;
        c = c + 1;
    }
    proof {
        lemma_cum_monotone(counts@, b as nat, 256);
    }
    count_acc
}

/// Emits the bytes of the range while they are needed.
fn renormalize(start: &mut u64, width: &mut u64, out: &mut Vec<u8>)
    requires
        *old(start) < 0x1_0000_0000,
        1 <= *old(width),
        *old(start) + *old(width) <= 0x1_0000_0000,
    ensures
        final(out)@ == old(out)@ + rc_renorm(*old(start) as nat, *old(width) as nat, 4).0,
        *final(start) as nat == rc_renorm(*old(start) as nat, *old(width) as nat, 4).1,
        *final(width) as nat == rc_renorm(*old(start) as nat, *old(width) as nat, 4).2,
        *final(start) < 0x1_0000_0000,
        0xffff < *final(width),
        *final(start) + *final(width) <= 0x1_0000_0000,
{
    let ghost s0 = *start as nat;
    let ghost w0 = *width as nat;
    let ghost out0 = out@;
    let ghost mut k: nat = 0;
    proof {
        lemma_zero_mask(*start);
        lemma_zero_mask(*width);
    }
    loop
        invariant
            k <= 4,
            *start < 0x1_0000_0000,
            1 <= *width,
            *start + *width <= 0x1_0000_0000,
            *start & rc_mask(k) == 0,
            *width & rc_mask(k) == 0,
            rc_renorm(s0, w0, 4) == ({
                let (cs, s2, w2) = rc_renorm(*start as nat, *width as nat, (4 - k) as nat);
                (out@.subrange(out0.len() as int, out@.len() as int) + cs, s2, w2)
            }),
            out@.subrange(0, out0.len() as int) == out0,
            out0.len() <= out@.len(),
        ensures
            !rc_needs_emit(*start as nat, *width as nat),
            out@ == out0 + rc_renorm(s0, w0, 4).0,
            *start as nat == rc_renorm(s0, w0, 4).1,
            *width as nat == rc_renorm(s0, w0, 4).2,
            *start < 0x1_0000_0000,
            *start + *width <= 0x1_0000_0000,
        decreases 4 - k,
    {
        proof {
            lemma_shift24(*start);
            lemma_shift24((*start + *width) as u64);
        }
        if !((*start >> 24) == ((*start + *width) >> 24) || *width <= 0xffff) {
            proof {
                assert(out@ =~= out0 + out@.subrange(out0.len() as int, out@.len() as int));
            }
            break;
        }
        proof {
            if k == 4 {
                lemma_full_mask(*start, *width);
            }
            lemma_emit_step(*start, *width, k);
        }
        let ghost old_out = out@;
        let (code, s1, w1) = emit_code(*start, *width);
        *start = s1;
        *width = w1;
        out.push(code);
        proof {
            assert(out@.subrange(out0.len() as int, out@.len() as int) =~= old_out.subrange(
                out0.len() as int,
                old_out.len() as int,
            ) + seq![code]);
            assert(out@.subrange(0, out0.len() as int) =~= old_out.subrange(0, out0.len() as int));
            k = k + 1;
        }
    }
}

/// Emits the bytes that settle the final range.
fn flush(start: u64, width: u64, out: &mut Vec<u8>)
    requires
        start < 0x1_0000_0000,
        1 <= width,
        start + width <= 0x1_0000_0000,
    ensures
        final(out)@ == old(out)@ + rc_flush(start as nat, width as nat, 4),
{
    let ghost out0 = out@;
    let mut start = start;
    let mut width = width;
    let ghost s0 = start as nat;
    let ghost w0 = width as nat;
    let ghost mut k: nat = 0;
    proof {
        lemma_zero_mask(start);
        lemma_zero_mask(width);
    }
    while width < 0x1_0000_0000
        invariant
            k <= 4,
            start < 0x1_0000_0000,
            1 <= width,
            start + width <= 0x1_0000_0000,
            start & rc_mask(k) == 0,
            width & rc_mask(k) == 0,
            rc_flush(s0, w0, 4) == out@.subrange(out0.len() as int, out@.len() as int) + rc_flush(
                start as nat,
                width as nat,
                (4 - k) as nat,
            ),
            out@.subrange(0, out0.len() as int) == out0,
            out0.len() <= out@.len(),
        decreases 4 - k,
    {
        proof {
            if k == 4 {
                lemma_full_mask(start, width);
            }
            lemma_emit_step(start, width, k);
        }
        let ghost old_out = out@;
        let (code, s1, w1) = emit_code(start, width);
        start = s1;
        width = w1;
        out.push(code);
        proof {
            assert(out@.subrange(out0.len() as int, out@.len() as int) =~= old_out.subrange(
                out0.len() as int,
                old_out.len() as int,
            ) + seq![code]);
            assert(out@.subrange(0, out0.len() as int) =~= old_out.subrange(0, out0.len() as int));
            k = k + 1;
        }
    }
    proof {
        assert(out@ =~= out0 + out@.subrange(out0.len() as int, out@.len() as int));
    }
}

proof fn lemma_shl23(x: u64)
    by (bit_vector)
    requires
        x <= 512,
    ensures
        x << 23 == x * 0x80_0000,
{
}

/// Replaces the oldest byte of the ring buffer by `b`, keeping the counts equal to the numbers
/// of occurrences in the ring buffer.
fn update_counts(counts: &mut [u8; 256], ring: &mut [u8; 255], idx: &mut usize, b: u8, Ghost(m): Ghost<RcModel>)
    requires
        rc_wf(m),
        m.counts == old(counts)@,
        m.ring == old(ring)@,
        m.idx == *old(idx),
    ensures
        final(counts)@ == rc_update(m, b, 0, 0).counts,
        final(ring)@ == rc_update(m, b, 0, 0).ring,
        *final(idx) == rc_update(m, b, 0, 0).idx,
        forall|c: u8| #[trigger] final(counts)@[c as int] == count(final(ring)@, c),
        cum(final(counts)@, 256) == 511,
        *final(idx) < 255,
{
    let r = ring[*idx];
    proof {
        lemma_count_update(m.ring, m.idx as int, if r == 0 { 1u8 } else { 0u8 }, r);
        assert(counts@[r as int] == count(m.ring, r));
        lemma_count_bound(m.ring.update(m.idx as int, b), b);
    }
    let ghost c0 = counts@;
    counts[r as usize] = counts[r as usize] - 1;
    let ghost c1 = counts@;
    proof {
        lemma_count_update(m.ring, m.idx as int, b, b);
        assert(c1[b as int] == c0[b as int] - if r == b { 1int } else { 0int });
    }
    counts[b as usize] = counts[b as usize] + 1;
    ring[*idx] = b;
    *idx = (*idx + 1) % 255;
    proof {
        assert forall|c: u8| #[trigger] counts@[c as int] == count(ring@, c) by {
            lemma_count_update(m.ring, m.idx as int, b, c);
            assert(c0[c as int] == count(m.ring, c));
        }
        lemma_cum_update(c0, r as int, (c0[r as int] - 1) as u8, 256);
        lemma_cum_update(c1, b as int, (c1[b as int] + 1) as u8, 256);
    }
}

/// Encode `data` using range coding.
pub fn encode_rc(data: &[u8]) -> (out: Vec<u8>)
    requires
        data@.len() > 0,
    ensures
        out@ == rc_encode(data@),
{
    let mut out: Vec<u8> = Vec::new();

    // The ring buffer is used to manage the counts array.
    // It needs to be 255 bytes long, because otherwise it would be
    // possible for 256 of the same byte to be in the buffer, which would not fit
    // the counts array (max is 255).
    // The ring buffer is initialized by repeating the four most common bytes in
    // the first 255 bytes of the data.
    let sample_len: usize = if data.len() < 255 { data.len() } else { 255 };
    let ring_buffer_init = calc_ring_buffer_init(&data[0..sample_len]);
    let ghost init = ring_buffer_init@;
    proof {
        assert(data@.subrange(0, sample_len as int) =~= rc_sample(data@));
    }
    let (mut counts, mut ring_buffer) = initial_tables(&ring_buffer_init);
    let mut ring_buffer_idx: usize = 0;

    // The ring buffer initialization must be part of the output,
    // since the decoder has to initialize its ring buffer with
    // the same data as the encoder.
    let mut k: usize = 0;
    while k < 4
        invariant
            k <= 4,
            ring_buffer_init@ == init,
            out@ == init.take(k as int),
        decreases 4 - k,
    {
        out.push(ring_buffer_init[k]);
        proof {
            assert(init.take(k + 1) =~= init.take(k as int).push(init[k as int]));
        }
        k = k + 1;
    }

    let mut start: u64 = 0;
    let mut width: u64 = 0x1_0000_0000;
    proof {
        lemma_initial_wf(init);
        assert(init.take(4) =~= init);
        assert(out@.subrange(4, out@.len() as int) =~= Seq::<u8>::empty());
        assert(data@.take(0) =~= Seq::<u8>::empty());
    }

    let mut n: usize = 0;
    while n < data.len()
        invariant
            n <= data@.len(),
            init == top_four(rc_sample(data@)),
            init.len() == 4,
            out@.len() >= 4,
            out@.subrange(0, 4) == init,
            rc_code_all(rc_initial(init), data@.take(n as int)) == (
                out@.subrange(4, out@.len() as int),
                RcModel {
                    counts: counts@,
                    ring: ring_buffer@,
                    idx: ring_buffer_idx as nat,
                    start: start as nat,
                    width: width as nat,
                },
            ),
            rc_wf(
                RcModel {
                    counts: counts@,
                    ring: ring_buffer@,
                    idx: ring_buffer_idx as nat,
                    start: start as nat,
                    width: width as nat,
                },
            ),
        decreases data@.len() - n,
    {
        let byte = data[n];
        let ghost m = RcModel {
            counts: counts@,
            ring: ring_buffer@,
            idx: ring_buffer_idx as nat,
            start: start as nat,
            width: width as nat,
        };
        let ghost out_before = out@;
        proof {
            lemma_narrow(m, byte);
            assert(data@.take(n + 1).drop_last() =~= data@.take(n as int));
        }
        let below = cum_below(&counts, byte);
        proof {
            lemma_shl23(below);
            lemma_shl23((counts@[byte as int] + 1) as u64);
            lemma_narrow_arith(width as int, below * 0x80_0000, (counts@[byte as int] + 1) * 0x80_0000);
        }
        let count_acc: u64 = below << 23;
        start = start + width * count_acc / 0x1_0000_0000;
        width = width * ((counts[byte as usize] as u64 + 1) << 23) / 0x1_0000_0000;
        assert((start as nat, width as nat) == rc_narrow(m, byte));

        renormalize(&mut start, &mut width, &mut out);

        // Update counts and ring buffer.
        update_counts(&mut counts, &mut ring_buffer, &mut ring_buffer_idx, byte, Ghost(m));
        proof {
            assert(out@.subrange(0, 4) =~= out_before.subrange(0, 4));
            assert(out@.subrange(4, out@.len() as int) =~= out_before.subrange(4, out_before.len() as int)
                + rc_renorm(rc_narrow(m, byte).0, rc_narrow(m, byte).1, 4).0);
        }
        n = n + 1;
    }

    // Finish up
    proof {
        assert(data@.take(n as int) =~= data@);
    }
    let ghost out_before = out@;
    flush(start, width, &mut out);
    proof {
        assert(out_before =~= init + out_before.subrange(4, out_before.len() as int));
    }
    out
}

/// The state of a decoder apart from its source: the coder state and the 32 bits of code it
/// has read ahead.
pub struct RcDecState {
    pub m: RcModel,
    pub x: nat,
}

/// The top of the part of the range that stands for byte `b`.
pub open spec fn rc_threshold(m: RcModel, b: nat) -> nat {
    (m.start + m.width * (cum(m.counts, b + 1) * 0x80_0000) / 0x1_0000_0000) as nat
}

/// The first byte from `b` on whose part of the range ends above the code `x`.
pub open spec fn rc_find(m: RcModel, x: nat, b: nat) -> Option<u8>
    decreases 256 - b,
{
    if b >= 256 {
        None
    } else if x < rc_threshold(m, b) {
        Some(b as u8)
    } else {
        rc_find(m, x, b + 1)
    }
}

/// The code with its leading byte shifted out and the input byte `b` shifted in.
pub open spec fn rc_next_code(x: nat, b: u8) -> nat {
    ((x % 0x100_0000) * 256 + b) as nat
}

/// Shifts settled bytes out of the range, and the next input bytes into the code, while needed
/// (at most `fuel` times): the range, the code and the next input position.
pub open spec fn rc_adjust(start: nat, width: nat, x: nat, s: spec_fn(nat) -> u8, pos: nat, fuel: nat) -> (
    nat,
    nat,
    nat,
    nat,
)
    decreases fuel,
{
    if fuel == 0 || !rc_needs_emit(start, width) {
        (start, width, x, pos)
    } else {
        let (_, s1, w1) = rc_emit(start, width);
        rc_adjust(s1, w1, rc_next_code(x, s(pos)), s, pos + 1, (fuel - 1) as nat)
    }
}

/// One decoding step: the byte decoded, the next state and the next input position.
pub open spec fn rc_dec_step(st: RcDecState, s: spec_fn(nat) -> u8, pos: nat) -> (u8, RcDecState, nat) {
    let b = rc_find(st.m, st.x, 0).unwrap();
    let (s1, w1) = rc_narrow(st.m, b);
    let (s2, w2, x2, pos2) = rc_adjust(s1, w1, st.x, s, pos, 4);
    (b, RcDecState { m: rc_update(st.m, b, s2, w2), x: x2 }, pos2)
}

/// Whether a decoding step from `st` is valid: the state is consistent and the code lies in the
/// range of some byte.
pub open spec fn rc_dec_ok(st: RcDecState) -> bool {
    &&& rc_wf(st.m)
    &&& st.x < 0x1_0000_0000
    &&& rc_find(st.m, st.x, 0) is Some
}

/// The state and input position after `n` steps, and whether all of them were valid.
pub open spec fn rc_dec_run(st: RcDecState, s: spec_fn(nat) -> u8, pos: nat, n: nat) -> (RcDecState, nat, bool)
    decreases n,
{
    if n == 0 {
        (st, pos, true)
    } else {
        let (_, st1, pos1) = rc_dec_step(st, s, pos);
        let (st2, pos2, ok) = rc_dec_run(st1, s, pos1, (n - 1) as nat);
        (st2, pos2, ok && rc_dec_ok(st))
    }
}

/// The bytes decoded from `s`.
pub open spec fn rc_dec_output(st: RcDecState, s: spec_fn(nat) -> u8) -> spec_fn(nat) -> u8 {
    |i: nat|
        {
            let (st_i, pos_i, _) = rc_dec_run(st, s, 0, i);
            rc_dec_step(st_i, s, pos_i).0
        }
}

/// The big-endian 32-bit number in the first four bytes of `s`.
pub open spec fn be32(s: spec_fn(nat) -> u8) -> nat {
    ((s(0) * 0x100_0000 + s(1) * 0x1_0000 + s(2) * 0x100 + s(3)) as nat)
}

/// The state of a decoder that has read the ring buffer initialization and the first code
/// bytes of `s`.
pub open spec fn rc_dec_initial(s: spec_fn(nat) -> u8) -> RcDecState {
    let init = seq![s(0), s(1), s(2), s(3)];
    RcDecState { m: rc_initial(init), x: be32(shift(s, 4)) }
}

proof fn lemma_rc_adjust_shift(start: nat, width: nat, x: nat, s: spec_fn(nat) -> u8, pos: nat, k: nat, fuel: nat)
    ensures
        rc_adjust(start, width, x, s, pos + k, fuel) == ({
            let (a, b, c, d) = rc_adjust(start, width, x, shift(s, k), pos, fuel);
            (a, b, c, d + k)
        }),
    decreases fuel,
{
    if fuel > 0 && rc_needs_emit(start, width) {
        let (_, s1, w1) = rc_emit(start, width);
        assert(shift(s, k)(pos) == s(pos + k));
        lemma_rc_adjust_shift(s1, w1, rc_next_code(x, s(pos + k)), s, pos + 1, k, (fuel - 1) as nat);
    }
}

proof fn lemma_rc_step_shift(st: RcDecState, s: spec_fn(nat) -> u8, pos: nat, k: nat)
    ensures
        rc_dec_step(st, s, pos + k) == ({
            let (o, st2, pos2) = rc_dec_step(st, shift(s, k), pos);
            (o, st2, pos2 + k)
        }),
{
    let b = rc_find(st.m, st.x, 0).unwrap();
    let (s1, w1) = rc_narrow(st.m, b);
    lemma_rc_adjust_shift(s1, w1, st.x, s, pos, k, 4);
}

proof fn lemma_rc_run_shift(st: RcDecState, s: spec_fn(nat) -> u8, pos: nat, k: nat, n: nat)
    ensures
        rc_dec_run(st, s, pos + k, n) == ({
            let (st2, pos2, ok) = rc_dec_run(st, shift(s, k), pos, n);
            (st2, pos2 + k, ok)
        }),
    decreases n,
{
    if n > 0 {
        lemma_rc_step_shift(st, s, pos, k);
        let (_, st1, pos1) = rc_dec_step(st, shift(s, k), pos);
        lemma_rc_run_shift(st1, s, pos1, k, (n - 1) as nat);
    }
}

proof fn lemma_rc_adjust_monotone(start: nat, width: nat, x: nat, s: spec_fn(nat) -> u8, pos: nat, fuel: nat)
    ensures
        pos <= rc_adjust(start, width, x, s, pos, fuel).3,
    decreases fuel,
{
    if fuel > 0 && rc_needs_emit(start, width) {
        let (_, s1, w1) = rc_emit(start, width);
        lemma_rc_adjust_monotone(s1, w1, rc_next_code(x, s(pos)), s, pos + 1, (fuel - 1) as nat);
    }
}

proof fn lemma_rc_run_monotone(st: RcDecState, s: spec_fn(nat) -> u8, pos: nat, a: nat, b: nat)
    requires
        a <= b,
    ensures
        rc_dec_run(st, s, pos, a).1 <= rc_dec_run(st, s, pos, b).1,
        pos <= rc_dec_run(st, s, pos, a).1,
        rc_dec_run(st, s, pos, b).2 ==> rc_dec_run(st, s, pos, a).2,
    decreases b,
{
    if b > 0 {
        let (_, st1, pos1) = rc_dec_step(st, s, pos);
        let bb = rc_find(st.m, st.x, 0).unwrap();
        let (s1, w1) = rc_narrow(st.m, bb);
        lemma_rc_adjust_monotone(s1, w1, st.x, s, pos, 4);
        if a > 0 {
            lemma_rc_run_monotone(st1, s, pos1, (a - 1) as nat, (b - 1) as nat);
        } else {
            lemma_rc_run_monotone(st1, s, pos1, 0, (b - 1) as nat);
        }
    }
}

/// Decoding one step and then the rest of the input is decoding the whole input.
proof fn lemma_rc_output_after_step(st: RcDecState, s: spec_fn(nat) -> u8)
    ensures
        ({
            let (o, st1, k) = rc_dec_step(st, s, 0);
            &&& rc_dec_output(st, s)(0) == o
            &&& rc_dec_output(st1, shift(s, k)) == shift(rc_dec_output(st, s), 1)
            &&& forall|n: nat|
                #[trigger] rc_dec_run(st1, shift(s, k), 0, n).1 + k == rc_dec_run(st, s, 0, n + 1).1
            &&& forall|n: nat|
                (#[trigger] rc_dec_run(st1, shift(s, k), 0, n).2 && rc_dec_ok(st)) == rc_dec_run(st, s, 0, n + 1).2
        }),
{
    let (o, st1, k) = rc_dec_step(st, s, 0);
    assert forall|i: nat| #[trigger] rc_dec_output(st1, shift(s, k))(i) == shift(rc_dec_output(st, s), 1)(i) by {
        lemma_rc_run_shift(st1, s, 0, k, i);
        let (st_i, p_i, _) = rc_dec_run(st1, shift(s, k), 0, i);
        lemma_rc_step_shift(st_i, s, p_i, k);
    }
    assert(rc_dec_output(st1, shift(s, k)) =~= shift(rc_dec_output(st, s), 1));
    assert forall|n: nat| #[trigger] rc_dec_run(st1, shift(s, k), 0, n).1 + k == rc_dec_run(st, s, 0, n + 1).1 by {
        lemma_rc_run_shift(st1, s, 0, k, n);
    }
    assert forall|n: nat|
        (#[trigger] rc_dec_run(st1, shift(s, k), 0, n).2 && rc_dec_ok(st)) == rc_dec_run(st, s, 0, n + 1).2 by {
        lemma_rc_run_shift(st1, s, 0, k, n);
    }
}

/// The counts and the ring buffer of a coder whose ring buffer is initialized from `init`.
///
/// The number of occurances of each byte in the ring buffer at the current time.
/// These counts are used directly as the probabilities for the current byte to be encoded.
/// The sum of all counts will always be 255 (it should ideally be 256, but that is not
/// possible without increasing the size of the array type).
fn initial_tables(init: &[u8; 4]) -> (out: ([u8; 256], [u8; 255]))
    ensures
        out.0@ == initial_counts(init@),
        out.1@ == initial_ring(init@),
{
    let mut ring_buffer: [u8; 255] = [0; 255];
    let mut i: usize = 0;
    while i < 255
        invariant
            i <= 255,
            forall|j: int| 0 <= j < i ==> ring_buffer@[j] == init@[j % 4],
        decreases 255 - i,
    {
        assert(i & 3 == i % 4) by (bit_vector);
        ring_buffer[i] = init[i & 0x3];
        i = i + 1;
    }
    assert(ring_buffer@ =~= initial_ring(init@));
    let mut counts: [u8; 256] = [0; 256];
    counts[init[0] as usize] = 64;
    counts[init[1] as usize] = 64;
    counts[init[2] as usize] = 64;
    counts[init[3] as usize] = 63;
    assert(counts@ =~= initial_counts(init@));
    (counts, ring_buffer)
}

/// Reads byte `r` of the stream `s` of `src0` from a decoder that has read the bytes before it.
fn next_byte<'a>(
    source: &mut Box<SourceDecoder<'a>>,
    Ghost(src0): Ghost<SourceDecoder<'a>>,
    Ghost(s): Ghost<spec_fn(nat) -> u8>,
    Ghost(k): Ghost<nat>,
    Ghost(r): Ghost<nat>,
) -> (out: u8)
    requires
        old(source).wf(),
        s == src0.src_stream(),
        src0.wf(),
        src0.src_can_produce(k),
        r < k,
        old(source).src_stream() == shift(s, r),
        can_follow(**old(source), src0, r),
        old(source).depth() == src0.depth(),
    ensures
        final(source).wf(),
        out == s(r),
        final(source).src_stream() == shift(s, r + 1),
        can_follow(**final(source), src0, r + 1),
        final(source).depth() == src0.depth(),
    decreases src0.depth() + 1, 0nat,
{
    proof {
        src0.lemma_can_produce_monotone(r + 1, k);
    }
    let ghost before = **source;
    let out = source.decode();
    proof {
        lemma_shift_shift(s, r);
        lemma_can_follow_step(**source, before, src0, r);
    }
    out
}

proof fn lemma_next_code_bits(x: u64, b: u8)
    by (bit_vector)
    requires
        x < 0x1_0000_0000,
    ensures
        ((x & 0x00ff_ffff) << 8) | (b as u64) == (x % 0x100_0000) * 256 + b,
        ((x & 0x00ff_ffff) << 8) | (b as u64) < 0x1_0000_0000,
{
}

proof fn lemma_be32_bits(b0: u8, b1: u8, b2: u8, b3: u8)
    by (bit_vector)
    ensures
        ((b0 as u64) << 24) + ((b1 as u64) << 16) + ((b2 as u64) << 8) + (b3 as u64) == b0 * 0x100_0000 + b1
            * 0x1_0000 + b2 * 0x100 + b3,
        ((b0 as u64) << 24) + ((b1 as u64) << 16) + ((b2 as u64) << 8) + (b3 as u64) < 0x1_0000_0000,
{
}

proof fn lemma_rc_decode_post(
    old_d: RCDecoder,
    new_d: RCDecoder,
    src0: SourceDecoder,
    s: spec_fn(nat) -> u8,
    st: RcDecState,
)
    requires
        old_d.model() == st,
        *old_d.source == src0,
        s == src0.src_stream(),
        new_d.model() == rc_dec_step(st, s, 0).1,
        new_d.source.src_stream() == shift(s, rc_dec_step(st, s, 0).2),
        can_follow(*new_d.source, src0, rc_dec_step(st, s, 0).2),
        rc_dec_ok(st),
    ensures
        new_d.spec_stream() == shift(old_d.spec_stream(), 1),
        old_d.spec_stream()(0) == rc_dec_step(st, s, 0).0,
        forall|n: nat| #[trigger] new_d.spec_can_produce(n) <== old_d.spec_can_produce(n + 1),
{
    let (o, st1, k) = rc_dec_step(st, s, 0);
    lemma_rc_output_after_step(st, s);
    assert forall|n: nat| old_d.spec_can_produce(n + 1) implies #[trigger] new_d.spec_can_produce(n) by {
        let m = rc_dec_run(st1, shift(s, k), 0, n).1;
        assert(m + k == rc_dec_run(st, s, 0, n + 1).1);
        assert(rc_dec_run(st1, shift(s, k), 0, n).2);
        assert(src0.src_can_produce(m + k) ==> new_d.source.src_can_produce(m));
    }
}

/// Decoder state for range coding.
pub struct RCDecoder<'a> {
    pub source: Box<SourceDecoder<'a>>,
    pub counts: [u8; 256],
    pub ring_buffer: [u8; 255],
    pub ring_buffer_idx: usize,
    pub start: u64,
    pub width: u64,
    pub x: u64,
}

impl<'a> RCDecoder<'a> {
    /// The decoder state apart from the source.
    pub open spec fn model(&self) -> RcDecState {
        RcDecState {
            m: RcModel {
                counts: self.counts@,
                ring: self.ring_buffer@,
                idx: self.ring_buffer_idx as nat,
                start: self.start as nat,
                width: self.width as nat,
            },
            x: self.x as nat,
        }
    }

    pub open spec fn wf(&self) -> bool
        decreases self,
    {
        self.source.wf()
    }

    /// The bytes this decoder produces from now on.
    pub open spec fn spec_stream(&self) -> spec_fn(nat) -> u8
        decreases self,
    {
        rc_dec_output(self.model(), self.source.src_stream())
    }

    /// The next `n` bytes can be decoded when every step is valid and the source can produce
    /// the bytes they read.
    pub open spec fn spec_can_produce(&self, n: nat) -> bool
        decreases self,
    {
        let r = rc_dec_run(self.model(), self.source.src_stream(), 0, n);
        r.2 && self.source.src_can_produce(r.1)
    }

    pub proof fn lemma_can_produce_monotone(&self, a: nat, b: nat)
        requires
            a <= b,
            self.wf(),
            self.spec_can_produce(b),
        ensures
            self.spec_can_produce(a),
        decreases self,
    {
        let s = self.source.src_stream();
        lemma_rc_run_monotone(self.model(), s, 0, a, b);
        self.source.lemma_can_produce_monotone(rc_dec_run(self.model(), s, 0, a).1, rc_dec_run(self.model(), s, 0, b).1);
    }

    /// A decoder of the range code produced by `source`: reads the ring buffer initialization
    /// and the first four code bytes.
    #[verifier::rlimit(50)]
    pub fn new(source: Box<SourceDecoder<'a>>) -> (out: RCDecoder<'a>)
        requires
            source.wf(),
            source.src_can_produce(8),
        ensures
            out.wf(),
            out.model() == rc_dec_initial(source.src_stream()),
            out.source.src_stream() == shift(source.src_stream(), 8),
            can_follow(*out.source, *source, 8),
            out.source.depth() == source.depth(),
            out.spec_stream() == rc_dec_output(rc_dec_initial(source.src_stream()), shift(source.src_stream(), 8)),
    {
        let ghost src0 = *source;
        let ghost s = src0.src_stream();
        let mut source = source;
        proof {
            assert(shift(s, 0) =~= s);
            assert(can_follow(*source, src0, 0));
        }
        let b0 = next_byte(&mut source, Ghost(src0), Ghost(s), Ghost(8), Ghost(0));
        let b1 = next_byte(&mut source, Ghost(src0), Ghost(s), Ghost(8), Ghost(1));
        let b2 = next_byte(&mut source, Ghost(src0), Ghost(s), Ghost(8), Ghost(2));
        let b3 = next_byte(&mut source, Ghost(src0), Ghost(s), Ghost(8), Ghost(3));
        let ring_buffer_init: [u8; 4] = [b0, b1, b2, b3];
        let (counts, ring_buffer) = initial_tables(&ring_buffer_init);
        let x0 = next_byte(&mut source, Ghost(src0), Ghost(s), Ghost(8), Ghost(4));
        let x1 = next_byte(&mut source, Ghost(src0), Ghost(s), Ghost(8), Ghost(5));
        let x2 = next_byte(&mut source, Ghost(src0), Ghost(s), Ghost(8), Ghost(6));
        let x3 = next_byte(&mut source, Ghost(src0), Ghost(s), Ghost(8), Ghost(7));
        proof {
            lemma_be32_bits(x0, x1, x2, x3);
        }
        let x = ((x0 as u64) << 24) + ((x1 as u64) << 16) + ((x2 as u64) << 8) + (x3 as u64);
        let out = RCDecoder {
            source,
            counts,
            ring_buffer,
            ring_buffer_idx: 0,
            start: 0,
            width: 0x1_0000_0000,
            x,
        };
        proof {
            assert(ring_buffer_init@ =~= seq![s(0), s(1), s(2), s(3)]);
            assert(out.model().m == rc_initial(seq![s(0), s(1), s(2), s(3)]));
        }
        out
    }

    /// Shifts the settled leading byte out of the range, and reads byte `r` of the source
    /// stream `s` into the code.
    fn adjust_range(
        &mut self,
        Ghost(src0): Ghost<SourceDecoder<'a>>,
        Ghost(s): Ghost<spec_fn(nat) -> u8>,
        Ghost(k): Ghost<nat>,
        Ghost(r): Ghost<nat>,
    )
        requires
            old(self).wf(),
            old(self).start < 0x1_0000_0000,
            old(self).width <= 0x1_0000_0000,
            old(self).x < 0x1_0000_0000,
            s == src0.src_stream(),
            src0.wf(),
            src0.src_can_produce(k),
            r < k,
            old(self).source.src_stream() == shift(s, r),
            can_follow(*old(self).source, src0, r),
            old(self).source.depth() == src0.depth(),
        ensures
            final(self).wf(),
            (final(self).start as nat, final(self).width as nat) == ({
                let (_, s1, w1) = rc_emit(old(self).start as nat, old(self).width as nat);
                (s1, w1)
            }),
            final(self).x as nat == rc_next_code(old(self).x as nat, s(r)),
            final(self).x < 0x1_0000_0000,
            final(self).source.src_stream() == shift(s, r + 1),
            can_follow(*final(self).source, src0, r + 1),
            final(self).source.depth() == src0.depth(),
            final(self).counts == old(self).counts,
            final(self).ring_buffer == old(self).ring_buffer,
            final(self).ring_buffer_idx == old(self).ring_buffer_idx,
        decreases src0.depth() + 1, 1nat,
    {
        proof {
            lemma_emit_bits(self.start, self.width);
        }
        let start_masked = self.start & 0x00ff_ffff;
        let discrepancy = (0xff00_0000 & self.start) + 0x0100_0000 - self.start;

        if discrepancy < self.width {
            // Adjust range from the top
            self.start = start_masked << 8;
            self.width = discrepancy << 8;
        } else {
            // Keep range as-is
            self.start = start_masked << 8;
            self.width = self.width << 8;
        }

        let b = next_byte(&mut self.source, Ghost(src0), Ghost(s), Ghost(k), Ghost(r));
        proof {
            lemma_next_code_bits(self.x, b);
        }
        self.x = (self.x & 0x00ff_ffff) << 8;
        self.x = self.x | b as u64;
    }

    /// The byte whose part of the range holds the code, with the cumulative frequency below it
    /// and its own frequency, both scaled to 32 bits.
    fn find_byte(&self) -> (out: (u8, u64, u64))
        requires
            rc_dec_ok(self.model()),
        ensures
            Some(out.0) == rc_find(self.model().m, self.x as nat, 0),
            out.1 == cum(self.counts@, out.0 as nat) * 0x80_0000,
            out.2 == (self.counts@[out.0 as int] + 1) * 0x80_0000,
    {
        let ghost m = self.model().m;
        let mut out: u8 = 0;
        let mut count_acc: u64 = 0;
        let mut count_inc: u64 = 0;
        let mut byte: usize = 0;
        loop
            invariant
                rc_dec_ok(self.model()),
                m == self.model().m,
                byte < 256,
                rc_find(m, self.x as nat, 0) == rc_find(m, self.x as nat, byte as nat),
                count_acc == cum(self.counts@, byte as nat) * 0x80_0000,
            ensures
                Some(out) == rc_find(m, self.x as nat, 0),
                count_acc == cum(self.counts@, out as nat) * 0x80_0000,
                count_inc == (self.counts@[out as int] + 1) * 0x80_0000,
            decreases 256 - byte,
        {
            proof {
                lemma_cum_monotone(self.counts@, byte as nat, 256);
                lemma_cum_monotone(self.counts@, (byte + 1) as nat, 256);
                lemma_shl23((self.counts@[byte as int] + 1) as u64);
                lemma_narrow_arith(
                    self.width as int,
                    (cum(self.counts@, byte as nat) * 0x80_0000) as int,
                    ((self.counts@[byte as int] + 1) * 0x80_0000) as int,
                );
            }
            count_inc = ((self.counts[byte] as u64) + 1) << 23;
            let threshold = self.start + self.width * (count_acc + count_inc) / 0x1_0000_0000;
            assert(threshold == rc_threshold(m, byte as nat));
            out = byte as u8;
            if self.x < threshold {
                break;
            }
            count_acc = count_acc + count_inc;
            byte = byte + 1;
        }
        (out, count_acc, count_inc)
    }

    /// Decodes the next byte.
    pub fn decode(&mut self) -> (out: u8)
        requires
            old(self).wf(),
            old(self).spec_can_produce(1),
        ensures
            final(self).wf(),
            out == old(self).spec_stream()(0),
            final(self).spec_stream() == shift(old(self).spec_stream(), 1),
            forall|n: nat| #[trigger] final(self).spec_can_produce(n) <== old(self).spec_can_produce(n + 1),
            final(self).source.depth() == old(self).source.depth(),
        decreases old(self).source.depth() + 1, 2nat,
    {
        let ghost s = self.source.src_stream();
        let ghost st = self.model();
        let ghost src0 = *self.source;
        proof {
            reveal_with_fuel(rc_dec_run, 2);
            assert(shift(s, 0) =~= s);
            assert(can_follow(*self.source, src0, 0));
        }
        let ghost k = rc_dec_step(st, s, 0).2;
        let (out, count_acc, count_inc) = self.find_byte();
        proof {
            lemma_narrow(st.m, out);
            lemma_narrow_arith(self.width as int, count_acc as int, count_inc as int);
        }
        self.start = self.start + self.width * count_acc / 0x1_0000_0000;
        self.width = self.width * count_inc / 0x1_0000_0000;
        let ghost s1 = self.start as nat;
        let ghost w1 = self.width as nat;
        assert((s1, w1) == rc_narrow(st.m, out));
        let ghost mut j: nat = 0;
        proof {
            lemma_zero_mask(self.start);
            lemma_zero_mask(self.width);
            assert(rc_adjust(s1, w1, st.x, s, 0, 4).3 == k);
        }
        while (self.start >> 24) == ((self.start + self.width) >> 24) || self.width <= 0xffff
            invariant
                self.wf(),
                s == src0.src_stream(),
                src0.wf(),
                src0.src_can_produce(k),
                j <= 4,
                self.start < 0x1_0000_0000,
                1 <= self.width,
                self.start + self.width <= 0x1_0000_0000,
                self.start & rc_mask(j) == 0,
                self.width & rc_mask(j) == 0,
                self.x < 0x1_0000_0000,
                rc_adjust(s1, w1, st.x, s, 0, 4) == rc_adjust(
                    self.start as nat,
                    self.width as nat,
                    self.x as nat,
                    s,
                    j,
                    (4 - j) as nat,
                ),
                k == rc_adjust(s1, w1, st.x, s, 0, 4).3,
                self.source.src_stream() == shift(s, j),
                can_follow(*self.source, src0, j),
                self.source.depth() == src0.depth(),
                self.counts@ == st.m.counts,
                self.ring_buffer@ == st.m.ring,
                self.ring_buffer_idx == st.m.idx,
                src0.depth() == old(self).source.depth(),
            decreases 4 - j,
        {
            proof {
                lemma_shift24(self.start);
                lemma_shift24((self.start + self.width) as u64);
                if j == 4 {
                    lemma_full_mask(self.start, self.width);
                }
                lemma_emit_step(self.start, self.width, j);
                let (_, a1, b1) = rc_emit(self.start as nat, self.width as nat);
                lemma_rc_adjust_monotone(a1, b1, rc_next_code(self.x as nat, s(j)), s, j + 1, (3 - j) as nat);
            }
            self.adjust_range(Ghost(src0), Ghost(s), Ghost(k), Ghost(j));
            proof {
                j = j + 1;
            }
        }
        proof {
            lemma_shift24(self.start);
            lemma_shift24((self.start + self.width) as u64);
        }

        // Update counts
        update_counts(&mut self.counts, &mut self.ring_buffer, &mut self.ring_buffer_idx, out, Ghost(st.m));
        proof {
            lemma_rc_decode_post(*old(self), *self, src0, s, st);
        }
        out
    }
}

impl<'a> Decoder for RCDecoder<'a> {
    open spec fn stream(&self) -> spec_fn(nat) -> u8 {
        self.spec_stream()
    }

    open spec fn can_produce(&self, n: nat) -> bool {
        self.wf() && self.spec_can_produce(n)
    }

    proof fn lemma_produce_monotone(&self, a: nat, b: nat) {
        self.lemma_can_produce_monotone(a, b);
    }

    fn decode_u8(&mut self) -> (out: u8) {
        self.decode()
    }
}

} // verus!

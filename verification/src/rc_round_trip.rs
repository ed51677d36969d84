//! Decoding the range coding of a byte sequence gives the sequence back.
//!
//! The code bytes, read as a base-256 fraction, lie in every range the coder narrows to: each
//! emitted byte is the settled leading byte of the range, and the final bytes settle the last
//! range. The decoder keeps the same ranges and finds each byte as the one whose part of the
//! range holds the code.
use vstd::prelude::*;
use crate::decoder::{lemma_shift_twice, shift, starts_with};
use crate::deserialize::pow256;
use crate::range_coding::{
    count, cum, lemma_count_bound, lemma_count_update, lemma_cum_monotone, lemma_cum_update,
    lemma_emit_step, lemma_full_mask, lemma_initial_wf, lemma_narrow, lemma_zero_mask, rc_emit,
    rc_flush, rc_mask, rc_narrow, rc_needs_emit, rc_renorm, rc_update, rc_wf, rc_code_byte,
    rc_adjust, rc_find, rc_next_code, rc_threshold, be32, lemma_narrow_arith, RcModel,
    is_top_four, not_chosen, ranks_before, top_four, rc_code_all, rc_initial, rc_sample, rc_encode,
    rc_dec_initial, rc_dec_ok, rc_dec_output, rc_dec_run, rc_dec_step, RcDecState,
};

verus! {

/// Replacing the oldest byte of the ring buffer keeps the counts consistent.
proof fn lemma_update_wf(m: RcModel, b: u8, start: nat, width: nat)
    requires
        rc_wf(m),
        start < 0x1_0000_0000,
        0xffff < width,
        start + width <= 0x1_0000_0000,
    ensures
        rc_wf(rc_update(m, b, start, width)),
{
    let r = m.ring[m.idx as int];
    let m2 = rc_update(m, b, start, width);
    lemma_count_update(m.ring, m.idx as int, if r == 0 { 1u8 } else { 0u8 }, r);
    assert(m.counts[r as int] == count(m.ring, r));
    lemma_count_bound(m.ring.update(m.idx as int, b), b);
    let c0 = m.counts;
    let c1 = c0.update(r as int, (c0[r as int] - 1) as u8);
    lemma_count_update(m.ring, m.idx as int, b, b);
    assert(c1[b as int] == c0[b as int] - if r == b { 1int } else { 0int });
    assert forall|c: u8| #[trigger] m2.counts[c as int] == count(m2.ring, c) by {
        lemma_count_update(m.ring, m.idx as int, b, c);
        assert(c0[c as int] == count(m.ring, c));
    }
    lemma_cum_update(c0, r as int, (c0[r as int] - 1) as u8, 256);
    lemma_cum_update(c1, b as int, (c1[b as int] + 1) as u8, 256);
}

/// Emitting bytes while needed, with the low `8 * k` bits of the range already clear, ends
/// with a range that needs no more, within the remaining `4 - k` bytes.
proof fn lemma_renorm_props(start: nat, width: nat, k: nat)
    requires
        k <= 4,
        start < 0x1_0000_0000,
        1 <= width,
        start + width <= 0x1_0000_0000,
        (start as u64) & rc_mask(k) == 0,
        (width as u64) & rc_mask(k) == 0,
    ensures
        ({
            let (cs, s2, w2) = rc_renorm(start, width, (4 - k) as nat);
            &&& s2 < 0x1_0000_0000
            &&& 0xffff < w2
            &&& s2 + w2 <= 0x1_0000_0000
            &&& !rc_needs_emit(s2, w2)
        }),
    decreases 4 - k,
{
    if k == 4 {
        lemma_full_mask(start as u64, width as u64);
    } else if rc_needs_emit(start, width) {
        lemma_emit_step(start as u64, width as u64, k);
        let (c, s1, w1) = rc_emit(start, width);
        lemma_renorm_props(s1, w1, k + 1);
        assert((4 - k - 1) as nat == (4 - (k + 1)) as nat);
    }
}

/// Coding a byte keeps the coder's invariant.
proof fn lemma_code_byte_wf(m: RcModel, b: u8)
    requires
        rc_wf(m),
    ensures
        rc_wf(rc_code_byte(m, b).1),
{
    lemma_narrow(m, b);
    let (s1, w1) = rc_narrow(m, b);
    lemma_zero_mask(s1 as u64);
    lemma_zero_mask(w1 as u64);
    lemma_renorm_props(s1, w1, 0);
    let (cs, s2, w2) = rc_renorm(s1, w1, 4);
    lemma_update_wf(m, b, s2, w2);
}


/// The big-endian number in the first `n` bytes of `d`.
pub open spec fn digits(d: spec_fn(nat) -> u8, n: nat) -> nat
    decreases n,
{
    if n == 0 {
        0
    } else {
        (digits(d, (n - 1) as nat) * 256 + d((n - 1) as nat)) as nat
    }
}

/// Whether the code `d`, read as a base-256 fraction scaled by `2^32`, lies in the range
/// [`start`, `start + width`): every prefix of at least four bytes does, at its scale.
pub open spec fn in_range(d: spec_fn(nat) -> u8, start: nat, width: nat) -> bool {
    forall|n: nat|
        n >= 4 ==> start * pow256((n - 4) as nat) <= #[trigger] digits(d, n) && digits(d, n) < (start + width)
            * pow256((n - 4) as nat)
}

proof fn lemma_pow256_add(a: nat, b: nat)
    ensures
        pow256(a + b) == pow256(a) * pow256(b),
    decreases a,
{
    if a > 0 {
        lemma_pow256_add((a - 1) as nat, b);
        assert(pow256(a + b) == 256 * pow256((a - 1 + b) as nat));
        assert(pow256(a) == 256 * pow256((a - 1) as nat));
        assert(256 * (pow256((a - 1) as nat) * pow256(b)) == (256 * pow256((a - 1) as nat)) * pow256(b)) by (nonlinear_arith);
    } else {
        assert(pow256(0) == 1);
        assert(a + b == b);
    }
}

proof fn lemma_pow256_small()
    ensures
        pow256(1) == 0x100,
        pow256(3) == 0x100_0000,
        pow256(4) == 0x1_0000_0000,
{
    reveal_with_fuel(pow256, 5);
}

/// Reading past the first byte.
proof fn lemma_digits_shift(d: spec_fn(nat) -> u8, n: nat)
    ensures
        digits(d, n + 1) == d(0) * pow256(n) + digits(shift(d, 1), n),
    decreases n,
{
    if n > 0 {
        lemma_digits_shift(d, (n - 1) as nat);
        assert(((n - 1) as nat) + 1 == n);
        assert(digits(d, n) == d(0) * pow256((n - 1) as nat) + digits(shift(d, 1), (n - 1) as nat));
        assert(shift(d, 1)((n - 1) as nat) == d(n));
        assert(digits(d, n + 1) == digits(d, n) * 256 + d(n));
        assert(pow256(n) == 256 * pow256((n - 1) as nat));
        assert(digits(shift(d, 1), n) == digits(shift(d, 1), (n - 1) as nat) * 256 + shift(d, 1)((n - 1) as nat));
        assert((d(0) * pow256((n - 1) as nat) + digits(shift(d, 1), (n - 1) as nat)) * 256 == d(0) * (256
            * pow256((n - 1) as nat)) + digits(shift(d, 1), (n - 1) as nat) * 256) by (nonlinear_arith);
    } else {
        assert(pow256(0) == 1);
        assert(digits(d, 0) == 0);
        assert(digits(shift(d, 1), 0) == 0);
        assert(digits(d, 1) == d(0));
    }
}

proof fn lemma_digits_bound(d: spec_fn(nat) -> u8, n: nat)
    ensures
        digits(d, n) < pow256(n),
    decreases n,
{
    if n > 0 {
        lemma_digits_bound(d, (n - 1) as nat);
        assert(digits(d, (n - 1) as nat) * 256 + d((n - 1) as nat) < 256 * pow256((n - 1) as nat)) by (nonlinear_arith)
            requires
                digits(d, (n - 1) as nat) < pow256((n - 1) as nat),
                d((n - 1) as nat) < 256,
        ;
    }
}

/// Every code lies in the whole range.
proof fn lemma_in_range_full(d: spec_fn(nat) -> u8)
    ensures
        in_range(d, 0, 0x1_0000_0000),
{
    assert forall|n: nat| n >= 4 implies 0 * pow256((n - 4) as nat) <= #[trigger] digits(d, n) && digits(d, n) < (0
        + 0x1_0000_0000) * pow256((n - 4) as nat) by {
        lemma_digits_bound(d, n);
        lemma_pow256_add(4, (n - 4) as nat);
        lemma_pow256_small();
    }
}

/// A code in a part of a range is in the range.
proof fn lemma_in_range_narrow(d: spec_fn(nat) -> u8, start: nat, width: nat, s: nat, w: nat)
    requires
        in_range(d, s, w),
        start <= s,
        s + w <= start + width,
    ensures
        in_range(d, start, width),
{
    assert forall|n: nat| n >= 4 implies start * pow256((n - 4) as nat) <= #[trigger] digits(d, n) && digits(d, n) < (
    start + width) * pow256((n - 4) as nat) by {
        let p = pow256((n - 4) as nat);
        assert(start * p <= s * p && (s + w) * p <= (start + width) * p) by (nonlinear_arith)
            requires
                start <= s,
                s + w <= start + width,
                p >= 0,
        ;
    }
}

/// A code whose first byte is the settled leading byte of a range, and whose rest lies in the
/// range with that byte shifted out, lies in the range.
proof fn lemma_in_range_emit(d: spec_fn(nat) -> u8, start: nat, width: nat)
    requires
        start < 0x1_0000_0000,
        1 <= width,
        start + width <= 0x1_0000_0000,
        d(0) == rc_emit(start, width).0,
        in_range(shift(d, 1), rc_emit(start, width).1, rc_emit(start, width).2),
    ensures
        in_range(d, start, width),
{
    let (c, s1, w1) = rc_emit(start, width);
    let low = start % 0x100_0000;
    let room = (0x100_0000 - low) as nat;
    let m: nat = if room < width { room } else { width };
    let d1 = shift(d, 1);
    assert(s1 == low * 256 && w1 == m * 256);
    assert(c as nat == start / 0x100_0000);
    assert(start == (start / 0x100_0000) * 0x100_0000 + low);
    assert forall|n: nat| n >= 4 implies start * pow256((n - 4) as nat) <= #[trigger] digits(d, n) && digits(d, n) < (
    start + width) * pow256((n - 4) as nat) by {
        let p = pow256((n - 4) as nat);
        let v = digits(d1, (n - 1) as nat);
        lemma_digits_shift(d, (n - 1) as nat);
        assert(digits(d, n) == c * pow256((n - 1) as nat) + v);
        assert(digits(d1, n) == v * 256 + d1((n - 1) as nat));
        assert(s1 * p <= digits(d1, n) && digits(d1, n) < (s1 + w1) * p);
        let e = d1((n - 1) as nat);
        crate::deserialize::lemma_pow256_positive((n - 4) as nat);
        assert(low * p <= v && v < (low + m) * p) by (nonlinear_arith)
            requires
                (low * 256) * p <= v * 256 + e,
                v * 256 + e < (low * 256 + m * 256) * p,
                e < 256,
                p >= 1,
        {
            assert(low * p * 256 <= v * 256 + e);
            if low * p > v {
                assert(low * p >= v + 1);
                assert(low * p * 256 >= v * 256 + 256);
            }
            assert(v * 256 < (low + m) * p * 256);
        }
        lemma_pow256_add(3, (n - 4) as nat);
        lemma_pow256_small();
        crate::deserialize::lemma_pow256_positive((n - 4) as nat);
        assert(pow256((n - 1) as nat) == 0x100_0000 * p);
        assert(start * p <= c * (0x100_0000 * p) + v && c * (0x100_0000 * p) + v < (start + width) * p) by (nonlinear_arith)
            requires
                start == c * 0x100_0000 + low,
                low * p <= v,
                v < (low + m) * p,
                m <= width,
                p >= 1,
        ;
    }
}


proof fn lemma_emit_bounds(start: nat, width: nat)
    requires
        start < 0x1_0000_0000,
        1 <= width,
        start + width <= 0x1_0000_0000,
    ensures
        ({
            let (c, s1, w1) = rc_emit(start, width);
            &&& s1 < 0x1_0000_0000
            &&& 1 <= w1
            &&& s1 + w1 <= 0x1_0000_0000
            &&& c as nat == start / 0x100_0000
        }),
{
}

/// A code that starts with the bytes emitted while renormalizing a range, and continues in the
/// renormalized range, lies in the range.
proof fn lemma_in_range_renorm(d: spec_fn(nat) -> u8, start: nat, width: nat, fuel: nat)
    requires
        start < 0x1_0000_0000,
        1 <= width,
        start + width <= 0x1_0000_0000,
        starts_with(d, rc_renorm(start, width, fuel).0),
        in_range(
            shift(d, rc_renorm(start, width, fuel).0.len()),
            rc_renorm(start, width, fuel).1,
            rc_renorm(start, width, fuel).2,
        ),
    ensures
        in_range(d, start, width),
    decreases fuel,
{
    if fuel == 0 || !rc_needs_emit(start, width) {
        assert(shift(d, 0) =~= d);
    } else {
        let (c, s1, w1) = rc_emit(start, width);
        let (cs, s2, w2) = rc_renorm(s1, w1, (fuel - 1) as nat);
        lemma_emit_bounds(start, width);
        assert(rc_renorm(start, width, fuel).0 == seq![c] + cs);
        assert(d(0) == (seq![c] + cs)[0]);
        let d1 = shift(d, 1);
        assert(starts_with(d1, cs)) by {
            assert forall|i: nat| i < cs.len() implies d1(i) == #[trigger] cs[i as int] by {
                assert(d(i + 1) == (seq![c] + cs)[(i + 1) as int]);
            }
        }
        lemma_shift_twice(d, 1, cs.len());
        lemma_in_range_renorm(d1, s1, w1, (fuel - 1) as nat);
        lemma_in_range_emit(d, start, width);
    }
}

/// A code that starts with the bytes that settle a range lies in the range.
proof fn lemma_in_range_flush(d: spec_fn(nat) -> u8, start: nat, width: nat, k: nat)
    requires
        k <= 4,
        start < 0x1_0000_0000,
        1 <= width,
        start + width <= 0x1_0000_0000,
        (start as u64) & rc_mask(k) == 0,
        (width as u64) & rc_mask(k) == 0,
        starts_with(d, rc_flush(start, width, (4 - k) as nat)),
    ensures
        in_range(d, start, width),
    decreases 4 - k,
{
    if width >= 0x1_0000_0000 {
        lemma_in_range_full(d);
    } else if k == 4 {
        lemma_full_mask(start as u64, width as u64);
    } else {
        lemma_emit_step(start as u64, width as u64, k);
        let (c, s1, w1) = rc_emit(start, width);
        let rest = rc_flush(s1, w1, (4 - k - 1) as nat);
        assert(rc_flush(start, width, (4 - k) as nat) == seq![c] + rest);
        assert(d(0) == (seq![c] + rest)[0]);
        let d1 = shift(d, 1);
        assert(starts_with(d1, rest)) by {
            assert forall|i: nat| i < rest.len() implies d1(i) == #[trigger] rest[i as int] by {
                assert(d(i + 1) == (seq![c] + rest)[(i + 1) as int]);
            }
        }
        assert((4 - k - 1) as nat == (4 - (k + 1)) as nat);
        lemma_in_range_flush(d1, s1, w1, k + 1);
        lemma_in_range_emit(d, start, width);
    }
}

/// Dividing sums: the parts' quotients add up to at most the sum's.
proof fn lemma_div_add(a: int, c: int)
    requires
        0 <= a,
        0 <= c,
    ensures
        a / 0x1_0000_0000 + c / 0x1_0000_0000 <= (a + c) / 0x1_0000_0000,
{
    let d = 0x1_0000_0000int;
    vstd::arithmetic::div_mod::lemma_fundamental_div_mod(a, d);
    vstd::arithmetic::div_mod::lemma_fundamental_div_mod(c, d);
    vstd::arithmetic::div_mod::lemma_fundamental_div_mod(a + c, d);
    let qa = a / d;
    let qc = c / d;
    let q = (a + c) / d;
    assert(qa + qc <= q) by (nonlinear_arith)
        requires
            a == d * qa + a % d,
            c == d * qc + c % d,
            a + c == d * q + (a + c) % d,
            0 <= a % d < d,
            0 <= c % d < d,
            0 <= (a + c) % d < d,
            d > 0,
    {
        if qa + qc > q {
            assert(d * (qa + qc) >= d * (q + 1));
        }
    }
}

/// Searching from byte `j` finds byte `b` when the code lies in the part of the range for `b`.
proof fn lemma_find_from(m: RcModel, x: nat, b: u8, j: nat)
    requires
        rc_wf(m),
        j <= b,
        rc_narrow(m, b).0 <= x < rc_narrow(m, b).0 + rc_narrow(m, b).1,
    ensures
        rc_find(m, x, j) == Some(b),
    decreases b - j,
{
    let w = m.width as int;
    let lo = (cum(m.counts, b as nat) * 0x80_0000) as int;
    let inc = ((m.counts[b as int] + 1) * 0x80_0000) as int;
    if j < b {
        lemma_cum_monotone(m.counts, j + 1, b as nat);
        let lj = (cum(m.counts, j + 1) * 0x80_0000) as int;
        assert(w * lj <= w * lo) by (nonlinear_arith)
            requires
                lj <= lo,
                w >= 0,
        ;
        vstd::arithmetic::div_mod::lemma_div_is_ordered(w * lj, w * lo, 0x1_0000_0000);
        assert(x >= rc_threshold(m, j));
        lemma_find_from(m, x, b, j + 1);
    } else {
        assert(cum(m.counts, b as nat + 1) == cum(m.counts, b as nat) + m.counts[b as int] + 1);
        assert(w * (lo + inc) == w * lo + w * inc) by (nonlinear_arith);
        assert(w * lo >= 0 && w * inc >= 0) by (nonlinear_arith)
            requires
                w >= 0,
                lo >= 0,
                inc >= 0,
        ;
        lemma_div_add(w * lo, w * inc);
        assert((cum(m.counts, b as nat + 1) * 0x80_0000) as int == lo + inc);
        assert(x < rc_threshold(m, b as nat));
    }
}

/// Shifting the next code byte in moves the 32-bit window one byte on.
proof fn lemma_be32_next(t: spec_fn(nat) -> u8)
    ensures
        rc_next_code(be32(t), t(4)) == be32(shift(t, 1)),
{
    let a = t(0) as int;
    let b = t(1) as int;
    let c = t(2) as int;
    let e = t(3) as int;
    let f = t(4) as int;
    let low = b * 0x1_0000 + c * 0x100 + e;
    assert(0 <= low < 0x100_0000);
    assert(be32(t) == a * 0x100_0000 + low);
    vstd::arithmetic::div_mod::lemma_mod_multiples_vanish(a, low, 0x100_0000);
    vstd::arithmetic::div_mod::lemma_small_mod(low as nat, 0x100_0000);
    assert(shift(t, 1)(0) == t(1) && shift(t, 1)(1) == t(2) && shift(t, 1)(2) == t(3) && shift(t, 1)(3) == t(4));
}

/// The decoder's renormalization follows the coder's, reading one code byte for each byte the
/// coder emitted.
proof fn lemma_adjust(start: nat, width: nat, fuel: nat, c: spec_fn(nat) -> u8, k: nat)
    ensures
        rc_adjust(start, width, be32(shift(c, k)), shift(c, 4), k, fuel) == (
            rc_renorm(start, width, fuel).1,
            rc_renorm(start, width, fuel).2,
            be32(shift(c, k + rc_renorm(start, width, fuel).0.len())),
            k + rc_renorm(start, width, fuel).0.len(),
        ),
    decreases fuel,
{
    if fuel == 0 || !rc_needs_emit(start, width) {
    } else {
        let (_, s1, w1) = rc_emit(start, width);
        lemma_be32_next(shift(c, k));
        assert(shift(c, 4)(k) == shift(c, k)(4));
        lemma_shift_twice(c, k, 1);
        lemma_adjust(s1, w1, (fuel - 1) as nat, c, k + 1);
        assert(k + 1 + rc_renorm(s1, w1, (fuel - 1) as nat).0.len() == k + rc_renorm(start, width, fuel).0.len());
    }
}


/// The byte below `n`, none of the first `j` entries of `chosen`, that ranks first in `data`.
pub open spec fn best_below(data: Seq<u8>, chosen: Seq<u8>, j: int, n: nat) -> Option<u8>
    decreases n,
{
    if n == 0 {
        None
    } else {
        let c = (n - 1) as u8;
        let prev = best_below(data, chosen, j, (n - 1) as nat);
        if !not_chosen(chosen, j, c) {
            prev
        } else {
            match prev {
                None => Some(c),
                Some(p) => if ranks_before(data, c, p) {
                    Some(c)
                } else {
                    Some(p)
                },
            }
        }
    }
}

proof fn lemma_best_below(data: Seq<u8>, chosen: Seq<u8>, j: int, n: nat)
    requires
        n <= 256,
    ensures
        best_below(data, chosen, j, n) matches Some(b) ==> {
            &&& not_chosen(chosen, j, b)
            &&& (b as nat) < n
            &&& forall|c: u8| (c as nat) < n && #[trigger] not_chosen(chosen, j, c) ==> c == b || ranks_before(data, b, c)
        },
        (exists|c: u8| (c as nat) < n && #[trigger] not_chosen(chosen, j, c)) ==> best_below(data, chosen, j, n) is Some,
    decreases n,
{
    if n > 0 {
        lemma_best_below(data, chosen, j, (n - 1) as nat);
        let c = (n - 1) as u8;
        assert(c as nat == n - 1);
        if exists|c2: u8| (c2 as nat) < n && #[trigger] not_chosen(chosen, j, c2) {
            let c2 = choose|c2: u8| (c2 as nat) < n && #[trigger] not_chosen(chosen, j, c2);
            if c2 as nat != n - 1 {
                assert((c2 as nat) < n - 1);
            }
        }
    }
}

/// The four bytes chosen one after the other, each the best of those not chosen before.
pub open spec fn pick(data: Seq<u8>, k: nat) -> Seq<u8>
    decreases k,
{
    if k == 0 {
        seq![]
    } else {
        let prev = pick(data, (k - 1) as nat);
        prev.push(best_below(data, prev, (k - 1) as int, 256).unwrap())
    }
}

proof fn lemma_pick(data: Seq<u8>, k: nat)
    requires
        k <= 4,
    ensures
        pick(data, k).len() == k,
        forall|j: int| 0 <= j < k ==> not_chosen(pick(data, k), j, #[trigger] pick(data, k)[j]),
        forall|j: int, c: u8|
            0 <= j < k && #[trigger] not_chosen(pick(data, k), j, c) ==> c == pick(data, k)[j] || ranks_before(
                data,
                pick(data, k)[j],
                c,
            ),
    decreases k,
{
    if k > 0 {
        let prev = pick(data, (k - 1) as nat);
        lemma_pick(data, (k - 1) as nat);
        let r = pick(data, k);
        // Some byte is not among the (at most three) bytes picked before.
        let free: u8 = if !prev.contains(0u8) {
            0u8
        } else if !prev.contains(1u8) {
            1u8
        } else if !prev.contains(2u8) {
            2u8
        } else {
            3u8
        };
        assert(not_chosen(prev, (k - 1) as int, free)) by {
            if !not_chosen(prev, (k - 1) as int, free) {
                let i = choose|i: int| 0 <= i < k - 1 && free == #[trigger] prev[i];
                assert(prev.contains(prev[i]));
                if free == 3 {
                    assert(prev.contains(0u8) && prev.contains(1u8) && prev.contains(2u8) && prev.contains(3u8));
                    let i0 = choose|i0: int| 0 <= i0 < prev.len() && prev[i0] == 0u8;
                    let i1 = choose|i1: int| 0 <= i1 < prev.len() && prev[i1] == 1u8;
                    let i2 = choose|i2: int| 0 <= i2 < prev.len() && prev[i2] == 2u8;
                    let i3 = choose|i3: int| 0 <= i3 < prev.len() && prev[i3] == 3u8;
                    assert(i0 != i1 && i0 != i2 && i0 != i3 && i1 != i2 && i1 != i3 && i2 != i3);
                }
            }
        }
        lemma_best_below(data, prev, (k - 1) as int, 256);
        assert((free as nat) < 256);
        let b = best_below(data, prev, (k - 1) as int, 256).unwrap();
        assert forall|j: int, c: u8| 0 <= j < k implies #[trigger] not_chosen(r, j, c) == not_chosen(prev, j, c) by {
            if 0 <= j < k {
                assert forall|i: int| 0 <= i < j implies r[i] == prev[i] by {}
            }
        }
        assert forall|j: int| 0 <= j < k implies not_chosen(r, j, #[trigger] r[j]) by {
            if j < k - 1 {
                assert(r[j] == prev[j]);
            }
        }
        assert forall|j: int, c: u8|
            0 <= j < k && #[trigger] not_chosen(r, j, c) implies c == r[j] || ranks_before(data, r[j], c) by {
            if j < k - 1 {
                assert(r[j] == prev[j]);
            } else {
                assert((c as nat) < 256);
            }
        }
    }
}

/// The four most frequent bytes exist.
proof fn lemma_top_four_exists(data: Seq<u8>)
    ensures
        is_top_four(data, top_four(data)),
{
    lemma_pick(data, 4);
    assert(is_top_four(data, pick(data, 4)));
}


/// The codes emitted for the first `i` bytes of `data`.
pub open spec fn codes_upto(m0: RcModel, data: Seq<u8>, i: nat) -> Seq<u8> {
    rc_code_all(m0, data.take(i as int)).0
}

/// The coder's state after the first `i` bytes of `data`.
pub open spec fn model_upto(m0: RcModel, data: Seq<u8>, i: nat) -> RcModel {
    rc_code_all(m0, data.take(i as int)).1
}

proof fn lemma_trace_step(m0: RcModel, data: Seq<u8>, i: nat)
    requires
        i < data.len(),
    ensures
        codes_upto(m0, data, i + 1) == codes_upto(m0, data, i) + rc_code_byte(model_upto(m0, data, i), data[i as int]).0,
        model_upto(m0, data, i + 1) == rc_code_byte(model_upto(m0, data, i), data[i as int]).1,
{
    assert(data.take((i + 1) as int).drop_last() =~= data.take(i as int));
    assert(data.take((i + 1) as int).last() == data[i as int]);
}

proof fn lemma_trace_wf(m0: RcModel, data: Seq<u8>, i: nat)
    requires
        rc_wf(m0),
        i <= data.len(),
    ensures
        rc_wf(model_upto(m0, data, i)),
    decreases i,
{
    if i == 0 {
        assert(data.take(0) =~= Seq::<u8>::empty());
    } else {
        lemma_trace_wf(m0, data, (i - 1) as nat);
        lemma_trace_step(m0, data, (i - 1) as nat);
        lemma_code_byte_wf(model_upto(m0, data, (i - 1) as nat), data[i - 1]);
    }
}

/// The codes emitted for a prefix of the data start the codes of a longer prefix.
proof fn lemma_trace_prefix(m0: RcModel, data: Seq<u8>, i: nat, j: nat)
    requires
        i <= j <= data.len(),
    ensures
        codes_upto(m0, data, i).len() <= codes_upto(m0, data, j).len(),
        forall|k: int| 0 <= k < codes_upto(m0, data, i).len() ==> #[trigger] codes_upto(m0, data, j)[k]
            == codes_upto(m0, data, i)[k],
    decreases j,
{
    if i < j {
        lemma_trace_prefix(m0, data, i, (j - 1) as nat);
        lemma_trace_step(m0, data, (j - 1) as nat);
    }
}

/// Every range the coder narrows to holds the code it writes, whatever follows the code.
proof fn lemma_trace_in_range(m0: RcModel, data: Seq<u8>, c: spec_fn(nat) -> u8, i: nat)
    requires
        rc_wf(m0),
        i <= data.len(),
        starts_with(
            c,
            codes_upto(m0, data, data.len()) + rc_flush(
                model_upto(m0, data, data.len()).start,
                model_upto(m0, data, data.len()).width,
                4,
            ),
        ),
    ensures
        in_range(
            shift(c, codes_upto(m0, data, i).len()),
            model_upto(m0, data, i).start,
            model_upto(m0, data, i).width,
        ),
        i < data.len() ==> in_range(
            shift(c, codes_upto(m0, data, i).len()),
            rc_narrow(model_upto(m0, data, i), data[i as int]).0,
            rc_narrow(model_upto(m0, data, i), data[i as int]).1,
        ),
    decreases data.len() - i,
{
    let n = data.len();
    let all = codes_upto(m0, data, n);
    let m = model_upto(m0, data, i);
    let e = codes_upto(m0, data, i);
    let d = shift(c, e.len());
    lemma_trace_wf(m0, data, i);
    lemma_trace_prefix(m0, data, i, n);
    if i == n {
        let f = rc_flush(m.start, m.width, 4);
        assert(starts_with(d, f)) by {
            assert forall|k: nat| k < f.len() implies d(k) == #[trigger] f[k as int] by {
                assert(c(e.len() + k) == (all + f)[(e.len() + k) as int]);
            }
        }
        lemma_zero_mask(m.start as u64);
        lemma_zero_mask(m.width as u64);
        lemma_in_range_flush(d, m.start, m.width, 0);
    } else {
        lemma_trace_in_range(m0, data, c, i + 1);
        lemma_trace_step(m0, data, i);
        lemma_trace_prefix(m0, data, i + 1, n);
        let b = data[i as int];
        let (s1, w1) = rc_narrow(m, b);
        let (cs, s2, w2) = rc_renorm(s1, w1, 4);
        lemma_narrow(m, b);
        assert(starts_with(d, cs)) by {
            assert forall|k: nat| k < cs.len() implies d(k) == #[trigger] cs[k as int] by {
                let e2 = codes_upto(m0, data, i + 1);
                assert(e2 == e + cs);
                assert(e2[(e.len() + k) as int] == cs[k as int]);
                assert(all[(e.len() + k) as int] == e2[(e.len() + k) as int]);
                assert(c(e.len() + k) == (all + rc_flush(
                    model_upto(m0, data, n).start,
                    model_upto(m0, data, n).width,
                    4,
                ))[(e.len() + k) as int]);
            }
        }
        lemma_shift_twice(c, e.len(), cs.len());
        lemma_in_range_renorm(d, s1, w1, 4);
        let lo = (cum(m.counts, b as nat) * 0x80_0000) as int;
        let inc = ((m.counts[b as int] + 1) * 0x80_0000) as int;
        lemma_narrow_arith(m.width as int, lo, inc);
        lemma_in_range_narrow(d, m.start, m.width, s1, w1);
    }
}

proof fn lemma_rc_run_add(st: RcDecState, s: spec_fn(nat) -> u8, pos: nat, a: nat)
    ensures
        rc_dec_run(st, s, pos, a + 1).0 == rc_dec_step(rc_dec_run(st, s, pos, a).0, s, rc_dec_run(st, s, pos, a).1).1,
        rc_dec_run(st, s, pos, a + 1).1 == rc_dec_step(rc_dec_run(st, s, pos, a).0, s, rc_dec_run(st, s, pos, a).1).2,
        rc_dec_run(st, s, pos, a + 1).2 == (rc_dec_run(st, s, pos, a).2 && rc_dec_ok(rc_dec_run(st, s, pos, a).0)),
    decreases a,
{
    let (_, st1, pos1) = rc_dec_step(st, s, pos);
    assert(rc_dec_run(st, s, pos, a + 1).0 == rc_dec_run(st1, s, pos1, a).0);
    assert(rc_dec_run(st, s, pos, a + 1).1 == rc_dec_run(st1, s, pos1, a).1);
    if a > 0 {
        lemma_rc_run_add(st1, s, pos1, (a - 1) as nat);
        assert(((a - 1) as nat + 1) == a);
        assert(rc_dec_run(st, s, pos, a).0 == rc_dec_run(st1, s, pos1, (a - 1) as nat).0);
        assert(rc_dec_run(st, s, pos, a).1 == rc_dec_run(st1, s, pos1, (a - 1) as nat).1);
        assert(rc_dec_run(st, s, pos, a).2 == (rc_dec_run(st1, s, pos1, (a - 1) as nat).2 && rc_dec_ok(st)));
    } else {
        assert(rc_dec_run(st1, s, pos1, 0) == (st1, pos1, true));
        assert(rc_dec_run(st, s, pos, 0) == (st, pos, true));
    }
}

/// The code window the decoder holds before byte `i` lies in the part of the coder's range for
/// that byte, so the decoder finds it.
proof fn lemma_step_finds(data: Seq<u8>, src: spec_fn(nat) -> u8, i: nat)
    requires
        i < data.len(),
        starts_with(src, rc_encode(data)),
    ensures
        ({
            let m0 = rc_initial(top_four(rc_sample(data)));
            let c = shift(src, 4);
            let k = codes_upto(m0, data, i).len();
            &&& rc_find(model_upto(m0, data, i), be32(shift(c, k)), 0) == Some(data[i as int])
            &&& rc_wf(model_upto(m0, data, i))
            &&& rc_wf(m0)
        }),
{
    let init = top_four(rc_sample(data));
    let m0 = rc_initial(init);
    let c = shift(src, 4);
    let n = data.len();
    let enc = rc_encode(data);
    lemma_top_four_exists(rc_sample(data));
    lemma_initial_wf(init);
    let tail = codes_upto(m0, data, n) + rc_flush(model_upto(m0, data, n).start, model_upto(m0, data, n).width, 4);
    assert(enc == init + tail) by {
        assert(data.take(n as int) =~= data);
        assert(init + codes_upto(m0, data, n) + rc_flush(model_upto(m0, data, n).start, model_upto(m0, data, n).width, 4) =~= init + tail);
    }
    assert(starts_with(c, tail)) by {
        assert forall|q: nat| q < tail.len() implies c(q) == #[trigger] tail[q as int] by {
            assert(src(q + 4) == enc[(q + 4) as int]);
        }
    }
    lemma_trace_in_range(m0, data, c, i);
    lemma_trace_wf(m0, data, i);
    let m = model_upto(m0, data, i);
    let k = codes_upto(m0, data, i).len();
    let d = shift(c, k);
    let (s1, w1) = rc_narrow(m, data[i as int]);
    assert(digits(d, 4) == be32(d)) by {
        reveal_with_fuel(digits, 5);
    }
    assert(pow256(0) == 1);
    assert(s1 * pow256(0) <= digits(d, 4) && digits(d, 4) < (s1 + w1) * pow256(0));
    lemma_find_from(m, be32(d), data[i as int], 0);
}

/// After `i` steps, the decoder holds the coder's state after the first `i` bytes and the
/// window of the code at the bytes the coder had emitted by then.
proof fn lemma_decoder_trace(data: Seq<u8>, src: spec_fn(nat) -> u8, i: nat)
    requires
        i <= data.len(),
        starts_with(src, rc_encode(data)),
    ensures
        ({
            let init = top_four(rc_sample(data));
            let m0 = rc_initial(init);
            let c = shift(src, 4);
            let r = rc_dec_run(rc_dec_initial(src), shift(src, 8), 0, i);
            &&& r.0 == RcDecState { m: model_upto(m0, data, i), x: be32(shift(c, codes_upto(m0, data, i).len())) }
            &&& r.1 == codes_upto(m0, data, i).len()
        }),
    decreases i,
{
    let init = top_four(rc_sample(data));
    let m0 = rc_initial(init);
    let c = shift(src, 4);
    let n = data.len();
    let enc = rc_encode(data);
    lemma_top_four_exists(rc_sample(data));
    lemma_initial_wf(init);
    assert(enc == init + codes_upto(m0, data, n) + rc_flush(model_upto(m0, data, n).start, model_upto(m0, data, n).width, 4)) by {
        assert(data.take(n as int) =~= data);
    }
    if i == 0 {
        assert(seq![src(0), src(1), src(2), src(3)] =~= init) by {
            assert(src(0) == enc[0] && src(1) == enc[1] && src(2) == enc[2] && src(3) == enc[3]);
        }
        assert(data.take(0) =~= Seq::<u8>::empty());
        assert(shift(c, 0) =~= shift(src, 4));
    } else {
        let j = (i - 1) as nat;
        lemma_decoder_trace(data, src, j);
        lemma_rc_run_add(rc_dec_initial(src), shift(src, 8), 0, j);
        let m = model_upto(m0, data, j);
        let k = codes_upto(m0, data, j).len();
        let b = data[j as int];
        lemma_step_finds(data, src, j);
        let (s1, w1) = rc_narrow(m, b);
        lemma_adjust(s1, w1, 4, c, k);
        assert(shift(c, 4) =~= shift(src, 8));
        lemma_trace_step(m0, data, j);
    }
}

/// Every decoding step over the coding of `data`, up to its length, is valid.
proof fn lemma_decoder_steps_valid(data: Seq<u8>, src: spec_fn(nat) -> u8, i: nat)
    requires
        i <= data.len(),
        starts_with(src, rc_encode(data)),
    ensures
        rc_dec_run(rc_dec_initial(src), shift(src, 8), 0, i).2,
    decreases i,
{
    if i > 0 {
        let j = (i - 1) as nat;
        lemma_decoder_steps_valid(data, src, j);
        lemma_rc_run_add(rc_dec_initial(src), shift(src, 8), 0, j);
        lemma_decoder_trace(data, src, j);
        lemma_step_finds(data, src, j);
        let m0 = rc_initial(top_four(rc_sample(data)));
        let d = shift(shift(src, 4), codes_upto(m0, data, j).len());
        lemma_be32_bound(d);
    }
}

/// Four bytes make a number below 2^32.
proof fn lemma_be32_bound(t: spec_fn(nat) -> u8)
    ensures
        be32(t) < 0x1_0000_0000,
{
    let (a, b, c, d) = (t(0) as int, t(1) as int, t(2) as int, t(3) as int);
    assert(a * 0x100_0000 <= 255 * 0x100_0000) by (nonlinear_arith)
        requires
            0 <= a <= 255,
    ;
    assert(b * 0x1_0000 <= 255 * 0x1_0000) by (nonlinear_arith)
        requires
            0 <= b <= 255,
    ;
    assert(c * 0x100 <= 255 * 0x100) by (nonlinear_arith)
        requires
            0 <= c <= 255,
    ;
}

/// Decoding the range coding of non-empty `data`, from any stream that starts with it, gives
/// back `data`.
pub proof fn lemma_rc_round_trip(data: Seq<u8>, src: spec_fn(nat) -> u8)
    requires
        data.len() > 0,
        starts_with(src, rc_encode(data)),
    ensures
        forall|i: nat|
            i < data.len() ==> #[trigger] rc_dec_output(rc_dec_initial(src), shift(src, 8))(i) == data[i as int],
        forall|n: nat| n <= data.len() ==> #[trigger] rc_dec_run(rc_dec_initial(src), shift(src, 8), 0, n).2,
{
    assert forall|n: nat| n <= data.len() implies #[trigger] rc_dec_run(rc_dec_initial(src), shift(src, 8), 0, n).2 by {
        lemma_decoder_steps_valid(data, src, n);
    }
    assert forall|i: nat| i < data.len() implies #[trigger] rc_dec_output(rc_dec_initial(src), shift(src, 8))(i)
        == data[i as int] by {
        lemma_decoder_trace(data, src, i);
        lemma_step_finds(data, src, i);
    }
}

} // verus!

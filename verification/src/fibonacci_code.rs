//! Fibonacci coding of unsigned integers.
//!
//! A value `v` is coded as the Zeckendorf representation of `v + 1` (weights 1, 2, 3, 5, 8, ...,
//! least significant weight first) followed by a terminating `true` bit, so that every code ends
//! in the only pair of adjacent `true` bits it contains.
use vstd::prelude::*;

verus! {

/// The Fibonacci weights used by the code: 1, 2, 3, 5, 8, ...
pub open spec fn fib(n: nat) -> nat
    decreases n,
{
    if n == 0 {
        1
    } else if n == 1 {
        2
    } else {
        fib((n - 1) as nat) + fib((n - 2) as nat)
    }
}

/// The largest index `m >= k` such that `fib(m) <= x`, searching upwards from `k`.
pub open spec fn top_index_from(x: nat, k: nat) -> nat
    decreases x - k,
{
    if k >= x || fib(k + 1) > x {
        k
    } else {
        top_index_from(x, k + 1)
    }
}

/// The index of the largest weight not above `x` (for `x >= 1`).
pub open spec fn top_index(x: nat) -> nat {
    top_index_from(x, 0)
}

/// Greedy (Zeckendorf) digits of `r` for the weights `fib(0) ..= fib(j)`, least significant first.
pub open spec fn greedy(r: nat, j: nat) -> Seq<bool>
    decreases j,
{
    let take = fib(j) <= r;
    let rest: nat = if take {
        (r - fib(j)) as nat
    } else {
        r
    };
    if j == 0 {
        seq![take]
    } else {
        greedy(rest, (j - 1) as nat).push(take)
    }
}

/// The Fibonacci code of `value`.
pub open spec fn fib_code(value: nat) -> Seq<bool> {
    greedy(value + 1, top_index(value + 1)).push(true)
}

/// Whether coding `value` stays within machine integers: the first weight above
/// `value + 1` must fit in a `usize`.
pub open spec fn fib_codable(value: nat) -> bool {
    fib(top_index(value + 1) + 1) <= usize::MAX
}

/// The result of decoding a Fibonacci code from `bits`, starting at position `i` in the state
/// (`f`, `f_prev`, `prev`, `out`) of the decoding loop: the decoded value and the position after
/// the code, or `None` when the bits end, or an intermediate value leaves the `usize` range,
/// before the terminating pair of `true` bits.
pub open spec fn fib_decode_from(
    bits: Seq<bool>,
    i: int,
    f: nat,
    f_prev: nat,
    prev: bool,
    out: nat,
) -> Option<(nat, int)>
    decreases bits.len() - i,
{
    if i < 0 || i >= bits.len() {
        None
    } else {
        let f2 = f + f_prev;
        let bit = bits[i];
        if f2 > usize::MAX {
            None
        } else if bit && prev {
            if out >= 1 {
                Some(((out - 1) as nat, i + 1))
            } else {
                None
            }
        } else if bit && out + f2 > usize::MAX {
            None
        } else {
            fib_decode_from(bits, i + 1, f2, f, bit, if bit { out + f2 } else { out })
        }
    }
}

/// Decoding a Fibonacci code that starts at position `i` of `bits`.
pub open spec fn fib_decode(bits: Seq<bool>, i: int) -> Option<(nat, int)> {
    fib_decode_from(bits, i, 1, 0, false, 0)
}

/// A source of bits read one at a time from a slice.
pub struct BitDecoder<'a> {
    pub bits: &'a [bool],
    pub index: usize,
}

impl<'a> BitDecoder<'a> {
    /// A decoder that reads `bits` from the start.
    pub fn new(bits: &'a [bool]) -> (out: BitDecoder<'a>)
        ensures
            out.bits@ == bits@,
            out.index == 0,
    {
        BitDecoder { bits, index: 0 }
    }

    /// Reads the next bit.
    pub fn decode_bit(&mut self) -> (out: bool)
        requires
            old(self).index < old(self).bits@.len(),
        ensures
            out == old(self).bits@[old(self).index as int],
            final(self).bits@ == old(self).bits@,
            final(self).index == old(self).index + 1,
    {
        let out = self.bits[self.index];
        self.index = self.index + 1;
        out
    }
}

proof fn lemma_fib_monotone(a: nat, b: nat)
    requires
        a <= b,
    ensures
        fib(a) <= fib(b),
        a < b ==> fib(a) < fib(b),
    decreases b - a,
{
    if a < b {
        lemma_fib_monotone(a, (b - 1) as nat);
        if b >= 2 {
            lemma_fib_ge_index((b - 2) as nat);
            assert(fib(b) == fib((b - 1) as nat) + fib((b - 2) as nat));
        } else {
            assert(fib(1) == 2);
        }
    }
}

proof fn lemma_fib_ge_index(n: nat)
    ensures
        fib(n) >= n + 1,
    decreases n,
{
    if n >= 2 {
        lemma_fib_ge_index((n - 1) as nat);
        lemma_fib_ge_index((n - 2) as nat);
    }
}

proof fn lemma_top_index_from(x: nat, k: nat)
    requires
        fib(k) <= x,
    ensures
        top_index_from(x, k) >= k,
        fib(top_index_from(x, k)) <= x,
        x < fib(top_index_from(x, k) + 1),
    decreases x - k,
{
    lemma_fib_ge_index(k + 1);
    if !(k >= x || fib(k + 1) > x) {
        lemma_top_index_from(x, k + 1);
    }
}

/// The index `m` of the largest weight not above `x` satisfies `fib(m) <= x < fib(m + 1)`.
proof fn lemma_top_index(x: nat)
    requires
        x >= 1,
    ensures
        fib(top_index(x)) <= x < fib(top_index(x) + 1),
{
    lemma_top_index_from(x, 0);
}

/// Every value whose double (plus two) fits in a `usize` can be coded: the first weight above
/// `value + 1` is at most twice `value + 1`.
pub proof fn lemma_fib_codable(value: nat)
    requires
        2 * (value + 1) <= usize::MAX,
    ensures
        fib_codable(value),
{
    let x = value + 1;
    let m = top_index(x);
    lemma_top_index(x);
    if m >= 1 {
        lemma_fib_monotone((m - 1) as nat, m);
        assert(fib(m + 1) == fib(m) + fib((m - 1) as nat));
    } else {
        assert(fib(1) == 2);
    }
}

/// Returns the largest two consecutive Fibonacci numbers (1, 1, 2, 3, 5, ...) such that the
/// larger one does not exceed `value` (or `(1, 1)` when `value < 2`).
fn last_fibonacci_numbers_below(value: usize) -> (out: (usize, usize))
    requires
        value >= 1,
        fib(top_index(value as nat) + 1) <= usize::MAX,
    ensures
        out.0 == fib(top_index(value as nat)),
        top_index(value as nat) == 0 ==> out.1 == 1,
        top_index(value as nat) >= 1 ==> out.1 == fib((top_index(value as nat) - 1) as nat),
{
    let ghost m = top_index(value as nat);
    proof {
        lemma_top_index(value as nat);
    }
    let mut f_prev_prev: usize = 1;
    let mut f_prev: usize = 1;
    let mut f: usize = 2;
    let ghost mut k: nat = 0;
    // f_prev == fib(k), f == fib(k + 1)
    while value >= f
        invariant
            fib(m) <= value < fib(m + 1),
            fib(m + 1) <= usize::MAX,
            k <= m,
            f_prev == fib(k),
            f == fib(k + 1),
            k == 0 ==> f_prev_prev == 1,
            k >= 1 ==> f_prev_prev == fib((k - 1) as nat),
        decreases m - k,
    {
        proof {
            if k + 1 > m {
                lemma_fib_monotone(m + 1, k + 1);
            }
            lemma_fib_monotone(k + 2, m + 1);
        }
        f_prev_prev = f_prev;
        f_prev = f;
        f = f_prev + f_prev_prev;
        proof {
            k = k + 1;
        }
    }
    proof {
        if k < m {
            lemma_fib_monotone(k + 1, m);
        }
    }
    (f_prev, f_prev_prev)
}

/// The weight preceding `fib(j)` in the encoder's descending walk (`fib(-1)` counts as 1).
spec fn weight_before(j: int) -> nat {
    if j <= 0 {
        1
    } else {
        fib((j - 1) as nat)
    }
}

/// Encodes `value` as a Fibonacci code.
pub fn encode_fibonacci(value: usize) -> (out: Vec<bool>)
    requires
        value < usize::MAX,
        fib_codable(value as nat),
    ensures
        out@ == fib_code(value as nat),
{
    // 0 cannot be represented as a Fibonacci code, so the
    // value is simply incremented here and decremented in the decoder.
    let mut to_encode = value + 1;
    let ghost m = top_index(to_encode as nat);
    let (mut f, mut f_prev) = last_fibonacci_numbers_below(to_encode);
    let mut pushed: Vec<bool> = Vec::new();
    let ghost mut j: int = m as int;
    proof {
        lemma_top_index(to_encode as nat);
    }
    while f_prev > 0
        invariant
            -1 <= j <= m,
            j >= 0 ==> f == fib(j as nat) && f_prev == weight_before(j),
            j == -1 ==> f == 1 && f_prev == 0,
            j >= 0 ==> to_encode < fib((j + 1) as nat),
            j == -1 ==> to_encode == 0,
            greedy((value + 1) as nat, m) == (if j >= 0 {
                greedy(to_encode as nat, j as nat)
            } else {
                Seq::<bool>::empty()
            }) + pushed@.reverse(),
        decreases j + 1,
    {
        let ghost r = to_encode as nat;
        let take = f <= to_encode;
        if take {
            to_encode = to_encode - f;
        }
        pushed.push(take);
        proof {
            if j >= 2 {
                lemma_fib_monotone((j - 1) as nat, j as nat);
                assert(fib(j as nat) == fib((j - 1) as nat) + fib((j - 2) as nat));
            } else if j == 1 {
                assert(fib(1) == 2 && fib(0) == 1);
            }
        }
        let f_prev_prev = f - f_prev;
        f = f_prev;
        f_prev = f_prev_prev;
        proof {
            let ghost old_pushed = pushed@.drop_last();
            assert(pushed@.reverse() =~= seq![take] + old_pushed.reverse());
            if j >= 1 {
                assert(greedy(r, j as nat) == greedy(to_encode as nat, (j - 1) as nat).push(take));
                assert(greedy(to_encode as nat, (j - 1) as nat).push(take) + old_pushed.reverse()
                    =~= greedy(to_encode as nat, (j - 1) as nat) + (seq![take] + old_pushed.reverse()));
                if j >= 2 {
                    assert(fib(j as nat) == fib((j - 1) as nat) + fib((j - 2) as nat));
                } else {
                    assert(fib(1) == 2 && fib(0) == 1);
                }
            } else {
                assert(greedy(r, 0) == seq![take]);
                assert(fib(0) == 1 && fib(1) == 2);
                assert(Seq::<bool>::empty() + (seq![take] + old_pushed.reverse())
                    =~= seq![take] + old_pushed.reverse());
                assert(seq![take] + old_pushed.reverse() =~= greedy(r, 0) + old_pushed.reverse());
            }
            j = j - 1;
        }
    }
    // Emit the digits least significant first, followed by the terminating bit.
    let mut out: Vec<bool> = Vec::new();
    let mut i: usize = pushed.len();
    while i > 0
        invariant
            i <= pushed@.len(),
            out@ == pushed@.subrange(i as int, pushed@.len() as int).reverse(),
        decreases i,
    {
        i = i - 1;
        out.push(pushed[i]);
        proof {
            assert(pushed@.subrange(i as int, pushed@.len() as int).reverse() =~= pushed@.subrange(
                (i + 1) as int,
                pushed@.len() as int,
            ).reverse().push(pushed@[i as int]));
        }
    }
    out.push(true);
    proof {
        assert(pushed@.subrange(0, pushed@.len() as int) =~= pushed@);
        assert(Seq::<bool>::empty() + pushed@.reverse() =~= pushed@.reverse());
    }
    out
}

/// Decodes the Fibonacci code at the decoder's position.
pub fn decode_fibonacci(decoder: &mut BitDecoder) -> (out: usize)
    requires
        fib_decode(old(decoder).bits@, old(decoder).index as int) is Some,
    ensures
        final(decoder).bits@ == old(decoder).bits@,
        fib_decode(old(decoder).bits@, old(decoder).index as int) == Some(
            (out as nat, final(decoder).index as int),
        ),
{
    let ghost result = fib_decode(decoder.bits@, decoder.index as int);
    let mut f_prev: usize = 0;
    let mut f: usize = 1;
    let mut prev_bit = false;
    let mut out: usize = 0;
    loop
        invariant
            decoder.bits@ == old(decoder).bits@,
            result == fib_decode(old(decoder).bits@, old(decoder).index as int),
            result is Some,
            result == fib_decode_from(
                decoder.bits@,
                decoder.index as int,
                f as nat,
                f_prev as nat,
                prev_bit,
                out as nat,
            ),
        decreases decoder.bits@.len() - decoder.index,
    {
        assert(decoder.index < decoder.bits@.len());
        let f_new = f + f_prev;
        f_prev = f;
        f = f_new;
        let bit = decoder.decode_bit();
        if bit {
            if prev_bit {
                // The value has been incremented during encoding,
                // so it has to be decremented here. This is required
                // to encode a 0.
                return out - 1;
            }
            out = out + f;
        }
        prev_bit = bit;
    }
}

/// The value of the first `n` digits of `bits` under the weights `fib(0), fib(1), ...`.
pub open spec fn weighted_sum(bits: Seq<bool>, n: nat) -> nat
    decreases n,
{
    if n == 0 {
        0
    } else {
        weighted_sum(bits, (n - 1) as nat) + if bits[n - 1] {
            fib((n - 1) as nat)
        } else {
            0
        }
    }
}

proof fn lemma_weighted_sum_prefix(s1: Seq<bool>, s2: Seq<bool>, n: nat)
    requires
        n <= s1.len(),
        n <= s2.len(),
        forall|i: int| 0 <= i < n ==> s1[i] == s2[i],
    ensures
        weighted_sum(s1, n) == weighted_sum(s2, n),
    decreases n,
{
    if n > 0 {
        lemma_weighted_sum_prefix(s1, s2, (n - 1) as nat);
    }
}

proof fn lemma_weighted_sum_monotone(s: Seq<bool>, a: nat, b: nat)
    requires
        a <= b,
    ensures
        weighted_sum(s, a) <= weighted_sum(s, b),
    decreases b - a,
{
    if a < b {
        lemma_weighted_sum_monotone(s, a, (b - 1) as nat);
    }
}

/// The greedy digits of `r < fib(j + 1)` have `j + 1` digits, sum to `r`, have their top digit
/// set exactly when `fib(j) <= r`, and never contain two adjacent set digits.
proof fn lemma_greedy(r: nat, j: nat)
    requires
        r < fib(j + 1),
    ensures
        greedy(r, j).len() == j + 1,
        weighted_sum(greedy(r, j), j + 1) == r,
        greedy(r, j)[j as int] == (fib(j) <= r),
        forall|i: int| 0 <= i < j ==> !(#[trigger] greedy(r, j)[i] && greedy(r, j)[i + 1]),
    decreases j,
{
    let g = greedy(r, j);
    let take = fib(j) <= r;
    if j == 0 {
        assert(fib(1) == 2 && fib(0) == 1);
        assert(weighted_sum(g, 1) == weighted_sum(g, 0) + if g[0] { fib(0) } else { 0 });
    } else {
        let rest: nat = if take { (r - fib(j)) as nat } else { r };
        assert(fib(j + 1) == fib(j) + fib((j - 1) as nat));
        lemma_fib_monotone((j - 1) as nat, j);
        lemma_greedy(rest, (j - 1) as nat);
        let h = greedy(rest, (j - 1) as nat);
        assert(g == h.push(take));
        lemma_weighted_sum_prefix(g, h, j);
        assert(weighted_sum(g, j + 1) == weighted_sum(g, j) + if g[j as int] { fib(j) } else { 0 });
        assert forall|i: int| 0 <= i < j implies !(#[trigger] g[i] && g[i + 1]) by {
            if i + 1 < j {
                assert(g[i] == h[i] && g[i + 1] == h[i + 1]);
            } else {
                assert(g[i] == h[(j - 1) as int]);
            }
        }
    }
}

spec fn decode_state_f(k: nat) -> nat {
    if k == 0 {
        1
    } else {
        fib((k - 1) as nat)
    }
}

spec fn decode_state_f_prev(k: nat) -> nat {
    if k == 0 {
        0
    } else {
        weight_before(k - 1)
    }
}

/// Decoding digits `k..` of a code whose digits never hold two adjacent set digits before the
/// terminating pair gives the weighted sum minus one.
proof fn lemma_decode_digits(c: Seq<bool>, g: Seq<bool>, k: nat)
    requires
        g.len() >= 1,
        k <= g.len(),
        g.len() < c.len(),
        forall|i: int| 0 <= i < g.len() ==> c[i] == g[i],
        c[g.len() as int] == true,
        g[g.len() - 1] == true,
        forall|i: int| 0 <= i < g.len() - 1 ==> !(#[trigger] g[i] && g[i + 1]),
        fib(g.len()) <= usize::MAX,
        weighted_sum(g, g.len()) <= usize::MAX,
    ensures
        fib_decode_from(
            c,
            k as int,
            decode_state_f(k),
            decode_state_f_prev(k),
            if k == 0 {
                false
            } else {
                g[k - 1]
            },
            weighted_sum(g, k),
        ) == Some(((weighted_sum(g, g.len()) - 1) as nat, (g.len() + 1) as int)),
    decreases g.len() - k,
{
    let n = g.len();
    let f = decode_state_f(k);
    let fp = decode_state_f_prev(k);
    // The weight of digit k.
    assert(f + fp == fib(k)) by {
        if k >= 2 {
            assert(fib(k) == fib((k - 1) as nat) + fib((k - 2) as nat));
        } else if k == 1 {
            assert(fib(1) == 2 && fib(0) == 1);
        } else {
            assert(fib(0) == 1);
        }
    }
    lemma_fib_monotone(k, n);
    if k < n {
        let bit = c[k as int];
        assert(bit == g[k as int]);
        if k > 0 {
            assert(!(g[k - 1] && g[k as int]));
        }
        lemma_weighted_sum_monotone(g, k + 1, n);
        assert(weighted_sum(g, k + 1) == weighted_sum(g, k) + if g[k as int] { fib(k) } else { 0 });
        lemma_decode_digits(c, g, k + 1);
        assert(decode_state_f(k + 1) == fib(k));
        assert(decode_state_f_prev(k + 1) == f);
    } else {
        lemma_weighted_sum_monotone(g, (n - 1) as nat, n);
        assert(weighted_sum(g, n) == weighted_sum(g, (n - 1) as nat) + if g[n - 1] { fib((n - 1) as nat) } else { 0 });
        lemma_fib_ge_index((n - 1) as nat);
    }
}

/// Decoding the Fibonacci code of a value, followed by any further bits, gives back the value
/// and the position right after the code.
pub proof fn lemma_fibonacci_round_trip(value: nat, rest: Seq<bool>)
    requires
        value < usize::MAX,
        fib_codable(value),
    ensures
        fib_decode(fib_code(value) + rest, 0) == Some((value, fib_code(value).len() as int)),
{
    let x = value + 1;
    let m = top_index(x);
    lemma_top_index(x);
    lemma_greedy(x, m);
    let g = greedy(x, m);
    let c = fib_code(value) + rest;
    assert(c[g.len() as int] == true);
    assert forall|i: int| 0 <= i < g.len() implies c[i] == g[i] by {}
    lemma_decode_digits(c, g, 0);
}

/// Decoding after a prefix is decoding without it, at a position shifted by its length.
proof fn lemma_decode_from_shift(pre: Seq<bool>, c: Seq<bool>, i: int, f: nat, f_prev: nat, prev: bool, out: nat)
    requires
        0 <= i,
    ensures
        fib_decode_from(pre + c, i + pre.len(), f, f_prev, prev, out) == match fib_decode_from(c, i, f, f_prev, prev, out) {
            Some((v, j)) => Some((v, j + pre.len())),
            None => None,
        },
    decreases c.len() - i,
{
    let p = pre.len() as int;
    if i < c.len() {
        assert((pre + c)[i + p] == c[i]);
        let f2 = f + f_prev;
        let bit = c[i];
        if !(f2 > usize::MAX) && !(bit && prev) && !(bit && out + f2 > usize::MAX) {
            lemma_decode_from_shift(pre, c, i + 1, f2, f, bit, if bit { out + f2 } else { out });
            assert(i + 1 + p == i + p + 1);
        }
    }
}

/// Decoding the Fibonacci code of a value that follows any bits, and is followed by any bits,
/// gives back the value and the position right after the code.
pub proof fn lemma_fibonacci_round_trip_at(prefix: Seq<bool>, value: nat, rest: Seq<bool>)
    requires
        value < usize::MAX,
        fib_codable(value),
    ensures
        fib_decode(prefix + fib_code(value) + rest, prefix.len() as int) == Some(
            (value, (prefix.len() + fib_code(value).len()) as int),
        ),
{
    lemma_fibonacci_round_trip(value, rest);
    lemma_decode_from_shift(prefix, fib_code(value) + rest, 0, 1, 0, false, 0);
    assert(prefix + fib_code(value) + rest =~= prefix + (fib_code(value) + rest));
}

} // verus!

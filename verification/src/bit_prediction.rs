//! Bit prediction with a linear (xor) predictor over the last 16 bits.
use vstd::prelude::*;

verus! {

/// The number of set bits of `x`.
pub open spec fn popcount(x: u16) -> nat
    decreases x,
{
    if x == 0 {
        0
    } else {
        (x % 2) as nat + popcount(x / 2)
    }
}

/// Whether `x` has an odd number of set bits.
pub open spec fn parity(x: u16) -> bool {
    popcount(x) % 2 == 1
}

/// The predictor state after `bit` is shifted in: the last 16 bits seen, the newest one lowest.
pub open spec fn shift_in(state: u16, bit: bool) -> u16 {
    ((state as int * 2) % 65536 + if bit {
        1int
    } else {
        0int
    }) as u16
}

/// The predictor state after the first `n` bits of `data` have been shifted in.
pub open spec fn state_after(data: Seq<bool>, n: nat) -> u16
    decreases n,
{
    if n == 0 {
        0
    } else {
        shift_in(state_after(data, (n - 1) as nat), data[n - 1])
    }
}

/// The mispredictions of a predictor with the given taps over `data`: bit `i` is set
/// when the prediction made before seeing `data[i]` differs from it.
pub open spec fn prediction_errors(data: Seq<bool>, taps: u16) -> Seq<bool> {
    Seq::new(data.len(), |i: int| parity(state_after(data, i as nat) & taps) != data[i])
}

/// The number of `true` entries of `s`.
pub open spec fn count_true(s: Seq<bool>) -> nat
    decreases s.len(),
{
    if s.len() == 0 {
        0
    } else {
        count_true(s.drop_last()) + if s.last() {
            1nat
        } else {
            0nat
        }
    }
}

/// The number of mispredictions with the given taps.
pub open spec fn mispredictions(data: Seq<bool>, taps: u16) -> nat {
    count_true(prediction_errors(data, taps))
}

/// The best single tap to add to `taps`, scanning taps `i..16`: the fewest mispredictions
/// below `best` and the lowest tap reaching it (or `best`, `best_bit` unchanged).
pub open spec fn best_added_tap(data: Seq<bool>, taps: u16, i: nat, best: nat, best_bit: nat) -> (
    nat,
    nat,
)
    decreases 16 - i,
{
    if i >= 16 {
        (best, best_bit)
    } else {
        let m = mispredictions(data, taps | (1u16 << (i as u16)));
        if m < best {
            best_added_tap(data, taps, i + 1, m, i)
        } else {
            best_added_tap(data, taps, i + 1, best, best_bit)
        }
    }
}

/// The taps chosen greedily: starting from `taps` with `prev_best` mispredictions, add the single
/// tap that lowers the mispredictions most, as long as one does.
pub open spec fn greedy_taps(data: Seq<bool>, taps: u16, prev_best: nat) -> u16
    decreases prev_best,
{
    let (best, best_bit) = best_added_tap(data, taps, 0, prev_best, 0);
    if best >= prev_best {
        taps
    } else {
        greedy_taps(data, taps | (1u16 << (best_bit as u16)), best)
    }
}

/// The taps that `encode` selects for `data`.
pub open spec fn chosen_taps(data: Seq<bool>) -> u16 {
    greedy_taps(data, 0, count_true(data))
}

/// Predicts the next bit as the parity of the tapped bits of the last 16 bits seen.
pub struct BitPredictor {
    pub taps: u16,
    pub state: u16,
}

impl BitPredictor {
    /// A predictor with the given taps that has not seen any bit.
    pub fn new(taps: u16) -> (out: BitPredictor)
        ensures
            out.taps == taps,
            out.state == 0,
    {
        BitPredictor { taps, state: 0 }
    }

    /// The predicted next bit.
    pub fn predict(&self) -> (out: bool)
        ensures
            out == parity(self.state & self.taps),
    {
        let mut v: u16 = self.state & self.taps;
        let ghost x = v;
        let mut ones: u32 = 0;
        proof {
            lemma_popcount_le(x);
        }
        while v != 0
            invariant
                ones + popcount(v) == popcount(x),
                popcount(x) <= 65535,
            decreases v,
        {
            assert(v & 1 == v % 2 && v >> 1 == v / 2) by (bit_vector);
            ones = ones + (v & 1) as u32;
            v = v >> 1;
        }
        assert(((ones & 1) != 0) == (ones % 2 == 1)) by (bit_vector);
        (ones & 1) != 0
    }

    /// Shifts the observed bit into the state.
    pub fn push_bit(&mut self, bit: bool)
        ensures
            final(self).taps == old(self).taps,
            final(self).state == shift_in(old(self).state, bit),
    {
        let st: u16 = self.state;
        let shifted: u16 = st << 1u16;
        assert(shifted as int == (st as int * 2) % 65536 && shifted % 2 == 0) by (bit_vector)
            requires
                shifted == st << 1u16,
        ;
        self.state = shifted + if bit { 1u16 } else { 0u16 };
    }
}

/// Bit `k` from the end of the first `n` bits of `s`: the bit pushed `k + 1` pushes ago, or
/// `false` before the first push.
pub open spec fn last_bit(s: Seq<bool>, n: nat, k: nat) -> bool {
    k < n && s[n - 1 - k]
}

/// Two to the power `k`.
pub open spec fn two_to(k: nat) -> nat
    decreases k,
{
    if k == 0 {
        1
    } else {
        2 * two_to((k - 1) as nat)
    }
}

/// The number made of the last `k` bits pushed among the first `n` bits of `s`, the newest one
/// lowest.
pub open spec fn last_bits_value(s: Seq<bool>, n: nat, k: nat) -> nat
    decreases k,
{
    if k == 0 {
        0
    } else {
        last_bits_value(s, n, (k - 1) as nat) + if last_bit(s, n, (k - 1) as nat) {
            two_to((k - 1) as nat)
        } else {
            0
        }
    }
}

proof fn lemma_last_bits_bound(s: Seq<bool>, n: nat, k: nat)
    ensures
        last_bits_value(s, n, k) < two_to(k),
    decreases k,
{
    if k > 0 {
        lemma_last_bits_bound(s, n, (k - 1) as nat);
    }
}

/// Pushing one more bit doubles the value of the older bits and adds the new one.
proof fn lemma_last_bits_push(s: Seq<bool>, n: nat, k: nat)
    requires
        n >= 1,
    ensures
        last_bits_value(s, n, k + 1) == 2 * last_bits_value(s, (n - 1) as nat, k) + if s[n - 1] {
            1nat
        } else {
            0nat
        },
    decreases k,
{
    if k > 0 {
        lemma_last_bits_push(s, n, (k - 1) as nat);
        assert(last_bit(s, n, k) == last_bit(s, (n - 1) as nat, (k - 1) as nat));
        assert(two_to(k) == 2 * two_to((k - 1) as nat));
        assert(last_bits_value(s, n, k + 1) == last_bits_value(s, n, k) + if last_bit(s, n, k) { two_to(k) } else { 0 });
        assert(last_bits_value(s, (n - 1) as nat, k) == last_bits_value(s, (n - 1) as nat, (k - 1) as nat) + if last_bit(
            s,
            (n - 1) as nat,
            (k - 1) as nat,
        ) {
            two_to((k - 1) as nat)
        } else {
            0
        });
    } else {
        assert(last_bit(s, n, 0) == s[n - 1]);
        assert(two_to(0) == 1);
        assert(last_bits_value(s, n, 1) == last_bits_value(s, n, 0) + if last_bit(s, n, 0) { two_to(0) } else { 0 });
        assert(last_bits_value(s, (n - 1) as nat, 0) == 0);
    }
}

/// The state after the first `n` bits is the number made of the last 16 of them.
proof fn lemma_state_is_last_bits(s: Seq<bool>, n: nat)
    ensures
        state_after(s, n) as nat == last_bits_value(s, n, 16),
    decreases n,
{
    reveal_with_fuel(two_to, 17);
    if n == 0 {
        assert forall|k: nat| k <= 16 implies #[trigger] last_bits_value(s, 0, k) == 0 by {
            lemma_zero_bits(s, k);
        }
    } else {
        lemma_state_is_last_bits(s, (n - 1) as nat);
        lemma_last_bits_push(s, n, 15);
        lemma_last_bits_bound(s, (n - 1) as nat, 15);
        let v15 = last_bits_value(s, (n - 1) as nat, 15);
        let v16 = last_bits_value(s, (n - 1) as nat, 16);
        assert(v16 == v15 + if last_bit(s, (n - 1) as nat, 15) { 32768nat } else { 0nat });
        assert((v16 as int * 2) % 65536 == v15 * 2);
    }
}

proof fn lemma_zero_bits(s: Seq<bool>, k: nat)
    ensures
        last_bits_value(s, 0, k) == 0,
    decreases k,
{
    if k > 0 {
        lemma_zero_bits(s, (k - 1) as nat);
    }
}

proof fn lemma_same_last_bits(a: Seq<bool>, na: nat, b: Seq<bool>, nb: nat, k: nat)
    requires
        forall|j: nat| j < k ==> last_bit(a, na, j) == last_bit(b, nb, j),
    ensures
        last_bits_value(a, na, k) == last_bits_value(b, nb, k),
    decreases k,
{
    if k > 0 {
        lemma_same_last_bits(a, na, b, nb, (k - 1) as nat);
        assert(last_bit(a, na, (k - 1) as nat) == last_bit(b, nb, (k - 1) as nat));
    }
}

/// Only the last 16 bits pushed decide the state of a predictor, and so its predictions: two
/// bit histories whose last 16 bits agree (bits before the first push counting as `false`)
/// leave the same state.
pub proof fn lemma_last_16_bits_decide(a: Seq<bool>, b: Seq<bool>)
    requires
        forall|j: nat| j < 16 ==> #[trigger] last_bit(a, a.len(), j) == last_bit(b, b.len(), j),
    ensures
        state_after(a, a.len()) == state_after(b, b.len()),
{
    lemma_same_last_bits(a, a.len(), b, b.len(), 16);
    lemma_state_is_last_bits(a, a.len());
    lemma_state_is_last_bits(b, b.len());
}

proof fn lemma_popcount_le(x: u16)
    ensures
        popcount(x) <= x,
    decreases x,
{
    if x != 0 {
        lemma_popcount_le(x / 2);
    }
}

/// The mispredictions of a fresh predictor with `taps` over `data`.
fn test_encode(data: &[bool], taps: u16) -> (out: Vec<bool>)
    ensures
        out@ == prediction_errors(data@, taps),
{
    let mut predictor = BitPredictor::new(taps);
    let mut out: Vec<bool> = Vec::new();
    let mut i: usize = 0;
    while i < data.len()
        invariant
            i <= data@.len(),
            predictor.taps == taps,
            predictor.state == state_after(data@, i as nat),
            out@ =~= prediction_errors(data@.subrange(0, i as int), taps),
            forall|k: nat| k <= i ==> #[trigger] state_after(data@.subrange(0, i as int), k)
                == state_after(data@, k),
        decreases data@.len() - i,
    {
        let bit = data[i];
        let prediction = predictor.predict();
        predictor.push_bit(bit);
        out.push(prediction != bit);
        proof {
            let next = data@.subrange(0, i + 1);
            lemma_state_after_prefix(data@, next, (i + 1) as nat);
            assert forall|k: nat| k <= i + 1 implies #[trigger] state_after(next, k) == state_after(data@, k) by {
                lemma_state_after_prefix(data@, next, k);
            }
        }
        i = i + 1;
    }
    proof {
        assert(data@.subrange(0, i as int) =~= data@);
    }
    out
}

proof fn lemma_state_after_prefix(a: Seq<bool>, b: Seq<bool>, n: nat)
    requires
        n <= a.len(),
        n <= b.len(),
        forall|i: int| 0 <= i < n ==> a[i] == b[i],
    ensures
        state_after(a, n) == state_after(b, n),
    decreases n,
{
    if n > 0 {
        lemma_state_after_prefix(a, b, (n - 1) as nat);
    }
}

/// Counts the `true` entries of `s`.
fn count_ones(s: &[bool]) -> (out: usize)
    ensures
        out == count_true(s@),
{
    let mut n: usize = 0;
    let mut i: usize = 0;
    while i < s.len()
        invariant
            i <= s@.len(),
            n == count_true(s@.subrange(0, i as int)),
            n <= i,
        decreases s@.len() - i,
    {
        proof {
            assert(s@.subrange(0, i + 1).drop_last() =~= s@.subrange(0, i as int));
        }
        if s[i] {
            n = n + 1;
        }
        i = i + 1;
    }
    proof {
        assert(s@.subrange(0, i as int) =~= s@);
    }
    n
}

/// Chooses taps greedily so that the prediction errors hold as few `true` bits as possible,
/// and returns the prediction errors together with the taps.
///
/// No single additional tap lowers the number of errors of the chosen taps, and the errors hold
/// no more `true` bits than `data` itself.
pub fn encode(data: &[bool]) -> (out: (Vec<bool>, u16))
    ensures
        out.1 == chosen_taps(data@),
        out.0@ == prediction_errors(data@, out.1),
        mispredictions(data@, out.1) <= count_true(data@),
        forall|i: u16| i < 16 ==> mispredictions(data@, out.1) <= #[trigger] mispredictions(
            data@,
            out.1 | (1u16 << i),
        ),
{
    let mut taps: u16 = 0;
    // Since the goal of the bit prediction is to reduce the number of 1-bits, the initial
    // number of mispredictions to beat is the number of 1-bits in the input data
    let mut prev_best_result: usize = count_ones(data);
    loop
        invariant
            greedy_taps(data@, taps, prev_best_result as nat) == chosen_taps(data@),
            prev_best_result as nat <= count_true(data@),
            taps == 0 ==> prev_best_result == count_true(data@),
            taps != 0 ==> prev_best_result == mispredictions(data@, taps),
        decreases prev_best_result,
    {
        let mut best_result = prev_best_result;
        let mut best_result_bit: u16 = 0;
        let mut i: u16 = 0;
        while i < 16
            invariant
                i <= 16,
                best_added_tap(data@, taps, i as nat, best_result as nat, best_result_bit as nat)
                    == best_added_tap(data@, taps, 0, prev_best_result as nat, 0),
                best_result <= prev_best_result,
                best_result_bit < 16,
                best_result < prev_best_result ==> best_result == mispredictions(
                    data@,
                    taps | (1u16 << best_result_bit),
                ),
                forall|k: u16| k < i ==> best_result <= #[trigger] mispredictions(data@, taps | (1u16 << k)),
            decreases 16 - i,
        {
            let res = test_encode(data, taps | (1u16 << i));
            let mispredictions = count_ones(&res);
            if mispredictions < best_result {
                best_result = mispredictions;
                best_result_bit = i;
            }
            i = i + 1;
        }
        if best_result >= prev_best_result {
            let out = test_encode(data, taps);
            proof {
                if taps == 0 {
                    lemma_zero_taps(data@);
                }
            }
            return (out, taps);
        }
        prev_best_result = best_result;
        let b = best_result_bit;
        assert((taps | (1u16 << b)) != 0) by (bit_vector)
            requires
                b < 16,
        ;
        taps = taps | (1u16 << best_result_bit);
    }
}

/// Without taps the predictor always predicts `false`, so the errors are the data itself.
proof fn lemma_zero_taps(data: Seq<bool>)
    ensures
        prediction_errors(data, 0) == data,
{
    assert forall|i: int| 0 <= i < data.len() implies prediction_errors(data, 0)[i] == data[i] by {
        let st = state_after(data, i as nat);
        assert(st & 0 == 0) by (bit_vector);
    }
    assert(prediction_errors(data, 0) =~= data);
}

} // verus!

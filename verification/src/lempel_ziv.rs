//! Bit-level LZ77 compression.
//!
//! The encoder reads a stream of bits and writes a stream of codes: a direct-data code
//! (`false`, the Fibonacci code of a length, then that many literal bits) or a recall code
//! (`true`, the Fibonacci code of a length, then the Fibonacci code of a distance), which
//! repeats bits from the last `MAX_RECALL_DIST` bits of the stream.
use vstd::prelude::*;
use crate::fibonacci_code::{
    decode_fibonacci, encode_fibonacci, fib_code, fib_decode, lemma_fib_codable, BitDecoder,
};

verus! {

/// How far back a recall code can reach, in bits.
pub const MAX_RECALL_DIST: usize = 2048;

/// The abstract ring buffer: `MAX_RECALL_DIST` bit slots and the slot written next.
pub struct RingModel {
    pub slots: Seq<bool>,
    pub idx: nat,
}

/// A ring buffer whose slots all hold `false`, written from slot 0 on.
pub open spec fn ring_empty() -> RingModel {
    RingModel { slots: Seq::new(2048, |i: int| false), idx: 0 }
}

pub open spec fn ring_wf(r: RingModel) -> bool {
    r.slots.len() == 2048 && r.idx < 2048
}

/// Writes `value` into the next slot.
pub open spec fn ring_push(r: RingModel, value: bool) -> RingModel {
    RingModel {
        slots: r.slots.update(r.idx as int, value),
        idx: if r.idx + 1 >= 2048 {
            0
        } else {
            r.idx + 1
        },
    }
}

/// The slot read at `offset`: the bit written `offset + 1` writes ago.
pub open spec fn ring_slot(r: RingModel, offset: int) -> int {
    if offset + 1 <= r.idx {
        r.idx - (offset + 1)
    } else {
        2048 - (offset + 1 - r.idx)
    }
}

/// The bit written `offset + 1` writes ago.
pub open spec fn ring_read(r: RingModel, offset: int) -> bool {
    r.slots[ring_slot(r, offset)]
}

/// Bit `k` of byte `b`.
pub open spec fn byte_bit(b: u8, k: int) -> bool {
    (b >> (k as u8)) & 1 == 1
}

/// The facts on bit operations that the ring buffer's code relies on.
proof fn lemma_bits(old_byte: u8, k: u8, j: u8, v: u8)
    by (bit_vector)
    requires
        k < 8,
        j < 8,
        v < 2,
    ensures
        ((((old_byte & !(1u8 << k)) | (v << k)) >> j) & 1 == 1) == (if j == k {
            v == 1
        } else {
            (old_byte >> j) & 1 == 1
        }),
        ((old_byte & (1u8 << k)) != 0) == ((old_byte >> k) & 1 == 1),
        (0u8 >> j) & 1 == 0,
{
}

/// The index facts: the byte and the bit of a slot.
proof fn lemma_index_bits(i: usize)
    by (bit_vector)
    ensures
        i >> 3usize == i / 8,
        i & 7usize == i % 8,
{
}

/// A ring buffer of `MAX_RECALL_DIST` bits, packed eight to a byte.
pub struct RingBuffer {
    content: [u8; 256],
    input_idx: usize,
}

impl RingBuffer {
    /// The slots and the next slot to write.
    pub closed spec fn model(&self) -> RingModel {
        RingModel {
            slots: Seq::new(2048, |i: int| byte_bit(self.content@[i / 8], i % 8)),
            idx: self.input_idx as nat,
        }
    }

    pub closed spec fn wf(&self) -> bool {
        self.input_idx < 2048
    }

    /// The slots of a well-formed buffer form a well-formed ring, so that the laws on rings
    /// apply to it.
    pub proof fn lemma_wf_model(&self)
        requires
            self.wf(),
        ensures
            ring_wf(self.model()),
    {
    }

    /// An empty ring buffer.
    pub fn new() -> (out: RingBuffer)
        ensures
            out.wf(),
            out.model() == ring_empty(),
    {
        let out = RingBuffer { content: [0u8; 256], input_idx: 0 };
        proof {
            assert forall|i: int| 0 <= i < 2048 implies !#[trigger] out.model().slots[i] by {
                lemma_bits(0, 0, (i % 8) as u8, 0);
            }
            assert(out.model().slots =~= ring_empty().slots);
        }
        out
    }

    /// Writes `value` into the next slot.
    pub fn push(&mut self, value: bool)
        requires
            old(self).wf(),
        ensures
            final(self).wf(),
            final(self).model() == ring_push(old(self).model(), value),
    {
        let idx = self.input_idx;
        proof {
            lemma_index_bits(idx);
        }
        let byte_idx = idx >> 3;
        let bit: u8 = (idx & 7) as u8;
        let v: u8 = if value {
            1
        } else {
            0
        };
        let old_byte = self.content[byte_idx];
        let new_byte = (old_byte & !(1u8 << bit)) | (v << bit);
        self.content[byte_idx] = new_byte;
        self.input_idx = idx + 1;
        if self.input_idx >= MAX_RECALL_DIST {
            self.input_idx = 0;
        }
        proof {
            let ghost before = old(self).model();
            let ghost after = self.model();
            let ghost expect = ring_push(before, value);
            assert forall|i: int| 0 <= i < 2048 implies after.slots[i] == expect.slots[i] by {
                let j: u8 = (i % 8) as u8;
                lemma_bits(old_byte, bit, j, v);
                if i / 8 == byte_idx as int {
                    assert(after.slots[i] == byte_bit(new_byte, i % 8));
                    if i == idx as int {
                    } else {
                        assert(i % 8 != idx as int % 8);
                    }
                } else {
                    assert(i != idx as int);
                }
            }
            assert(after.slots =~= expect.slots);
        }
    }

    /// Reads the bit written `offset + 1` writes ago.
    pub fn read(&self, offset: usize) -> (out: bool)
        requires
            self.wf(),
            offset < MAX_RECALL_DIST,
        ensures
            out == ring_read(self.model(), offset as int),
    {
        let idx = if offset + 1 <= self.input_idx {
            self.input_idx - (offset + 1)
        } else {
            MAX_RECALL_DIST - (offset + 1 - self.input_idx)
        };
        proof {
            lemma_index_bits(idx);
            lemma_bits(self.content@[idx as int / 8], (idx % 8) as u8, 0, 0);
        }
        let bit: u8 = (idx & 7) as u8;
        (self.content[idx >> 3] & (1u8 << bit)) != 0
    }
}

/// What a ring buffer gives back of its writes: right after a write, offset 0 reads the
/// written bit, and every older bit moves one offset further back; a fresh buffer reads
/// `false` everywhere.
pub proof fn lemma_ring_read_push(r: RingModel, value: bool, offset: int)
    requires
        ring_wf(r),
        0 <= offset,
        offset + 1 < 2048,
    ensures
        ring_wf(ring_push(r, value)),
        ring_read(ring_push(r, value), 0) == value,
        ring_read(ring_push(r, value), offset + 1) == ring_read(r, offset),
        !ring_read(ring_empty(), offset),
{
}

/// The abstract state of the encoder: how many of the last bits are not yet coded, the ring
/// buffer of the last bits, the distances at which the current run still matches, the length
/// of that run, and the code written so far.
pub struct LzEncState {
    pub pending: nat,
    pub ring: RingModel,
    pub dists: Seq<usize>,
    pub run: nat,
    pub out: Seq<bool>,
}

pub open spec fn lz_initial() -> LzEncState {
    LzEncState { pending: 0, ring: ring_empty(), dists: Seq::empty(), run: 0, out: Seq::empty() }
}

/// The invariant of the encoder between two bits.
pub open spec fn lz_wf(s: LzEncState) -> bool {
    &&& ring_wf(s.ring)
    &&& s.pending < 2048
    &&& s.run <= s.pending
    &&& (s.run > 0 <==> s.dists.len() > 0)
    &&& forall|i: int| 0 <= i < s.dists.len() ==> #[trigger] s.dists[i] < 2048
}

/// The `len` oldest pending bits, oldest first.
pub open spec fn direct_bits(r: RingModel, pending: nat, len: nat) -> Seq<bool> {
    Seq::new(len, |i: int| ring_read(r, pending - i - 1))
}

/// Writes a direct-data code for the `len` oldest pending bits (nothing when `len` is 0).
pub open spec fn emit_direct(s: LzEncState, len: nat) -> LzEncState {
    if len == 0 {
        s
    } else {
        LzEncState {
            out: s.out + seq![false] + fib_code(len) + direct_bits(s.ring, s.pending, len),
            pending: (s.pending - len) as nat,
            ..s
        }
    }
}

/// The recall code for a run of `len` bits found `distance + 1` bits back.
pub open spec fn recall_code(distance: nat, len: nat) -> Seq<bool> {
    if len == 0 {
        Seq::empty()
    } else {
        seq![true] + fib_code(len) + fib_code(distance)
    }
}

/// The largest element of `s` (0 for an empty sequence).
pub open spec fn seq_max(s: Seq<usize>) -> nat
    decreases s.len(),
{
    if s.len() == 0 {
        0
    } else {
        let m = seq_max(s.drop_last());
        if s.last() > m {
            s.last() as nat
        } else {
            m
        }
    }
}

/// Whether the ring buffer holds `symbol` at distance `d`.
pub open spec fn matches_at(r: RingModel, symbol: bool) -> spec_fn(usize) -> bool {
    |d: usize| ring_read(r, d as int) == symbol
}

/// All distances, in increasing order.
pub open spec fn all_dists() -> Seq<usize> {
    Seq::new(2048, |i: int| i as usize)
}

/// The first part of taking a bit: the current run goes on at the distances that still match,
/// or, where none does, ends; an ended run is written as a recall code when that code is
/// shorter than the run, after a direct-data code for the bits before it.
pub open spec fn continue_run(s: LzEncState, symbol: bool) -> LzEncState {
    if s.dists.len() == 0 {
        s
    } else {
        let kept = s.dists.filter(matches_at(s.ring, symbol));
        if kept.len() == 0 {
            let code = recall_code(seq_max(s.dists), s.run);
            let s1 = if code.len() < s.run {
                let e = emit_direct(s, (s.pending - s.run) as nat);
                LzEncState { out: e.out + code, pending: (e.pending - s.run) as nat, ..e }
            } else {
                s
            };
            LzEncState { dists: kept, run: 0, ..s1 }
        } else {
            LzEncState { dists: kept, run: s.run + 1, ..s }
        }
    }
}

/// The second part: without a current run, a new run starts at every distance that matches.
pub open spec fn start_run(s: LzEncState, symbol: bool) -> LzEncState {
    if s.dists.len() == 0 {
        let found = all_dists().filter(matches_at(s.ring, symbol));
        LzEncState {
            dists: found,
            run: if found.len() > 0 {
                1
            } else {
                s.run
            },
            ..s
        }
    } else {
        s
    }
}

/// The third part: the bit enters the ring buffer and becomes pending; pending bits that the
/// buffer is about to overwrite are written out, and a run of full length is written as a
/// recall code.
pub open spec fn store_symbol(s: LzEncState, symbol: bool) -> LzEncState {
    let s3 = LzEncState { ring: ring_push(s.ring, symbol), pending: s.pending + 1, ..s };
    let s4 = if s3.pending >= 2048 {
        emit_direct(s3, (s3.pending - s3.run) as nat)
    } else {
        s3
    };
    if s4.run >= 2048 {
        LzEncState {
            out: s4.out + recall_code(seq_max(s4.dists), s4.run),
            pending: (s4.pending - s4.run) as nat,
            dists: Seq::empty(),
            run: 0,
            ..s4
        }
    } else {
        s4
    }
}

/// The encoder's state after taking one more bit.
pub open spec fn lz_push(s: LzEncState, symbol: bool) -> LzEncState {
    store_symbol(start_run(continue_run(s, symbol), symbol), symbol)
}

/// The encoder's state after taking `bits`.
pub open spec fn lz_run(bits: Seq<bool>) -> LzEncState
    decreases bits.len(),
{
    if bits.len() == 0 {
        lz_initial()
    } else {
        lz_push(lz_run(bits.drop_last()), bits.last())
    }
}

/// The code written when the input ends: the pending bits before the current run as direct
/// data, then the current run as a recall code.
pub open spec fn lz_finish(s: LzEncState) -> Seq<bool> {
    let s1 = if s.pending > 0 {
        emit_direct(s, (s.pending - s.run) as nat)
    } else {
        s
    };
    if s.run > 0 {
        s1.out + recall_code(seq_max(s.dists), s.run)
    } else {
        s1.out
    }
}

/// The code of `bits`.
pub open spec fn lz_encode(bits: Seq<bool>) -> Seq<bool> {
    lz_finish(lz_run(bits))
}

/// The invariant of the encoder in the middle of taking a bit, before it enters the buffer.
pub open spec fn lz_mid_wf(s: LzEncState) -> bool {
    &&& ring_wf(s.ring)
    &&& s.pending < 2048
    &&& s.run <= s.pending + 1
    &&& (s.run > 0 <==> s.dists.len() > 0)
    &&& forall|i: int| 0 <= i < s.dists.len() ==> #[trigger] s.dists[i] < 2048
}

proof fn lemma_continue_run(s: LzEncState, symbol: bool)
    requires
        lz_wf(s),
    ensures
        lz_mid_wf(continue_run(s, symbol)),
        continue_run(s, symbol).ring == s.ring,
{
    if s.dists.len() > 0 {
        lemma_filter_bounded(s.dists, matches_at(s.ring, symbol), 2048);
    }
}

proof fn lemma_start_run(s: LzEncState, symbol: bool)
    requires
        lz_mid_wf(s),
    ensures
        lz_mid_wf(start_run(s, symbol)),
        start_run(s, symbol).ring == s.ring,
        start_run(s, symbol).pending == s.pending,
{
    if s.dists.len() == 0 {
        assert forall|i: int| 0 <= i < all_dists().len() implies #[trigger] all_dists()[i] < 2048 by {}
        lemma_filter_bounded(all_dists(), matches_at(s.ring, symbol), 2048);
    }
}

proof fn lemma_store_symbol(s: LzEncState, symbol: bool)
    requires
        lz_mid_wf(s),
    ensures
        lz_wf(store_symbol(s, symbol)),
{
}

/// Taking a bit keeps the encoder's invariant.
pub proof fn lemma_lz_push_wf(s: LzEncState, symbol: bool)
    requires
        lz_wf(s),
    ensures
        lz_wf(lz_push(s, symbol)),
{
    lemma_continue_run(s, symbol);
    lemma_start_run(continue_run(s, symbol), symbol);
    lemma_store_symbol(start_run(continue_run(s, symbol), symbol), symbol);
}

/// One more element of `s` filtered.
proof fn lemma_filter_take(s: Seq<usize>, pred: spec_fn(usize) -> bool, i: int)
    requires
        0 <= i < s.len(),
    ensures
        s.take(i + 1).filter(pred) == (if pred(s[i]) {
            s.take(i).filter(pred).push(s[i])
        } else {
            s.take(i).filter(pred)
        }),
{
    reveal(Seq::filter);
    assert(s.take(i + 1).drop_last() =~= s.take(i));
}

/// Filtering keeps elements below a bound below it.
proof fn lemma_filter_bounded(s: Seq<usize>, pred: spec_fn(usize) -> bool, bound: nat)
    requires
        forall|i: int| 0 <= i < s.len() ==> #[trigger] s[i] < bound,
    ensures
        forall|i: int| 0 <= i < s.filter(pred).len() ==> #[trigger] s.filter(pred)[i] < bound,
    decreases s.len(),
{
    reveal(Seq::filter);
    if s.len() > 0 {
        let sub = s.drop_last().filter(pred);
        lemma_filter_bounded(s.drop_last(), pred, bound);
        assert(s.last() < bound);
        assert forall|i: int| 0 <= i < s.filter(pred).len() implies #[trigger] s.filter(pred)[i] < bound by {
            if i < sub.len() {
                assert(s.filter(pred)[i] == sub[i]);
            }
        }
    }
}

/// The maximum of a sequence of elements below a bound is below it.
proof fn lemma_seq_max_bounded(s: Seq<usize>, bound: nat)
    requires
        forall|i: int| 0 <= i < s.len() ==> #[trigger] s[i] < bound,
        bound > 0,
    ensures
        seq_max(s) < bound,
    decreases s.len(),
{
    if s.len() > 0 {
        lemma_seq_max_bounded(s.drop_last(), bound);
    }
}

/// The distances of `dists` at which the ring buffer holds `symbol`, in their order.
fn retain_matching(buffer: &RingBuffer, dists: &Vec<usize>, symbol: bool) -> (out: Vec<usize>)
    requires
        buffer.wf(),
        forall|i: int| 0 <= i < dists@.len() ==> #[trigger] dists@[i] < 2048,
    ensures
        out@ == dists@.filter(matches_at(buffer.model(), symbol)),
{
    let ghost pred = matches_at(buffer.model(), symbol);
    let mut out: Vec<usize> = Vec::new();
    let mut i: usize = 0;
    while i < dists.len()
        invariant
            buffer.wf(),
            pred == matches_at(buffer.model(), symbol),
            forall|k: int| 0 <= k < dists@.len() ==> #[trigger] dists@[k] < 2048,
            i <= dists@.len(),
            out@ == dists@.take(i as int).filter(pred),
        decreases dists@.len() - i,
    {
        let d = dists[i];
        proof {
            lemma_filter_take(dists@, pred, i as int);
        }
        if buffer.read(d) == symbol {
            out.push(d);
        }
        i = i + 1;
    }
    proof {
        assert(dists@.take(dists@.len() as int) =~= dists@);
    }
    out
}

/// All distances at which the ring buffer holds `symbol`, in increasing order.
fn matching_distances(buffer: &RingBuffer, symbol: bool) -> (out: Vec<usize>)
    requires
        buffer.wf(),
    ensures
        out@ == all_dists().filter(matches_at(buffer.model(), symbol)),
{
    let ghost pred = matches_at(buffer.model(), symbol);
    let mut out: Vec<usize> = Vec::new();
    let mut d: usize = 0;
    while d < MAX_RECALL_DIST
        invariant
            buffer.wf(),
            pred == matches_at(buffer.model(), symbol),
            d <= 2048,
            out@ == all_dists().take(d as int).filter(pred),
        decreases 2048 - d,
    {
        proof {
            lemma_filter_take(all_dists(), pred, d as int);
        }
        if buffer.read(d) == symbol {
            out.push(d);
        }
        d = d + 1;
    }
    proof {
        assert(all_dists().take(2048) =~= all_dists());
    }
    out
}

/// The largest of the distances.
fn max_distance(dists: &Vec<usize>) -> (out: usize)
    ensures
        out == seq_max(dists@),
{
    let mut m: usize = 0;
    let mut i: usize = 0;
    while i < dists.len()
        invariant
            i <= dists@.len(),
            m == seq_max(dists@.take(i as int)),
        decreases dists@.len() - i,
    {
        proof {
            assert(dists@.take(i + 1).drop_last() =~= dists@.take(i as int));
        }
        if dists[i] > m {
            m = dists[i];
        }
        i = i + 1;
    }
    proof {
        assert(dists@.take(dists@.len() as int) =~= dists@);
    }
    m
}

/// A bit-level LZ77 encoder, fed one bit at a time.
pub struct LZ77Encoder {
    pending_symbols: usize,
    buffer: RingBuffer,
    recall_distances: Vec<usize>,
    recall_length: usize,
    out: Vec<bool>,
}

impl LZ77Encoder {
    /// The encoder's abstract state.
    pub closed spec fn model(&self) -> LzEncState {
        LzEncState {
            pending: self.pending_symbols as nat,
            ring: self.buffer.model(),
            dists: self.recall_distances@,
            run: self.recall_length as nat,
            out: self.out@,
        }
    }

    pub closed spec fn wf(&self) -> bool {
        self.buffer.wf() && lz_wf(self.model())
    }

    /// An encoder that has taken no bit.
    pub fn new() -> (out: LZ77Encoder)
        ensures
            out.wf(),
            out.model() == lz_initial(),
    {
        let out = LZ77Encoder {
            pending_symbols: 0,
            buffer: RingBuffer::new(),
            recall_distances: Vec::new(),
            recall_length: 0,
            out: Vec::new(),
        };
        proof {
            assert(out.model().dists =~= Seq::<usize>::empty());
        }
        out
    }

    fn emit_bits(&mut self, bits: &[bool])
        ensures
            final(self).out@ == old(self).out@ + bits@,
            final(self).pending_symbols == old(self).pending_symbols,
            final(self).buffer == old(self).buffer,
            final(self).recall_distances == old(self).recall_distances,
            final(self).recall_length == old(self).recall_length,
    {
        let mut i: usize = 0;
        while i < bits.len()
            invariant
                i <= bits@.len(),
                self.out@ == old(self).out@ + bits@.take(i as int),
                self.pending_symbols == old(self).pending_symbols,
                self.buffer == old(self).buffer,
                self.recall_distances == old(self).recall_distances,
                self.recall_length == old(self).recall_length,
            decreases bits@.len() - i,
        {
            self.out.push(bits[i]);
            proof {
                assert(bits@.take(i + 1) =~= bits@.take(i as int).push(bits@[i as int]));
            }
            i = i + 1;
        }
        proof {
            assert(bits@.take(bits@.len() as int) =~= bits@);
        }
    }

    fn emit_direct_data_code(&mut self, len: usize)
        requires
            old(self).buffer.wf(),
            len <= old(self).pending_symbols <= 2048,
        ensures
            final(self).model() == emit_direct(old(self).model(), len as nat),
            final(self).buffer == old(self).buffer,
            final(self).recall_distances == old(self).recall_distances,
            final(self).recall_length == old(self).recall_length,
    {
        if len == 0 {
            return;
        }
        self.out.push(false);
        proof {
            lemma_fib_codable(len as nat);
        }
        let code = encode_fibonacci(len);
        self.emit_bits(code.as_slice());
        let ghost base = self.out@;
        let mut i: usize = 0;
        while i < len
            invariant
                self.buffer == old(self).buffer,
                self.buffer.wf(),
                self.pending_symbols == old(self).pending_symbols,
                self.recall_distances == old(self).recall_distances,
                self.recall_length == old(self).recall_length,
                len <= self.pending_symbols <= 2048,
                i <= len,
                self.out@ == base + direct_bits(self.buffer.model(), self.pending_symbols as nat, i as nat),
            decreases len - i,
        {
            let b = self.buffer.read(self.pending_symbols - i - 1);
            self.out.push(b);
            proof {
                assert(direct_bits(self.buffer.model(), self.pending_symbols as nat, (i + 1) as nat)
                    =~= direct_bits(self.buffer.model(), self.pending_symbols as nat, i as nat).push(b));
            }
            i = i + 1;
        }
        self.pending_symbols = self.pending_symbols - len;
        proof {
            assert(self.out@ =~= old(self).out@ + seq![false] + fib_code(len as nat)
                + direct_bits(old(self).buffer.model(), old(self).pending_symbols as nat, len as nat));
        }
    }

    fn generate_recall_code(&self, distance: usize, len: usize) -> (out: Vec<bool>)
        requires
            distance < 2048,
            len <= 2048,
        ensures
            out@ == recall_code(distance as nat, len as nat),
    {
        if len == 0 {
            return Vec::new();
        }
        proof {
            lemma_fib_codable(len as nat);
            lemma_fib_codable(distance as nat);
        }
        let len_fibonacci = encode_fibonacci(len);
        let distance_fibonacci = encode_fibonacci(distance);
        let mut out: Vec<bool> = Vec::new();
        out.push(true);
        let mut i: usize = 0;
        while i < len_fibonacci.len()
            invariant
                i <= len_fibonacci@.len(),
                out@ == seq![true] + len_fibonacci@.take(i as int),
            decreases len_fibonacci@.len() - i,
        {
            out.push(len_fibonacci[i]);
            proof {
                assert(len_fibonacci@.take(i + 1) =~= len_fibonacci@.take(i as int).push(len_fibonacci@[i as int]));
            }
            i = i + 1;
        }
        let mut j: usize = 0;
        while j < distance_fibonacci.len()
            invariant
                i == len_fibonacci@.len(),
                j <= distance_fibonacci@.len(),
                out@ == seq![true] + len_fibonacci@.take(i as int) + distance_fibonacci@.take(j as int),
            decreases distance_fibonacci@.len() - j,
        {
            out.push(distance_fibonacci[j]);
            proof {
                assert(distance_fibonacci@.take(j + 1) =~= distance_fibonacci@.take(j as int).push(distance_fibonacci@[j as int]));
            }
            j = j + 1;
        }
        proof {
            assert(len_fibonacci@.take(i as int) =~= len_fibonacci@);
            assert(distance_fibonacci@.take(j as int) =~= distance_fibonacci@);
        }
        out
    }
}

impl LZ77Encoder {
    /// Takes the next bit of the input.
    pub fn push_symbol(&mut self, symbol: bool)
        requires
            old(self).wf(),
        ensures
            final(self).wf(),
            final(self).model() == lz_push(old(self).model(), symbol),
    {
        let ghost s0 = self.model();
        proof {
            lemma_continue_run(s0, symbol);
            lemma_seq_max_bounded(s0.dists, 2048);
        }
        if self.recall_distances.len() > 0 {
            let current_max_recall_distance = max_distance(&self.recall_distances);
            self.recall_distances = retain_matching(&self.buffer, &self.recall_distances, symbol);
            if self.recall_distances.len() == 0 {
                let recall_code = self.generate_recall_code(
                    current_max_recall_distance,
                    self.recall_length,
                );
                if recall_code.len() < self.recall_length {
                    self.emit_direct_data_code(self.pending_symbols - self.recall_length);
                    self.emit_bits(recall_code.as_slice());
                    self.pending_symbols = self.pending_symbols - self.recall_length;
                }
                self.recall_length = 0;
            } else {
                self.recall_length = self.recall_length + 1;
            }
        }
        assert(self.model() == continue_run(s0, symbol));
        let ghost s1 = self.model();
        proof {
            lemma_start_run(s1, symbol);
        }
        if self.recall_distances.len() == 0 {
            self.recall_distances = matching_distances(&self.buffer, symbol);
            if self.recall_distances.len() > 0 {
                self.recall_length = 1;
            }
        }
        assert(self.model() == start_run(s1, symbol));
        let ghost s2 = self.model();
        self.buffer.push(symbol);
        self.pending_symbols = self.pending_symbols + 1;
        // Check if an output needs to be forced, to prevent the ring buffer from overwriting
        // unprocessed data.
        if self.pending_symbols >= MAX_RECALL_DIST {
            self.emit_direct_data_code(self.pending_symbols - self.recall_length);
        }
        if self.recall_length >= MAX_RECALL_DIST {
            proof {
                lemma_seq_max_bounded(self.recall_distances@, 2048);
            }
            let current_max_recall_distance = max_distance(&self.recall_distances);
            let recall_code = self.generate_recall_code(
                current_max_recall_distance,
                self.recall_length,
            );
            self.emit_bits(recall_code.as_slice());
            self.pending_symbols = self.pending_symbols - self.recall_length;
            self.recall_distances.clear();
            self.recall_length = 0;
        }
        proof {
            assert(self.model() == store_symbol(s2, symbol));
            lemma_store_symbol(s2, symbol);
        }
    }

    /// Writes out what is still pending and returns the whole code.
    pub fn finish(self) -> (out: Vec<bool>)
        requires
            self.wf(),
        ensures
            out@ == lz_finish(self.model()),
    {
        let mut this = self;
        if this.pending_symbols > 0 {
            this.emit_direct_data_code(this.pending_symbols - this.recall_length);
        }
        if this.recall_length > 0 {
            proof {
                lemma_seq_max_bounded(this.recall_distances@, 2048);
            }
            let current_max_recall_distance = max_distance(&this.recall_distances);
            let recall_code = this.generate_recall_code(
                current_max_recall_distance,
                this.recall_length,
            );
            this.emit_bits(recall_code.as_slice());
        }
        this.out
    }
}

/// Compresses a stream of bits.
pub fn encode_lz77(data: &[bool]) -> (out: Vec<bool>)
    ensures
        out@ == lz_encode(data@),
{
    let mut encoder = LZ77Encoder::new();
    let mut i: usize = 0;
    while i < data.len()
        invariant
            i <= data@.len(),
            encoder.wf(),
            encoder.model() == lz_run(data@.take(i as int)),
        decreases data@.len() - i,
    {
        proof {
            assert(data@.take(i + 1).drop_last() =~= data@.take(i as int));
        }
        encoder.push_symbol(data[i]);
        i = i + 1;
    }
    proof {
        assert(data@.take(data@.len() as int) =~= data@);
    }
    encoder.finish()
}

/// The code the decoder is working through.
pub enum LZ77Opcode {
    /// Copy this many bits from the source.
    DirectData(usize),
    /// Repeat this many bits from the given distance in the ring buffer.
    Recall(usize, usize),
}

/// The abstract state of the decoder: its position in the source bits, its ring buffer of
/// the bits it has produced, the current code (a recall code or a direct-data code, its
/// distance and its length) and how many bits of that code it has produced.
pub struct LzDecState {
    pub pos: int,
    pub ring: RingModel,
    pub recall: bool,
    pub distance: nat,
    pub len: nat,
    pub progress: nat,
}

/// The decoder's state before the first bit, reading the source from `pos`.
pub open spec fn ld_initial(pos: int) -> LzDecState {
    LzDecState { pos, ring: ring_empty(), recall: false, distance: 0, len: 0, progress: 0 }
}

pub open spec fn ld_wf(s: LzDecState) -> bool {
    ring_wf(s.ring) && (s.progress <= s.len || s.progress <= 1)
}

/// Reads the distance of a recall code of length `len` whose distance code starts at `p`.
pub open spec fn ld_recall_opcode(bits: Seq<bool>, s: LzDecState, len: nat, p: int) -> Option<
    LzDecState,
> {
    match fib_decode(bits, p) {
        None => None,
        Some((distance, p2)) => Some(
            LzDecState { pos: p2, recall: true, distance, len, progress: 0, ..s },
        ),
    }
}

/// Reads the next code from the source once the current one is done; `None` where the source
/// ends, or holds no valid Fibonacci code, too early.
pub open spec fn ld_next_opcode(bits: Seq<bool>, s: LzDecState) -> Option<LzDecState> {
    if s.progress < s.len {
        Some(s)
    } else if !(0 <= s.pos < bits.len()) {
        None
    } else {
        match fib_decode(bits, s.pos + 1) {
            None => None,
            Some((len, p)) => if bits[s.pos] {
                ld_recall_opcode(bits, s, len, p)
            } else {
                Some(LzDecState { pos: p, recall: false, distance: 0, len, progress: 0, ..s })
            },
        }
    }
}

/// Produces one bit of the current code: the next source bit, or the bit at the recall
/// distance; `None` where the source ends or the distance is out of the buffer's reach.
pub open spec fn ld_emit(bits: Seq<bool>, s: LzDecState) -> Option<(LzDecState, bool)> {
    if s.recall {
        if s.distance >= 2048 {
            None
        } else {
            let b = ring_read(s.ring, s.distance as int);
            Some((LzDecState { ring: ring_push(s.ring, b), progress: s.progress + 1, ..s }, b))
        }
    } else if !(0 <= s.pos < bits.len()) {
        None
    } else {
        let b = bits[s.pos];
        Some(
            (
                LzDecState {
                    pos: s.pos + 1,
                    ring: ring_push(s.ring, b),
                    progress: s.progress + 1,
                    ..s
                },
                b,
            ),
        )
    }
}

/// One step of the decoder: the next state and the bit produced, or `None` where the source
/// does not hold what the step reads.
pub open spec fn ld_step(bits: Seq<bool>, s: LzDecState) -> Option<(LzDecState, bool)> {
    match ld_next_opcode(bits, s) {
        None => None,
        Some(s1) => ld_emit(bits, s1),
    }
}

/// Decodes a stream of bits written by the encoder.
pub struct LZ77Decoder<'a> {
    source: BitDecoder<'a>,
    buffer: RingBuffer,
    opcode: LZ77Opcode,
    progress: usize,
}

impl<'a> LZ77Decoder<'a> {
    /// The source bits.
    pub closed spec fn bits(&self) -> Seq<bool> {
        self.source.bits@
    }

    /// The decoder's abstract state.
    pub closed spec fn model(&self) -> LzDecState {
        LzDecState {
            pos: self.source.index as int,
            ring: self.buffer.model(),
            recall: self.opcode is Recall,
            distance: match self.opcode {
                LZ77Opcode::DirectData(_) => 0,
                LZ77Opcode::Recall(distance, _) => distance as nat,
            },
            len: match self.opcode {
                LZ77Opcode::DirectData(len) => len as nat,
                LZ77Opcode::Recall(_, len) => len as nat,
            },
            progress: self.progress as nat,
        }
    }

    pub closed spec fn wf(&self) -> bool {
        self.buffer.wf() && ld_wf(self.model())
    }

    /// A decoder that reads `source` from its current position.
    pub fn new(source: BitDecoder<'a>) -> (out: LZ77Decoder<'a>)
        ensures
            out.wf(),
            out.bits() == source.bits@,
            out.model() == ld_initial(source.index as int),
    {
        LZ77Decoder {
            source,
            buffer: RingBuffer::new(),
            opcode: LZ77Opcode::DirectData(0),
            progress: 0,
        }
    }

    /// Decodes the next bit.
    pub fn decode_bit(&mut self) -> (out: bool)
        requires
            old(self).wf(),
            ld_step(old(self).bits(), old(self).model()) is Some,
        ensures
            final(self).wf(),
            final(self).bits() == old(self).bits(),
            ld_step(old(self).bits(), old(self).model()) == Some((final(self).model(), out)),
    {
        let ghost bits = self.bits();
        let len = match self.opcode {
            LZ77Opcode::DirectData(len) => len,
            LZ77Opcode::Recall(_, len) => len,
        };
        if self.progress >= len {
            let code_type = self.source.decode_bit();
            let len = decode_fibonacci(&mut self.source);
            if code_type {
                let distance = decode_fibonacci(&mut self.source);
                self.opcode = LZ77Opcode::Recall(distance, len);
            } else {
                self.opcode = LZ77Opcode::DirectData(len);
            }
            self.progress = 0;
        }
        assert(ld_next_opcode(bits, old(self).model()) == Some(self.model()));
        let out = match self.opcode {
            LZ77Opcode::DirectData(_) => self.source.decode_bit(),
            LZ77Opcode::Recall(distance, _) => self.buffer.read(distance),
        };
        self.buffer.push(out);
        self.progress = self.progress + 1;
        out
    }
}

} // verus!

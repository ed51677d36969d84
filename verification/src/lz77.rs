//! LZ77 compression of byte streams.
//!
//! The output is a sequence of codes. A code starts with an opcode byte `op`:
//! if `op` is even, it is followed by `(op >> 1) + 1` bytes of direct data; if `op` is odd,
//! it is followed by a distance byte `d`, and stands for `(op >> 1) + 1` bytes each equal to the
//! byte output `d + 1` positions before it. Opcode and distance bytes are shifted by a constant
//! offset (the first output byte) so that they resemble the data bytes.
use vstd::prelude::*;
use crate::decoder::{Decoder, SourceDecoder, can_follow, lemma_can_follow_step, lemma_shift_shift, shift};

verus! {

pub const MAX_LENGTH: usize = 128;

pub const MAX_RECALL_DIST: usize = 256;

/// The last 256 bytes seen, most recent first.
pub struct RingBuffer {
    pub content: [u8; 256],
    pub input_idx: usize,
}

/// The history after pushing `value`: the newest byte first, the oldest one dropped.
pub open spec fn history_push(history: Seq<u8>, value: u8) -> Seq<u8> {
    seq![value] + history.subrange(0, history.len() - 1)
}

impl RingBuffer {
    /// Position in `content` of the byte pushed `offset + 1` pushes ago.
    pub open spec fn slot(&self, offset: int) -> int {
        if offset + 1 <= self.input_idx {
            self.input_idx - (offset + 1)
        } else {
            MAX_RECALL_DIST - (offset + 1 - self.input_idx)
        }
    }

    pub open spec fn wf(&self) -> bool {
        self.input_idx < MAX_RECALL_DIST
    }

    /// The last 256 bytes pushed, most recent first (zeros before the first push).
    pub open spec fn view(&self) -> Seq<u8> {
        Seq::new(256, |offset: int| self.content@[self.slot(offset)])
    }

    /// An empty buffer, reading as 256 zero bytes.
    pub fn new() -> (out: RingBuffer)
        ensures
            out.wf(),
            out.view() == Seq::new(256, |i: int| 0u8),
    {
        let out = RingBuffer { content: [0; 256], input_idx: 0 };
        assert(out.view() =~= Seq::new(256, |i: int| 0u8));
        out
    }

    /// Records a byte.
    pub fn push(&mut self, value: u8)
        requires
            old(self).wf(),
        ensures
            final(self).wf(),
            final(self).view() == history_push(old(self).view(), value),
    {
        self.content[self.input_idx] = value;
        self.input_idx = self.input_idx + 1;
        if self.input_idx >= MAX_RECALL_DIST {
            self.input_idx = 0;
        }
        assert(self.view() =~= history_push(old(self).view(), value));
    }

    /// The byte pushed `offset + 1` pushes ago.
    pub fn read(&self, offset: usize) -> (out: u8)
        requires
            self.wf(),
            offset < MAX_RECALL_DIST,
        ensures
            out == self.view()[offset as int],
    {
        let idx = if offset + 1 <= self.input_idx {
            self.input_idx - (offset + 1)
        } else {
            MAX_RECALL_DIST - (offset + 1 - self.input_idx)
        };
        self.content[idx]
    }
}

/// The distances `d` of `ds` whose byte `history[d]` equals `symbol`, in order.
pub open spec fn keep_matching(ds: Seq<usize>, history: Seq<u8>, symbol: u8) -> Seq<usize>
    decreases ds.len(),
{
    if ds.len() == 0 {
        seq![]
    } else {
        let rest = keep_matching(ds.drop_last(), history, symbol);
        if history[ds.last() as int] == symbol {
            rest.push(ds.last())
        } else {
            rest
        }
    }
}

/// All distances `0 .. 256` in increasing order.
pub open spec fn all_distances() -> Seq<usize> {
    Seq::new(256, |i: int| i as usize)
}

/// The largest element of a non-empty sequence.
pub open spec fn seq_max(s: Seq<usize>) -> usize
    decreases s.len(),
{
    if s.len() <= 1 {
        s[0]
    } else {
        let m = seq_max(s.drop_last());
        if s.last() > m {
            s.last()
        } else {
            m
        }
    }
}

/// The state of the encoder: how many bytes seen are not yet covered by a code, the last 256
/// bytes seen (most recent first), the distances at which the current run of bytes repeats
/// earlier bytes, the length of that run, and the codes emitted so far.
pub struct EncoderModel {
    pub pending: nat,
    pub history: Seq<u8>,
    pub distances: Seq<usize>,
    pub recall_length: nat,
    pub out: Seq<u8>,
}

/// The opcode of a direct data code for `len` bytes.
pub open spec fn direct_opcode(len: nat) -> u8 {
    (2 * (len - 1)) as u8
}

/// The opcode of a recall code for `len` bytes.
pub open spec fn recall_opcode(len: nat) -> u8 {
    (2 * (len - 1) + 1) as u8
}

/// Emits the oldest `len` pending bytes as direct data.
pub open spec fn model_emit_direct(m: EncoderModel, len: nat) -> EncoderModel {
    if len == 0 {
        m
    } else {
        EncoderModel {
            out: m.out + seq![direct_opcode(len)] + Seq::new(
                len,
                |i: int| m.history[m.pending - i - 1],
            ),
            pending: (m.pending - len) as nat,
            ..m
        }
    }
}

/// Emits a recall code for the last `len` pending bytes.
pub open spec fn model_emit_recall(m: EncoderModel, distance: usize, len: nat) -> EncoderModel {
    if len == 0 {
        m
    } else {
        EncoderModel {
            out: m.out + seq![recall_opcode(len), distance as u8],
            pending: (m.pending - len) as nat,
            ..m
        }
    }
}

/// The encoder state before any byte.
pub open spec fn initial_model() -> EncoderModel {
    EncoderModel {
        pending: 0,
        history: Seq::new(256, |i: int| 0u8),
        distances: seq![],
        recall_length: 0,
        out: seq![],
    }
}

/// Continues or ends the current run with `symbol`.
pub open spec fn model_continue_run(m: EncoderModel, symbol: u8) -> EncoderModel {
    if m.distances.len() > 0 {
        let current_max = seq_max(m.distances);
        let kept = keep_matching(m.distances, m.history, symbol);
        if kept.len() == 0 {
            let m2 = if m.recall_length > 2 {
                model_emit_recall(
                    model_emit_direct(m, (m.pending - m.recall_length) as nat),
                    current_max,
                    m.recall_length,
                )
            } else {
                m
            };
            EncoderModel { distances: kept, recall_length: 0, ..m2 }
        } else {
            EncoderModel { distances: kept, recall_length: m.recall_length + 1, ..m }
        }
    } else {
        m
    }
}

/// Starts a new run with `symbol` when there is none.
pub open spec fn model_start_run(m: EncoderModel, symbol: u8) -> EncoderModel {
    if m.distances.len() == 0 {
        let found = keep_matching(all_distances(), m.history, symbol);
        EncoderModel {
            distances: found,
            recall_length: if found.len() > 0 {
                1
            } else {
                m.recall_length
            },
            ..m
        }
    } else {
        m
    }
}

/// Forces codes out when the pending bytes or the run reach their limit.
pub open spec fn model_flush_limits(m: EncoderModel) -> EncoderModel {
    let m4 = if m.pending >= MAX_LENGTH {
        model_emit_direct(m, (m.pending - m.recall_length) as nat)
    } else {
        m
    };
    if m4.recall_length >= MAX_LENGTH {
        let e = model_emit_recall(m4, seq_max(m4.distances), m4.recall_length);
        EncoderModel { distances: seq![], recall_length: 0, ..e }
    } else {
        m4
    }
}

/// The encoder state after `symbol`.
pub open spec fn model_push_symbol(m: EncoderModel, symbol: u8) -> EncoderModel {
    let m1 = model_continue_run(m, symbol);
    let m2 = model_start_run(m1, symbol);
    let m3 = EncoderModel {
        history: history_push(m2.history, symbol),
        pending: m2.pending + 1,
        ..m2
    };
    model_flush_limits(m3)
}

/// The encoder state after the bytes of `data`.
pub open spec fn model_after(data: Seq<u8>) -> EncoderModel
    decreases data.len(),
{
    if data.len() == 0 {
        initial_model()
    } else {
        model_push_symbol(model_after(data.drop_last()), data.last())
    }
}

/// The codes of the encoder state once the pending bytes are flushed.
pub open spec fn model_finish_codes(m: EncoderModel) -> Seq<u8> {
    let m1 = if m.pending > 0 {
        model_emit_direct(m, (m.pending - m.recall_length) as nat)
    } else {
        m
    };
    let m2 = if m1.recall_length > 0 {
        model_emit_recall(m1, seq_max(m1.distances), m1.recall_length)
    } else {
        m1
    };
    m2.out
}

/// Invariant of the encoder states reached from the initial state.
pub open spec fn model_wf(m: EncoderModel) -> bool {
    &&& m.history.len() == 256
    &&& m.pending < MAX_LENGTH
    &&& m.recall_length <= m.pending
    &&& m.recall_length < MAX_LENGTH
    &&& (m.distances.len() == 0 <==> m.recall_length == 0)
    &&& forall|i: int| 0 <= i < m.distances.len() ==> #[trigger] m.distances[i] < MAX_RECALL_DIST
}

pub(crate) proof fn lemma_keep_matching_bounded(ds: Seq<usize>, history: Seq<u8>, symbol: u8)
    requires
        forall|i: int| 0 <= i < ds.len() ==> #[trigger] ds[i] < MAX_RECALL_DIST,
    ensures
        keep_matching(ds, history, symbol).len() <= ds.len(),
        forall|i: int|
            0 <= i < keep_matching(ds, history, symbol).len() ==> #[trigger] keep_matching(
                ds,
                history,
                symbol,
            )[i] < MAX_RECALL_DIST,
    decreases ds.len(),
{
    if ds.len() > 0 {
        lemma_keep_matching_bounded(ds.drop_last(), history, symbol);
    }
}

pub(crate) proof fn lemma_seq_max_bounded(s: Seq<usize>)
    requires
        s.len() > 0,
        forall|i: int| 0 <= i < s.len() ==> #[trigger] s[i] < MAX_RECALL_DIST,
    ensures
        seq_max(s) < MAX_RECALL_DIST,
    decreases s.len(),
{
    if s.len() > 1 {
        lemma_seq_max_bounded(s.drop_last());
    }
}

/// Every state reachable from a well-formed state stays well-formed.
pub(crate) proof fn lemma_push_symbol_wf(m: EncoderModel, symbol: u8)
    requires
        model_wf(m),
    ensures
        model_wf(model_push_symbol(m, symbol)),
{
    lemma_keep_matching_bounded(m.distances, m.history, symbol);
    lemma_keep_matching_bounded(all_distances(), m.history, symbol);
}

proof fn lemma_model_after_wf(data: Seq<u8>)
    ensures
        model_wf(model_after(data)),
    decreases data.len(),
{
    if data.len() > 0 {
        lemma_model_after_wf(data.drop_last());
        lemma_push_symbol_wf(model_after(data.drop_last()), data.last());
    }
}

/// Finds the longest repetitions of earlier bytes and emits LZ77 codes.
pub struct LZ77Encoder {
    pub pending_symbols: usize,
    pub buffer: RingBuffer,
    pub recall_distances: Vec<usize>,
    pub recall_length: usize,
    pub out: Vec<u8>,
}

impl LZ77Encoder {
    /// The state of the encoder.
    pub open spec fn view(&self) -> EncoderModel {
        EncoderModel {
            pending: self.pending_symbols as nat,
            history: self.buffer.view(),
            distances: self.recall_distances@,
            recall_length: self.recall_length as nat,
            out: self.out@,
        }
    }

    pub open spec fn wf(&self) -> bool {
        &&& self.buffer.wf()
        &&& model_wf(self.view())
    }

    /// An encoder that has seen no bytes.
    pub fn new() -> (out: LZ77Encoder)
        ensures
            out.wf(),
            out.view() == initial_model(),
    {
        LZ77Encoder {
            pending_symbols: 0,
            buffer: RingBuffer::new(),
            recall_distances: Vec::new(),
            recall_length: 0,
            out: Vec::new(),
        }
    }

    fn emit_direct_data_code(&mut self, len: usize)
        requires
            old(self).buffer.wf(),
            len <= old(self).pending_symbols,
            old(self).pending_symbols <= MAX_LENGTH,
        ensures
            final(self).view() == model_emit_direct(old(self).view(), len as nat),
            final(self).buffer == old(self).buffer,
            final(self).recall_distances == old(self).recall_distances,
            final(self).recall_length == old(self).recall_length,
    {
        if len == 0 {
            return;
        }
        let op: u8 = ((len - 1) as u8) << 1u8;
        let l: u8 = (len - 1) as u8;
        assert(l << 1u8 == 2 * l) by (bit_vector)
            requires
                l < 128,
        ;
        self.out.push(op);
        let ghost start = self.out@;
        let mut i: usize = 0;
        while i < len
            invariant
                self.buffer.wf(),
                old(self).buffer.wf(),
                self.buffer == old(self).buffer,
                i <= len,
                len <= self.pending_symbols,
                self.pending_symbols == old(self).pending_symbols,
                self.pending_symbols <= MAX_LENGTH,
                self.out@ == start + Seq::new(i as nat, |k: int| old(self).buffer.view()[self.pending_symbols - k - 1]),
                start == old(self).out@ + seq![direct_opcode(len as nat)],
                self.recall_distances == old(self).recall_distances,
                self.recall_length == old(self).recall_length,
            decreases len - i,
        {
            let b = self.buffer.read(self.pending_symbols - i - 1);
            self.out.push(b);
            i = i + 1;
            proof {
                assert(self.out@ =~= start + Seq::new(i as nat, |k: int| old(self).buffer.view()[self.pending_symbols - k - 1]));
            }
        }
        self.pending_symbols = self.pending_symbols - len;
    }

    fn emit_recall_code(&mut self, distance: usize, len: usize)
        requires
            len <= old(self).pending_symbols,
            len <= MAX_LENGTH,
            distance < MAX_RECALL_DIST,
        ensures
            final(self).view() == model_emit_recall(old(self).view(), distance, len as nat),
            final(self).buffer == old(self).buffer,
            final(self).recall_distances == old(self).recall_distances,
            final(self).recall_length == old(self).recall_length,
    {
        if len == 0 {
            return;
        }
        let l: u8 = (len - 1) as u8;
        assert((l << 1u8) | 1 == 2 * l + 1) by (bit_vector)
            requires
                l < 128,
        ;
        self.out.push((l << 1u8) | 1);
        self.out.push(distance as u8);
        self.pending_symbols = self.pending_symbols - len;
        assert(self.out@ =~= old(self).out@ + seq![recall_opcode(len as nat), distance as u8]);
    }
}

impl LZ77Encoder {
    /// Takes the next byte of the input.
    pub fn push_symbol(&mut self, symbol: u8)
        requires
            old(self).wf(),
        ensures
            final(self).wf(),
            final(self).view() == model_push_symbol(old(self).view(), symbol),
    {
        proof {
            lemma_push_symbol_wf(self.view(), symbol);
            lemma_keep_matching_bounded(self.recall_distances@, self.buffer.view(), symbol);
            lemma_keep_matching_bounded(all_distances(), self.buffer.view(), symbol);
        }
        let ghost m0 = self.view();
        if self.recall_distances.len() > 0 {
            let current_max_recall_distance = max_distance(&self.recall_distances);
            proof {
                lemma_seq_max_bounded(self.recall_distances@);
            }
            let kept = matching_distances(&self.recall_distances, &self.buffer, symbol);
            self.recall_distances = kept;
            if self.recall_distances.len() == 0 {
                if self.recall_length > 2 {
                    self.emit_direct_data_code(self.pending_symbols - self.recall_length);
                    self.emit_recall_code(current_max_recall_distance, self.recall_length);
                }
                self.recall_length = 0;
            } else {
                self.recall_length = self.recall_length + 1;
            }
        }
        assert(self.view() == model_continue_run(m0, symbol));
        let ghost m1 = self.view();
        if self.recall_distances.len() == 0 {
            self.recall_distances = find_distances(&self.buffer, symbol);
            if self.recall_distances.len() > 0 {
                self.recall_length = 1;
            }
        }
        assert(self.view() == model_start_run(m1, symbol));
        self.buffer.push(symbol);
        self.pending_symbols = self.pending_symbols + 1;
        let ghost m3 = self.view();
        proof {
            lemma_keep_matching_bounded(m1.distances, m1.history, symbol);
        }
        // Check if an output needs to be forced, to prevent the ring buffer from
        // overwriting unprocessed data
        if self.pending_symbols >= MAX_LENGTH {
            self.emit_direct_data_code(self.pending_symbols - self.recall_length);
        }
        if self.recall_length >= MAX_LENGTH {
            let current_max_recall_distance = max_distance(&self.recall_distances);
            proof {
                lemma_seq_max_bounded(self.recall_distances@);
            }
            self.emit_recall_code(current_max_recall_distance, self.recall_length);
            self.recall_distances.clear();
            self.recall_length = 0;
        }
        assert(self.view() == model_flush_limits(m3));
    }
}

/// The largest distance of a non-empty list.
fn max_distance(ds: &Vec<usize>) -> (out: usize)
    requires
        ds@.len() > 0,
    ensures
        out == seq_max(ds@),
{
    let mut m = ds[0];
    let mut i: usize = 1;
    while i < ds.len()
        invariant
            1 <= i <= ds@.len(),
            m == seq_max(ds@.subrange(0, i as int)),
        decreases ds@.len() - i,
    {
        proof {
            assert(ds@.subrange(0, i + 1).drop_last() =~= ds@.subrange(0, i as int));
        }
        if ds[i] > m {
            m = ds[i];
        }
        i = i + 1;
    }
    proof {
        assert(ds@.subrange(0, i as int) =~= ds@);
    }
    m
}

/// The distances of `ds` at which `buffer` holds `symbol`.
fn matching_distances(ds: &Vec<usize>, buffer: &RingBuffer, symbol: u8) -> (out: Vec<usize>)
    requires
        buffer.wf(),
        forall|i: int| 0 <= i < ds@.len() ==> #[trigger] ds@[i] < MAX_RECALL_DIST,
    ensures
        out@ == keep_matching(ds@, buffer.view(), symbol),
{
    let mut out: Vec<usize> = Vec::new();
    let mut i: usize = 0;
    while i < ds.len()
        invariant
            buffer.wf(),
            i <= ds@.len(),
            forall|k: int| 0 <= k < ds@.len() ==> #[trigger] ds@[k] < MAX_RECALL_DIST,
            out@ == keep_matching(ds@.subrange(0, i as int), buffer.view(), symbol),
        decreases ds@.len() - i,
    {
        proof {
            assert(ds@.subrange(0, i + 1).drop_last() =~= ds@.subrange(0, i as int));
        }
        let d = ds[i];
        if buffer.read(d) == symbol {
            out.push(d);
        }
        i = i + 1;
    }
    proof {
        assert(ds@.subrange(0, i as int) =~= ds@);
    }
    out
}

/// All distances at which `buffer` holds `symbol`, in increasing order.
fn find_distances(buffer: &RingBuffer, symbol: u8) -> (out: Vec<usize>)
    requires
        buffer.wf(),
    ensures
        out@ == keep_matching(all_distances(), buffer.view(), symbol),
{
    let mut out: Vec<usize> = Vec::new();
    let mut d: usize = 0;
    while d < MAX_RECALL_DIST
        invariant
            buffer.wf(),
            d <= MAX_RECALL_DIST,
            out@ == keep_matching(all_distances().subrange(0, d as int), buffer.view(), symbol),
        decreases MAX_RECALL_DIST - d,
    {
        proof {
            assert(all_distances().subrange(0, d + 1).drop_last() =~= all_distances().subrange(0, d as int));
        }
        if buffer.read(d) == symbol {
            out.push(d);
        }
        d = d + 1;
    }
    proof {
        assert(all_distances().subrange(0, d as int) =~= all_distances());
    }
    out
}

/// The total length of the code starting with opcode `op`.
pub open spec fn code_length(op: u8) -> nat {
    if op % 2 == 1 {
        2
    } else {
        (op / 2 + 2) as nat
    }
}

/// Which bytes of a single code are control bytes (opcode and distance) rather than data.
pub open spec fn code_head_mask(op: u8) -> Seq<bool> {
    Seq::new(code_length(op), |i: int| i == 0 || op % 2 == 1)
}

/// Splits `codes` into complete codes and marks their control bytes; `None` when `codes` does
/// not end at a code boundary.
pub open spec fn code_mask(codes: Seq<u8>) -> Option<Seq<bool>>
    decreases codes.len(),
{
    if codes.len() == 0 {
        Some(seq![])
    } else {
        let op = codes[0];
        let n = code_length(op);
        if n > codes.len() {
            None
        } else {
            match code_mask(codes.subrange(n as int, codes.len() as int)) {
                Some(rest) => Some(code_head_mask(op) + rest),
                None => None,
            }
        }
    }
}

/// Appending complete codes to complete codes keeps them complete.
pub(crate) proof fn lemma_code_mask_append(a: Seq<u8>, b: Seq<u8>)
    requires
        code_mask(a) is Some,
        code_mask(b) is Some,
    ensures
        code_mask(a + b) == Some(code_mask(a).unwrap() + code_mask(b).unwrap()),
    decreases a.len(),
{
    if a.len() == 0 {
        assert(a + b =~= b);
        assert(seq![] + code_mask(b).unwrap() =~= code_mask(b).unwrap());
    } else {
        let op = a[0];
        let n = code_length(op);
        let a_rest = a.subrange(n as int, a.len() as int);
        lemma_code_mask_append(a_rest, b);
        assert((a + b).subrange(n as int, (a + b).len() as int) =~= a_rest + b);
        assert((a + b)[0] == op);
        assert(code_head_mask(op) + (code_mask(a_rest).unwrap() + code_mask(b).unwrap())
            =~= (code_head_mask(op) + code_mask(a_rest).unwrap()) + code_mask(b).unwrap());
    }
}

pub(crate) proof fn lemma_code_mask_single(code: Seq<u8>)
    requires
        code.len() >= 1,
        code.len() == code_length(code[0]),
    ensures
        code_mask(code) == Some(code_head_mask(code[0])),
{
    let n = code_length(code[0]);
    assert(code.subrange(n as int, code.len() as int) =~= Seq::<u8>::empty());
    assert(code_mask(code.subrange(n as int, code.len() as int)) == Some(Seq::<bool>::empty()));
    assert(code_head_mask(code[0]) + Seq::<bool>::empty() =~= code_head_mask(code[0]));
}

proof fn lemma_emit_direct_codes(m: EncoderModel, len: nat)
    requires
        code_mask(m.out) is Some,
        len <= MAX_LENGTH,
    ensures
        code_mask(model_emit_direct(m, len).out) is Some,
{
    if len > 0 {
        let code = seq![direct_opcode(len)] + Seq::new(len, |i: int| m.history[m.pending - i - 1]);
        assert(direct_opcode(len) % 2 == 0 && code_length(direct_opcode(len)) == len + 1);
        lemma_code_mask_single(code);
        lemma_code_mask_append(m.out, code);
        assert(m.out + seq![direct_opcode(len)] + Seq::new(len, |i: int| m.history[m.pending - i - 1])
            =~= m.out + code);
    }
}

proof fn lemma_emit_recall_codes(m: EncoderModel, distance: usize, len: nat)
    requires
        code_mask(m.out) is Some,
        1 <= len <= MAX_LENGTH,
    ensures
        code_mask(model_emit_recall(m, distance, len).out) is Some,
{
    let code = seq![recall_opcode(len), distance as u8];
    assert(recall_opcode(len) % 2 == 1);
    lemma_code_mask_single(code);
    lemma_code_mask_append(m.out, code);
}

proof fn lemma_push_symbol_codes(m: EncoderModel, symbol: u8)
    requires
        model_wf(m),
        code_mask(m.out) is Some,
    ensures
        code_mask(model_push_symbol(m, symbol).out) is Some,
{
    if m.distances.len() > 0 && keep_matching(m.distances, m.history, symbol).len() == 0
        && m.recall_length > 2 {
        let d = model_emit_direct(m, (m.pending - m.recall_length) as nat);
        lemma_emit_direct_codes(m, (m.pending - m.recall_length) as nat);
        lemma_emit_recall_codes(d, seq_max(m.distances), m.recall_length);
    }
    let m1 = model_continue_run(m, symbol);
    let m2 = model_start_run(m1, symbol);
    let m3 = EncoderModel {
        history: history_push(m2.history, symbol),
        pending: m2.pending + 1,
        ..m2
    };
    lemma_keep_matching_bounded(m.distances, m.history, symbol);
    lemma_keep_matching_bounded(all_distances(), m.history, symbol);
    let m4 = if m3.pending >= MAX_LENGTH {
        model_emit_direct(m3, (m3.pending - m3.recall_length) as nat)
    } else {
        m3
    };
    if m3.pending >= MAX_LENGTH {
        lemma_emit_direct_codes(m3, (m3.pending - m3.recall_length) as nat);
    }
    if m4.recall_length >= MAX_LENGTH {
        lemma_emit_recall_codes(m4, seq_max(m4.distances), m4.recall_length);
    }
}

pub(crate) proof fn lemma_model_after_codes(data: Seq<u8>)
    ensures
        model_wf(model_after(data)),
        code_mask(model_after(data).out) is Some,
    decreases data.len(),
{
    if data.len() > 0 {
        lemma_model_after_codes(data.drop_last());
        lemma_push_symbol_wf(model_after(data.drop_last()), data.last());
        lemma_push_symbol_codes(model_after(data.drop_last()), data.last());
    }
}

pub(crate) proof fn lemma_finish_codes(m: EncoderModel)
    requires
        model_wf(m),
        code_mask(m.out) is Some,
    ensures
        code_mask(model_finish_codes(m)) is Some,
{
    let m1 = if m.pending > 0 {
        model_emit_direct(m, (m.pending - m.recall_length) as nat)
    } else {
        m
    };
    if m.pending > 0 {
        lemma_emit_direct_codes(m, (m.pending - m.recall_length) as nat);
    }
    if m1.recall_length > 0 {
        lemma_emit_recall_codes(m1, seq_max(m1.distances), m1.recall_length);
    }
}

/// How often each byte value occurs among the first `n` bytes of `codes` that are control
/// bytes (`control`) or data bytes (`!control`).
pub open spec fn byte_counts(codes: Seq<u8>, mask: Seq<bool>, n: nat, control: bool) -> Seq<nat>
    decreases n,
{
    if n == 0 {
        Seq::new(256, |i: int| 0nat)
    } else {
        let c = byte_counts(codes, mask, (n - 1) as nat, control);
        if mask[n - 1] == control {
            c.update(codes[n - 1] as int, c[codes[n - 1] as int] + 1)
        } else {
            c
        }
    }
}

/// The correlation of data counts and control counts shifted by `offset`, over the first `k`
/// byte values.
pub open spec fn correlation(data_counts: Seq<nat>, control_counts: Seq<nat>, offset: nat, k: nat) -> nat
    decreases k,
{
    if k == 0 {
        0
    } else {
        correlation(data_counts, control_counts, offset, (k - 1) as nat)
            + data_counts[k - 1] * control_counts[(k - 1 + offset) % 256]
    }
}

/// The offset among `offset .. 256` with the largest correlation above `best`, the lowest one
/// on ties (or `best_offset` when none is above `best`).
pub open spec fn best_offset_from(
    data_counts: Seq<nat>,
    control_counts: Seq<nat>,
    offset: nat,
    best: nat,
    best_offset: nat,
) -> nat
    decreases 256 - offset,
{
    if offset >= 256 {
        best_offset
    } else {
        let c = correlation(data_counts, control_counts, offset, 256);
        if c > best {
            best_offset_from(data_counts, control_counts, offset + 1, c, offset)
        } else {
            best_offset_from(data_counts, control_counts, offset + 1, best, best_offset)
        }
    }
}

/// The offset subtracted from the control bytes of `codes`.
pub open spec fn control_code_offset(codes: Seq<u8>) -> u8 {
    let mask = code_mask(codes).unwrap();
    best_offset_from(
        byte_counts(codes, mask, codes.len(), false),
        byte_counts(codes, mask, codes.len(), true),
        0,
        0,
        0,
    ) as u8
}

/// The bytes of `codes`, with `offset` subtracted (wrapping) from the control bytes.
pub open spec fn shift_control_bytes(codes: Seq<u8>, mask: Seq<bool>, offset: u8) -> Seq<u8> {
    Seq::new(
        codes.len(),
        |i: int|
            if mask[i] {
                ((codes[i] - offset) % 256) as u8
            } else {
                codes[i]
            },
    )
}

/// The output of the entropy transform: the offset followed by the shifted codes.
pub open spec fn entropy_transformed(codes: Seq<u8>) -> Seq<u8> {
    let offset = control_code_offset(codes);
    seq![offset] + shift_control_bytes(codes, code_mask(codes).unwrap(), offset)
}

/// The LZ77 encoding of `data`.
pub open spec fn lz77_encode(data: Seq<u8>) -> Seq<u8> {
    entropy_transformed(model_finish_codes(model_after(data)))
}

/// Whether the byte counts and correlations computed for the codes of `data` fit in 32 bits.
pub open spec fn lz77_counts_fit(data: Seq<u8>) -> bool {
    let codes = model_finish_codes(model_after(data));
    let mask = code_mask(codes).unwrap();
    &&& codes.len() <= u32::MAX
    &&& forall|offset: nat|
        offset < 256 ==> #[trigger] correlation(
            byte_counts(codes, mask, codes.len(), false),
            byte_counts(codes, mask, codes.len(), true),
            offset,
            256,
        ) <= u32::MAX
}

/// The number of the first `n` bytes that the mask marks as `control` (or not).
pub open spec fn mask_count(mask: Seq<bool>, n: nat, control: bool) -> nat
    decreases n,
{
    if n == 0 {
        0
    } else {
        mask_count(mask, (n - 1) as nat, control) + if mask[n - 1] == control {
            1nat
        } else {
            0nat
        }
    }
}

/// The sum of the first `k` counts.
pub open spec fn counts_sum(c: Seq<nat>, k: nat) -> nat
    decreases k,
{
    if k == 0 {
        0
    } else {
        counts_sum(c, (k - 1) as nat) + c[k - 1]
    }
}

proof fn lemma_counts_sum_bump(c: Seq<nat>, i: int, k: nat)
    requires
        0 <= i < c.len(),
        k <= c.len(),
    ensures
        counts_sum(c.update(i, c[i] + 1), k) == counts_sum(c, k) + if i < k {
            1nat
        } else {
            0nat
        },
    decreases k,
{
    if k > 0 {
        lemma_counts_sum_bump(c, i, (k - 1) as nat);
    }
}

proof fn lemma_byte_counts_total(codes: Seq<u8>, mask: Seq<bool>, n: nat, control: bool)
    ensures
        counts_sum(byte_counts(codes, mask, n, control), 256) == mask_count(mask, n, control),
        forall|v: int| 0 <= v < 256 ==> #[trigger] byte_counts(codes, mask, n, control)[v] <= mask_count(mask, n, control),
    decreases n,
{
    lemma_byte_counts_len(codes, mask, n, control);
    if n == 0 {
        lemma_zero_sum(256);
    } else {
        lemma_byte_counts_total(codes, mask, (n - 1) as nat, control);
        lemma_byte_counts_len(codes, mask, (n - 1) as nat, control);
        if mask[n - 1] == control {
            lemma_counts_sum_bump(byte_counts(codes, mask, (n - 1) as nat, control), codes[n - 1] as int, 256);
        }
    }
}

proof fn lemma_zero_sum(k: nat)
    requires
        k <= 256,
    ensures
        counts_sum(Seq::new(256, |i: int| 0nat), k) == 0,
    decreases k,
{
    if k > 0 {
        lemma_zero_sum((k - 1) as nat);
    }
}

proof fn lemma_mask_count_split(mask: Seq<bool>, n: nat)
    ensures
        mask_count(mask, n, false) + mask_count(mask, n, true) == n,
    decreases n,
{
    if n > 0 {
        lemma_mask_count_split(mask, (n - 1) as nat);
    }
}

/// A correlation is at most the sum of the data counts times a bound on the control counts.
proof fn lemma_correlation_bound(dc: Seq<nat>, cc: Seq<nat>, offset: nat, k: nat, m: nat)
    requires
        k <= 256,
        dc.len() == 256,
        cc.len() == 256,
        forall|v: int| 0 <= v < 256 ==> #[trigger] cc[v] <= m,
    ensures
        correlation(dc, cc, offset, k) <= counts_sum(dc, k) * m,
    decreases k,
{
    if k > 0 {
        lemma_correlation_bound(dc, cc, offset, (k - 1) as nat, m);
        let a = dc[k - 1];
        let b = cc[(k - 1 + offset) % 256];
        assert(a * b <= a * m) by (nonlinear_arith)
            requires
                b <= m,
        ;
        assert(counts_sum(dc, (k - 1) as nat) * m + a * m == counts_sum(dc, k) * m) by (nonlinear_arith)
            requires
                counts_sum(dc, k) == counts_sum(dc, (k - 1) as nat) + a,
        ;
    }
}

/// The byte statistics of at most 131070 codes fit the encoder's 32-bit counters.
pub proof fn lemma_counts_fit_short(data: Seq<u8>)
    requires
        code_mask(model_finish_codes(model_after(data))) is Some,
        model_finish_codes(model_after(data)).len() <= 131070,
    ensures
        lz77_counts_fit(data),
{
    let codes = model_finish_codes(model_after(data));
    let mask = code_mask(codes).unwrap();
    let n = codes.len();
    let dc = byte_counts(codes, mask, n, false);
    let cc = byte_counts(codes, mask, n, true);
    lemma_byte_counts_total(codes, mask, n, false);
    lemma_byte_counts_total(codes, mask, n, true);
    lemma_byte_counts_len(codes, mask, n, false);
    lemma_byte_counts_len(codes, mask, n, true);
    lemma_mask_count_split(mask, n);
    let a = mask_count(mask, n, false);
    let b = mask_count(mask, n, true);
    assert(a * b <= 4294836225) by (nonlinear_arith)
        requires
            a + b <= 131070,
    {
        assert((a - b) * (a - b) >= 0);
        assert(4 * (a * b) <= (a + b) * (a + b));
        assert((a + b) * (a + b) <= 131070 * 131070);
    }
    assert forall|offset: nat| offset < 256 implies #[trigger] correlation(dc, cc, offset, 256) <= u32::MAX by {
        lemma_correlation_bound(dc, cc, offset, 256, b);
    }
}

proof fn lemma_byte_counts_len(codes: Seq<u8>, mask: Seq<bool>, n: nat, control: bool)
    ensures
        byte_counts(codes, mask, n, control).len() == 256,
        forall|v: int| 0 <= v < 256 ==> #[trigger] byte_counts(codes, mask, n, control)[v] <= n,
    decreases n,
{
    if n > 0 {
        lemma_byte_counts_len(codes, mask, (n - 1) as nat, control);
    }
}

/// The control bytes and data bytes of well-formed codes, byte by byte: the result of
/// `byte_counts` and the shifted bytes over the first `idx` bytes.
spec fn map_state_ok(
    codes: Seq<u8>,
    mask: Seq<bool>,
    offset: u8,
    idx: nat,
    data: Seq<u8>,
    control_counts: Seq<u32>,
    data_counts: Seq<u32>,
) -> bool {
    &&& idx <= codes.len()
    &&& data.len() == codes.len()
    &&& control_counts.len() == 256
    &&& data_counts.len() == 256
    &&& forall|v: int| 0 <= v < 256 ==> #[trigger] control_counts[v] == byte_counts(codes, mask, idx, true)[v]
    &&& forall|v: int| 0 <= v < 256 ==> #[trigger] data_counts[v] == byte_counts(codes, mask, idx, false)[v]
    &&& forall|j: int| 0 <= j < idx ==> #[trigger] data[j] == shift_control_bytes(codes, mask, offset)[j]
    &&& forall|j: int| idx <= j < codes.len() ==> #[trigger] data[j] == codes[j]
}

/// Counts the control and data byte values of `data` (which must consist of complete codes),
/// and subtracts `offset` from each control byte. Returns the control counts and the data
/// counts.
fn map_output_bytes(data: &mut Vec<u8>, offset: u8) -> (out: ([u32; 256], [u32; 256]))
    requires
        code_mask(old(data)@) is Some,
        old(data)@.len() <= u32::MAX,
    ensures
        final(data)@ == shift_control_bytes(old(data)@, code_mask(old(data)@).unwrap(), offset),
        to_nats(out.0@) == byte_counts(
            old(data)@,
            code_mask(old(data)@).unwrap(),
            old(data)@.len(),
            true,
        ),
        to_nats(out.1@) == byte_counts(
            old(data)@,
            code_mask(old(data)@).unwrap(),
            old(data)@.len(),
            false,
        ),
{
    let ghost codes = data@;
    let ghost mask = code_mask(codes).unwrap();
    let mut control_counts: [u32; 256] = [0; 256];
    let mut data_counts: [u32; 256] = [0; 256];
    let len = data.len();
    let mut idx: usize = 0;
    proof {
        assert(codes.subrange(0, codes.len() as int) =~= codes);
        assert(mask.subrange(0, mask.len() as int) =~= mask);
        lemma_code_mask_len(codes);
    }
    while idx < len
        invariant
            len == codes.len(),
            codes.len() <= u32::MAX,
            mask.len() == codes.len(),
            mask == code_mask(codes).unwrap(),
            map_state_ok(codes, mask, offset, idx as nat, data@, control_counts@, data_counts@),
            code_mask(codes.subrange(idx as int, codes.len() as int)) == Some(
                mask.subrange(idx as int, codes.len() as int),
            ),
        decreases len - idx,
    {
        let ghost suffix = codes.subrange(idx as int, codes.len() as int);
        let opcode = data[idx];
        let ghost n = code_length(opcode);
        proof {
            assert(suffix[0] == opcode);
            lemma_code_mask_len(suffix.subrange(n as int, suffix.len() as int));
            let hm = code_head_mask(opcode);
            let rest = code_mask(suffix.subrange(n as int, suffix.len() as int)).unwrap();
            assert(code_mask(suffix) == Some(hm + rest));
            assert(mask.subrange(idx as int, codes.len() as int) == hm + rest);
            assert forall|k: int| 0 <= k < n implies #[trigger] mask[idx + k] == hm[k] by {
                assert(mask[idx + k] == mask.subrange(idx as int, codes.len() as int)[k]);
                assert((hm + rest)[k] == hm[k]);
            }
            assert(mask[idx + 0] == hm[0]);
            assert(mask[idx as int] == true);
            assert(suffix.subrange(n as int, suffix.len() as int) =~= codes.subrange(
                idx + n,
                codes.len() as int,
            ));
            assert(mask.subrange(idx + n, codes.len() as int) =~= mask.subrange(
                idx as int,
                codes.len() as int,
            ).subrange(n as int, (codes.len() - idx) as int));
        }
        map_byte(data, &mut control_counts, &mut data_counts, idx, offset, true, Ghost(codes), Ghost(mask));
        idx = idx + 1;
        if opcode & 1 != 0 {
            assert(opcode % 2 == 1) by (bit_vector)
                requires
                    opcode & 1 != 0,
            ;
            assert(mask[(idx - 1) + 1] == true);
            map_byte(data, &mut control_counts, &mut data_counts, idx, offset, true, Ghost(codes), Ghost(mask));
            idx = idx + 1;
        } else {
            assert(opcode % 2 == 0 && opcode >> 1u8 == opcode / 2) by (bit_vector)
                requires
                    opcode & 1 == 0,
            ;
            let code_len = ((opcode >> 1u8) as usize) + 1;
            let end = idx + code_len;
            assert forall|j: int| idx <= j < end implies mask[j] == false by {
                assert(mask[(idx - 1) + (j - (idx - 1))] == false);
            }
            while idx < end
                invariant
                    len == codes.len(),
                    codes.len() <= u32::MAX,
                    mask.len() == codes.len(),
                    mask == code_mask(codes).unwrap(),
                    end <= codes.len(),
                    idx <= end,
                    forall|j: int| idx <= j < end ==> mask[j] == false,
                    map_state_ok(codes, mask, offset, idx as nat, data@, control_counts@, data_counts@),
                    code_mask(codes.subrange(end as int, codes.len() as int)) == Some(
                        mask.subrange(end as int, codes.len() as int),
                    ),
                decreases end - idx,
            {
                map_byte(data, &mut control_counts, &mut data_counts, idx, offset, false, Ghost(codes), Ghost(mask));
                idx = idx + 1;
            }
        }
    }
    proof {
        assert(data@ =~= shift_control_bytes(codes, mask, offset));
        lemma_byte_counts_len(codes, mask, codes.len(), true);
        lemma_byte_counts_len(codes, mask, codes.len(), false);
        assert(to_nats(control_counts@) =~= byte_counts(codes, mask, codes.len(), true));
        assert(to_nats(data_counts@) =~= byte_counts(codes, mask, codes.len(), false));
    }
    (control_counts, data_counts)
}

pub(crate) proof fn lemma_code_mask_len(codes: Seq<u8>)
    ensures
        code_mask(codes) is Some ==> code_mask(codes).unwrap().len() == codes.len(),
    decreases codes.len(),
{
    if codes.len() > 0 {
        let n = code_length(codes[0]);
        if n <= codes.len() {
            lemma_code_mask_len(codes.subrange(n as int, codes.len() as int));
        }
    }
}

/// Counts byte `idx` of `data` as a control or data byte, and shifts it if it is a control byte.
fn map_byte(
    data: &mut Vec<u8>,
    control_counts: &mut [u32; 256],
    data_counts: &mut [u32; 256],
    idx: usize,
    offset: u8,
    is_control: bool,
    Ghost(codes): Ghost<Seq<u8>>,
    Ghost(mask): Ghost<Seq<bool>>,
)
    requires
        idx < codes.len(),
        is_control == mask[idx as int],
        codes.len() <= u32::MAX,
        mask.len() == codes.len(),
        map_state_ok(codes, mask, offset, idx as nat, old(data)@, old(control_counts)@, old(data_counts)@),
    ensures
        map_state_ok(codes, mask, offset, (idx + 1) as nat, final(data)@, final(control_counts)@, final(data_counts)@),
{
    proof {
        lemma_byte_counts_len(codes, mask, idx as nat, true);
        lemma_byte_counts_len(codes, mask, idx as nat, false);
    }
    let b = data[idx];
    if is_control {
        control_counts[b as usize] = control_counts[b as usize] + 1;
        data.set(idx, b.wrapping_sub(offset));
    } else {
        data_counts[b as usize] = data_counts[b as usize] + 1;
    }
    proof {
        let wb = b.wrapping_sub(offset);
        assert(wb == ((b - offset) % 256) as u8);
    }
}

/// The counts as natural numbers.
pub open spec fn to_nats(s: Seq<u32>) -> Seq<nat> {
    Seq::new(s.len(), |i: int| s[i] as nat)
}

proof fn lemma_correlation_monotone(dc: Seq<nat>, cc: Seq<nat>, offset: nat, a: nat, b: nat)
    requires
        a <= b,
    ensures
        correlation(dc, cc, offset, a) <= correlation(dc, cc, offset, b),
    decreases b - a,
{
    if a < b {
        lemma_correlation_monotone(dc, cc, offset, a, (b - 1) as nat);
    }
}

/// The offset (0 to 255) at which the control byte counts correlate most with the data byte
/// counts, the lowest such offset on ties, and 0 when every correlation is 0.
fn calc_max_correlation_offset(data_counts: &[u32; 256], control_counts: &[u32; 256]) -> (out: u8)
    requires
        forall|offset: nat|
            offset < 256 ==> #[trigger] correlation(
                to_nats(data_counts@),
                to_nats(control_counts@),
                offset,
                256,
            ) <= u32::MAX,
    ensures
        out as nat == best_offset_from(to_nats(data_counts@), to_nats(control_counts@), 0, 0, 0),
{
    let ghost dc = to_nats(data_counts@);
    let ghost cc = to_nats(control_counts@);
    let mut max_correlation: u32 = 0;
    let mut max_correlation_offset: usize = 0;
    let mut offset: usize = 0;
    while offset < 256
        invariant
            offset <= 256,
            max_correlation_offset < 256,
            dc == to_nats(data_counts@),
            cc == to_nats(control_counts@),
            forall|o: nat| o < 256 ==> #[trigger] correlation(dc, cc, o, 256) <= u32::MAX,
            best_offset_from(dc, cc, offset as nat, max_correlation as nat, max_correlation_offset as nat)
                == best_offset_from(dc, cc, 0, 0, 0),
        decreases 256 - offset,
    {
        let mut correlation_sum: u32 = 0;
        let mut i: usize = 0;
        assert(correlation(dc, cc, offset as nat, 256) <= u32::MAX);
        while i < 256
            invariant
                i <= 256,
                offset < 256,
                dc == to_nats(data_counts@),
                cc == to_nats(control_counts@),
                correlation(dc, cc, offset as nat, 256) <= u32::MAX,
                correlation_sum == correlation(dc, cc, offset as nat, i as nat),
            decreases 256 - i,
        {
            proof {
                lemma_correlation_monotone(dc, cc, offset as nat, (i + 1) as nat, 256);
            }
            let sum_index: usize = i + offset;
            assert(sum_index & 0xff == sum_index % 256) by (bit_vector);
            let product = data_counts[i] * control_counts[sum_index & 0xff];
            correlation_sum = correlation_sum + product;
            i = i + 1;
        }
        if correlation_sum > max_correlation {
            max_correlation = correlation_sum;
            max_correlation_offset = offset;
        }
        offset = offset + 1;
    }
    max_correlation_offset as u8
}

impl LZ77Encoder {
    /// Shifts the control bytes of the codes by the offset that makes them resemble the data
    /// bytes most, and puts the offset in front.
    fn entropy_transform(&mut self)
        requires
            code_mask(old(self).out@) is Some,
            old(self).out@.len() <= u32::MAX,
            forall|offset: nat|
                offset < 256 ==> #[trigger] correlation(
                    byte_counts(old(self).out@, code_mask(old(self).out@).unwrap(), old(self).out@.len(), false),
                    byte_counts(old(self).out@, code_mask(old(self).out@).unwrap(), old(self).out@.len(), true),
                    offset,
                    256,
                ) <= u32::MAX,
        ensures
            final(self).out@ == entropy_transformed(old(self).out@),
    {
        let ghost codes = self.out@;
        let ghost mask = code_mask(codes).unwrap();
        let (control_code_counts, data_counts) = map_output_bytes(&mut self.out, 0);
        proof {
            assert(self.out@ =~= codes);
        }
        let offset = calc_max_correlation_offset(&data_counts, &control_code_counts);
        map_output_bytes(&mut self.out, offset);
        self.out.insert(0, offset);
        proof {
            assert(self.out@ =~= seq![offset] + shift_control_bytes(codes, mask, offset));
        }
    }

    /// Emits the codes for the remaining bytes and returns the encoded output.
    pub fn finish(self) -> (out: Vec<u8>)
        requires
            self.wf(),
            code_mask(self.out@) is Some,
            model_finish_codes(self.view()).len() <= u32::MAX,
            forall|offset: nat|
                offset < 256 ==> #[trigger] correlation(
                    byte_counts(model_finish_codes(self.view()), code_mask(model_finish_codes(self.view())).unwrap(), model_finish_codes(self.view()).len(), false),
                    byte_counts(model_finish_codes(self.view()), code_mask(model_finish_codes(self.view())).unwrap(), model_finish_codes(self.view()).len(), true),
                    offset,
                    256,
                ) <= u32::MAX,
        ensures
            out@ == entropy_transformed(model_finish_codes(self.view())),
    {
        let mut encoder = self;
        let ghost m = encoder.view();
        proof {
            lemma_finish_codes(m);
        }
        encoder.finish_in_place();
        encoder.out
    }

    fn finish_in_place(&mut self)
        requires
            old(self).wf(),
            code_mask(old(self).out@) is Some,
            model_finish_codes(old(self).view()).len() <= u32::MAX,
            forall|offset: nat|
                offset < 256 ==> #[trigger] correlation(
                    byte_counts(model_finish_codes(old(self).view()), code_mask(model_finish_codes(old(self).view())).unwrap(), model_finish_codes(old(self).view()).len(), false),
                    byte_counts(model_finish_codes(old(self).view()), code_mask(model_finish_codes(old(self).view())).unwrap(), model_finish_codes(old(self).view()).len(), true),
                    offset,
                    256,
                ) <= u32::MAX,
        ensures
            final(self).out@ == entropy_transformed(model_finish_codes(old(self).view())),
    {
        let ghost m = self.view();
        proof {
            lemma_finish_codes(m);
        }
        if self.pending_symbols > 0 {
            self.emit_direct_data_code(self.pending_symbols - self.recall_length);
        }
        if self.recall_length > 0 {
            let current_max_recall_distance = max_distance(&self.recall_distances);
            proof {
                lemma_seq_max_bounded(self.recall_distances@);
            }
            self.emit_recall_code(current_max_recall_distance, self.recall_length);
        }
        assert(self.out@ == model_finish_codes(m));
        self.entropy_transform();
    }
}

/// Encodes `data` with LZ77.
pub fn encode_lz77(data: &[u8]) -> (out: Vec<u8>)
    requires
        lz77_counts_fit(data@),
    ensures
        out@ == lz77_encode(data@),
{
    let mut encoder = LZ77Encoder::new();
    let mut i: usize = 0;
    while i < data.len()
        invariant
            i <= data@.len(),
            encoder.wf(),
            encoder.view() == model_after(data@.subrange(0, i as int)),
            code_mask(encoder.out@) is Some,
        decreases data@.len() - i,
    {
        proof {
            assert(data@.subrange(0, i + 1).drop_last() =~= data@.subrange(0, i as int));
            lemma_push_symbol_codes(encoder.view(), data@[i as int]);
        }
        encoder.push_symbol(data[i]);
        i = i + 1;
    }
    proof {
        assert(data@.subrange(0, i as int) =~= data@);
    }
    encoder.finish()
}

/// The code being decoded: direct data of the given length, or a recall of the given length at
/// the given distance.
pub enum LZ77Opcode {
    DirectData(usize),
    Recall(usize, usize),
}

/// The state of an LZ77 decoder apart from its source: the last 256 bytes output (most recent
/// first), the control byte offset, the current code and how many of its bytes were output.
pub struct DecoderModel {
    pub history: Seq<u8>,
    pub offset: u8,
    pub recall: bool,
    pub distance: nat,
    pub len: nat,
    pub progress: nat,
}

/// One decoding step from `input` at position `pos`: the byte output, the next state and the
/// next input position.
pub open spec fn decoder_step(st: DecoderModel, input: spec_fn(nat) -> u8, pos: nat) -> (u8, DecoderModel, nat) {
    let (st1, pos1) = decoder_fetch(st, input, pos);
    decoder_emit(st1, input, pos1)
}

/// Reads the next code when the current one is complete.
pub open spec fn decoder_fetch(st: DecoderModel, input: spec_fn(nat) -> u8, pos: nat) -> (DecoderModel, nat) {
    if st.progress >= st.len {
        let op = ((input(pos) + st.offset) % 256) as u8;
        let recall = op % 2 == 1;
        let len = (op / 2 + 1) as nat;
        if recall {
            let distance = ((input(pos + 1) + st.offset) % 256) as nat;
            (DecoderModel { recall: true, distance, len, progress: 0, ..st }, pos + 2)
        } else {
            (DecoderModel { recall: false, distance: 0, len, progress: 0, ..st }, pos + 1)
        }
    } else {
        (st, pos)
    }
}

/// Outputs the next byte of the current code.
pub open spec fn decoder_emit(st1: DecoderModel, input: spec_fn(nat) -> u8, pos1: nat) -> (u8, DecoderModel, nat) {
    let (out, pos2) = if st1.recall {
        (st1.history[st1.distance as int], pos1)
    } else {
        (input(pos1), pos1 + 1)
    };
    (
        out,
        DecoderModel { history: history_push(st1.history, out), progress: st1.progress + 1, ..st1 },
        pos2,
    )
}

/// The state and input position after `n` decoding steps.
pub open spec fn decoder_run(st: DecoderModel, input: spec_fn(nat) -> u8, pos: nat, n: nat) -> (DecoderModel, nat)
    decreases n,
{
    if n == 0 {
        (st, pos)
    } else {
        let (_, st1, pos1) = decoder_step(st, input, pos);
        decoder_run(st1, input, pos1, (n - 1) as nat)
    }
}

/// The bytes decoded from `input`.
pub open spec fn decoder_output(st: DecoderModel, input: spec_fn(nat) -> u8) -> spec_fn(nat) -> u8 {
    |i: nat|
        {
            let (st_i, pos_i) = decoder_run(st, input, 0, i);
            decoder_step(st_i, input, pos_i).0
        }
}

/// Decoding from a later position of an input is decoding from the shifted input.
pub(crate) proof fn lemma_decoder_run_shift(st: DecoderModel, input: spec_fn(nat) -> u8, pos: nat, k: nat, n: nat)
    ensures
        decoder_run(st, input, pos + k, n) == ({
            let (st2, pos2) = decoder_run(st, shift(input, k), pos, n);
            (st2, pos2 + k)
        }),
    decreases n,
{
    if n > 0 {
        let (_, st1, pos1) = decoder_step(st, input, pos + k);
        let (_, st1b, pos1b) = decoder_step(st, shift(input, k), pos);
        assert(st1 == st1b && pos1 == pos1b + k);
        lemma_decoder_run_shift(st1, input, pos1b, k, (n - 1) as nat);
    }
}

proof fn lemma_decode_post(old_d: LZ77Decoder, new_d: LZ77Decoder, src0: SourceDecoder, s: spec_fn(nat) -> u8, st: DecoderModel)
    requires
        old_d.model() == st,
        *old_d.source == src0,
        s == src0.src_stream(),
        new_d.model() == decoder_step(st, s, 0).1,
        new_d.source.src_stream() == shift(s, decoder_step(st, s, 0).2),
        can_follow(*new_d.source, src0, decoder_step(st, s, 0).2),
    ensures
        new_d.spec_stream() == shift(old_d.spec_stream(), 1),
        old_d.spec_stream()(0) == decoder_step(st, s, 0).0,
        forall|n: nat| #[trigger] new_d.spec_can_produce(n) <== old_d.spec_can_produce(n + 1),
{
    let (o, st1, k) = decoder_step(st, s, 0);
    lemma_output_after_step(st, s);
    assert forall|n: nat| old_d.spec_can_produce(n + 1) implies #[trigger] new_d.spec_can_produce(n) by {
        let m = decoder_run(st1, shift(s, k), 0, n).1;
        assert(m + k == decoder_run(st, s, 0, n + 1).1);
        assert(src0.src_can_produce(m + k) ==> new_d.source.src_can_produce(m));
    }
}

proof fn lemma_wrapping_add_u8(x: u8, y: u8)
    ensures
        x.wrapping_add(y) == ((x + y) % 256) as u8,
{
    if x + y >= 256 {
        assert((x + y) % 256 == x + y - 256) by (nonlinear_arith)
            requires
                256 <= x + y < 512,
        ;
    } else {
        assert((x + y) % 256 == x + y) by (nonlinear_arith)
            requires
                0 <= x + y < 256,
        ;
    }
}

/// Decoding one step and then the rest of the input is decoding the whole input.
proof fn lemma_output_after_step(st: DecoderModel, s: spec_fn(nat) -> u8)
    ensures
        ({
            let (o, st1, k) = decoder_step(st, s, 0);
            &&& decoder_output(st, s)(0) == o
            &&& decoder_output(st1, shift(s, k)) == shift(decoder_output(st, s), 1)
            &&& forall|n: nat|
                #[trigger] decoder_run(st1, shift(s, k), 0, n).1 + k == decoder_run(st, s, 0, n + 1).1
        }),
{
    let (o, st1, k) = decoder_step(st, s, 0);
    assert forall|i: nat| #[trigger] decoder_output(st1, shift(s, k))(i) == shift(decoder_output(st, s), 1)(i) by {
        lemma_decoder_run_shift(st1, s, 0, k, i);
        let (st_i, p_i) = decoder_run(st1, shift(s, k), 0, i);
        lemma_decoder_step_shift(st_i, s, p_i, k);
    }
    assert(decoder_output(st1, shift(s, k)) =~= shift(decoder_output(st, s), 1));
    assert forall|n: nat| #[trigger] decoder_run(st1, shift(s, k), 0, n).1 + k == decoder_run(st, s, 0, n + 1).1 by {
        lemma_decoder_run_shift(st1, s, 0, k, n);
    }
}

proof fn lemma_decoder_step_shift(st: DecoderModel, input: spec_fn(nat) -> u8, pos: nat, k: nat)
    ensures
        decoder_step(st, input, pos + k) == ({
            let (o, st2, pos2) = decoder_step(st, shift(input, k), pos);
            (o, st2, pos2 + k)
        }),
{
}

proof fn lemma_decoder_run_monotone(st: DecoderModel, input: spec_fn(nat) -> u8, pos: nat, a: nat, b: nat)
    requires
        a <= b,
    ensures
        decoder_run(st, input, pos, a).1 <= decoder_run(st, input, pos, b).1,
        pos <= decoder_run(st, input, pos, a).1,
    decreases b,
{
    if b > 0 {
        let (_, st1, pos1) = decoder_step(st, input, pos);
        if a > 0 {
            lemma_decoder_run_monotone(st1, input, pos1, (a - 1) as nat, (b - 1) as nat);
        } else {
            lemma_decoder_run_monotone(st1, input, pos1, 0, (b - 1) as nat);
        }
    }
}

/// Decodes LZ77 codes read from a source decoder.
pub struct LZ77Decoder<'a> {
    pub source: Box<SourceDecoder<'a>>,
    pub buffer: RingBuffer,
    pub control_code_offset: u8,
    pub opcode: LZ77Opcode,
    pub progress: usize,
}

impl<'a> LZ77Decoder<'a> {
    /// The decoder state apart from the source.
    pub open spec fn model(&self) -> DecoderModel {
        DecoderModel {
            history: self.buffer.view(),
            offset: self.control_code_offset,
            recall: self.opcode is Recall,
            distance: match self.opcode {
                LZ77Opcode::Recall(d, _) => d as nat,
                LZ77Opcode::DirectData(_) => 0,
            },
            len: match self.opcode {
                LZ77Opcode::Recall(_, l) => l as nat,
                LZ77Opcode::DirectData(l) => l as nat,
            },
            progress: self.progress as nat,
        }
    }

    pub open spec fn wf(&self) -> bool
        decreases self,
    {
        &&& self.buffer.wf()
        &&& self.progress <= self.model().len
        &&& self.model().len <= MAX_LENGTH
        &&& self.model().distance < MAX_RECALL_DIST
        &&& self.source.wf()
    }

    /// The bytes this decoder produces from now on.
    pub open spec fn spec_stream(&self) -> spec_fn(nat) -> u8
        decreases self,
    {
        decoder_output(self.model(), self.source.src_stream())
    }

    /// The next `n` bytes can be decoded when the source can produce the bytes they read.
    pub open spec fn spec_can_produce(&self, n: nat) -> bool
        decreases self,
    {
        self.source.src_can_produce(decoder_run(self.model(), self.source.src_stream(), 0, n).1)
    }

    pub proof fn lemma_can_produce_monotone(&self, a: nat, b: nat)
        requires
            a <= b,
            self.wf(),
            self.spec_can_produce(b),
        ensures
            self.spec_can_produce(a),
        decreases self,
    {
        let s = self.source.src_stream();
        lemma_decoder_run_monotone(self.model(), s, 0, a, b);
        self.source.lemma_can_produce_monotone(
            decoder_run(self.model(), s, 0, a).1,
            decoder_run(self.model(), s, 0, b).1,
        );
    }

    /// Decodes the next byte.
    pub fn decode(&mut self) -> (out: u8)
        requires
            old(self).wf(),
            old(self).spec_can_produce(1),
        ensures
            final(self).wf(),
            out == old(self).spec_stream()(0),
            final(self).spec_stream() == shift(old(self).spec_stream(), 1),
            forall|n: nat| #[trigger] final(self).spec_can_produce(n) <== old(self).spec_can_produce(n + 1),
            final(self).source.depth() == old(self).source.depth(),
        decreases old(self).source.depth() + 1, 2nat,
    {
        let ghost s = self.source.src_stream();
        let ghost st = self.model();
        let ghost src0 = *self.source;
        let ghost fetched = decoder_fetch(st, s, 0);
        proof {
            reveal_with_fuel(decoder_run, 2);
            assert(shift(s, 0) =~= s);
            assert(can_follow(*self.source, src0, 0));
        }
        let ghost k = decoder_step(st, s, 0).2;
        assert(decoder_fetch(st, s, 0).1 <= k);
        let read = self.fetch_opcode(Ghost(src0), Ghost(s), Ghost(st), Ghost(k));
        let out = self.emit_byte(Ghost(src0), Ghost(s), Ghost(st), read);
        proof {
            lemma_decode_post(*old(self), *self, src0, s, st);
        }
        out
    }

    /// Reads byte `r` of the source stream `s` and adds the control byte offset.
    fn read_control_byte(
        &mut self,
        Ghost(src0): Ghost<SourceDecoder<'a>>,
        Ghost(s): Ghost<spec_fn(nat) -> u8>,
        Ghost(k): Ghost<nat>,
        Ghost(r): Ghost<nat>,
    ) -> (out: u8)
        requires
            old(self).wf(),
            s == src0.src_stream(),
            src0.wf(),
            src0.src_can_produce(k),
            r < k,
            old(self).source.src_stream() == shift(s, r),
            can_follow(*old(self).source, src0, r),
            old(self).source.depth() == src0.depth(),
        ensures
            final(self).wf(),
            out == ((s(r) + old(self).control_code_offset) % 256) as u8,
            final(self).source.src_stream() == shift(s, r + 1),
            can_follow(*final(self).source, src0, r + 1),
            final(self).source.depth() == src0.depth(),
            final(self).buffer == old(self).buffer,
            final(self).control_code_offset == old(self).control_code_offset,
            final(self).opcode == old(self).opcode,
            final(self).progress == old(self).progress,
        decreases src0.depth() + 1, 0nat,
    {
        proof {
            src0.lemma_can_produce_monotone(r + 1, k);
        }
        let ghost before = *self.source;
        let raw = self.source.decode();
        proof {
            lemma_shift_shift(s, r);
            lemma_can_follow_step(*self.source, before, src0, r);
        }
        let out = raw.wrapping_add(self.control_code_offset);
        proof {
            lemma_wrapping_add_u8(raw, self.control_code_offset);
        }
        out
    }

    fn fetch_opcode(
        &mut self,
        Ghost(src0): Ghost<SourceDecoder<'a>>,
        Ghost(s): Ghost<spec_fn(nat) -> u8>,
        Ghost(st): Ghost<DecoderModel>,
        Ghost(k): Ghost<nat>,
    ) -> (read: Ghost<nat>)
        requires
            old(self).wf(),
            s == src0.src_stream(),
            src0.wf(),
            src0.src_can_produce(k),
            decoder_fetch(st, s, 0).1 <= k,
            old(self).model() == st,
            *old(self).source == src0,
        ensures
            final(self).wf(),
            (final(self).model(), read@) == decoder_fetch(st, s, 0),
            final(self).source.src_stream() == shift(s, read@),
            can_follow(*final(self).source, src0, read@),
            final(self).source.depth() == src0.depth(),
        decreases src0.depth() + 1, 1nat,
    {
        let len = match self.opcode {
            LZ77Opcode::DirectData(len) => len,
            LZ77Opcode::Recall(_, len) => len,
        };
        proof {
            assert(shift(s, 0) =~= s);
            assert(can_follow(*self.source, src0, 0));
        }
        if self.progress >= len {
            let opcode = self.read_control_byte(Ghost(src0), Ghost(s), Ghost(k), Ghost(0));
            let code_type = opcode & 1 != 0;
            assert(code_type == (opcode % 2 == 1) && (opcode >> 1u8) == opcode / 2) by (bit_vector)
                requires
                    code_type == (opcode & 1 != 0),
            ;
            let len = ((opcode >> 1u8) as usize) + 1;
            if code_type {
                let distance = self.read_control_byte(Ghost(src0), Ghost(s), Ghost(k), Ghost(1)) as usize;
                self.opcode = LZ77Opcode::Recall(distance, len);
                self.progress = 0;
                return Ghost(2);
            } else {
                self.opcode = LZ77Opcode::DirectData(len);
                self.progress = 0;
                return Ghost(1);
            }
        }
        Ghost(0)
    }

    fn emit_byte(
        &mut self,
        Ghost(src0): Ghost<SourceDecoder<'a>>,
        Ghost(s): Ghost<spec_fn(nat) -> u8>,
        Ghost(st): Ghost<DecoderModel>,
        Ghost(read): Ghost<nat>,
    ) -> (out: u8)
        requires
            old(self).wf(),
            s == src0.src_stream(),
            src0.wf(),
            src0.src_can_produce(decoder_step(st, s, 0).2),
            (old(self).model(), read) == decoder_fetch(st, s, 0),
            old(self).source.src_stream() == shift(s, read),
            can_follow(*old(self).source, src0, read),
            old(self).source.depth() == src0.depth(),
        ensures
            final(self).wf(),
            (out, final(self).model(), decoder_step(st, s, 0).2) == decoder_step(st, s, 0),
            final(self).source.src_stream() == shift(s, decoder_step(st, s, 0).2),
            can_follow(*final(self).source, src0, decoder_step(st, s, 0).2),
            final(self).source.depth() == src0.depth(),
        decreases src0.depth() + 1, 0nat,
    {
        let out = match self.opcode {
            LZ77Opcode::DirectData(_) => {
                proof {
                    src0.lemma_can_produce_monotone(read + 1, decoder_step(st, s, 0).2);
                }
                let ghost before = *self.source;
                let b = self.source.decode();
                proof {
                    lemma_can_follow_step(*self.source, before, src0, read);
                    lemma_shift_shift(s, read);
                }
                b
            },
            LZ77Opcode::Recall(distance, _) => self.buffer.read(distance),
        };
        self.buffer.push(out);
        self.progress = self.progress + 1;
        out
    }
}

/// The decoder state right after the control byte offset is read.
pub open spec fn initial_decoder_model(offset: u8) -> DecoderModel {
    DecoderModel {
        history: Seq::new(256, |i: int| 0u8),
        offset,
        recall: false,
        distance: 0,
        len: 0,
        progress: 0,
    }
}

/// The bytes decoded from the LZ77 encoded stream `input`.
pub open spec fn lz77_decode_stream(input: spec_fn(nat) -> u8) -> spec_fn(nat) -> u8 {
    decoder_output(initial_decoder_model(input(0)), shift(input, 1))
}

impl<'a> LZ77Decoder<'a> {
    /// A decoder of the LZ77 codes produced by `source`; reads the control byte offset.
    pub fn new(source: Box<SourceDecoder<'a>>) -> (out: LZ77Decoder<'a>)
        requires
            source.wf(),
            source.src_can_produce(1),
        ensures
            out.wf(),
            out.spec_stream() == lz77_decode_stream(source.src_stream()),
            forall|n: nat|
                #[trigger] out.spec_can_produce(n) <== source.src_can_produce(
                    decoder_run(initial_decoder_model(source.src_stream()(0)), shift(source.src_stream(), 1), 0, n).1 + 1,
                ),
            out.source.depth() == source.depth(),
    {
        let ghost src0 = *source;
        let mut source = source;
        let control_code_offset = source.decode();
        let out = LZ77Decoder {
            source,
            buffer: RingBuffer::new(),
            control_code_offset,
            opcode: LZ77Opcode::DirectData(0),
            progress: 0,
        };
        proof {
            assert(out.model() == initial_decoder_model(control_code_offset));
            assert forall|n: nat|
                src0.src_can_produce(
                    decoder_run(initial_decoder_model(src0.src_stream()(0)), shift(src0.src_stream(), 1), 0, n).1 + 1,
                ) implies #[trigger] out.spec_can_produce(n) by {
                let m = decoder_run(initial_decoder_model(src0.src_stream()(0)), shift(src0.src_stream(), 1), 0, n).1;
                assert(out.source.src_can_produce(m) <== src0.src_can_produce(m + 1));
            }
        }
        out
    }
}

impl<'a> Decoder for LZ77Decoder<'a> {
    open spec fn stream(&self) -> spec_fn(nat) -> u8 {
        self.spec_stream()
    }

    open spec fn can_produce(&self, n: nat) -> bool {
        self.wf() && self.spec_can_produce(n)
    }

    proof fn lemma_produce_monotone(&self, a: nat, b: nat) {
        self.lemma_can_produce_monotone(a, b);
    }

    fn decode_u8(&mut self) -> (out: u8) {
        self.decode()
    }
}

} // verus!

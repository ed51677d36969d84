//! Decoding the LZ77 encoding of a byte sequence gives the sequence back.
//!
//! The proof goes through the meaning of a sequence of codes (`run_codes`): the encoder's
//! codes always stand for the bytes it has taken, and the decoder outputs what the codes
//! stand for.
use vstd::prelude::*;
use crate::decoder::{shift, starts_with};
use crate::lz77::{
    all_distances, code_head_mask, code_length, code_mask, control_code_offset, decoder_output,
    decoder_run, decoder_step, direct_opcode, entropy_transformed, history_push,
    initial_decoder_model, initial_model, keep_matching, lemma_code_mask_append, lemma_code_mask_len,
    lemma_code_mask_single, lemma_counts_fit_short, lemma_finish_codes, lz77_counts_fit, lemma_keep_matching_bounded,
    lemma_push_symbol_wf, lemma_seq_max_bounded, lz77_decode_stream,
    lz77_encode, model_after, model_continue_run, model_emit_direct, model_emit_recall,
    model_finish_codes, model_flush_limits, model_push_symbol, model_start_run, model_wf,
    recall_opcode, seq_max, DecoderModel, EncoderModel, MAX_LENGTH, MAX_RECALL_DIST,
};

verus! {

/// The byte `back + 1` positions before the end of `y` (0 before its start).
pub open spec fn byte_before(y: Seq<u8>, back: int) -> u8 {
    if 0 <= y.len() - 1 - back < y.len() {
        y[y.len() - 1 - back]
    } else {
        0
    }
}

/// The last 256 bytes of `y`, most recent first, zeros before its start.
pub open spec fn history_of(y: Seq<u8>) -> Seq<u8> {
    Seq::new(256, |d: int| byte_before(y, d))
}

/// `y` followed by `len` bytes, each a copy of the byte `distance + 1` positions before it.
pub open spec fn recall_bytes(y: Seq<u8>, distance: nat, len: nat) -> Seq<u8>
    decreases len,
{
    if len == 0 {
        y
    } else {
        let z = recall_bytes(y, distance, (len - 1) as nat);
        z.push(byte_before(z, distance as int))
    }
}

/// `y` followed by the bytes that one complete code at the start of `codes` stands for.
pub open spec fn run_code(codes: Seq<u8>, y: Seq<u8>) -> Seq<u8> {
    let op = codes[0];
    if op % 2 == 1 {
        recall_bytes(y, codes[1] as nat, (op / 2 + 1) as nat)
    } else {
        y + codes.subrange(1, code_length(op) as int)
    }
}

/// `y` followed by the bytes that the complete codes at the start of `codes` stand for.
pub open spec fn run_codes(codes: Seq<u8>, y: Seq<u8>) -> Seq<u8>
    decreases codes.len(),
{
    if codes.len() == 0 {
        y
    } else if code_length(codes[0]) > codes.len() {
        y
    } else {
        run_codes(codes.subrange(code_length(codes[0]) as int, codes.len() as int), run_code(codes, y))
    }
}

proof fn lemma_recall_bytes_len(y: Seq<u8>, distance: nat, len: nat)
    ensures
        recall_bytes(y, distance, len).len() == y.len() + len,
        recall_bytes(y, distance, len).take(y.len() as int) == y,
    decreases len,
{
    if len > 0 {
        lemma_recall_bytes_len(y, distance, (len - 1) as nat);
        let z = recall_bytes(y, distance, (len - 1) as nat);
        assert(z.push(byte_before(z, distance as int)).take(y.len() as int) =~= z.take(y.len() as int));
    }
}

/// The bytes a code stands for extend what was decoded before.
proof fn lemma_run_codes_extends(codes: Seq<u8>, y: Seq<u8>)
    ensures
        run_codes(codes, y).len() >= y.len(),
        run_codes(codes, y).take(y.len() as int) == y,
    decreases codes.len(),
{
    if codes.len() > 0 && code_length(codes[0]) <= codes.len() {
        let z = run_code(codes, y);
        let op = codes[0];
        if op % 2 == 1 {
            lemma_recall_bytes_len(y, codes[1] as nat, (op / 2 + 1) as nat);
        } else {
            assert((y + codes.subrange(1, code_length(op) as int)).take(y.len() as int) =~= y);
        }
        lemma_run_codes_extends(codes.subrange(code_length(op) as int, codes.len() as int), z);
        let w = run_codes(codes.subrange(code_length(op) as int, codes.len() as int), z);
        assert(w.take(y.len() as int) =~= w.take(z.len() as int).take(y.len() as int));
    } else {
        assert(y.take(y.len() as int) =~= y);
    }
}

/// Running complete codes and then more codes is running them all.
proof fn lemma_run_codes_append(a: Seq<u8>, b: Seq<u8>, y: Seq<u8>)
    requires
        code_mask(a) is Some,
    ensures
        run_codes(a + b, y) == run_codes(b, run_codes(a, y)),
    decreases a.len(),
{
    if a.len() == 0 {
        assert(a + b =~= b);
    } else {
        let op = a[0];
        let n = code_length(op);
        let a_rest = a.subrange(n as int, a.len() as int);
        assert((a + b)[0] == op);
        assert((a + b).subrange(n as int, (a + b).len() as int) =~= a_rest + b);
        assert(n <= a.len());
        assert(code_mask(a_rest) is Some);
        if op % 2 == 1 {
            assert((a + b)[1] == a[1]);
        } else {
            assert((a + b).subrange(1, n as int) =~= a.subrange(1, n as int));
        }
        assert(run_code(a + b, y) == run_code(a, y));
        assert(code_length((a + b)[0]) <= (a + b).len());
        assert(run_codes(a + b, y) == run_codes((a + b).subrange(n as int, (a + b).len() as int), run_code(a + b, y)));
        lemma_run_codes_append(a_rest, b, run_code(a, y));
        assert(run_codes(a, y) == run_codes(a_rest, run_code(a, y)));
    }
}

/// Running a single complete code.
proof fn lemma_run_single_code(code: Seq<u8>, y: Seq<u8>)
    requires
        code.len() >= 1,
        code.len() == code_length(code[0]),
    ensures
        run_codes(code, y) == run_code(code, y),
{
    let rest = code.subrange(code.len() as int, code.len() as int);
    assert(rest =~= Seq::<u8>::empty());
    assert(run_codes(rest, run_code(code, y)) == run_code(code, y));
    assert(run_codes(code, y) == run_codes(rest, run_code(code, y)));
}


/// Whether each of the last `run` bytes of `x` repeats the byte `d + 1` positions before it.
pub open spec fn run_matches(x: Seq<u8>, run: nat, d: nat) -> bool {
    forall|j: int| x.len() - run <= j < x.len() ==> #[trigger] x[j] == byte_before(x.take(j), d as int)
}

/// The invariant linking the encoder's state to the bytes `x` it has taken: its codes stand
/// for all but the pending bytes, its history holds the last bytes of `x`, and the current run
/// repeats the bytes at each of its distances.
pub open spec fn encoder_inv(m: EncoderModel, x: Seq<u8>) -> bool {
    &&& model_wf(m)
    &&& codes_inv(m, x)
}

/// The part of the encoder's invariant that speaks of its codes, history and run.
pub open spec fn codes_inv(m: EncoderModel, x: Seq<u8>) -> bool {
    &&& code_mask(m.out) is Some
    &&& m.history == history_of(x)
    &&& m.pending <= x.len()
    &&& run_codes(m.out, seq![]) == x.take(x.len() - m.pending)
    &&& forall|k: int|
        0 <= k < m.distances.len() ==> run_matches(x, m.recall_length, #[trigger] m.distances[k] as nat)
}

proof fn lemma_emit_direct_inv(m: EncoderModel, x: Seq<u8>, len: nat)
    requires
        code_mask(m.out) is Some,
        m.history == history_of(x),
        m.pending <= x.len(),
        m.pending <= MAX_LENGTH,
        len <= m.pending,
        run_codes(m.out, seq![]) == x.take(x.len() - m.pending),
    ensures
        code_mask(model_emit_direct(m, len).out) is Some,
        run_codes(model_emit_direct(m, len).out, seq![]) == x.take(
            x.len() - model_emit_direct(m, len).pending,
        ),
        model_emit_direct(m, len).pending == m.pending - len,
        model_emit_direct(m, len).history == m.history,
        model_emit_direct(m, len).distances == m.distances,
        model_emit_direct(m, len).recall_length == m.recall_length,
{
    if len > 0 {
        let t = x.len() - m.pending;
        let op = direct_opcode(len);
        let data = Seq::new(len, |i: int| m.history[m.pending - i - 1]);
        let code = seq![op] + data;
        assert(op % 2 == 0 && code_length(op) == len + 1);
        assert(model_emit_direct(m, len).out =~= m.out + code);
        lemma_code_mask_single(code);
        lemma_code_mask_append(m.out, code);
        lemma_run_codes_append(m.out, code, seq![]);
        lemma_run_single_code(code, x.take(t));
        assert(code.subrange(1, code_length(op) as int) =~= data);
        assert(x.take(t) + data =~= x.take(t + len)) by {
            assert forall|i: int| 0 <= i < len implies data[i] == x[t + i] by {
                assert(m.history[m.pending - i - 1] == byte_before(x, m.pending - i - 1));
            }
        }
    }
}

/// Copying at a distance where the run matches reproduces the run.
proof fn lemma_recall_matches(x: Seq<u8>, d: nat, len: nat, j: nat)
    requires
        run_matches(x, len, d),
        len <= x.len(),
        j <= len,
    ensures
        recall_bytes(x.take(x.len() - len), d, j) == x.take(x.len() - len + j),
    decreases j,
{
    if j > 0 {
        lemma_recall_matches(x, d, len, (j - 1) as nat);
        let k = x.len() - len + j - 1;
        assert(x[k] == byte_before(x.take(k), d as int));
        assert(x.take(k).push(x[k]) =~= x.take(k + 1));
    }
}

proof fn lemma_emit_recall_inv(m: EncoderModel, x: Seq<u8>, d: nat, len: nat)
    requires
        code_mask(m.out) is Some,
        1 <= len <= MAX_LENGTH,
        d < MAX_RECALL_DIST,
        len <= x.len(),
        len <= m.pending,
        run_codes(m.out, seq![]) == x.take(x.len() - len),
        run_matches(x, len, d),
    ensures
        code_mask(model_emit_recall(m, d as usize, len).out) is Some,
        run_codes(model_emit_recall(m, d as usize, len).out, seq![]) == x,
        model_emit_recall(m, d as usize, len).pending == m.pending - len,
        model_emit_recall(m, d as usize, len).history == m.history,
{
    let op = recall_opcode(len);
    let code = seq![op, d as u8];
    assert(op % 2 == 1 && op / 2 + 1 == len);
    assert(model_emit_recall(m, d as usize, len).out =~= m.out + code);
    lemma_code_mask_single(code);
    lemma_code_mask_append(m.out, code);
    lemma_run_codes_append(m.out, code, seq![]);
    lemma_run_single_code(code, x.take(x.len() - len));
    lemma_recall_matches(x, d, len, len);
    assert(x.take(x.len() as int) =~= x);
}

/// Whether `v` is one of the distances `ds` and the history holds `symbol` there.
pub open spec fn kept_distance(ds: Seq<usize>, history: Seq<u8>, symbol: u8, v: usize) -> bool {
    &&& history[v as int] == symbol
    &&& exists|j: int| 0 <= j < ds.len() && ds[j] == v
}

/// The distances kept are distances of `ds` at which the history holds `symbol`.
proof fn lemma_keep_matching_elems(ds: Seq<usize>, history: Seq<u8>, symbol: u8)
    ensures
        forall|k: int|
            0 <= k < keep_matching(ds, history, symbol).len() ==> kept_distance(
                ds,
                history,
                symbol,
                #[trigger] keep_matching(ds, history, symbol)[k],
            ),
    decreases ds.len(),
{
    if ds.len() > 0 {
        let kept = keep_matching(ds, history, symbol);
        let rest = keep_matching(ds.drop_last(), history, symbol);
        lemma_keep_matching_elems(ds.drop_last(), history, symbol);
        assert forall|k: int| 0 <= k < kept.len() implies kept_distance(ds, history, symbol, #[trigger] kept[k]) by {
            if k < rest.len() {
                assert(kept[k] == rest[k]);
                assert(kept_distance(ds.drop_last(), history, symbol, rest[k]));
                let j = choose|j: int| 0 <= j < ds.drop_last().len() && ds.drop_last()[j] == rest[k];
                assert(ds[j] == rest[k]);
            } else {
                assert(ds[ds.len() - 1] == kept[k]);
            }
        }
    }
}

/// The largest distance is one of the distances.
proof fn lemma_seq_max_elem(ds: Seq<usize>)
    requires
        ds.len() > 0,
    ensures
        exists|j: int| 0 <= j < ds.len() && ds[j] == seq_max(ds),
    decreases ds.len(),
{
    if ds.len() > 1 {
        lemma_seq_max_elem(ds.drop_last());
        let j = choose|j: int| 0 <= j < ds.drop_last().len() && ds.drop_last()[j] == seq_max(ds.drop_last());
        assert(ds[j] == ds.drop_last()[j]);
        assert(ds[ds.len() - 1] == ds.last());
    } else {
        assert(ds[0] == seq_max(ds));
    }
}

proof fn lemma_history_push(x: Seq<u8>, s: u8)
    ensures
        history_of(x.push(s)) == history_push(history_of(x), s),
{
    assert(history_of(x.push(s)) =~= history_push(history_of(x), s)) by {
        assert forall|d: int| 0 <= d < 256 implies history_of(x.push(s))[d] == history_push(history_of(x), s)[d] by {
            if d > 0 {
                assert(history_push(history_of(x), s)[d] == history_of(x)[d - 1]);
            }
        }
    }
}

/// A run that matches at `d`, followed by the byte at distance `d`, still matches there.
proof fn lemma_run_matches_extend(x: Seq<u8>, run: nat, d: nat, s: u8)
    requires
        run_matches(x, run, d),
        run <= x.len(),
        byte_before(x, d as int) == s,
    ensures
        run_matches(x.push(s), run + 1, d),
{
    let x2 = x.push(s);
    assert forall|j: int| x2.len() - (run + 1) <= j < x2.len() implies #[trigger] x2[j] == byte_before(x2.take(j), d as int) by {
        if j < x.len() {
            assert(x2.take(j) =~= x.take(j));
            assert(x[j] == byte_before(x.take(j), d as int));
        } else {
            assert(x2.take(j) =~= x);
        }
    }
}


/// The invariant in the middle of taking the byte `s` after the bytes `x`: the codes and
/// history are as before, and the run already includes `s`.
pub open spec fn mid_inv(m: EncoderModel, x: Seq<u8>, s: u8) -> bool {
    &&& code_mask(m.out) is Some
    &&& m.history == history_of(x)
    &&& m.pending <= x.len()
    &&& m.pending < MAX_LENGTH
    &&& m.recall_length <= m.pending + 1
    &&& (m.distances.len() == 0 <==> m.recall_length == 0)
    &&& forall|i: int| 0 <= i < m.distances.len() ==> #[trigger] m.distances[i] < MAX_RECALL_DIST
    &&& run_codes(m.out, seq![]) == x.take(x.len() - m.pending)
    &&& forall|k: int|
        0 <= k < m.distances.len() ==> run_matches(x.push(s), m.recall_length, #[trigger] m.distances[k] as nat)
}

proof fn lemma_continue_inv(m: EncoderModel, x: Seq<u8>, s: u8)
    requires
        encoder_inv(m, x),
    ensures
        mid_inv(model_continue_run(m, s), x, s),
{
    let m1 = model_continue_run(m, s);
    if m.distances.len() > 0 {
        let kept = keep_matching(m.distances, m.history, s);
        lemma_keep_matching_bounded(m.distances, m.history, s);
        if kept.len() == 0 {
            if m.recall_length > 2 {
                let r = m.recall_length;
                lemma_emit_direct_inv(m, x, (m.pending - r) as nat);
                let e = model_emit_direct(m, (m.pending - r) as nat);
                lemma_seq_max_elem(m.distances);
                let j = choose|j: int| 0 <= j < m.distances.len() && m.distances[j] == seq_max(m.distances);
                assert(run_matches(x, r, m.distances[j] as nat));
                lemma_seq_max_bounded(m.distances);
                lemma_emit_recall_inv(e, x, seq_max(m.distances) as nat, r);
                assert(x.take(x.len() as int) =~= x);
            }
        } else {
            lemma_keep_matching_elems(m.distances, m.history, s);
            assert forall|k: int| 0 <= k < kept.len() implies run_matches(x.push(s), m.recall_length + 1, #[trigger] kept[k] as nat) by {
                assert(kept_distance(m.distances, m.history, s, kept[k]));
                let j = choose|j: int| 0 <= j < m.distances.len() && m.distances[j] == kept[k];
                assert(run_matches(x, m.recall_length, m.distances[j] as nat));
                lemma_run_matches_extend(x, m.recall_length, kept[k] as nat, s);
            }
        }
    }
}

proof fn lemma_start_inv(m: EncoderModel, x: Seq<u8>, s: u8)
    requires
        mid_inv(m, x, s),
    ensures
        mid_inv(model_start_run(m, s), x, s),
{
    if m.distances.len() == 0 {
        let found = keep_matching(all_distances(), m.history, s);
        assert forall|i: int| 0 <= i < all_distances().len() implies #[trigger] all_distances()[i] < MAX_RECALL_DIST by {}
        lemma_keep_matching_bounded(all_distances(), m.history, s);
        lemma_keep_matching_elems(all_distances(), m.history, s);
        assert forall|k: int| 0 <= k < found.len() implies run_matches(x.push(s), 1, #[trigger] found[k] as nat) by {
            assert(kept_distance(all_distances(), m.history, s, found[k]));
            lemma_run_matches_extend(x, 0, found[k] as nat, s);
        }
    }
}

proof fn lemma_store_inv(m: EncoderModel, x: Seq<u8>, s: u8)
    requires
        mid_inv(m, x, s),
    ensures
        codes_inv(
            model_flush_limits(
                EncoderModel { history: history_push(m.history, s), pending: m.pending + 1, ..m },
            ),
            x.push(s),
        ),
{
    let x2 = x.push(s);
    let m3 = EncoderModel { history: history_push(m.history, s), pending: m.pending + 1, ..m };
    lemma_history_push(x, s);
    assert(x2.take(x2.len() - m3.pending) =~= x.take(x.len() - m.pending));
    assert(codes_inv(m3, x2));
    let m4 = if m3.pending >= MAX_LENGTH {
        model_emit_direct(m3, (m3.pending - m3.recall_length) as nat)
    } else {
        m3
    };
    if m3.pending >= MAX_LENGTH {
        lemma_emit_direct_inv(m3, x2, (m3.pending - m3.recall_length) as nat);
    }
    assert(codes_inv(m4, x2));
    if m4.recall_length >= MAX_LENGTH {
        let r = m4.recall_length;
        lemma_seq_max_elem(m4.distances);
        let j = choose|j: int| 0 <= j < m4.distances.len() && m4.distances[j] == seq_max(m4.distances);
        assert(run_matches(x2, r, m4.distances[j] as nat));
        lemma_seq_max_bounded(m4.distances);
        lemma_emit_recall_inv(m4, x2, seq_max(m4.distances) as nat, r);
        assert(x2.take(x2.len() as int) =~= x2);
    }
}

/// Taking a byte keeps the encoder's invariant.
proof fn lemma_push_inv(m: EncoderModel, x: Seq<u8>, s: u8)
    requires
        encoder_inv(m, x),
    ensures
        encoder_inv(model_push_symbol(m, s), x.push(s)),
{
    lemma_continue_inv(m, x, s);
    let m1 = model_continue_run(m, s);
    lemma_start_inv(m1, x, s);
    lemma_store_inv(model_start_run(m1, s), x, s);
    lemma_push_symbol_wf(m, s);
}

/// The encoder's state after `data` satisfies the invariant for `data`.
proof fn lemma_model_after_inv(data: Seq<u8>)
    ensures
        encoder_inv(model_after(data), data),
    decreases data.len(),
{
    if data.len() == 0 {
        assert(history_of(data) =~= initial_model().history);
        assert(data.take(0) =~= Seq::<u8>::empty());
    } else {
        lemma_model_after_inv(data.drop_last());
        lemma_push_inv(model_after(data.drop_last()), data.drop_last(), data.last());
        assert(data.drop_last().push(data.last()) =~= data);
    }
}

/// The codes of the whole input stand for the input.
proof fn lemma_finish_inv(m: EncoderModel, x: Seq<u8>)
    requires
        encoder_inv(m, x),
    ensures
        code_mask(model_finish_codes(m)) is Some,
        run_codes(model_finish_codes(m), seq![]) == x,
{
    lemma_finish_codes(m);
    let m1 = if m.pending > 0 {
        model_emit_direct(m, (m.pending - m.recall_length) as nat)
    } else {
        m
    };
    if m.pending > 0 {
        lemma_emit_direct_inv(m, x, (m.pending - m.recall_length) as nat);
    }
    if m1.recall_length > 0 {
        let r = m1.recall_length;
        lemma_seq_max_elem(m1.distances);
        let j = choose|j: int| 0 <= j < m1.distances.len() && m1.distances[j] == seq_max(m1.distances);
        assert(run_matches(x, r, m1.distances[j] as nat));
        lemma_seq_max_bounded(m1.distances);
        lemma_emit_recall_inv(m1, x, seq_max(m1.distances) as nat, r);
    } else {
        assert(x.take(x.len() as int) =~= x);
    }
}

/// The codes the encoder writes for `data` stand for `data`.
proof fn lemma_encoder_codes(data: Seq<u8>)
    ensures
        code_mask(model_finish_codes(model_after(data))) is Some,
        run_codes(model_finish_codes(model_after(data)), seq![]) == data,
{
    lemma_model_after_inv(data);
    lemma_finish_inv(model_after(data), data);
}


/// Whether the stream `input` holds, from `pos` on, the bytes of `codes` as the encoder writes
/// them: the control bytes (marked in `mask`) lowered by `offset`, the data bytes unchanged.
pub open spec fn carries(input: spec_fn(nat) -> u8, pos: nat, codes: Seq<u8>, mask: Seq<bool>, offset: u8) -> bool {
    forall|p: nat|
        p < codes.len() ==> #[trigger] input(pos + p) == (if mask[p as int] {
            ((codes[p as int] - offset) % 256) as u8
        } else {
            codes[p as int]
        })
}

/// Whether the decoder has finished its current code.
pub open spec fn between_codes(st: DecoderModel) -> bool {
    st.progress >= st.len
}

/// The decoder's state after `j` bytes of the code at the start of `codes`, begun after
/// decoding `y` from the state `st`.
pub open spec fn code_state(codes: Seq<u8>, st: DecoderModel, y: Seq<u8>, j: nat) -> DecoderModel {
    let op = codes[0];
    DecoderModel {
        history: history_of(run_code(codes, y).take((y.len() + j) as int)),
        offset: st.offset,
        recall: op % 2 == 1,
        distance: if op % 2 == 1 {
            codes[1] as nat
        } else {
            0
        },
        len: (op / 2 + 1) as nat,
        progress: j,
    }
}

/// The decoder's input position after `j` bytes of the code at `pos`.
pub open spec fn code_pos(codes: Seq<u8>, pos: nat, j: nat) -> nat {
    if codes[0] % 2 == 1 {
        pos + 2
    } else {
        pos + 1 + j
    }
}

proof fn lemma_unshift(c: u8, offset: u8)
    ensures
        ((((c - offset) % 256) as u8 + offset) % 256) as u8 == c,
{
    if c >= offset {
        assert((c - offset) % 256 == c - offset);
    } else {
        assert((c - offset) % 256 == c - offset + 256);
    }
}

proof fn lemma_recall_bytes_prefix(y: Seq<u8>, d: nat, len: nat, j: nat)
    requires
        j <= len,
    ensures
        recall_bytes(y, d, len).take((y.len() + j) as int) == recall_bytes(y, d, j),
    decreases len,
{
    lemma_recall_bytes_len(y, d, len);
    lemma_recall_bytes_len(y, d, j);
    if j < len {
        lemma_recall_bytes_prefix(y, d, (len - 1) as nat, j);
        let z = recall_bytes(y, d, (len - 1) as nat);
        lemma_recall_bytes_len(y, d, (len - 1) as nat);
        assert(z.push(byte_before(z, d as int)).take((y.len() + j) as int) =~= z.take((y.len() + j) as int));
    } else {
        assert(recall_bytes(y, d, len).take((y.len() + j) as int) =~= recall_bytes(y, d, len));
    }
}

/// The bytes of a code are the byte at the recall distance before each of them, or the data
/// bytes of the code.
proof fn lemma_run_code_byte(codes: Seq<u8>, y: Seq<u8>, j: nat)
    requires
        codes.len() >= code_length(codes[0]),
        j < codes[0] / 2 + 1,
    ensures
        run_code(codes, y).len() == y.len() + codes[0] / 2 + 1,
        run_code(codes, y)[(y.len() + j) as int] == (if codes[0] % 2 == 1 {
            byte_before(run_code(codes, y).take((y.len() + j) as int), codes[1] as int)
        } else {
            codes[(1 + j) as int]
        }),
        run_code(codes, y).take((y.len() + j + 1) as int) == run_code(codes, y).take((y.len() + j) as int).push(
            run_code(codes, y)[(y.len() + j) as int],
        ),
{
    let op = codes[0];
    let z = run_code(codes, y);
    let len = (op / 2 + 1) as nat;
    if op % 2 == 1 {
        let d = codes[1] as nat;
        lemma_recall_bytes_len(y, d, len);
        lemma_recall_bytes_prefix(y, d, len, j);
        lemma_recall_bytes_prefix(y, d, len, j + 1);
        lemma_recall_bytes_len(y, d, j);
        let w = recall_bytes(y, d, j);
        assert(recall_bytes(y, d, j + 1) == w.push(byte_before(w, d as int)));
        assert(z[(y.len() + j) as int] == z.take((y.len() + j + 1) as int)[(y.len() + j) as int]);
    } else {
        assert(code_length(op) == len + 1);
    }
    assert(z.take((y.len() + j + 1) as int) =~= z.take((y.len() + j) as int).push(z[(y.len() + j) as int]));
}

/// The first step of decoding a code: read its control bytes and output its first byte.
proof fn lemma_code_first_step(codes: Seq<u8>, st: DecoderModel, y: Seq<u8>, input: spec_fn(nat) -> u8, pos: nat)
    requires
        codes.len() >= code_length(codes[0]),
        between_codes(st),
        st.history == history_of(y),
        carries(input, pos, codes.take(code_length(codes[0]) as int), code_head_mask(codes[0]), st.offset),
    ensures
        decoder_step(st, input, pos) == (
            run_code(codes, y)[y.len() as int],
            code_state(codes, st, y, 1),
            code_pos(codes, pos, 1),
        ),
{
    let op = codes[0];
    let n = code_length(op);
    let head = codes.take(n as int);
    assert(input(pos + 0) == ((op - st.offset) % 256) as u8);
    lemma_unshift(op, st.offset);
    lemma_run_code_byte(codes, y, 0);
    lemma_history_push(y, run_code(codes, y)[y.len() as int]);
    assert(run_code(codes, y).take(y.len() as int) =~= y) by {
        assert(run_code(codes, y).take((y.len() + 0) as int) =~= run_code(codes, y).take(y.len() as int));
        if op % 2 == 1 {
            lemma_recall_bytes_len(y, codes[1] as nat, (op / 2 + 1) as nat);
        }
    }
    if op % 2 == 1 {
        assert(input(pos + 1) == ((codes[1] - st.offset) % 256) as u8);
        lemma_unshift(codes[1], st.offset);
    } else {
        assert(input(pos + 1) == codes[1]);
    }
}

/// A later step of decoding a code: output its next byte.
proof fn lemma_code_next_step(codes: Seq<u8>, st: DecoderModel, y: Seq<u8>, input: spec_fn(nat) -> u8, pos: nat, j: nat)
    requires
        codes.len() >= code_length(codes[0]),
        1 <= j < codes[0] / 2 + 1,
        carries(input, pos, codes.take(code_length(codes[0]) as int), code_head_mask(codes[0]), st.offset),
    ensures
        decoder_step(code_state(codes, st, y, j), input, code_pos(codes, pos, j)) == (
            run_code(codes, y)[(y.len() + j) as int],
            code_state(codes, st, y, j + 1),
            code_pos(codes, pos, j + 1),
        ),
{
    let op = codes[0];
    let z = run_code(codes, y);
    lemma_run_code_byte(codes, y, j);
    lemma_history_push(z.take((y.len() + j) as int), z[(y.len() + j) as int]);
    if op % 2 == 0 {
        assert(input(pos + (1 + j)) == codes[(1 + j) as int]);
    }
}

proof fn lemma_code_steps(codes: Seq<u8>, st: DecoderModel, y: Seq<u8>, input: spec_fn(nat) -> u8, pos: nat, a: nat, k: nat)
    requires
        codes.len() >= code_length(codes[0]),
        1 <= a,
        a + k <= codes[0] / 2 + 1,
        carries(input, pos, codes.take(code_length(codes[0]) as int), code_head_mask(codes[0]), st.offset),
    ensures
        decoder_run(code_state(codes, st, y, a), input, code_pos(codes, pos, a), k) == (
            code_state(codes, st, y, a + k),
            code_pos(codes, pos, a + k),
        ),
    decreases k,
{
    if k > 0 {
        lemma_code_next_step(codes, st, y, input, pos, a);
        lemma_code_steps(codes, st, y, input, pos, a + 1, (k - 1) as nat);
    }
}

/// Decoding one code outputs the bytes it stands for.
proof fn lemma_decode_one_code(codes: Seq<u8>, st: DecoderModel, y: Seq<u8>, input: spec_fn(nat) -> u8, pos: nat)
    requires
        codes.len() >= code_length(codes[0]),
        between_codes(st),
        st.history == history_of(y),
        carries(input, pos, codes.take(code_length(codes[0]) as int), code_head_mask(codes[0]), st.offset),
    ensures
        run_code(codes, y).len() == y.len() + codes[0] / 2 + 1,
        decoder_run(st, input, pos, (codes[0] / 2 + 1) as nat) == (
            code_state(codes, st, y, (codes[0] / 2 + 1) as nat),
            pos + code_length(codes[0]),
        ),
        forall|j: nat|
            j < codes[0] / 2 + 1 ==> #[trigger] decoder_step(
                decoder_run(st, input, pos, j).0,
                input,
                decoder_run(st, input, pos, j).1,
            ).0 == run_code(codes, y)[(y.len() + j) as int],
{
    let op = codes[0];
    let len = (op / 2 + 1) as nat;
    lemma_run_code_byte(codes, y, 0);
    lemma_code_first_step(codes, st, y, input, pos);
    lemma_code_steps(codes, st, y, input, pos, 1, (len - 1) as nat);
    assert forall|j: nat| j < len implies #[trigger] decoder_step(
        decoder_run(st, input, pos, j).0,
        input,
        decoder_run(st, input, pos, j).1,
    ).0 == run_code(codes, y)[(y.len() + j) as int] by {
        if j > 0 {
            lemma_code_steps(codes, st, y, input, pos, 1, (j - 1) as nat);
            lemma_code_next_step(codes, st, y, input, pos, j);
        }
    }
    if op % 2 == 0 {
        assert(code_length(op) == len + 1);
    }
}

proof fn lemma_decoder_run_add(st: DecoderModel, input: spec_fn(nat) -> u8, pos: nat, a: nat, b: nat)
    ensures
        decoder_run(st, input, pos, a + b) == decoder_run(
            decoder_run(st, input, pos, a).0,
            input,
            decoder_run(st, input, pos, a).1,
            b,
        ),
    decreases a,
{
    if a > 0 {
        let (_, st1, pos1) = decoder_step(st, input, pos);
        lemma_decoder_run_add(st1, input, pos1, (a - 1) as nat, b);
        assert((a + b - 1) as nat == (a - 1) as nat + b);
    }
}


/// Decoding complete codes outputs the bytes they stand for, ending between codes.
proof fn lemma_decode_codes(codes: Seq<u8>, st: DecoderModel, y: Seq<u8>, input: spec_fn(nat) -> u8, pos: nat)
    requires
        code_mask(codes) is Some,
        between_codes(st),
        st.history == history_of(y),
        carries(input, pos, codes, code_mask(codes).unwrap(), st.offset),
    ensures
        run_codes(codes, y).len() >= y.len(),
        ({
            let out = run_codes(codes, y);
            let t = (out.len() - y.len()) as nat;
            let (st2, pos2) = decoder_run(st, input, pos, t);
            &&& between_codes(st2)
            &&& st2.history == history_of(out)
            &&& st2.offset == st.offset
            &&& pos2 == pos + codes.len()
            &&& forall|j: nat|
                j < t ==> #[trigger] decoder_step(
                    decoder_run(st, input, pos, j).0,
                    input,
                    decoder_run(st, input, pos, j).1,
                ).0 == out[(y.len() + j) as int]
        }),
    decreases codes.len(),
{
    lemma_run_codes_extends(codes, y);
    if codes.len() == 0 {
        assert(y.take(y.len() as int) =~= y);
    } else {
        let op = codes[0];
        let n = code_length(op);
        let len = (op / 2 + 1) as nat;
        let rest = codes.subrange(n as int, codes.len() as int);
        let mask = code_mask(codes).unwrap();
        assert(n <= codes.len());
        assert(code_mask(rest) is Some);
        let rest_mask = code_mask(rest).unwrap();
        lemma_code_mask_len(rest);
        assert(mask == code_head_mask(op) + rest_mask);
        assert(carries(input, pos, codes.take(n as int), code_head_mask(op), st.offset)) by {
            assert forall|p: nat| p < n implies #[trigger] input(pos + p) == (if code_head_mask(op)[p as int] {
                ((codes.take(n as int)[p as int] - st.offset) % 256) as u8
            } else {
                codes.take(n as int)[p as int]
            }) by {
                assert(input(pos + p) == (if mask[p as int] {
                    ((codes[p as int] - st.offset) % 256) as u8
                } else {
                    codes[p as int]
                }));
            }
        }
        assert(carries(input, pos + n, rest, rest_mask, st.offset)) by {
            assert forall|p: nat| p < rest.len() implies #[trigger] input(pos + n + p) == (if rest_mask[p as int] {
                ((rest[p as int] - st.offset) % 256) as u8
            } else {
                rest[p as int]
            }) by {
                assert(input(pos + (n + p)) == (if mask[(n + p) as int] {
                    ((codes[(n + p) as int] - st.offset) % 256) as u8
                } else {
                    codes[(n + p) as int]
                }));
                assert(pos + (n + p) == pos + n + p);
                assert(code_head_mask(op).len() == n);
                assert(mask[(n + p) as int] == rest_mask[p as int]);
                assert(codes[(n + p) as int] == rest[p as int]);
            }
        }
        lemma_decode_one_code(codes, st, y, input, pos);
        let z = run_code(codes, y);
        let st1 = code_state(codes, st, y, len);
        assert(z.take((y.len() + len) as int) =~= z);
        lemma_decode_codes(rest, st1, z, input, pos + n);
        let out = run_codes(codes, y);
        assert(out == run_codes(rest, z));
        let t2 = (out.len() - z.len()) as nat;
        lemma_decoder_run_add(st, input, pos, len, t2);
        assert forall|j: nat| j < len + t2 implies #[trigger] decoder_step(
            decoder_run(st, input, pos, j).0,
            input,
            decoder_run(st, input, pos, j).1,
        ).0 == out[(y.len() + j) as int] by {
            lemma_run_codes_extends(rest, z);
            if j < len {
                assert(out.take(z.len() as int)[(y.len() + j) as int] == z[(y.len() + j) as int]);
            } else {
                lemma_decoder_run_add(st, input, pos, len, (j - len) as nat);
                assert(decoder_step(
                    decoder_run(st1, input, pos + n, (j - len) as nat).0,
                    input,
                    decoder_run(st1, input, pos + n, (j - len) as nat).1,
                ).0 == out[(z.len() + (j - len) as nat) as int]);
            }
        }
        assert(len + t2 == out.len() - y.len());
    }
}

/// Decoding the LZ77 encoding of `data`, from any stream that starts with it, gives back
/// `data`.
pub proof fn lemma_lz77_round_trip(data: Seq<u8>, input: spec_fn(nat) -> u8)
    requires
        starts_with(input, lz77_encode(data)),
    ensures
        forall|i: nat| i < data.len() ==> #[trigger] lz77_decode_stream(input)(i) == data[i as int],
        forall|n: nat|
            n <= data.len() ==> #[trigger] decoder_run(initial_decoder_model(input(0)), shift(input, 1), 0, n).1 + 1
                <= lz77_encode(data).len(),
{
    let codes = model_finish_codes(model_after(data));
    lemma_encoder_codes(data);
    let mask = code_mask(codes).unwrap();
    let offset = control_code_offset(codes);
    let enc = lz77_encode(data);
    assert(enc == entropy_transformed(codes));
    assert(input(0) == enc[0]);
    let st = initial_decoder_model(offset);
    let src = shift(input, 1);
    assert(carries(src, 0, codes, mask, offset)) by {
        assert forall|p: nat| p < codes.len() implies #[trigger] src(0 + p) == (if mask[p as int] {
            ((codes[p as int] - offset) % 256) as u8
        } else {
            codes[p as int]
        }) by {
            assert(input(p + 1) == enc[(p + 1) as int]);
        }
    }
    assert(st.history == history_of(seq![])) by {
        assert(st.history =~= history_of(seq![]));
    }
    lemma_decode_codes(codes, st, seq![], src, 0);
    assert forall|i: nat| i < data.len() implies #[trigger] lz77_decode_stream(input)(i) == data[i as int] by {
        assert(lz77_decode_stream(input)(i) == decoder_output(st, src)(i));
    }
    assert forall|n: nat| n <= data.len() implies #[trigger] decoder_run(initial_decoder_model(input(0)), shift(input, 1), 0, n).1 + 1
        <= lz77_encode(data).len() by {
        lemma_decoder_run_add(st, src, 0, n, (data.len() - n) as nat);
        lemma_decoder_run_advances(decoder_run(st, src, 0, n).0, src, decoder_run(st, src, 0, n).1, (data.len() - n) as nat);
    }
}

/// Decoding steps never move back in the input.
proof fn lemma_decoder_run_advances(st: DecoderModel, input: spec_fn(nat) -> u8, pos: nat, n: nat)
    ensures
        decoder_run(st, input, pos, n).1 >= pos,
    decreases n,
{
    if n > 0 {
        let (_, st1, pos1) = decoder_step(st, input, pos);
        lemma_decoder_run_advances(st1, input, pos1, (n - 1) as nat);
    }
}

/// Complete codes take at most two bytes for each byte they stand for.
proof fn lemma_codes_len(codes: Seq<u8>, y: Seq<u8>)
    requires
        code_mask(codes) is Some,
    ensures
        run_codes(codes, y).len() >= y.len(),
        codes.len() <= 2 * (run_codes(codes, y).len() - y.len()),
    decreases codes.len(),
{
    if codes.len() > 0 {
        let op = codes[0];
        let n = code_length(op);
        let rest = codes.subrange(n as int, codes.len() as int);
        assert(code_mask(rest) is Some);
        lemma_run_code_byte(codes, y, 0);
        let z = run_code(codes, y);
        lemma_codes_len(rest, z);
        assert(n <= 2 * (op / 2 + 1));
    }
}

/// The byte statistics the LZ77 encoder computes for data of at most 65535 bytes fit its
/// 32-bit counters, so `encode_lz77` accepts such data.
pub proof fn lemma_lz77_counts_fit(data: Seq<u8>)
    requires
        data.len() <= 65535,
    ensures
        lz77_counts_fit(data),
{
    let codes = model_finish_codes(model_after(data));
    lemma_encoder_codes(data);
    lemma_codes_len(codes, seq![]);
    lemma_counts_fit_short(data);
}

} // verus!

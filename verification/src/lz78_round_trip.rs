//! Decoding the LZ78 encoding of a byte sequence gives the sequence back.
//!
//! The encoder writes (phrase index, byte) pairs and grows its dictionary by one node per
//! pair; the decoder reads the same pairs, grows the same dictionary and outputs the phrase of
//! each pair followed by its byte.
use vstd::prelude::*;
use crate::decoder::{shift, starts_with};
use crate::lz78::{
    child_with, lz78_encode, lz78_fetch_ok, varint_ends, lz78_initial, lz78_output, lz78_run, lz78_step, model_after,
    phrase, varint_acc, varint_bytes, varint_cont, varint_index, varint_len, varint_stop,
    lemma_varint_stop_unique, Lz78State, MAX_NODES, NO_IDX,
};

verus! {

/// The dictionary after a pair (`v`, `b`): a node extending phrase `v` by `b`, where there is
/// room for one.
pub open spec fn add_pair(nodes: Seq<(u16, u8)>, v: nat, b: u8) -> Seq<(u16, u8)> {
    if nodes.len() < MAX_NODES {
        nodes.push((v as u16, b))
    } else {
        nodes
    }
}

/// Whether the dictionary is well formed: node 0 is the root, every other node extends an
/// earlier one.
pub open spec fn dict_wf(nodes: Seq<(u16, u8)>) -> bool {
    &&& 1 <= nodes.len() <= MAX_NODES
    &&& nodes[0].0 == NO_IDX
    &&& forall|i: int| 1 <= i < nodes.len() ==> (#[trigger] nodes[i]).0 < i
}

/// The pairs the encoder has written for `data`.
pub open spec fn enc_pairs(data: Seq<u8>) -> Seq<(nat, u8)>
    decreases data.len(),
{
    if data.len() == 0 {
        seq![]
    } else {
        let m = model_after(data.drop_last());
        match child_with(m.nodes, m.current as int, data.last(), m.nodes.len() as int) {
            Some(_) => enc_pairs(data.drop_last()),
            None => enc_pairs(data.drop_last()).push((m.current, data.last())),
        }
    }
}

/// The bytes of the pairs.
pub open spec fn pairs_bytes(pairs: Seq<(nat, u8)>) -> Seq<u8>
    decreases pairs.len(),
{
    if pairs.len() == 0 {
        seq![]
    } else {
        pairs_bytes(pairs.drop_last()) + varint_bytes(pairs.last().0) + seq![pairs.last().1]
    }
}

/// The dictionary after the pairs, starting from `d`.
pub open spec fn pairs_dict(d: Seq<(u16, u8)>, pairs: Seq<(nat, u8)>) -> Seq<(u16, u8)>
    decreases pairs.len(),
{
    if pairs.len() == 0 {
        d
    } else {
        add_pair(pairs_dict(d, pairs.drop_last()), pairs.last().0, pairs.last().1)
    }
}

/// Whether every pair names a phrase of the dictionary it is read with.
pub open spec fn pairs_ok(d: Seq<(u16, u8)>, pairs: Seq<(nat, u8)>) -> bool
    decreases pairs.len(),
{
    if pairs.len() == 0 {
        true
    } else {
        pairs_ok(d, pairs.drop_last()) && pairs.last().0 < pairs_dict(d, pairs.drop_last()).len()
    }
}

/// The bytes the pairs stand for, starting from the dictionary `d`.
pub open spec fn pairs_text(d: Seq<(u16, u8)>, pairs: Seq<(nat, u8)>) -> Seq<u8>
    decreases pairs.len(),
{
    if pairs.len() == 0 {
        seq![]
    } else {
        pairs_text(d, pairs.drop_last()) + phrase(pairs_dict(d, pairs.drop_last()), pairs.last().0 as int).push(
            pairs.last().1,
        )
    }
}

/// The initial dictionary.
pub open spec fn root_dict() -> Seq<(u16, u8)> {
    seq![(NO_IDX, 0u8)]
}

/// Adding a node keeps the phrases of the existing nodes.
proof fn lemma_phrase_push(nodes: Seq<(u16, u8)>, x: (u16, u8), j: int)
    requires
        dict_wf(nodes),
        0 <= j < nodes.len(),
    ensures
        phrase(nodes.push(x), j) == phrase(nodes, j),
    decreases j,
{
    if j > 0 {
        assert(nodes.push(x)[j] == nodes[j]);
        lemma_phrase_push(nodes, x, nodes[j].0 as int);
    }
}

/// A node found as the child of `current` with content `b` extends the phrase of `current` by
/// `b`.
proof fn lemma_child_phrase(nodes: Seq<(u16, u8)>, current: nat, b: u8, n: int)
    requires
        dict_wf(nodes),
        current < nodes.len(),
        n <= nodes.len(),
        child_with(nodes, current as int, b, n) is Some,
    ensures
        ({
            let i = child_with(nodes, current as int, b, n).unwrap();
            &&& 1 <= i < nodes.len()
            &&& phrase(nodes, i) == phrase(nodes, current as int).push(b)
        }),
    decreases n,
{
    if child_with(nodes, current as int, b, n - 1) is Some {
        lemma_child_phrase(nodes, current, b, n - 1);
    } else {
        let i = n - 1;
        assert(nodes[i].0 as int == current);
        assert(nodes[i].0 < i);
    }
}

/// The encoder's state after `data`: its output is the bytes of its pairs, its dictionary is
/// the one the pairs build, and `data` is the text of the pairs followed by the phrase matched
/// so far.
proof fn lemma_encoder_pairs(data: Seq<u8>)
    ensures
        ({
            let m = model_after(data);
            let pairs = enc_pairs(data);
            &&& m.out == pairs_bytes(pairs)
            &&& m.nodes == pairs_dict(root_dict(), pairs)
            &&& pairs_ok(root_dict(), pairs)
            &&& dict_wf(m.nodes)
            &&& m.current < m.nodes.len()
            &&& data == pairs_text(root_dict(), pairs) + phrase(m.nodes, m.current as int)
        }),
    decreases data.len(),
{
    if data.len() == 0 {
        assert(pairs_text(root_dict(), seq![]) + phrase(root_dict(), 0) =~= data);
    } else {
        let prev = data.drop_last();
        let b = data.last();
        lemma_encoder_pairs(prev);
        let m = model_after(prev);
        let pairs = enc_pairs(prev);
        assert(data =~= prev.push(b));
        match child_with(m.nodes, m.current as int, b, m.nodes.len() as int) {
            Some(i) => {
                lemma_child_phrase(m.nodes, m.current, b, m.nodes.len() as int);
                assert(data =~= pairs_text(root_dict(), pairs) + phrase(m.nodes, i));
            },
            None => {
                let p2 = pairs.push((m.current, b));
                assert(p2.drop_last() =~= pairs);
                let n2 = add_pair(m.nodes, m.current, b);
                if m.nodes.len() < MAX_NODES {
                    assert forall|i: int| 1 <= i < n2.len() implies (#[trigger] n2[i]).0 < i by {
                        if i < m.nodes.len() {
                            assert(n2[i] == m.nodes[i]);
                        }
                    }
                    assert(n2[0] == m.nodes[0]);
                }
                assert(pairs_text(root_dict(), p2) == pairs_text(root_dict(), pairs) + phrase(m.nodes, m.current as int).push(b));
                assert(data =~= pairs_text(root_dict(), p2) + phrase(n2, 0));
            },
        }
    }
}


/// A varint written for a value below `2^14` reads back as that value.
proof fn lemma_varint_read(v: nat, t: spec_fn(nat) -> u8)
    requires
        v < 0x4000,
        starts_with(t, varint_bytes(v)),
    ensures
        varint_len(t) + 1 == varint_bytes(v).len(),
        varint_stop(t, varint_len(t)),
        varint_index(t) as nat == v,
{
    reveal_with_fuel(varint_cont, 2);
    if v < 128 {
        assert(varint_bytes(v) =~= seq![v as u8]);
        assert(t(0) == varint_bytes(v)[0]);
        assert(varint_stop(t, 0));
        lemma_varint_stop_unique(t, 0, varint_len(t));
    } else {
        assert(varint_cont(v / 128) =~= seq![(v / 128 + 128) as u8]);
        assert(varint_bytes(v) =~= seq![(v / 128 + 128) as u8, (v % 128) as u8]);
        assert(t(0) == varint_bytes(v)[0]);
        assert(t(1) == varint_bytes(v)[1]);
        assert(varint_stop(t, 1));
        lemma_varint_stop_unique(t, 1, varint_len(t));
        let h = v / 128;
        assert(h < 128);
        assert(t(0) == (h + 128) as u8);
        assert(((h + 128) as u8) % 128 == h);
        reveal_with_fuel(varint_acc, 2);
        assert(varint_acc(t, 1) == ((h * 128) % 65536) as u16);
        assert(v == h * 128 + v % 128);
    }
}

/// Adding a node for a pair keeps the dictionary well formed.
proof fn lemma_add_pair_wf(nodes: Seq<(u16, u8)>, v: nat, b: u8)
    requires
        dict_wf(nodes),
        v < nodes.len(),
    ensures
        dict_wf(add_pair(nodes, v, b)),
        add_pair(nodes, v, b).len() >= nodes.len(),
        forall|j: int| 0 <= j < nodes.len() ==> phrase(add_pair(nodes, v, b), j) == phrase(nodes, j),
{
    let n2 = add_pair(nodes, v, b);
    if nodes.len() < MAX_NODES {
        assert forall|i: int| 1 <= i < n2.len() implies (#[trigger] n2[i]).0 < i by {
            if i < nodes.len() {
                assert(n2[i] == nodes[i]);
            }
        }
        assert(n2[0] == nodes[0]);
        assert forall|j: int| 0 <= j < nodes.len() implies phrase(n2, j) == phrase(nodes, j) by {
            lemma_phrase_push(nodes, (v as u16, b), j);
        }
    }
}

/// The decoder's state after `j` bytes of the phrase of the pair (`v`, `b`), read from the
/// dictionary `nodes`.
pub open spec fn pair_state(nodes: Seq<(u16, u8)>, v: nat, b: u8, j: nat) -> Lz78State {
    Lz78State { nodes: add_pair(nodes, v, b), phrase: phrase(nodes, v as int).push(b), progress: j }
}

proof fn lemma_pair_steps(nodes: Seq<(u16, u8)>, v: nat, b: u8, s: spec_fn(nat) -> u8, pos: nat, a: nat, k: nat)
    requires
        a + k <= phrase(nodes, v as int).len() + 1,
    ensures
        lz78_run(pair_state(nodes, v, b, a), s, pos, k).0 == pair_state(nodes, v, b, a + k),
        lz78_run(pair_state(nodes, v, b, a), s, pos, k).1 == pos,
        lz78_run(pair_state(nodes, v, b, a), s, pos, k).2,
        forall|j: nat|
            j < k ==> #[trigger] lz78_step(
                lz78_run(pair_state(nodes, v, b, a), s, pos, j).0,
                s,
                lz78_run(pair_state(nodes, v, b, a), s, pos, j).1,
            ).0 == phrase(nodes, v as int).push(b)[(a + j) as int],
    decreases k,
{
    if k > 0 {
        lemma_pair_steps(nodes, v, b, s, pos, a + 1, (k - 1) as nat);
        assert forall|j: nat| j < k implies #[trigger] lz78_step(
            lz78_run(pair_state(nodes, v, b, a), s, pos, j).0,
            s,
            lz78_run(pair_state(nodes, v, b, a), s, pos, j).1,
        ).0 == phrase(nodes, v as int).push(b)[(a + j) as int] by {
            if j > 0 {
                assert(lz78_step(
                    lz78_run(pair_state(nodes, v, b, a + 1), s, pos, (j - 1) as nat).0,
                    s,
                    lz78_run(pair_state(nodes, v, b, a + 1), s, pos, (j - 1) as nat).1,
                ).0 == phrase(nodes, v as int).push(b)[(a + 1 + (j - 1)) as int]);
            }
        }
    }
}

/// Decoding one pair outputs its phrase followed by its byte, and grows the dictionary.
proof fn lemma_decode_pair(st: Lz78State, s: spec_fn(nat) -> u8, pos: nat, v: nat, b: u8)
    requires
        st.progress >= st.phrase.len(),
        dict_wf(st.nodes),
        v < st.nodes.len(),
        starts_with(shift(s, pos), varint_bytes(v) + seq![b]),
    ensures
        ({
            let w = phrase(st.nodes, v as int).push(b);
            let len = w.len();
            &&& lz78_run(st, s, pos, len).0 == pair_state(st.nodes, v, b, len)
            &&& lz78_run(st, s, pos, len).1 == pos + varint_bytes(v).len() + 1
            &&& lz78_run(st, s, pos, len).2
            &&& forall|j: nat|
                j < len ==> #[trigger] lz78_step(lz78_run(st, s, pos, j).0, s, lz78_run(st, s, pos, j).1).0 == w[j as int]
        }),
{
    let t = shift(s, pos);
    let vb = varint_bytes(v);
    let w = phrase(st.nodes, v as int).push(b);
    assert(starts_with(t, vb)) by {
        assert forall|i: nat| i < vb.len() implies t(i) == #[trigger] vb[i as int] by {
            assert((vb + seq![b])[i as int] == vb[i as int]);
        }
    }
    lemma_varint_read(v, t);
    let k = varint_len(t);
    assert(t(k + 1) == (vb + seq![b])[(k + 1) as int]);
    assert((v as u16) as int == v);
    let pos1 = pos + k + 2;
    assert(lz78_step(st, s, pos) == (w[0], pair_state(st.nodes, v, b, 1), pos1));
    assert(lz78_fetch_ok(st, s, pos));
    lemma_pair_steps(st.nodes, v, b, s, pos1, 1, (w.len() - 1) as nat);
    assert forall|j: nat| j < w.len() implies #[trigger] lz78_step(lz78_run(st, s, pos, j).0, s, lz78_run(st, s, pos, j).1).0 == w[j as int] by {
        if j > 0 {
            assert(lz78_run(st, s, pos, j) == lz78_run(pair_state(st.nodes, v, b, 1), s, pos1, (j - 1) as nat));
            lemma_pair_steps(st.nodes, v, b, s, pos1, 1, (j - 1) as nat);
            lemma_pair_steps(st.nodes, v, b, s, pos1, j, 1);
        }
    }
}

/// Decoding steps never move back in the input.
proof fn lemma_lz78_run_advances(st: Lz78State, s: spec_fn(nat) -> u8, pos: nat, n: nat)
    ensures
        lz78_run(st, s, pos, n).1 >= pos,
    decreases n,
{
    if n > 0 {
        let (_, st1, pos1) = lz78_step(st, s, pos);
        lemma_lz78_run_advances(st1, s, pos1, (n - 1) as nat);
    }
}

proof fn lemma_lz78_run_add(st: Lz78State, s: spec_fn(nat) -> u8, pos: nat, a: nat, b: nat)
    ensures
        lz78_run(st, s, pos, a + b).0 == lz78_run(lz78_run(st, s, pos, a).0, s, lz78_run(st, s, pos, a).1, b).0,
        lz78_run(st, s, pos, a + b).1 == lz78_run(lz78_run(st, s, pos, a).0, s, lz78_run(st, s, pos, a).1, b).1,
        lz78_run(st, s, pos, a + b).2 == (lz78_run(st, s, pos, a).2 && lz78_run(
            lz78_run(st, s, pos, a).0,
            s,
            lz78_run(st, s, pos, a).1,
            b,
        ).2),
    decreases a,
{
    if a > 0 {
        let (_, st1, pos1) = lz78_step(st, s, pos);
        lemma_lz78_run_add(st1, s, pos1, (a - 1) as nat, b);
        assert((a + b - 1) as nat == (a - 1) as nat + b);
    }
}


/// Decoding pairs outputs their text, ends between phrases and builds their dictionary.
proof fn lemma_decode_pairs(d: Seq<(u16, u8)>, pairs: Seq<(nat, u8)>, st: Lz78State, s: spec_fn(nat) -> u8, pos: nat)
    requires
        st.progress >= st.phrase.len(),
        st.nodes == d,
        dict_wf(d),
        pairs_ok(d, pairs),
        starts_with(shift(s, pos), pairs_bytes(pairs)),
    ensures
        ({
            let text = pairs_text(d, pairs);
            let (st2, pos2, _) = lz78_run(st, s, pos, text.len());
            &&& st2.progress >= st2.phrase.len()
            &&& st2.nodes == pairs_dict(d, pairs)
            &&& dict_wf(st2.nodes)
            &&& pos2 == pos + pairs_bytes(pairs).len()
            &&& lz78_run(st, s, pos, text.len()).2
            &&& forall|j: nat|
                j < text.len() ==> #[trigger] lz78_step(lz78_run(st, s, pos, j).0, s, lz78_run(st, s, pos, j).1).0
                    == text[j as int]
        }),
    decreases pairs.len(),
{
    if pairs.len() > 0 {
        let prev = pairs.drop_last();
        let (v, b) = pairs.last();
        let bytes = pairs_bytes(pairs);
        let pb = pairs_bytes(prev);
        assert(starts_with(shift(s, pos), pb)) by {
            assert forall|i: nat| i < pb.len() implies shift(s, pos)(i) == #[trigger] pb[i as int] by {
                assert(bytes[i as int] == pb[i as int]);
            }
        }
        lemma_decode_pairs(d, prev, st, s, pos);
        let t1 = pairs_text(d, prev);
        let (st1, pos1, _) = lz78_run(st, s, pos, t1.len());
        let d1 = pairs_dict(d, prev);
        assert(starts_with(shift(s, pos1), varint_bytes(v) + seq![b])) by {
            let tail = varint_bytes(v) + seq![b];
            assert forall|i: nat| i < tail.len() implies shift(s, pos1)(i) == #[trigger] tail[i as int] by {
                assert(bytes == pb + tail);
                assert(shift(s, pos)((pb.len() + i) as nat) == bytes[(pb.len() + i) as int]);
            }
        }
        lemma_decode_pair(st1, s, pos1, v, b);
        lemma_add_pair_wf(d1, v, b);
        let w = phrase(d1, v as int).push(b);
        let text = pairs_text(d, pairs);
        assert(text == t1 + w);
        lemma_lz78_run_add(st, s, pos, t1.len(), w.len());
        assert forall|j: nat| j < text.len() implies #[trigger] lz78_step(lz78_run(st, s, pos, j).0, s, lz78_run(st, s, pos, j).1).0
            == text[j as int] by {
            if j >= t1.len() {
                lemma_lz78_run_add(st, s, pos, t1.len(), (j - t1.len()) as nat);
                assert(lz78_step(
                    lz78_run(st1, s, pos1, (j - t1.len()) as nat).0,
                    s,
                    lz78_run(st1, s, pos1, (j - t1.len()) as nat).1,
                ).0 == w[(j - t1.len()) as int]);
            }
        }
    }
}

/// Decoding the LZ78 encoding of `data`, from any stream that starts with it, gives back
/// `data`.
pub proof fn lemma_lz78_round_trip(data: Seq<u8>, input: spec_fn(nat) -> u8)
    requires
        starts_with(input, lz78_encode(data)),
    ensures
        forall|i: nat| i < data.len() ==> #[trigger] lz78_output(lz78_initial(), input)(i) == data[i as int],
        forall|n: nat|
            n <= data.len() ==> #[trigger] lz78_run(lz78_initial(), input, 0, n).2 && lz78_run(lz78_initial(), input, 0, n).1
                <= lz78_encode(data).len(),
{
    let m = model_after(data);
    let pairs = enc_pairs(data);
    lemma_encoder_pairs(data);
    let enc = lz78_encode(data);
    let pb = pairs_bytes(pairs);
    let tail = varint_bytes(m.current) + seq![0u8];
    assert(enc =~= pb + tail);
    let st = lz78_initial();
    assert(st.nodes == root_dict());
    assert(shift(input, 0) =~= input);
    assert(starts_with(shift(input, 0), pb)) by {
        assert forall|i: nat| i < pb.len() implies shift(input, 0)(i) == #[trigger] pb[i as int] by {
            assert(enc[i as int] == pb[i as int]);
        }
    }
    lemma_decode_pairs(root_dict(), pairs, st, input, 0);
    let text = pairs_text(root_dict(), pairs);
    let (st1, pos1, _) = lz78_run(st, input, 0, text.len());
    assert(starts_with(shift(input, pos1), tail)) by {
        assert forall|i: nat| i < tail.len() implies shift(input, pos1)(i) == #[trigger] tail[i as int] by {
            assert(input((pb.len() + i) as nat) == enc[(pb.len() + i) as int]);
        }
    }
    lemma_decode_pair(st1, input, pos1, m.current, 0);
    let w = phrase(m.nodes, m.current as int).push(0);
    assert forall|i: nat| i < data.len() implies #[trigger] lz78_output(lz78_initial(), input)(i) == data[i as int] by {
        if i >= text.len() {
            lemma_lz78_run_add(st, input, 0, text.len(), (i - text.len()) as nat);
            assert(lz78_step(
                lz78_run(st1, input, pos1, (i - text.len()) as nat).0,
                input,
                lz78_run(st1, input, pos1, (i - text.len()) as nat).1,
            ).0 == w[(i - text.len()) as int]);
        }
    }
    let total = text.len() + w.len();
    assert forall|n: nat| n <= data.len() implies #[trigger] lz78_run(lz78_initial(), input, 0, n).2 && lz78_run(
        lz78_initial(),
        input,
        0,
        n,
    ).1 <= lz78_encode(data).len() by {
        lemma_lz78_run_add(st, input, 0, text.len(), w.len());
        lemma_lz78_run_add(st, input, 0, n, (total - n) as nat);
        lemma_lz78_run_advances(lz78_run(st, input, 0, n).0, input, lz78_run(st, input, 0, n).1, (total - n) as nat);
    }
}

} // verus!

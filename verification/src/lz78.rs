//! LZ78 compression of byte streams.
//!
//! The output is a sequence of pairs: the index of a phrase seen before (as a big-endian varint
//! with 7 bits per byte and the top bit set on every byte but the last) followed by the byte
//! that extends it. Every pair adds the extended phrase to the dictionary, up to 1024 phrases.
use vstd::prelude::*;
use crate::decoder::{Decoder, SourceDecoder, can_follow, lemma_can_follow_step, lemma_shift_shift, shift};

verus! {

pub const NO_IDX: u16 = 0xffff;

pub const MAX_NODES: usize = 1024;

#[derive(Clone, Copy)]
pub struct TrieNode {
    pub content: u8,
    pub prev_idx: u16,
    pub next_list_idx: u16,
}

/// The phrase dictionary: node 0 is the empty phrase, every other node extends the phrase of
/// its `prev_idx` node by its `content` byte. `next_lists` holds the children of each node that
/// has some.
pub struct Trie {
    pub nodes: Vec<TrieNode>,
    pub next_lists: Vec<Vec<u16>>,
}

/// The (previous node, content) pairs of the nodes.
pub open spec fn node_pairs(nodes: Seq<TrieNode>) -> Seq<(u16, u8)> {
    Seq::new(nodes.len(), |i: int| (nodes[i].prev_idx, nodes[i].content))
}

/// The phrase of node `idx`: the contents along the path from the root.
pub open spec fn phrase(nodes: Seq<(u16, u8)>, idx: int) -> Seq<u8>
    decreases idx,
{
    if idx <= 0 || idx >= nodes.len() || nodes[idx].0 as int >= idx {
        seq![]
    } else {
        phrase(nodes, nodes[idx].0 as int).push(nodes[idx].1)
    }
}

/// The children of node `parent` among the first `n` nodes, in increasing order.
pub open spec fn children(nodes: Seq<(u16, u8)>, parent: int, n: int) -> Seq<u16>
    decreases n,
{
    if n <= 1 {
        seq![]
    } else {
        let rest = children(nodes, parent, n - 1);
        if nodes[n - 1].0 as int == parent {
            rest.push((n - 1) as u16)
        } else {
            rest
        }
    }
}

/// The first child of `parent` with content `b` among nodes `1 .. n`.
pub open spec fn child_with(nodes: Seq<(u16, u8)>, parent: int, b: u8, n: int) -> Option<int>
    decreases n,
{
    if n <= 1 {
        None
    } else {
        match child_with(nodes, parent, b, n - 1) {
            Some(i) => Some(i),
            None => if nodes[n - 1].0 as int == parent && nodes[n - 1].1 == b {
                Some(n - 1)
            } else {
                None
            },
        }
    }
}

impl Trie {
    pub open spec fn view(&self) -> Seq<(u16, u8)> {
        node_pairs(self.nodes@)
    }

    pub open spec fn wf(&self) -> bool {
        let nodes = self.view();
        &&& 1 <= nodes.len() <= MAX_NODES
        &&& nodes[0].0 == NO_IDX
        &&& forall|i: int| 1 <= i < nodes.len() ==> (#[trigger] nodes[i]).0 < i
        &&& self.next_lists@.len() <= nodes.len()
        &&& forall|j: int|
            0 <= j < nodes.len() ==> {
                let l = #[trigger] self.nodes@[j].next_list_idx;
                if l == NO_IDX {
                    children(nodes, j, nodes.len() as int).len() == 0
                } else {
                    &&& l < self.next_lists@.len()
                    &&& self.next_lists@[l as int]@ == children(nodes, j, nodes.len() as int)
                }
            }
        &&& forall|j: int, k: int|
            0 <= j < k < nodes.len() && self.nodes@[j].next_list_idx != NO_IDX ==> #[trigger] self.nodes@[j].next_list_idx
                != #[trigger] self.nodes@[k].next_list_idx
    }

    /// A dictionary holding the empty phrase.
    pub fn new() -> (out: Trie)
        ensures
            out.wf(),
            out.view() == seq![(NO_IDX, 0u8)],
    {
        let out = Trie {
            nodes: vec![TrieNode { prev_idx: NO_IDX, content: 0, next_list_idx: NO_IDX }],
            next_lists: Vec::new(),
        };
        assert(out.view() =~= seq![(NO_IDX, 0u8)]);
        out
    }
}

proof fn lemma_children_prefix(a: Seq<(u16, u8)>, b: Seq<(u16, u8)>, parent: int, n: int)
    requires
        n <= a.len(),
        n <= b.len(),
        forall|i: int| 0 <= i < n ==> a[i] == b[i],
    ensures
        children(a, parent, n) == children(b, parent, n),
    decreases n,
{
    if n > 1 {
        lemma_children_prefix(a, b, parent, n - 1);
    }
}

proof fn lemma_children_empty_above(nodes: Seq<(u16, u8)>, parent: int, n: int)
    requires
        n <= nodes.len(),
        forall|i: int| 1 <= i < n ==> (#[trigger] nodes[i]).0 < i,
        parent >= n - 1,
    ensures
        children(nodes, parent, n).len() == 0,
    decreases n,
{
    if n > 1 {
        lemma_children_empty_above(nodes, parent, n - 1);
    }
}

proof fn lemma_children_bounded(nodes: Seq<(u16, u8)>, parent: int, n: int)
    requires
        n <= nodes.len(),
        n <= MAX_NODES,
    ensures
        forall|i: int| 0 <= i < children(nodes, parent, n).len() ==> 1 <= #[trigger] children(nodes, parent, n)[i] < n,
        forall|i: int| 0 <= i < children(nodes, parent, n).len() ==> nodes[#[trigger] children(nodes, parent, n)[i] as int].0 as int == parent,
    decreases n,
{
    if n > 1 {
        lemma_children_bounded(nodes, parent, n - 1);
        let rest = children(nodes, parent, n - 1);
        if nodes[n - 1].0 as int == parent {
            let c = rest.push((n - 1) as u16);
            assert forall|i: int| 0 <= i < c.len() implies 1 <= #[trigger] c[i] < n && nodes[c[i] as int].0 as int == parent by {
                if i < rest.len() {
                    assert(c[i] == rest[i]);
                }
            }
        }
    }
}

impl Trie {
    /// The phrase of node `idx`.
    pub fn get_phrase(&self, idx: u16) -> (out: Vec<u8>)
        requires
            self.wf(),
            idx < self.view().len(),
        ensures
            out@ == phrase(self.view(), idx as int),
    {
        let ghost nodes = self.view();
        let mut node: usize = idx as usize;
        let mut rev: Vec<u8> = Vec::new();
        // The final node is the root node, which does not contain meaningful content.
        while self.nodes[node].prev_idx != NO_IDX
            invariant
                self.wf(),
                nodes == self.view(),
                node < nodes.len(),
                phrase(nodes, idx as int) == phrase(nodes, node as int) + rev@.reverse(),
            decreases node,
        {
            assert(node != 0);
            let n = self.nodes[node];
            rev.push(n.content);
            proof {
                assert(nodes[node as int] == (n.prev_idx, n.content));
                assert(rev@.reverse() =~= seq![n.content] + rev@.drop_last().reverse());
                assert(phrase(nodes, node as int) == phrase(nodes, n.prev_idx as int).push(n.content));
                assert(phrase(nodes, n.prev_idx as int).push(n.content) + rev@.drop_last().reverse()
                    =~= phrase(nodes, n.prev_idx as int) + (seq![n.content] + rev@.drop_last().reverse()));
            }
            node = n.prev_idx as usize;
        }
        proof {
            if node != 0 {
                assert(nodes[node as int].0 == NO_IDX);
            }
            assert(phrase(nodes, node as int) =~= Seq::<u8>::empty());
            assert(phrase(nodes, idx as int) =~= rev@.reverse());
        }
        let mut out: Vec<u8> = Vec::new();
        let mut i: usize = rev.len();
        while i > 0
            invariant
                i <= rev@.len(),
                out@ == rev@.subrange(i as int, rev@.len() as int).reverse(),
            decreases i,
        {
            i = i - 1;
            out.push(rev[i]);
            proof {
                assert(rev@.subrange(i as int, rev@.len() as int).reverse() =~= rev@.subrange(
                    (i + 1) as int,
                    rev@.len() as int,
                ).reverse().push(rev@[i as int]));
            }
        }
        proof {
            assert(rev@.subrange(0, rev@.len() as int) =~= rev@);
        }
        out
    }

    /// Adds a node extending node `node.prev_idx` and returns its index.
    pub fn add_node(&mut self, node: TrieNode) -> (out: u16)
        requires
            old(self).wf(),
            (node.prev_idx as int) < old(self).view().len(),
            old(self).view().len() < MAX_NODES,
        ensures
            final(self).wf(),
            final(self).view() == old(self).view().push((node.prev_idx, node.content)),
            out as int == old(self).view().len(),
    {
        let ghost old_nodes = self.view();
        let new_idx = self.nodes.len() as u16;
        let p = node.prev_idx as usize;
        let mut prev_node = self.nodes[p];
        let new_node = TrieNode { next_list_idx: NO_IDX, ..node };
        proof {
            lemma_children_bounded(old_nodes, p as int, old_nodes.len() as int);
        }
        if prev_node.next_list_idx == NO_IDX {
            prev_node.next_list_idx = self.next_lists.len() as u16;
            self.next_lists.push(vec![new_idx]);
        } else {
            let l = prev_node.next_list_idx as usize;
            let mut list: Vec<u16> = Vec::new();
            std::mem::swap(&mut list, &mut self.next_lists[l]);
            list.push(new_idx);
            self.next_lists.set(l, list);
        }
        self.nodes.set(p, prev_node);
        self.nodes.push(new_node);
        proof {
            let nodes = self.view();
            let n = old_nodes.len() as int;
            assert(nodes =~= old_nodes.push((node.prev_idx, node.content)));
            assert forall|j: int| 0 <= j < nodes.len() implies {
                let l = #[trigger] self.nodes@[j].next_list_idx;
                if l == NO_IDX {
                    children(nodes, j, nodes.len() as int).len() == 0
                } else {
                    &&& l < self.next_lists@.len()
                    &&& self.next_lists@[l as int]@ == children(nodes, j, nodes.len() as int)
                }
            } by {
                lemma_children_prefix(nodes, old_nodes, j, n);
                if j == n {
                    lemma_children_empty_above(nodes, j, n + 1);
                } else if j != p {
                    assert(old(self).nodes@[j].next_list_idx == self.nodes@[j].next_list_idx);
                }
            }
        }
        new_idx
    }
}

/// The continuation bytes of a varint for the high part `u` (most significant group first).
pub open spec fn varint_cont(u: nat) -> Seq<u8>
    decreases u,
{
    if u == 0 {
        seq![]
    } else {
        varint_cont(u / 128).push((u % 128 + 128) as u8)
    }
}

/// The big-endian varint of `v`: 7 bits per byte, the top bit set on all bytes but the last.
pub open spec fn varint_bytes(v: nat) -> Seq<u8> {
    varint_cont(v / 128).push((v % 128) as u8)
}

/// Appends the varint of `val` to `out`.
fn write_varint(val: usize, out: &mut Vec<u8>)
    ensures
        final(out)@ == old(out)@ + varint_bytes(val as nat),
{
    let mut val = val;
    let pos = out.len();
    let ghost v0 = val;
    // Insert instead of push since the result should be in big-endian order
    let low = (val & 0x7f) as u8;
    assert(val & 0x7f == val % 128) by (bit_vector);
    out.insert(pos, low);
    proof {
        assert(out@.subrange(pos as int, out@.len() as int) =~= seq![(v0 % 128) as u8]);
        assert(varint_cont(v0 as nat / 128) + seq![(v0 % 128) as u8] =~= varint_bytes(v0 as nat));
    }
    while val > 127
        invariant
            pos == old(out)@.len(),
            out@.len() >= pos,
            out@.subrange(0, pos as int) == old(out)@,
            varint_bytes(v0 as nat) == varint_cont(val as nat / 128) + out@.subrange(pos as int, out@.len() as int),
        decreases val,
    {
        let ghost old_tail = out@.subrange(pos as int, out@.len() as int);
        assert(val >> 7 == val / 128) by (bit_vector);
        val = val >> 7;
        let c = (val & 0x7f | 0x80) as u8;
        assert((val & 0x7f | 0x80) == val % 128 + 128) by (bit_vector);
        out.insert(pos, c);
        proof {
            assert(out@.subrange(pos as int, out@.len() as int) =~= seq![c] + old_tail);
            assert(out@.subrange(0, pos as int) =~= old(out)@);
            assert(varint_cont(val as nat) == varint_cont(val as nat / 128).push(c));
            assert(varint_cont(val as nat / 128).push(c) + old_tail =~= varint_cont(val as nat / 128) + (seq![c] + old_tail));
        }
    }
    proof {
        assert(varint_cont(val as nat / 128) == Seq::<u8>::empty());
        assert(out@ =~= out@.subrange(0, pos as int) + out@.subrange(pos as int, out@.len() as int));
        assert(Seq::<u8>::empty() + out@.subrange(pos as int, out@.len() as int) =~= out@.subrange(pos as int, out@.len() as int));
    }
}

/// The first entry `i` of `list` with content `b`.
pub open spec fn first_with_content(list: Seq<u16>, nodes: Seq<(u16, u8)>, b: u8) -> Option<int>
    decreases list.len(),
{
    if list.len() == 0 {
        None
    } else {
        match first_with_content(list.drop_last(), nodes, b) {
            Some(i) => Some(i),
            None => if nodes[list.last() as int].1 == b {
                Some(list.last() as int)
            } else {
                None
            },
        }
    }
}

proof fn lemma_first_child(nodes: Seq<(u16, u8)>, parent: int, b: u8, n: int)
    requires
        n <= nodes.len(),
        n <= MAX_NODES,
    ensures
        first_with_content(children(nodes, parent, n), nodes, b) == child_with(nodes, parent, b, n),
    decreases n,
{
    if n > 1 {
        lemma_first_child(nodes, parent, b, n - 1);
        let rest = children(nodes, parent, n - 1);
        if nodes[n - 1].0 as int == parent {
            assert(rest.push((n - 1) as u16).drop_last() =~= rest);
        }
    }
}

/// The encoder state: the dictionary, the node of the phrase matched so far, and the output.
pub struct EncoderModel {
    pub nodes: Seq<(u16, u8)>,
    pub current: nat,
    pub out: Seq<u8>,
}

/// The encoder state after byte `b`.
pub open spec fn model_push(m: EncoderModel, b: u8) -> EncoderModel {
    match child_with(m.nodes, m.current as int, b, m.nodes.len() as int) {
        Some(i) => EncoderModel { current: i as nat, ..m },
        None => EncoderModel {
            nodes: if m.nodes.len() < MAX_NODES {
                m.nodes.push((m.current as u16, b))
            } else {
                m.nodes
            },
            out: m.out + varint_bytes(m.current) + seq![b],
            current: 0,
        },
    }
}

/// The encoder state after the bytes of `data`.
pub open spec fn model_after(data: Seq<u8>) -> EncoderModel
    decreases data.len(),
{
    if data.len() == 0 {
        EncoderModel { nodes: seq![(NO_IDX, 0u8)], current: 0, out: seq![] }
    } else {
        model_push(model_after(data.drop_last()), data.last())
    }
}

/// The LZ78 encoding of `data`: the pairs, then the index of the phrase left over and a dummy
/// byte.
pub open spec fn lz78_encode(data: Seq<u8>) -> Seq<u8> {
    let m = model_after(data);
    m.out + varint_bytes(m.current) + seq![0u8]
}

/// Encodes `data` with LZ78.
pub fn encode_lz78(data: &[u8]) -> (out: Vec<u8>)
    ensures
        out@ == lz78_encode(data@),
{
    let mut out: Vec<u8> = Vec::new();
    let mut trie = Trie::new();
    let mut current_idx: usize = 0;
    let mut i: usize = 0;
    while i < data.len()
        invariant
            i <= data@.len(),
            trie.wf(),
            current_idx < trie.view().len(),
            model_after(data@.subrange(0, i as int)) == (EncoderModel {
                nodes: trie.view(),
                current: current_idx as nat,
                out: out@,
            }),
        decreases data@.len() - i,
    {
        let b = data[i];
        proof {
            assert(data@.subrange(0, i + 1).drop_last() =~= data@.subrange(0, i as int));
        }
        let ghost nodes = trie.view();
        let ghost m = model_after(data@.subrange(0, i as int));
        assert(model_after(data@.subrange(0, i + 1)) == model_push(m, b));
        let found = find_child(&trie, current_idx, b);
        match found {
            Some(idx) => {
                current_idx = idx;
                assert(model_push(m, b) == (EncoderModel { nodes: trie.view(), current: current_idx as nat, out: out@ }));
            },
            None => {
                if trie.nodes.len() < MAX_NODES {
                    trie.add_node(TrieNode { prev_idx: current_idx as u16, content: b, next_list_idx: NO_IDX });
                }
                write_varint(current_idx, &mut out);
                out.push(b);
                proof {
                    assert(out@ =~= model_after(data@.subrange(0, i as int)).out + varint_bytes(
                        current_idx as nat,
                    ) + seq![b]);
                }
                current_idx = 0;
                assert(model_push(m, b).nodes == trie.view());
                assert(model_push(m, b).current == 0);
            },
        }
        i = i + 1;
    }
    write_varint(current_idx, &mut out);
    // Write a dummy 0 here because the decoder does not know when the data has ended
    // and will always read one byte after the node index.
    out.push(0);
    proof {
        assert(data@.subrange(0, i as int) =~= data@);
    }
    out
}

/// The child of node `current` with content `b`, if there is one.
fn find_child(trie: &Trie, current: usize, b: u8) -> (out: Option<usize>)
    requires
        trie.wf(),
        current < trie.view().len(),
    ensures
        match child_with(trie.view(), current as int, b, trie.view().len() as int) {
            Some(i) => out == Some(i as usize) && 1 <= i < trie.view().len(),
            None => out is None,
        },
{
    let ghost nodes = trie.view();
    proof {
        lemma_first_child(nodes, current as int, b, nodes.len() as int);
        lemma_children_bounded(nodes, current as int, nodes.len() as int);
    }
    let l = trie.nodes[current].next_list_idx;
    if l == NO_IDX {
        return None;
    }
    let list = &trie.next_lists[l as usize];
    let mut k: usize = 0;
    while k < list.len()
        invariant
            trie.wf(),
            nodes == trie.view(),
            list@ == children(nodes, current as int, nodes.len() as int),
            forall|j: int| 0 <= j < list@.len() ==> 1 <= #[trigger] list@[j] < nodes.len(),
            k <= list@.len(),
            first_with_content(list@.subrange(0, k as int), nodes, b) is None,
            first_with_content(list@, nodes, b) == child_with(nodes, current as int, b, nodes.len() as int),
            current < nodes.len(),
        decreases list@.len() - k,
    {
        let idx = list[k];
        proof {
            assert(list@.subrange(0, k + 1).drop_last() =~= list@.subrange(0, k as int));
        }
        proof {
            assert(list@[k as int] == idx);
        }
        if trie.nodes[idx as usize].content == b {
            proof {
                assert(nodes[idx as int].1 == b);
                assert(list@.subrange(0, k + 1).last() == idx);
                assert(first_with_content(list@.subrange(0, k + 1), nodes, b) == Some(idx as int));
                lemma_first_prefix(list@, nodes, b, k + 1);
                assert(first_with_content(list@, nodes, b) == Some(idx as int));
                assert(child_with(nodes, current as int, b, nodes.len() as int) == Some(idx as int));
            }
            return Some(idx as usize);
        }
        k = k + 1;
    }
    proof {
        assert(list@.subrange(0, k as int) =~= list@);
    }
    None
}

/// A match within a prefix of the list is the first match of the whole list.
proof fn lemma_first_prefix(list: Seq<u16>, nodes: Seq<(u16, u8)>, b: u8, k: int)
    requires
        0 <= k <= list.len(),
        first_with_content(list.subrange(0, k), nodes, b) is Some,
    ensures
        first_with_content(list, nodes, b) == first_with_content(list.subrange(0, k), nodes, b),
    decreases list.len() - k,
{
    if k < list.len() {
        assert(list.subrange(0, k + 1).drop_last() =~= list.subrange(0, k));
        assert(first_with_content(list.subrange(0, k + 1), nodes, b) == first_with_content(list.subrange(0, k), nodes, b));
        lemma_first_prefix(list, nodes, b, k + 1);
    } else {
        assert(list.subrange(0, k) =~= list);
    }
}

/// Whether the varint at the start of `t` ends with its byte `k`.
pub open spec fn varint_stop(t: spec_fn(nat) -> u8, k: nat) -> bool {
    &&& t(k) < 128
    &&& forall|j: nat| j < k ==> #[trigger] t(j) >= 128
}

/// Whether the varint at the start of `t` ends at all.
pub open spec fn varint_ends(t: spec_fn(nat) -> u8) -> bool {
    exists|k: nat| varint_stop(t, k)
}

/// The number of continuation bytes of the varint at the start of `t`.
pub open spec fn varint_len(t: spec_fn(nat) -> u8) -> nat {
    choose|k: nat| varint_stop(t, k)
}

/// The low 16 bits of the value accumulated from the first `k` continuation bytes of `t`.
pub open spec fn varint_acc(t: spec_fn(nat) -> u8, k: nat) -> u16
    decreases k,
{
    if k == 0 {
        0
    } else {
        (((varint_acc(t, (k - 1) as nat) + t((k - 1) as nat) % 128) * 128) % 65536) as u16
    }
}

/// The varint at the start of `t`, truncated to a node index.
pub open spec fn varint_index(t: spec_fn(nat) -> u8) -> u16 {
    let k = varint_len(t);
    ((varint_acc(t, k) + t(k)) % 65536) as u16
}

pub proof fn lemma_varint_stop_unique(t: spec_fn(nat) -> u8, a: nat, b: nat)
    requires
        varint_stop(t, a),
        varint_stop(t, b),
    ensures
        a == b,
{
    if a < b {
        assert(t(a) >= 128);
    } else if b < a {
        assert(t(b) >= 128);
    }
}

proof fn lemma_varint_shift(s: spec_fn(nat) -> u8, a: nat, b: nat)
    ensures
        shift(s, a + b) == shift(shift(s, a), b),
{
    assert(shift(s, a + b) =~= shift(shift(s, a), b));
}

/// The state of an LZ78 decoder apart from its source: the dictionary, the phrase being output
/// and how many of its bytes were output.
pub struct Lz78State {
    pub nodes: Seq<(u16, u8)>,
    pub phrase: Seq<u8>,
    pub progress: nat,
}

/// Reads the next (index, byte) pair when the current phrase is complete.
pub open spec fn lz78_fetch(st: Lz78State, s: spec_fn(nat) -> u8, pos: nat) -> (Lz78State, nat) {
    if st.progress >= st.phrase.len() {
        let t = shift(s, pos);
        let k = varint_len(t);
        let idx = varint_index(t);
        let b = t(k + 1);
        (
            Lz78State {
                nodes: if st.nodes.len() < MAX_NODES {
                    st.nodes.push((idx, b))
                } else {
                    st.nodes
                },
                phrase: phrase(st.nodes, idx as int).push(b),
                progress: 0,
            },
            pos + k + 2,
        )
    } else {
        (st, pos)
    }
}

/// Whether the pair read by `lz78_fetch` is valid: its varint ends and names a known phrase.
pub open spec fn lz78_fetch_ok(st: Lz78State, s: spec_fn(nat) -> u8, pos: nat) -> bool {
    st.progress >= st.phrase.len() ==> {
        let t = shift(s, pos);
        varint_ends(t) && (varint_index(t) as int) < st.nodes.len()
    }
}

/// One decoding step: the byte output, the next state and the next input position.
pub open spec fn lz78_step(st: Lz78State, s: spec_fn(nat) -> u8, pos: nat) -> (u8, Lz78State, nat) {
    let (st1, pos1) = lz78_fetch(st, s, pos);
    (st1.phrase[st1.progress as int], Lz78State { progress: st1.progress + 1, ..st1 }, pos1)
}

/// The state and input position after `n` steps, and whether all of them were valid.
pub open spec fn lz78_run(st: Lz78State, s: spec_fn(nat) -> u8, pos: nat, n: nat) -> (Lz78State, nat, bool)
    decreases n,
{
    if n == 0 {
        (st, pos, true)
    } else {
        let (_, st1, pos1) = lz78_step(st, s, pos);
        let (st2, pos2, ok) = lz78_run(st1, s, pos1, (n - 1) as nat);
        (st2, pos2, ok && lz78_fetch_ok(st, s, pos))
    }
}

/// The bytes decoded from `s`.
pub open spec fn lz78_output(st: Lz78State, s: spec_fn(nat) -> u8) -> spec_fn(nat) -> u8 {
    |i: nat|
        {
            let (st_i, pos_i, _) = lz78_run(st, s, 0, i);
            lz78_step(st_i, s, pos_i).0
        }
}

/// The state of a fresh decoder.
pub open spec fn lz78_initial() -> Lz78State {
    Lz78State { nodes: seq![(NO_IDX, 0u8)], phrase: seq![], progress: 0 }
}

proof fn lemma_lz78_step_shift(st: Lz78State, s: spec_fn(nat) -> u8, pos: nat, k: nat)
    ensures
        lz78_step(st, s, pos + k) == ({
            let (o, st2, pos2) = lz78_step(st, shift(s, k), pos);
            (o, st2, pos2 + k)
        }),
        lz78_fetch_ok(st, s, pos + k) == lz78_fetch_ok(st, shift(s, k), pos),
{
    assert(shift(s, pos + k) =~= shift(shift(s, k), pos));
}

proof fn lemma_lz78_run_shift(st: Lz78State, s: spec_fn(nat) -> u8, pos: nat, k: nat, n: nat)
    ensures
        lz78_run(st, s, pos + k, n) == ({
            let (st2, pos2, ok) = lz78_run(st, shift(s, k), pos, n);
            (st2, pos2 + k, ok)
        }),
    decreases n,
{
    if n > 0 {
        lemma_lz78_step_shift(st, s, pos, k);
        let (_, st1, pos1) = lz78_step(st, shift(s, k), pos);
        lemma_lz78_run_shift(st1, s, pos1, k, (n - 1) as nat);
    }
}

proof fn lemma_lz78_run_monotone(st: Lz78State, s: spec_fn(nat) -> u8, pos: nat, a: nat, b: nat)
    requires
        a <= b,
    ensures
        lz78_run(st, s, pos, a).1 <= lz78_run(st, s, pos, b).1,
        pos <= lz78_run(st, s, pos, a).1,
        lz78_run(st, s, pos, b).2 ==> lz78_run(st, s, pos, a).2,
    decreases b,
{
    if b > 0 {
        let (_, st1, pos1) = lz78_step(st, s, pos);
        if a > 0 {
            lemma_lz78_run_monotone(st1, s, pos1, (a - 1) as nat, (b - 1) as nat);
        } else {
            lemma_lz78_run_monotone(st1, s, pos1, 0, (b - 1) as nat);
        }
    }
}

/// Decoding one step and then the rest of the input is decoding the whole input.
proof fn lemma_lz78_output_after_step(st: Lz78State, s: spec_fn(nat) -> u8)
    ensures
        ({
            let (o, st1, k) = lz78_step(st, s, 0);
            &&& lz78_output(st, s)(0) == o
            &&& lz78_output(st1, shift(s, k)) == shift(lz78_output(st, s), 1)
            &&& forall|n: nat|
                #[trigger] lz78_run(st1, shift(s, k), 0, n).1 + k == lz78_run(st, s, 0, n + 1).1
            &&& forall|n: nat|
                (#[trigger] lz78_run(st1, shift(s, k), 0, n).2 && lz78_fetch_ok(st, s, 0)) == lz78_run(st, s, 0, n + 1).2
        }),
{
    let (o, st1, k) = lz78_step(st, s, 0);
    assert forall|i: nat| #[trigger] lz78_output(st1, shift(s, k))(i) == shift(lz78_output(st, s), 1)(i) by {
        lemma_lz78_run_shift(st1, s, 0, k, i);
        let (st_i, p_i, _) = lz78_run(st1, shift(s, k), 0, i);
        lemma_lz78_step_shift(st_i, s, p_i, k);
    }
    assert(lz78_output(st1, shift(s, k)) =~= shift(lz78_output(st, s), 1));
    assert forall|n: nat| #[trigger] lz78_run(st1, shift(s, k), 0, n).1 + k == lz78_run(st, s, 0, n + 1).1 by {
        lemma_lz78_run_shift(st1, s, 0, k, n);
    }
    assert forall|n: nat|
        (#[trigger] lz78_run(st1, shift(s, k), 0, n).2 && lz78_fetch_ok(st, s, 0)) == lz78_run(st, s, 0, n + 1).2 by {
        lemma_lz78_run_shift(st1, s, 0, k, n);
    }
}

/// A phrase is no longer than the index of its node.
proof fn lemma_phrase_len(nodes: Seq<(u16, u8)>, idx: int)
    requires
        idx >= 0,
    ensures
        phrase(nodes, idx).len() <= idx,
    decreases idx,
{
    if !(idx <= 0 || idx >= nodes.len() || nodes[idx].0 as int >= idx) {
        lemma_phrase_len(nodes, nodes[idx].0 as int);
    }
}

proof fn lemma_varint_step(out: usize, b: u8, a: u16)
    by (bit_vector)
    requires
        out & 0x7f == 0,
        a == out as u16,
    ensures
        out + (b & 0x7f) as usize == ((out + (b & 0x7f) as usize) as usize),
        (((out + (b & 0x7f) as usize) as usize) << 7usize) & 0x7f == 0,
        ((((out + (b & 0x7f) as usize) as usize) << 7usize) as u16) == (((a + b % 128) * 128) % 65536) as u16,
{
}

proof fn lemma_varint_last(out: usize, b: u8, a: u16)
    by (bit_vector)
    requires
        out & 0x7f == 0,
        a == out as u16,
        b < 128,
    ensures
        out + b as usize == ((out + b as usize) as usize),
        ((out + b as usize) as usize) as u16 == ((a + b) % 65536) as u16,
{
}

/// Adds the phrase of node `idx` extended by `b` to the dictionary, unless it is full.
fn add_if_room(trie: &mut Trie, idx: u16, b: u8)
    requires
        old(trie).wf(),
        (idx as int) < old(trie).view().len(),
    ensures
        final(trie).wf(),
        final(trie).view() == if old(trie).view().len() < MAX_NODES {
            old(trie).view().push((idx, b))
        } else {
            old(trie).view()
        },
{
    if trie.nodes.len() < MAX_NODES {
        trie.add_node(TrieNode { prev_idx: idx, content: b, next_list_idx: NO_IDX });
    }
}

proof fn lemma_lz78_decode_post(
    old_d: LZ78Decoder,
    new_d: LZ78Decoder,
    src0: SourceDecoder,
    s: spec_fn(nat) -> u8,
    st: Lz78State,
)
    requires
        old_d.model() == st,
        *old_d.source == src0,
        s == src0.src_stream(),
        new_d.model() == lz78_step(st, s, 0).1,
        new_d.source.src_stream() == shift(s, lz78_step(st, s, 0).2),
        can_follow(*new_d.source, src0, lz78_step(st, s, 0).2),
        lz78_fetch_ok(st, s, 0),
    ensures
        new_d.spec_stream() == shift(old_d.spec_stream(), 1),
        old_d.spec_stream()(0) == lz78_step(st, s, 0).0,
        forall|n: nat| #[trigger] new_d.spec_can_produce(n) <== old_d.spec_can_produce(n + 1),
{
    let (o, st1, k) = lz78_step(st, s, 0);
    lemma_lz78_output_after_step(st, s);
    assert forall|n: nat| old_d.spec_can_produce(n + 1) implies #[trigger] new_d.spec_can_produce(n) by {
        let m = lz78_run(st1, shift(s, k), 0, n).1;
        assert(m + k == lz78_run(st, s, 0, n + 1).1);
        assert(lz78_run(st1, shift(s, k), 0, n).2);
        assert(src0.src_can_produce(m + k) ==> new_d.source.src_can_produce(m));
    }
}

/// Decodes the LZ78 pairs produced by a source decoder.
pub struct LZ78Decoder<'a> {
    pub source: Box<SourceDecoder<'a>>,
    pub trie: Trie,
    pub current_phrase: Vec<u8>,
    pub progress: u16,
}

impl<'a> LZ78Decoder<'a> {
    /// The decoder state apart from the source.
    pub open spec fn model(&self) -> Lz78State {
        Lz78State { nodes: self.trie.view(), phrase: self.current_phrase@, progress: self.progress as nat }
    }

    pub open spec fn wf(&self) -> bool
        decreases self,
    {
        &&& self.trie.wf()
        &&& self.progress <= self.current_phrase@.len() <= MAX_NODES
        &&& self.source.wf()
    }

    /// The bytes this decoder produces from now on.
    pub open spec fn spec_stream(&self) -> spec_fn(nat) -> u8
        decreases self,
    {
        lz78_output(self.model(), self.source.src_stream())
    }

    /// The next `n` bytes can be decoded when every pair they read is valid and the source can
    /// produce the bytes they read.
    pub open spec fn spec_can_produce(&self, n: nat) -> bool
        decreases self,
    {
        let r = lz78_run(self.model(), self.source.src_stream(), 0, n);
        r.2 && self.source.src_can_produce(r.1)
    }

    pub proof fn lemma_can_produce_monotone(&self, a: nat, b: nat)
        requires
            a <= b,
            self.wf(),
            self.spec_can_produce(b),
        ensures
            self.spec_can_produce(a),
        decreases self,
    {
        let s = self.source.src_stream();
        lemma_lz78_run_monotone(self.model(), s, 0, a, b);
        self.source.lemma_can_produce_monotone(lz78_run(self.model(), s, 0, a).1, lz78_run(self.model(), s, 0, b).1);
    }

    /// A decoder of the pairs produced by `source`, with a dictionary holding the empty phrase.
    pub fn new(source: Box<SourceDecoder<'a>>) -> (out: LZ78Decoder<'a>)
        requires
            source.wf(),
        ensures
            out.wf(),
            out.model() == lz78_initial(),
            *out.source == *source,
            out.spec_stream() == lz78_output(lz78_initial(), source.src_stream()),
    {
        let out = LZ78Decoder { source, trie: Trie::new(), current_phrase: Vec::new(), progress: 0 };
        assert(out.model().phrase =~= lz78_initial().phrase);
        out
    }

    /// Decodes the next byte.
    pub fn decode(&mut self) -> (out: u8)
        requires
            old(self).wf(),
            old(self).spec_can_produce(1),
        ensures
            final(self).wf(),
            out == old(self).spec_stream()(0),
            final(self).spec_stream() == shift(old(self).spec_stream(), 1),
            forall|n: nat| #[trigger] final(self).spec_can_produce(n) <== old(self).spec_can_produce(n + 1),
            final(self).source.depth() == old(self).source.depth(),
        decreases old(self).source.depth() + 1, 2nat,
    {
        let ghost s = self.source.src_stream();
        let ghost st = self.model();
        let ghost src0 = *self.source;
        proof {
            reveal_with_fuel(lz78_run, 2);
            assert(shift(s, 0) =~= s);
            assert(can_follow(*self.source, src0, 0));
        }
        let ghost k = lz78_step(st, s, 0).2;
        if (self.progress as usize) >= self.current_phrase.len() {
            let idx = self.read_varint(Ghost(src0), Ghost(s), Ghost(k));
            self.decode_next_phrase(idx as u16, Ghost(src0), Ghost(s), Ghost(k), Ghost(st));
        }
        let out = self.current_phrase[self.progress as usize];
        self.progress = self.progress + 1;
        proof {
            lemma_lz78_decode_post(*old(self), *self, src0, s, st);
        }
        out
    }

    /// Reads byte `r` of the source stream `s`.
    fn read_source_byte(
        &mut self,
        Ghost(src0): Ghost<SourceDecoder<'a>>,
        Ghost(s): Ghost<spec_fn(nat) -> u8>,
        Ghost(k): Ghost<nat>,
        Ghost(r): Ghost<nat>,
    ) -> (out: u8)
        requires
            old(self).wf(),
            s == src0.src_stream(),
            src0.wf(),
            src0.src_can_produce(k),
            r < k,
            old(self).source.src_stream() == shift(s, r),
            can_follow(*old(self).source, src0, r),
            old(self).source.depth() == src0.depth(),
        ensures
            final(self).wf(),
            out == s(r),
            final(self).source.src_stream() == shift(s, r + 1),
            can_follow(*final(self).source, src0, r + 1),
            final(self).source.depth() == src0.depth(),
            final(self).trie == old(self).trie,
            final(self).current_phrase == old(self).current_phrase,
            final(self).progress == old(self).progress,
        decreases src0.depth() + 1, 0nat,
    {
        proof {
            src0.lemma_can_produce_monotone(r + 1, k);
        }
        let ghost before = *self.source;
        let out = self.source.decode();
        proof {
            lemma_shift_shift(s, r);
            lemma_can_follow_step(*self.source, before, src0, r);
        }
        out
    }

    /// Reads the varint at the start of the source stream `s`.
    fn read_varint(
        &mut self,
        Ghost(src0): Ghost<SourceDecoder<'a>>,
        Ghost(s): Ghost<spec_fn(nat) -> u8>,
        Ghost(k): Ghost<nat>,
    ) -> (out: usize)
        requires
            old(self).wf(),
            s == src0.src_stream(),
            src0.wf(),
            src0.src_can_produce(k),
            varint_ends(s),
            varint_len(s) < k,
            *old(self).source == src0,
        ensures
            final(self).wf(),
            out as u16 == varint_index(s),
            final(self).source.src_stream() == shift(s, varint_len(s) + 1),
            can_follow(*final(self).source, src0, varint_len(s) + 1),
            final(self).source.depth() == src0.depth(),
            final(self).trie == old(self).trie,
            final(self).current_phrase == old(self).current_phrase,
            final(self).progress == old(self).progress,
        decreases src0.depth() + 1, 1nat,
    {
        let ghost len = varint_len(s);
        let ghost trie0 = self.trie;
        let ghost phrase0 = self.current_phrase;
        let ghost progress0 = self.progress;
        proof {
            assert(shift(s, 0) =~= s);
            assert(can_follow(*self.source, src0, 0));
        }
        let mut b = self.read_source_byte(Ghost(src0), Ghost(s), Ghost(k), Ghost(0));
        let mut out: usize = 0;
        let ghost mut cnt: nat = 0;
        assert(out & 0x7f == 0) by (bit_vector)
            requires
                out == 0,
        ;
        while b >= 0x80
            invariant
                self.wf(),
                s == src0.src_stream(),
                src0.wf(),
                src0.src_can_produce(k),
                varint_stop(s, len),
                len < k,
                cnt <= len,
                b == s(cnt),
                forall|j: nat| j < cnt ==> #[trigger] s(j) >= 128,
                out & 0x7f == 0,
                out as u16 == varint_acc(s, cnt),
                self.source.src_stream() == shift(s, cnt + 1),
                can_follow(*self.source, src0, cnt + 1),
                self.source.depth() == src0.depth(),
                self.trie == trie0,
                self.current_phrase == phrase0,
                self.progress == progress0,
            decreases len - cnt,
        {
            proof {
                lemma_varint_step(out, b, out as u16);
            }
            out = out + (b & 0x7f) as usize;
            out = out << 7;
            proof {
                assert(b & 0x7f == b % 128) by (bit_vector);
                cnt = cnt + 1;
            }
            b = self.read_source_byte(Ghost(src0), Ghost(s), Ghost(k), Ghost(cnt));
        }
        proof {
            lemma_varint_stop_unique(s, cnt, len);
            lemma_varint_last(out, b, out as u16);
        }
        out + b as usize
    }

    /// Starts outputting the phrase of node `idx` extended by the next source byte, and adds
    /// that phrase to the dictionary while there is room.
    #[verifier::rlimit(40)]
    fn decode_next_phrase(
        &mut self,
        idx: u16,
        Ghost(src0): Ghost<SourceDecoder<'a>>,
        Ghost(s): Ghost<spec_fn(nat) -> u8>,
        Ghost(k): Ghost<nat>,
        Ghost(st): Ghost<Lz78State>,
    )
        requires
            old(self).wf(),
            s == src0.src_stream(),
            src0.wf(),
            src0.src_can_produce(k),
            old(self).model() == st,
            st.progress >= st.phrase.len(),
            varint_ends(s),
            (varint_index(s) as int) < st.nodes.len(),
            k == varint_len(s) + 2,
            idx == varint_index(s),
            old(self).source.src_stream() == shift(s, varint_len(s) + 1),
            can_follow(*old(self).source, src0, varint_len(s) + 1),
            old(self).source.depth() == src0.depth(),
        ensures
            final(self).wf(),
            final(self).model() == ({
                let b = s(varint_len(s) + 1);
                Lz78State {
                    nodes: if st.nodes.len() < MAX_NODES {
                        st.nodes.push((idx, b))
                    } else {
                        st.nodes
                    },
                    phrase: phrase(st.nodes, idx as int).push(b),
                    progress: 0,
                }
            }),
            final(self).source.src_stream() == shift(s, k),
            can_follow(*final(self).source, src0, k),
            final(self).source.depth() == src0.depth(),
        decreases src0.depth() + 1, 1nat,
    {
        let mut current_phrase = self.trie.get_phrase(idx);
        proof {
            lemma_phrase_len(st.nodes, idx as int);
        }
        let next_byte = self.read_source_byte(Ghost(src0), Ghost(s), Ghost(k), Ghost(varint_len(s) + 1));
        add_if_room(&mut self.trie, idx, next_byte);
        current_phrase.push(next_byte);
        self.current_phrase = current_phrase;
        self.progress = 0;
    }
}

impl<'a> Decoder for LZ78Decoder<'a> {
    open spec fn stream(&self) -> spec_fn(nat) -> u8 {
        self.spec_stream()
    }

    open spec fn can_produce(&self, n: nat) -> bool {
        self.wf() && self.spec_can_produce(n)
    }

    proof fn lemma_produce_monotone(&self, a: nat, b: nat) {
        self.lemma_can_produce_monotone(a, b);
    }

    fn decode_u8(&mut self) -> (out: u8) {
        self.decode()
    }
}

} // verus!

//! The order in which the nodes of a tree are rendered: by increasing z-order, where a node
//! inserted later goes before the nodes of equal z-order already listed.
use vstd::prelude::*;

verus! {

/// A node of the walk over a tree: its number, its z-order and whether it is visible.
#[derive(Clone, Copy, Debug, PartialEq, Eq, Structural)]
pub struct WalkedNode {
    pub id: usize,
    pub z_order: i32,
    pub visible: bool,
}

/// The position at which a node of z-order `z` is inserted into `list`: before the first node
/// from position `i` on whose z-order is not below `z`, or at the end.
pub open spec fn insert_position(list: Seq<(usize, i32)>, z: i32, i: nat) -> nat
    decreases list.len() - i,
{
    if i >= list.len() {
        list.len()
    } else if z <= list[i as int].1 {
        i
    } else {
        insert_position(list, z, i + 1)
    }
}

/// `list` with `node` inserted by z-order.
pub open spec fn insert_by_z_order(list: Seq<(usize, i32)>, node: (usize, i32)) -> Seq<(usize, i32)> {
    list.insert(insert_position(list, node.1, 0) as int, node)
}

/// The render list after the first `k` nodes of the walk: the visible ones, inserted by
/// z-order in the order of the walk.
pub open spec fn walk_order(walk: Seq<WalkedNode>, k: nat) -> Seq<(usize, i32)>
    decreases k,
{
    if k == 0 {
        seq![]
    } else {
        let prev = walk_order(walk, (k - 1) as nat);
        let n = walk[k - 1];
        if n.visible {
            insert_by_z_order(prev, (n.id, n.z_order))
        } else {
            prev
        }
    }
}

/// The render list of a tree: the visible nodes below the root, in the order of the walk
/// over the tree (each node before its own sub-nodes), inserted by z-order; then the root.
pub open spec fn render_list(walk: Seq<WalkedNode>, root: (usize, i32)) -> Seq<(usize, i32)> {
    insert_by_z_order(walk_order(walk, walk.len()), root)
}

/// Inserts `node` into `list` by z-order: before the first node whose z-order is not below
/// the new one, or at the end.
fn insert_node(list: &mut Vec<(usize, i32)>, node: (usize, i32))
    ensures
        final(list)@ == insert_by_z_order(old(list)@, node),
{
    let mut i: usize = 0;
    while i < list.len()
        invariant
            i <= list@.len(),
            list@ == old(list)@,
            insert_position(list@, node.1, 0) == insert_position(list@, node.1, i as nat),
        decreases list@.len() - i,
    {
        if node.1 <= list[i].1 {
            list.insert(i, node);
            return;
        }
        i = i + 1;
    }
    list.push(node);
    proof {
        assert(old(list)@.insert(old(list)@.len() as int, node) =~= old(list)@.push(node));
    }
}

/// The order in which the nodes of a tree are rendered, from the walk over the nodes below
/// the root and the root itself, which is rendered whether or not it is visible.
pub fn render_order(walk: &[WalkedNode], root: (usize, i32)) -> (out: Vec<(usize, i32)>)
    ensures
        out@ == render_list(walk@, root),
{
    let mut list: Vec<(usize, i32)> = Vec::new();
    let mut k: usize = 0;
    while k < walk.len()
        invariant
            k <= walk@.len(),
            list@ == walk_order(walk@, k as nat),
        decreases walk@.len() - k,
    {
        let n = walk[k];
        if n.visible {
            insert_node(&mut list, (n.id, n.z_order));
        }
        k = k + 1;
    }
    insert_node(&mut list, root);
    list
}

/// The render list is sorted by z-order: inserting by z-order keeps a list sorted.
pub proof fn lemma_render_list_sorted(walk: Seq<WalkedNode>, root: (usize, i32))
    ensures
        forall|i: int, j: int| 0 <= i < j < render_list(walk, root).len() ==> render_list(walk, root)[i].1
            <= render_list(walk, root)[j].1,
        render_list(walk, root).len() == walk_order(walk, walk.len()).len() + 1,
{
    lemma_walk_order_sorted(walk, walk.len());
    lemma_insert_sorted(walk_order(walk, walk.len()), root);
}

/// Whether the z-orders of `list` never decrease.
pub open spec fn z_sorted(list: Seq<(usize, i32)>) -> bool {
    forall|i: int, j: int| 0 <= i < j < list.len() ==> list[i].1 <= list[j].1
}

proof fn lemma_position_facts(list: Seq<(usize, i32)>, z: i32, i: nat)
    requires
        i <= list.len(),
        forall|k: int| 0 <= k < i ==> list[k].1 < z,
    ensures
        insert_position(list, z, i) <= list.len(),
        forall|k: int| 0 <= k < insert_position(list, z, i) ==> list[k].1 < z,
        insert_position(list, z, i) < list.len() ==> z <= list[insert_position(list, z, i) as int].1,
    decreases list.len() - i,
{
    if i < list.len() && !(z <= list[i as int].1) {
        lemma_position_facts(list, z, i + 1);
    }
}

proof fn lemma_insert_sorted(list: Seq<(usize, i32)>, node: (usize, i32))
    requires
        z_sorted(list),
    ensures
        z_sorted(insert_by_z_order(list, node)),
        insert_by_z_order(list, node).len() == list.len() + 1,
{
    lemma_position_facts(list, node.1, 0);
    let p = insert_position(list, node.1, 0) as int;
    let r = insert_by_z_order(list, node);
    assert forall|i: int, j: int| 0 <= i < j < r.len() implies r[i].1 <= r[j].1 by {
        if j < p {
            assert(r[i] == list[i] && r[j] == list[j]);
        } else if j == p {
            assert(r[i] == list[i]);
        } else if i < p {
            assert(r[i] == list[i] && r[j] == list[j - 1]);
            assert(list[p].1 <= list[j - 1].1);
        } else if i == p {
            assert(r[j] == list[j - 1]);
            assert(list[p].1 <= list[j - 1].1);
        } else {
            assert(r[i] == list[i - 1] && r[j] == list[j - 1]);
        }
    }
}

proof fn lemma_walk_order_sorted(walk: Seq<WalkedNode>, k: nat)
    requires
        k <= walk.len(),
    ensures
        z_sorted(walk_order(walk, k)),
    decreases k,
{
    if k > 0 {
        lemma_walk_order_sorted(walk, (k - 1) as nat);
        let n = walk[k - 1];
        if n.visible {
            lemma_insert_sorted(walk_order(walk, (k - 1) as nat), (n.id, n.z_order));
        }
    }
}

} // verus!

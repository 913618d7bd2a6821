//! Mathematical model of the node hierarchy.
//!
//! [`TreeView`] is the ghost image of an executable tree node: every field is
//! a mathematical value, and the children form a `Seq`. The spec functions
//! here define lookup, traversal and mutation on that model; the executable
//! operations in [`crate::tree`] promise their results in these terms.
//!
//! All searches are depth-first and pre-order: a node is considered before
//! its children, and children are visited left to right. Where several nodes
//! carry the same id, the first match in that order wins.

use vstd::prelude::*;

verus! {

/// Ghost image of one node: id, display label, optional back-reference to
/// the owning node's id, and the ordered children.
#[verifier::ext_equal]
pub ghost struct TreeView {
    pub id: Seq<char>,
    pub label: Seq<char>,
    pub parent_id: Option<Seq<char>>,
    pub children: Seq<TreeView>,
}

/// Pre-order flattening: the node itself first, then each child's
/// flattening, in child order.
pub open spec fn flat(t: TreeView) -> Seq<TreeView>
    decreases t, 1int,
{
    seq![t] + flat_all(t.children)
}

/// Concatenation of the flattenings of a sequence of subtrees, in order.
pub open spec fn flat_all(ts: Seq<TreeView>) -> Seq<TreeView>
    decreases ts, 0int,
{
    if ts.len() == 0 {
        Seq::empty()
    } else {
        flat(ts[0]) + flat_all(ts.subrange(1, ts.len() as int))
    }
}

/// Total number of nodes in the subtree, the node itself included.
pub open spec fn count(t: TreeView) -> nat
    decreases t, 1int,
{
    1 + count_all(t.children)
}

/// Total number of nodes in a sequence of subtrees.
pub open spec fn count_all(ts: Seq<TreeView>) -> nat
    decreases ts, 0int,
{
    if ts.len() == 0 {
        0
    } else {
        count(ts[0]) + count_all(ts.subrange(1, ts.len() as int))
    }
}

/// Number of leaves in the subtree: 1 for a leaf, else the sum over the
/// children.
pub open spec fn leaves(t: TreeView) -> nat
    decreases t, 1int,
{
    if t.children.len() == 0 {
        1
    } else {
        leaves_all(t.children)
    }
}

/// Sum of the leaf counts of a sequence of subtrees.
pub open spec fn leaves_all(ts: Seq<TreeView>) -> nat
    decreases ts, 0int,
{
    if ts.len() == 0 {
        0
    } else {
        leaves(ts[0]) + leaves_all(ts.subrange(1, ts.len() as int))
    }
}

/// First node in pre-order whose id equals `id`, the node itself included.
pub open spec fn find_node(t: TreeView, id: Seq<char>) -> Option<TreeView>
    decreases t, 1int,
{
    if t.id == id {
        Some(t)
    } else {
        find_in(t.children, id)
    }
}

/// First match of `find_node` over a sequence of subtrees, in order.
pub open spec fn find_in(ts: Seq<TreeView>, id: Seq<char>) -> Option<TreeView>
    decreases ts, 0int,
{
    if ts.len() == 0 {
        None
    } else if find_node(ts[0], id) is Some {
        find_node(ts[0], id)
    } else {
        find_in(ts.subrange(1, ts.len() as int), id)
    }
}

/// Whether the subtree holds a node with the given id.
pub open spec fn contains_id(t: TreeView, id: Seq<char>) -> bool {
    find_node(t, id) is Some
}

/// Direct parent of the first node found with id `id`, scanning each level's
/// children before recursing; `None` when absent or when `id` is the root's
/// own id.
pub open spec fn find_parent(t: TreeView, id: Seq<char>) -> Option<TreeView>
    decreases t, 1int,
{
    parent_in(t, t.children, id)
}

/// Parent search over `owner`'s children `ts`: a child with the id makes
/// `owner` the parent; otherwise the search descends into each child in
/// order.
pub open spec fn parent_in(owner: TreeView, ts: Seq<TreeView>, id: Seq<char>) -> Option<TreeView>
    decreases ts, 0int,
{
    if ts.len() == 0 {
        None
    } else if ts[0].id == id {
        Some(owner)
    } else if find_parent(ts[0], id) is Some {
        find_parent(ts[0], id)
    } else {
        parent_in(owner, ts.subrange(1, ts.len() as int), id)
    }
}

/// Nodes from the root down to the first node found with id `id`, both
/// inclusive; empty when absent.
pub open spec fn path_to(t: TreeView, id: Seq<char>) -> Seq<TreeView>
    decreases t, 1int,
{
    if t.id == id {
        seq![t]
    } else {
        let p = path_in(t.children, id);
        if p.len() > 0 {
            seq![t] + p
        } else {
            Seq::empty()
        }
    }
}

/// First non-empty path found among a sequence of subtrees, in order.
pub open spec fn path_in(ts: Seq<TreeView>, id: Seq<char>) -> Seq<TreeView>
    decreases ts, 0int,
{
    if ts.len() == 0 {
        Seq::empty()
    } else {
        let p = path_to(ts[0], id);
        if p.len() > 0 {
            p
        } else {
            path_in(ts.subrange(1, ts.len() as int), id)
        }
    }
}

/// Distance in edges from the root to the first node found with id `id`;
/// the root itself has depth 0.
pub open spec fn depth(t: TreeView, id: Seq<char>) -> Option<nat>
    decreases t, 1int,
{
    if t.id == id {
        Some(0 as nat)
    } else {
        depth_in(t.children, id)
    }
}

/// Depth search over a sequence of subtrees: one more than the depth within
/// the first subtree that holds the id.
pub open spec fn depth_in(ts: Seq<TreeView>, id: Seq<char>) -> Option<nat>
    decreases ts, 0int,
{
    if ts.len() == 0 {
        None
    } else if depth(ts[0], id) is Some {
        Some((depth(ts[0], id).unwrap() + 1) as nat)
    } else {
        depth_in(ts.subrange(1, ts.len() as int), id)
    }
}

/// The node with its back-reference re-pointed at `pid`.
pub open spec fn stamp(c: TreeView, pid: Seq<char>) -> TreeView {
    TreeView { parent_id: Some(pid), ..c }
}

/// Every node of the sequence re-pointed at `pid`.
pub open spec fn stamp_all(cs: Seq<TreeView>, pid: Seq<char>) -> Seq<TreeView> {
    Seq::new(cs.len(), |i: int| stamp(cs[i], pid))
}

/// The tree after appending `c`, stamped, to the children of the first node
/// found in pre-order whose id is `pid`. Meaningful only when
/// `contains_id(t, pid)` holds; otherwise the tree is rebuilt unchanged.
pub open spec fn insert_node(t: TreeView, pid: Seq<char>, c: TreeView) -> TreeView
    decreases t, 1int,
{
    if t.id == pid {
        TreeView { children: t.children.push(stamp(c, t.id)), ..t }
    } else {
        TreeView { children: insert_in(t.children, pid, c), ..t }
    }
}

/// Insertion across a sequence of subtrees: the first subtree that holds
/// `pid` receives the child; the others are kept as they are.
pub open spec fn insert_in(ts: Seq<TreeView>, pid: Seq<char>, c: TreeView) -> Seq<TreeView>
    decreases ts, 0int,
{
    if ts.len() == 0 {
        ts
    } else if contains_id(ts[0], pid) {
        seq![insert_node(ts[0], pid, c)] + ts.subrange(1, ts.len() as int)
    } else {
        seq![ts[0]] + insert_in(ts.subrange(1, ts.len() as int), pid, c)
    }
}

/// Index of the first element whose id equals `tid`, or -1 when none does.
pub open spec fn first_direct(ts: Seq<TreeView>, tid: Seq<char>) -> int
    decreases ts,
{
    if ts.len() == 0 {
        -1
    } else if ts[0].id == tid {
        0
    } else {
        let r = first_direct(ts.subrange(1, ts.len() as int), tid);
        if r < 0 {
            -1
        } else {
            r + 1
        }
    }
}

/// Removal of the subtree rooted at the first node found whose id is `tid`,
/// searching each level's direct children before recursing. Yields the tree
/// after removal and the detached subtree, or `None` when no node below the
/// root carries the id. The root itself can never be removed.
pub open spec fn remove_tree(t: TreeView, tid: Seq<char>) -> Option<(TreeView, TreeView)>
    decreases t, 2int,
{
    match remove_among(t.children, tid) {
        Some((cs, rem)) => Some((TreeView { children: cs, ..t }, rem)),
        None => None,
    }
}

/// Removal over a sequence of subtrees: a direct element with the id is
/// detached whole; failing that, the first subtree that allows a removal
/// provides it.
pub open spec fn remove_among(ts: Seq<TreeView>, tid: Seq<char>) -> Option<
    (Seq<TreeView>, TreeView),
>
    decreases ts, 1int,
{
    let i = first_direct(ts, tid);
    if i >= 0 {
        Some((ts.remove(i), ts[i]))
    } else {
        remove_deep(ts, tid)
    }
}

/// Removal that descends into each subtree in order, keeping the rest.
pub open spec fn remove_deep(ts: Seq<TreeView>, tid: Seq<char>) -> Option<
    (Seq<TreeView>, TreeView),
>
    decreases ts, 0int,
{
    if ts.len() == 0 {
        None
    } else {
        match remove_tree(ts[0], tid) {
            Some((c0, rem)) => Some((seq![c0] + ts.subrange(1, ts.len() as int), rem)),
            None => match remove_deep(ts.subrange(1, ts.len() as int), tid) {
                Some((rest, rem)) => Some((seq![ts[0]] + rest, rem)),
                None => None,
            },
        }
    }
}

/// A found node carries the searched id.
pub proof fn lemma_find_has_id(t: TreeView, id: Seq<char>)
    ensures
        find_node(t, id) is Some ==> find_node(t, id).unwrap().id == id,
    decreases t, 1int,
{
    if t.id != id {
        lemma_find_in_has_id(t.children, id);
    }
}

/// A node found among subtrees carries the searched id.
pub proof fn lemma_find_in_has_id(ts: Seq<TreeView>, id: Seq<char>)
    ensures
        find_in(ts, id) is Some ==> find_in(ts, id).unwrap().id == id,
    decreases ts, 0int,
{
    if ts.len() > 0 {
        lemma_find_has_id(ts[0], id);
        lemma_find_in_has_id(ts.subrange(1, ts.len() as int), id);
    }
}

/// A search may skip a prefix of subtrees in which nothing matches.
pub proof fn lemma_find_in_skip(ts: Seq<TreeView>, id: Seq<char>, i: int)
    requires
        0 <= i <= ts.len(),
        forall|j: int| 0 <= j < i ==> find_node(ts[j], id) is None,
    ensures
        find_in(ts, id) == find_in(ts.subrange(i, ts.len() as int), id),
    decreases i,
{
    if i > 0 {
        let sub = ts.subrange(1, ts.len() as int);
        lemma_find_in_skip(sub, id, i - 1);
        assert(sub.subrange(i - 1, sub.len() as int) =~= ts.subrange(i, ts.len() as int));
    } else {
        assert(ts.subrange(0, ts.len() as int) =~= ts);
    }
}

/// A parent search may skip a prefix of subtrees in which neither a direct
/// element nor a descendant matches.
pub proof fn lemma_parent_in_skip(owner: TreeView, ts: Seq<TreeView>, id: Seq<char>, i: int)
    requires
        0 <= i <= ts.len(),
        forall|j: int| 0 <= j < i ==> #[trigger] ts[j].id != id && find_parent(ts[j], id) is None,
    ensures
        parent_in(owner, ts, id) == parent_in(owner, ts.subrange(i, ts.len() as int), id),
    decreases i,
{
    if i > 0 {
        let sub = ts.subrange(1, ts.len() as int);
        lemma_parent_in_skip(owner, sub, id, i - 1);
        assert(sub.subrange(i - 1, sub.len() as int) =~= ts.subrange(i, ts.len() as int));
    } else {
        assert(ts.subrange(0, ts.len() as int) =~= ts);
    }
}

/// A path search may skip a prefix of subtrees in which no path is found.
pub proof fn lemma_path_in_skip(ts: Seq<TreeView>, id: Seq<char>, i: int)
    requires
        0 <= i <= ts.len(),
        forall|j: int| 0 <= j < i ==> (#[trigger] path_to(ts[j], id)).len() == 0,
    ensures
        path_in(ts, id) == path_in(ts.subrange(i, ts.len() as int), id),
    decreases i,
{
    if i > 0 {
        let sub = ts.subrange(1, ts.len() as int);
        assert(path_to(ts[0], id).len() == 0);
        assert(path_in(ts, id) == path_in(sub, id));
        assert(forall|j: int| 0 <= j < i - 1 ==> (#[trigger] path_to(sub[j], id)).len() == 0) by {
            assert(forall|j: int| 0 <= j < i - 1 ==> sub[j] == ts[j + 1]);
        }
        lemma_path_in_skip(sub, id, i - 1);
        assert(sub.subrange(i - 1, sub.len() as int) =~= ts.subrange(i, ts.len() as int));
    } else {
        assert(ts.subrange(0, ts.len() as int) =~= ts);
    }
}

/// A depth search may skip a prefix of subtrees in which nothing matches.
pub proof fn lemma_depth_in_skip(ts: Seq<TreeView>, id: Seq<char>, i: int)
    requires
        0 <= i <= ts.len(),
        forall|j: int| 0 <= j < i ==> (#[trigger] depth(ts[j], id)) is None,
    ensures
        depth_in(ts, id) == depth_in(ts.subrange(i, ts.len() as int), id),
    decreases i,
{
    if i > 0 {
        let sub = ts.subrange(1, ts.len() as int);
        assert(depth(ts[0], id) is None);
        assert(depth_in(ts, id) == depth_in(sub, id));
        assert(forall|j: int| 0 <= j < i - 1 ==> (#[trigger] depth(sub[j], id)) is None) by {
            assert(forall|j: int| 0 <= j < i - 1 ==> sub[j] == ts[j + 1]);
        }
        lemma_depth_in_skip(sub, id, i - 1);
        assert(sub.subrange(i - 1, sub.len() as int) =~= ts.subrange(i, ts.len() as int));
    } else {
        assert(ts.subrange(0, ts.len() as int) =~= ts);
    }
}

/// Flattening distributes over concatenation of subtree sequences.
pub proof fn lemma_flat_all_concat(a: Seq<TreeView>, b: Seq<TreeView>)
    ensures
        flat_all(a + b) == flat_all(a) + flat_all(b),
    decreases a,
{
    if a.len() == 0 {
        assert(a + b =~= b);
        assert(flat_all(a) + flat_all(b) =~= flat_all(b));
    } else {
        let sub = a.subrange(1, a.len() as int);
        lemma_flat_all_concat(sub, b);
        assert((a + b).subrange(1, (a + b).len() as int) =~= sub + b);
        assert((a + b)[0] == a[0]);
        assert(flat(a[0]) + (flat_all(sub) + flat_all(b)) =~= (flat(a[0]) + flat_all(sub))
            + flat_all(b));
    }
}

/// Extending a flattened prefix by one subtree appends that subtree's
/// flattening.
pub proof fn lemma_flat_all_snoc(ts: Seq<TreeView>, i: int)
    requires
        0 <= i < ts.len(),
    ensures
        flat_all(ts.subrange(0, i + 1)) == flat_all(ts.subrange(0, i)) + flat(ts[i]),
{
    reveal_with_fuel(flat_all, 3);
    let one = seq![ts[i]];
    assert(ts.subrange(0, i + 1) =~= ts.subrange(0, i) + one);
    lemma_flat_all_concat(ts.subrange(0, i), one);
    assert(one.subrange(1, 1) =~= Seq::<TreeView>::empty());
    assert(flat_all(one) =~= flat(ts[i]));
}

/// A single subtree flattens to its own flattening.
pub proof fn lemma_flat_all_one(x: TreeView)
    ensures
        flat_all(seq![x]) == flat(x),
{
    reveal_with_fuel(flat_all, 3);
    let one = seq![x];
    assert(one.subrange(1, 1) =~= Seq::<TreeView>::empty());
    assert(flat_all(one) =~= flat(x));
}

/// A non-negative first direct match is in range and carries the id.
pub proof fn lemma_first_direct_props(ts: Seq<TreeView>, tid: Seq<char>)
    ensures
        first_direct(ts, tid) >= 0 ==> 0 <= first_direct(ts, tid) < ts.len() && ts[first_direct(
            ts,
            tid,
        )].id == tid,
    decreases ts,
{
    if ts.len() > 0 && ts[0].id != tid {
        lemma_first_direct_props(ts.subrange(1, ts.len() as int), tid);
    }
}

/// Leaf counting distributes over concatenation of subtree sequences.
pub proof fn lemma_leaves_all_concat(a: Seq<TreeView>, b: Seq<TreeView>)
    ensures
        leaves_all(a + b) == leaves_all(a) + leaves_all(b),
    decreases a,
{
    if a.len() == 0 {
        assert(a + b =~= b);
    } else {
        let sub = a.subrange(1, a.len() as int);
        lemma_leaves_all_concat(sub, b);
        assert((a + b).subrange(1, (a + b).len() as int) =~= sub + b);
        assert((a + b)[0] == a[0]);
    }
}

/// Extending a leaf-counted prefix by one subtree adds that subtree's
/// leaves.
pub proof fn lemma_leaves_all_snoc(ts: Seq<TreeView>, i: int)
    requires
        0 <= i < ts.len(),
    ensures
        leaves_all(ts.subrange(0, i + 1)) == leaves_all(ts.subrange(0, i)) + leaves(ts[i]),
{
    reveal_with_fuel(leaves_all, 3);
    let one = seq![ts[i]];
    assert(ts.subrange(0, i + 1) =~= ts.subrange(0, i) + one);
    lemma_leaves_all_concat(ts.subrange(0, i), one);
    assert(one.subrange(1, 1) =~= Seq::<TreeView>::empty());
    assert(leaves_all(one) == leaves(ts[i]));
}

/// One subtree never counts more nodes than the whole sequence it is in.
pub proof fn lemma_count_all_bound(ts: Seq<TreeView>, i: int)
    requires
        0 <= i < ts.len(),
    ensures
        count(ts[i]) <= count_all(ts),
    decreases ts,
{
    if i > 0 {
        let sub = ts.subrange(1, ts.len() as int);
        lemma_count_all_bound(sub, i - 1);
    }
}

/// The flattening of a subtree has exactly one entry per node.
pub proof fn lemma_flat_len(t: TreeView)
    ensures
        flat(t).len() == count(t),
    decreases t, 1int,
{
    lemma_flat_all_len(t.children);
}

/// The flattening of a subtree sequence has exactly one entry per node.
pub proof fn lemma_flat_all_len(ts: Seq<TreeView>)
    ensures
        flat_all(ts).len() == count_all(ts),
    decreases ts, 0int,
{
    if ts.len() > 0 {
        lemma_flat_len(ts[0]);
        lemma_flat_all_len(ts.subrange(1, ts.len() as int));
    }
}

/// Every subtree has at least one leaf, and no more leaves than nodes.
pub proof fn lemma_leaves_bounds(t: TreeView)
    ensures
        1 <= leaves(t) <= count(t),
    decreases t, 1int,
{
    if t.children.len() > 0 {
        lemma_leaves_all_bounds(t.children);
    }
}

/// A non-empty subtree sequence has at least one leaf, and never more
/// leaves than nodes.
pub proof fn lemma_leaves_all_bounds(ts: Seq<TreeView>)
    ensures
        leaves_all(ts) <= count_all(ts),
        ts.len() > 0 ==> 1 <= leaves_all(ts),
    decreases ts, 0int,
{
    if ts.len() > 0 {
        lemma_leaves_bounds(ts[0]);
        lemma_leaves_all_bounds(ts.subrange(1, ts.len() as int));
    }
}

/// A found depth is strictly less than the number of nodes.
pub proof fn lemma_depth_lt_count(t: TreeView, id: Seq<char>)
    ensures
        depth(t, id) is Some ==> depth(t, id).unwrap() < count(t),
    decreases t, 1int,
{
    if t.id != id {
        lemma_depth_in_le_count_all(t.children, id);
    }
}

/// A depth found among a sequence of subtrees is at most the sequence's
/// node count.
pub proof fn lemma_depth_in_le_count_all(ts: Seq<TreeView>, id: Seq<char>)
    ensures
        depth_in(ts, id) is Some ==> depth_in(ts, id).unwrap() <= count_all(ts),
    decreases ts, 0int,
{
    if ts.len() > 0 {
        lemma_depth_lt_count(ts[0], id);
        lemma_depth_in_le_count_all(ts.subrange(1, ts.len() as int), id);
    }
}

/// Insertion lands in the first subtree that holds the target id; the
/// others are untouched.
pub proof fn lemma_insert_in_at(ts: Seq<TreeView>, pid: Seq<char>, c: TreeView, i: int)
    requires
        0 <= i < ts.len(),
        forall|j: int| 0 <= j < i ==> !(#[trigger] contains_id(ts[j], pid)),
        contains_id(ts[i], pid),
    ensures
        insert_in(ts, pid, c) == ts.update(i, insert_node(ts[i], pid, c)),
    decreases i,
{
    if i == 0 {
        assert(seq![insert_node(ts[0], pid, c)] + ts.subrange(1, ts.len() as int) =~= ts.update(
            0,
            insert_node(ts[0], pid, c),
        ));
    } else {
        let sub = ts.subrange(1, ts.len() as int);
        assert(forall|j: int| 0 <= j < i - 1 ==> !(#[trigger] contains_id(sub[j], pid))) by {
            assert(forall|j: int| 0 <= j < i - 1 ==> sub[j] == ts[j + 1]);
        }
        lemma_insert_in_at(sub, pid, c, i - 1);
        assert(seq![ts[0]] + sub.update(i - 1, insert_node(sub[i - 1], pid, c)) =~= ts.update(
            i,
            insert_node(ts[i], pid, c),
        ));
    }
}

/// The first direct match is at `i` when nothing before `i` matches.
pub proof fn lemma_first_direct_at(ts: Seq<TreeView>, tid: Seq<char>, i: int)
    requires
        0 <= i < ts.len(),
        forall|j: int| 0 <= j < i ==> (#[trigger] ts[j].id) != tid,
        ts[i].id == tid,
    ensures
        first_direct(ts, tid) == i,
    decreases i,
{
    if i > 0 {
        let sub = ts.subrange(1, ts.len() as int);
        assert(forall|j: int| 0 <= j < i - 1 ==> (#[trigger] sub[j].id) != tid) by {
            assert(forall|j: int| 0 <= j < i - 1 ==> sub[j] == ts[j + 1]);
        }
        lemma_first_direct_at(sub, tid, i - 1);
    }
}

/// No direct match anywhere means no first direct match.
pub proof fn lemma_first_direct_none(ts: Seq<TreeView>, tid: Seq<char>)
    requires
        forall|j: int| 0 <= j < ts.len() ==> (#[trigger] ts[j].id) != tid,
    ensures
        first_direct(ts, tid) == -1,
    decreases ts,
{
    if ts.len() > 0 {
        let sub = ts.subrange(1, ts.len() as int);
        assert(forall|j: int| 0 <= j < sub.len() ==> (#[trigger] sub[j].id) != tid) by {
            assert(forall|j: int| 0 <= j < sub.len() ==> sub[j] == ts[j + 1]);
        }
        lemma_first_direct_none(sub, tid);
    }
}

/// A deep removal happens in the first subtree that allows one; the others
/// are untouched.
pub proof fn lemma_remove_deep_at(ts: Seq<TreeView>, tid: Seq<char>, i: int)
    requires
        0 <= i < ts.len(),
        forall|j: int| 0 <= j < i ==> (#[trigger] remove_tree(ts[j], tid)) is None,
        remove_tree(ts[i], tid) is Some,
    ensures
        remove_deep(ts, tid) == Some(
            (
                ts.update(i, remove_tree(ts[i], tid).unwrap().0),
                remove_tree(ts[i], tid).unwrap().1,
            ),
        ),
    decreases i,
{
    if i == 0 {
        let c0 = remove_tree(ts[0], tid).unwrap().0;
        assert(seq![c0] + ts.subrange(1, ts.len() as int) =~= ts.update(0, c0));
    } else {
        let sub = ts.subrange(1, ts.len() as int);
        assert(forall|j: int| 0 <= j < i - 1 ==> (#[trigger] remove_tree(sub[j], tid)) is None) by {
            assert(forall|j: int| 0 <= j < i - 1 ==> sub[j] == ts[j + 1]);
        }
        lemma_remove_deep_at(sub, tid, i - 1);
        let c0 = remove_tree(ts[i], tid).unwrap().0;
        assert(seq![ts[0]] + sub.update(i - 1, c0) =~= ts.update(i, c0));
    }
}

/// No subtree allowing a removal means no deep removal.
pub proof fn lemma_remove_deep_none(ts: Seq<TreeView>, tid: Seq<char>)
    requires
        forall|j: int| 0 <= j < ts.len() ==> (#[trigger] remove_tree(ts[j], tid)) is None,
    ensures
        remove_deep(ts, tid) is None,
    decreases ts,
{
    if ts.len() > 0 {
        let sub = ts.subrange(1, ts.len() as int);
        assert(remove_tree(ts[0], tid) is None);
        assert(forall|j: int| 0 <= j < sub.len() ==> (#[trigger] remove_tree(sub[j], tid)) is None)
            by {
            assert(forall|j: int| 0 <= j < sub.len() ==> sub[j] == ts[j + 1]);
        }
        lemma_remove_deep_none(sub, tid);
        assert(remove_deep(ts, tid) is None);
    }
}

/// No two nodes of the subtree carry the same id.
pub open spec fn ids_unique(t: TreeView) -> bool {
    forall|i: int, j: int|
        0 <= i < flat(t).len() && 0 <= j < flat(t).len() && i != j ==> #[trigger] flat(t)[i].id
            != #[trigger] flat(t)[j].id
}

} // verus!

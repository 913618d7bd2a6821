//! Structural laws of the tree model, stated and proved once and for all.
//!
//! Each proof function here is a law about the spec functions of
//! [`crate::model`]; the executable operations promise their results in
//! exactly those spec functions, so these laws carry over to every tree the
//! library builds.

use vstd::prelude::*;

use crate::model::TreeView;
use crate::model::contains_id;
use crate::model::count;
use crate::model::depth;
use crate::model::depth_in;
use crate::model::find_in;
use crate::model::find_node;
use crate::model::first_direct;
use crate::model::flat;
use crate::model::flat_all;
use crate::model::ids_unique;
use crate::model::insert_in;
use crate::model::insert_node;
use crate::model::leaves;
use crate::model::leaves_all;
use crate::model::lemma_first_direct_props;
use crate::model::lemma_flat_all_concat;
use crate::model::lemma_flat_all_one;
use crate::model::lemma_flat_len;
use crate::model::path_in;
use crate::model::path_to;
use crate::model::remove_among;
use crate::model::remove_deep;
use crate::model::remove_tree;
use crate::model::stamp;

verus! {

/// The predicate of being a leaf, as a value usable with `Seq::filter`.
pub open spec fn leaf_pred() -> spec_fn(TreeView) -> bool {
    |n: TreeView| n.children.len() == 0
}

/// Pre-order consistency: the flattening starts with the node itself, is
/// followed by the children's flattenings in child order, and has exactly
/// one entry per node of the subtree.
pub proof fn lemma_flatten_preorder(t: TreeView)
    ensures
        flat(t).len() == count(t),
        flat(t).len() >= 1,
        flat(t)[0] == t,
        flat(t) == seq![t] + flat_all(t.children),
        t.children.len() == 0 ==> flat_all(t.children) == Seq::<TreeView>::empty(),
        t.children.len() > 0 ==> flat_all(t.children) == flat(t.children[0]) + flat_all(
            t.children.subrange(1, t.children.len() as int),
        ),
{
    lemma_flat_len(t);
}

/// Leaf-count invariant: `leaves` equals the number of entries of the
/// flattening that have no children.
pub proof fn lemma_leaf_count_is_flat_leaves(t: TreeView)
    ensures
        leaves(t) == flat(t).filter(leaf_pred()).len(),
    decreases t, 1int,
{
    reveal_with_fuel(Seq::filter, 3);
    let p = leaf_pred();
    let one = seq![t];
    assert(one.drop_last() =~= Seq::<TreeView>::empty());
    if t.children.len() == 0 {
        assert(flat_all(t.children) == Seq::<TreeView>::empty());
        assert(flat(t) =~= one);
        assert(one.filter(p) =~= seq![t]);
    } else {
        lemma_leaves_all_is_flat_leaves(t.children);
        Seq::filter_distributes_over_add(one, flat_all(t.children), p);
        assert(one + flat_all(t.children) =~= flat(t));
        assert(one.filter(p) =~= Seq::<TreeView>::empty());
    }
}

/// Leaf-count invariant over a sequence of subtrees.
pub proof fn lemma_leaves_all_is_flat_leaves(ts: Seq<TreeView>)
    ensures
        leaves_all(ts) == flat_all(ts).filter(leaf_pred()).len(),
    decreases ts, 0int,
{
    reveal_with_fuel(Seq::filter, 1);
    let p = leaf_pred();
    if ts.len() == 0 {
        assert(flat_all(ts).filter(p).len() == 0);
    } else {
        let sub = ts.subrange(1, ts.len() as int);
        lemma_leaf_count_is_flat_leaves(ts[0]);
        lemma_leaves_all_is_flat_leaves(sub);
        Seq::filter_distributes_over_add(flat(ts[0]), flat_all(sub), p);
    }
}

/// Depth is path length: wherever an id is present, its depth is exactly
/// one less than the length of the path down to it, the path starts at the
/// root and ends at the node carrying the id; where absent, the depth is
/// "not found" and the path is empty.
pub proof fn lemma_depth_is_path_length(t: TreeView, id: Seq<char>)
    ensures
        contains_id(t, id) <==> depth(t, id) is Some,
        contains_id(t, id) <==> path_to(t, id).len() > 0,
        contains_id(t, id) ==> {
            &&& depth(t, id) == Some((path_to(t, id).len() - 1) as nat)
            &&& path_to(t, id)[0] == t
            &&& path_to(t, id).last().id == id
        },
        !contains_id(t, id) ==> depth(t, id) is None && path_to(t, id)
            == Seq::<TreeView>::empty(),
    decreases t, 1int,
{
    if t.id != id {
        lemma_depth_is_path_length_in(t.children, id);
    }
}

/// Depth is path length, over a sequence of subtrees: the three searches
/// succeed on exactly the same sequences, and agree as at a node.
pub proof fn lemma_depth_is_path_length_in(ts: Seq<TreeView>, id: Seq<char>)
    ensures
        find_in(ts, id) is Some <==> depth_in(ts, id) is Some,
        find_in(ts, id) is Some <==> path_in(ts, id).len() > 0,
        find_in(ts, id) is Some ==> {
            &&& depth_in(ts, id) == Some(path_in(ts, id).len() as nat)
            &&& path_in(ts, id).last().id == id
        },
    decreases ts, 0int,
{
    if ts.len() > 0 {
        lemma_depth_is_path_length(ts[0], id);
        lemma_depth_is_path_length_in(ts.subrange(1, ts.len() as int), id);
    }
}

/// `whole` is `kept` with `part` spliced in, as one contiguous block, at
/// position `k`.
pub open spec fn spliced<A>(whole: Seq<A>, kept: Seq<A>, part: Seq<A>, k: int) -> bool {
    &&& 0 <= k <= kept.len()
    &&& whole == kept.subrange(0, k) + part + kept.subrange(k, kept.len() as int)
}

/// The ids carried by a sequence of nodes, in order.
pub open spec fn id_seq(ts: Seq<TreeView>) -> Seq<Seq<char>> {
    ts.map_values(|n: TreeView| n.id)
}

/// The id projection distributes over concatenation.
pub proof fn lemma_id_seq_concat(a: Seq<TreeView>, b: Seq<TreeView>)
    ensures
        id_seq(a + b) == id_seq(a) + id_seq(b),
{
    assert(id_seq(a + b) =~= id_seq(a) + id_seq(b));
}

/// An id is present exactly when some entry of the flattening carries it.
pub proof fn lemma_contains_iff_flat(t: TreeView, id: Seq<char>)
    ensures
        contains_id(t, id) <==> exists|i: int|
            0 <= i < flat(t).len() && (#[trigger] flat(t)[i]).id == id,
    decreases t, 1int,
{
    lemma_find_in_iff_flat_all(t.children, id);
    if t.id == id {
        assert(flat(t)[0] == t);
    } else {
        if find_in(t.children, id) is Some {
            let i = choose|i: int|
                0 <= i < flat_all(t.children).len() && (#[trigger] flat_all(t.children)[i]).id
                    == id;
            assert(flat(t)[i + 1] == flat_all(t.children)[i]);
        } else {
            assert forall|i: int| 0 <= i < flat(t).len() implies (#[trigger] flat(t)[i]).id
                != id by {
                if i > 0 {
                    assert(flat(t)[i] == flat_all(t.children)[i - 1]);
                }
            }
        }
    }
}

/// An id is found among subtrees exactly when some entry of their joint
/// flattening carries it.
pub proof fn lemma_find_in_iff_flat_all(ts: Seq<TreeView>, id: Seq<char>)
    ensures
        find_in(ts, id) is Some <==> exists|i: int|
            0 <= i < flat_all(ts).len() && (#[trigger] flat_all(ts)[i]).id == id,
    decreases ts, 0int,
{
    if ts.len() > 0 {
        let sub = ts.subrange(1, ts.len() as int);
        lemma_contains_iff_flat(ts[0], id);
        lemma_find_in_iff_flat_all(sub, id);
        let head = flat(ts[0]);
        if find_node(ts[0], id) is Some {
            let i = choose|i: int| 0 <= i < head.len() && (#[trigger] head[i]).id == id;
            assert(flat_all(ts)[i] == head[i]);
        } else if find_in(sub, id) is Some {
            let i = choose|i: int|
                0 <= i < flat_all(sub).len() && (#[trigger] flat_all(sub)[i]).id == id;
            assert(flat_all(ts)[head.len() + i] == flat_all(sub)[i]);
        } else {
            assert forall|i: int| 0 <= i < flat_all(ts).len() implies (#[trigger] flat_all(
                ts,
            )[i]).id != id by {
                if i < head.len() {
                    assert(flat_all(ts)[i] == head[i]);
                } else {
                    assert(flat_all(ts)[i] == flat_all(sub)[i - head.len()]);
                }
            }
        }
    }
}

/// A removal detaches one contiguous pre-order block: the removed node
/// carries the searched id, the root keeps its own fields, and the ids of
/// the whole tree's flattening are the ids of the remainder's flattening
/// with the removed subtree's ids spliced back in, below the root.
pub proof fn lemma_remove_splice(t: TreeView, tid: Seq<char>)
    ensures
        remove_tree(t, tid) is Some ==> ({
            let pair = remove_tree(t, tid).unwrap();
            &&& pair.1.id == tid
            &&& pair.0.id == t.id && pair.0.label == t.label && pair.0.parent_id == t.parent_id
            &&& exists|k: int|
                1 <= k && spliced(id_seq(flat(t)), id_seq(flat(pair.0)), id_seq(flat(pair.1)), k)
        }),
    decreases t, 2int,
{
    if remove_tree(t, tid) is Some {
        let pair = remove_tree(t, tid).unwrap();
        let after = pair.0;
        let rem = pair.1;
        let cs = t.children;
        lemma_remove_among_splice(cs, tid);
        let spair = remove_among(cs, tid).unwrap();
        let cs2 = spair.0;
        assert(after == (TreeView { children: cs2, ..t }));
        assert(rem == spair.1);
        let k = choose|k: int|
            spliced(id_seq(flat_all(cs)), id_seq(flat_all(cs2)), id_seq(flat(rem)), k);
        let wa = id_seq(flat(after));
        lemma_id_seq_concat(seq![t], flat_all(cs));
        lemma_id_seq_concat(seq![after], flat_all(cs2));
        assert(spliced(id_seq(flat(t)), wa, id_seq(flat(rem)), k + 1)) by {
            assert(id_seq(seq![t]) =~= seq![t.id]);
            assert(id_seq(seq![after]) =~= seq![t.id]);
            assert(wa.subrange(0, k + 1) =~= seq![t.id] + id_seq(flat_all(cs2)).subrange(0, k));
            assert(wa.subrange(k + 1, wa.len() as int) =~= id_seq(flat_all(cs2)).subrange(
                k,
                id_seq(flat_all(cs2)).len() as int,
            ));
            assert(id_seq(flat(t)) =~= wa.subrange(0, k + 1) + id_seq(flat(rem)) + wa.subrange(
                k + 1,
                wa.len() as int,
            ));
        }
    }
}

/// A removal among subtrees detaches one contiguous block of the joint
/// flattening.
pub proof fn lemma_remove_among_splice(ts: Seq<TreeView>, tid: Seq<char>)
    ensures
        remove_among(ts, tid) is Some ==> ({
            let pair = remove_among(ts, tid).unwrap();
            &&& pair.1.id == tid
            &&& exists|k: int|
                spliced(id_seq(flat_all(ts)), id_seq(flat_all(pair.0)), id_seq(flat(pair.1)), k)
        }),
    decreases ts, 1int,
{
    let i = first_direct(ts, tid);
    lemma_first_direct_props(ts, tid);
    if i >= 0 {
        let pair = remove_among(ts, tid).unwrap();
        assert(pair.0 == ts.remove(i) && pair.1 == ts[i]);
        let pre = ts.subrange(0, i);
        let one = seq![ts[i]];
        let suf = ts.subrange(i + 1, ts.len() as int);
        assert(ts =~= pre + one + suf);
        lemma_flat_all_concat(pre + one, suf);
        lemma_flat_all_concat(pre, one);
        lemma_flat_all_one(ts[i]);
        assert(ts.remove(i) =~= pre + suf);
        lemma_flat_all_concat(pre, suf);
        lemma_id_seq_concat(flat_all(pre + one), flat_all(suf));
        lemma_id_seq_concat(flat_all(pre), flat(ts[i]));
        lemma_id_seq_concat(flat_all(pre), flat_all(suf));
        let kept = id_seq(flat_all(ts.remove(i)));
        let k = id_seq(flat_all(pre)).len() as int;
        assert(spliced(id_seq(flat_all(ts)), kept, id_seq(flat(ts[i])), k)) by {
            assert(kept.subrange(0, k) =~= id_seq(flat_all(pre)));
            assert(kept.subrange(k, kept.len() as int) =~= id_seq(flat_all(suf)));
            assert(id_seq(flat_all(ts)) =~= kept.subrange(0, k) + id_seq(flat(ts[i]))
                + kept.subrange(k, kept.len() as int));
        }
    } else {
        lemma_remove_deep_splice(ts, tid);
    }
}

/// A removal that descends into subtrees detaches one contiguous block of
/// the joint flattening.
pub proof fn lemma_remove_deep_splice(ts: Seq<TreeView>, tid: Seq<char>)
    ensures
        remove_deep(ts, tid) is Some ==> ({
            let pair = remove_deep(ts, tid).unwrap();
            &&& pair.1.id == tid
            &&& exists|k: int|
                spliced(id_seq(flat_all(ts)), id_seq(flat_all(pair.0)), id_seq(flat(pair.1)), k)
        }),
    decreases ts, 0int,
{
    if remove_deep(ts, tid) is Some {
        let sub = ts.subrange(1, ts.len() as int);
        let pair = remove_deep(ts, tid).unwrap();
        let ts2 = pair.0;
        let rem = pair.1;
        let whole = id_seq(flat_all(ts));
        let kept = id_seq(flat_all(ts2));
        lemma_id_seq_concat(flat(ts[0]), flat_all(sub));
        if remove_tree(ts[0], tid) is Some {
            lemma_remove_splice(ts[0], tid);
            let np = remove_tree(ts[0], tid).unwrap();
            let c0 = np.0;
            let k0 = choose|k: int|
                1 <= k && spliced(id_seq(flat(ts[0])), id_seq(flat(c0)), id_seq(flat(np.1)), k);
            assert(ts2.subrange(1, ts2.len() as int) =~= sub);
            assert(ts2[0] == c0);
            lemma_id_seq_concat(flat(c0), flat_all(sub));
            assert(spliced(whole, kept, id_seq(flat(rem)), k0)) by {
                assert(kept.subrange(0, k0) =~= id_seq(flat(c0)).subrange(0, k0));
                assert(kept.subrange(k0, kept.len() as int) =~= id_seq(flat(c0)).subrange(
                    k0,
                    id_seq(flat(c0)).len() as int,
                ) + id_seq(flat_all(sub)));
                assert(whole =~= kept.subrange(0, k0) + id_seq(flat(rem)) + kept.subrange(
                    k0,
                    kept.len() as int,
                ));
            }
        } else {
            lemma_remove_deep_splice(sub, tid);
            let sp = remove_deep(sub, tid).unwrap();
            let k1 = choose|k: int|
                spliced(id_seq(flat_all(sub)), id_seq(flat_all(sp.0)), id_seq(flat(sp.1)), k);
            assert(ts2.subrange(1, ts2.len() as int) =~= sp.0);
            assert(ts2[0] == ts[0]);
            lemma_id_seq_concat(flat(ts[0]), flat_all(sp.0));
            let k = id_seq(flat(ts[0])).len() + k1;
            assert(spliced(whole, kept, id_seq(flat(rem)), k)) by {
                assert(kept.subrange(0, k) =~= id_seq(flat(ts[0])) + id_seq(flat_all(
                    sp.0,
                )).subrange(0, k1));
                assert(kept.subrange(k, kept.len() as int) =~= id_seq(flat_all(sp.0)).subrange(
                    k1,
                    id_seq(flat_all(sp.0)).len() as int,
                ));
                assert(whole =~= kept.subrange(0, k) + id_seq(flat(rem)) + kept.subrange(
                    k,
                    kept.len() as int,
                ));
            }
        }
    }
}

/// Re-pointing a node's back-reference changes no id anywhere below it.
pub proof fn lemma_stamp_same_ids(c: TreeView, pid: Seq<char>)
    ensures
        id_seq(flat(stamp(c, pid))) == id_seq(flat(c)),
{
    let st = stamp(c, pid);
    lemma_id_seq_concat(seq![st], flat_all(st.children));
    lemma_id_seq_concat(seq![c], flat_all(c.children));
    assert(id_seq(seq![st]) =~= seq![c.id]);
    assert(id_seq(seq![c]) =~= seq![c.id]);
    assert(id_seq(flat(st)) =~= id_seq(flat(c)));
}

/// An insertion adds one contiguous pre-order block: the ids of the tree
/// after insertion are the ids of the tree before, with the child's ids
/// spliced in below the root.
pub proof fn lemma_insert_splice(t: TreeView, pid: Seq<char>, c: TreeView)
    ensures
        contains_id(t, pid) ==> exists|k: int|
            1 <= k && spliced(
                id_seq(flat(insert_node(t, pid, c))),
                id_seq(flat(t)),
                id_seq(flat(c)),
                k,
            ),
    decreases t, 1int,
{
    if contains_id(t, pid) {
        let cs = t.children;
        if t.id == pid {
            let st = stamp(c, t.id);
            let new = insert_node(t, pid, c);
            assert(new == (TreeView { children: cs.push(st), ..t }));
            assert(cs.push(st) =~= cs + seq![st]);
            lemma_flat_all_concat(cs, seq![st]);
            lemma_flat_all_one(st);
            lemma_stamp_same_ids(c, t.id);
            lemma_id_seq_concat(seq![new], flat_all(cs.push(st)));
            lemma_id_seq_concat(flat_all(cs), flat(st));
            lemma_id_seq_concat(seq![t], flat_all(cs));
            let kept = id_seq(flat(t));
            let k = kept.len() as int;
            assert(spliced(id_seq(flat(new)), kept, id_seq(flat(c)), k)) by {
                assert(id_seq(seq![new]) =~= seq![t.id]);
                assert(id_seq(seq![t]) =~= seq![t.id]);
                assert(kept.subrange(0, k) =~= kept);
                assert(kept.subrange(k, k) =~= Seq::<Seq<char>>::empty());
                assert(id_seq(flat(new)) =~= kept.subrange(0, k) + id_seq(flat(c))
                    + kept.subrange(k, k));
            }
        } else {
            lemma_insert_in_splice(cs, pid, c);
            let new = insert_node(t, pid, c);
            assert(new == (TreeView { children: insert_in(cs, pid, c), ..t }));
            let k = choose|k: int|
                spliced(
                    id_seq(flat_all(insert_in(cs, pid, c))),
                    id_seq(flat_all(cs)),
                    id_seq(flat(c)),
                    k,
                );
            lemma_id_seq_concat(seq![new], flat_all(insert_in(cs, pid, c)));
            lemma_id_seq_concat(seq![t], flat_all(cs));
            let kept = id_seq(flat(t));
            assert(spliced(id_seq(flat(new)), kept, id_seq(flat(c)), k + 1)) by {
                assert(id_seq(seq![new]) =~= seq![t.id]);
                assert(id_seq(seq![t]) =~= seq![t.id]);
                assert(kept.subrange(0, k + 1) =~= seq![t.id] + id_seq(flat_all(cs)).subrange(
                    0,
                    k,
                ));
                assert(kept.subrange(k + 1, kept.len() as int) =~= id_seq(flat_all(cs)).subrange(
                    k,
                    id_seq(flat_all(cs)).len() as int,
                ));
                assert(id_seq(flat(new)) =~= kept.subrange(0, k + 1) + id_seq(flat(c))
                    + kept.subrange(k + 1, kept.len() as int));
            }
        }
    }
}

/// An insertion among subtrees adds one contiguous block of the joint
/// flattening's ids.
pub proof fn lemma_insert_in_splice(ts: Seq<TreeView>, pid: Seq<char>, c: TreeView)
    ensures
        find_in(ts, pid) is Some ==> exists|k: int|
            spliced(
                id_seq(flat_all(insert_in(ts, pid, c))),
                id_seq(flat_all(ts)),
                id_seq(flat(c)),
                k,
            ),
    decreases ts, 0int,
{
    if find_in(ts, pid) is Some {
        let sub = ts.subrange(1, ts.len() as int);
        let out = insert_in(ts, pid, c);
        lemma_id_seq_concat(flat(ts[0]), flat_all(sub));
        if contains_id(ts[0], pid) {
            lemma_insert_splice(ts[0], pid, c);
            let n0 = insert_node(ts[0], pid, c);
            let k0 = choose|k: int|
                1 <= k && spliced(id_seq(flat(n0)), id_seq(flat(ts[0])), id_seq(flat(c)), k);
            assert(out =~= seq![n0] + sub);
            assert(out[0] == n0);
            assert(out.subrange(1, out.len() as int) =~= sub);
            lemma_id_seq_concat(flat(n0), flat_all(sub));
            let whole = id_seq(flat_all(out));
            let kept = id_seq(flat_all(ts));
            assert(spliced(whole, kept, id_seq(flat(c)), k0)) by {
                assert(kept.subrange(0, k0) =~= id_seq(flat(ts[0])).subrange(0, k0));
                assert(kept.subrange(k0, kept.len() as int) =~= id_seq(flat(ts[0])).subrange(
                    k0,
                    id_seq(flat(ts[0])).len() as int,
                ) + id_seq(flat_all(sub)));
                assert(whole =~= kept.subrange(0, k0) + id_seq(flat(c)) + kept.subrange(
                    k0,
                    kept.len() as int,
                ));
            }
        } else {
            lemma_insert_in_splice(sub, pid, c);
            let k1 = choose|k: int|
                spliced(
                    id_seq(flat_all(insert_in(sub, pid, c))),
                    id_seq(flat_all(sub)),
                    id_seq(flat(c)),
                    k,
                );
            assert(out =~= seq![ts[0]] + insert_in(sub, pid, c));
            assert(out[0] == ts[0]);
            assert(out.subrange(1, out.len() as int) =~= insert_in(sub, pid, c));
            lemma_id_seq_concat(flat(ts[0]), flat_all(insert_in(sub, pid, c)));
            let whole = id_seq(flat_all(out));
            let kept = id_seq(flat_all(ts));
            let k = id_seq(flat(ts[0])).len() + k1;
            assert(spliced(whole, kept, id_seq(flat(c)), k)) by {
                assert(kept.subrange(0, k) =~= id_seq(flat(ts[0])) + id_seq(flat_all(
                    sub,
                )).subrange(0, k1));
                assert(kept.subrange(k, kept.len() as int) =~= id_seq(flat_all(sub)).subrange(
                    k1,
                    id_seq(flat_all(sub)).len() as int,
                ));
                assert(whole =~= kept.subrange(0, k) + id_seq(flat(c)) + kept.subrange(
                    k,
                    kept.len() as int,
                ));
            }
        }
    }
}

/// Relocation keeps every node: a successful move detaches a block of ids
/// and re-attaches exactly that block elsewhere, so the total number of
/// nodes is unchanged.
pub proof fn lemma_relocation_preserves_nodes(t: TreeView, nid: Seq<char>, pid: Seq<char>)
    requires
        remove_tree(t, nid) is Some,
        contains_id(remove_tree(t, nid).unwrap().0, pid),
    ensures
        ({
            let after = remove_tree(t, nid).unwrap().0;
            let rem = remove_tree(t, nid).unwrap().1;
            let moved = insert_node(after, pid, rem);
            &&& count(moved) == count(t)
            &&& exists|k: int|
                1 <= k && spliced(id_seq(flat(moved)), id_seq(flat(after)), id_seq(flat(rem)), k)
        }),
{
    let after = remove_tree(t, nid).unwrap().0;
    let rem = remove_tree(t, nid).unwrap().1;
    let moved = insert_node(after, pid, rem);
    lemma_remove_detaches(t, nid);
    lemma_insert_splice(after, pid, rem);
    lemma_flat_len(t);
    lemma_flat_len(after);
    lemma_flat_len(rem);
    lemma_flat_len(moved);
    let k1 = choose|k: int|
        1 <= k && spliced(id_seq(flat(t)), id_seq(flat(after)), id_seq(flat(rem)), k);
    let k2 = choose|k: int|
        1 <= k && spliced(id_seq(flat(moved)), id_seq(flat(after)), id_seq(flat(rem)), k);
    assert(id_seq(flat(t)).len() == id_seq(flat(after)).len() + id_seq(flat(rem)).len());
    assert(id_seq(flat(moved)).len() == id_seq(flat(after)).len() + id_seq(flat(rem)).len());
}

/// Removal detaches a subtree: the removed node carries the searched id,
/// every node is either kept or removed (the counts add up), the flattening
/// of the whole tree is the remainder's flattening with the removed
/// subtree's flattening spliced back in below the root, and, when no id
/// appears twice, no node with the searched id remains.
pub proof fn lemma_remove_detaches(t: TreeView, tid: Seq<char>)
    requires
        remove_tree(t, tid) is Some,
    ensures
        ({
            let pair = remove_tree(t, tid).unwrap();
            &&& pair.1.id == tid
            &&& pair.0.id == t.id && pair.0.label == t.label && pair.0.parent_id == t.parent_id
            &&& count(t) == count(pair.0) + count(pair.1)
            &&& exists|k: int|
                1 <= k && spliced(id_seq(flat(t)), id_seq(flat(pair.0)), id_seq(flat(pair.1)), k)
            &&& ids_unique(t) ==> !contains_id(pair.0, tid)
        }),
{
    let pair = remove_tree(t, tid).unwrap();
    let after = pair.0;
    let rem = pair.1;
    let wt = id_seq(flat(t));
    let wa = id_seq(flat(after));
    let wr = id_seq(flat(rem));
    lemma_remove_splice(t, tid);
    let k = choose|k: int| 1 <= k && spliced(wt, wa, wr, k);
    lemma_flat_len(t);
    lemma_flat_len(after);
    lemma_flat_len(rem);
    assert(wt.len() == wa.len() + wr.len());
    if ids_unique(t) {
        assert(flat(rem)[0] == rem);
        assert(wr[0] == rem.id);
        assert(wt[k] == wr[0]);
        assert(wr.len() >= 1);
        if contains_id(after, tid) {
            lemma_contains_iff_flat(after, tid);
            let i = choose|i: int|
                0 <= i < flat(after).len() && (#[trigger] flat(after)[i]).id == tid;
            assert(wa[i] == tid);
            if i < k {
                assert(wt[i] == wa[i]);
                assert(flat(t)[i].id == tid && flat(t)[k].id == tid && i != k);
                assert(false);
            } else {
                let ii = i + wr.len();
                assert(wt[ii] == wa[i]);
                assert(flat(t)[ii].id == tid && flat(t)[k].id == tid && ii != k);
                assert(false);
            }
        }
    }
}

} // verus!

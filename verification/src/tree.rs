//! The executable tree node and its operations.
//!
//! A [`TreeNode`] owns its children outright; the optional `parent_id` is a
//! cached back-reference kept consistent by the mutation operations, never a
//! traversable pointer. The view of a node is a [`TreeView`], and every
//! contract speaks in terms of the spec functions of [`crate::model`].

use vstd::prelude::*;
use vstd::string::StrSliceExecFns;

use crate::model::TreeView;
use crate::model::contains_id;
use crate::model::count;
use crate::model::depth;
use crate::model::find_in;
use crate::model::find_node;
use crate::model::find_parent;
use crate::model::flat;
use crate::model::flat_all;
use crate::model::insert_node;
use crate::model::leaves;
use crate::model::leaves_all;
use crate::model::lemma_count_all_bound;
use crate::model::lemma_depth_in_skip;
use crate::model::lemma_depth_lt_count;
use crate::model::lemma_find_has_id;
use crate::model::lemma_find_in_skip;
use crate::model::lemma_first_direct_at;
use crate::model::lemma_first_direct_none;
use crate::model::lemma_flat_all_snoc;
use crate::model::lemma_insert_in_at;
use crate::model::lemma_leaves_all_bounds;
use crate::model::lemma_leaves_all_concat;
use crate::model::lemma_leaves_all_snoc;
use crate::model::lemma_parent_in_skip;
use crate::model::lemma_path_in_skip;
use crate::model::lemma_remove_deep_at;
use crate::model::lemma_remove_deep_none;
use crate::model::path_to;
use crate::model::remove_tree;
use crate::model::stamp;
use crate::model::stamp_all;

verus! {

/// One entry in a hierarchy: a unique id (uniqueness is the caller's
/// obligation, not checked here), a display label, an optional back-reference
/// to the owning node's id, and the ordered children.
#[derive(Debug, PartialEq)]
pub struct TreeNode {
    pub id: String,
    pub label: String,
    pub parent_id: Option<String>,
    pub children: Vec<TreeNode>,
}

/// Ghost image of an executable node.
pub open spec fn node_view(n: TreeNode) -> TreeView
    decreases n, 1int,
{
    TreeView {
        id: n.id@,
        label: n.label@,
        parent_id: match n.parent_id {
            Some(p) => Some(p@),
            None => None,
        },
        children: kids_view(n.children@),
    }
}

/// Ghost images of a sequence of executable nodes, in order.
pub open spec fn kids_view(ns: Seq<TreeNode>) -> Seq<TreeView>
    decreases ns, 0int,
{
    if ns.len() == 0 {
        Seq::empty()
    } else {
        seq![node_view(ns[0])] + kids_view(ns.subrange(1, ns.len() as int))
    }
}

impl View for TreeNode {
    type V = TreeView;

    open spec fn view(&self) -> TreeView {
        node_view(*self)
    }
}

/// The image of a node sequence is the pointwise image.
pub proof fn lemma_kids_view(ns: Seq<TreeNode>)
    ensures
        kids_view(ns).len() == ns.len(),
        forall|i: int| 0 <= i < ns.len() ==> kids_view(ns)[i] == node_view(ns[i]),
    decreases ns,
{
    if ns.len() > 0 {
        lemma_kids_view(ns.subrange(1, ns.len() as int));
    }
}

/// The image of a pushed sequence is the image with the pushed node's image.
pub proof fn lemma_kids_view_push(ns: Seq<TreeNode>, n: TreeNode)
    ensures
        kids_view(ns.push(n)) == kids_view(ns).push(node_view(n)),
{
    lemma_kids_view(ns.push(n));
    lemma_kids_view(ns);
    assert(kids_view(ns.push(n)) =~= kids_view(ns).push(node_view(n)));
}

/// The image of an updated sequence is the image updated with the node's
/// image.
pub proof fn lemma_kids_view_update(ns: Seq<TreeNode>, i: int, n: TreeNode)
    requires
        0 <= i < ns.len(),
    ensures
        kids_view(ns.update(i, n)) == kids_view(ns).update(i, node_view(n)),
{
    lemma_kids_view(ns.update(i, n));
    lemma_kids_view(ns);
    assert(kids_view(ns.update(i, n)) =~= kids_view(ns).update(i, node_view(n)));
}

/// The image of a sequence with one element removed is the image with that
/// element's image removed.
pub proof fn lemma_kids_view_remove(ns: Seq<TreeNode>, i: int)
    requires
        0 <= i < ns.len(),
    ensures
        kids_view(ns.remove(i)) == kids_view(ns).remove(i),
{
    lemma_kids_view(ns.remove(i));
    lemma_kids_view(ns);
    assert(kids_view(ns.remove(i)) =~= kids_view(ns).remove(i));
}

/// Character-for-character string comparison, so that equality of the views
/// is decided exactly.
fn str_eq(a: &str, b: &str) -> (r: bool)
    ensures
        r == (a@ == b@),
{
    let n = a.unicode_len();
    if n != b.unicode_len() {
        return false;
    }
    let mut i: usize = 0;
    while i < n
        invariant
            n == a@.len(),
            n == b@.len(),
            0 <= i <= n,
            forall|j: int| 0 <= j < i ==> a@[j] == b@[j],
        decreases n - i,
    {
        if a.get_char(i) != b.get_char(i) {
            return false;
        }
        i += 1;
    }
    proof {
        assert(a@ =~= b@);
    }
    true
}

impl TreeNode {
    /// Create a leaf node: no children, no parent.
    pub fn new(id: String, label: String) -> (r: TreeNode)
        ensures
            r@ == (TreeView { id: id@, label: label@, parent_id: None, children: Seq::empty() }),
    {
        let r = TreeNode { id, label, parent_id: None, children: Vec::new() };
        proof {
            assert(r@ =~= (TreeView {
                id: r.id@,
                label: r.label@,
                parent_id: None,
                children: Seq::empty(),
            }));
        }
        r
    }

    /// Create a branch node with children: each child's `parent_id` is set
    /// to the branch's own id; the branch itself is left root-shaped, with
    /// no `parent_id` of its own.
    pub fn new_with_children(id: String, label: String, children: Vec<TreeNode>) -> (r: TreeNode)
        ensures
            r@.id == id@,
            r@.label == label@,
            r@.parent_id is None,
            r@.children == stamp_all(kids_view(children@), id@),
            r@.children.len() == children@.len(),
            forall|i: int| 0 <= i < children@.len() ==> r@.children[i].parent_id == Some(id@),
    {
        let ghost orig: Seq<TreeNode> = children@;
        let mut rest = children;
        let mut out: Vec<TreeNode> = Vec::new();
        while rest.len() > 0
            invariant
                out@.len() + rest@.len() == orig.len(),
                rest@ == orig.subrange(out@.len() as int, orig.len() as int),
                kids_view(out@) == stamp_all(kids_view(orig.subrange(0, out@.len() as int)), id@),
            decreases rest@.len(),
        {
            let ghost done: int = out@.len() as int;
            let mut c = rest.remove(0);
            c.parent_id = Some(id.clone());
            proof {
                lemma_kids_view(orig.subrange(0, done));
                lemma_kids_view(orig.subrange(0, done + 1));
                lemma_kids_view(orig);
                assert(node_view(c) =~= stamp(node_view(orig[done]), id@));
                lemma_kids_view_push(out@, c);
                assert(rest@ == orig.subrange(done, orig.len() as int).remove(0));
            }
            out.push(c);
            proof {
                assert(rest@ =~= orig.subrange(done + 1, orig.len() as int));
                assert(kids_view(out@) =~= stamp_all(
                    kids_view(orig.subrange(0, done + 1)),
                    id@,
                ));
            }
        }
        proof {
            assert(orig.subrange(0, orig.len() as int) =~= orig);
        }
        let r = TreeNode { id, label, parent_id: None, children: out };
        proof {
            lemma_kids_view(orig);
            lemma_kids_view(r.children@);
        }
        r
    }

    /// Append a child directly to this node's children, after setting the
    /// child's `parent_id` to this node's id.
    pub fn add_child(&mut self, child: TreeNode)
        ensures
            final(self)@ == (TreeView {
                children: old(self)@.children.push(stamp(child@, old(self)@.id)),
                ..old(self)@
            }),
    {
        let ghost given: TreeView = child@;
        let mut child = child;
        child.parent_id = Some(self.id.clone());
        proof {
            assert(node_view(child) =~= stamp(given, self.id@));
        }
        self.children.push(child);
        proof {
            lemma_kids_view_push(old(self).children@, child);
            assert(self@ =~= (TreeView {
                children: old(self)@.children.push(stamp(given, old(self)@.id)),
                ..old(self)@
            }));
        }
    }

    /// Find a node by its id anywhere in the subtree, the node itself
    /// included; depth-first, pre-order, first match.
    pub fn find_by_id<'a>(&'a self, target: &str) -> (r: Option<&'a TreeNode>)
        ensures
            match r {
                Some(n) => find_node(self@, target@) == Some(n@) && n@.id == target@,
                None => find_node(self@, target@) is None,
            },
        decreases *self,
    {
        proof {
            lemma_find_has_id(self@, target@);
        }
        if str_eq(self.id.as_str(), target) {
            return Some(self);
        }
        let ghost kids: Seq<TreeView> = self@.children;
        proof {
            lemma_kids_view(self.children@);
        }
        let mut i: usize = 0;
        while i < self.children.len()
            invariant
                i <= self.children@.len(),
                kids == kids_view(self.children@),
                kids.len() == self.children@.len(),
                self@.id != target@,
                forall|j: int| 0 <= j < i ==> find_node(kids[j], target@) is None,
            decreases self.children@.len() - i,
        {
            proof {
                lemma_kids_view(self.children@);
            }
            let r = self.children[i].find_by_id(target);
            if r.is_some() {
                proof {
                    lemma_find_in_skip(kids, target@, i as int);
                    assert(kids.subrange(i as int, kids.len() as int)[0] == kids[i as int]);
                    lemma_find_has_id(self@, target@);
                }
                return r;
            }
            i += 1;
        }
        proof {
            lemma_kids_view(self.children@);
            lemma_find_in_skip(kids, target@, kids.len() as int);
        }
        None
    }

    /// Find the direct parent of the node with the given id, scanning each
    /// level's children before recursing; `None` when the id is absent or is
    /// this node's own id.
    pub fn find_parent_of<'a>(&'a self, target: &str) -> (r: Option<&'a TreeNode>)
        ensures
            match r {
                Some(p) => find_parent(self@, target@) == Some(p@),
                None => find_parent(self@, target@) is None,
            },
        decreases *self,
    {
        let ghost kids: Seq<TreeView> = self@.children;
        proof {
            lemma_kids_view(self.children@);
        }
        let mut i: usize = 0;
        while i < self.children.len()
            invariant
                i <= self.children@.len(),
                kids == kids_view(self.children@),
                kids.len() == self.children@.len(),
                kids == self@.children,
                forall|j: int|
                    0 <= j < i ==> #[trigger] kids[j].id != target@ && find_parent(kids[j], target@)
                        is None,
            decreases self.children@.len() - i,
        {
            proof {
                lemma_kids_view(self.children@);
            }
            let c = &self.children[i];
            if str_eq(c.id.as_str(), target) {
                proof {
                    lemma_parent_in_skip(self@, kids, target@, i as int);
                    assert(kids.subrange(i as int, kids.len() as int)[0] == kids[i as int]);
                }
                return Some(self);
            }
            let r = c.find_parent_of(target);
            if r.is_some() {
                proof {
                    lemma_parent_in_skip(self@, kids, target@, i as int);
                    assert(kids.subrange(i as int, kids.len() as int)[0] == kids[i as int]);
                }
                return r;
            }
            i += 1;
        }
        proof {
            lemma_parent_in_skip(self@, kids, target@, kids.len() as int);
        }
        None
    }

    /// The nodes from this node down to the node with the given id, both
    /// inclusive; empty when the id is absent.
    pub fn find_path_to<'a>(&'a self, target: &str) -> (r: Vec<&'a TreeNode>)
        ensures
            r@.len() == path_to(self@, target@).len(),
            forall|k: int| 0 <= k < r@.len() ==> (#[trigger] r@[k])@ == path_to(self@, target@)[k],
        decreases *self,
    {
        if str_eq(self.id.as_str(), target) {
            let mut r: Vec<&TreeNode> = Vec::new();
            r.push(self);
            return r;
        }
        let ghost kids: Seq<TreeView> = self@.children;
        proof {
            lemma_kids_view(self.children@);
        }
        let mut i: usize = 0;
        while i < self.children.len()
            invariant
                i <= self.children@.len(),
                kids == kids_view(self.children@),
                kids.len() == self.children@.len(),
                kids == self@.children,
                self@.id != target@,
                forall|j: int| 0 <= j < i ==> (#[trigger] path_to(kids[j], target@)).len() == 0,
            decreases self.children@.len() - i,
        {
            proof {
                lemma_kids_view(self.children@);
            }
            let mut path = self.children[i].find_path_to(target);
            if path.len() > 0 {
                path.insert(0, self);
                proof {
                    lemma_path_in_skip(kids, target@, i as int);
                    assert(kids.subrange(i as int, kids.len() as int)[0] == kids[i as int]);
                }
                return path;
            }
            i += 1;
        }
        proof {
            lemma_path_in_skip(kids, target@, kids.len() as int);
        }
        Vec::new()
    }

    /// Flatten the subtree into a depth-first, pre-order sequence of
    /// references: this node first, then each child's flattening in order.
    pub fn flatten<'a>(&'a self) -> (r: Vec<&'a TreeNode>)
        ensures
            r@.len() == flat(self@).len(),
            forall|k: int| 0 <= k < r@.len() ==> (#[trigger] r@[k])@ == flat(self@)[k],
        decreases *self,
    {
        let mut r: Vec<&TreeNode> = Vec::new();
        r.push(self);
        let ghost kids: Seq<TreeView> = self@.children;
        proof {
            lemma_kids_view(self.children@);
        }
        let mut i: usize = 0;
        while i < self.children.len()
            invariant
                i <= self.children@.len(),
                kids == kids_view(self.children@),
                kids.len() == self.children@.len(),
                kids == self@.children,
                r@.len() == 1 + flat_all(kids.subrange(0, i as int)).len(),
                forall|k: int|
                    0 <= k < r@.len() ==> (#[trigger] r@[k])@ == (seq![self@] + flat_all(
                        kids.subrange(0, i as int),
                    ))[k],
            decreases self.children@.len() - i,
        {
            proof {
                lemma_kids_view(self.children@);
            }
            let mut sub = self.children[i].flatten();
            r.append(&mut sub);
            proof {
                lemma_flat_all_snoc(kids, i as int);
            }
            i += 1;
        }
        proof {
            assert(kids.subrange(0, kids.len() as int) =~= kids);
        }
        r
    }

    /// The distance in edges from this node down to the first node found
    /// with the given id; this node itself has depth 0. `None` when absent.
    pub fn depth_of(&self, target: &str) -> (r: Option<usize>)
        requires
            count(self@) <= usize::MAX,
        ensures
            match r {
                Some(d) => depth(self@, target@) == Some(d as nat),
                None => depth(self@, target@) is None,
            },
        decreases *self,
    {
        if str_eq(self.id.as_str(), target) {
            return Some(0);
        }
        let ghost kids: Seq<TreeView> = self@.children;
        proof {
            lemma_kids_view(self.children@);
        }
        let mut i: usize = 0;
        while i < self.children.len()
            invariant
                i <= self.children@.len(),
                kids == kids_view(self.children@),
                kids.len() == self.children@.len(),
                kids == self@.children,
                self@.id != target@,
                count(self@) <= usize::MAX,
                forall|j: int| 0 <= j < i ==> (#[trigger] depth(kids[j], target@)) is None,
            decreases self.children@.len() - i,
        {
            proof {
                lemma_kids_view(self.children@);
                lemma_count_all_bound(kids, i as int);
            }
            let r = self.children[i].depth_of(target);
            if let Some(d) = r {
                proof {
                    lemma_depth_in_skip(kids, target@, i as int);
                    assert(kids.subrange(i as int, kids.len() as int)[0] == kids[i as int]);
                    lemma_depth_lt_count(kids[i as int], target@);
                }
                return Some(d + 1);
            }
            i += 1;
        }
        proof {
            lemma_depth_in_skip(kids, target@, kids.len() as int);
        }
        None
    }

    /// Count the leaf nodes of the subtree: 1 for a leaf, else the sum over
    /// the children.
    pub fn leaf_count(&self) -> (r: usize)
        requires
            count(self@) <= usize::MAX,
        ensures
            r == leaves(self@),
        decreases *self,
    {
        let ghost kids: Seq<TreeView> = self@.children;
        proof {
            lemma_kids_view(self.children@);
        }
        if self.children.len() == 0 {
            return 1;
        }
        let mut total: usize = 0;
        let mut i: usize = 0;
        while i < self.children.len()
            invariant
                i <= self.children@.len(),
                kids == kids_view(self.children@),
                kids.len() == self.children@.len(),
                kids == self@.children,
                0 < self.children@.len(),
                count(self@) <= usize::MAX,
                total == leaves_all(kids.subrange(0, i as int)),
                total <= count(self@),
            decreases self.children@.len() - i,
        {
            proof {
                lemma_kids_view(self.children@);
                lemma_count_all_bound(kids, i as int);
            }
            let c = self.children[i].leaf_count();
            proof {
                lemma_leaves_all_snoc(kids, i as int);
                lemma_leaves_all_concat(
                    kids.subrange(0, i as int + 1),
                    kids.subrange(i as int + 1, kids.len() as int),
                );
                assert(kids.subrange(0, i as int + 1) + kids.subrange(
                    i as int + 1,
                    kids.len() as int,
                ) =~= kids);
                lemma_leaves_all_bounds(kids);
                lemma_leaves_all_bounds(kids.subrange(i as int + 1, kids.len() as int));
            }
            total = total + c;
            i += 1;
        }
        proof {
            assert(kids.subrange(0, kids.len() as int) =~= kids);
        }
        total
    }

    /// Insertion that hands the child back when no node with the given id
    /// exists, so that the child is neither lost nor cloned: ownership is
    /// transferred only once the insertion actually happens.
    fn try_insert(&mut self, parent_id: &str, child: TreeNode) -> (back: Option<TreeNode>)
        ensures
            match back {
                None => contains_id(old(self)@, parent_id@) && final(self)@ == insert_node(
                    old(self)@,
                    parent_id@,
                    child@,
                ),
                Some(c) => !contains_id(old(self)@, parent_id@) && final(self)@ == old(self)@ && c
                    == child,
            },
        decreases *old(self),
    {
        if str_eq(self.id.as_str(), parent_id) {
            self.add_child(child);
            proof {
                assert(self@ =~= insert_node(old(self)@, parent_id@, child@));
            }
            return None;
        }
        let ghost kids: Seq<TreeView> = old(self)@.children;
        let ghost child0: TreeNode = child;
        proof {
            lemma_kids_view(self.children@);
        }
        let mut cur = child;
        let mut i: usize = 0;
        while i < self.children.len()
            invariant
                i <= self.children@.len(),
                self.id == old(self).id,
                self.label == old(self).label,
                self.parent_id == old(self).parent_id,
                self.children@.len() == old(self).children@.len(),
                kids == kids_view(old(self).children@),
                kids.len() == old(self).children@.len(),
                kids_view(self.children@) == kids,
                forall|k: int|
                    i <= k < self.children@.len() ==> self.children@[k] == old(self).children@[k],
                self.id@ != parent_id@,
                cur == child0,
                child0 == child,
                forall|j: int| 0 <= j < i ==> !(#[trigger] contains_id(kids[j], parent_id@)),
            decreases self.children@.len() - i,
        {
            let ghost cs: Seq<TreeNode> = self.children@;
            proof {
                lemma_kids_view(cs);
            }
            let back = self.children[i].try_insert(parent_id, cur);
            match back {
                None => {
                    proof {
                        let ef = self.children@[i as int];
                        lemma_kids_view_update(cs, i as int, ef);
                        assert(self.children@ =~= cs.update(i as int, ef));
                        assert(kids_view(self.children@) =~= kids.update(
                            i as int,
                            insert_node(kids[i as int], parent_id@, child0@),
                        ));
                        lemma_insert_in_at(kids, parent_id@, child0@, i as int);
                        assert(self@ =~= insert_node(old(self)@, parent_id@, child0@));
                        assert forall|j: int| 0 <= j < i implies find_node(kids[j], parent_id@)
                            is None by {
                            assert(!contains_id(kids[j], parent_id@));
                        }
                        lemma_find_in_skip(kids, parent_id@, i as int);
                        assert(kids.subrange(i as int, kids.len() as int)[0] == kids[i as int]);
                        assert(find_in(kids.subrange(i as int, kids.len() as int), parent_id@)
                            is Some);
                        assert(contains_id(old(self)@, parent_id@));
                    }
                    return None;
                },
                Some(b) => {
                    proof {
                        let ef = self.children@[i as int];
                        lemma_kids_view_update(cs, i as int, ef);
                        assert(self.children@ =~= cs.update(i as int, ef));
                        assert(kids_view(self.children@) =~= kids);
                    }
                    cur = b;
                },
            }
            i += 1;
        }
        proof {
            assert forall|j: int| 0 <= j < kids.len() implies find_node(kids[j], parent_id@)
                is None by {
                assert(!contains_id(kids[j], parent_id@));
            }
            lemma_find_in_skip(kids, parent_id@, kids.len() as int);
            assert(self@ =~= old(self)@);
        }
        Some(cur)
    }

    /// Find the node whose id equals `parent_id` anywhere in the subtree,
    /// pre-order, and append `child` to it, stamping the child's
    /// `parent_id`. Returns whether such a node was found; when none is, the
    /// tree is unchanged.
    pub fn add_child_to(&mut self, parent_id: &str, child: TreeNode) -> (r: bool)
        ensures
            r == contains_id(old(self)@, parent_id@),
            r ==> final(self)@ == insert_node(old(self)@, parent_id@, child@),
            !r ==> final(self)@ == old(self)@,
    {
        match self.try_insert(parent_id, child) {
            None => true,
            Some(_) => false,
        }
    }

    /// Remove the subtree rooted at the first node found whose id equals
    /// `target_id`, searching each level's direct children before recursing,
    /// and return it. `None`, with the tree unchanged, when no node below
    /// this one carries the id: the id can never refer to this node itself,
    /// only to something strictly below it.
    pub fn remove_node(&mut self, target_id: &str) -> (r: Option<TreeNode>)
        ensures
            match remove_tree(old(self)@, target_id@) {
                Some(pair) => r is Some && r.unwrap()@ == pair.1 && final(self)@ == pair.0,
                None => r is None && final(self)@ == old(self)@,
            },
        decreases *old(self),
    {
        let ghost kids: Seq<TreeView> = old(self)@.children;
        proof {
            lemma_kids_view(self.children@);
        }
        let mut i: usize = 0;
        while i < self.children.len()
            invariant
                i <= self.children@.len(),
                self.id == old(self).id,
                self.label == old(self).label,
                self.parent_id == old(self).parent_id,
                self.children@ == old(self).children@,
                kids == kids_view(self.children@),
                kids.len() == self.children@.len(),
                forall|j: int| 0 <= j < i ==> (#[trigger] kids[j].id) != target_id@,
            decreases self.children@.len() - i,
        {
            proof {
                lemma_kids_view(self.children@);
            }
            if str_eq(self.children[i].id.as_str(), target_id) {
                let removed = self.children.remove(i);
                proof {
                    lemma_first_direct_at(kids, target_id@, i as int);
                    lemma_kids_view_remove(old(self).children@, i as int);
                    assert(self@ =~= remove_tree(old(self)@, target_id@).unwrap().0);
                }
                return Some(removed);
            }
            i += 1;
        }
        proof {
            lemma_first_direct_none(kids, target_id@);
        }
        let mut j: usize = 0;
        while j < self.children.len()
            invariant
                j <= self.children@.len(),
                self.id == old(self).id,
                self.label == old(self).label,
                self.parent_id == old(self).parent_id,
                self.children@.len() == old(self).children@.len(),
                kids == kids_view(old(self).children@),
                kids.len() == old(self).children@.len(),
                kids_view(self.children@) == kids,
                forall|k: int|
                    j <= k < self.children@.len() ==> self.children@[k] == old(self).children@[k],
                forall|k: int| 0 <= k < kids.len() ==> (#[trigger] kids[k].id) != target_id@,
                forall|k: int| 0 <= k < j ==> (#[trigger] remove_tree(kids[k], target_id@)) is None,
            decreases self.children@.len() - j,
        {
            let ghost cs: Seq<TreeNode> = self.children@;
            proof {
                lemma_kids_view(cs);
            }
            let r = self.children[j].remove_node(target_id);
            if r.is_some() {
                proof {
                    let ef = self.children@[j as int];
                    lemma_kids_view_update(cs, j as int, ef);
                    assert(self.children@ =~= cs.update(j as int, ef));
                    lemma_remove_deep_at(kids, target_id@, j as int);
                    assert(kids_view(self.children@) =~= kids.update(
                        j as int,
                        remove_tree(kids[j as int], target_id@).unwrap().0,
                    ));
                    lemma_first_direct_none(kids, target_id@);
                    assert(self@ =~= remove_tree(old(self)@, target_id@).unwrap().0);
                }
                return r;
            }
            proof {
                let ef = self.children@[j as int];
                lemma_kids_view_update(cs, j as int, ef);
                assert(self.children@ =~= cs.update(j as int, ef));
                assert(kids_view(self.children@) =~= kids);
            }
            j += 1;
        }
        proof {
            lemma_remove_deep_none(kids, target_id@);
            assert(self@ =~= old(self)@);
        }
        None
    }

    /// Remove all children, turning this node into a leaf, and return them.
    /// A second call in a row returns an empty sequence.
    pub fn empty_node(&mut self) -> (r: Vec<TreeNode>)
        ensures
            r@ == old(self).children@,
            kids_view(r@) == old(self)@.children,
            final(self)@ == (TreeView { children: Seq::empty(), ..old(self)@ }),
    {
        let mut out: Vec<TreeNode> = Vec::new();
        std::mem::swap(&mut out, &mut self.children);
        proof {
            assert(self@ =~= (TreeView { children: Seq::empty(), ..old(self)@ }));
        }
        out
    }

    /// Relocate the subtree rooted at `node_id` to become a child of the
    /// node with id `new_parent_id`. The operation fails on a self-move, on
    /// a move that would create a cycle (the new parent lies inside the
    /// moved subtree), when no node below this one carries `node_id`, and
    /// when no node with `new_parent_id` remains once the subtree is
    /// detached. A failed move always leaves the tree unchanged: in the last
    /// case the detached subtree is put back rather than dropped.
    pub fn move_node(&mut self, node_id: &str, new_parent_id: &str) -> (r: bool)
        ensures
            !r ==> final(self)@ == old(self)@,
            r == ({
                let t = old(self)@;
                &&& node_id@ != new_parent_id@
                &&& (match find_node(t, node_id@) {
                    Some(n) => !contains_id(n, new_parent_id@),
                    None => false,
                })
                &&& remove_tree(t, node_id@) is Some
                &&& contains_id(remove_tree(t, node_id@).unwrap().0, new_parent_id@)
            }),
            r ==> final(self)@ == insert_node(
                remove_tree(old(self)@, node_id@).unwrap().0,
                new_parent_id@,
                remove_tree(old(self)@, node_id@).unwrap().1,
            ),
    {
        if str_eq(node_id, new_parent_id) {
            return false;
        }
        let found = match self.find_by_id(node_id) {
            Some(n) => n.find_by_id(new_parent_id).is_none(),
            None => false,
        };
        if !found {
            return false;
        }
        let snapshot = self.clone();
        match self.remove_node(node_id) {
            None => false,
            Some(sub) => match self.try_insert(new_parent_id, sub) {
                None => true,
                Some(_) => {
                    *self = snapshot;
                    false
                },
            },
        }
    }

    /// Whether this node has no children.
    pub fn is_leaf(&self) -> (r: bool)
        ensures
            r == (self@.children.len() == 0),
    {
        proof {
            lemma_kids_view(self.children@);
        }
        self.children.len() == 0
    }
}

impl Clone for TreeNode {
    /// Deep copy of the subtree; the copy has the same view as the original.
    fn clone(&self) -> (r: Self)
        ensures
            r@ == self@,
        decreases *self,
    {
        let mut kids: Vec<TreeNode> = Vec::new();
        proof {
            assert(kids_view(kids@) =~= kids_view(self.children@).subrange(0, 0));
        }
        let mut i: usize = 0;
        while i < self.children.len()
            invariant
                i <= self.children@.len(),
                kids@.len() == i,
                kids_view(kids@) == kids_view(self.children@).subrange(0, i as int),
            decreases self.children@.len() - i,
        {
            proof {
                lemma_kids_view(self.children@);
            }
            let c = self.children[i].clone();
            proof {
                lemma_kids_view_push(kids@, c);
            }
            kids.push(c);
            proof {
                assert(kids_view(kids@) =~= kids_view(self.children@).subrange(0, i as int + 1));
            }
            i += 1;
        }
        let pid = match &self.parent_id {
            Some(p) => Some(p.clone()),
            None => None,
        };
        let r = TreeNode {
            id: self.id.clone(),
            label: self.label.clone(),
            parent_id: pid,
            children: kids,
        };
        proof {
            assert(kids_view(r.children@) =~= kids_view(self.children@)) by {
                assert(kids_view(self.children@).subrange(
                    0,
                    kids_view(self.children@).len() as int,
                ) =~= kids_view(self.children@));
                lemma_kids_view(self.children@);
            }
            assert(r@ =~= self@);
        }
        r
    }
}

} // verus!

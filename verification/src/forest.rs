//! The mathematical model of an outline: a map from vertices to their parent,
//! their ordered children and the node they carry, with the operations that
//! rearrange it and the facts that keep it a tree.

use vstd::prelude::*;
use generational_indextree::NodeId;

verus! {

/// One item of the outline.
#[derive(Debug, PartialEq, Eq)]
pub struct Node {
    /// A stable identity of the item, independent of where it stands in the tree.
    pub id: u128,
    /// The item's text.
    pub content: String,
    /// Whether the item's children are hidden.
    pub folded: bool,
}

/// What the tree holds at a vertex: its parent, its children in order, and its node.
pub type Entry = (Option<NodeId>, Seq<NodeId>, Node);

/// A tree of vertices, as a map from each live vertex to its entry.
pub type Tree = Map<NodeId, Entry>;

pub open spec fn parent_of(t: Tree, n: NodeId) -> Option<NodeId> {
    t[n].0
}

pub open spec fn children_of(t: Tree, n: NodeId) -> Seq<NodeId> {
    t[n].1
}

pub open spec fn data_of(t: Tree, n: NodeId) -> Node {
    t[n].2
}

// ------ Shape ------

/// The links agree with each other: every child of a vertex is a live vertex
/// whose parent is that vertex, every vertex with a parent is listed among its
/// parent's children, no list holds a vertex twice, and no vertex is its own parent.
pub open spec fn shape_ok(t: Tree) -> bool {
    &&& t.dom().finite()
    &&& forall|n: NodeId| #[trigger] t.dom().contains(n) ==> parent_of(t, n) != Some(n)
    &&& forall|n: NodeId| #[trigger] t.dom().contains(n) ==> children_of(t, n).no_duplicates()
    &&& forall|n: NodeId, i: int|
        t.dom().contains(n) && 0 <= i < children_of(t, n).len() ==> {
            &&& t.dom().contains(#[trigger] children_of(t, n)[i])
            &&& parent_of(t, children_of(t, n)[i]) == Some(n)
        }
    &&& forall|n: NodeId| #[trigger] t.dom().contains(n) && parent_of(t, n) is Some ==> {
            &&& t.dom().contains(parent_of(t, n)->0)
            &&& children_of(t, parent_of(t, n)->0).contains(n)
        }
}

/// Following parent links from `n` for `k` steps ends at `a`.
pub open spec fn reaches(t: Tree, n: NodeId, a: NodeId, k: nat) -> bool
    decreases k,
{
    if k == 0 {
        n == a
    } else {
        t.dom().contains(n) && parent_of(t, n) is Some && reaches(t, parent_of(t, n)->0, a, (k - 1) as nat)
    }
}

/// `root` is a live vertex without parent, and every live vertex reaches it by
/// parent links: the vertices form one tree, without cycles.
pub open spec fn rooted(t: Tree, root: NodeId) -> bool {
    &&& t.dom().contains(root)
    &&& parent_of(t, root) is None
    &&& forall|n: NodeId| #[trigger] t.dom().contains(n) ==> exists|k: nat| reaches(t, n, root, k)
}

/// The outline's tree: consistent links, all under `root`.
pub open spec fn tree_ok(t: Tree, root: NodeId) -> bool {
    shape_ok(t) && rooted(t, root)
}

// ------ Neighbours ------

/// The position of `v` among its parent's children.
pub open spec fn position(t: Tree, v: NodeId) -> int {
    children_of(t, parent_of(t, v)->0).index_of(v)
}

pub open spec fn prev_sibling_of(t: Tree, v: NodeId) -> Option<NodeId> {
    match parent_of(t, v) {
        Some(p) => if position(t, v) > 0 {
            Some(children_of(t, p)[position(t, v) - 1])
        } else {
            None
        },
        None => None,
    }
}

pub open spec fn next_sibling_of(t: Tree, v: NodeId) -> Option<NodeId> {
    match parent_of(t, v) {
        Some(p) => if position(t, v) + 1 < children_of(t, p).len() {
            Some(children_of(t, p)[position(t, v) + 1])
        } else {
            None
        },
        None => None,
    }
}

/// The siblings after `v`, in order.
pub open spec fn following_siblings_of(t: Tree, v: NodeId) -> Seq<NodeId> {
    match parent_of(t, v) {
        Some(p) => children_of(t, p).skip(position(t, v) + 1),
        None => Seq::empty(),
    }
}

pub open spec fn first_child_of(t: Tree, v: NodeId) -> Option<NodeId> {
    if children_of(t, v).len() > 0 {
        Some(children_of(t, v)[0])
    } else {
        None
    }
}

/// `d` is reached from `n` by taking the last child `k` times, and has no child:
/// the last vertex of `n`'s subtree in document order.
pub open spec fn last_leaf(t: Tree, n: NodeId, d: NodeId, k: nat) -> bool
    decreases k,
{
    if k == 0 {
        n == d && children_of(t, n).len() == 0
    } else {
        children_of(t, n).len() > 0 && last_leaf(t, children_of(t, n).last(), d, (k - 1) as nat)
    }
}

// ------ Edits ------

/// `c` taken out of its parent's children, left without parent.
pub open spec fn detached(t: Tree, c: NodeId) -> Tree {
    match parent_of(t, c) {
        Some(p) => {
            let cs = children_of(t, p);
            t.insert(p, (parent_of(t, p), cs.remove(cs.index_of(c)), data_of(t, p))).insert(
                c,
                (None, children_of(t, c), data_of(t, c)),
            )
        },
        None => t,
    }
}

/// `c` taken out of its place and put among `q`'s children at index `at` of the
/// list that remains once `c` is out.
pub open spec fn moved(t: Tree, c: NodeId, q: NodeId, at: int) -> Tree {
    let d = detached(t, c);
    d.insert(q, (parent_of(d, q), children_of(d, q).insert(at, c), data_of(d, q))).insert(
        c,
        (Some(q), children_of(d, c), data_of(d, c)),
    )
}

/// `c` made the last child of `p`.
pub open spec fn appended(t: Tree, p: NodeId, c: NodeId) -> Tree {
    moved(t, c, p, children_of(detached(t, c), p).len() as int)
}

/// `c` made the first child of `p`.
pub open spec fn prepended(t: Tree, p: NodeId, c: NodeId) -> Tree {
    moved(t, c, p, 0)
}

/// `s` made the sibling that follows `a`.
pub open spec fn inserted_after(t: Tree, a: NodeId, s: NodeId) -> Tree {
    let q = parent_of(t, a)->0;
    moved(t, s, q, children_of(detached(t, s), q).index_of(a) + 1)
}

/// `s` made the sibling that precedes `a`.
pub open spec fn inserted_before(t: Tree, a: NodeId, s: NodeId) -> Tree {
    let q = parent_of(t, a)->0;
    moved(t, s, q, children_of(detached(t, s), q).index_of(a))
}

/// `v` removed; its children take its place among its parent's children.
pub open spec fn removed(t: Tree, v: NodeId) -> Tree {
    let p = parent_of(t, v)->0;
    let cs = children_of(t, p);
    let i = cs.index_of(v);
    let kids = children_of(t, v);
    Map::new(
        |n: NodeId| t.dom().contains(n) && n != v,
        |n: NodeId|
            if n == p {
                (parent_of(t, p), cs.take(i) + kids + cs.skip(i + 1), data_of(t, p))
            } else if kids.contains(n) {
                (Some(p), children_of(t, n), data_of(t, n))
            } else {
                t[n]
            },
    )
}

/// A new vertex `n` with `data`, without parent or children.
pub open spec fn with_new(t: Tree, n: NodeId, data: Node) -> Tree {
    t.insert(n, (None, Seq::empty(), data))
}

/// The node at `v` replaced by `data`.
pub open spec fn with_data(t: Tree, v: NodeId, data: Node) -> Tree {
    t.insert(v, (parent_of(t, v), children_of(t, v), data))
}

} // verus!

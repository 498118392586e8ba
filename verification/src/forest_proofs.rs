//! Proofs that the edits of `forest` keep an outline a tree.

use vstd::prelude::*;
use generational_indextree::NodeId;
use crate::forest::{
    Node, Tree, children_of, data_of, detached, moved, parent_of, removed, shape_ok, with_data,
    with_new, reaches, rooted, tree_ok, last_leaf, prev_sibling_of, next_sibling_of,
    following_siblings_of,
};
use crate::seq_facts::{lemma_insert_absent, lemma_remove_present};

verus! {

/// What detaching `c` leaves: the same vertices and nodes, `c` without parent,
/// and `c` out of its former parent's list.
pub proof fn lemma_detached(t: Tree, c: NodeId)
    requires
        shape_ok(t),
        t.dom().contains(c),
    ensures
        shape_ok(detached(t, c)),
        detached(t, c).dom() == t.dom(),
        parent_of(detached(t, c), c) is None,
        children_of(detached(t, c), c) == children_of(t, c),
        forall|n: NodeId| #[trigger] detached(t, c).dom().contains(n) ==> data_of(detached(t, c), n) == data_of(t, n),
        forall|n: NodeId| #[trigger] detached(t, c).dom().contains(n) && n != c ==> parent_of(detached(t, c), n) == parent_of(t, n),
        forall|n: NodeId| #[trigger] detached(t, c).dom().contains(n) && Some(n) != parent_of(t, c) ==> children_of(detached(t, c), n) == children_of(t, n),
        forall|n: NodeId, x: NodeId| #[trigger] detached(t, c).dom().contains(n) && #[trigger] children_of(detached(t, c), n).contains(x) ==> children_of(t, n).contains(x) && x != c,
        forall|n: NodeId, x: NodeId| #[trigger] t.dom().contains(n) && #[trigger] children_of(t, n).contains(x) && x != c ==> children_of(detached(t, c), n).contains(x),
        parent_of(t, c) is Some ==> children_of(detached(t, c), parent_of(t, c)->0)
            == children_of(t, parent_of(t, c)->0).remove(children_of(t, parent_of(t, c)->0).index_of(c)),
{
    let d = detached(t, c);
    match parent_of(t, c) {
        Some(p) => {
            let cs = children_of(t, p);
            assert(t.dom().contains(p) && cs.contains(c));
            lemma_remove_present(cs, c);
            assert(d.dom() =~= t.dom());
            assert forall|n: NodeId| #[trigger] d.dom().contains(n) implies parent_of(d, n) != Some(n) by {
                if n != c {
                    assert(parent_of(d, n) == parent_of(t, n));
                }
            }
            assert forall|n: NodeId| #[trigger] d.dom().contains(n) implies children_of(d, n).no_duplicates() by {
                if n == p {
                } else if n == c {
                } else {
                }
            }
            assert forall|n: NodeId, i: int| d.dom().contains(n) && 0 <= i < children_of(d, n).len() implies {
                &&& d.dom().contains(#[trigger] children_of(d, n)[i])
                &&& parent_of(d, children_of(d, n)[i]) == Some(n)
            } by {
                let x = children_of(d, n)[i];
                if n == p {
                    assert(children_of(d, n).contains(x));
                    let j = choose|j: int| 0 <= j < cs.len() && cs[j] == x;
                    assert(t.dom().contains(cs[j]));
                } else {
                    assert(children_of(d, n) == children_of(t, n));
                    assert(t.dom().contains(children_of(t, n)[i]));
                    if x == c {
                        assert(parent_of(t, c) == Some(n));
                    }
                }
            }
            assert forall|n: NodeId| #[trigger] d.dom().contains(n) && parent_of(d, n) is Some implies {
                &&& d.dom().contains(parent_of(d, n)->0)
                &&& children_of(d, parent_of(d, n)->0).contains(n)
            } by {
                assert(n != c);
                assert(parent_of(d, n) == parent_of(t, n));
                assert(t.dom().contains(n));
                let q = parent_of(t, n)->0;
                assert(children_of(t, q).contains(n));
            }
            assert forall|n: NodeId, x: NodeId| #[trigger] t.dom().contains(n) && #[trigger] children_of(t, n).contains(x) && x != c
                implies children_of(d, n).contains(x) by {
                if n != p {
                    assert(children_of(d, n) == children_of(t, n));
                }
            }
            assert forall|n: NodeId, x: NodeId| #[trigger] d.dom().contains(n) && #[trigger] children_of(d, n).contains(x)
                implies children_of(t, n).contains(x) && x != c by {
                if n != p {
                    assert(children_of(d, n) == children_of(t, n));
                    if x == c {
                        let j = choose|j: int| 0 <= j < children_of(t, n).len() && children_of(t, n)[j] == x;
                        assert(t.dom().contains(children_of(t, n)[j]));
                    }
                }
            }
        },
        None => {
            assert forall|n: NodeId, x: NodeId| #[trigger] d.dom().contains(n) && #[trigger] children_of(d, n).contains(x)
                implies children_of(t, n).contains(x) && x != c by {
                if x == c {
                    let j = choose|j: int| 0 <= j < children_of(t, n).len() && children_of(t, n)[j] == x;
                    assert(t.dom().contains(children_of(t, n)[j]));
                }
            }
        },
    }
}

/// What moving `c` under `q` at index `at` leaves: the same vertices and nodes,
/// the same parents but `c`'s, which is `q`, and `c` in `q`'s list.
pub proof fn lemma_moved(t: Tree, c: NodeId, q: NodeId, at: int)
    requires
        shape_ok(t),
        t.dom().contains(c),
        t.dom().contains(q),
        c != q,
        0 <= at <= children_of(detached(t, c), q).len(),
    ensures
        shape_ok(moved(t, c, q, at)),
        moved(t, c, q, at).dom() == t.dom(),
        parent_of(moved(t, c, q, at), c) == Some(q),
        children_of(moved(t, c, q, at), c) == children_of(t, c),
        children_of(moved(t, c, q, at), q) == children_of(detached(t, c), q).insert(at, c),
        forall|n: NodeId| #[trigger] moved(t, c, q, at).dom().contains(n) ==> data_of(moved(t, c, q, at), n) == data_of(t, n),
        forall|n: NodeId| #[trigger] moved(t, c, q, at).dom().contains(n) && n != c ==> parent_of(moved(t, c, q, at), n) == parent_of(t, n),
        forall|n: NodeId| #[trigger] moved(t, c, q, at).dom().contains(n) && n != q && Some(n) != parent_of(t, c) ==> children_of(moved(t, c, q, at), n) == children_of(t, n),
        forall|n: NodeId| #[trigger] moved(t, c, q, at).dom().contains(n) && n != q && n != c ==> children_of(moved(t, c, q, at), n) == children_of(detached(t, c), n),
{
    lemma_detached(t, c);
    let d = detached(t, c);
    let m = moved(t, c, q, at);
    let dq = children_of(d, q);
    assert(!dq.contains(c)) by {
        if dq.contains(c) {
            let j = choose|j: int| 0 <= j < dq.len() && dq[j] == c;
            assert(parent_of(d, dq[j]) == Some(q));
        }
    }
    lemma_insert_absent(dq, at, c);
    assert(m.dom() =~= t.dom());
    assert forall|n: NodeId| #[trigger] m.dom().contains(n) implies parent_of(m, n) != Some(n) by {
        if n != c {
            assert(parent_of(m, n) == parent_of(d, n));
        }
    }
    assert forall|n: NodeId| #[trigger] m.dom().contains(n) implies children_of(m, n).no_duplicates() by {
        if n == q {
        } else if n == c {
        } else {
            assert(children_of(m, n) == children_of(d, n));
        }
    }
    assert forall|n: NodeId, i: int| m.dom().contains(n) && 0 <= i < children_of(m, n).len() implies {
        &&& m.dom().contains(#[trigger] children_of(m, n)[i])
        &&& parent_of(m, children_of(m, n)[i]) == Some(n)
    } by {
        let x = children_of(m, n)[i];
        assert(children_of(m, n).contains(x));
        if n == q {
            if x != c {
                assert(dq.contains(x));
                let j = choose|j: int| 0 <= j < dq.len() && dq[j] == x;
                assert(d.dom().contains(dq[j]));
                assert(parent_of(d, dq[j]) == Some(q));
            }
        } else {
            assert(children_of(m, n) == children_of(d, n));
            assert(d.dom().contains(children_of(d, n)[i]));
            assert(parent_of(d, children_of(d, n)[i]) == Some(n));
            if x == c {
                assert(parent_of(d, c) is None);
            }
        }
    }
    assert forall|n: NodeId| #[trigger] m.dom().contains(n) && parent_of(m, n) is Some implies {
        &&& m.dom().contains(parent_of(m, n)->0)
        &&& children_of(m, parent_of(m, n)->0).contains(n)
    } by {
        if n == c {
            assert(children_of(m, q)[at] == c);
        } else {
            assert(parent_of(m, n) == parent_of(d, n));
            assert(d.dom().contains(n));
            let p = parent_of(d, n)->0;
            assert(children_of(d, p).contains(n));
            if p == q {
                let j = choose|j: int| 0 <= j < dq.len() && dq[j] == n;
                assert(children_of(m, q).contains(n));
            } else if p == c {
                assert(children_of(m, c) == children_of(d, c));
            } else {
                assert(children_of(m, p) == children_of(d, p));
            }
        }
    }
    assert forall|n: NodeId| #[trigger] m.dom().contains(n) && n != q && Some(n) != parent_of(t, c)
        implies children_of(m, n) == children_of(t, n) by {
        if n != c {
            assert(children_of(m, n) == children_of(d, n));
        }
    }
}

// ------ Paths to the root ------

/// Two paths joined end to end.
pub proof fn lemma_reaches_compose(t: Tree, x: NodeId, y: NodeId, r: NodeId, j: nat, k: nat)
    requires
        reaches(t, x, y, j),
        reaches(t, y, r, k),
    ensures
        reaches(t, x, r, j + k),
    decreases j,
{
    if j > 0 {
        lemma_reaches_compose(t, parent_of(t, x)->0, y, r, (j - 1) as nat, k);
    }
}

/// Parent links are a function, so a path to a vertex without parent has one length.
pub proof fn lemma_reaches_unique(t: Tree, n: NodeId, r: NodeId, k1: nat, k2: nat)
    requires
        reaches(t, n, r, k1),
        reaches(t, n, r, k2),
        parent_of(t, r) is None,
    ensures
        k1 == k2,
    decreases k1,
{
    if k1 > 0 && k2 > 0 {
        lemma_reaches_unique(t, parent_of(t, n)->0, r, (k1 - 1) as nat, (k2 - 1) as nat);
    }
}

/// A vertex no deeper than `x`, and other than `x`, is not below `x`.
pub proof fn lemma_not_below(t: Tree, root: NodeId, x: NodeId, y: NodeId, kx: nat, ky: nat)
    requires
        parent_of(t, root) is None,
        reaches(t, x, root, kx),
        reaches(t, y, root, ky),
        ky <= kx,
        x != y,
    ensures
        forall|j: nat| !#[trigger] reaches(t, y, x, j),
{
    assert forall|j: nat| !#[trigger] reaches(t, y, x, j) by {
        if reaches(t, y, x, j) {
            lemma_reaches_compose(t, y, x, root, j, kx);
            lemma_reaches_unique(t, y, root, ky, j + kx);
        }
    }
}

/// A path that does not pass through `c` survives a change of `c`'s parent.
pub proof fn lemma_path_avoiding(t: Tree, t2: Tree, c: NodeId, x: NodeId, root: NodeId, k: nat)
    requires
        reaches(t, x, root, k),
        forall|j: nat| !#[trigger] reaches(t, x, c, j),
        t2.dom() == t.dom(),
        forall|n: NodeId| #[trigger] t.dom().contains(n) && n != c ==> parent_of(t2, n) == parent_of(t, n),
    ensures
        reaches(t2, x, root, k),
    decreases k,
{
    assert(reaches(t, x, c, 0) == (x == c));
    if k > 0 {
        let p = parent_of(t, x)->0;
        assert forall|j: nat| !#[trigger] reaches(t, p, c, j) by {
            assert(reaches(t, x, c, j + 1) == reaches(t, p, c, j));
        }
        lemma_path_avoiding(t, t2, c, p, root, (k - 1) as nat);
    }
}

proof fn lemma_reaches_after_reparent(t: Tree, t2: Tree, c: NodeId, q: NodeId, root: NodeId, n: NodeId, k: nat, kq: nat)
    requires
        reaches(t, n, root, k),
        reaches(t2, q, root, kq),
        t2.dom() == t.dom(),
        t.dom().contains(c),
        forall|m: NodeId| #[trigger] t.dom().contains(m) && m != c ==> parent_of(t2, m) == parent_of(t, m),
        parent_of(t2, c) == Some(q),
    ensures
        exists|k2: nat| reaches(t2, n, root, k2),
    decreases k,
{
    if n == c {
        assert(reaches(t2, n, root, kq + 1));
    } else if k == 0 {
        assert(reaches(t2, n, root, 0));
    } else {
        let p = parent_of(t, n)->0;
        lemma_reaches_after_reparent(t, t2, c, q, root, p, (k - 1) as nat, kq);
        let k2 = choose|k2: nat| reaches(t2, p, root, k2);
        assert(reaches(t2, n, root, k2 + 1));
    }
}

/// Giving `c` the parent `q` keeps every vertex under the root, provided `q`
/// is not below `c`. Before the change `c` itself need not reach the root.
pub proof fn lemma_reparent_rooted(t: Tree, t2: Tree, root: NodeId, c: NodeId, q: NodeId)
    requires
        t.dom().contains(root),
        parent_of(t, root) is None,
        t.dom().contains(c),
        t.dom().contains(q),
        c != root,
        forall|n: NodeId| #[trigger] t.dom().contains(n) && n != c ==> exists|k: nat| reaches(t, n, root, k),
        forall|j: nat| !#[trigger] reaches(t, q, c, j),
        t2.dom() == t.dom(),
        forall|n: NodeId| #[trigger] t.dom().contains(n) && n != c ==> parent_of(t2, n) == parent_of(t, n),
        parent_of(t2, c) == Some(q),
    ensures
        rooted(t2, root),
{
    assert(reaches(t, q, c, 0) == (q == c));
    assert(t.dom().contains(q) && q != c);
    let kq = choose|k: nat| reaches(t, q, root, k);
    lemma_path_avoiding(t, t2, c, q, root, kq);
    assert forall|n: NodeId| #[trigger] t2.dom().contains(n) implies exists|k: nat| reaches(t2, n, root, k) by {
        if n == c {
            assert(reaches(t2, n, root, kq + 1));
        } else {
            let k = choose|k: nat| reaches(t, n, root, k);
            lemma_reaches_after_reparent(t, t2, c, q, root, n, k, kq);
        }
    }
}

/// A vertex with a parent, in a rooted tree, is one step deeper than its parent.
pub proof fn lemma_depth_step(t: Tree, root: NodeId, n: NodeId) -> (kp: nat)
    requires
        shape_ok(t),
        rooted(t, root),
        t.dom().contains(n),
        parent_of(t, n) is Some,
    ensures
        reaches(t, parent_of(t, n)->0, root, kp),
        reaches(t, n, root, kp + 1),
{
    let k = choose|k: nat| reaches(t, n, root, k);
    assert(k > 0);
    (k - 1) as nat
}

/// Moving `c` under a vertex `q` that is not below it keeps the tree.
pub proof fn lemma_moved_tree(t: Tree, root: NodeId, c: NodeId, q: NodeId, at: int)
    requires
        tree_ok(t, root),
        t.dom().contains(c),
        t.dom().contains(q),
        c != q,
        c != root,
        forall|j: nat| !#[trigger] reaches(t, q, c, j),
        0 <= at <= children_of(detached(t, c), q).len(),
    ensures
        tree_ok(moved(t, c, q, at), root),
{
    lemma_moved(t, c, q, at);
    lemma_reparent_rooted(t, moved(t, c, q, at), root, c, q);
}

/// Two different children of one parent are not below each other.
pub proof fn lemma_siblings_apart(t: Tree, root: NodeId, x: NodeId, y: NodeId)
    requires
        tree_ok(t, root),
        t.dom().contains(x),
        t.dom().contains(y),
        parent_of(t, x) is Some,
        parent_of(t, x) == parent_of(t, y),
        x != y,
    ensures
        forall|j: nat| !#[trigger] reaches(t, y, x, j),
{
    let kp = lemma_depth_step(t, root, x);
    let kp2 = lemma_depth_step(t, root, y);
    lemma_reaches_unique(t, parent_of(t, x)->0, root, kp, kp2);
    lemma_not_below(t, root, x, y, kp + 1, kp + 1);
}

/// A sibling of `v`'s parent is not below `v`.
pub proof fn lemma_uncle_apart(t: Tree, root: NodeId, v: NodeId, u: NodeId)
    requires
        tree_ok(t, root),
        t.dom().contains(v),
        t.dom().contains(u),
        parent_of(t, v) is Some,
        parent_of(t, u) is Some,
        parent_of(t, u) == parent_of(t, parent_of(t, v)->0),
    ensures
        forall|j: nat| !#[trigger] reaches(t, u, v, j),
{
    let pv = parent_of(t, v)->0;
    let kp = lemma_depth_step(t, root, v);
    let kg = lemma_depth_step(t, root, pv);
    let ku = lemma_depth_step(t, root, u);
    lemma_reaches_unique(t, pv, root, kp, kg + 1);
    lemma_reaches_unique(t, parent_of(t, u)->0, root, ku, kg);
    lemma_not_below(t, root, v, u, kp + 1, ku + 1);
}

/// The parent of `v`'s parent is not below `v`.
pub proof fn lemma_grandparent_apart(t: Tree, root: NodeId, v: NodeId)
    requires
        tree_ok(t, root),
        t.dom().contains(v),
        parent_of(t, v) is Some,
        parent_of(t, parent_of(t, v)->0) is Some,
    ensures
        forall|j: nat| !#[trigger] reaches(t, parent_of(t, parent_of(t, v)->0)->0, v, j),
{
    let pv = parent_of(t, v)->0;
    let g = parent_of(t, pv)->0;
    let kp = lemma_depth_step(t, root, v);
    let kg = lemma_depth_step(t, root, pv);
    lemma_reaches_unique(t, pv, root, kp, kg + 1);
    if v == g {
        lemma_reaches_unique(t, v, root, kp + 1, kg);
    }
    lemma_not_below(t, root, v, g, kp + 1, kg);
}

/// A path survives adding vertices and keeping the old entries' parents.
pub proof fn lemma_reaches_grow(t: Tree, t2: Tree, x: NodeId, r: NodeId, k: nat)
    requires
        reaches(t, x, r, k),
        forall|n: NodeId| #[trigger] t.dom().contains(n) ==> t2.dom().contains(n) && parent_of(t2, n) == parent_of(t, n),
    ensures
        reaches(t2, x, r, k),
    decreases k,
{
    if k > 0 {
        lemma_reaches_grow(t, t2, parent_of(t, x)->0, r, (k - 1) as nat);
    }
}

/// Nothing but `n` itself reaches a vertex that is nobody's parent.
pub proof fn lemma_no_path_to_childless(t: Tree, q: NodeId, n: NodeId, j: nat)
    requires
        forall|y: NodeId| #[trigger] t.dom().contains(y) ==> parent_of(t, y) != Some(n),
        q != n,
    ensures
        !reaches(t, q, n, j),
    decreases j,
{
    if j > 0 && t.dom().contains(q) && parent_of(t, q) is Some {
        lemma_no_path_to_childless(t, parent_of(t, q)->0, n, (j - 1) as nat);
    }
}

/// A new vertex without parent or children keeps the links consistent, and
/// every old vertex still reaches the root.
pub proof fn lemma_with_new(t: Tree, root: NodeId, n: NodeId, data: Node)
    requires
        tree_ok(t, root),
        !t.dom().contains(n),
    ensures
        shape_ok(with_new(t, n, data)),
        with_new(t, n, data).dom().contains(root),
        parent_of(with_new(t, n, data), root) is None,
        forall|m: NodeId| #[trigger] with_new(t, n, data).dom().contains(m) && m != n
            ==> exists|k: nat| reaches(with_new(t, n, data), m, root, k),
        forall|m: NodeId, j: nat| m != n ==> !#[trigger] reaches(with_new(t, n, data), m, n, j),
{
    let t2 = with_new(t, n, data);
    assert forall|m: NodeId| #[trigger] t2.dom().contains(m) implies children_of(t2, m).no_duplicates() by {
        if m != n {
            assert(t.dom().contains(m));
        }
    }
    assert forall|m: NodeId, i: int| t2.dom().contains(m) && 0 <= i < children_of(t2, m).len() implies {
        &&& t2.dom().contains(#[trigger] children_of(t2, m)[i])
        &&& parent_of(t2, children_of(t2, m)[i]) == Some(m)
    } by {
        assert(m != n);
        assert(t.dom().contains(children_of(t, m)[i]));
    }
    assert forall|m: NodeId| #[trigger] t2.dom().contains(m) implies parent_of(t2, m) != Some(n) by {
        if m != n {
            assert(t.dom().contains(m));
            if parent_of(t, m) is Some {
                assert(t.dom().contains(parent_of(t, m)->0));
            }
        }
    }
    assert forall|m: NodeId| #[trigger] t.dom().contains(m) implies t2.dom().contains(m) && parent_of(t2, m) == parent_of(t, m) by {
        assert(m != n);
    }
    assert forall|m: NodeId| #[trigger] t2.dom().contains(m) && m != n implies exists|k: nat| reaches(t2, m, root, k) by {
        let k = choose|k: nat| reaches(t, m, root, k);
        lemma_reaches_grow(t, t2, m, root, k);
    }
    assert forall|m: NodeId, j: nat| m != n implies !#[trigger] reaches(t2, m, n, j) by {
        lemma_no_path_to_childless(t2, m, n, j);
    }
}

/// Replacing a node keeps the tree.
pub proof fn lemma_with_data(t: Tree, root: NodeId, v: NodeId, data: Node)
    requires
        tree_ok(t, root),
        t.dom().contains(v),
    ensures
        tree_ok(with_data(t, v, data), root),
{
    let t2 = with_data(t, v, data);
    assert(t2.dom() =~= t.dom());
    assert forall|m: NodeId| #[trigger] t2.dom().contains(m) implies exists|k: nat| reaches(t2, m, root, k) by {
        let k = choose|k: nat| reaches(t, m, root, k);
        lemma_reaches_grow(t, t2, m, root, k);
    }
}

/// The three parts of a parent's list once `v` gives way to its children hold
/// no vertex twice.
proof fn lemma_splice_distinct(cs: Seq<NodeId>, i: int, kids: Seq<NodeId>)
    requires
        cs.no_duplicates(),
        kids.no_duplicates(),
        0 <= i < cs.len(),
        forall|x: NodeId| #[trigger] kids.contains(x) ==> !cs.contains(x),
    ensures
        (cs.take(i) + kids + cs.skip(i + 1)).no_duplicates(),
        forall|x: NodeId| #[trigger] (cs.take(i) + kids + cs.skip(i + 1)).contains(x)
            <==> ((cs.contains(x) && x != cs[i]) || kids.contains(x)),
{
    let l = cs.take(i) + kids + cs.skip(i + 1);
    let kl = kids.len() as int;
    assert(l.len() == cs.len() - 1 + kl);
    assert forall|a: int| 0 <= a < l.len() implies
        (a < i ==> l[a] == cs[a]) && (i <= a < i + kl ==> l[a] == kids[a - i]) && (i + kl <= a ==> l[a] == cs[a - kl + 1]) by {
    }
    assert forall|a: int, b: int| 0 <= a < l.len() && 0 <= b < l.len() && a != b implies l[a] != l[b] by {
        if i <= a < i + kl && i <= b < i + kl {
        } else if i <= a < i + kl {
            assert(kids.contains(l[a]));
            let sb = if b < i { b } else { b - kl + 1 };
            assert(cs.contains(cs[sb]));
        } else if i <= b < i + kl {
            assert(kids.contains(l[b]));
            let sa = if a < i { a } else { a - kl + 1 };
            assert(cs.contains(cs[sa]));
        } else {
            let sa = if a < i { a } else { a - kl + 1 };
            let sb = if b < i { b } else { b - kl + 1 };
            assert(l[a] == cs[sa] && l[b] == cs[sb]);
        }
    }
    assert forall|x: NodeId| #[trigger] l.contains(x) <==> ((cs.contains(x) && x != cs[i]) || kids.contains(x)) by {
        if l.contains(x) {
            let a = choose|a: int| 0 <= a < l.len() && l[a] == x;
            if a < i {
                assert(cs[a] == x);
            } else if a < i + kl {
                assert(kids[a - i] == x);
            } else {
                assert(cs[a - kl + 1] == x);
            }
        }
        if cs.contains(x) && x != cs[i] {
            let a = choose|a: int| 0 <= a < cs.len() && cs[a] == x;
            if a < i {
                assert(l[a] == x);
            } else {
                assert(a != i);
                assert(l[a + kl - 1] == x);
            }
        }
        if kids.contains(x) {
            let a = choose|a: int| 0 <= a < kids.len() && kids[a] == x;
            assert(l[a + i] == x);
        }
    }
}

proof fn lemma_removed_reaches(t: Tree, root: NodeId, v: NodeId, n: NodeId, k: nat)
    requires
        tree_ok(t, root),
        t.dom().contains(v),
        parent_of(t, v) is Some,
        shape_ok(removed(t, v)),
        t.dom().contains(n),
        n != v,
        reaches(t, n, root, k),
        forall|m: NodeId| #[trigger] removed(t, v).dom().contains(m) ==>
            parent_of(removed(t, v), m) == (if parent_of(t, m) == Some(v) { parent_of(t, v) } else { parent_of(t, m) }),
    ensures
        exists|k2: nat| reaches(removed(t, v), n, root, k2),
    decreases k,
{
    let r = removed(t, v);
    assert(r.dom().contains(n));
    if k == 0 {
        assert(reaches(r, n, root, 0));
    } else {
        let x = parent_of(t, n)->0;
        if x == v {
            let p = parent_of(t, v)->0;
            assert(reaches(t, v, root, (k - 1) as nat));
            assert(k >= 2) by {
                if k == 1 {
                    assert(v == root);
                }
            }
            assert(reaches(t, p, root, (k - 2) as nat));
            assert(t.dom().contains(p));
            assert(p != v);
            lemma_removed_reaches(t, root, v, p, (k - 2) as nat);
            let k2 = choose|k2: nat| reaches(r, p, root, k2);
            assert(reaches(r, n, root, k2 + 1));
        } else {
            assert(t.dom().contains(x));
            lemma_removed_reaches(t, root, v, x, (k - 1) as nat);
            let k2 = choose|k2: nat| reaches(r, x, root, k2);
            assert(reaches(r, n, root, k2 + 1));
        }
    }
}

/// Removing `v` keeps the tree: its children take its place under its parent.
pub proof fn lemma_removed(t: Tree, root: NodeId, v: NodeId)
    requires
        tree_ok(t, root),
        t.dom().contains(v),
        parent_of(t, v) is Some,
    ensures
        tree_ok(removed(t, v), root),
        removed(t, v).dom() == t.dom().remove(v),
        forall|n: NodeId| #[trigger] removed(t, v).dom().contains(n) ==> data_of(removed(t, v), n) == data_of(t, n),
        forall|n: NodeId| #[trigger] removed(t, v).dom().contains(n) ==>
            parent_of(removed(t, v), n) == (if parent_of(t, n) == Some(v) { parent_of(t, v) } else { parent_of(t, n) }),
{
    let p = parent_of(t, v)->0;
    let cs = children_of(t, p);
    let i = cs.index_of(v);
    let kids = children_of(t, v);
    let r = removed(t, v);
    let a = lemma_depth_step(t, root, v);
    assert(t.dom().contains(p) && cs.contains(v));
    assert(0 <= i < cs.len() && cs[i] == v);
    assert(r.dom() =~= t.dom().remove(v));
    // kids are one step below v
    assert forall|x: NodeId| #[trigger] kids.contains(x) implies t.dom().contains(x) && parent_of(t, x) == Some(v)
        && reaches(t, x, root, a + 2) by {
        let j = choose|j: int| 0 <= j < kids.len() && kids[j] == x;
        assert(t.dom().contains(kids[j]));
    }
    assert(!kids.contains(p)) by {
        if kids.contains(p) {
            lemma_reaches_unique(t, p, root, a, a + 2);
        }
    }
    assert(!kids.contains(v)) by {
        if kids.contains(v) {
            lemma_reaches_unique(t, v, root, a + 1, a + 2);
        }
    }
    assert forall|x: NodeId| #[trigger] kids.contains(x) implies !cs.contains(x) by {
        if cs.contains(x) {
            let j = choose|j: int| 0 <= j < cs.len() && cs[j] == x;
            assert(parent_of(t, cs[j]) == Some(p));
        }
    }
    lemma_splice_distinct(cs, i, kids);
    let l = cs.take(i) + kids + cs.skip(i + 1);
    assert(children_of(r, p) == l);
    // parents after the removal
    assert forall|n: NodeId| #[trigger] r.dom().contains(n) implies
        parent_of(r, n) == (if parent_of(t, n) == Some(v) { parent_of(t, v) } else { parent_of(t, n) }) by {
        if kids.contains(n) {
        } else if parent_of(t, n) == Some(v) {
            assert(children_of(t, v).contains(n));
        }
    }
    // shape
    assert forall|n: NodeId| #[trigger] r.dom().contains(n) implies parent_of(r, n) != Some(n) by {
        if kids.contains(n) {
        }
    }
    assert forall|n: NodeId| #[trigger] r.dom().contains(n) implies children_of(r, n).no_duplicates() by {
        if n != p && !kids.contains(n) {
            assert(children_of(r, n) == children_of(t, n));
        }
    }
    assert forall|n: NodeId, j: int| r.dom().contains(n) && 0 <= j < children_of(r, n).len() implies {
        &&& r.dom().contains(#[trigger] children_of(r, n)[j])
        &&& parent_of(r, children_of(r, n)[j]) == Some(n)
    } by {
        let x = children_of(r, n)[j];
        assert(children_of(r, n).contains(x));
        if n == p {
            if kids.contains(x) {
            } else {
                assert(cs.contains(x) && x != v);
                let b = choose|b: int| 0 <= b < cs.len() && cs[b] == x;
                assert(t.dom().contains(cs[b]));
                assert(parent_of(t, x) == Some(p));
            }
        } else {
            assert(children_of(r, n) == children_of(t, n));
            assert(t.dom().contains(children_of(t, n)[j]));
            assert(parent_of(t, x) == Some(n));
            if x == v {
                assert(n == p);
            }
            if kids.contains(x) {
                assert(n == v);
            }
            if kids.contains(n) {
                assert(x != p) by {
                    if x == p {
                        assert(reaches(t, x, root, a + 3));
                        lemma_reaches_unique(t, p, root, a, a + 3);
                    }
                }
            }
        }
    }
    assert forall|n: NodeId| #[trigger] r.dom().contains(n) && parent_of(r, n) is Some implies {
        &&& r.dom().contains(parent_of(r, n)->0)
        &&& children_of(r, parent_of(r, n)->0).contains(n)
    } by {
        if kids.contains(n) {
        } else if n == p {
            let g = parent_of(t, p)->0;
            assert(t.dom().contains(g) && children_of(t, g).contains(p));
            let kg = lemma_depth_step(t, root, p);
            lemma_reaches_unique(t, p, root, a, kg + 1);
            assert(g != v) by {
                if g == v {
                    lemma_reaches_unique(t, v, root, a + 1, kg);
                }
            }
            assert(!kids.contains(g)) by {
                if kids.contains(g) {
                    lemma_reaches_unique(t, g, root, a + 2, kg);
                }
            }
            assert(children_of(r, g) == children_of(t, g));
        } else {
            let q = parent_of(t, n)->0;
            assert(q != v);
            assert(t.dom().contains(q) && children_of(t, q).contains(n));
            if q == p {
                assert(cs.contains(n) && n != v);
            } else {
                assert(children_of(r, q) == children_of(t, q));
            }
        }
    }
    assert(shape_ok(r));
    // every vertex still reaches the root
    assert(root != v);
    assert(parent_of(r, root) is None) by {
        if kids.contains(root) {
        }
    }
    assert forall|n: NodeId| #[trigger] r.dom().contains(n) implies exists|k: nat| reaches(r, n, root, k) by {
        let k = choose|k: nat| reaches(t, n, root, k);
        lemma_removed_reaches(t, root, v, n, k);
    }
}

/// A vertex with a parent stays in its parent's list when another vertex is
/// detached, and so has a position there.
pub proof fn lemma_anchor_stays(t: Tree, c: NodeId, a: NodeId)
    requires
        shape_ok(t),
        t.dom().contains(c),
        t.dom().contains(a),
        a != c,
        parent_of(t, a) is Some,
    ensures
        children_of(detached(t, c), parent_of(t, a)->0).contains(a),
        0 <= children_of(detached(t, c), parent_of(t, a)->0).index_of(a) < children_of(detached(t, c), parent_of(t, a)->0).len(),
{
    lemma_detached(t, c);
    let q = parent_of(t, a)->0;
    assert(t.dom().contains(q) && children_of(t, q).contains(a));
}

/// A vertex's parent is not below it.
pub proof fn lemma_parent_apart(t: Tree, root: NodeId, v: NodeId)
    requires
        tree_ok(t, root),
        t.dom().contains(v),
        parent_of(t, v) is Some,
    ensures
        forall|j: nat| !#[trigger] reaches(t, parent_of(t, v)->0, v, j),
{
    let kp = lemma_depth_step(t, root, v);
    lemma_not_below(t, root, v, parent_of(t, v)->0, kp + 1, kp);
}

/// A vertex other than the root has a parent.
pub proof fn lemma_has_parent(t: Tree, root: NodeId, v: NodeId)
    requires
        tree_ok(t, root),
        t.dom().contains(v),
        v != root,
    ensures
        parent_of(t, v) is Some,
{
    let k = choose|k: nat| reaches(t, v, root, k);
}

/// The last leaf of a subtree is a live vertex below its top, reached in `k` steps.
pub proof fn lemma_last_leaf(t: Tree, n: NodeId, d: NodeId, k: nat)
    requires
        shape_ok(t),
        t.dom().contains(n),
        last_leaf(t, n, d, k),
    ensures
        t.dom().contains(d),
        reaches(t, d, n, k),
        k > 0 ==> parent_of(t, d) is Some,
    decreases k,
{
    if k > 0 {
        let cs = children_of(t, n);
        let l = cs.last();
        assert(t.dom().contains(cs[cs.len() - 1]));
        assert(parent_of(t, cs[cs.len() - 1]) == Some(n));
        assert(reaches(t, n, n, 0));
        assert(reaches(t, l, n, 1));
        lemma_last_leaf(t, l, d, (k - 1) as nat);
        lemma_reaches_compose(t, d, l, n, (k - 1) as nat, 1);
    }
}

/// A subtree has one last leaf.
pub proof fn lemma_last_leaf_unique(t: Tree, n: NodeId, d1: NodeId, d2: NodeId, k1: nat, k2: nat)
    requires
        last_leaf(t, n, d1, k1),
        last_leaf(t, n, d2, k2),
    ensures
        d1 == d2,
    decreases k1,
{
    if k1 > 0 && k2 > 0 {
        lemma_last_leaf_unique(t, children_of(t, n).last(), d1, d2, (k1 - 1) as nat, (k2 - 1) as nat);
    }
}

/// The sibling before a vertex is a live vertex under the same parent.
pub proof fn lemma_prev_sibling(t: Tree, v: NodeId)
    requires
        shape_ok(t),
        t.dom().contains(v),
        prev_sibling_of(t, v) is Some,
    ensures
        t.dom().contains(prev_sibling_of(t, v)->0),
        parent_of(t, prev_sibling_of(t, v)->0) == parent_of(t, v),
        prev_sibling_of(t, v)->0 != v,
{
    let p = parent_of(t, v)->0;
    let cs = children_of(t, p);
    assert(cs.contains(v));
    let i = cs.index_of(v);
    assert(t.dom().contains(cs[i - 1]));
    assert(cs[i] == v);
}

/// The sibling after a vertex is a live vertex under the same parent.
pub proof fn lemma_next_sibling(t: Tree, v: NodeId)
    requires
        shape_ok(t),
        t.dom().contains(v),
        next_sibling_of(t, v) is Some,
    ensures
        t.dom().contains(next_sibling_of(t, v)->0),
        parent_of(t, next_sibling_of(t, v)->0) == parent_of(t, v),
        next_sibling_of(t, v)->0 != v,
{
    let p = parent_of(t, v)->0;
    let cs = children_of(t, p);
    assert(cs.contains(v));
    let i = cs.index_of(v);
    assert(t.dom().contains(cs[i + 1]));
    assert(cs[i] == v);
}

/// The siblings after a vertex are distinct live vertices under the same
/// parent, other than the vertex itself.
pub proof fn lemma_following(t: Tree, v: NodeId)
    requires
        shape_ok(t),
        t.dom().contains(v),
        parent_of(t, v) is Some,
    ensures
        following_siblings_of(t, v).no_duplicates(),
        forall|j: int| 0 <= j < following_siblings_of(t, v).len() ==> {
            &&& t.dom().contains(#[trigger] following_siblings_of(t, v)[j])
            &&& parent_of(t, following_siblings_of(t, v)[j]) == parent_of(t, v)
            &&& following_siblings_of(t, v)[j] != v
        },
{
    let p = parent_of(t, v)->0;
    let cs = children_of(t, p);
    assert(cs.contains(v));
    let i = cs.index_of(v);
    let fs = following_siblings_of(t, v);
    assert(fs =~= cs.skip(i + 1));
    assert forall|j: int| 0 <= j < fs.len() implies {
        &&& t.dom().contains(#[trigger] fs[j])
        &&& parent_of(t, fs[j]) == parent_of(t, v)
        &&& fs[j] != v
    } by {
        assert(fs[j] == cs[j + i + 1]);
        assert(t.dom().contains(cs[j + i + 1]));
    }
    assert forall|a: int, b: int| 0 <= a < fs.len() && 0 <= b < fs.len() && a != b implies fs[a] != fs[b] by {
        assert(fs[a] == cs[a + i + 1] && fs[b] == cs[b + i + 1]);
    }
}

} // verus!

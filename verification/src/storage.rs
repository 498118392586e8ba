//! Building the outline: from stored rows, or the welcome outline when there
//! is nothing (usable) stored.

use vstd::prelude::*;
use vstd::string::StringExecFns;
use generational_indextree::NodeId;
use crate::arena::{append_child, arena_nodes, child_vertices, new_arena, new_vertex, node_at};
use crate::forest::{Node, Tree, children_of, data_of, detached, moved, parent_of, reaches, shape_ok, tree_ok, with_new};
use crate::forest_proofs::{lemma_moved, lemma_reparent_rooted, lemma_with_new};
use crate::ids::new_random_id;
use crate::outline::Model;

verus! {

/// One stored item: its node, and the row of its parent (an earlier row), or
/// `None` for the root, which comes first. Children come in the order of their rows.
#[derive(Debug, PartialEq, Eq)]
pub struct StoredNode {
    pub id: u128,
    pub content: String,
    pub folded: bool,
    pub parent: Option<usize>,
}

/// Rows that describe a tree: the first has no parent, every later one names an
/// earlier row as its parent.
pub open spec fn rows_valid(rows: Seq<StoredNode>) -> bool {
    &&& rows.len() > 0
    &&& rows[0].parent is None
    &&& forall|i: int| 1 <= i < rows.len() ==> (#[trigger] rows[i].parent) is Some && (rows[i].parent->0 as int) < i
}

/// The rows before `upto` whose parent is row `p`, in order.
pub open spec fn child_rows(rows: Seq<StoredNode>, p: int, upto: int) -> Seq<int>
    decreases upto,
{
    if upto <= 0 {
        Seq::empty()
    } else if rows[upto - 1].parent is Some && rows[upto - 1].parent->0 as int == p {
        child_rows(rows, p, upto - 1).push(upto - 1)
    } else {
        child_rows(rows, p, upto - 1)
    }
}

/// The vertex of each row's parent.
pub open spec fn parent_vertex_of(rows: Seq<StoredNode>, vs: Seq<NodeId>, i: int) -> Option<NodeId> {
    match rows[i].parent {
        Some(j) => Some(vs[j as int]),
        None => None,
    }
}

/// The tree holds the first `upto` rows, row `i` at vertex `vs[i]`.
pub open spec fn holds_rows_at(t: Tree, rows: Seq<StoredNode>, vs: Seq<NodeId>, upto: int) -> bool {
    &&& vs.len() == upto
    &&& vs.no_duplicates()
    &&& forall|n: NodeId| #[trigger] t.dom().contains(n) <==> vs.contains(n)
    &&& forall|i: int| 0 <= i < upto ==> {
        &&& #[trigger] data_of(t, vs[i]) == Node { id: rows[i].id, content: rows[i].content, folded: rows[i].folded }
        &&& parent_of(t, vs[i]) == parent_vertex_of(rows, vs, i)
        &&& children_of(t, vs[i]) == child_rows(rows, i, upto).map_values(|j: int| vs[j])
    }
}

/// The state holds exactly the rows, the first one as its root, and edits nothing.
pub open spec fn holds_rows(m: Model, rows: Seq<StoredNode>) -> bool {
    exists|vs: Seq<NodeId>|
        {
            &&& holds_rows_at(m.nodes(), rows, vs, rows.len() as int)
            &&& m.root_vertex() == vs[0]
            &&& m.editing() is None
        }
}

pub proof fn lemma_child_rows_bounds(rows: Seq<StoredNode>, p: int, upto: int)
    ensures
        forall|a: int| 0 <= a < child_rows(rows, p, upto).len() ==> {
            &&& 0 <= #[trigger] child_rows(rows, p, upto)[a] < upto
            &&& rows[child_rows(rows, p, upto)[a]].parent is Some
            &&& rows[child_rows(rows, p, upto)[a]].parent->0 as int == p
        },
    decreases upto,
{
    if upto > 0 {
        lemma_child_rows_bounds(rows, p, upto - 1);
    }
}

proof fn lemma_child_rows_empty(rows: Seq<StoredNode>, p: int, upto: int)
    requires
        rows_valid(rows),
        0 <= p < rows.len(),
        upto <= p + 1,
        upto <= rows.len(),
    ensures
        child_rows(rows, p, upto) == Seq::<int>::empty(),
    decreases upto,
{
    if upto > 0 {
        lemma_child_rows_empty(rows, p, upto - 1);
        if upto - 1 >= 1 {
            assert(rows[upto - 1].parent is Some);
            assert((rows[upto - 1].parent->0 as int) < upto - 1);
        }
    }
}

proof fn lemma_map_extend(s: Seq<int>, vs: Seq<NodeId>, n: NodeId)
    requires
        forall|a: int| 0 <= a < s.len() ==> 0 <= #[trigger] s[a] < vs.len(),
    ensures
        s.map_values(|j: int| vs.push(n)[j]) == s.map_values(|j: int| vs[j]),
{
    assert(s.map_values(|j: int| vs.push(n)[j]) =~= s.map_values(|j: int| vs[j]));
}

/// A tree of one vertex.
proof fn lemma_single(t: Tree, n: NodeId, data: Node)
    requires
        t.dom().is_empty(),
    ensures
        tree_ok(with_new(t, n, data), n),
{
    let t1 = with_new(t, n, data);
    assert(t1.dom() =~= set![n]);
    assert(reaches(t1, n, n, 0));
}

/// Builds the tree that `rows` describe.
fn build(rows: &Vec<StoredNode>) -> (m: Model)
    requires
        rows_valid(rows@),
    ensures
        m.wf(),
        holds_rows(m, rows@),
{
    let mut tree = new_arena();
    let mut vs: Vec<NodeId> = Vec::new();
    let mut i: usize = 0;
    proof {
        assert forall|n: NodeId| #[trigger] arena_nodes(tree).dom().contains(n) <==> vs@.contains(n) by {
        }
    }
    while i < rows.len()
        invariant
            rows_valid(rows@),
            0 <= i <= rows.len(),
            holds_rows_at(arena_nodes(tree), rows@, vs@, i as int),
            shape_ok(arena_nodes(tree)),
            i == 0 ==> arena_nodes(tree).dom().is_empty(),
            i > 0 ==> tree_ok(arena_nodes(tree), vs@[0]),
        decreases rows.len() - i,
    {
        let ghost t = arena_nodes(tree);
        let ghost vs0 = vs@;
        let data = Node { id: rows[i].id, content: rows[i].content.clone(), folded: rows[i].folded };
        proof {
            vs0.unique_seq_to_set();
            assert(t.dom() =~= vs0.to_set());
        }
        let n = new_vertex(&mut tree, data);
        let ghost t1 = arena_nodes(tree);
        proof {
            assert(!vs0.contains(n));
            lemma_child_rows_bounds(rows@, i as int, i as int + 1);
            lemma_child_rows_empty(rows@, i as int, i as int + 1);
        }
        match rows[i].parent {
            Some(j) => {
                let q = vs[j];
                proof {
                    assert(i >= 1);
                    let root = vs0[0];
                    lemma_with_new(t, root, n, data);
                    assert(detached(t1, n) == t1);
                    let at = children_of(t1, q).len() as int;
                    assert(t1.dom().contains(q));
                    lemma_moved(t1, n, q, at);
                    lemma_reparent_rooted(t1, moved(t1, n, q, at), root, n, q);
                }
                append_child(&mut tree, q, n);
            },
            None => {
                proof {
                    assert(i == 0);
                    lemma_single(t, n, data);
                }
            },
        }
        vs.push(n);
        proof {
            let t2 = arena_nodes(tree);
            let vs1 = vs@;
            assert(vs1 =~= vs0.push(n));
            assert(vs1.no_duplicates());
            assert forall|x: NodeId| #[trigger] t2.dom().contains(x) <==> vs1.contains(x) by {
                if vs1.contains(x) && x != n {
                    let a = choose|a: int| 0 <= a < vs1.len() && vs1[a] == x;
                    assert(vs0.contains(vs0[a]));
                }
                if vs0.contains(x) {
                    let a = choose|a: int| 0 <= a < vs0.len() && vs0[a] == x;
                    assert(vs1[a] == x);
                }
                assert(vs1[i as int] == n);
            }
            assert forall|x: NodeId| #[trigger] t.dom().contains(x) implies
                data_of(t2, x) == data_of(t, x) && parent_of(t2, x) == parent_of(t, x)
                && (rows@[i as int].parent is None || x != vs0[rows@[i as int].parent->0 as int] ==> children_of(t2, x) == children_of(t, x)) by {
                assert(x != n);
            }
            if rows@[i as int].parent is Some {
                let j = rows@[i as int].parent->0 as int;
                assert(children_of(t2, vs0[j]) == children_of(t, vs0[j]).push(n));
                assert(parent_of(t2, n) == Some(vs0[j]));
            } else {
                assert(parent_of(t2, n) is None);
            }
            assert(children_of(t2, n) == Seq::<NodeId>::empty());
            assert(data_of(t2, n) == data);
            assert forall|k: int| 0 <= k < i + 1 implies {
                &&& #[trigger] data_of(t2, vs1[k]) == Node { id: rows@[k].id, content: rows@[k].content, folded: rows@[k].folded }
                &&& parent_of(t2, vs1[k]) == parent_vertex_of(rows@, vs1, k)
                &&& children_of(t2, vs1[k]) == child_rows(rows@, k, i + 1).map_values(|j: int| vs1[j])
            } by {
                lemma_child_rows_bounds(rows@, k, i as int);
                lemma_map_extend(child_rows(rows@, k, i as int), vs0, n);
                if k < i {
                    assert(vs1[k] == vs0[k]);
                    assert(vs0.contains(vs0[k]));
                    assert(t.dom().contains(vs0[k]));
                    if rows@[i as int].parent is Some && rows@[i as int].parent->0 as int == k {
                        assert(child_rows(rows@, k, i + 1) == child_rows(rows@, k, i as int).push(i as int));
                        assert(child_rows(rows@, k, i + 1).map_values(|j: int| vs1[j]) =~= child_rows(rows@, k, i as int).map_values(|j: int| vs0[j]).push(n));
                    } else {
                        assert(child_rows(rows@, k, i + 1) == child_rows(rows@, k, i as int));
                        if rows@[i as int].parent is Some {
                            let j = rows@[i as int].parent->0 as int;
                            assert(j != k);
                            assert(vs0[j] != vs0[k]);
                        }
                    }
                    if rows@[k].parent is Some {
                        let j = rows@[k].parent->0 as int;
                        if k >= 1 {
                            assert(j < k);
                        }
                        assert(vs1[j] == vs0[j]);
                    }
                } else {
                    assert(vs1[k] == n);
                    if rows@[k].parent is Some {
                        let j = rows@[k].parent->0 as int;
                        assert(vs1[j] == vs0[j]);
                    }
                    assert(child_rows(rows@, k, i + 1) == Seq::<int>::empty());
                }
            }
        }
        i = i + 1;
    }
    proof {
        let t = arena_nodes(tree);
        assert(t.dom().contains(vs@[0]));
    }
    let root = vs[0];
    let m = Model::from_tree(tree, root);
    assert(holds_rows_at(m.nodes(), rows@, vs@, rows@.len() as int));
    m
}

/// Whether `rows` describe a tree; see `rows_valid`.
pub fn rows_are_valid(rows: &Vec<StoredNode>) -> (r: bool)
    ensures
        r == rows_valid(rows@),
{
    if rows.len() == 0 {
        return false;
    }
    if rows[0].parent.is_some() {
        return false;
    }
    let mut i: usize = 1;
    while i < rows.len()
        invariant
            1 <= i <= rows.len(),
            rows@[0].parent is None,
            forall|k: int| 1 <= k < i ==> (#[trigger] rows@[k].parent) is Some && (rows@[k].parent->0 as int) < k,
        decreases rows.len() - i,
    {
        match rows[i].parent {
            Some(j) => {
                if j >= i {
                    return false;
                }
            },
            None => {
                return false;
            },
        }
        i = i + 1;
    }
    true
}

/// The outline shown when nothing is stored: the title and a short guide.
pub open spec fn welcome_rows(rows: Seq<StoredNode>) -> bool {
    &&& rows.len() == 5
    &&& rows[0].content@ == "🌱 Seed Outliner"@
    &&& rows[1].content@ == "Welcome to Seed-Outliner!"@
    &&& rows[2].content@ == "You can click here to start editing contents."@
    &&& rows[3].content@ == "You can indent items by pressing \"Tab\" key."@
    &&& rows[4].content@ == "...and unindent by pressing \"Shift + Tab\" key."@
    &&& forall|i: int| 0 <= i < 5 ==> !(#[trigger] rows[i]).folded
    &&& rows[0].parent == None::<usize>
    &&& rows[1].parent == Some(0usize)
    &&& rows[2].parent == Some(0usize)
    &&& rows[3].parent == Some(0usize)
    &&& rows[4].parent == Some(3usize)
}

fn welcome() -> (rows: Vec<StoredNode>)
    ensures
        welcome_rows(rows@),
        rows_valid(rows@),
{
    let mut rows = Vec::new();
    rows.push(StoredNode { id: new_random_id(), content: String::from_str("🌱 Seed Outliner"), folded: false, parent: None });
    rows.push(StoredNode { id: new_random_id(), content: String::from_str("Welcome to Seed-Outliner!"), folded: false, parent: Some(0) });
    rows.push(StoredNode {
        id: new_random_id(),
        content: String::from_str("You can click here to start editing contents."),
        folded: false,
        parent: Some(0),
    });
    rows.push(StoredNode {
        id: new_random_id(),
        content: String::from_str("You can indent items by pressing \"Tab\" key."),
        folded: false,
        parent: Some(0),
    });
    rows.push(StoredNode {
        id: new_random_id(),
        content: String::from_str("...and unindent by pressing \"Shift + Tab\" key."),
        folded: false,
        parent: Some(3),
    });
    rows
}

/// The state the editor starts in: the stored outline, where rows describing a
/// tree were stored, and the welcome outline otherwise; nothing is edited.
pub fn init(stored: Option<Vec<StoredNode>>) -> (m: Model)
    ensures
        m.wf(),
        m.editing() is None,
        match stored {
            Some(rows) => if rows_valid(rows@) {
                holds_rows(m, rows@)
            } else {
                exists|w: Seq<StoredNode>| welcome_rows(w) && #[trigger] holds_rows(m, w)
            },
            None => exists|w: Seq<StoredNode>| welcome_rows(w) && #[trigger] holds_rows(m, w),
        },
{
    match stored {
        Some(rows) => {
            if rows_are_valid(&rows) {
                return build(&rows);
            }
        },
        None => {},
    }
    let rows = welcome();
    build(&rows)
}

/// Rows in level order: the later a row, the later (or the same) its parent's row.
pub open spec fn parents_ordered(rows: Seq<StoredNode>) -> bool {
    forall|k1: int, k2: int|
        1 <= k1 < k2 < rows.len() ==> (#[trigger] rows[k1].parent->0 as int) <= (#[trigger] rows[k2].parent->0 as int)
}

/// The rows that `m`'s outline is stored as: each vertex once, with its node,
/// the root first, then level by level, the children of each vertex together
/// and in their order.
pub open spec fn stores(m: Model, rows: Seq<StoredNode>) -> bool {
    &&& rows_valid(rows)
    &&& parents_ordered(rows)
    &&& exists|order: Seq<NodeId>|
        {
            &&& holds_rows_at(m.nodes(), rows, order, rows.len() as int)
            &&& order[0] == m.root_vertex()
        }
}

/// `child_rows` up to `upto` reads only the rows before `upto`.
proof fn lemma_child_rows_prefix(a: Seq<StoredNode>, b: Seq<StoredNode>, j: int, upto: int)
    requires
        0 <= upto <= a.len(),
        upto <= b.len(),
        forall|k: int| 0 <= k < upto ==> a[k] == b[k],
    ensures
        child_rows(a, j, upto) == child_rows(b, j, upto),
    decreases upto,
{
    if upto > 0 {
        lemma_child_rows_prefix(a, b, j, upto - 1);
    }
}

/// One more row changes only its parent's list of child rows, which gets it last.
proof fn lemma_child_rows_push(rows: Seq<StoredNode>, r: StoredNode, j: int)
    ensures
        child_rows(rows.push(r), j, rows.len() + 1 as int) == if r.parent is Some && r.parent->0 as int == j {
            child_rows(rows, j, rows.len() as int).push(rows.len() as int)
        } else {
            child_rows(rows, j, rows.len() as int)
        },
{
    lemma_child_rows_prefix(rows.push(r), rows, j, rows.len() as int);
    assert(rows.push(r)[rows.len() as int] == r);
}

/// A sequence without duplicates inside a finite set is no longer than the set.
proof fn lemma_distinct_within(s: Seq<NodeId>, d: Set<NodeId>)
    requires
        s.no_duplicates(),
        d.finite(),
        forall|k: int| 0 <= k < s.len() ==> d.contains(#[trigger] s[k]),
    ensures
        s.len() <= d.len(),
{
    s.unique_seq_to_set();
    assert(s.to_set().subset_of(d));
    vstd::set_lib::lemma_len_subset(s.to_set(), d);
}

proof fn lemma_all_stored(t: Tree, root: NodeId, order: Seq<NodeId>, rows: Seq<StoredNode>, n: NodeId, k: nat)
    requires
        tree_ok(t, root),
        t.dom().contains(n),
        reaches(t, n, root, k),
        order.len() > 0,
        order.len() == rows.len(),
        order[0] == root,
        forall|j: int| 0 <= j < order.len() ==> children_of(t, order[j]) == (#[trigger] child_rows(rows, j, rows.len() as int)).map_values(|x: int| order[x]),
    ensures
        order.contains(n),
    decreases k,
{
    if k == 0 {
        assert(order[0] == n);
    } else {
        let p = parent_of(t, n)->0;
        assert(t.dom().contains(p));
        lemma_all_stored(t, root, order, rows, p, (k - 1) as nat);
        let j = choose|j: int| 0 <= j < order.len() && order[j] == p;
        assert(children_of(t, p).contains(n));
        let cr = child_rows(rows, j, rows.len() as int);
        let a = choose|a: int| 0 <= a < children_of(t, p).len() && children_of(t, p)[a] == n;
        lemma_child_rows_bounds(rows, j, rows.len() as int);
        assert(children_of(t, p)[a] == order[cr[a]]);
        assert(order[cr[a]] == n);
    }
}

/// The rows to store `model`'s outline as; `init` builds the same outline from them.
pub fn stored_nodes(model: &Model) -> (rows: Vec<StoredNode>)
    requires
        model.wf(),
    ensures
        stores(*model, rows@),
{
    let tree = model.tree();
    let ghost t = model.nodes();
    let root = model.root();
    let mut order: Vec<NodeId> = Vec::new();
    let mut rows: Vec<StoredNode> = Vec::new();
    let rn = node_at(tree, root);
    order.push(root);
    rows.push(StoredNode { id: rn.id, content: rn.content.clone(), folded: rn.folded, parent: None });
    proof {
        assert(rows@[0].parent is None);
        assert forall|j: int| 0 <= j implies #[trigger] child_rows(rows@, j, rows.len() as int) == Seq::<int>::empty() by {
            assert(child_rows(rows@, j, 0) == Seq::<int>::empty());
            assert(child_rows(rows@, j, 1) == child_rows(rows@, j, 0));
        }
    }
    let mut i: usize = 0;
    while i < order.len()
        invariant
            t == arena_nodes(*tree),
            tree_ok(t, root),
            root == model.root_vertex(),
            order.len() == rows.len(),
            1 <= order.len(),
            i <= order.len(),
            order@.no_duplicates(),
            forall|k: int| 0 <= k < order.len() ==> t.dom().contains(#[trigger] order@[k]),
            order@[0] == root,
            rows@[0].parent is None,
            forall|k: int| 1 <= k < rows.len() ==> {
                &&& (#[trigger] rows@[k]).parent is Some
                &&& (rows@[k].parent->0 as int) < i
                &&& (rows@[k].parent->0 as int) < k
                &&& parent_of(t, order@[k]) == Some(order@[rows@[k].parent->0 as int])
            },
            forall|k: int| 0 <= k < rows.len() ==>
                #[trigger] data_of(t, order@[k]) == (Node { id: rows@[k].id, content: rows@[k].content, folded: rows@[k].folded }),
            forall|j: int| 0 <= j < i ==>
                children_of(t, order@[j]) == (#[trigger] child_rows(rows@, j, rows.len() as int)).map_values(|x: int| order@[x]),
            forall|j: int| i <= j ==> #[trigger] child_rows(rows@, j, rows.len() as int) == Seq::<int>::empty(),
            parents_ordered(rows@),
        decreases t.dom().len() - i,
    {
        proof {
            lemma_distinct_within(order@, t.dom());
        }
        let v = order[i];
        let cs = child_vertices(tree, v);
        let ghost big_l = order.len() as int;
        let ghost order0 = order@;
        let ghost rows0 = rows@;
        let mut a: usize = 0;
        proof {
            assert(cs@.no_duplicates());
            assert(child_rows(rows@, i as int, rows.len() as int) =~= Seq::new(0, |x: int| big_l + x));
        }
        while a < cs.len()
            invariant
                t == arena_nodes(*tree),
                tree_ok(t, root),
                cs@ == children_of(t, order0[i as int]),
                cs@.no_duplicates(),
                0 <= i < big_l,
                order0.len() == big_l,
                rows0.len() == big_l,
                order.len() == rows.len(),
                order.len() == big_l + a,
                a <= cs.len(),
                order@ == order0 + cs@.take(a as int),
                forall|k: int| 0 <= k < big_l ==> rows@[k] == rows0[k],
                order0.no_duplicates(),
                forall|k: int| 0 <= k < big_l ==> t.dom().contains(#[trigger] order0[k]),
                order0[0] == root,
                rows0[0].parent is None,
                forall|k: int| 1 <= k < big_l ==> {
                    &&& (#[trigger] rows0[k]).parent is Some
                    &&& (rows0[k].parent->0 as int) < i
                    &&& (rows0[k].parent->0 as int) < k
                    &&& parent_of(t, order0[k]) == Some(order0[rows0[k].parent->0 as int])
                },
                forall|k: int| big_l <= k < rows.len() ==> (#[trigger] rows@[k]).parent == Some(i),
                forall|k: int| 0 <= k < rows.len() ==>
                    #[trigger] data_of(t, order@[k]) == (Node { id: rows@[k].id, content: rows@[k].content, folded: rows@[k].folded }),
                order@.no_duplicates(),
                forall|j: int| 0 <= j && j != i ==> #[trigger] child_rows(rows@, j, rows.len() as int) == child_rows(rows0, j, big_l),
                child_rows(rows@, i as int, rows.len() as int) == Seq::new(a as nat, |x: int| big_l + x),
                forall|j: int| i <= j ==> #[trigger] child_rows(rows0, j, big_l) == Seq::<int>::empty(),
                parents_ordered(rows@),
            decreases cs.len() - a,
        {
            let c = cs[a];
            let cn = node_at(tree, c);
            let row = StoredNode { id: cn.id, content: cn.content.clone(), folded: cn.folded, parent: Some(i) };
            proof {
                let o = order@;
                assert(children_of(t, order0[i as int]).contains(c));
                assert(t.dom().contains(order0[i as int]));
                assert(parent_of(t, c) == Some(order0[i as int]));
                assert(!o.contains(c)) by {
                    if o.contains(c) {
                        let k = choose|k: int| 0 <= k < o.len() && o[k] == c;
                        if k == 0 {
                        } else if k < big_l {
                            assert(o[k] == order0[k]);
                            let pk = rows0[k].parent->0 as int;
                            assert(order0[pk] == order0[i as int]);
                        } else {
                            assert(o[k] == cs@[k - big_l]);
                        }
                    }
                }
                lemma_child_rows_push(rows@, row, i as int);
                assert forall|j: int| 0 <= j && j != i implies #[trigger] child_rows(rows@.push(row), j, rows.len() + 1 as int) == child_rows(rows0, j, big_l) by {
                    lemma_child_rows_push(rows@, row, j);
                }
            }
            order.push(c);
            rows.push(row);
            proof {
                assert forall|k1: int, k2: int| 1 <= k1 < k2 < rows.len() implies
                    (#[trigger] rows@[k1].parent->0 as int) <= (#[trigger] rows@[k2].parent->0 as int) by {
                    if k1 < big_l {
                        assert(rows@[k1] == rows0[k1]);
                    }
                }
                assert(order@ =~= order0 + cs@.take(a + 1));
                assert(child_rows(rows@, i as int, rows.len() as int) =~= Seq::new((a + 1) as nat, |x: int| big_l + x));
            }
            a = a + 1;
        }
        proof {
            assert(cs@.take(cs.len() as int) =~= cs@);
            let o = order@;
            assert forall|k: int| 1 <= k < rows.len() implies {
                &&& (#[trigger] rows@[k]).parent is Some
                &&& (rows@[k].parent->0 as int) < i + 1
                &&& (rows@[k].parent->0 as int) < k
                &&& parent_of(t, o[k]) == Some(o[rows@[k].parent->0 as int])
            } by {
                if k < big_l {
                    assert(o[k] == order0[k]);
                    assert(rows@[k] == rows0[k]);
                } else {
                    assert(o[k] == cs@[k - big_l]);
                    assert(children_of(t, order0[i as int]).contains(cs@[k - big_l]));
                    assert(t.dom().contains(order0[i as int]));
                    assert(o[i as int] == order0[i as int]);
                }
            }
            assert forall|j: int| 0 <= j < i + 1 implies
                children_of(t, o[j]) == (#[trigger] child_rows(rows@, j, rows.len() as int)).map_values(|x: int| o[x]) by {
                if j < i {
                    let cr = child_rows(rows0, j, big_l);
                    lemma_child_rows_bounds(rows0, j, big_l);
                    assert(o[j] == order0[j]);
                    assert(cr.map_values(|x: int| o[x]) =~= cr.map_values(|x: int| order0[x]));
                } else {
                    assert(o[j] == order0[j]);
                    assert(child_rows(rows@, j, rows.len() as int).map_values(|x: int| o[x]) =~= cs@);
                }
            }
        }
        i = i + 1;
    }
    proof {
        let o = order@;
        let n = rows.len() as int;
        assert forall|x: NodeId| #[trigger] t.dom().contains(x) <==> o.contains(x) by {
            if t.dom().contains(x) {
                let k = choose|k: nat| reaches(t, x, root, k);
                lemma_all_stored(t, root, o, rows@, x, k);
            }
        }
        assert(holds_rows_at(model.nodes(), rows@, o, n)) by {
            assert forall|k: int| 0 <= k < n implies parent_of(t, o[k]) == parent_vertex_of(rows@, o, k) by {
                if k == 0 {
                }
            }
        }
    }
    rows
}

} // verus!

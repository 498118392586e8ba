//! Laws of the outline editor: what its operations keep, and which undo which.

use vstd::prelude::*;
use generational_indextree::NodeId;
use crate::forest::{
    Tree, children_of, data_of, detached, following_siblings_of, moved, next_sibling_of, parent_of,
    prev_sibling_of, reaches, tree_ok, inserted_after, Node,
    with_data, with_new, last_leaf,
};
use crate::forest_proofs::{
    lemma_detached, lemma_grandparent_apart, lemma_has_parent, lemma_moved, lemma_next_sibling,
    lemma_prev_sibling, lemma_anchor_stays, lemma_moved_tree, lemma_siblings_apart, lemma_following,
    lemma_with_new, lemma_removed, lemma_last_leaf,
};
use crate::outline::{
    Model, Msg, UpdateError, Command, admits, appended_each, indented, moved_down, moved_up, outdented, stepped,
    returns_early, same_state,
};
use crate::view::{KeyPress, KeyReaction, key_reaction, shown_children};
use crate::outline::EditingNode;
use crate::text::graphemes_of;
use crate::seq_facts::{lemma_index_at, lemma_insert_remove, lemma_remove_insert};
use crate::storage::{StoredNode, child_rows, holds_rows, holds_rows_at, lemma_child_rows_bounds, stores};

verus! {

/// Outdenting an item right after indenting it puts the tree back as it was:
/// indenting makes the item the last child of its previous sibling, so it has
/// no following siblings to adopt, and outdenting puts it back right after
/// that sibling.
pub proof fn law_outdent_undoes_indent(t: Tree, root: NodeId, v: NodeId)
    requires
        tree_ok(t, root),
        t.dom().contains(v),
        v != root,
        prev_sibling_of(t, v) is Some,
    ensures
        parent_of(indented(t, v), v) is Some,
        parent_of(indented(t, v), v) != Some(root),
        outdented(indented(t, v), v) == t,
{
    lemma_has_parent(t, root, v);
    let p = parent_of(t, v)->0;
    let cs = children_of(t, p);
    lemma_prev_sibling(t, v);
    let s = prev_sibling_of(t, v)->0;
    assert(cs.contains(v));
    let i = cs.index_of(v);
    assert(i >= 1 && s == cs[i - 1] && cs[i] == v);
    let cs_s = children_of(t, s);
    lemma_detached(t, v);
    let d0 = detached(t, v);
    assert(s != p);
    assert(children_of(d0, s) == cs_s);
    let at1 = cs_s.len() as int;
    lemma_moved(t, v, s, at1);
    let t1 = moved(t, v, s, at1);
    assert(t1 == indented(t, v));
    assert(children_of(t1, s) == cs_s.insert(at1, v));
    assert(parent_of(t1, s) == Some(p));
    assert(s != root);
    lemma_index_at(children_of(t1, s), at1, v);
    assert(following_siblings_of(t1, v) =~= Seq::<NodeId>::empty());
    assert(appended_each(t1, v, following_siblings_of(t1, v)) == t1);
    lemma_detached(t1, v);
    let d1 = detached(t1, v);
    lemma_insert_remove(cs_s, at1, v);
    assert(children_of(d1, s) == cs_s);
    assert(children_of(t1, p) == cs.remove(i));
    assert(children_of(d1, p) == cs.remove(i));
    lemma_index_at(cs.remove(i), i - 1, s);
    lemma_moved(t1, v, p, i);
    let t2 = moved(t1, v, p, i);
    assert(t2 == outdented(t1, v));
    lemma_remove_insert(cs, i);
    assert(children_of(t2, p) == cs);
    assert forall|n: NodeId| #[trigger] t.dom().contains(n) implies t2[n] == t[n] by {
        assert(parent_of(t2, n) == parent_of(t, n));
        assert(data_of(t2, n) == data_of(t, n));
        if n == p {
        } else if n == s {
            assert(children_of(t2, s) == children_of(d1, s));
        } else if n == v {
        } else {
            assert(children_of(t2, n) == children_of(t1, n));
            assert(children_of(t1, n) == children_of(t, n));
        }
    }
    assert(t2 =~= t);
}

proof fn lemma_swap_back_up(t: Tree, root: NodeId, v: NodeId)
    requires
        tree_ok(t, root),
        t.dom().contains(v),
        v != root,
        prev_sibling_of(t, v) is Some,
    ensures
        moved_down(moved_up(t, v)->0, v) == Some(t),
{
    lemma_has_parent(t, root, v);
    let p = parent_of(t, v)->0;
    let cs = children_of(t, p);
    lemma_prev_sibling(t, v);
    let s = prev_sibling_of(t, v)->0;
    assert(cs.contains(v));
    let i = cs.index_of(v);
    assert(i >= 1 && s == cs[i - 1] && cs[i] == v);
    lemma_detached(t, v);
    let d0 = detached(t, v);
    assert(children_of(d0, p) == cs.remove(i));
    lemma_index_at(cs.remove(i), i - 1, s);
    lemma_moved(t, v, p, i - 1);
    let t1 = moved(t, v, p, i - 1);
    assert(moved_up(t, v) == Some(t1));
    let l1 = cs.remove(i).insert(i - 1, v);
    assert(children_of(t1, p) == l1);
    assert(l1[i - 1] == v && l1[i] == s);
    lemma_index_at(l1, i - 1, v);
    assert(next_sibling_of(t1, v) == Some(s));
    lemma_detached(t1, v);
    let d1 = detached(t1, v);
    lemma_insert_remove(cs.remove(i), i - 1, v);
    assert(children_of(d1, p) == cs.remove(i));
    lemma_moved(t1, v, p, i);
    let t2 = moved(t1, v, p, i);
    assert(parent_of(t1, s) == Some(p));
    assert(moved_down(t1, v) == Some(t2));
    lemma_remove_insert(cs, i);
    assert forall|n: NodeId| #[trigger] t.dom().contains(n) implies t2[n] == t[n] by {
        assert(parent_of(t2, n) == parent_of(t, n));
        assert(data_of(t2, n) == data_of(t, n));
        if n != p && n != v {
            assert(children_of(t2, n) == children_of(t1, n));
        }
    }
    assert(t2 =~= t);
}

proof fn lemma_lift_back_up(t: Tree, root: NodeId, v: NodeId)
    requires
        tree_ok(t, root),
        t.dom().contains(v),
        v != root,
        prev_sibling_of(t, v) is None,
        moved_up(t, v) is Some,
    ensures
        moved_down(moved_up(t, v)->0, v) == Some(t),
{
    lemma_has_parent(t, root, v);
    let p = parent_of(t, v)->0;
    let cs = children_of(t, p);
    assert(cs.contains(v));
    let i = cs.index_of(v);
    assert(i == 0 && cs[0] == v);
    assert(t.dom().contains(p));
    lemma_prev_sibling(t, p);
    let ps = prev_sibling_of(t, p)->0;
    let g = parent_of(t, p)->0;
    let gs = children_of(t, g);
    assert(gs.contains(p));
    let j = gs.index_of(p);
    assert(j >= 1 && ps == gs[j - 1] && gs[j] == p);
    lemma_grandparent_apart(t, root, v);
    assert(reaches(t, g, g, 0));
    assert(g != v && g != p && ps != p && ps != v && g != ps);
    let cps = children_of(t, ps);
    lemma_detached(t, v);
    let d0 = detached(t, v);
    assert(children_of(d0, ps) == cps);
    assert(children_of(d0, p) == cs.remove(0));
    let at1 = cps.len() as int;
    lemma_moved(t, v, ps, at1);
    let t1 = moved(t, v, ps, at1);
    assert(moved_up(t, v) == Some(t1));
    assert(children_of(t1, ps) == cps.insert(at1, v));
    lemma_index_at(cps.insert(at1, v), at1, v);
    assert(next_sibling_of(t1, v) is None);
    assert(children_of(t1, g) == gs);
    assert(parent_of(t1, ps) == Some(g));
    lemma_index_at(gs, j - 1, ps);
    assert(next_sibling_of(t1, ps) == Some(p));
    lemma_detached(t1, v);
    let d1 = detached(t1, v);
    lemma_insert_remove(cps, at1, v);
    assert(children_of(d1, ps) == cps);
    assert(children_of(d1, p) == cs.remove(0));
    lemma_moved(t1, v, p, 0);
    let t2 = moved(t1, v, p, 0);
    assert(moved_down(t1, v) == Some(t2));
    lemma_remove_insert(cs, 0);
    assert forall|n: NodeId| #[trigger] t.dom().contains(n) implies t2[n] == t[n] by {
        assert(parent_of(t2, n) == parent_of(t, n));
        assert(data_of(t2, n) == data_of(t, n));
        if n == ps {
            assert(children_of(t2, ps) == children_of(d1, ps));
        } else if n != p && n != v {
            assert(children_of(t2, n) == children_of(t1, n));
        }
    }
    assert(t2 =~= t);
}

/// Moving an item down right after moving it up puts the tree back as it was:
/// a swap with the previous sibling is swapped back, and an item lifted to the
/// end of its parent's previous sibling returns to the start of its parent.
pub proof fn law_move_down_undoes_move_up(t: Tree, root: NodeId, v: NodeId)
    requires
        tree_ok(t, root),
        t.dom().contains(v),
        v != root,
        moved_up(t, v) is Some,
    ensures
        moved_down(moved_up(t, v)->0, v) == Some(t),
{
    if prev_sibling_of(t, v) is Some {
        lemma_swap_back_up(t, root, v);
    } else {
        lemma_lift_back_up(t, root, v);
    }
}

proof fn lemma_swap_back_down(t: Tree, root: NodeId, v: NodeId)
    requires
        tree_ok(t, root),
        t.dom().contains(v),
        v != root,
        next_sibling_of(t, v) is Some,
    ensures
        moved_up(moved_down(t, v)->0, v) == Some(t),
{
    lemma_has_parent(t, root, v);
    let p = parent_of(t, v)->0;
    let cs = children_of(t, p);
    lemma_next_sibling(t, v);
    let s = next_sibling_of(t, v)->0;
    assert(cs.contains(v));
    let i = cs.index_of(v);
    assert(i + 1 < cs.len() && s == cs[i + 1] && cs[i] == v);
    lemma_detached(t, v);
    let d0 = detached(t, v);
    assert(children_of(d0, p) == cs.remove(i));
    lemma_index_at(cs.remove(i), i, s);
    lemma_moved(t, v, p, i + 1);
    let t1 = moved(t, v, p, i + 1);
    assert(moved_down(t, v) == Some(t1));
    let l1 = cs.remove(i).insert(i + 1, v);
    assert(children_of(t1, p) == l1);
    assert(l1[i + 1] == v && l1[i] == s);
    lemma_index_at(l1, i + 1, v);
    assert(prev_sibling_of(t1, v) == Some(s));
    lemma_detached(t1, v);
    let d1 = detached(t1, v);
    lemma_insert_remove(cs.remove(i), i + 1, v);
    assert(children_of(d1, p) == cs.remove(i));
    lemma_moved(t1, v, p, i);
    let t2 = moved(t1, v, p, i);
    assert(parent_of(t1, s) == Some(p));
    assert(moved_up(t1, v) == Some(t2));
    lemma_remove_insert(cs, i);
    assert forall|n: NodeId| #[trigger] t.dom().contains(n) implies t2[n] == t[n] by {
        assert(parent_of(t2, n) == parent_of(t, n));
        assert(data_of(t2, n) == data_of(t, n));
        if n != p && n != v {
            assert(children_of(t2, n) == children_of(t1, n));
        }
    }
    assert(t2 =~= t);
}

proof fn lemma_lift_back_down(t: Tree, root: NodeId, v: NodeId)
    requires
        tree_ok(t, root),
        t.dom().contains(v),
        v != root,
        next_sibling_of(t, v) is None,
        moved_down(t, v) is Some,
    ensures
        moved_up(moved_down(t, v)->0, v) == Some(t),
{
    lemma_has_parent(t, root, v);
    let p = parent_of(t, v)->0;
    let cs = children_of(t, p);
    assert(cs.contains(v));
    let i = cs.index_of(v);
    assert(i == cs.len() - 1 && cs[i] == v);
    assert(t.dom().contains(p));
    lemma_next_sibling(t, p);
    let ns = next_sibling_of(t, p)->0;
    let g = parent_of(t, p)->0;
    let gs = children_of(t, g);
    assert(gs.contains(p));
    let j = gs.index_of(p);
    assert(j + 1 < gs.len() && ns == gs[j + 1] && gs[j] == p);
    lemma_grandparent_apart(t, root, v);
    assert(reaches(t, g, g, 0));
    assert(g != v && g != p && ns != p && ns != v && g != ns);
    let cns = children_of(t, ns);
    lemma_detached(t, v);
    let d0 = detached(t, v);
    assert(children_of(d0, ns) == cns);
    assert(children_of(d0, p) == cs.remove(i));
    lemma_moved(t, v, ns, 0);
    let t1 = moved(t, v, ns, 0);
    assert(moved_down(t, v) == Some(t1));
    assert(children_of(t1, ns) == cns.insert(0, v));
    lemma_index_at(cns.insert(0, v), 0, v);
    assert(prev_sibling_of(t1, v) is None);
    assert(children_of(t1, g) == gs);
    assert(parent_of(t1, ns) == Some(g));
    lemma_index_at(gs, j + 1, ns);
    assert(prev_sibling_of(t1, ns) == Some(p));
    lemma_detached(t1, v);
    let d1 = detached(t1, v);
    lemma_insert_remove(cns, 0, v);
    assert(children_of(d1, ns) == cns);
    assert(children_of(d1, p) == cs.remove(i));
    lemma_moved(t1, v, p, i);
    let t2 = moved(t1, v, p, i);
    assert(moved_up(t1, v) == Some(t2));
    lemma_remove_insert(cs, i);
    assert forall|n: NodeId| #[trigger] t.dom().contains(n) implies t2[n] == t[n] by {
        assert(parent_of(t2, n) == parent_of(t, n));
        assert(data_of(t2, n) == data_of(t, n));
        if n == ns {
            assert(children_of(t2, ns) == children_of(d1, ns));
        } else if n != p && n != v {
            assert(children_of(t2, n) == children_of(t1, n));
        }
    }
    assert(t2 =~= t);
}

/// Moving an item up right after moving it down puts the tree back as it was.
pub proof fn law_move_up_undoes_move_down(t: Tree, root: NodeId, v: NodeId)
    requires
        tree_ok(t, root),
        t.dom().contains(v),
        v != root,
        moved_down(t, v) is Some,
    ensures
        moved_up(moved_down(t, v)->0, v) == Some(t),
{
    if next_sibling_of(t, v) is Some {
        lemma_swap_back_down(t, root, v);
    } else {
        lemma_lift_back_down(t, root, v);
    }
}

/// The same vertices, each with the same node.
pub open spec fn keeps_items(t: Tree, t2: Tree) -> bool {
    &&& t2.dom() == t.dom()
    &&& forall|n: NodeId| #[trigger] t.dom().contains(n) ==> data_of(t2, n) == data_of(t, n)
}

proof fn lemma_appended_each(t: Tree, root: NodeId, v: NodeId, p: NodeId, fs: Seq<NodeId>)
    requires
        tree_ok(t, root),
        t.dom().contains(v),
        parent_of(t, v) == Some(p),
        fs.no_duplicates(),
        forall|j: int| 0 <= j < fs.len() ==> {
            &&& t.dom().contains(#[trigger] fs[j])
            &&& parent_of(t, fs[j]) == Some(p)
            &&& fs[j] != v
        },
    ensures
        tree_ok(appended_each(t, v, fs), root),
        keeps_items(t, appended_each(t, v, fs)),
        parent_of(appended_each(t, v, fs), v) == Some(p),
        children_of(appended_each(t, v, fs), v) == children_of(t, v) + fs,
        forall|n: NodeId| #[trigger] t.dom().contains(n) && !fs.contains(n) ==> parent_of(appended_each(t, v, fs), n) == parent_of(t, n),
    decreases fs.len(),
{
    if fs.len() > 0 {
        let init = fs.drop_last();
        let f = fs.last();
        assert(fs[fs.len() - 1] == f);
        assert forall|j: int| 0 <= j < init.len() implies {
            &&& t.dom().contains(#[trigger] init[j])
            &&& parent_of(t, init[j]) == Some(p)
            &&& init[j] != v
        } by {
            assert(init[j] == fs[j]);
        }
        lemma_appended_each(t, root, v, p, init);
        let t1 = appended_each(t, v, init);
        assert(!init.contains(f)) by {
            if init.contains(f) {
                let j = choose|j: int| 0 <= j < init.len() && init[j] == f;
                assert(fs[j] == fs[fs.len() - 1]);
            }
        }
        assert(parent_of(t1, f) == Some(p));
        lemma_siblings_apart(t1, root, f, v);
        let at = children_of(detached(t1, f), v).len() as int;
        lemma_moved_tree(t1, root, f, v, at);
        lemma_moved(t1, f, v, at);
        lemma_detached(t1, f);
        assert(v != p);
        assert(children_of(detached(t1, f), v) == children_of(t1, v));
        assert(children_of(t, v) + fs =~= (children_of(t, v) + init).insert(at, f));
        assert forall|n: NodeId| #[trigger] t.dom().contains(n) && !fs.contains(n) implies
            parent_of(appended_each(t, v, fs), n) == parent_of(t, n) by {
            if init.contains(n) {
                let j = choose|j: int| 0 <= j < init.len() && init[j] == n;
                assert(fs[j] == n);
            }
            assert(n != f);
        }
    } else {
        assert(children_of(t, v) + fs =~= children_of(t, v));
    }
}

/// Indenting, outdenting and moving an item rearrange the tree but keep every
/// item, with its text and fold, and keep the edited item.
pub proof fn law_rearranging_keeps_items(pre: Model, msg: Msg, caret: u32, post: Model, r: Result<Seq<Command>, UpdateError>)
    requires
        pre.wf(),
        msg is IndentNode || msg is OutdentNode || msg is MoveNodeUp || msg is MoveNodeDown,
        stepped(pre, msg, caret, post, r),
    ensures
        keeps_items(pre.nodes(), post.nodes()),
        post.editing() == pre.editing(),
{
    let t = pre.nodes();
    let root = pre.root_vertex();
    if pre.editing() is Some {
        let v = pre.editing()->0.vertex;
        lemma_has_parent(t, root, v);
        let p = parent_of(t, v)->0;
        assert(t.dom().contains(p));
        match msg {
            Msg::IndentNode => {
                if prev_sibling_of(t, v) is Some {
                    lemma_prev_sibling(t, v);
                    let s = prev_sibling_of(t, v)->0;
                    lemma_moved(t, v, s, children_of(detached(t, v), s).len() as int);
                }
            },
            Msg::OutdentNode => {
                if p != root {
                    lemma_following(t, v);
                    let fs = following_siblings_of(t, v);
                    lemma_appended_each(t, root, v, p, fs);
                    let t1 = appended_each(t, v, fs);
                    lemma_has_parent(t1, root, p);
                    let g = parent_of(t1, p)->0;
                    lemma_grandparent_apart(t1, root, v);
                    assert(reaches(t1, g, g, 0));
                    lemma_anchor_stays(t1, v, p);
                    lemma_moved(t1, v, g, children_of(detached(t1, v), g).index_of(p) + 1);
                }
            },
            Msg::MoveNodeUp => {
                if prev_sibling_of(t, v) is Some {
                    lemma_prev_sibling(t, v);
                    let s = prev_sibling_of(t, v)->0;
                    lemma_anchor_stays(t, v, s);
                    lemma_moved(t, v, p, children_of(detached(t, v), p).index_of(s));
                } else if prev_sibling_of(t, p) is Some {
                    lemma_prev_sibling(t, p);
                    let ps = prev_sibling_of(t, p)->0;
                    lemma_grandparent_apart(t, root, v);
                    lemma_moved(t, v, ps, children_of(detached(t, v), ps).len() as int);
                }
            },
            Msg::MoveNodeDown => {
                if next_sibling_of(t, v) is Some {
                    lemma_next_sibling(t, v);
                    let s = next_sibling_of(t, v)->0;
                    lemma_anchor_stays(t, v, s);
                    lemma_moved(t, v, p, children_of(detached(t, v), p).index_of(s) + 1);
                } else if next_sibling_of(t, p) is Some {
                    lemma_next_sibling(t, p);
                    let ns = next_sibling_of(t, p)->0;
                    lemma_grandparent_apart(t, root, v);
                    lemma_moved(t, v, ns, 0);
                }
            },
            _ => {},
        }
    }
}

/// Typing a text and then saving stores exactly that text in the edited item,
/// and nothing else changes in the tree.
pub proof fn law_save_keeps_typed_text(
    m0: Model,
    content: String,
    c1: u32,
    m1: Model,
    r1: Result<Seq<Command>, UpdateError>,
    c2: u32,
    m2: Model,
    r2: Result<Seq<Command>, UpdateError>,
)
    requires
        m0.wf(),
        m0.editing() is Some,
        stepped(m0, Msg::EditingNodeContentChanged(content), c1, m1, r1),
        stepped(m1, Msg::SaveEditedNodeContent, c2, m2, r2),
    ensures
        m2.nodes() == with_data(
            m0.nodes(),
            m0.editing()->0.vertex,
            Node { content: content, ..data_of(m0.nodes(), m0.editing()->0.vertex) },
        ),
        data_of(m2.nodes(), m0.editing()->0.vertex).content == content,
        m2.editing() is None,
{
}

/// Splitting the edited item adds exactly one item, right after it under the
/// same parent; the text before the caret (sent back as the edited text) and
/// the new item's text together are the edited text.
pub proof fn law_split_keeps_text(pre: Model, caret: u32, post: Model, r: Result<Seq<Command>, UpdateError>)
    requires
        pre.wf(),
        pre.editing() is Some,
        stepped(pre, Msg::InsertNewNode, caret, post, r),
        r is Ok,
    ensures
        exists|n: NodeId, left: String|
            {
                &&& !pre.nodes().dom().contains(n)
                &&& post.nodes().dom() == pre.nodes().dom().insert(n)
                &&& parent_of(post.nodes(), n) == parent_of(pre.nodes(), pre.editing()->0.vertex)
                &&& next_sibling_of(post.nodes(), pre.editing()->0.vertex) == Some(n)
                &&& r->Ok_0[0] == Command::Send(Msg::EditingNodeContentChanged(left))
                &&& r->Ok_0[2] == Command::Send(Msg::StartEditingNodeContent(Some(n)))
                &&& left@ + data_of(post.nodes(), n).content@ == pre.editing()->0.content@
            },
{
    let t = pre.nodes();
    let root = pre.root_vertex();
    let e = pre.editing()->0;
    let v = e.vertex;
    let (n, node, left) = choose|n: NodeId, node: Node, left: String|
        {
            &&& !pre.nodes().dom().contains(n)
            &&& node.content@ == crate::text::graphemes_of(e.content@).skip(caret as int).flatten()
            &&& !node.folded
            &&& left@ == crate::text::graphemes_of(e.content@).take(caret as int).flatten()
            &&& left@ + node.content@ == e.content@
            &&& post.nodes() == inserted_after(with_new(pre.nodes(), n, node), e.vertex, n)
            &&& post.editing() == pre.editing()
            &&& r == Ok::<Seq<Command>, UpdateError>(
                seq![
                    Command::Send(Msg::EditingNodeContentChanged(left)),
                    Command::Send(Msg::SaveEditedNodeContent),
                    Command::Send(Msg::StartEditingNodeContent(Some(n))),
                ],
            )
        };
    lemma_has_parent(t, root, v);
    let p = parent_of(t, v)->0;
    lemma_with_new(t, root, n, node);
    let t1 = with_new(t, n, node);
    assert(detached(t1, n) == t1);
    lemma_anchor_stays(t1, n, v);
    let cs = children_of(t1, p);
    let at = cs.index_of(v) + 1;
    lemma_moved(t1, n, p, at);
    let t2 = moved(t1, n, p, at);
    assert(t2 == post.nodes());
    assert(t2.dom() =~= t.dom().insert(n));
    let l = cs.insert(at, n);
    assert(children_of(t2, p) == l);
    assert(l[at - 1] == v && l[at] == n);
    lemma_index_at(l, at - 1, v);
    assert(next_sibling_of(t2, v) == Some(n));
    assert(data_of(t2, n) == node);
}

/// Deleting backward and then removing the old item, as the first step asks:
/// the old item is gone, every other item stays, and its text now ends the
/// target item's text.
pub proof fn law_merge_backward(
    pre: Model,
    c1: u32,
    mid: Model,
    r1: Result<Seq<Command>, UpdateError>,
    c2: u32,
    post: Model,
    r2: Result<Seq<Command>, UpdateError>,
)
    requires
        pre.wf(),
        mid.wf(),
        pre.editing() is Some,
        stepped(pre, Msg::DeleteNodeBackward, c1, mid, r1),
        r1 is Ok,
        r1->Ok_0.len() > 0,
        admits(mid, Msg::RemoveNode(pre.editing()->0.vertex)),
        stepped(mid, Msg::RemoveNode(pre.editing()->0.vertex), c2, post, r2),
    ensures
        post.nodes().dom() == pre.nodes().dom().remove(pre.editing()->0.vertex),
        post.editing() == mid.editing(),
        mid.editing() is Some,
        data_of(post.nodes(), mid.editing()->0.vertex).content@
            == data_of(pre.nodes(), mid.editing()->0.vertex).content@ + pre.editing()->0.content@,
{
    let v = pre.editing()->0.vertex;
    let d = mid.editing()->0.vertex;
    assert(mid.nodes().dom() =~= pre.nodes().dom());
    assert(v != mid.root_vertex());
    lemma_has_parent(mid.nodes(), mid.root_vertex(), v);
    lemma_removed(mid.nodes(), mid.root_vertex(), v);
}

/// Unfolding an item right after folding it restores the tree, when it was unfolded.
pub proof fn law_unfold_undoes_fold(
    pre: Model,
    v: NodeId,
    c1: u32,
    mid: Model,
    r1: Result<Seq<Command>, UpdateError>,
    c2: u32,
    post: Model,
    r2: Result<Seq<Command>, UpdateError>,
)
    requires
        pre.wf(),
        pre.nodes().dom().contains(v),
        !data_of(pre.nodes(), v).folded,
        stepped(pre, Msg::FoldChildren(v), c1, mid, r1),
        stepped(mid, Msg::UnfoldChildren(v), c2, post, r2),
    ensures
        post.nodes() == pre.nodes(),
        post.editing() == pre.editing(),
{
    assert(post.nodes() =~= pre.nodes());
}

/// Where the vertex `x` of the first outline stands in the second, when `order`
/// and `vs` list them in the same order.
pub open spec fn renamed(order: Seq<NodeId>, vs: Seq<NodeId>, x: NodeId) -> NodeId {
    vs[order.index_of(x)]
}

/// Loading what was stored gives back the same outline: the same items, each
/// with the same node, parent and children in the same order, under vertices
/// that may be renamed one for one.
pub proof fn law_load_after_store(m: Model, rows: Seq<StoredNode>, m2: Model)
    requires
        m.wf(),
        stores(m, rows),
        holds_rows(m2, rows),
    ensures
        exists|order: Seq<NodeId>, vs: Seq<NodeId>|
            {
                &&& order.len() == rows.len() && vs.len() == rows.len()
                &&& order.no_duplicates() && vs.no_duplicates()
                &&& forall|x: NodeId| #[trigger] m.nodes().dom().contains(x) <==> order.contains(x)
                &&& forall|x: NodeId| #[trigger] m2.nodes().dom().contains(x) <==> vs.contains(x)
                &&& order[0] == m.root_vertex() && vs[0] == m2.root_vertex()
                &&& forall|k: int| 0 <= k < rows.len() ==> {
                    &&& #[trigger] data_of(m2.nodes(), vs[k]) == data_of(m.nodes(), order[k])
                    &&& parent_of(m2.nodes(), vs[k]) == match parent_of(m.nodes(), order[k]) {
                        Some(p) => Some(renamed(order, vs, p)),
                        None => None,
                    }
                    &&& children_of(m2.nodes(), vs[k]) == children_of(m.nodes(), order[k]).map_values(
                        |x: NodeId| renamed(order, vs, x),
                    )
                }
            },
{
    let n = rows.len() as int;
    let order = choose|order: Seq<NodeId>| holds_rows_at(m.nodes(), rows, order, n) && order[0] == m.root_vertex();
    let vs = choose|vs: Seq<NodeId>|
        {
            &&& holds_rows_at(m2.nodes(), rows, vs, n)
            &&& m2.root_vertex() == vs[0]
            &&& m2.editing() is None
        };
    assert forall|k: int| 0 <= k < n implies {
        &&& #[trigger] data_of(m2.nodes(), vs[k]) == data_of(m.nodes(), order[k])
        &&& parent_of(m2.nodes(), vs[k]) == match parent_of(m.nodes(), order[k]) {
            Some(p) => Some(renamed(order, vs, p)),
            None => None,
        }
        &&& children_of(m2.nodes(), vs[k]) == children_of(m.nodes(), order[k]).map_values(|x: NodeId| renamed(order, vs, x))
    } by {
        assert(data_of(m.nodes(), order[k]) == (Node { id: rows[k].id, content: rows[k].content, folded: rows[k].folded }));
        assert(data_of(m2.nodes(), vs[k]) == (Node { id: rows[k].id, content: rows[k].content, folded: rows[k].folded }));
        if rows[k].parent is Some {
            let j = rows[k].parent->0 as int;
            if k >= 1 {
                assert(j < k);
            }
            lemma_index_at(order, j, order[j]);
        }
        let cr = child_rows(rows, k, n);
        lemma_child_rows_bounds(rows, k, n);
        assert forall|a: int| 0 <= a < cr.len() implies order.index_of(order[cr[a]]) == cr[a] by {
            lemma_index_at(order, cr[a], order[cr[a]]);
        }
        assert(children_of(m.nodes(), order[k]) == cr.map_values(|x: int| order[x]));
        assert(children_of(m2.nodes(), vs[k]) == cr.map_values(|x: int| vs[x]));
        assert(cr.map_values(|x: int| order[x]).map_values(|x: NodeId| renamed(order, vs, x)) =~= cr.map_values(|x: int| vs[x]));
    }
    assert(order.len() == rows.len() && vs.len() == rows.len());
    assert(order.no_duplicates() && vs.no_duplicates());
    assert(forall|x: NodeId| #[trigger] m.nodes().dom().contains(x) <==> order.contains(x));
    assert(forall|x: NodeId| #[trigger] m2.nodes().dom().contains(x) <==> vs.contains(x));
    assert(order[0] == m.root_vertex() && vs[0] == m2.root_vertex());
}

/// A message on which handling ends early changes nothing and asks for
/// nothing: indenting, outdenting or moving with no item being edited, and
/// outdenting an item whose parent is the root.
pub proof fn law_early_return_changes_nothing(
    pre: Model,
    msg: Msg,
    caret: u32,
    post: Model,
    r: Result<Seq<Command>, UpdateError>,
)
    requires
        pre.wf(),
        stepped(pre, msg, caret, post, r),
        returns_early(pre, msg),
    ensures
        same_state(pre, post),
        r == Ok::<Seq<Command>, UpdateError>(Seq::empty()),
{
}

/// No two items of `t` carry the same id.
pub open spec fn ids_distinct(t: Tree) -> bool {
    forall|a: NodeId, b: NodeId|
        t.dom().contains(a) && t.dom().contains(b) && a != b ==> #[trigger] data_of(t, a).id
            != #[trigger] data_of(t, b).id
}

/// The items of `t2` that `t` does not have carry ids that no item of `t` carries.
pub open spec fn new_ids_fresh(t: Tree, t2: Tree) -> bool {
    forall|n: NodeId, m: NodeId|
        t2.dom().contains(n) && !t.dom().contains(n) && t.dom().contains(m) ==> #[trigger] data_of(t2, n).id
            != #[trigger] data_of(t, m).id
}

/// An edit that keeps the id of every item it keeps and adds at most one item
/// keeps the ids distinct, if the added item's id is new.
proof fn lemma_ids_carry(t: Tree, t2: Tree)
    requires
        ids_distinct(t),
        new_ids_fresh(t, t2),
        forall|n: NodeId| t2.dom().contains(n) && t.dom().contains(n) ==> #[trigger] data_of(t2, n).id == data_of(t, n).id,
        forall|a: NodeId, b: NodeId|
            #![trigger t2.dom().contains(a), t2.dom().contains(b)]
            t2.dom().contains(a) && t2.dom().contains(b) && !t.dom().contains(a) && !t.dom().contains(b) ==> a == b,
    ensures
        ids_distinct(t2),
{
    assert forall|a: NodeId, b: NodeId| t2.dom().contains(a) && t2.dom().contains(b) && a != b implies #[trigger] data_of(
        t2,
        a,
    ).id != #[trigger] data_of(t2, b).id by {
        if t.dom().contains(a) && t.dom().contains(b) {
            assert(data_of(t, a).id != data_of(t, b).id);
        } else if t.dom().contains(a) {
            assert(data_of(t2, b).id != data_of(t, a).id);
        } else if t.dom().contains(b) {
            assert(data_of(t2, a).id != data_of(t, b).id);
        }
    }
}

/// Every message keeps the item ids pairwise distinct, provided the id that a
/// split draws for its new item is carried by no item yet. That id is drawn at
/// random, so nothing more is promised of it.
pub proof fn law_ids_stay_distinct(pre: Model, msg: Msg, caret: u32, post: Model, r: Result<Seq<Command>, UpdateError>)
    requires
        pre.wf(),
        admits(pre, msg),
        stepped(pre, msg, caret, post, r),
        ids_distinct(pre.nodes()),
        new_ids_fresh(pre.nodes(), post.nodes()),
    ensures
        ids_distinct(post.nodes()),
{
    let t = pre.nodes();
    let t2 = post.nodes();
    let root = pre.root_vertex();
    match msg {
        Msg::IndentNode | Msg::OutdentNode | Msg::MoveNodeUp | Msg::MoveNodeDown => {
            law_rearranging_keeps_items(pre, msg, caret, post, r);
            lemma_ids_carry(t, t2);
        },
        Msg::RemoveNode(v) => {
            lemma_has_parent(t, root, v);
            lemma_removed(t, root, v);
            lemma_ids_carry(t, t2);
        },
        Msg::InsertNewNode => {
            if pre.editing() is Some && r is Ok {
                let e = pre.editing()->0;
                assert(exists|n: NodeId, node: Node|
                    !t.dom().contains(n) && t2 == inserted_after(#[trigger] with_new(t, n, node), e.vertex, n));
                let (n, node) = choose|n: NodeId, node: Node|
                    !t.dom().contains(n) && t2 == inserted_after(#[trigger] with_new(t, n, node), e.vertex, n);
                lemma_has_parent(t, root, e.vertex);
                let q = parent_of(t, e.vertex)->0;
                assert(t.dom().contains(q));
                let t1 = with_new(t, n, node);
                assert(parent_of(t1, e.vertex) == Some(q));
                assert(detached(t1, n) == t1);
                assert(t2 == t1.insert(q, (parent_of(t1, q), children_of(t1, q).insert(children_of(t1, q).index_of(e.vertex) + 1, n), data_of(t1, q))).insert(n, (Some(q), children_of(t1, n), data_of(t1, n))));
                assert(t2.dom() =~= t.dom().insert(n));
                lemma_ids_carry(t, t2);
            } else {
                lemma_ids_carry(t, t2);
            }
        },
        _ => {
            lemma_ids_carry(t, t2);
        },
    }
}

/// Indenting the edited item, whenever it has a sibling before it, makes it
/// the last child of that sibling, takes it out of its parent's children,
/// keeps its own children under it, and asks to store the edited text and
/// edit the item again. Whether the item has children plays no part.
pub proof fn law_indent_moves_under_previous_sibling(
    pre: Model,
    caret: u32,
    post: Model,
    r: Result<Seq<Command>, UpdateError>,
)
    requires
        pre.wf(),
        pre.editing() is Some,
        prev_sibling_of(pre.nodes(), pre.editing()->0.vertex) is Some,
        stepped(pre, Msg::IndentNode, caret, post, r),
    ensures
        ({
            let t = pre.nodes();
            let v = pre.editing()->0.vertex;
            let s = prev_sibling_of(t, v)->0;
            let p = parent_of(t, v)->0;
            &&& parent_of(post.nodes(), v) == Some(s)
            &&& children_of(post.nodes(), s) == children_of(t, s).push(v)
            &&& children_of(post.nodes(), v) == children_of(t, v)
            &&& children_of(post.nodes(), p) == children_of(t, p).remove(children_of(t, p).index_of(v))
            &&& post.nodes().dom() == t.dom()
            &&& post.editing() == pre.editing()
            &&& r == Ok::<Seq<Command>, UpdateError>(
                seq![Command::Send(Msg::SaveEditedNodeContent), Command::Send(Msg::StartEditingNodeContent(Some(v)))],
            )
        }),
{
    let t = pre.nodes();
    let v = pre.editing()->0.vertex;
    lemma_has_parent(t, pre.root_vertex(), v);
    lemma_prev_sibling(t, v);
    let s = prev_sibling_of(t, v)->0;
    let p = parent_of(t, v)->0;
    lemma_detached(t, v);
    assert(s != p);
    assert(children_of(detached(t, v), s) == children_of(t, s));
    let at = children_of(t, s).len() as int;
    lemma_moved(t, v, s, at);
    assert(children_of(t, s).insert(at, v) =~= children_of(t, s).push(v));
    assert(p != v);
}

/// Outdenting the edited item, whenever its parent is not the root, makes it
/// the sibling right after its parent, under its grandparent; the siblings
/// that followed it become its last children, after its own, in order; and
/// the edited text is stored and the item edited again. Whether the item has
/// children plays no part.
pub proof fn law_outdent_moves_after_parent(
    pre: Model,
    caret: u32,
    post: Model,
    r: Result<Seq<Command>, UpdateError>,
)
    requires
        pre.wf(),
        pre.editing() is Some,
        parent_of(pre.nodes(), pre.editing()->0.vertex) != Some(pre.root_vertex()),
        stepped(pre, Msg::OutdentNode, caret, post, r),
    ensures
        ({
            let t = pre.nodes();
            let v = pre.editing()->0.vertex;
            let p = parent_of(t, v)->0;
            let g = parent_of(t, p)->0;
            &&& parent_of(t, p) is Some
            &&& parent_of(post.nodes(), v) == Some(g)
            &&& parent_of(post.nodes(), p) == Some(g)
            &&& next_sibling_of(post.nodes(), p) == Some(v)
            &&& children_of(post.nodes(), v) == children_of(t, v) + following_siblings_of(t, v)
            &&& post.nodes().dom() == t.dom()
            &&& post.editing() == pre.editing()
            &&& r == Ok::<Seq<Command>, UpdateError>(
                seq![Command::Send(Msg::SaveEditedNodeContent), Command::Send(Msg::StartEditingNodeContent(Some(v)))],
            )
        }),
{
    let t = pre.nodes();
    let root = pre.root_vertex();
    let v = pre.editing()->0.vertex;
    lemma_has_parent(t, root, v);
    let p = parent_of(t, v)->0;
    assert(t.dom().contains(p));
    lemma_has_parent(t, root, p);
    let g = parent_of(t, p)->0;
    lemma_following(t, v);
    let fs = following_siblings_of(t, v);
    lemma_appended_each(t, root, v, p, fs);
    let t1 = appended_each(t, v, fs);
    assert(!fs.contains(p)) by {
        if fs.contains(p) {
            let j = choose|j: int| 0 <= j < fs.len() && fs[j] == p;
            assert(parent_of(t, fs[j]) == Some(p));
        }
    }
    assert(parent_of(t1, p) == Some(g));
    lemma_has_parent(t1, root, p);
    lemma_grandparent_apart(t1, root, v);
    assert(reaches(t1, g, g, 0));
    lemma_anchor_stays(t1, v, p);
    let x = children_of(detached(t1, v), g);
    let at = x.index_of(p) + 1;
    lemma_moved(t1, v, g, at);
    let t2 = moved(t1, v, g, at);
    assert(t2 == outdented(t, v));
    lemma_moved_tree(t1, root, v, g, at);
    let l = children_of(t2, g);
    assert(l == x.insert(at, v));
    assert(l[at - 1] == p && l[at] == v);
    assert(p != v);
    assert(parent_of(t2, p) == Some(g));
    lemma_index_at(l, at - 1, p);
}

/// What Backspace at the start of the edited item merges it into, if
/// anything: an item without children merges into the last item of the
/// subtree of the sibling before it, or, if it is the first child of an item
/// other than the root, into that parent; an item with children merges only
/// into a sibling right before it that has no children. In every other case
/// nothing changes and nothing is asked.
pub open spec fn merge_target(t: Tree, root: NodeId, v: NodeId, d: NodeId) -> bool {
    if children_of(t, v).len() == 0 {
        match prev_sibling_of(t, v) {
            Some(s) => exists|k: nat| last_leaf(t, s, d, k),
            None => parent_of(t, v) == Some(d) && d != root,
        }
    } else {
        prev_sibling_of(t, v) == Some(d) && children_of(t, d).len() == 0
    }
}

/// The edited item's text is appended to the text of `d`, which becomes the
/// edited item with the caret at its start; nothing else in the tree changes;
/// the old item is sent for removal and the caret is shown where the texts meet.
pub open spec fn merged_into(pre: Model, post: Model, r: Result<Seq<Command>, UpdateError>, d: NodeId) -> bool {
    let t = pre.nodes();
    let e = pre.editing()->0;
    let old_node = data_of(t, d);
    let merged = data_of(post.nodes(), d);
    &&& merged.content@ == old_node.content@ + e.content@
    &&& merged.id == old_node.id
    &&& merged.folded == old_node.folded
    &&& post.nodes().dom() == t.dom()
    &&& parent_of(post.nodes(), d) == parent_of(t, d)
    &&& children_of(post.nodes(), d) == children_of(t, d)
    &&& forall|n: NodeId| #[trigger] t.dom().contains(n) && n != d ==> post.nodes()[n] == t[n]
    &&& post.editing() == Some(EditingNode { id: old_node.id, content: merged.content, vertex: d, caret_position: 0 })
    &&& r == Ok::<Seq<Command>, UpdateError>(
        seq![
            Command::Send(Msg::RemoveNode(e.vertex)),
            Command::FocusContentAt(graphemes_of(old_node.content@).len() as u32),
        ],
    )
}

/// Backspace at the start of the edited item merges it into the item that
/// `merge_target` names, where there is one; an item with children and no
/// sibling before it, an item with children whose previous sibling has
/// children too, and a first child of the root without children merge into
/// nothing, and then nothing changes and nothing is asked.
pub proof fn law_delete_backward_target(pre: Model, caret: u32, post: Model, r: Result<Seq<Command>, UpdateError>)
    requires
        pre.wf(),
        pre.editing() is Some,
        stepped(pre, Msg::DeleteNodeBackward, caret, post, r),
    ensures
        ({
            let t = pre.nodes();
            let root = pre.root_vertex();
            let v = pre.editing()->0.vertex;
            let has_kids = children_of(t, v).len() > 0;
            &&& (has_kids && prev_sibling_of(t, v) is None) ==> (same_state(pre, post) && r == Ok::<
                Seq<Command>,
                UpdateError,
            >(Seq::empty()))
            &&& (has_kids && prev_sibling_of(t, v) is Some && children_of(t, prev_sibling_of(t, v)->0).len() > 0)
                ==> (same_state(pre, post) && r == Ok::<Seq<Command>, UpdateError>(Seq::empty()))
            &&& (!has_kids && prev_sibling_of(t, v) is None && parent_of(t, v) == Some(root)) ==> (same_state(
                pre,
                post,
            ) && r == Ok::<Seq<Command>, UpdateError>(Seq::empty()))
            &&& (has_kids && prev_sibling_of(t, v) is Some && children_of(t, prev_sibling_of(t, v)->0).len() == 0)
                ==> merged_into(pre, post, r, prev_sibling_of(t, v)->0)
            &&& (!has_kids && prev_sibling_of(t, v) is None && parent_of(t, v) != Some(root)) ==> (merged_into(
                pre,
                post,
                r,
                parent_of(t, v)->0,
            ) && merge_target(t, root, v, parent_of(t, v)->0))
            &&& (!has_kids && prev_sibling_of(t, v) is Some && (exists|d: NodeId, k: nat|
                last_leaf(t, prev_sibling_of(t, v)->0, d, k))) ==> (post.editing() is Some && merged_into(
                pre,
                post,
                r,
                post.editing()->0.vertex,
            ) && merge_target(t, root, v, post.editing()->0.vertex))
        }),
{
    let t = pre.nodes();
    let root = pre.root_vertex();
    let v = pre.editing()->0.vertex;
    lemma_has_parent(t, root, v);
    let p = parent_of(t, v)->0;
    assert(t.dom().contains(p));
    if prev_sibling_of(t, v) is Some {
        lemma_prev_sibling(t, v);
        let s = prev_sibling_of(t, v)->0;
        if children_of(t, v).len() == 0 {
            if exists|d: NodeId, k: nat| last_leaf(t, s, d, k) {
                let (d, k) = choose|d: NodeId, k: nat| last_leaf(t, s, d, k);
                lemma_last_leaf(t, s, d, k);
                assert(merge_target(t, root, v, d));
                assert(post.nodes().dom() =~= t.dom());
            }
        } else if children_of(t, s).len() == 0 {
            assert(post.nodes().dom() =~= t.dom());
        }
    } else if children_of(t, v).len() == 0 && p != root {
        assert(post.nodes().dom() =~= t.dom());
    }
}

/// Under the title and under every item that is not folded, the items drawn
/// are exactly its children in the tree, in their order; under a folded item
/// other than the title, none.
pub proof fn law_drawn_children(m: Model, v: NodeId)
    requires
        m.wf(),
        m.nodes().dom().contains(v),
    ensures
        (v == m.root_vertex() || !data_of(m.nodes(), v).folded) ==> shown_children(m, v) == children_of(
            m.nodes(),
            v,
        ),
        (v != m.root_vertex() && data_of(m.nodes(), v).folded) ==> shown_children(m, v).len() == 0,
{
}

/// Meta and Ctrl are interchangeable: a key pressed with Meta alone is
/// answered as the same key pressed with Ctrl alone.
pub proof fn law_meta_acts_as_ctrl(k: KeyPress, deletable: bool)
    requires
        k.meta,
        !k.ctrl,
    ensures
        key_reaction(k, deletable) == key_reaction(
            KeyPress { key: k.key, key_code: k.key_code, is_composing: k.is_composing, shift: k.shift, ctrl: true, meta: false },
            deletable,
        ),
{
}

/// Outside text composition, ArrowUp or ArrowDown with exactly one of Ctrl
/// and Meta held moves the edited item up or down, and the browser's own
/// handling of the key is prevented.
pub proof fn law_arrows_move(k: KeyPress, deletable: bool)
    requires
        !k.is_composing,
        (k.ctrl && !k.meta) || (k.meta && !k.ctrl),
        k.key@ == "ArrowUp"@ || k.key@ == "ArrowDown"@,
    ensures
        key_reaction(k, deletable) == Some(
            KeyReaction {
                msg: if k.key@ == "ArrowUp"@ { Msg::MoveNodeUp } else { Msg::MoveNodeDown },
                prevent_default: true,
            },
        ),
{
    reveal_strlit("ArrowUp");
    reveal_strlit("ArrowDown");
    reveal_strlit("Enter");
    reveal_strlit("Backspace");
    reveal_strlit("Tab");
    assert("ArrowUp"@.len() == 7 && "ArrowDown"@.len() == 9 && "Enter"@.len() == 5);
    assert("Backspace"@.len() == 9 && "Tab"@.len() == 3);
    assert("ArrowUp"@ != "Enter"@ && "ArrowUp"@ != "Backspace"@ && "ArrowUp"@ != "Tab"@);
    assert("ArrowDown"@[0] != "Backspace"@[0]);
    assert("ArrowDown"@ != "Enter"@ && "ArrowDown"@ != "Backspace"@ && "ArrowDown"@ != "Tab"@);
    assert("ArrowDown"@[5] != "ArrowUp"@[5]);
    assert("ArrowDown"@ != "ArrowUp"@);
}

/// Outside text composition: Enter splits the edited item and Backspace, at
/// the start of the edited item, deletes backward (both unless the key code
/// is 229, a composition in progress); Tab indents and Shift+Tab outdents. A
/// key in composition does nothing, and whether Backspace may delete matters
/// for no other key.
pub proof fn law_keys_answered(k: KeyPress, deletable: bool)
    ensures
        k.is_composing ==> key_reaction(k, deletable) is None,
        (!k.is_composing && k.key_code != 229 && k.key@ == "Enter"@) ==> key_reaction(k, deletable) == Some(
            KeyReaction { msg: Msg::InsertNewNode, prevent_default: true },
        ),
        (!k.is_composing && k.key_code != 229 && k.key@ == "Backspace"@) ==> key_reaction(k, deletable) == if deletable {
            Some(KeyReaction { msg: Msg::DeleteNodeBackward, prevent_default: false })
        } else {
            None::<KeyReaction>
        },
        (!k.is_composing && k.key@ == "Tab"@) ==> key_reaction(k, deletable) == Some(
            KeyReaction { msg: if k.shift { Msg::OutdentNode } else { Msg::IndentNode }, prevent_default: true },
        ),
        k.key@ != "Backspace"@ ==> key_reaction(k, true) == key_reaction(k, false),
{
    reveal_strlit("ArrowUp");
    reveal_strlit("ArrowDown");
    reveal_strlit("Enter");
    reveal_strlit("Backspace");
    reveal_strlit("Tab");
    assert("ArrowUp"@.len() == 7 && "ArrowDown"@.len() == 9 && "Enter"@.len() == 5);
    assert("Backspace"@.len() == 9 && "Tab"@.len() == 3);
    assert("ArrowDown"@[0] != "Backspace"@[0]);
    assert("Backspace"@ != "Enter"@ && "Backspace"@ != "Tab"@ && "Backspace"@ != "ArrowUp"@ && "Backspace"@
        != "ArrowDown"@);
    assert("Tab"@ != "Enter"@ && "Tab"@ != "ArrowUp"@ && "Tab"@ != "ArrowDown"@);
}

/// Moving the edited item up: where a sibling precedes it, the item trades
/// places with that sibling, under the same parent; where none does but its
/// parent has a sibling before it, the item becomes that item's last child;
/// otherwise nothing changes and nothing is asked. The item keeps its own
/// children, and after a move the edited text is stored and the item edited
/// again.
pub proof fn law_move_up_places(pre: Model, caret: u32, post: Model, r: Result<Seq<Command>, UpdateError>)
    requires
        pre.wf(),
        pre.editing() is Some,
        stepped(pre, Msg::MoveNodeUp, caret, post, r),
    ensures
        ({
            let t = pre.nodes();
            let v = pre.editing()->0.vertex;
            let p = parent_of(t, v)->0;
            let moved_cmds = Ok::<Seq<Command>, UpdateError>(
                seq![Command::Send(Msg::SaveEditedNodeContent), Command::Send(Msg::StartEditingNodeContent(Some(v)))],
            );
            &&& prev_sibling_of(t, v) is Some ==> {
                &&& parent_of(post.nodes(), v) == Some(p)
                &&& next_sibling_of(post.nodes(), v) == prev_sibling_of(t, v)
                &&& children_of(post.nodes(), v) == children_of(t, v)
                &&& post.editing() == pre.editing()
                &&& r == moved_cmds
            }
            &&& (prev_sibling_of(t, v) is None && prev_sibling_of(t, p) is Some) ==> {
                let ps = prev_sibling_of(t, p)->0;
                &&& parent_of(post.nodes(), v) == Some(ps)
                &&& children_of(post.nodes(), ps) == children_of(t, ps).push(v)
                &&& children_of(post.nodes(), v) == children_of(t, v)
                &&& post.editing() == pre.editing()
                &&& r == moved_cmds
            }
            &&& (prev_sibling_of(t, v) is None && prev_sibling_of(t, p) is None) ==> (same_state(pre, post) && r
                == Ok::<Seq<Command>, UpdateError>(Seq::empty()))
        }),
{
    let t = pre.nodes();
    let root = pre.root_vertex();
    let v = pre.editing()->0.vertex;
    lemma_has_parent(t, root, v);
    let p = parent_of(t, v)->0;
    assert(t.dom().contains(p));
    assert(p != v);
    if prev_sibling_of(t, v) is Some {
        lemma_prev_sibling(t, v);
        let s = prev_sibling_of(t, v)->0;
        lemma_anchor_stays(t, v, s);
        let x = children_of(detached(t, v), p);
        let at = x.index_of(s);
        lemma_moved(t, v, p, at);
        let t2 = moved(t, v, p, at);
        let l = children_of(t2, p);
        assert(l == x.insert(at, v));
        assert(l[at] == v && l[at + 1] == s);
        lemma_index_at(l, at, v);
    } else if prev_sibling_of(t, p) is Some {
        lemma_prev_sibling(t, p);
        let ps = prev_sibling_of(t, p)->0;
        lemma_grandparent_apart(t, root, v);
        lemma_detached(t, v);
        assert(ps != p);
        assert(children_of(detached(t, v), ps) == children_of(t, ps));
        let at = children_of(t, ps).len() as int;
        lemma_moved(t, v, ps, at);
        assert(children_of(t, ps).insert(at, v) =~= children_of(t, ps).push(v));
    }
}

/// Moving the edited item down: where a sibling follows it, the item trades
/// places with that sibling, under the same parent; where none does but its
/// parent has a sibling after it, the item becomes that item's first child;
/// otherwise nothing changes and nothing is asked. The item keeps its own
/// children, and after a move the edited text is stored and the item edited
/// again.
pub proof fn law_move_down_places(pre: Model, caret: u32, post: Model, r: Result<Seq<Command>, UpdateError>)
    requires
        pre.wf(),
        pre.editing() is Some,
        stepped(pre, Msg::MoveNodeDown, caret, post, r),
    ensures
        ({
            let t = pre.nodes();
            let v = pre.editing()->0.vertex;
            let p = parent_of(t, v)->0;
            let moved_cmds = Ok::<Seq<Command>, UpdateError>(
                seq![Command::Send(Msg::SaveEditedNodeContent), Command::Send(Msg::StartEditingNodeContent(Some(v)))],
            );
            &&& next_sibling_of(t, v) is Some ==> {
                &&& parent_of(post.nodes(), v) == Some(p)
                &&& prev_sibling_of(post.nodes(), v) == next_sibling_of(t, v)
                &&& children_of(post.nodes(), v) == children_of(t, v)
                &&& post.editing() == pre.editing()
                &&& r == moved_cmds
            }
            &&& (next_sibling_of(t, v) is None && next_sibling_of(t, p) is Some) ==> {
                let ns = next_sibling_of(t, p)->0;
                &&& parent_of(post.nodes(), v) == Some(ns)
                &&& children_of(post.nodes(), ns) == seq![v] + children_of(t, ns)
                &&& children_of(post.nodes(), v) == children_of(t, v)
                &&& post.editing() == pre.editing()
                &&& r == moved_cmds
            }
            &&& (next_sibling_of(t, v) is None && next_sibling_of(t, p) is None) ==> (same_state(pre, post) && r
                == Ok::<Seq<Command>, UpdateError>(Seq::empty()))
        }),
{
    let t = pre.nodes();
    let root = pre.root_vertex();
    let v = pre.editing()->0.vertex;
    lemma_has_parent(t, root, v);
    let p = parent_of(t, v)->0;
    assert(t.dom().contains(p));
    assert(p != v);
    if next_sibling_of(t, v) is Some {
        lemma_next_sibling(t, v);
        let s = next_sibling_of(t, v)->0;
        lemma_anchor_stays(t, v, s);
        let x = children_of(detached(t, v), p);
        let at = x.index_of(s) + 1;
        lemma_moved(t, v, p, at);
        let t2 = moved(t, v, p, at);
        let l = children_of(t2, p);
        assert(l == x.insert(at, v));
        assert(l[at] == v && l[at - 1] == s);
        lemma_index_at(l, at, v);
    } else if next_sibling_of(t, p) is Some {
        lemma_next_sibling(t, p);
        let ns = next_sibling_of(t, p)->0;
        lemma_grandparent_apart(t, root, v);
        lemma_detached(t, v);
        assert(ns != p);
        assert(children_of(detached(t, v), ns) == children_of(t, ns));
        lemma_moved(t, v, ns, 0);
        assert(children_of(t, ns).insert(0, v) =~= seq![v] + children_of(t, ns));
    }
}

} // verus!

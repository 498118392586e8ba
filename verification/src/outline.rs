//! The outline editor's state and how each message changes it.

use vstd::prelude::*;
use generational_indextree::{Arena, NodeId};
use crate::arena::{
    append_child, arena_nodes, find_node, insert_sibling_after, insert_sibling_before, later_sibling_vertices,
    node_at, parent_vertex, prepend_child, previous_sibling_vertex, next_sibling_vertex, remove_vertex,
    same_vertex, store_node, new_vertex, first_child_vertex, preceding_sibling_vertex,
    nearest_ancestor_vertex, last_descendant_vertex, vertex_count,
};
use crate::text::{graphemes, graphemes_of, split_graphemes, views};
use crate::ids::new_random_id;
use crate::forest::{
    Node, Tree, appended, children_of, data_of, detached, first_child_of, following_siblings_of,
    inserted_after, inserted_before, next_sibling_of, parent_of, prepended, prev_sibling_of, reaches,
    removed, tree_ok, with_data, with_new, last_leaf, moved,
};
use crate::forest_proofs::{
    lemma_anchor_stays, lemma_following, lemma_grandparent_apart, lemma_has_parent, lemma_moved,
    lemma_moved_tree, lemma_next_sibling, lemma_parent_apart, lemma_prev_sibling, lemma_removed,
    lemma_siblings_apart, lemma_uncle_apart, lemma_with_data, lemma_with_new, lemma_reparent_rooted,
    lemma_last_leaf, lemma_last_leaf_unique,
};

verus! {

/// The item being edited, with the text typed so far.
#[derive(Debug, PartialEq, Eq)]
pub struct EditingNode {
    pub id: u128,
    pub content: String,
    pub vertex: NodeId,
    pub caret_position: u32,
}

/// The editor's state: the outline's tree, its root (the title), and the item
/// being edited, if any.
pub struct Model {
    tree: Arena<Node>,
    root: NodeId,
    editing_node: Option<EditingNode>,
}

/// A message to the editor.
#[derive(Debug, PartialEq, Eq)]
pub enum Msg {
    StartEditingNodeContent(Option<NodeId>),
    EditingNodeContentChanged(String),
    SaveEditedNodeContent,
    InsertNewNode,
    DeleteNodeBackward,
    RemoveNode(NodeId),
    CaretPositionChanged,
    IndentNode,
    OutdentNode,
    MoveNodeUp,
    MoveNodeDown,
    FoldChildren(NodeId),
    UnfoldChildren(NodeId),
}

/// What the editor asks of its surroundings after a message.
#[derive(Debug, PartialEq, Eq)]
pub enum Command {
    /// Handle this message next.
    Send(Msg),
    /// After the next render, focus the edited item's text.
    FocusContent,
    /// After the next render, focus the edited item's text and put the caret
    /// at this offset.
    FocusContentAt(u32),
}

/// Why a message could not be handled.
#[derive(Debug, PartialEq, Eq)]
pub enum UpdateError {
    /// The caret stands past the last grapheme of the edited text.
    CaretBeyondContent,
}

impl Model {
    /// The outline's tree.
    pub closed spec fn nodes(&self) -> Tree {
        arena_nodes(self.tree)
    }

    /// The outline's root, whose text is the title.
    pub closed spec fn root_vertex(&self) -> NodeId {
        self.root
    }

    /// The item being edited.
    pub closed spec fn editing(&self) -> Option<EditingNode> {
        self.editing_node
    }

    /// The state is consistent: the tree is a tree under the root, and the
    /// edited item is a live vertex other than the root.
    pub open spec fn wf(&self) -> bool {
        &&& tree_ok(self.nodes(), self.root_vertex())
        &&& (self.editing() matches Some(e) ==> self.nodes().dom().contains(e.vertex) && e.vertex != self.root_vertex())
    }

    /// A state with `tree` under `root`, editing nothing.
    pub(crate) fn from_tree(tree: Arena<Node>, root: NodeId) -> (m: Model)
        requires
            tree_ok(arena_nodes(tree), root),
        ensures
            m.wf(),
            m.nodes() == arena_nodes(tree),
            m.root_vertex() == root,
            m.editing() is None,
    {
        Model { tree: tree, root: root, editing_node: None }
    }

    /// The arena that stores the tree, to read it.
    pub fn tree(&self) -> (r: &Arena<Node>)
        ensures
            arena_nodes(*r) == self.nodes(),
    {
        &self.tree
    }

    /// The root's vertex.
    pub fn root(&self) -> (r: NodeId)
        ensures
            r == self.root_vertex(),
    {
        self.root
    }

    /// The item being edited, if any.
    pub fn editing_node(&self) -> (r: &Option<EditingNode>)
        ensures
            *r == self.editing(),
    {
        &self.editing_node
    }
}

// ------ What each message does ------

/// Nothing changed.
pub open spec fn same_state(pre: Model, post: Model) -> bool {
    post.nodes() == pre.nodes() && post.editing() == pre.editing()
}

/// Focusing the item at `v` starts editing it, with its text, at the caret.
pub open spec fn start_editing_effect(pre: Model, v: NodeId, caret: u32, post: Model, cmds: Seq<Command>) -> bool {
    if pre.nodes().dom().contains(v) {
        &&& post.nodes() == pre.nodes()
        &&& post.editing() == Some(
            EditingNode {
                id: data_of(pre.nodes(), v).id,
                content: data_of(pre.nodes(), v).content,
                vertex: v,
                caret_position: caret,
            },
        )
        &&& cmds == seq![Command::FocusContent]
    } else {
        same_state(pre, post) && cmds == Seq::<Command>::empty()
    }
}

/// The edited text becomes `content`.
pub open spec fn content_changed_effect(pre: Model, content: String, post: Model) -> bool {
    &&& post.nodes() == pre.nodes()
    &&& post.editing() == match pre.editing() {
        Some(e) => Some(EditingNode { content: content, ..e }),
        None => None,
    }
}

/// The edited text is stored in the item, and editing stops.
pub open spec fn save_effect(pre: Model, post: Model) -> bool {
    match pre.editing() {
        Some(e) => {
            &&& post.editing() is None
            &&& post.nodes() == with_data(
                pre.nodes(),
                e.vertex,
                Node { content: e.content, ..data_of(pre.nodes(), e.vertex) },
            )
        },
        None => same_state(pre, post),
    }
}

/// The caret of the edited item moves to `caret`.
pub open spec fn caret_effect(pre: Model, caret: u32, post: Model) -> bool {
    &&& post.nodes() == pre.nodes()
    &&& post.editing() == match pre.editing() {
        Some(e) => Some(EditingNode { caret_position: caret, ..e }),
        None => None,
    }
}

/// The item at `v` is folded (its children hidden) or unfolded.
pub open spec fn fold_effect(pre: Model, v: NodeId, folded: bool, post: Model) -> bool {
    &&& post.editing() == pre.editing()
    &&& post.nodes() == with_data(pre.nodes(), v, Node { folded: folded, ..data_of(pre.nodes(), v) })
}

/// The item at `v` is removed; its children take its place.
pub open spec fn remove_effect(pre: Model, v: NodeId, post: Model) -> bool {
    &&& post.editing() == pre.editing()
    &&& post.nodes() == removed(pre.nodes(), v)
}

impl Model {
    fn start_editing(&mut self, v: NodeId, caret: u32) -> (cmds: Vec<Command>)
        requires
            old(self).wf(),
            v != old(self).root_vertex(),
        ensures
            final(self).wf(),
            final(self).root_vertex() == old(self).root_vertex(),
            start_editing_effect(*old(self), v, caret, *final(self), cmds@),
    {
        let found = find_node(&self.tree, v);
        match found {
            Some(node) => {
                let e = EditingNode {
                    id: node.id,
                    content: node.content.clone(),
                    vertex: v,
                    caret_position: caret,
                };
                self.editing_node = Some(e);
                let mut cmds = Vec::new();
                cmds.push(Command::FocusContent);
                cmds
            },
            None => Vec::new(),
        }
    }

    fn stop_editing(&mut self)
        requires
            old(self).wf(),
        ensures
            final(self).wf(),
            final(self).root_vertex() == old(self).root_vertex(),
            final(self).nodes() == old(self).nodes(),
            final(self).editing() is None,
    {
        self.editing_node = None;
    }

    fn change_content(&mut self, content: String)
        requires
            old(self).wf(),
        ensures
            final(self).wf(),
            final(self).root_vertex() == old(self).root_vertex(),
            content_changed_effect(*old(self), content, *final(self)),
    {
        match self.editing_node.take() {
            Some(e) => {
                self.editing_node = Some(EditingNode { content: content, ..e });
            },
            None => {},
        }
    }

    fn save_content(&mut self)
        requires
            old(self).wf(),
        ensures
            final(self).wf(),
            final(self).root_vertex() == old(self).root_vertex(),
            save_effect(*old(self), *final(self)),
    {
        match self.editing_node.take() {
            Some(e) => {
                let node = node_at(&self.tree, e.vertex);
                let data = Node { id: node.id, content: e.content, folded: node.folded };
                proof {
                    lemma_with_data(arena_nodes(self.tree), self.root, e.vertex, data);
                }
                store_node(&mut self.tree, e.vertex, data);
            },
            None => {},
        }
    }

    fn move_caret(&mut self, caret: u32)
        requires
            old(self).wf(),
        ensures
            final(self).wf(),
            final(self).root_vertex() == old(self).root_vertex(),
            caret_effect(*old(self), caret, *final(self)),
    {
        match self.editing_node.take() {
            Some(e) => {
                self.editing_node = Some(EditingNode { caret_position: caret, ..e });
            },
            None => {},
        }
    }

    fn set_folded(&mut self, v: NodeId, folded: bool)
        requires
            old(self).wf(),
            old(self).nodes().dom().contains(v),
        ensures
            final(self).wf(),
            final(self).root_vertex() == old(self).root_vertex(),
            fold_effect(*old(self), v, folded, *final(self)),
    {
        let node = node_at(&self.tree, v);
        let data = Node { id: node.id, content: node.content.clone(), folded: folded };
        proof {
            lemma_with_data(arena_nodes(self.tree), self.root, v, data);
        }
        store_node(&mut self.tree, v, data);
    }

    fn remove_node(&mut self, v: NodeId)
        requires
            old(self).wf(),
            old(self).nodes().dom().contains(v),
            v != old(self).root_vertex(),
            old(self).editing() matches Some(e) ==> e.vertex != v,
        ensures
            final(self).wf(),
            final(self).root_vertex() == old(self).root_vertex(),
            remove_effect(*old(self), v, *final(self)),
    {
        proof {
            lemma_has_parent(arena_nodes(self.tree), self.root, v);
            lemma_removed(arena_nodes(self.tree), self.root, v);
        }
        remove_vertex(&mut self.tree, v);
    }
}

// ------ Rearranging the tree ------

/// `v` made the last child of the sibling before it.
pub open spec fn indented(t: Tree, v: NodeId) -> Tree {
    appended(t, prev_sibling_of(t, v)->0, v)
}

/// Each of `fs`, in order, made the last child of `v`.
pub open spec fn appended_each(t: Tree, v: NodeId, fs: Seq<NodeId>) -> Tree
    decreases fs.len(),
{
    if fs.len() == 0 {
        t
    } else {
        appended(appended_each(t, v, fs.drop_last()), v, fs.last())
    }
}

/// `v` made the sibling after its parent; the siblings that followed `v`
/// become its last children, in order.
pub open spec fn outdented(t: Tree, v: NodeId) -> Tree {
    inserted_after(appended_each(t, v, following_siblings_of(t, v)), parent_of(t, v)->0, v)
}

/// `v` moved one place up: before the sibling before it, or else to the end of
/// the children of its parent's previous sibling; `None` where neither exists.
pub open spec fn moved_up(t: Tree, v: NodeId) -> Option<Tree> {
    match prev_sibling_of(t, v) {
        Some(s) => Some(inserted_before(t, s, v)),
        None => match parent_of(t, v) {
            Some(p) => match prev_sibling_of(t, p) {
                Some(ps) => Some(appended(t, ps, v)),
                None => None,
            },
            None => None,
        },
    }
}

/// `v` moved one place down: after the sibling after it, or else to the start
/// of the children of its parent's next sibling; `None` where neither exists.
pub open spec fn moved_down(t: Tree, v: NodeId) -> Option<Tree> {
    match next_sibling_of(t, v) {
        Some(s) => Some(inserted_after(t, s, v)),
        None => match parent_of(t, v) {
            Some(p) => match next_sibling_of(t, p) {
                Some(ns) => Some(prepended(t, ns, v)),
                None => None,
            },
            None => None,
        },
    }
}

/// After a rearrangement: store the edited text, then edit `v` again.
pub open spec fn refocus_cmds(v: NodeId) -> Seq<Command> {
    seq![Command::Send(Msg::SaveEditedNodeContent), Command::Send(Msg::StartEditingNodeContent(Some(v)))]
}

/// The tree becomes `t2`, if there is one, and the edited item is refocused;
/// otherwise nothing happens.
pub open spec fn rearranged(pre: Model, t2: Option<Tree>, post: Model, cmds: Seq<Command>) -> bool {
    match t2 {
        Some(t) => {
            &&& post.nodes() == t
            &&& post.editing() == pre.editing()
            &&& cmds == refocus_cmds(pre.editing()->0.vertex)
        },
        None => same_state(pre, post) && cmds == Seq::<Command>::empty(),
    }
}

/// Indenting the edited item, where there is a sibling before it.
pub open spec fn indent_effect(pre: Model, post: Model, cmds: Seq<Command>) -> bool {
    rearranged(
        pre,
        match pre.editing() {
            Some(e) => if prev_sibling_of(pre.nodes(), e.vertex) is Some {
                Some(indented(pre.nodes(), e.vertex))
            } else {
                None
            },
            None => None,
        },
        post,
        cmds,
    )
}

/// Outdenting the edited item, where its parent is not the root.
pub open spec fn outdent_effect(pre: Model, post: Model, cmds: Seq<Command>) -> bool {
    rearranged(
        pre,
        match pre.editing() {
            Some(e) => if parent_of(pre.nodes(), e.vertex) is Some && parent_of(pre.nodes(), e.vertex)
                != Some(pre.root_vertex()) {
                Some(outdented(pre.nodes(), e.vertex))
            } else {
                None
            },
            None => None,
        },
        post,
        cmds,
    )
}

/// Moving the edited item up.
pub open spec fn move_up_effect(pre: Model, post: Model, cmds: Seq<Command>) -> bool {
    rearranged(
        pre,
        match pre.editing() {
            Some(e) => moved_up(pre.nodes(), e.vertex),
            None => None,
        },
        post,
        cmds,
    )
}

/// Moving the edited item down.
pub open spec fn move_down_effect(pre: Model, post: Model, cmds: Seq<Command>) -> bool {
    rearranged(
        pre,
        match pre.editing() {
            Some(e) => moved_down(pre.nodes(), e.vertex),
            None => None,
        },
        post,
        cmds,
    )
}

fn refocus(v: NodeId) -> (cmds: Vec<Command>)
    ensures
        cmds@ == refocus_cmds(v),
{
    let mut cmds = Vec::new();
    cmds.push(Command::Send(Msg::SaveEditedNodeContent));
    cmds.push(Command::Send(Msg::StartEditingNodeContent(Some(v))));
    assert(cmds@ =~= refocus_cmds(v));
    cmds
}

impl Model {
    fn indent(&mut self) -> (cmds: Vec<Command>)
        requires
            old(self).wf(),
        ensures
            final(self).wf(),
            final(self).root_vertex() == old(self).root_vertex(),
            indent_effect(*old(self), *final(self), cmds@),
    {
        let v = match &self.editing_node {
            Some(e) => e.vertex,
            None => {
                return Vec::new();
            },
        };
        match previous_sibling_vertex(&self.tree, v) {
            Some(s) => {
                proof {
                    let t = arena_nodes(self.tree);
                    lemma_has_parent(t, self.root, v);
                    lemma_prev_sibling(t, v);
                    lemma_siblings_apart(t, self.root, v, s);
                    lemma_moved_tree(t, self.root, v, s, children_of(detached(t, v), s).len() as int);
                    lemma_moved(t, v, s, children_of(detached(t, v), s).len() as int);
                }
                append_child(&mut self.tree, s, v);
                refocus(v)
            },
            None => Vec::new(),
        }
    }

    fn outdent(&mut self) -> (cmds: Vec<Command>)
        requires
            old(self).wf(),
        ensures
            final(self).wf(),
            final(self).root_vertex() == old(self).root_vertex(),
            outdent_effect(*old(self), *final(self), cmds@),
    {
        let v = match &self.editing_node {
            Some(e) => e.vertex,
            None => {
                return Vec::new();
            },
        };
        let p = match parent_vertex(&self.tree, v) {
            Some(p) => p,
            None => {
                return Vec::new();
            },
        };
        if same_vertex(p, self.root) {
            return Vec::new();
        }
        let ghost t0 = arena_nodes(self.tree);
        let ghost root = self.root;
        let ghost editing = self.editing_node;
        proof {
            lemma_following(t0, v);
        }
        let fs = later_sibling_vertices(&self.tree, v);
        let mut i: usize = 0;
        assert(fs@.take(0) =~= Seq::<NodeId>::empty());
        while i < fs.len()
            invariant
                0 <= i <= fs.len(),
                fs@ == following_siblings_of(t0, v),
                fs@.no_duplicates(),
                self.root == root,
                self.editing_node == editing,
                t0.dom().contains(v),
                t0.dom().contains(p),
                v != root,
                p != root,
                arena_nodes(self.tree) == appended_each(t0, v, fs@.take(i as int)),
                tree_ok(arena_nodes(self.tree), root),
                arena_nodes(self.tree).dom() == t0.dom(),
                parent_of(arena_nodes(self.tree), v) == Some(p),
                parent_of(arena_nodes(self.tree), p) == parent_of(t0, p),
                forall|j: int| i <= j < fs.len() ==> {
                    &&& arena_nodes(self.tree).dom().contains(#[trigger] fs@[j])
                    &&& parent_of(arena_nodes(self.tree), fs@[j]) == Some(p)
                    &&& fs@[j] != v
                },
                forall|n: NodeId| #[trigger] arena_nodes(self.tree).dom().contains(n) ==> data_of(arena_nodes(self.tree), n) == data_of(t0, n),
            decreases fs.len() - i,
        {
            let f = fs[i];
            proof {
                let t = arena_nodes(self.tree);
                assert(t.dom().contains(fs@[i as int]));
                lemma_siblings_apart(t, root, f, v);
                let at = children_of(detached(t, f), v).len() as int;
                lemma_moved_tree(t, root, f, v, at);
                lemma_moved(t, f, v, at);
                assert(p != f);
                assert forall|j: int| i < j < fs.len() implies fs@[j] != f by {
                    assert(fs@[j] != fs@[i as int]);
                }
            }
            append_child(&mut self.tree, v, f);
            proof {
                assert(fs@.take(i + 1).drop_last() =~= fs@.take(i as int));
                assert(fs@.take(i + 1).last() == f);
            }
            i = i + 1;
        }
        proof {
            let t1 = arena_nodes(self.tree);
            assert(fs@.take(fs.len() as int) =~= fs@);
            lemma_has_parent(t1, root, p);
            lemma_grandparent_apart(t1, root, v);
            let g = parent_of(t1, p)->0;
            assert(reaches(t1, g, g, 0));
            lemma_anchor_stays(t1, v, p);
            let at = children_of(detached(t1, v), g).index_of(p) + 1;
            lemma_moved_tree(t1, root, v, g, at);
        }
        insert_sibling_after(&mut self.tree, p, v);
        refocus(v)
    }

    fn move_up(&mut self) -> (cmds: Vec<Command>)
        requires
            old(self).wf(),
        ensures
            final(self).wf(),
            final(self).root_vertex() == old(self).root_vertex(),
            move_up_effect(*old(self), *final(self), cmds@),
    {
        let v = match &self.editing_node {
            Some(e) => e.vertex,
            None => {
                return Vec::new();
            },
        };
        let ghost t = arena_nodes(self.tree);
        proof {
            lemma_has_parent(t, self.root, v);
        }
        match previous_sibling_vertex(&self.tree, v) {
            Some(s) => {
                proof {
                    lemma_prev_sibling(t, v);
                    lemma_parent_apart(t, self.root, v);
                    lemma_anchor_stays(t, v, s);
                    let q = parent_of(t, s)->0;
                    let at = children_of(detached(t, v), q).index_of(s);
                    lemma_moved_tree(t, self.root, v, q, at);
                }
                insert_sibling_before(&mut self.tree, s, v);
                refocus(v)
            },
            None => {
                let p = match parent_vertex(&self.tree, v) {
                    Some(p) => p,
                    None => {
                        return Vec::new();
                    },
                };
                match previous_sibling_vertex(&self.tree, p) {
                    Some(ps) => {
                        proof {
                            lemma_prev_sibling(t, p);
                            lemma_uncle_apart(t, self.root, v, ps);
                            assert(reaches(t, ps, ps, 0));
                            lemma_moved_tree(t, self.root, v, ps, children_of(detached(t, v), ps).len() as int);
                        }
                        append_child(&mut self.tree, ps, v);
                        refocus(v)
                    },
                    None => Vec::new(),
                }
            },
        }
    }

    fn move_down(&mut self) -> (cmds: Vec<Command>)
        requires
            old(self).wf(),
        ensures
            final(self).wf(),
            final(self).root_vertex() == old(self).root_vertex(),
            move_down_effect(*old(self), *final(self), cmds@),
    {
        let v = match &self.editing_node {
            Some(e) => e.vertex,
            None => {
                return Vec::new();
            },
        };
        let ghost t = arena_nodes(self.tree);
        proof {
            lemma_has_parent(t, self.root, v);
        }
        match next_sibling_vertex(&self.tree, v) {
            Some(s) => {
                proof {
                    lemma_next_sibling(t, v);
                    lemma_parent_apart(t, self.root, v);
                    lemma_anchor_stays(t, v, s);
                    let q = parent_of(t, s)->0;
                    let at = children_of(detached(t, v), q).index_of(s) + 1;
                    lemma_moved_tree(t, self.root, v, q, at);
                }
                insert_sibling_after(&mut self.tree, s, v);
                refocus(v)
            },
            None => {
                let p = match parent_vertex(&self.tree, v) {
                    Some(p) => p,
                    None => {
                        return Vec::new();
                    },
                };
                match next_sibling_vertex(&self.tree, p) {
                    Some(ns) => {
                        proof {
                            lemma_next_sibling(t, p);
                            lemma_uncle_apart(t, self.root, v, ns);
                            assert(reaches(t, ns, ns, 0));
                            if first_child_of(t, ns) == Some(v) {
                                assert(t.dom().contains(children_of(t, ns)[0]));
                            }
                            lemma_moved_tree(t, self.root, v, ns, 0);
                        }
                        prepend_child(&mut self.tree, ns, v);
                        refocus(v)
                    },
                    None => Vec::new(),
                }
            },
        }
    }
}

// ------ Splitting and merging items ------

/// Splitting the edited item at the caret (counted in grapheme clusters): the
/// text after the caret goes to a new item right after it, the text before it
/// is sent back as the edited text and saved, and the new item is edited next.
pub open spec fn insert_effect(pre: Model, caret: u32, post: Model, result: Result<Seq<Command>, UpdateError>) -> bool {
    match pre.editing() {
        Some(e) => {
            let gs = graphemes_of(e.content@);
            if caret > gs.len() {
                &&& result == Err::<Seq<Command>, UpdateError>(UpdateError::CaretBeyondContent)
                &&& same_state(pre, post)
            } else {
                exists|n: NodeId, node: Node, left: String|
                    {
                        &&& !pre.nodes().dom().contains(n)
                        &&& node.content@ == gs.skip(caret as int).flatten()
                        &&& !node.folded
                        &&& left@ == gs.take(caret as int).flatten()
                        &&& left@ + node.content@ == e.content@
                        &&& post.nodes() == inserted_after(with_new(pre.nodes(), n, node), e.vertex, n)
                        &&& post.editing() == pre.editing()
                        &&& result == Ok::<Seq<Command>, UpdateError>(
                            seq![
                                Command::Send(Msg::EditingNodeContentChanged(left)),
                                Command::Send(Msg::SaveEditedNodeContent),
                                Command::Send(Msg::StartEditingNodeContent(Some(n))),
                            ],
                        )
                    }
            }
        },
        None => same_state(pre, post) && result == Ok::<Seq<Command>, UpdateError>(Seq::empty()),
    }
}

/// The last vertex of the subtree under `s`.
pub open spec fn last_leaf_of(t: Tree, s: NodeId) -> NodeId {
    let (d, k) = choose|d: NodeId, k: nat| last_leaf(t, s, d, k);
    d
}

/// Where the text of `v` goes when it is deleted backward: to the last vertex
/// of the previous sibling's subtree, if `v` has no children; to the parent,
/// if `v` has no children and no previous sibling and the parent is not the
/// root; to the previous sibling, if `v` has children and that sibling has none.
pub open spec fn backward_target(t: Tree, root: NodeId, v: NodeId) -> Option<NodeId> {
    if children_of(t, v).len() == 0 {
        match prev_sibling_of(t, v) {
            Some(s) => Some(last_leaf_of(t, s)),
            None => match parent_of(t, v) {
                Some(p) => if p != root {
                    Some(p)
                } else {
                    None
                },
                None => None,
            },
        }
    } else {
        match prev_sibling_of(t, v) {
            Some(s) => if children_of(t, s).len() == 0 {
                Some(s)
            } else {
                None
            },
            None => None,
        }
    }
}

/// Deleting backward at the start of the edited item: where there is a
/// target, its text gets the edited text appended and becomes the edited item
/// with the caret at its start, the old item is sent for removal, and the caret
/// is to be shown where the two texts meet.
pub open spec fn delete_backward_effect(pre: Model, post: Model, cmds: Seq<Command>) -> bool {
    match pre.editing() {
        Some(e) => match backward_target(pre.nodes(), pre.root_vertex(), e.vertex) {
            Some(d) => {
                let old_node = data_of(pre.nodes(), d);
                let merged = data_of(post.nodes(), d).content;
                &&& merged@ == old_node.content@ + e.content@
                &&& post.nodes() == with_data(pre.nodes(), d, Node { content: merged, ..old_node })
                &&& post.editing() == Some(
                    EditingNode { id: old_node.id, content: merged, vertex: d, caret_position: 0 },
                )
                &&& cmds == seq![
                    Command::Send(Msg::RemoveNode(e.vertex)),
                    Command::FocusContentAt(graphemes_of(old_node.content@).len() as u32),
                ]
            },
            None => same_state(pre, post) && cmds == Seq::<Command>::empty(),
        },
        None => same_state(pre, post) && cmds == Seq::<Command>::empty(),
    }
}

impl Model {
    fn insert_new_node(&mut self, caret: u32) -> (r: Result<Vec<Command>, UpdateError>)
        requires
            old(self).wf(),
            old(self).nodes().dom().len() < usize::MAX,
        ensures
            final(self).wf(),
            final(self).root_vertex() == old(self).root_vertex(),
            insert_effect(*old(self), caret, *final(self), result_view(r)),
    {
        let (v, gs) = match &self.editing_node {
            Some(e) => (e.vertex, graphemes(e.content.as_str())),
            None => {
                return Ok(Vec::new());
            },
        };
        let ghost pre = *self;
        let at = caret as usize;
        if at > gs.len() {
            return Err(UpdateError::CaretBeyondContent);
        }
        let (left, right) = split_graphemes(&gs, at);
        let id = new_random_id();
        let node = Node { id: id, content: right, folded: false };
        let ghost t0 = arena_nodes(self.tree);
        let ghost root = self.root;
        let ghost node_g = node;
        let n = new_vertex(&mut self.tree, node);
        proof {
            lemma_with_new(t0, root, n, node_g);
            let t1 = with_new(t0, n, node_g);
            lemma_has_parent(t0, root, v);
            let p = parent_of(t0, v)->0;
            assert(t0.dom().contains(p));
            assert(parent_of(t1, v) == Some(p));
            lemma_anchor_stays(t1, n, v);
            let at2 = children_of(detached(t1, n), p).index_of(v) + 1;
            lemma_moved(t1, n, p, at2);
            assert(moved(t1, n, p, at2) == inserted_after(t1, v, n));
            lemma_reparent_rooted(t1, moved(t1, n, p, at2), root, n, p);
        }
        insert_sibling_after(&mut self.tree, v, n);
        let ghost left_g = left;
        let mut cmds = Vec::new();
        cmds.push(Command::Send(Msg::EditingNodeContentChanged(left)));
        cmds.push(Command::Send(Msg::SaveEditedNodeContent));
        cmds.push(Command::Send(Msg::StartEditingNodeContent(Some(n))));
        proof {
            assert(cmds@ =~= seq![
                Command::Send(Msg::EditingNodeContentChanged(left_g)),
                Command::Send(Msg::SaveEditedNodeContent),
                Command::Send(Msg::StartEditingNodeContent(Some(n))),
            ]);
            let e = pre.editing()->0;
            let gv = graphemes_of(e.content@);
            assert(views(gs@) == gv);
            assert(node_g.content@ == gv.skip(caret as int).flatten());
            assert(left_g@ == gv.take(caret as int).flatten());
            assert(gv.take(caret as int) + gv.skip(caret as int) =~= gv);
            vstd::seq_lib::lemma_flatten_concat(gv.take(caret as int), gv.skip(caret as int));
            assert(left_g@ + node_g.content@ == e.content@);
            assert(!pre.nodes().dom().contains(n));
            assert(self.nodes() == inserted_after(with_new(pre.nodes(), n, node_g), e.vertex, n));
            assert(self.editing() == pre.editing());
        }
        Ok(cmds)
    }

    fn delete_backward(&mut self) -> (cmds: Vec<Command>)
        requires
            old(self).wf(),
        ensures
            final(self).wf(),
            final(self).root_vertex() == old(self).root_vertex(),
            delete_backward_effect(*old(self), *final(self), cmds@),
            old(self).editing() matches Some(e) ==> backward_target(old(self).nodes(), old(self).root_vertex(), e.vertex) != Some(e.vertex),
    {
        let v = match &self.editing_node {
            Some(e) => e.vertex,
            None => {
                return Vec::new();
            },
        };
        let ghost t = arena_nodes(self.tree);
        let ghost root = self.root;
        proof {
            lemma_has_parent(t, root, v);
        }
        let has_children = first_child_vertex(&self.tree, v).is_some();
        let previous = preceding_sibling_vertex(&self.tree, v);
        let parent = nearest_ancestor_vertex(&self.tree, v);
        let dest: Option<NodeId> = if !has_children {
            match previous {
                Some(s) => {
                    proof {
                        lemma_prev_sibling(t, v);
                    }
                    let d = last_descendant_vertex(&self.tree, s);
                    proof {
                        let dd = d->0;
                        let k = choose|k: nat| last_leaf(t, s, dd, k);
                        let (d2, k2) = choose|d2: NodeId, k2: nat| last_leaf(t, s, d2, k2);
                        lemma_last_leaf_unique(t, s, dd, d2, k, k2);
                        lemma_last_leaf(t, s, dd, k);
                        lemma_siblings_apart(t, root, s, v);
                        if dd == v {
                            assert(reaches(t, v, s, k));
                        }
                        if dd == root {
                            assert(parent_of(t, s) is Some);
                        }
                    }
                    d
                },
                None => match parent {
                    Some(p) => if !same_vertex(p, self.root) {
                        Some(p)
                    } else {
                        None
                    },
                    None => None,
                },
            }
        } else {
            match previous {
                Some(s) => {
                    proof {
                        lemma_prev_sibling(t, v);
                    }
                    if first_child_vertex(&self.tree, s).is_none() {
                        Some(s)
                    } else {
                        None
                    }
                },
                None => None,
            }
        };
        assert(dest == backward_target(t, root, v));
        match dest {
            Some(d) => {
                proof {
                    assert(t.dom().contains(d));
                    assert(d != root);
                    assert(d != v);
                }
                let e = self.editing_node.take().unwrap();
                let taken_content = e.content;
                let mut cmds = Vec::new();
                cmds.push(Command::Send(Msg::RemoveNode(e.vertex)));
                let node = node_at(&self.tree, d);
                let gs = graphemes(node.content.as_str());
                let caret_dest = gs.len() as u32;
                let mut content = node.content.clone();
                content.append(taken_content.as_str());
                let id = node.id;
                let data = Node { id: id, content: content.clone(), folded: node.folded };
                proof {
                    lemma_with_data(t, root, d, data);
                }
                store_node(&mut self.tree, d, data);
                self.editing_node = Some(EditingNode { id: id, content: content, vertex: d, caret_position: 0 });
                cmds.push(Command::FocusContentAt(caret_dest));
                proof {
                    assert(cmds@ =~= seq![
                        Command::Send(Msg::RemoveNode(v)),
                        Command::FocusContentAt(graphemes_of(data_of(t, d).content@).len() as u32),
                    ]);
                }
                cmds
            },
            None => Vec::new(),
        }
    }
}

/// A result with its list of commands taken as a sequence.
pub open spec fn result_view(r: Result<Vec<Command>, UpdateError>) -> Result<Seq<Command>, UpdateError> {
    match r {
        Ok(v) => Ok(v@),
        Err(e) => Err(e),
    }
}

// ------ Handling a message ------

/// The messages the editor takes in a state: one that starts editing names an
/// item other than the root; one that removes an item names a live item other
/// than the root and the edited one; one that folds or unfolds names a live
/// item; and a split needs room for one more vertex.
pub open spec fn admits(m: Model, msg: Msg) -> bool {
    match msg {
        Msg::StartEditingNodeContent(Some(v)) => v != m.root_vertex(),
        Msg::RemoveNode(v) => {
            &&& m.nodes().dom().contains(v)
            &&& v != m.root_vertex()
            &&& (m.editing() matches Some(e) ==> e.vertex != v)
        },
        Msg::FoldChildren(v) => m.nodes().dom().contains(v),
        Msg::UnfoldChildren(v) => m.nodes().dom().contains(v),
        Msg::InsertNewNode => m.nodes().dom().len() < usize::MAX,
        _ => true,
    }
}

/// When handling `msg` reads the caret's position: when it starts editing a
/// live item, and when it splits the edited item or follows the caret, if an
/// item is being edited.
pub open spec fn reads_caret(m: Model, msg: Msg) -> bool {
    match msg {
        Msg::StartEditingNodeContent(Some(v)) => m.nodes().dom().contains(v),
        Msg::InsertNewNode => m.editing() is Some,
        Msg::CaretPositionChanged => m.editing() is Some,
        _ => false,
    }
}

/// What handling `msg`, with the caret at `caret`, does to the state and
/// what it asks for.
pub open spec fn stepped(pre: Model, msg: Msg, caret: u32, post: Model, result: Result<Seq<Command>, UpdateError>) -> bool {
    match msg {
        Msg::StartEditingNodeContent(Some(v)) => result is Ok && start_editing_effect(pre, v, caret, post, result->Ok_0),
        Msg::StartEditingNodeContent(None) => {
            &&& post.nodes() == pre.nodes()
            &&& post.editing() is None
            &&& result == Ok::<Seq<Command>, UpdateError>(Seq::empty())
        },
        Msg::EditingNodeContentChanged(content) => {
            &&& content_changed_effect(pre, content, post)
            &&& result == Ok::<Seq<Command>, UpdateError>(Seq::empty())
        },
        Msg::SaveEditedNodeContent => save_effect(pre, post) && result == Ok::<Seq<Command>, UpdateError>(Seq::empty()),
        Msg::InsertNewNode => insert_effect(pre, caret, post, result),
        Msg::DeleteNodeBackward => result is Ok && delete_backward_effect(pre, post, result->Ok_0),
        Msg::RemoveNode(v) => remove_effect(pre, v, post) && result == Ok::<Seq<Command>, UpdateError>(Seq::empty()),
        Msg::CaretPositionChanged => caret_effect(pre, caret, post) && result == Ok::<Seq<Command>, UpdateError>(Seq::empty()),
        Msg::IndentNode => result is Ok && indent_effect(pre, post, result->Ok_0),
        Msg::OutdentNode => result is Ok && outdent_effect(pre, post, result->Ok_0),
        Msg::MoveNodeUp => result is Ok && move_up_effect(pre, post, result->Ok_0),
        Msg::MoveNodeDown => result is Ok && move_down_effect(pre, post, result->Ok_0),
        Msg::FoldChildren(v) => fold_effect(pre, v, true, post) && result == Ok::<Seq<Command>, UpdateError>(Seq::empty()),
        Msg::UnfoldChildren(v) => fold_effect(pre, v, false, post) && result == Ok::<Seq<Command>, UpdateError>(Seq::empty()),
    }
}

/// Every message in `cmds` is one that `m` admits.
pub open spec fn follow_ups_admitted(m: Model, cmds: Seq<Command>) -> bool {
    forall|i: int| 0 <= i < cmds.len() ==> (#[trigger] cmds[i] matches Command::Send(next) ==> admits(m, next))
}

/// Whether the editor takes `msg` in its current state; see `admits`.
pub fn accepts(model: &Model, msg: &Msg) -> (r: bool)
    ensures
        r == admits(*model, *msg),
{
    match msg {
        Msg::StartEditingNodeContent(Some(v)) => !same_vertex(*v, model.root),
        Msg::RemoveNode(v) => {
            let live = find_node(&model.tree, *v).is_some();
            let edited = match &model.editing_node {
                Some(e) => same_vertex(e.vertex, *v),
                None => false,
            };
            live && !same_vertex(*v, model.root) && !edited
        },
        Msg::FoldChildren(v) => find_node(&model.tree, *v).is_some(),
        Msg::UnfoldChildren(v) => find_node(&model.tree, *v).is_some(),
        Msg::InsertNewNode => vertex_count(&model.tree) < usize::MAX,
        _ => true,
    }
}

/// Where handling `msg` ends before the outline is stored again: indenting
/// or moving with no item being edited, and outdenting with no item being
/// edited or where the edited item's parent is the root.
pub open spec fn returns_early(m: Model, msg: Msg) -> bool {
    match msg {
        Msg::IndentNode => m.editing() is None,
        Msg::MoveNodeUp => m.editing() is None,
        Msg::MoveNodeDown => m.editing() is None,
        Msg::OutdentNode => match m.editing() {
            Some(e) => parent_of(m.nodes(), e.vertex) == Some(m.root_vertex()),
            None => true,
        },
        _ => false,
    }
}

/// Whether the outline is stored after handling `msg`; see `returns_early`.
pub fn saves_after(model: &Model, msg: &Msg) -> (r: bool)
    requires
        model.wf(),
    ensures
        r == !returns_early(*model, *msg),
{
    match msg {
        Msg::IndentNode => model.editing_node.is_some(),
        Msg::MoveNodeUp => model.editing_node.is_some(),
        Msg::MoveNodeDown => model.editing_node.is_some(),
        Msg::OutdentNode => match &model.editing_node {
            Some(e) => match parent_vertex(&model.tree, e.vertex) {
                Some(p) => !same_vertex(p, model.root),
                None => true,
            },
            None => false,
        },
        _ => true,
    }
}

/// Whether handling `msg` reads the caret's position; see `reads_caret`.
pub fn needs_caret(model: &Model, msg: &Msg) -> (r: bool)
    ensures
        r == reads_caret(*model, *msg),
{
    match msg {
        Msg::StartEditingNodeContent(Some(v)) => find_node(&model.tree, *v).is_some(),
        Msg::InsertNewNode => model.editing_node.is_some(),
        Msg::CaretPositionChanged => model.editing_node.is_some(),
        _ => false,
    }
}

/// Handles `msg`; `caret_position` is where the caret stands in the edited
/// text, for the messages that read it. The state stays consistent, and every
/// message the result asks to handle next is one the new state admits.
pub fn update(msg: Msg, model: &mut Model, caret_position: u32) -> (r: Result<Vec<Command>, UpdateError>)
    requires
        old(model).wf(),
        admits(*old(model), msg),
    ensures
        final(model).wf(),
        final(model).root_vertex() == old(model).root_vertex(),
        stepped(*old(model), msg, caret_position, *final(model), result_view(r)),
        r is Ok ==> follow_ups_admitted(*final(model), r->Ok_0@),
{
    let ghost pre = *model;
    match msg {
        Msg::StartEditingNodeContent(Some(v)) => Ok(model.start_editing(v, caret_position)),
        Msg::StartEditingNodeContent(None) => {
            model.stop_editing();
            Ok(Vec::new())
        },
        Msg::EditingNodeContentChanged(content) => {
            model.change_content(content);
            Ok(Vec::new())
        },
        Msg::SaveEditedNodeContent => {
            model.save_content();
            Ok(Vec::new())
        },
        Msg::InsertNewNode => model.insert_new_node(caret_position),
        Msg::DeleteNodeBackward => Ok(model.delete_backward()),
        Msg::RemoveNode(v) => {
            model.remove_node(v);
            Ok(Vec::new())
        },
        Msg::CaretPositionChanged => {
            model.move_caret(caret_position);
            Ok(Vec::new())
        },
        Msg::IndentNode => Ok(model.indent()),
        Msg::OutdentNode => Ok(model.outdent()),
        Msg::MoveNodeUp => Ok(model.move_up()),
        Msg::MoveNodeDown => Ok(model.move_down()),
        Msg::FoldChildren(v) => {
            model.set_folded(v, true);
            Ok(Vec::new())
        },
        Msg::UnfoldChildren(v) => {
            model.set_folded(v, false);
            Ok(Vec::new())
        },
    }
}

} // verus!

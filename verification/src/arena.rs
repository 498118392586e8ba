//! The arena of `generational_indextree` that stores the outline, and the
//! trusted items through which the library uses it.
//!
//! The arena is read through `arena_nodes`: for each live vertex (an occupied
//! index of the right generation), its parent, the list of its children (the
//! first child, then next-sibling links), and its node. The items that read
//! siblings, or remove a vertex, ask for a tree under one root: there the root
//! is the only vertex without a parent, so a vertex's siblings are exactly the
//! other entries of its parent's list, and no parent links form a cycle.

use vstd::prelude::*;
use generational_indextree::{Arena, NodeId};
use crate::forest::{
    Node, appended, children_of, data_of, first_child_of, following_siblings_of,
    inserted_after, inserted_before, last_leaf, next_sibling_of, parent_of, prepended,
    prev_sibling_of, removed, shape_ok, tree_ok, with_data, with_new,
};

verus! {

#[verifier::external_type_specification]
#[verifier::external_body]
#[verifier::reject_recursive_types(T)]
pub struct ExArena<T>(Arena<T>);

#[verifier::external_type_specification]
#[verifier::external_body]
pub struct ExNodeId(NodeId);

/// What an arena of outline nodes holds: for each live vertex, its parent, the
/// list of its children in order, and its node.
pub uninterp spec fn arena_nodes(a: Arena<Node>) -> Map<NodeId, (Option<NodeId>, Seq<NodeId>, Node)>;

/// `Arena::new`: an arena with no vertex.
#[verifier::external_body]
pub(crate) fn new_arena() -> (fresh: Arena<Node>)
    ensures
        arena_nodes(fresh).dom().is_empty(),
{
    Arena::new()
}

/// `Arena::new_node`: stores `data` at a vertex that was not live, with neither
/// parent nor children. The crate documents a panic once the arena holds
/// `usize::MAX` nodes, which `requires` leaves out.
#[verifier::external_body]
pub(crate) fn new_vertex(arena: &mut Arena<Node>, data: Node) -> (v: NodeId)
    requires
        arena_nodes(*old(arena)).dom().len() < usize::MAX,
    ensures
        !arena_nodes(*old(arena)).dom().contains(v),
        arena_nodes(*final(arena)) == with_new(arena_nodes(*old(arena)), v, data),
{
    arena.new_node(data)
}

/// `NodeId::append`: detaches `c` from where it stands and makes it the last
/// child of `p`. The crate panics when `p == c` or either is not live.
#[verifier::external_body]
pub(crate) fn append_child(arena: &mut Arena<Node>, p: NodeId, c: NodeId)
    requires
        shape_ok(arena_nodes(*old(arena))),
        arena_nodes(*old(arena)).dom().contains(p),
        arena_nodes(*old(arena)).dom().contains(c),
        p != c,
    ensures
        arena_nodes(*final(arena)) == appended(arena_nodes(*old(arena)), p, c),
{
    p.append(c, arena)
}

/// `NodeId::prepend`: takes `c` out of where it stands and makes it the first
/// child of `p`. The crate panics when `p == c`, when either is not live, and
/// when `c` already is `p`'s first child.
#[verifier::external_body]
pub(crate) fn prepend_child(arena: &mut Arena<Node>, p: NodeId, c: NodeId)
    requires
        shape_ok(arena_nodes(*old(arena))),
        arena_nodes(*old(arena)).dom().contains(p),
        arena_nodes(*old(arena)).dom().contains(c),
        p != c,
        first_child_of(arena_nodes(*old(arena)), p) != Some(c),
    ensures
        arena_nodes(*final(arena)) == prepended(arena_nodes(*old(arena)), p, c),
{
    p.prepend(c, arena)
}

/// `NodeId::insert_after`: detaches `s` and makes it the sibling right after
/// `a`, under `a`'s parent. The crate panics when `a == s`, when either is not
/// live, and when `s` is `a`'s parent; `requires` also asks that `a` has a parent.
#[verifier::external_body]
pub(crate) fn insert_sibling_after(arena: &mut Arena<Node>, a: NodeId, s: NodeId)
    requires
        shape_ok(arena_nodes(*old(arena))),
        arena_nodes(*old(arena)).dom().contains(a),
        arena_nodes(*old(arena)).dom().contains(s),
        a != s,
        parent_of(arena_nodes(*old(arena)), a) is Some,
        parent_of(arena_nodes(*old(arena)), a) != Some(s),
    ensures
        arena_nodes(*final(arena)) == inserted_after(arena_nodes(*old(arena)), a, s),
{
    a.insert_after(s, arena)
}

/// `NodeId::insert_before`: detaches `s` and makes it the sibling right before
/// `a`, under `a`'s parent. The crate panics when `a == s`, when either is not
/// live, and when `s` is `a`'s parent; `requires` also asks that `a` has a parent.
#[verifier::external_body]
pub(crate) fn insert_sibling_before(arena: &mut Arena<Node>, a: NodeId, s: NodeId)
    requires
        shape_ok(arena_nodes(*old(arena))),
        arena_nodes(*old(arena)).dom().contains(a),
        arena_nodes(*old(arena)).dom().contains(s),
        a != s,
        parent_of(arena_nodes(*old(arena)), a) is Some,
        parent_of(arena_nodes(*old(arena)), a) != Some(s),
    ensures
        arena_nodes(*final(arena)) == inserted_before(arena_nodes(*old(arena)), a, s),
{
    a.insert_before(s, arena)
}

/// `NodeId::remove`: removes `v` from the arena; its children take its place
/// among its parent's children. The crate panics when `v` is not live;
/// `requires` also asks that `v` has a parent.
#[verifier::external_body]
pub(crate) fn remove_vertex(arena: &mut Arena<Node>, v: NodeId)
    requires
        exists|root: NodeId| tree_ok(arena_nodes(*old(arena)), root),
        arena_nodes(*old(arena)).dom().contains(v),
        parent_of(arena_nodes(*old(arena)), v) is Some,
    ensures
        arena_nodes(*final(arena)) == removed(arena_nodes(*old(arena)), v),
{
    v.remove(arena)
}

/// `Node::parent`, read through the arena's index (which panics on a vertex
/// that is not live).
#[verifier::external_body]
pub(crate) fn parent_vertex(arena: &Arena<Node>, v: NodeId) -> (r: Option<NodeId>)
    requires
        arena_nodes(*arena).dom().contains(v),
    ensures
        r == parent_of(arena_nodes(*arena), v),
{
    arena[v].parent()
}

/// `Node::previous_sibling`, read through the arena's index.
#[verifier::external_body]
pub(crate) fn previous_sibling_vertex(arena: &Arena<Node>, v: NodeId) -> (r: Option<NodeId>)
    requires
        exists|root: NodeId| tree_ok(arena_nodes(*arena), root),
        arena_nodes(*arena).dom().contains(v),
    ensures
        r == prev_sibling_of(arena_nodes(*arena), v),
{
    arena[v].previous_sibling()
}

/// `Node::next_sibling`, read through the arena's index.
#[verifier::external_body]
pub(crate) fn next_sibling_vertex(arena: &Arena<Node>, v: NodeId) -> (r: Option<NodeId>)
    requires
        exists|root: NodeId| tree_ok(arena_nodes(*arena), root),
        arena_nodes(*arena).dom().contains(v),
    ensures
        r == next_sibling_of(arena_nodes(*arena), v),
{
    arena[v].next_sibling()
}

/// `NodeId::children`: its first item is `v`'s first child.
#[verifier::external_body]
pub(crate) fn first_child_vertex(arena: &Arena<Node>, v: NodeId) -> (r: Option<NodeId>)
    requires
        shape_ok(arena_nodes(*arena)),
        arena_nodes(*arena).dom().contains(v),
    ensures
        r == first_child_of(arena_nodes(*arena), v),
{
    v.children(arena).next()
}

/// `NodeId::preceding_siblings`: it yields `v` itself, then the sibling before it.
#[verifier::external_body]
pub(crate) fn preceding_sibling_vertex(arena: &Arena<Node>, v: NodeId) -> (r: Option<NodeId>)
    requires
        exists|root: NodeId| tree_ok(arena_nodes(*arena), root),
        arena_nodes(*arena).dom().contains(v),
    ensures
        r == prev_sibling_of(arena_nodes(*arena), v),
{
    v.preceding_siblings(arena).skip(1).next()
}

/// `NodeId::ancestors`: it yields `v` itself, then `v`'s parent.
#[verifier::external_body]
pub(crate) fn nearest_ancestor_vertex(arena: &Arena<Node>, v: NodeId) -> (r: Option<NodeId>)
    requires
        arena_nodes(*arena).dom().contains(v),
    ensures
        r == parent_of(arena_nodes(*arena), v),
{
    v.ancestors(arena).skip(1).next()
}

/// `NodeId::following_siblings`: it yields `v` itself, then the siblings after
/// it in order, which are collected.
#[verifier::external_body]
pub(crate) fn later_sibling_vertices(arena: &Arena<Node>, v: NodeId) -> (r: Vec<NodeId>)
    requires
        exists|root: NodeId| tree_ok(arena_nodes(*arena), root),
        arena_nodes(*arena).dom().contains(v),
    ensures
        r@ == following_siblings_of(arena_nodes(*arena), v),
{
    v.following_siblings(arena).skip(1).collect()
}

/// `NodeId::descendants`: its last item is the last vertex of `v`'s subtree in
/// document order, reached from `v` by taking the last child until there is
/// none. The traversal ends only on a tree without cycles, which `requires` asks.
#[verifier::external_body]
pub(crate) fn last_descendant_vertex(arena: &Arena<Node>, v: NodeId) -> (r: Option<NodeId>)
    requires
        exists|root: NodeId| tree_ok(arena_nodes(*arena), root),
        arena_nodes(*arena).dom().contains(v),
    ensures
        r is Some,
        exists|k: nat| last_leaf(arena_nodes(*arena), v, r->0, k),
{
    v.descendants(arena).last()
}

/// `Node::get` through the arena's index: the node stored at `v`.
#[verifier::external_body]
pub(crate) fn node_at(arena: &Arena<Node>, v: NodeId) -> (r: &Node)
    requires
        arena_nodes(*arena).dom().contains(v),
    ensures
        *r == data_of(arena_nodes(*arena), v),
{
    arena[v].get()
}

/// `Arena::get`: the node stored at `v`, if `v` is live.
#[verifier::external_body]
pub(crate) fn find_node<'a>(arena: &'a Arena<Node>, v: NodeId) -> (r: Option<&'a Node>)
    ensures
        r is Some <==> arena_nodes(*arena).dom().contains(v),
        r is Some ==> *(r->0) == data_of(arena_nodes(*arena), v),
{
    arena.get(v).map(generational_indextree::Node::get)
}

/// `Node::get_mut` through the arena's index: the node at `v` replaced by `data`.
#[verifier::external_body]
pub(crate) fn store_node(arena: &mut Arena<Node>, v: NodeId, data: Node)
    requires
        arena_nodes(*old(arena)).dom().contains(v),
    ensures
        arena_nodes(*final(arena)) == with_data(arena_nodes(*old(arena)), v, data),
{
    *arena[v].get_mut() = data;
}

/// `NodeId`'s derived `==`: two vertex ids compare equal exactly when they are
/// the same id.
#[verifier::external_body]
pub(crate) fn same_vertex(a: NodeId, b: NodeId) -> (r: bool)
    ensures
        r == (a == b),
{
    a == b
}

/// `Arena::count`: the number of live vertices.
#[verifier::external_body]
pub(crate) fn vertex_count(arena: &Arena<Node>) -> (r: usize)
    ensures
        r == arena_nodes(*arena).dom().len(),
{
    arena.count()
}

/// `NodeId::children`, collected: `v`'s children in order.
#[verifier::external_body]
pub(crate) fn child_vertices(arena: &Arena<Node>, v: NodeId) -> (r: Vec<NodeId>)
    requires
        shape_ok(arena_nodes(*arena)),
        arena_nodes(*arena).dom().contains(v),
    ensures
        r@ == children_of(arena_nodes(*arena), v),
{
    v.children(arena).collect()
}

} // verus!

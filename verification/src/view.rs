//! What the rendered outline shows and how it reacts to the keyboard and to
//! clicks: the decisions, apart from the drawing.

use vstd::prelude::*;
use vstd::string::StringExecFns;
use generational_indextree::NodeId;
use crate::arena::{child_vertices, first_child_vertex, node_at, same_vertex};
use crate::forest::Node;
use crate::forest::{children_of, data_of};
use crate::outline::{Model, Msg};

verus! {

/// A key pressed in an item's text.
#[derive(Debug, PartialEq, Eq)]
pub struct KeyPress {
    pub key: String,
    pub key_code: u32,
    pub is_composing: bool,
    pub shift: bool,
    pub ctrl: bool,
    pub meta: bool,
}

/// The message a key press sends, and whether the browser's own handling of
/// the key is to be prevented.
#[derive(Debug, PartialEq, Eq)]
pub struct KeyReaction {
    pub msg: Msg,
    pub prevent_default: bool,
}

/// Exactly one of Ctrl and Meta is held.
pub open spec fn one_modifier(k: KeyPress) -> bool {
    (!k.meta && k.ctrl) || (k.meta && !k.ctrl)
}

/// How a key press outside text composition is handled: Enter splits the item;
/// Backspace, where the caret is at the item's start, deletes backward; Tab
/// indents and Shift+Tab outdents; Ctrl or Meta with ArrowUp or ArrowDown
/// moves the item. Key code 229 (a composition in progress) is ignored for
/// Enter and Backspace.
pub open spec fn key_reaction(k: KeyPress, deletable: bool) -> Option<KeyReaction> {
    if k.is_composing {
        None
    } else if k.key_code != 229 && k.key@ == "Enter"@ {
        Some(KeyReaction { msg: Msg::InsertNewNode, prevent_default: true })
    } else if k.key_code != 229 && deletable && k.key@ == "Backspace"@ {
        Some(KeyReaction { msg: Msg::DeleteNodeBackward, prevent_default: false })
    } else if !k.shift && k.key@ == "Tab"@ {
        Some(KeyReaction { msg: Msg::IndentNode, prevent_default: true })
    } else if k.shift && k.key@ == "Tab"@ {
        Some(KeyReaction { msg: Msg::OutdentNode, prevent_default: true })
    } else if one_modifier(k) && k.key@ == "ArrowUp"@ {
        Some(KeyReaction { msg: Msg::MoveNodeUp, prevent_default: true })
    } else if one_modifier(k) && k.key@ == "ArrowDown"@ {
        Some(KeyReaction { msg: Msg::MoveNodeDown, prevent_default: true })
    } else {
        None
    }
}

fn key_is(k: &KeyPress, name: &str) -> (r: bool)
    ensures
        r == (k.key@ == name@),
{
    k.key == String::from_str(name)
}

/// How the editor reacts to a key press; see `key_reaction`.
pub fn react_to_key(k: &KeyPress, deletable: bool) -> (r: Option<KeyReaction>)
    ensures
        r == key_reaction(*k, deletable),
{
    if k.is_composing {
        None
    } else if k.key_code != 229 && key_is(k, "Enter") {
        Some(KeyReaction { msg: Msg::InsertNewNode, prevent_default: true })
    } else if k.key_code != 229 && deletable && key_is(k, "Backspace") {
        Some(KeyReaction { msg: Msg::DeleteNodeBackward, prevent_default: false })
    } else if !k.shift && key_is(k, "Tab") {
        Some(KeyReaction { msg: Msg::IndentNode, prevent_default: true })
    } else if k.shift && key_is(k, "Tab") {
        Some(KeyReaction { msg: Msg::OutdentNode, prevent_default: true })
    } else if ((!k.meta && k.ctrl) || (k.meta && !k.ctrl)) && key_is(k, "ArrowUp") {
        Some(KeyReaction { msg: Msg::MoveNodeUp, prevent_default: true })
    } else if ((!k.meta && k.ctrl) || (k.meta && !k.ctrl)) && key_is(k, "ArrowDown") {
        Some(KeyReaction { msg: Msg::MoveNodeDown, prevent_default: true })
    } else {
        None
    }
}

/// Backspace deletes backward only while the caret is at the start of the edited item.
pub fn is_deletable(model: &Model) -> (r: bool)
    ensures
        r == (model.editing() matches Some(e) && e.caret_position == 0),
{
    match model.editing_node() {
        Some(e) => e.caret_position == 0,
        None => false,
    }
}

/// Whether the item with this id is the one being edited.
pub fn is_edited(model: &Model, id: u128) -> (r: bool)
    ensures
        r == (model.editing() matches Some(e) && e.id == id),
{
    match model.editing_node() {
        Some(e) => e.id == id,
        None => false,
    }
}

/// Whether the children of the item at `v` are shown: it has some, and is not folded.
pub fn shows_children(model: &Model, v: NodeId) -> (r: bool)
    requires
        model.wf(),
        model.nodes().dom().contains(v),
    ensures
        r == (!data_of(model.nodes(), v).folded && children_of(model.nodes(), v).len() > 0),
{
    let tree = model.tree();
    let node = node_at(tree, v);
    !node.folded && first_child_vertex(tree, v).is_some()
}

/// Whether the item at `v` has children.
pub fn has_children(model: &Model, v: NodeId) -> (r: bool)
    requires
        model.wf(),
        model.nodes().dom().contains(v),
    ensures
        r == (children_of(model.nodes(), v).len() > 0),
{
    first_child_vertex(model.tree(), v).is_some()
}

/// What a click on the bullet of the item at `v` sends: unfolding a folded
/// item, folding an unfolded item that has children, nothing otherwise.
pub fn bullet_message(v: NodeId, folded: bool, has_children: bool) -> (r: Option<Msg>)
    ensures
        r == if folded {
            Some(Msg::UnfoldChildren(v))
        } else if has_children {
            Some(Msg::FoldChildren(v))
        } else {
            None::<Msg>
        },
{
    if folded {
        Some(Msg::UnfoldChildren(v))
    } else if has_children {
        Some(Msg::FoldChildren(v))
    } else {
        None
    }
}

/// The items drawn right under the item at `v`, in order: all the root's
/// children under the title, and under any other item its children unless it
/// is folded.
pub open spec fn shown_children(model: Model, v: NodeId) -> Seq<NodeId> {
    if v == model.root_vertex() || !data_of(model.nodes(), v).folded {
        children_of(model.nodes(), v)
    } else {
        Seq::empty()
    }
}

/// The items to draw right under the item at `v`; see `shown_children`.
pub fn children_in_view(model: &Model, v: NodeId) -> (r: Vec<NodeId>)
    requires
        model.wf(),
        model.nodes().dom().contains(v),
    ensures
        r@ == shown_children(*model, v),
{
    let tree = model.tree();
    if same_vertex(v, model.root()) || !node_at(tree, v).folded {
        child_vertices(tree, v)
    } else {
        Vec::new()
    }
}

/// The item stored at `v`: its id, its text and whether it is folded.
pub fn item(model: &Model, v: NodeId) -> (r: &Node)
    requires
        model.wf(),
        model.nodes().dom().contains(v),
    ensures
        *r == data_of(model.nodes(), v),
{
    node_at(model.tree(), v)
}

} // verus!

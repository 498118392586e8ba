use generational_indextree::NodeId;
use seed_outliner::outline::{update, Model, Msg};
use seed_outliner::storage::{init, StoredNode};
use seed_outliner::view::{
    bullet_message, children_in_view, has_children, is_deletable, is_edited, item, react_to_key, shows_children, KeyPress,
    KeyReaction,
};

fn key(name: &str) -> KeyPress {
    KeyPress { key: name.to_string(), key_code: 0, is_composing: false, shift: false, ctrl: false, meta: false }
}

fn sample() -> Model {
    let row = |c: &str, p: Option<usize>| StoredNode { id: c.len() as u128, content: c.to_string(), folded: false, parent: p };
    init(Some(vec![row("root", None), row("a", Some(0)), row("a1", Some(1)), row("bb", Some(0))]))
}

fn kids(m: &Model, v: NodeId) -> Vec<NodeId> {
    v.children(m.tree()).collect()
}

#[test]
fn keys_map_to_messages() {
    assert_eq!(react_to_key(&key("Enter"), false), Some(KeyReaction { msg: Msg::InsertNewNode, prevent_default: true }));
    assert_eq!(react_to_key(&key("Backspace"), true), Some(KeyReaction { msg: Msg::DeleteNodeBackward, prevent_default: false }));
    assert_eq!(react_to_key(&key("Backspace"), false), None);
    assert_eq!(react_to_key(&key("Tab"), false), Some(KeyReaction { msg: Msg::IndentNode, prevent_default: true }));
    let shift_tab = KeyPress { shift: true, ..key("Tab") };
    assert_eq!(react_to_key(&shift_tab, false), Some(KeyReaction { msg: Msg::OutdentNode, prevent_default: true }));
    let ctrl_up = KeyPress { ctrl: true, ..key("ArrowUp") };
    assert_eq!(react_to_key(&ctrl_up, false), Some(KeyReaction { msg: Msg::MoveNodeUp, prevent_default: true }));
    let meta_down = KeyPress { meta: true, ..key("ArrowDown") };
    assert_eq!(react_to_key(&meta_down, false), Some(KeyReaction { msg: Msg::MoveNodeDown, prevent_default: true }));
    let both_down = KeyPress { meta: true, ctrl: true, ..key("ArrowDown") };
    assert_eq!(react_to_key(&both_down, false), None);
    assert_eq!(react_to_key(&key("ArrowUp"), false), None);
    assert_eq!(react_to_key(&key("x"), true), None);
}

#[test]
fn composition_blocks_keys() {
    let composing = KeyPress { is_composing: true, ..key("Enter") };
    assert_eq!(react_to_key(&composing, true), None);
    let ime = KeyPress { key_code: 229, ..key("Enter") };
    assert_eq!(react_to_key(&ime, true), None);
    let ime_back = KeyPress { key_code: 229, ..key("Backspace") };
    assert_eq!(react_to_key(&ime_back, true), None);
    let ime_tab = KeyPress { key_code: 229, ..key("Tab") };
    assert_eq!(react_to_key(&ime_tab, true), Some(KeyReaction { msg: Msg::IndentNode, prevent_default: true }));
}

#[test]
fn deletable_and_edited_follow_the_edited_item() {
    let mut m = sample();
    let a = kids(&m, m.root())[0];
    assert!(!is_deletable(&m));
    update(Msg::StartEditingNodeContent(Some(a)), &mut m, 0).unwrap();
    assert!(is_deletable(&m));
    assert!(is_edited(&m, 1));
    assert!(!is_edited(&m, 2));
    update(Msg::CaretPositionChanged, &mut m, 1).unwrap();
    assert!(!is_deletable(&m));
}

#[test]
fn bullets_fold_and_unfold() {
    let mut m = sample();
    let a = kids(&m, m.root())[0];
    let b = kids(&m, m.root())[1];
    assert!(shows_children(&m, a));
    assert!(!shows_children(&m, b));
    assert!(has_children(&m, a));
    assert!(!has_children(&m, b));
    assert_eq!(bullet_message(a, false, true), Some(Msg::FoldChildren(a)));
    assert_eq!(bullet_message(b, false, false), None);
    assert_eq!(bullet_message(b, true, false), Some(Msg::UnfoldChildren(b)));
    update(Msg::FoldChildren(a), &mut m, 0).unwrap();
    assert!(!shows_children(&m, a));
    assert!(has_children(&m, a));
    assert!(m.tree()[a].get().folded);
}

#[test]
fn drawn_children_skip_folded_items() {
    let mut m = sample();
    let root = m.root();
    let a = kids(&m, root)[0];
    let b = kids(&m, root)[1];
    let a1 = kids(&m, a)[0];
    assert_eq!(children_in_view(&m, root), vec![a, b]);
    assert_eq!(children_in_view(&m, a), vec![a1]);
    assert!(children_in_view(&m, b).is_empty());
    update(Msg::FoldChildren(a), &mut m, 0).unwrap();
    assert!(children_in_view(&m, a).is_empty());
    update(Msg::FoldChildren(root), &mut m, 0).unwrap();
    assert_eq!(children_in_view(&m, root), vec![a, b]);
    update(Msg::UnfoldChildren(a), &mut m, 0).unwrap();
    assert_eq!(children_in_view(&m, a), vec![a1]);
}

#[test]
fn item_reads_the_stored_node() {
    let m = sample();
    let root = m.root();
    let a = kids(&m, root)[0];
    assert_eq!(item(&m, root).content, "root");
    assert_eq!(item(&m, root).id, 4);
    assert_eq!(item(&m, a).content, "a");
    assert!(!item(&m, a).folded);
}

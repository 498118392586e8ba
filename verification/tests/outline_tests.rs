use generational_indextree::NodeId;
use seed_outliner::outline::{accepts, needs_caret, saves_after, update, Command, Model, Msg, UpdateError};
use seed_outliner::storage::{init, StoredNode};

fn kids(m: &Model, v: NodeId) -> Vec<NodeId> {
    v.children(m.tree()).collect()
}

fn text(m: &Model, v: NodeId) -> String {
    m.tree()[v].get().content.clone()
}

fn texts(m: &Model, v: NodeId) -> Vec<String> {
    kids(m, v).into_iter().map(|c| text(m, c)).collect()
}

fn step(m: &mut Model, msg: Msg, caret: u32) -> Vec<Command> {
    assert!(accepts(m, &msg));
    update(msg, m, caret).expect("message handled")
}

/// Handles a message and then the messages it asks for, as the application does.
fn run(m: &mut Model, msg: Msg, caret: u32) -> Vec<Command> {
    let cmds = step(m, msg, caret);
    let mut others = Vec::new();
    for c in cmds {
        match c {
            Command::Send(next) => others.extend(run(m, next, caret)),
            other => others.push(other),
        }
    }
    others
}

fn row(content: &str, parent: Option<usize>) -> StoredNode {
    StoredNode { id: 7, content: content.to_string(), folded: false, parent }
}

/// root
/// |- a
/// |  |- a1
/// |  `- a2
/// |- b
/// |- c
/// `- d
fn sample() -> Model {
    init(Some(vec![
        row("root", None),
        row("a", Some(0)),
        row("a1", Some(1)),
        row("a2", Some(1)),
        row("b", Some(0)),
        row("c", Some(0)),
        row("d", Some(0)),
    ]))
}

fn find(m: &Model, content: &str) -> NodeId {
    m.root()
        .descendants(m.tree())
        .find(|v| text(m, *v) == content)
        .expect("item present")
}

fn shape(m: &Model) -> Vec<(String, Vec<String>)> {
    m.root().descendants(m.tree()).map(|v| (text(m, v), texts(m, v))).collect()
}

#[test]
fn init_builds_welcome_outline() {
    let m = init(None);
    assert_eq!(text(&m, m.root()), "🌱 Seed Outliner");
    assert_eq!(
        texts(&m, m.root()),
        vec![
            "Welcome to Seed-Outliner!".to_string(),
            "You can click here to start editing contents.".to_string(),
            "You can indent items by pressing \"Tab\" key.".to_string(),
        ]
    );
    let indent = kids(&m, m.root())[2];
    assert_eq!(texts(&m, indent), vec!["...and unindent by pressing \"Shift + Tab\" key.".to_string()]);
    assert!(m.editing_node().is_none());
}

#[test]
fn init_with_invalid_rows_builds_welcome_outline() {
    let m = init(Some(vec![row("x", Some(0))]));
    assert_eq!(text(&m, m.root()), "🌱 Seed Outliner");
    let m = init(Some(vec![]));
    assert_eq!(text(&m, m.root()), "🌱 Seed Outliner");
    let m = init(Some(vec![row("r", None), row("y", Some(1))]));
    assert_eq!(text(&m, m.root()), "🌱 Seed Outliner");
}

#[test]
fn init_with_rows_builds_them() {
    let m = sample();
    assert_eq!(text(&m, m.root()), "root");
    assert_eq!(texts(&m, m.root()), vec!["a", "b", "c", "d"]);
    let a = find(&m, "a");
    assert_eq!(texts(&m, a), vec!["a1", "a2"]);
    assert_eq!(m.tree()[a].get().id, 7);
}

#[test]
fn start_editing_takes_the_items_text_and_caret() {
    let mut m = sample();
    let b = find(&m, "b");
    let cmds = step(&mut m, Msg::StartEditingNodeContent(Some(b)), 1);
    assert_eq!(cmds, vec![Command::FocusContent]);
    let e = m.editing_node().as_ref().unwrap();
    assert_eq!(e.vertex, b);
    assert_eq!(e.content, "b");
    assert_eq!(e.caret_position, 1);
    let cmds = step(&mut m, Msg::StartEditingNodeContent(None), 0);
    assert!(cmds.is_empty());
    assert!(m.editing_node().is_none());
}

#[test]
fn typing_then_saving_stores_the_text() {
    let mut m = sample();
    let b = find(&m, "b");
    step(&mut m, Msg::StartEditingNodeContent(Some(b)), 0);
    step(&mut m, Msg::EditingNodeContentChanged("bee".to_string()), 0);
    assert_eq!(text(&m, b), "b");
    step(&mut m, Msg::SaveEditedNodeContent, 0);
    assert_eq!(text(&m, b), "bee");
    assert!(m.editing_node().is_none());
}

#[test]
fn caret_moves_with_the_selection() {
    let mut m = sample();
    let b = find(&m, "b");
    step(&mut m, Msg::CaretPositionChanged, 4);
    assert!(m.editing_node().is_none());
    step(&mut m, Msg::StartEditingNodeContent(Some(b)), 0);
    step(&mut m, Msg::CaretPositionChanged, 1);
    assert_eq!(m.editing_node().as_ref().unwrap().caret_position, 1);
}

#[test]
fn split_at_caret_adds_item_after() {
    let mut m = init(None);
    let welcome = kids(&m, m.root())[0];
    step(&mut m, Msg::StartEditingNodeContent(Some(welcome)), 7);
    let cmds = step(&mut m, Msg::InsertNewNode, 7);
    let new = kids(&m, m.root())[1];
    assert_eq!(
        cmds,
        vec![
            Command::Send(Msg::EditingNodeContentChanged("Welcome".to_string())),
            Command::Send(Msg::SaveEditedNodeContent),
            Command::Send(Msg::StartEditingNodeContent(Some(new))),
        ]
    );
    assert_eq!(text(&m, new), " to Seed-Outliner!");
    assert!(!m.tree()[new].get().folded);
    for c in cmds {
        if let Command::Send(next) = c {
            step(&mut m, next, 0);
        }
    }
    assert_eq!(text(&m, welcome), "Welcome");
    assert_eq!(m.editing_node().as_ref().unwrap().vertex, new);
    assert_eq!(kids(&m, m.root()).len(), 4);
}

#[test]
fn split_counts_grapheme_clusters() {
    let mut m = init(Some(vec![row("root", None), row("a\u{310}e\u{301}o", Some(0))]));
    let item = kids(&m, m.root())[0];
    step(&mut m, Msg::StartEditingNodeContent(Some(item)), 0);
    let cmds = step(&mut m, Msg::InsertNewNode, 1);
    assert_eq!(cmds[0], Command::Send(Msg::EditingNodeContentChanged("a\u{310}".to_string())));
    assert_eq!(text(&m, kids(&m, m.root())[1]), "e\u{301}o");
}

#[test]
fn split_at_end_and_start() {
    let mut m = sample();
    let b = find(&m, "b");
    step(&mut m, Msg::StartEditingNodeContent(Some(b)), 0);
    let cmds = step(&mut m, Msg::InsertNewNode, 1);
    assert_eq!(cmds[0], Command::Send(Msg::EditingNodeContentChanged("b".to_string())));
    assert_eq!(texts(&m, m.root()), vec!["a", "b", "", "c", "d"]);
    let cmds = step(&mut m, Msg::InsertNewNode, 0);
    assert_eq!(cmds[0], Command::Send(Msg::EditingNodeContentChanged(String::new())));
    assert_eq!(texts(&m, m.root()), vec!["a", "b", "b", "", "c", "d"]);
}

#[test]
fn split_with_caret_beyond_text_is_refused() {
    let mut m = sample();
    let b = find(&m, "b");
    step(&mut m, Msg::StartEditingNodeContent(Some(b)), 0);
    let before = shape(&m);
    assert_eq!(update(Msg::InsertNewNode, &mut m, 2), Err(UpdateError::CaretBeyondContent));
    assert_eq!(shape(&m), before);
}

#[test]
fn split_without_edited_item_does_nothing() {
    let mut m = sample();
    let before = shape(&m);
    assert!(step(&mut m, Msg::InsertNewNode, 0).is_empty());
    assert_eq!(shape(&m), before);
}

#[test]
fn indent_makes_item_last_child_of_previous_sibling() {
    let mut m = sample();
    let b = find(&m, "b");
    step(&mut m, Msg::StartEditingNodeContent(Some(b)), 0);
    let cmds = step(&mut m, Msg::IndentNode, 0);
    assert_eq!(cmds, vec![Command::Send(Msg::SaveEditedNodeContent), Command::Send(Msg::StartEditingNodeContent(Some(b)))]);
    assert_eq!(texts(&m, m.root()), vec!["a", "c", "d"]);
    assert_eq!(texts(&m, find(&m, "a")), vec!["a1", "a2", "b"]);
}

#[test]
fn indent_of_first_child_does_nothing() {
    let mut m = sample();
    let a = find(&m, "a");
    step(&mut m, Msg::StartEditingNodeContent(Some(a)), 0);
    let before = shape(&m);
    assert!(step(&mut m, Msg::IndentNode, 0).is_empty());
    assert_eq!(shape(&m), before);
}

#[test]
fn outdent_undoes_indent() {
    let mut m = sample();
    let before = shape(&m);
    let c = find(&m, "c");
    step(&mut m, Msg::StartEditingNodeContent(Some(c)), 0);
    step(&mut m, Msg::IndentNode, 0);
    assert_ne!(shape(&m), before);
    let cmds = step(&mut m, Msg::OutdentNode, 0);
    assert_eq!(cmds, vec![Command::Send(Msg::SaveEditedNodeContent), Command::Send(Msg::StartEditingNodeContent(Some(c)))]);
    assert_eq!(shape(&m), before);
}

#[test]
fn outdent_adopts_following_siblings() {
    let mut m = init(Some(vec![
        row("root", None),
        row("a", Some(0)),
        row("a1", Some(1)),
        row("a2", Some(1)),
        row("a3", Some(1)),
        row("b", Some(0)),
    ]));
    let a1 = find(&m, "a1");
    step(&mut m, Msg::StartEditingNodeContent(Some(a1)), 0);
    step(&mut m, Msg::OutdentNode, 0);
    assert_eq!(texts(&m, m.root()), vec!["a", "a1", "b"]);
    assert_eq!(texts(&m, find(&m, "a")), Vec::<String>::new());
    assert_eq!(texts(&m, a1), vec!["a2", "a3"]);
}

#[test]
fn outdent_under_root_does_nothing() {
    let mut m = sample();
    let b = find(&m, "b");
    step(&mut m, Msg::StartEditingNodeContent(Some(b)), 0);
    let before = shape(&m);
    assert!(step(&mut m, Msg::OutdentNode, 0).is_empty());
    assert_eq!(shape(&m), before);
}

#[test]
fn move_up_swaps_with_previous_sibling_and_down_swaps_back() {
    let mut m = sample();
    let before = shape(&m);
    let c = find(&m, "c");
    step(&mut m, Msg::StartEditingNodeContent(Some(c)), 0);
    let cmds = step(&mut m, Msg::MoveNodeUp, 0);
    assert_eq!(cmds.len(), 2);
    assert_eq!(texts(&m, m.root()), vec!["a", "c", "b", "d"]);
    step(&mut m, Msg::MoveNodeDown, 0);
    assert_eq!(shape(&m), before);
}

#[test]
fn move_up_of_first_child_goes_to_end_of_parents_previous_sibling() {
    let mut m = init(Some(vec![
        row("root", None),
        row("a", Some(0)),
        row("a1", Some(1)),
        row("b", Some(0)),
        row("b1", Some(3)),
        row("b2", Some(3)),
    ]));
    let before = shape(&m);
    let b1 = find(&m, "b1");
    step(&mut m, Msg::StartEditingNodeContent(Some(b1)), 0);
    step(&mut m, Msg::MoveNodeUp, 0);
    assert_eq!(texts(&m, find(&m, "a")), vec!["a1", "b1"]);
    assert_eq!(texts(&m, find(&m, "b")), vec!["b2"]);
    step(&mut m, Msg::MoveNodeDown, 0);
    assert_eq!(shape(&m), before);
}

#[test]
fn move_down_of_last_child_goes_to_start_of_parents_next_sibling() {
    let mut m = sample();
    let before = shape(&m);
    let a2 = find(&m, "a2");
    step(&mut m, Msg::StartEditingNodeContent(Some(a2)), 0);
    step(&mut m, Msg::MoveNodeDown, 0);
    assert_eq!(texts(&m, find(&m, "a")), vec!["a1"]);
    assert_eq!(texts(&m, find(&m, "b")), vec!["a2"]);
    step(&mut m, Msg::MoveNodeUp, 0);
    assert_eq!(shape(&m), before);
}

#[test]
fn moves_at_the_ends_do_nothing() {
    let mut m = sample();
    let a = find(&m, "a");
    step(&mut m, Msg::StartEditingNodeContent(Some(a)), 0);
    let before = shape(&m);
    assert!(step(&mut m, Msg::MoveNodeUp, 0).is_empty());
    let d = find(&m, "d");
    step(&mut m, Msg::StartEditingNodeContent(Some(d)), 0);
    assert!(step(&mut m, Msg::MoveNodeDown, 0).is_empty());
    assert_eq!(shape(&m), before);
}

#[test]
fn rearranging_without_edited_item_does_nothing() {
    let mut m = sample();
    let before = shape(&m);
    for msg in [Msg::IndentNode, Msg::OutdentNode, Msg::MoveNodeUp, Msg::MoveNodeDown, Msg::DeleteNodeBackward] {
        assert!(step(&mut m, msg, 0).is_empty());
    }
    assert_eq!(shape(&m), before);
}

#[test]
fn delete_backward_merges_into_last_leaf_of_previous_sibling() {
    let mut m = sample();
    let b = find(&m, "b");
    let a2 = find(&m, "a2");
    step(&mut m, Msg::StartEditingNodeContent(Some(b)), 0);
    step(&mut m, Msg::EditingNodeContentChanged("B!".to_string()), 0);
    let cmds = step(&mut m, Msg::DeleteNodeBackward, 0);
    assert_eq!(cmds, vec![Command::Send(Msg::RemoveNode(b)), Command::FocusContentAt(2)]);
    assert_eq!(text(&m, a2), "a2B!");
    let e = m.editing_node().as_ref().unwrap();
    assert_eq!((e.vertex, e.content.as_str(), e.caret_position), (a2, "a2B!", 0));
    step(&mut m, Msg::RemoveNode(b), 0);
    assert_eq!(texts(&m, m.root()), vec!["a", "c", "d"]);
}

#[test]
fn delete_backward_of_first_child_merges_into_parent() {
    let mut m = sample();
    let a1 = find(&m, "a1");
    let a = find(&m, "a");
    step(&mut m, Msg::StartEditingNodeContent(Some(a1)), 0);
    let others = run(&mut m, Msg::DeleteNodeBackward, 0);
    assert_eq!(others, vec![Command::FocusContentAt(1)]);
    assert_eq!(text(&m, a), "aa1");
    assert_eq!(texts(&m, a), vec!["a2"]);
}

#[test]
fn delete_backward_of_first_item_under_root_does_nothing() {
    let mut m = sample();
    let a = find(&m, "a");
    step(&mut m, Msg::DeleteNodeBackward, 0);
    step(&mut m, Msg::StartEditingNodeContent(Some(a)), 0);
    let before = shape(&m);
    assert!(step(&mut m, Msg::DeleteNodeBackward, 0).is_empty());
    assert_eq!(shape(&m), before);
}

#[test]
fn delete_backward_with_children_merges_into_childless_previous_sibling() {
    let mut m = init(Some(vec![
        row("root", None),
        row("a", Some(0)),
        row("b", Some(0)),
        row("b1", Some(2)),
        row("c", Some(0)),
        row("c1", Some(4)),
    ]));
    let b = find(&m, "b");
    step(&mut m, Msg::StartEditingNodeContent(Some(b)), 0);
    run(&mut m, Msg::DeleteNodeBackward, 0);
    assert_eq!(texts(&m, m.root()), vec!["ab", "b1", "c"]);
}

#[test]
fn delete_backward_with_children_and_parent_previous_sibling_does_nothing() {
    let mut m = init(Some(vec![
        row("root", None),
        row("a", Some(0)),
        row("a1", Some(1)),
        row("b", Some(0)),
        row("b1", Some(3)),
    ]));
    let b = find(&m, "b");
    step(&mut m, Msg::StartEditingNodeContent(Some(b)), 0);
    let before = shape(&m);
    assert!(step(&mut m, Msg::DeleteNodeBackward, 0).is_empty());
    assert_eq!(shape(&m), before);
}

#[test]
fn delete_backward_reports_caret_in_graphemes() {
    let mut m = init(Some(vec![row("root", None), row("e\u{301}x", Some(0)), row("y", Some(0))]));
    let y = find(&m, "y");
    step(&mut m, Msg::StartEditingNodeContent(Some(y)), 0);
    let cmds = step(&mut m, Msg::DeleteNodeBackward, 0);
    assert_eq!(cmds[1], Command::FocusContentAt(2));
}

#[test]
fn remove_puts_children_in_place() {
    let mut m = sample();
    let a = find(&m, "a");
    step(&mut m, Msg::RemoveNode(a), 0);
    assert_eq!(texts(&m, m.root()), vec!["a1", "a2", "b", "c", "d"]);
}

#[test]
fn fold_then_unfold() {
    let mut m = sample();
    let a = find(&m, "a");
    let before = shape(&m);
    step(&mut m, Msg::FoldChildren(a), 0);
    assert!(m.tree()[a].get().folded);
    step(&mut m, Msg::UnfoldChildren(a), 0);
    assert!(!m.tree()[a].get().folded);
    assert_eq!(shape(&m), before);
}

#[test]
fn accepts_refuses_what_cannot_be_handled() {
    let mut m = sample();
    let root = m.root();
    let b = find(&m, "b");
    assert!(!accepts(&m, &Msg::StartEditingNodeContent(Some(root))));
    assert!(!accepts(&m, &Msg::RemoveNode(root)));
    assert!(accepts(&m, &Msg::RemoveNode(b)));
    step(&mut m, Msg::StartEditingNodeContent(Some(b)), 0);
    assert!(!accepts(&m, &Msg::RemoveNode(b)));
    step(&mut m, Msg::StartEditingNodeContent(None), 0);
    step(&mut m, Msg::RemoveNode(b), 0);
    assert!(!accepts(&m, &Msg::RemoveNode(b)));
    assert!(!accepts(&m, &Msg::FoldChildren(b)));
    assert!(!accepts(&m, &Msg::UnfoldChildren(b)));
    assert!(accepts(&m, &Msg::InsertNewNode));
    assert!(accepts(&m, &Msg::SaveEditedNodeContent));
}

#[test]
fn start_editing_a_removed_item_does_nothing() {
    let mut m = sample();
    let b = find(&m, "b");
    step(&mut m, Msg::RemoveNode(b), 0);
    assert!(step(&mut m, Msg::StartEditingNodeContent(Some(b)), 3).is_empty());
    assert!(m.editing_node().is_none());
}

#[test]
fn caret_is_read_only_for_some_messages() {
    let mut m = sample();
    let b = find(&m, "b");
    assert!(needs_caret(&m, &Msg::StartEditingNodeContent(Some(b))));
    assert!(!needs_caret(&m, &Msg::InsertNewNode));
    assert!(!needs_caret(&m, &Msg::CaretPositionChanged));
    assert!(!needs_caret(&m, &Msg::StartEditingNodeContent(None)));
    step(&mut m, Msg::StartEditingNodeContent(Some(b)), 0);
    assert!(needs_caret(&m, &Msg::InsertNewNode));
    assert!(needs_caret(&m, &Msg::CaretPositionChanged));
    assert!(!needs_caret(&m, &Msg::IndentNode));
    assert!(!needs_caret(&m, &Msg::DeleteNodeBackward));
    let a = find(&m, "a");
    step(&mut m, Msg::StartEditingNodeContent(None), 0);
    step(&mut m, Msg::RemoveNode(a), 0);
    assert!(!needs_caret(&m, &Msg::StartEditingNodeContent(Some(a))));
}

fn items(m: &Model) -> Vec<(u128, String, bool)> {
    let mut all: Vec<(u128, String, bool)> = m
        .root()
        .descendants(m.tree())
        .map(|v| {
            let n = m.tree()[v].get();
            (n.id, n.content.clone(), n.folded)
        })
        .collect();
    all.sort();
    all
}

#[test]
fn rearranging_keeps_every_item() {
    let mut m = sample();
    let before = items(&m);
    let a2 = find(&m, "a2");
    let c = find(&m, "c");
    step(&mut m, Msg::StartEditingNodeContent(Some(c)), 0);
    for msg in [Msg::IndentNode, Msg::MoveNodeUp, Msg::MoveNodeUp, Msg::OutdentNode, Msg::MoveNodeDown] {
        step(&mut m, msg, 0);
    }
    step(&mut m, Msg::StartEditingNodeContent(Some(a2)), 0);
    for msg in [Msg::OutdentNode, Msg::IndentNode, Msg::MoveNodeDown, Msg::MoveNodeDown] {
        step(&mut m, msg, 0);
    }
    assert_eq!(items(&m), before);
    assert_eq!(m.editing_node().as_ref().unwrap().vertex, a2);
}

#[test]
fn storing_is_skipped_only_where_handling_ends_early() {
    let mut m = sample();
    for msg in [Msg::IndentNode, Msg::OutdentNode, Msg::MoveNodeUp, Msg::MoveNodeDown] {
        assert!(!saves_after(&m, &msg));
    }
    assert!(saves_after(&m, &Msg::DeleteNodeBackward));
    assert!(saves_after(&m, &Msg::SaveEditedNodeContent));
    assert!(saves_after(&m, &Msg::CaretPositionChanged));
    let b = find(&m, "b");
    step(&mut m, Msg::StartEditingNodeContent(Some(b)), 0);
    assert!(!saves_after(&m, &Msg::OutdentNode));
    assert!(saves_after(&m, &Msg::IndentNode));
    assert!(saves_after(&m, &Msg::MoveNodeUp));
    assert!(saves_after(&m, &Msg::MoveNodeDown));
    let a1 = find(&m, "a1");
    step(&mut m, Msg::StartEditingNodeContent(Some(a1)), 0);
    assert!(saves_after(&m, &Msg::OutdentNode));
}

#[test]
fn ending_early_changes_nothing() {
    let mut m = sample();
    let b = find(&m, "b");
    step(&mut m, Msg::StartEditingNodeContent(Some(b)), 0);
    let before = shape(&m);
    assert!(!saves_after(&m, &Msg::OutdentNode));
    assert!(step(&mut m, Msg::OutdentNode, 0).is_empty());
    assert_eq!(shape(&m), before);
    assert_eq!(m.editing_node().as_ref().map(|e| e.vertex), Some(b));
}

fn ids(m: &Model) -> Vec<u128> {
    m.root().descendants(m.tree()).map(|v| m.tree()[v].get().id).collect()
}

#[test]
fn item_ids_stay_distinct() {
    let numbered = |id: u128, content: &str, parent: Option<usize>| StoredNode {
        id,
        content: content.to_string(),
        folded: false,
        parent,
    };
    let mut m = init(Some(vec![
        numbered(1, "root", None),
        numbered(2, "a", Some(0)),
        numbered(3, "a1", Some(1)),
        numbered(4, "b", Some(0)),
    ]));
    let b = find(&m, "b");
    run(&mut m, Msg::StartEditingNodeContent(Some(b)), 0);
    run(&mut m, Msg::IndentNode, 0);
    run(&mut m, Msg::InsertNewNode, 1);
    run(&mut m, Msg::EditingNodeContentChanged("c".to_string()), 0);
    run(&mut m, Msg::SaveEditedNodeContent, 0);
    let a1 = find(&m, "a1");
    run(&mut m, Msg::StartEditingNodeContent(Some(a1)), 0);
    run(&mut m, Msg::MoveNodeDown, 0);
    let mut seen = ids(&m);
    assert_eq!(seen.len(), 5);
    seen.sort();
    seen.dedup();
    assert_eq!(seen.len(), 5);
}

use generational_indextree::NodeId;
use seed_outliner::outline::{update, Model, Msg};
use seed_outliner::storage::{init, rows_are_valid, stored_nodes, StoredNode};

fn row(id: u128, content: &str, parent: Option<usize>) -> StoredNode {
    StoredNode { id, content: content.to_string(), folded: false, parent }
}

fn outline(m: &Model) -> Vec<(u128, String, bool, Vec<u128>)> {
    let tree = m.tree();
    m.root()
        .descendants(tree)
        .map(|v: NodeId| {
            let node = tree[v].get();
            (node.id, node.content.clone(), node.folded, v.children(tree).map(|c| tree[c].get().id).collect())
        })
        .collect()
}

#[test]
fn rows_are_checked() {
    assert!(rows_are_valid(&vec![row(1, "r", None), row(2, "a", Some(0)), row(3, "b", Some(1))]));
    assert!(!rows_are_valid(&vec![]));
    assert!(!rows_are_valid(&vec![row(1, "r", Some(0))]));
    assert!(!rows_are_valid(&vec![row(1, "r", None), row(2, "a", None)]));
    assert!(!rows_are_valid(&vec![row(1, "r", None), row(2, "a", Some(1))]));
    assert!(!rows_are_valid(&vec![row(1, "r", None), row(2, "a", Some(0)), row(3, "b", Some(5))]));
}

#[test]
fn stored_rows_list_root_first_then_by_levels() {
    let m = init(Some(vec![
        row(1, "root", None),
        row(2, "a", Some(0)),
        row(3, "b", Some(0)),
        row(4, "b1", Some(2)),
        row(5, "a1", Some(1)),
    ]));
    let rows = stored_nodes(&m);
    let ids: Vec<(u128, Option<usize>)> = rows.iter().map(|r| (r.id, r.parent)).collect();
    assert_eq!(ids, vec![(1, None), (2, Some(0)), (3, Some(0)), (5, Some(1)), (4, Some(2))]);
    assert_eq!(rows[3].content, "a1");
}

#[test]
fn load_after_store_gives_the_same_outline() {
    let mut m = init(None);
    let first = m.root().children(m.tree()).next().unwrap();
    let third = m.root().children(m.tree()).nth(2).unwrap();
    update(Msg::FoldChildren(third), &mut m, 0).unwrap();
    update(Msg::StartEditingNodeContent(Some(first)), &mut m, 0).unwrap();
    update(Msg::MoveNodeDown, &mut m, 0).unwrap();
    update(Msg::IndentNode, &mut m, 0).unwrap();
    let rows = stored_nodes(&m);
    assert!(rows_are_valid(&rows));
    let loaded = init(Some(rows));
    assert_eq!(outline(&loaded), outline(&m));
    assert!(loaded.editing_node().is_none());
}

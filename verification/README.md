# seed_outliner

An outline editor: a tree of text items under a title, edited in the browser.
Items can be split at the caret, merged backward, indented, outdented, moved
up and down, folded, and are kept in local storage.

- `src/` is the verified library (Verus).
  - `forest.rs`: the model of the tree (parent, ordered children and node of
    each vertex) and the edits on it; `forest_proofs.rs` proves that the edits
    keep it a tree under its root.
  - `arena.rs`: the `generational_indextree` arena that stores the tree, and the
    trusted items through which it is used.
  - `outline.rs`: the editor's state, its messages, and `update`, whose contract
    states what each message does; `saves_after` says when the outline is
    stored again afterwards.
  - `storage.rs`: the welcome outline, loading an outline from stored rows, and
    the rows an outline is stored as.
  - `text.rs`, `ids.rs`: grapheme clusters (`unicode-segmentation`) and random
    item ids (`uuid`).
  - `view.rs`: what the page shows (the items under each item, folded ones
    hiding theirs) and how keys and clicks are answered.
  - `laws.rs`: laws of the editor, proved.
- `tests/`: tests of the library.
- `app/`: the seed application: rendering, the DOM caret, local storage.

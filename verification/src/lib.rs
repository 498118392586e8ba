//! An outline editor's logic: a tree of text nodes that can be edited,
//! split, merged, indented, outdented, moved and folded.

pub mod forest;
pub mod arena;
pub mod seq_facts;
pub mod forest_proofs;
pub mod text;
pub mod ids;
pub mod outline;
pub mod storage;
pub mod laws;
pub mod view;

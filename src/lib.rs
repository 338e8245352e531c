//! A stack of geometrically sized tries of ordered tuples `(k1, ..., kn, w)`,
//! merged progressively as batches of tuples arrive, with k-way merging
//! cursors that present the stack as one ordered sequence.

pub mod arbor;
pub mod arbor_index;
pub mod layer;
pub mod leaf;
pub mod merge;
pub mod trie;

pub use arbor::Arbor;
pub use arbor_index::{ArborIndex, KeyLocation};
pub use layer::{TrieCursor, TrieLayer};
pub use leaf::SliceCursor;
pub use merge::{CursorMerger, CursorView};
pub use trie::{advance, Cursor, TrieRef, TrieStorage};

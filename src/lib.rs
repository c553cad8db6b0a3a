//! Quartet topology inference from spaced-word anchors shared by four genomes.

pub mod spaced_word;
pub mod sequence;
pub mod order;
pub mod names;
pub mod pblock;
pub mod qtree;
pub mod store;
pub mod search;
pub mod stats;
pub mod collect;
pub mod header;
pub mod text;
pub mod pairs;
pub mod opt;

pub use spaced_word::SpacedWord;
pub use sequence::Sequence;
pub use pblock::PBlock;
pub use qtree::{QTree, Topology};
pub use store::SequenceStore;

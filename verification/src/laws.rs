//! What the operations of the library are for, stated of their results.

pub mod attributes;
pub mod blocks;
pub mod completion;
pub mod documents;
pub mod extents;
pub mod fixes;
pub mod hover;
pub mod navigation;
pub mod parsing;
pub mod positions;
pub mod programs;
pub mod remarks;
pub mod renaming;
pub mod sessions;
pub mod sources;

//! Split-and-merge image segmentation: the verified core.
//!
//! Rectangular regions are cut recursively into a split tree, whose leaves are
//! then merged through a disjoint-set forest that tracks, for every current
//! region, the regions adjacent to it. The two phases are state machines:
//! a driver hands their requests to workers and feeds the answers back.

pub mod area;
pub mod disjoint_set;
pub mod error;
mod id_list;
pub mod image_container;
pub mod merge_phase;
pub mod split_phase;
pub mod split_tree;
pub mod strategies;

pub use area::{Area, AreaMarker, Mask};
pub use disjoint_set::{DisjointSet, DisjointSets};
pub use error::SplitMergeError;
pub use image_container::{CutDirection, ImageContainer, ImageContainerSplit};
pub use merge_phase::MergeState;
pub use split_phase::SplitState;
pub use split_tree::SplitTree;
pub use strategies::{
    is_split_too_asymetric, refined_cut, uses_gradients, BlindMerger, BlindSplitter, CompleateState, LoggerTrait, MergerTrait,
    NullLogger, SplitMergeState, SplitterTrait,
};

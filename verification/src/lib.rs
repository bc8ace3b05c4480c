//! A codec for hash-keyed parameter trees.
//!
//! A parameter tree is a nested value: typed scalars at the leaves, ordered
//! lists, and structs whose entries are keyed by 40-bit hashes. This crate
//! holds the value model, the binary reader and writer for it, the label
//! table that gives hashes readable names, and the read-only addressing that
//! a presentation layer uses to walk a tree.
pub mod decode;
pub mod encode;
pub mod format;
pub mod hash40;
pub mod labels;
pub mod param;
pub mod roundtrip;
pub mod strings;
pub mod tables;
pub mod tree;
pub mod wellformed;
pub mod wire;

pub use decode::decode;
pub use encode::{encode, try_encode};
pub use format::DecodeError;
pub use hash40::{Hash40, ParseError};
pub use labels::{load_labels, LabelTable};
pub use param::ParamValue;
pub use tree::{ParamParent, ParamTreeNode, ParentInfo, TreeMessage, TreeProps};

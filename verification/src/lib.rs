//! A browsable tree over a catalog of fixed-width hierarchical classification codes.
//!
//! A code is nineteen decimal digits: ten levels of two digits each, once a zero is put in
//! front. The catalog's records are worked into a tree of labelled nodes, a path of slots
//! names a node of it, and a navigation state holds which paths are expanded and which one is
//! selected.

pub mod browser;
pub mod catalog;
pub mod code;
pub mod error;
pub mod state;
pub mod stateful;
pub mod tree;
pub mod visible;

pub use crate::browser::{command_for_key, App, Command, Key};
pub use crate::catalog::{build_tree, Goods};
pub use crate::code::{code_2_vec, vec_2_code, CODE_LEN, LEVELS};
pub use crate::error::CatalogError;
pub use crate::state::{Intent, TreeState};
pub use crate::stateful::StatefulTree;
pub use crate::tree::{child_count, get_item, label_of, resolve, TreeItem};

//! A B-link tree over byte-string keys.
//!
//! Pages are kept as append-only logs (`pages`), the content of a page is a
//! `Node` (`node`, `data`, `bound`), and `tree` holds the search, the updates
//! and the splits. `layout` says how the pages of a tree are linked, and
//! `splits` what the splits do to the page table. `text` writes pages out, and
//! `reading` says what can be read back.
pub mod bound;
pub mod data;
pub mod frag;
pub mod key;
pub mod laws;
pub mod layout;
pub mod node;
pub mod pages;
pub mod reading;
pub mod splits;
pub mod text;
pub mod tree;

pub use crate::bound::Bound;
pub use crate::data::Data;
pub use crate::frag::{Frag, ParentSplit};
pub use crate::key::{Key, PageID, Value};
pub use crate::node::Node;
pub use crate::pages::{Frags, Pages};
pub use crate::tree::Tree;

//! Hierarchical todo lists kept as plain-text `.todo` files: the date parser,
//! the indentation-based outline parser and its serializer, item paths and the
//! operations on the item tree.
use vstd::prelude::*;

pub mod date;
pub mod document;
pub mod error;
pub mod format;
pub mod item;
pub mod list;
pub mod output;
pub mod path;
pub mod text;

verus! {

} // verus!

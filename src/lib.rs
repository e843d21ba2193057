//! A small directed graph whose nodes carry an id and a value, with a line-based
//! text format and a path-bounded depth-first traversal.
pub mod format;
pub mod graph;
pub mod node;
pub mod round_trip;
pub mod text;
pub mod walk;

pub use format::UnmarshalError;
pub use graph::{Graph, GraphError};
pub use node::{Node, ParseError, Relation};
pub use text::TextValue;

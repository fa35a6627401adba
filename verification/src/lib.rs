//! A small path-expression language for addressing locations inside a
//! JSON-like tree: `$a.b[0].#var` style text compiles once into a reusable
//! `Structpath`, which can then read (`get`), mutate (`write`), enumerate
//! (`walk`) and exhaustively search (`iter_variables`) trees.
//!
//! Every operation is specified against a mathematical model of paths and
//! trees, and the laws tying them together — the format/parse round trip,
//! write idempotence, walker completeness and post-order, and the
//! exactness of the variable search — are proved in `laws`.

use vstd::prelude::*;

pub mod access;
pub mod digits;
pub mod format;
pub mod iter;
pub mod laws;
pub mod parse;
pub mod text;
pub mod types;
pub mod value;
pub mod walk;
pub mod write;

pub use access::Bindings;
pub use iter::VariableIterator;
pub use types::{Segment, SegmentKey, Structpath, StructpathError};
pub use value::Value;
pub use walk::Walker;

verus! {

} // verus!

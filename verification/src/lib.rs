//! Tree-construction back end of an HTML parser.
//!
//! A mutable arena of nodes ([`sink::Sink`]) executes the structural
//! operations issued by an HTML5 tree-construction algorithm (append,
//! insert-before, detach, reparent, text coalescing, attribute merging).
//! When input is exhausted the arena is consumed once and converted into a
//! strictly-owned tree ([`owned::Node`]), which a serializer
//! ([`owned::Node::serialize`]) renders back to markup.

pub mod node;
pub mod owned;
pub mod paths;
pub mod serialize;
pub mod sink;
pub mod types;

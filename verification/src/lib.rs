//! An arena-backed syntax tree engine.
//!
//! A [`TreeBuilder`] turns a stream of `open_node` / `close_node` / `token`
//! calls into a frozen [`Tree`]: one append-only arena of slots in document
//! order, each slot an interior node or a leaf token with a span, wired to
//! its parent, siblings and children by plain indices.  [`Node`] is a
//! borrowed view into the arena exposing constant-time navigation, and the
//! iterator types ([`Ancestors`], [`Siblings`], [`Children`],
//! [`SkipTokens`], [`Walk`], [`WithDepths`], [`WalkEvents`]) compose those
//! primitives into allocation-free traversals.  The [`print`] module
//! renders a tree to a line-per-node dump.
//!
//! The model behind every contract lives in [`model`]: well-formedness of
//! the link structure, the span discipline, and the spec-level navigation
//! chains.  The [`laws`] module states the library-wide guarantees once,
//! proved for every well-formed tree.

pub mod span;
pub mod links;
pub mod model;
pub mod facts;
pub mod builder;
pub mod tree;
pub mod node;
pub mod ancestors;
pub mod siblings;
pub mod children;
pub mod skip_tokens;
pub mod walk;
pub mod walk_events;
pub mod print;
pub mod laws;

pub use span::Span;
pub use links::Kind;
pub use builder::{TreeBuilder, TreeError, Id};
pub use tree::Tree;
pub use node::Node;
pub use ancestors::Ancestors;
pub use siblings::Siblings;
pub use children::Children;
pub use skip_tokens::SkipTokens;
pub use walk::{Walk, WithDepths};
pub use walk_events::{Event, WalkEvents};
pub use print::TreeLabel;

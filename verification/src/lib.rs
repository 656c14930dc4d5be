//! Turn an ordered, arbitrarily nested parse tree into a flat stream of
//! semantic triples whose subject is decided by the ancestor chain, not by
//! the node itself.
//!
//! [`tree`] holds the tree model, its pre-order mathematics and a cursor;
//! [`walker`] yields the depth-annotated pre-order visit stream; [`terms`]
//! holds identifiers, triples and the keyword/namespace resolution rule;
//! [`generator`] is the context-stack state machine that turns the stream
//! into triples.

pub mod generator;
pub mod terms;
pub mod tree;
pub mod walker;

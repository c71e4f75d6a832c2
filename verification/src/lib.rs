//! Federated GraphQL execution core: operation parsing and binding, query
//! planning across subgraphs, response-tree construction with typed ingestion
//! of upstream JSON bodies, and GraphQL error propagation.
//!
//! Local introspection serves `__typename`; the `__schema` and `__type`
//! metadata trees are not modelled, so operations naming them are rejected
//! at binding like any unknown field.

pub mod dser;
pub mod engine;
pub mod error;
pub mod json;
pub mod operation;
pub mod resolver;
pub mod respond;
pub mod shape;
pub mod status;
pub mod upstream;
pub mod write;

use vstd::prelude::*;

verus! {

/// A step in a response path: a bound response key, a synthesized extra-field
/// key, or a list index.
#[derive(Clone, Copy, PartialEq, Eq, Structural, Debug)]
pub enum ResponseEdge {
    Key(usize),
    ExtraKey(usize),
    Index(usize),
}

} // verus!

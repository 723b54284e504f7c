//! A syntactic code indexer. Given a parsed source file and a query whose
//! captures mark scopes, definitions and references, the library organizes
//! the matches into a nested scope tree, resolves every use of a
//! locally-bound name to the definition that binds it under lexical
//! shadowing rules, and emits the occurrence list under stable,
//! document-local symbols. The whole resolver is specified and verified;
//! the external parser and pattern matcher stand behind a small trusted
//! boundary that reduces their values to plain records.
use vstd::prelude::*;

pub mod classify;
pub mod emit;
pub mod index;
pub mod languages;
pub mod laws;
pub mod model;
pub mod range;
pub mod scope;
pub mod sort;
pub mod symbol;
pub mod tags;
pub mod ts;
pub mod ts_node;

pub use classify::{Classified, MatchKind, PatternMatch, PatternProperty};
pub use index::{index_matches, parse_tree};
pub use model::{
    Definition, LocalError, NodeInfo, OccRange, Occurrence, Reference, ScopeModifier,
    ROLE_DEFINITION,
};
pub use range::ByteRange;
pub use scope::Scope;

verus! {

/// Plain addition on sizes, for callers that want the overflow ruled out
/// by contract.
pub fn add(left: usize, right: usize) -> (r: usize)
    requires
        left + right <= usize::MAX,
    ensures
        r == left + right,
{
    left + right
}

} // verus!

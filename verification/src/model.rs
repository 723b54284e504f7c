use vstd::prelude::*;

use crate::range::ByteRange;

verus! {

/// What the core reads of a syntax-tree node: its stable identity, its byte
/// range, and its line/column positions. The external parser's node handles
/// are reduced to this plain record at the boundary.
#[derive(Debug, Clone, Copy, PartialEq, Eq, Structural)]
pub struct NodeInfo {
    pub id: usize,
    pub start_byte: usize,
    pub end_byte: usize,
    pub start_row: usize,
    pub start_col: usize,
    pub end_row: usize,
    pub end_col: usize,
}

impl NodeInfo {
    pub open spec fn spec_range(self) -> ByteRange {
        ByteRange { start: self.start_byte, end: self.end_byte }
    }

    pub fn byte_range(&self) -> (r: ByteRange)
        ensures
            r == self.spec_range(),
    {
        ByteRange { start: self.start_byte, end: self.end_byte }
    }
}

/// Where a definition is bound, relative to the innermost scope that
/// contains it: the innermost scope itself (the default), its parent,
/// or the root scope.
#[derive(Debug, Default, Clone, Copy, PartialEq, Eq, Structural)]
pub enum ScopeModifier {
    #[default]
    Local,
    Parent,
    Global,
}

/// A syntactic position that introduces a binding of `identifier`.
#[derive(Debug, Clone)]
pub struct Definition {
    pub group: String,
    pub identifier: String,
    pub node: NodeInfo,
    pub range: ByteRange,
    pub scope_modifier: ScopeModifier,
}

/// A syntactic position that uses `identifier`.
#[derive(Debug, Clone)]
pub struct Reference {
    pub group: String,
    pub identifier: String,
    pub node: NodeInfo,
    pub range: ByteRange,
}

#[verifier::ext_equal]
pub ghost struct DefView {
    pub group: Seq<char>,
    pub identifier: Seq<char>,
    pub node: NodeInfo,
    pub range: ByteRange,
    pub scope_modifier: ScopeModifier,
}

#[verifier::ext_equal]
pub ghost struct RefView {
    pub group: Seq<char>,
    pub identifier: Seq<char>,
    pub node: NodeInfo,
    pub range: ByteRange,
}

impl View for Definition {
    type V = DefView;

    open spec fn view(&self) -> DefView {
        DefView {
            group: self.group@,
            identifier: self.identifier@,
            node: self.node,
            range: self.range,
            scope_modifier: self.scope_modifier,
        }
    }
}

impl View for Reference {
    type V = RefView;

    open spec fn view(&self) -> RefView {
        RefView {
            group: self.group@,
            identifier: self.identifier@,
            node: self.node,
            range: self.range,
        }
    }
}

/// A `[start_line, start_col, end_line, end_col]` position tuple for an
/// emitted occurrence, taken from the node the occurrence is about.
#[derive(Debug, Clone, Copy, PartialEq, Eq, Structural)]
pub struct OccRange {
    pub start_line: usize,
    pub start_col: usize,
    pub end_line: usize,
    pub end_col: usize,
}

impl OccRange {
    pub open spec fn spec_of_node(n: NodeInfo) -> OccRange {
        OccRange {
            start_line: n.start_row,
            start_col: n.start_col,
            end_line: n.end_row,
            end_col: n.end_col,
        }
    }

    pub fn of_node(n: &NodeInfo) -> (r: OccRange)
        ensures
            r == OccRange::spec_of_node(*n),
    {
        OccRange {
            start_line: n.start_row,
            start_col: n.start_col,
            end_line: n.end_row,
            end_col: n.end_col,
        }
    }
}

/// The role bit marking an occurrence as a definition.
pub const ROLE_DEFINITION: u32 = 1;

/// An output record: a source position, the local symbol bound or used
/// there, and the role bits (definition or plain use).
#[derive(Debug, Clone)]
pub struct Occurrence {
    pub range: OccRange,
    pub symbol: String,
    pub symbol_roles: u32,
}

#[verifier::ext_equal]
pub ghost struct OccView {
    pub range: OccRange,
    pub symbol: Seq<char>,
    pub symbol_roles: u32,
}

impl View for Occurrence {
    type V = OccView;

    open spec fn view(&self) -> OccView {
        OccView { range: self.range, symbol: self.symbol@, symbol_roles: self.symbol_roles }
    }
}

/// The fatal errors of match ingestion. Anything else (an unresolved
/// reference, an empty scope) is silent and expected.
#[derive(Debug, Clone, Copy, PartialEq, Eq, Structural)]
pub enum LocalError {
    /// A match mixes or repeats the recognized capture categories, or a
    /// scope-modifier property carries an unknown value.
    MalformedQuery { pattern_index: usize },
    /// A captured node's byte range does not lie within the source buffer
    /// or does not decode as UTF-8.
    InvalidSource,
    /// An internal contradiction in the match stream: a match with no
    /// recognized category, or an index that points outside the tables
    /// the query provided.
    InvariantViolation,
}

} // verus!

use vstd::prelude::*;

use crate::classify::{CaptureInfo, PatternMatch, PatternProperty};
use crate::model::NodeInfo;

verus! {

// The boundary to the external parser and pattern matcher. Every item here
// is trusted: its body reduces the matcher's values to the plain records
// the verified core works on, and nothing is promised about what the
// matcher finds — the core is verified for every value these can return.
#[verifier::external_type_specification]
#[verifier::external_body]
pub struct ExLanguage(tree_sitter::Language);

#[verifier::external_type_specification]
#[verifier::external_body]
pub struct ExParser(tree_sitter::Parser);

#[verifier::external_type_specification]
#[verifier::external_body]
pub struct ExQuery(tree_sitter::Query);

#[verifier::external_type_specification]
#[verifier::external_body]
pub struct ExTree(tree_sitter::Tree);

/// Relies on tree_sitter_rust::language, which hands out the grammar.
#[verifier::external_body]
pub fn language_rust() -> tree_sitter::Language {
    tree_sitter_rust::language()
}

/// Relies on tree_sitter_go::language, which hands out the grammar.
#[verifier::external_body]
pub fn language_go() -> tree_sitter::Language {
    tree_sitter_go::language()
}

/// Relies on tree_sitter::Parser::new.
#[verifier::external_body]
pub fn parser_new() -> tree_sitter::Parser {
    tree_sitter::Parser::new()
}

/// Relies on tree_sitter::Parser::set_language: true exactly when the
/// parser accepted the grammar.
#[verifier::external_body]
pub fn parser_set_language(parser: &mut tree_sitter::Parser, language: tree_sitter::Language) -> (r:
    bool) {
    parser.set_language(language).is_ok()
}

/// Relies on tree_sitter::Parser::parse with no old tree; the result is
/// whatever concrete syntax tree the parser produced, if any.
#[verifier::external_body]
pub fn parser_parse(parser: &mut tree_sitter::Parser, source: &[u8]) -> (r: Option<
    tree_sitter::Tree,
>) {
    parser.parse(source, None)
}

/// Relies on tree_sitter::Query::new: a compiled query when the grammar
/// accepts the query text, and nothing when it refuses it. The text is
/// passed with a trailing newline, which never changes a query's meaning:
/// this version's error reporting takes the name at a compile error to end
/// before some non-name character, and without the newline a name-shaped
/// error at the very end of the text would run past it and panic.
#[verifier::external_body]
pub fn query_new(language: tree_sitter::Language, source: &str) -> (r: Option<tree_sitter::Query>) {
    tree_sitter::Query::new(language, format!("{}\n", source).as_str()).ok()
}

/// Relies on tree_sitter::Query::capture_names: the query's capture name
/// table, copied out.
#[verifier::external_body]
pub fn query_capture_names(query: &tree_sitter::Query) -> (r: Vec<String>) {
    query.capture_names().to_vec()
}

/// Relies on tree_sitter::Query::pattern_count and
/// tree_sitter::Query::property_settings: the property settings of every
/// pattern, in pattern order, each key/value pair copied out.
#[verifier::external_body]
pub fn query_property_table(query: &tree_sitter::Query) -> (r: Vec<Vec<PatternProperty>>) {
    (0..query.pattern_count()).map(
        |i|
            query.property_settings(i).iter().map(
                |p|
                    PatternProperty {
                        key: p.key.to_string(),
                        value: p.value.as_ref().map(|v| v.to_string()),
                    },
            ).collect(),
    ).collect()
}

/// Relies on tree_sitter::Tree::root_node and the node accessors id,
/// start_byte, end_byte, start_position and end_position.
#[verifier::external_body]
pub fn tree_root_info(tree: &tree_sitter::Tree) -> (r: NodeInfo) {
    let node = tree.root_node();
    NodeInfo {
        id: node.id(),
        start_byte: node.start_byte(),
        end_byte: node.end_byte(),
        start_row: node.start_position().row,
        start_col: node.start_position().column,
        end_row: node.end_position().row,
        end_col: node.end_position().column,
    }
}

/// Relies on tree_sitter::QueryCursor::new and QueryCursor::matches: every
/// match of the query over the tree, in the matcher's order, each capture
/// reduced to its index and its node's identity, bytes and positions.
#[verifier::external_body]
pub fn collect_matches(
    query: &tree_sitter::Query,
    tree: &tree_sitter::Tree,
    source: &[u8],
) -> (r: Vec<PatternMatch>) {
    let mut cursor = tree_sitter::QueryCursor::new();
    let conv = |n: tree_sitter::Node| NodeInfo {
        id: n.id(), start_byte: n.start_byte(), end_byte: n.end_byte(),
        start_row: n.start_position().row, start_col: n.start_position().column,
        end_row: n.end_position().row, end_col: n.end_position().column,
    };
    cursor.matches(query, tree.root_node(), source).map(|m| PatternMatch {
        pattern_index: m.pattern_index,
        captures: m.captures.iter().map(|c| CaptureInfo { index: c.index as usize, node: conv(c.node) }).collect(),
    }).collect()
}

} // verus!

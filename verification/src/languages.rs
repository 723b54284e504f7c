use vstd::prelude::*;

use crate::ts;

verus! {

/// A language's tagging setup: its grammar, the compiled tag query, and a
/// parser primed with the grammar.
pub struct TagConfiguration {
    pub language: tree_sitter::Language,
    pub query: tree_sitter::Query,
    pub parser: tree_sitter::Parser,
}

/// A language's local-resolution setup: its grammar, the compiled locals
/// query, and a parser primed with the grammar.
pub struct LocalConfiguration {
    pub language: tree_sitter::Language,
    pub query: tree_sitter::Query,
    pub parser: tree_sitter::Parser,
}

fn tag_configuration_for(
    language: tree_sitter::Language,
    query_text: &str,
) -> (r: Option<TagConfiguration>) {
    let query = match ts::query_new(language, query_text) {
        Some(q) => q,
        None => {
            return None;
        },
    };
    let mut parser = ts::parser_new();
    if !ts::parser_set_language(&mut parser, language) {
        return None;
    }
    Some(TagConfiguration { language, query, parser })
}

fn local_configuration_for(
    language: tree_sitter::Language,
    query_text: &str,
) -> (r: Option<LocalConfiguration>) {
    let query = match ts::query_new(language, query_text) {
        Some(q) => q,
        None => {
            return None;
        },
    };
    let mut parser = ts::parser_new();
    if !ts::parser_set_language(&mut parser, language) {
        return None;
    }
    Some(LocalConfiguration { language, query, parser })
}

/// The tagging setup for Rust sources; nothing when the grammar refuses
/// the query.
pub fn rust() -> (r: Option<TagConfiguration>) {
    let query = "
        (mod_item
         name: (_) @descriptor.namespace) @scope

        (trait_item
         name: (_) @descriptor.type) @scope

        (impl_item
         trait: (_) @descriptor.type
         type: (_) @descriptor.type) @scope

        (function_signature_item
         name: (identifier) @descriptor.method)

        (function_item
         name: (identifier) @descriptor.method)

        (struct_item
         name: (type_identifier) @descriptor.type) @scope
        ";
    tag_configuration_for(crate::ts::language_rust(), query)
}

/// The tagging setup for Go sources; nothing when the grammar refuses the
/// query.
pub fn go() -> (r: Option<TagConfiguration>) {
    let query = "
        (source_file (package_clause (package_identifier) @descriptor.namespace)) @scope

        (function_declaration
         name: (identifier) @descriptor.method)

        (method_declaration
            receiver:
                (parameter_list
                    (parameter_declaration
                        type: (pointer_type (type_identifier) @descriptor.type)))
            name: (field_identifier) @descriptor.method)

        (method_declaration
            receiver:
                (parameter_list
                    (parameter_declaration
                        type: (type_identifier) @descriptor.type))
            name: (field_identifier) @descriptor.method)

        (type_declaration (type_spec name: (type_identifier) @descriptor.type))
        ";
    tag_configuration_for(crate::ts::language_go(), query)
}

/// The local-resolution setup for Go sources: blocks and function bodies
/// open scopes, short declarations and parameters bind names, and every
/// identifier is offered as a reference; nothing when the grammar refuses
/// the query.
pub fn go_locals() -> (r: Option<LocalConfiguration>) {
    let query = "
        (block) @scope
        (func_literal) @scope
        (function_declaration) @scope
        (if_statement) @scope
        (for_statement) @scope

        (short_var_declaration
            left: (expression_list (identifier) @definition.term))

        (var_declaration
            (var_spec name: (identifier) @definition.var))

        (parameter_declaration (identifier) @definition.parameter)

        (range_clause
            left: (expression_list (identifier) @definition.term))

        (identifier) @reference
        ";
    local_configuration_for(crate::ts::language_go(), query)
}

} // verus!

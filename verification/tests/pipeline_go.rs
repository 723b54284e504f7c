use scip_semantic::ts;
use scip_semantic::ROLE_DEFINITION;

fn index_go(source: &str) -> Vec<scip_semantic::Occurrence> {
    let mut config = scip_semantic::languages::go_locals().expect("the grammar takes the query");
    let tree = ts::parser_parse(&mut config.parser, source.as_bytes()).expect("go parses");
    scip_semantic::parse_tree(&config, &tree, source.as_bytes()).expect("indexing succeeds")
}

#[test]
fn go_short_declaration_binds_its_use() {
    let source = "package main\n\nfunc main() {\n\tx := 1\n\ty := x\n\t_ = y\n}\n";
    let occs = index_go(source);
    assert!(occs.len() >= 4);
    for o in &occs {
        assert!(o.symbol.starts_with("local "));
    }
    // x's definition and the reference in `y := x` share one symbol.
    let x_def = occs
        .iter()
        .find(|o| o.symbol_roles == ROLE_DEFINITION && o.range.start_line == 3)
        .expect("x is defined on the fourth line");
    let x_ref = occs
        .iter()
        .find(|o| o.symbol_roles == 0 && o.range.start_line == 4)
        .expect("x is used on the fifth line");
    assert_eq!(x_def.symbol, x_ref.symbol);
    // y's definition and its use in `_ = y` share another.
    let y_def = occs
        .iter()
        .find(|o| o.symbol_roles == ROLE_DEFINITION && o.range.start_line == 4)
        .expect("y is defined on the fifth line");
    let y_ref = occs
        .iter()
        .find(|o| o.symbol_roles == 0 && o.range.start_line == 5)
        .expect("y is used on the sixth line");
    assert_eq!(y_def.symbol, y_ref.symbol);
    assert_ne!(x_def.symbol, y_def.symbol);
}

#[test]
fn go_indexing_is_deterministic() {
    let source = "package main\n\nfunc main() {\n\ta := 1\n\tb := a\n\t_ = b\n}\n";
    let a = index_go(source);
    let b = index_go(source);
    assert_eq!(a.len(), b.len());
    for (x, y) in a.iter().zip(b.iter()) {
        assert_eq!(x.symbol, y.symbol);
        assert_eq!(x.symbol_roles, y.symbol_roles);
        assert_eq!(x.range.start_line, y.range.start_line);
        assert_eq!(x.range.start_col, y.range.start_col);
    }
}

#[test]
fn go_shadowing_in_nested_block() {
    let source =
        "package main\n\nfunc main() {\n\tx := 1\n\t{\n\t\tx := 2\n\t\t_ = x\n\t}\n\t_ = x\n}\n";
    let occs = index_go(source);
    let outer_def = occs
        .iter()
        .find(|o| o.symbol_roles == ROLE_DEFINITION && o.range.start_line == 3)
        .expect("outer x defined");
    let inner_def = occs
        .iter()
        .find(|o| o.symbol_roles == ROLE_DEFINITION && o.range.start_line == 5)
        .expect("inner x defined");
    assert_ne!(outer_def.symbol, inner_def.symbol);
    let inner_use = occs
        .iter()
        .find(|o| o.symbol_roles == 0 && o.range.start_line == 6)
        .expect("inner use emitted");
    let outer_use = occs
        .iter()
        .find(|o| o.symbol_roles == 0 && o.range.start_line == 8)
        .expect("outer use emitted");
    assert_eq!(inner_use.symbol, inner_def.symbol);
    assert_eq!(outer_use.symbol, outer_def.symbol);
}

#[test]
fn go_global_property_crosses_functions() {
    // A custom query marking short-declaration names as global-scoped: a
    // use in another function still resolves to the definition.
    let query_text = "
        (block) @scope
        ((short_var_declaration
            left: (expression_list (identifier) @definition.term))
         (#set! scope \"global\"))
        (identifier) @reference
        ";
    let language = ts::language_go();
    let query = ts::query_new(language, query_text).expect("query compiles");
    let mut parser = ts::parser_new();
    assert!(ts::parser_set_language(&mut parser, ts::language_go()));
    let mut config = scip_semantic::languages::LocalConfiguration {
        language,
        query,
        parser,
    };
    let source = "package main\n\nfunc f() {\n\tv := 1\n\t_ = v\n}\n\nfunc g() int {\n\treturn v\n}\n";
    let tree = ts::parser_parse(&mut config.parser, source.as_bytes()).expect("go parses");
    let occs =
        scip_semantic::parse_tree(&config, &tree, source.as_bytes()).expect("indexing succeeds");
    let def = occs
        .iter()
        .find(|o| o.symbol_roles == ROLE_DEFINITION)
        .expect("v defined");
    let uses: Vec<_> = occs
        .iter()
        .filter(|o| o.symbol_roles == 0 && o.symbol == def.symbol)
        .collect();
    // `_ = v` in f and `return v` in g both bind the global v.
    assert!(uses.len() >= 2);
    assert!(uses.iter().any(|o| o.range.start_line == 8));
}

#[test]
fn go_tag_configurations_compile() {
    assert!(scip_semantic::languages::go().is_some());
    assert!(scip_semantic::languages::rust().is_some());
}

#[test]
fn refused_query_yields_none() {
    // A compile error whose reported name runs to the very end of the
    // text: the wrapper must come back with nothing, not blow up.
    assert!(ts::query_new(ts::language_go(), "(zzz").is_none());
    assert!(ts::query_new(ts::language_rust(), "(identifier) @x (qqq").is_none());
    assert!(ts::query_new(ts::language_go(), "not a query at all").is_none());
}

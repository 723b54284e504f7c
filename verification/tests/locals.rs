use scip_semantic::classify::{CaptureInfo, PatternMatch, PatternProperty};
use scip_semantic::{index_matches, LocalError, NodeInfo, Occurrence, ROLE_DEFINITION};

fn node(id: usize, start: usize, end: usize) -> NodeInfo {
    NodeInfo {
        id,
        start_byte: start,
        end_byte: end,
        start_row: 0,
        start_col: start,
        end_row: 0,
        end_col: end,
    }
}

fn cap(index: usize, n: NodeInfo) -> CaptureInfo {
    CaptureInfo { index, node: n }
}

fn one_cap_match(pattern_index: usize, index: usize, n: NodeInfo) -> PatternMatch {
    PatternMatch {
        pattern_index,
        captures: vec![cap(index, n)],
    }
}

fn occ_tuple(o: &Occurrence) -> (usize, usize, String, u32) {
    (
        o.range.start_col,
        o.range.end_col,
        o.symbol.clone(),
        o.symbol_roles,
    )
}

// Capture-name table used by most tests below: 0 = definition, 1 =
// reference, 2 = scope.
fn names() -> Vec<String> {
    vec![
        "definition.term".to_string(),
        "reference.term".to_string(),
        "scope".to_string(),
    ]
}

fn no_props(n: usize) -> Vec<Vec<PatternProperty>> {
    (0..n).map(|_| Vec::new()).collect()
}

#[test]
fn single_binding() {
    // x := 1; y := x  — only the two x sites are captured.
    let source: Vec<u8> = b"x := 1; y := x".to_vec();
    let root = node(1, 0, 14);
    let matches = vec![
        one_cap_match(0, 0, node(101, 0, 1)),
        one_cap_match(1, 1, node(102, 13, 14)),
    ];
    let occs = index_matches(root, &names(), &no_props(2), &matches, &source).unwrap();
    assert_eq!(occs.len(), 2);
    assert_eq!(occ_tuple(&occs[0]), (0, 1, "local 1".to_string(), 1));
    assert_eq!(occ_tuple(&occs[1]), (13, 14, "local 1".to_string(), 0));
}

#[test]
fn shadowing_inner_and_outer() {
    // x := 1
    // { x := 2; y := x }
    // z := x
    let source: Vec<u8> = b"x := 1\n{ x := 2; y := x }\nz := x".to_vec();
    let root = node(1, 0, 32);
    // block scope over the braces, bytes 7..25
    let matches = vec![
        one_cap_match(0, 2, node(50, 7, 25)),
        one_cap_match(1, 0, node(101, 0, 1)),   // outer x def
        one_cap_match(1, 0, node(102, 9, 10)),  // inner x def
        one_cap_match(1, 0, node(103, 17, 18)), // y def (in block)
        one_cap_match(1, 0, node(104, 26, 27)), // z def
        one_cap_match(2, 1, node(105, 22, 23)), // inner ref to x
        one_cap_match(2, 1, node(106, 31, 32)), // outer ref to x
    ];
    let occs = index_matches(root, &names(), &no_props(3), &matches, &source).unwrap();
    let got: Vec<(usize, usize, String, u32)> = occs.iter().map(occ_tuple).collect();
    // Pre-order: root's defs x then z, each with its bound references; the
    // inner x shadows the outer inside the block, so the inner reference
    // binds the inner definition only.
    assert_eq!(
        got,
        vec![
            (0, 1, "local 1".to_string(), 1),   // def outer x
            (31, 32, "local 1".to_string(), 0), // ref z := x
            (26, 27, "local 2".to_string(), 1), // def z
            (9, 10, "local 3".to_string(), 1),  // def inner x
            (22, 23, "local 3".to_string(), 0), // ref y := x
            (17, 18, "local 4".to_string(), 1), // def y
        ]
    );
}

#[test]
fn global_modifier_binds_at_root() {
    // A definition captured with scope=global deep in a block is bound at
    // the root, so a reference outside the block still resolves to it.
    let source: Vec<u8> = b"{ g := 1 }\nuse g".to_vec();
    let root = node(1, 0, 16);
    let props = vec![
        Vec::new(),
        vec![PatternProperty {
            key: "scope".to_string(),
            value: Some("global".to_string()),
        }],
        Vec::new(),
    ];
    let matches = vec![
        one_cap_match(0, 2, node(50, 0, 10)),  // block scope
        one_cap_match(1, 0, node(101, 2, 3)),  // g def inside block, global
        one_cap_match(2, 1, node(102, 15, 16)), // g ref outside block
    ];
    let occs = index_matches(root, &names(), &props, &matches, &source).unwrap();
    assert_eq!(occs.len(), 2);
    assert_eq!(occs[0].symbol_roles, ROLE_DEFINITION);
    assert_eq!(occs[1].symbol_roles, 0);
    assert_eq!(occs[0].symbol, occs[1].symbol);
}

#[test]
fn global_shadowed_in_nested_scope() {
    // A same-name definition in a nested scope shadows the global one
    // within that scope only.
    let source: Vec<u8> = b"{ g := 1 }\n{ g := 2; g }\ng".to_vec();
    let root = node(1, 0, 26);
    let props = vec![
        Vec::new(),
        vec![PatternProperty {
            key: "scope".to_string(),
            value: Some("global".to_string()),
        }],
        Vec::new(),
        Vec::new(),
    ];
    let matches = vec![
        one_cap_match(0, 2, node(50, 0, 10)),   // first block
        one_cap_match(0, 2, node(51, 11, 24)),  // second block
        one_cap_match(1, 0, node(101, 2, 3)),   // global g def in first block
        one_cap_match(3, 0, node(102, 13, 14)), // local g def in second block
        one_cap_match(2, 1, node(103, 21, 22)), // g ref in second block
        one_cap_match(2, 1, node(104, 25, 26)), // g ref at top level
    ];
    let occs = index_matches(root, &names(), &props, &matches, &source).unwrap();
    let got: Vec<(usize, usize, String, u32)> = occs.iter().map(occ_tuple).collect();
    assert_eq!(
        got,
        vec![
            (2, 3, "local 1".to_string(), 1),   // global g
            (25, 26, "local 1".to_string(), 0), // top-level ref binds global
            (13, 14, "local 2".to_string(), 1), // nested g
            (21, 22, "local 2".to_string(), 0), // nested ref binds nested g
        ]
    );
}

#[test]
fn unresolved_reference_is_silent() {
    // y := x with no prior x: only y's definition is emitted.
    let source: Vec<u8> = b"y := x".to_vec();
    let root = node(1, 0, 6);
    let matches = vec![
        one_cap_match(0, 0, node(101, 0, 1)),
        one_cap_match(1, 1, node(102, 5, 6)),
    ];
    let occs = index_matches(root, &names(), &no_props(2), &matches, &source).unwrap();
    assert_eq!(occs.len(), 1);
    assert_eq!(occ_tuple(&occs[0]), (0, 1, "local 1".to_string(), 1));
}

#[test]
fn reference_on_definition_node_is_dropped() {
    // The same node captured as a definition by one pattern and as a
    // reference by another: the reference is dropped, the definition is
    // emitted exactly once.
    let source: Vec<u8> = b"x := 1".to_vec();
    let root = node(1, 0, 6);
    let matches = vec![
        one_cap_match(0, 0, node(101, 0, 1)),
        one_cap_match(1, 1, node(101, 0, 1)),
    ];
    let occs = index_matches(root, &names(), &no_props(2), &matches, &source).unwrap();
    assert_eq!(occs.len(), 1);
    assert_eq!(occ_tuple(&occs[0]), (0, 1, "local 1".to_string(), 1));
}

#[test]
fn match_order_does_not_change_output() {
    // Permuting the match stream of the single-binding scenario yields the
    // identical occurrence list.
    let source: Vec<u8> = b"x := 1; y := x".to_vec();
    let root = node(1, 0, 14);
    let a = vec![
        one_cap_match(0, 0, node(101, 0, 1)),
        one_cap_match(1, 1, node(102, 13, 14)),
    ];
    let b = vec![
        one_cap_match(1, 1, node(102, 13, 14)),
        one_cap_match(0, 0, node(101, 0, 1)),
    ];
    let r1 = index_matches(root, &names(), &no_props(2), &a, &source).unwrap();
    let r2 = index_matches(root, &names(), &no_props(2), &b, &source).unwrap();
    let t1: Vec<(usize, usize, String, u32)> = r1.iter().map(occ_tuple).collect();
    let t2: Vec<(usize, usize, String, u32)> = r2.iter().map(occ_tuple).collect();
    assert_eq!(t1, t2);
}

#[test]
fn parent_modifier_binds_one_scope_out() {
    // A definition in the inner block with scope=parent is bound in the
    // outer block, so a reference elsewhere in the outer block resolves.
    let source: Vec<u8> = b"{ { p := 1 } p }".to_vec();
    let root = node(1, 0, 16);
    let props = vec![
        Vec::new(),
        vec![PatternProperty {
            key: "scope".to_string(),
            value: Some("parent".to_string()),
        }],
        Vec::new(),
    ];
    let matches = vec![
        one_cap_match(0, 2, node(50, 0, 16)), // outer block
        one_cap_match(0, 2, node(51, 2, 12)), // inner block
        one_cap_match(1, 0, node(101, 4, 5)), // p def, parent-scoped
        one_cap_match(2, 1, node(102, 13, 14)), // p ref in outer block
    ];
    let occs = index_matches(root, &names(), &props, &matches, &source).unwrap();
    assert_eq!(occs.len(), 2);
    assert_eq!(occs[0].symbol_roles, ROLE_DEFINITION);
    assert_eq!(occs[0].symbol, occs[1].symbol);
}

#[test]
fn mixed_categories_are_malformed() {
    let source: Vec<u8> = b"x".to_vec();
    let root = node(1, 0, 1);
    let matches = vec![PatternMatch {
        pattern_index: 4,
        captures: vec![cap(0, node(101, 0, 1)), cap(1, node(101, 0, 1))],
    }];
    let err = index_matches(root, &names(), &no_props(5), &matches, &source).unwrap_err();
    assert_eq!(err, LocalError::MalformedQuery { pattern_index: 4 });
}

#[test]
fn unknown_scope_value_is_malformed() {
    let source: Vec<u8> = b"x".to_vec();
    let root = node(1, 0, 1);
    let props = vec![vec![PatternProperty {
        key: "scope".to_string(),
        value: Some("galactic".to_string()),
    }]];
    let matches = vec![one_cap_match(0, 0, node(101, 0, 1))];
    let err = index_matches(root, &names(), &props, &matches, &source).unwrap_err();
    assert_eq!(err, LocalError::MalformedQuery { pattern_index: 0 });
}

#[test]
fn missing_scope_value_defaults_to_local() {
    let source: Vec<u8> = b"x".to_vec();
    let root = node(1, 0, 1);
    let props = vec![vec![PatternProperty {
        key: "scope".to_string(),
        value: None,
    }]];
    let matches = vec![one_cap_match(0, 0, node(101, 0, 1))];
    let occs = index_matches(root, &names(), &props, &matches, &source).unwrap();
    assert_eq!(occs.len(), 1);
}

#[test]
fn no_category_is_invariant_violation() {
    let source: Vec<u8> = b"x".to_vec();
    let root = node(1, 0, 1);
    let names: Vec<String> = vec!["descriptor.method".to_string()];
    let matches = vec![one_cap_match(0, 0, node(101, 0, 1))];
    let err = index_matches(root, &names, &no_props(1), &matches, &source).unwrap_err();
    assert_eq!(err, LocalError::InvariantViolation);
}

#[test]
fn capture_index_out_of_table_is_invariant_violation() {
    let source: Vec<u8> = b"x".to_vec();
    let root = node(1, 0, 1);
    let matches = vec![one_cap_match(0, 9, node(101, 0, 1))];
    let err = index_matches(root, &names(), &no_props(1), &matches, &source).unwrap_err();
    assert_eq!(err, LocalError::InvariantViolation);
}

#[test]
fn invalid_utf8_identifier_is_invalid_source() {
    let source: Vec<u8> = vec![0xff, 0xfe];
    let root = node(1, 0, 2);
    let matches = vec![one_cap_match(0, 0, node(101, 0, 2))];
    let err = index_matches(root, &names(), &no_props(1), &matches, &source).unwrap_err();
    assert_eq!(err, LocalError::InvalidSource);
}

#[test]
fn node_range_outside_source_is_invalid_source() {
    let source: Vec<u8> = b"x".to_vec();
    let root = node(1, 0, 1);
    let matches = vec![one_cap_match(0, 0, node(101, 0, 9))];
    let err = index_matches(root, &names(), &no_props(1), &matches, &source).unwrap_err();
    assert_eq!(err, LocalError::InvalidSource);
}

#[test]
fn rebinding_survives_match_shuffles() {
    // Two definitions of the same identifier in one scope, delivered in
    // both orders: placement goes by position, so the occurrence lists
    // agree and the textually later definition survives either way.
    let source: Vec<u8> = b"x x".to_vec();
    let root = node(1, 0, 3);
    let a = vec![
        one_cap_match(0, 0, node(101, 0, 1)),
        one_cap_match(0, 0, node(102, 2, 3)),
    ];
    let b = vec![
        one_cap_match(0, 0, node(102, 2, 3)),
        one_cap_match(0, 0, node(101, 0, 1)),
    ];
    let r1 = index_matches(root, &names(), &no_props(1), &a, &source).unwrap();
    let r2 = index_matches(root, &names(), &no_props(1), &b, &source).unwrap();
    let t1: Vec<(usize, usize, String, u32)> = r1.iter().map(occ_tuple).collect();
    let t2: Vec<(usize, usize, String, u32)> = r2.iter().map(occ_tuple).collect();
    assert_eq!(t1, t2);
    assert_eq!(t1, vec![(2, 3, "local 1".to_string(), 1)]);
}

#[test]
fn rebinding_in_same_scope_keeps_last_writer() {
    // Two definitions of x in one scope collapse to the later one; all
    // references bind its symbol.
    let source: Vec<u8> = b"x := 1; x := 2; x".to_vec();
    let root = node(1, 0, 17);
    let matches = vec![
        one_cap_match(0, 0, node(101, 0, 1)),
        one_cap_match(0, 0, node(102, 8, 9)),
        one_cap_match(1, 1, node(103, 16, 17)),
    ];
    let occs = index_matches(root, &names(), &no_props(2), &matches, &source).unwrap();
    // One surviving definition of x plus its reference.
    assert_eq!(occs.len(), 2);
    assert_eq!(occs[0].range.start_col, 8);
    assert_eq!(occs[0].symbol_roles, ROLE_DEFINITION);
    assert_eq!(occs[1].range.start_col, 16);
    assert_eq!(occs[1].symbol, occs[0].symbol);
}

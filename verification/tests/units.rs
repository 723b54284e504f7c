use scip_semantic::symbol::format_local;
use scip_semantic::tags::{FileMatcher, LocalScope, ScopeNode};
use scip_semantic::ts_node::ContainsNode;
use scip_semantic::ByteRange;

#[test]
fn format_local_small_ids() {
    assert_eq!(format_local(0), "local 0");
    assert_eq!(format_local(1), "local 1");
    assert_eq!(format_local(9), "local 9");
    assert_eq!(format_local(10), "local 10");
    assert_eq!(format_local(42), "local 42");
}

#[test]
fn format_local_large_id() {
    assert_eq!(format_local(1234567890), "local 1234567890");
    assert_eq!(format_local(1000), "local 1000");
}

#[test]
fn byte_range_contains() {
    let outer = ByteRange { start: 2, end: 10 };
    let inner = ByteRange { start: 3, end: 9 };
    let same = ByteRange { start: 2, end: 10 };
    let left = ByteRange { start: 0, end: 5 };
    assert!(outer.contains(&inner));
    assert!(outer.contains(&same));
    assert!(!inner.contains(&outer));
    assert!(!outer.contains(&left));
}

#[test]
fn byte_range_width() {
    assert_eq!(ByteRange { start: 2, end: 10 }.width(), 8);
    assert_eq!(ByteRange { start: 5, end: 5 }.width(), 0);
}

#[test]
fn add_is_plain_addition() {
    assert_eq!(scip_semantic::add(2, 3), 5);
    assert_eq!(scip_semantic::add(0, 0), 0);
}

#[test]
fn contains_node_trait() {
    let outer = scip_semantic::NodeInfo {
        id: 1,
        start_byte: 0,
        end_byte: 10,
        start_row: 0,
        start_col: 0,
        end_row: 0,
        end_col: 10,
    };
    let inner = scip_semantic::NodeInfo {
        id: 2,
        start_byte: 3,
        end_byte: 7,
        start_row: 0,
        start_col: 3,
        end_row: 0,
        end_col: 7,
    };
    assert!(outer.contains_node(&inner));
    assert!(!inner.contains_node(&outer));
    assert!(scip_semantic::ts_node::contains(&outer, &inner));
}

fn tag_node(id: usize, start: usize, end: usize) -> scip_semantic::NodeInfo {
    scip_semantic::NodeInfo {
        id,
        start_byte: start,
        end_byte: end,
        start_row: 0,
        start_col: start,
        end_row: 0,
        end_col: end,
    }
}

#[test]
fn local_scope_names_accumulate() {
    let mut scope = LocalScope {
        root: ScopeNode {
            name: "package".to_string(),
            node: tag_node(1, 0, 100),
        },
        children: vec![],
    };
    scope.add_child_node(ScopeNode {
        name: "Thing".to_string(),
        node: tag_node(2, 10, 50),
    });
    assert_eq!(scope.children.len(), 1);
    assert_eq!(scope.children[0].root.name, "package.Thing");
}

#[test]
fn local_scope_containing_scope_prefers_children() {
    let mut scope = LocalScope {
        root: ScopeNode {
            name: "package".to_string(),
            node: tag_node(1, 0, 100),
        },
        children: vec![],
    };
    scope.add_child_node(ScopeNode {
        name: "Thing".to_string(),
        node: tag_node(2, 10, 50),
    });
    let hit = scope.containing_scope(tag_node(3, 20, 30)).expect("inside Thing");
    assert_eq!(hit.name, "package.Thing");
    let outer = scope.containing_scope(tag_node(4, 60, 70)).expect("inside package only");
    assert_eq!(outer.name, "package");
    assert!(scope.containing_scope(tag_node(5, 90, 200)).is_none());
}

#[test]
fn file_matcher_collects_matches() {
    let mut m = FileMatcher::new("func Something() {}");
    assert_eq!(m.matched.len(), 0);
    m.add_match(
        "definition.function".to_string(),
        tag_node(1, 0, 19),
        tag_node(2, 5, 14),
        None,
    );
    assert_eq!(m.matched.len(), 1);
    assert_eq!(m.resolved.len(), 1);
    assert!(m.resolved[0].is_none());
    assert_eq!(m.matched[0].kind, "definition.function");
}

#[test]
fn byte_range_order_outer_first() {
    let outer = ByteRange { start: 2, end: 10 };
    let inner = ByteRange { start: 2, end: 5 };
    assert!(outer < inner);
    assert!(ByteRange { start: 1, end: 2 } < ByteRange { start: 2, end: 100 });
    assert_eq!(outer.partial_cmp(&outer), Some(std::cmp::Ordering::Equal));
}

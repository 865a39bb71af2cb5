//! Tests for the diff engine: the paired traversal, its divergence rules,
//! and its pre-order reporting.

use thorns::diff::diff;
use thorns::graph::Graph;
use thorns::sourcemap::SourceMap;
use thorns::sourcemap::SourceMapEntry;
use thorns::trace::Event;
use thorns::trace::Span;

fn ev(
    id: u64,
    parent_id: Option<u64>,
    low: u32,
    high: u32,
    ok: Option<&str>,
    error: Option<&str>,
) -> Event {
    Event {
        id,
        parent_id,
        source: Span::new(low, high),
        stage: "parser".to_string(),
        ok: ok.map(|s| s.to_string()),
        error: error.map(|s| s.to_string()),
        ref_spans: None,
    }
}

fn map_of(text: &str) -> SourceMap {
    SourceMap::new(vec![SourceMapEntry {
        source: "main.br".to_string(),
        span: Span::new(0, text.len() as u32),
        text: text.as_bytes().to_vec(),
    }])
}

#[test]
fn identical_graphs_diff_empty() {
    let events = vec![
        ev(2, None, 0, 6, Some("inner"), None),
        ev(1, None, 0, 12, Some("outer"), None),
    ];
    let left = Graph::new(&events);
    let right = Graph::new(&events);
    let sm = map_of("let x = 1;  ");
    let sm2 = map_of("let x = 1;  ");
    let d = diff(&left, &sm, &right, &sm2);
    assert_eq!(d.len(), 0);
}

#[test]
fn differing_leaf_text_is_one_divergence() {
    // Matching outcomes at the single leaf root, but the spans resolve to
    // different literal text.
    let events = vec![ev(1, None, 0, 5, Some("val"), None)];
    let left = Graph::new(&events);
    let right = Graph::new(&events);
    let left_sm = map_of("hello");
    let right_sm = map_of("world");
    let d = diff(&left, &left_sm, &right, &right_sm);
    assert_eq!(d.len(), 1);
    assert_eq!(d[0].0.index(), 0);
    assert_eq!(d[0].1.index(), 0);
}

#[test]
fn outcome_kind_mismatch_recurses_into_children() {
    // The paired roots differ in outcome kind (Ok vs Error); the pair is
    // recorded and the traversal still descends to the children, where a
    // second divergence is found.
    let lefts = vec![
        ev(2, Some(1), 0, 4, Some("leaf"), None),
        ev(1, None, 0, 10, Some("root"), None),
    ];
    let rights = vec![
        ev(2, Some(1), 0, 4, Some("other"), None),
        ev(1, None, 0, 10, None, Some("root failed")),
    ];
    let left = Graph::new(&lefts);
    let right = Graph::new(&rights);
    let sm = map_of("0123456789");
    let sm2 = map_of("0123456789");
    let d = diff(&left, &sm, &right, &sm2);
    assert_eq!(d.len(), 2);
    // Pre-order: the root pair first, the leaf pair after it.
    assert_eq!(d[0].0.index(), 1);
    assert_eq!(d[0].1.index(), 1);
    assert_eq!(d[1].0.index(), 0);
    assert_eq!(d[1].1.index(), 0);
}

#[test]
fn single_deep_leaf_divergence_is_sole_pair() {
    // Two-level trees agreeing everywhere except the second leaf's
    // resolved text: exactly that one pair is reported.
    let events = vec![
        ev(2, Some(1), 0, 5, Some("first"), None),
        ev(3, Some(1), 10, 15, Some("second"), None),
        ev(1, None, 0, 20, Some("root"), None),
    ];
    let left = Graph::new(&events);
    let right = Graph::new(&events);
    let left_sm = map_of("aaaaabbbbbcccccddddd");
    let right_sm = map_of("aaaaabbbbbXXXXXddddd");
    let d = diff(&left, &left_sm, &right, &right_sm);
    assert_eq!(d.len(), 1);
    assert_eq!(d[0].0.index(), 1);
    assert_eq!(d[0].1.index(), 1);
}

#[test]
fn equal_outcome_text_matches_are_not_divergent() {
    let lefts = vec![ev(1, None, 0, 5, None, Some("bad token"))];
    let rights = vec![ev(9, None, 0, 5, None, Some("bad token"))];
    let left = Graph::new(&lefts);
    let right = Graph::new(&rights);
    let sm = map_of("xyzzy");
    let sm2 = map_of("xyzzy");
    let d = diff(&left, &sm, &right, &sm2);
    assert_eq!(d.len(), 0);
}

#[test]
fn left_resolution_failure_with_right_success_diverges() {
    let events = vec![ev(1, None, 0, 5, Some("val"), None)];
    let left = Graph::new(&events);
    let right = Graph::new(&events);
    // No file covers the span on the left; the right resolves it.
    let left_sm = SourceMap::new(vec![]);
    let right_sm = map_of("hello");
    let d = diff(&left, &left_sm, &right, &right_sm);
    assert_eq!(d.len(), 1);
}

#[test]
fn right_resolution_failure_is_tolerated() {
    let events = vec![ev(1, None, 0, 5, Some("val"), None)];
    let left = Graph::new(&events);
    let right = Graph::new(&events);
    let left_sm = map_of("hello");
    let right_sm = SourceMap::new(vec![]);
    let d = diff(&left, &left_sm, &right, &right_sm);
    assert_eq!(d.len(), 0);
}

#[test]
fn both_resolution_failures_are_tolerated() {
    let events = vec![ev(1, None, 0, 5, Some("val"), None)];
    let left = Graph::new(&events);
    let right = Graph::new(&events);
    let left_sm = SourceMap::new(vec![]);
    let right_sm = SourceMap::new(vec![]);
    let d = diff(&left, &left_sm, &right, &right_sm);
    assert_eq!(d.len(), 0);
}

#[test]
fn extra_children_on_one_side_are_unvisited() {
    // The left root has two children, the right only one; only the
    // common prefix is compared, and the unpaired child's divergent
    // outcome goes unexamined.
    let lefts = vec![
        ev(2, Some(1), 0, 3, Some("a"), None),
        ev(3, Some(1), 4, 7, Some("extra"), None),
        ev(1, None, 0, 10, Some("root"), None),
    ];
    let rights = vec![
        ev(2, Some(1), 0, 3, Some("a"), None),
        ev(1, None, 0, 10, Some("root"), None),
    ];
    let left = Graph::new(&lefts);
    let right = Graph::new(&rights);
    let sm = map_of("0123456789");
    let sm2 = map_of("0123456789");
    let d = diff(&left, &sm, &right, &sm2);
    assert_eq!(d.len(), 0);
}

#[test]
fn extra_roots_on_one_side_are_unvisited() {
    let lefts = vec![
        ev(1, None, 0, 3, Some("a"), None),
        ev(2, None, 4, 7, Some("b"), None),
    ];
    let rights = vec![ev(1, None, 0, 3, Some("a"), None)];
    let left = Graph::new(&lefts);
    let right = Graph::new(&rights);
    let sm = map_of("0123456");
    let sm2 = map_of("0123456");
    let d = diff(&left, &sm, &right, &sm2);
    assert_eq!(d.len(), 0);
}

#[test]
fn merged_graphs_diff_over_spliced_hierarchy() {
    // Each side has a no-op between root and leaf; after merging, the
    // leaves pair up directly and their differing outcomes surface.
    let lefts = vec![
        ev(3, Some(2), 0, 4, Some("x"), None),
        ev(2, Some(1), 0, 8, None, None),
        ev(1, None, 0, 10, Some("root"), None),
    ];
    let rights = vec![
        ev(3, Some(2), 0, 4, Some("y"), None),
        ev(2, Some(1), 0, 8, None, None),
        ev(1, None, 0, 10, Some("root"), None),
    ];
    let mut left = Graph::new(&lefts);
    let mut right = Graph::new(&rights);
    left.merge_noops();
    right.merge_noops();
    let sm = map_of("0123456789");
    let sm2 = map_of("0123456789");
    let d = diff(&left, &sm, &right, &sm2);
    assert_eq!(d.len(), 1);
    assert_eq!(d[0].0.index(), 0);
    assert_eq!(d[0].1.index(), 0);
}

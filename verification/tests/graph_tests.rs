//! Tests for graph construction, edge inference, the no-op merge pass,
//! and the structural query surface.

use thorns::graph::Graph;
use thorns::trace::Event;
use thorns::trace::Span;
use thorns::trace::Trace;

fn ev(
    id: u64,
    parent_id: Option<u64>,
    low: u32,
    high: u32,
    ok: Option<&str>,
    error: Option<&str>,
    ref_span: Option<(u32, u32)>,
) -> Event {
    Event {
        id,
        parent_id,
        source: Span::new(low, high),
        stage: "parser".to_string(),
        ok: ok.map(|s| s.to_string()),
        error: error.map(|s| s.to_string()),
        ref_spans: ref_span.map(|(l, h)| Span::new(l, h)),
    }
}

#[test]
fn single_event_is_sole_root() {
    let events = vec![ev(1, None, 0, 10, Some("unit"), None, None)];
    let g = Graph::new(&events);
    assert_eq!(g.num_nodes(), 1);
    assert_eq!(g.num_edges(), 0);
    let roots = g.get_roots();
    assert_eq!(roots.len(), 1);
    assert_eq!(roots[0].index(), 0);
}

#[test]
fn span_containment_infers_parent() {
    // The enclosing event is emitted after the event it encloses.
    let events = vec![
        ev(2, None, 0, 50, Some("inner"), None, None),
        ev(1, None, 0, 100, Some("outer"), None, None),
    ];
    let g = Graph::new(&events);
    assert_eq!(g.num_edges(), 1);
    let roots = g.get_roots();
    assert_eq!(roots.len(), 1);
    assert_eq!(roots[0].index(), 1);
    let children = g.get_adj(roots[0]);
    assert_eq!(children.len(), 1);
    assert_eq!(children[0].index(), 0);
}

#[test]
fn first_containing_event_wins() {
    // Both later events contain the first; only the nearest (first
    // scanned) becomes the parent.
    let events = vec![
        ev(3, None, 10, 20, Some("leaf"), None, None),
        ev(2, None, 5, 30, Some("mid"), None, None),
        ev(1, None, 0, 100, Some("top"), None, None),
    ];
    let g = Graph::new(&events);
    let roots = g.get_roots();
    assert_eq!(roots.len(), 1);
    assert_eq!(roots[0].index(), 2);
    let mid_children = g.get_adj(roots[0]);
    assert_eq!(mid_children.len(), 1);
    assert_eq!(mid_children[0].index(), 1);
    let leaf_children = g.get_adj(mid_children[0]);
    assert_eq!(leaf_children.len(), 1);
    assert_eq!(leaf_children[0].index(), 0);
}

#[test]
fn explicit_parent_identifier_wins_over_spans() {
    // The child names its parent, which has a disjoint span.
    let events = vec![
        ev(7, None, 0, 10, Some("parent"), None, None),
        ev(8, Some(7), 90, 95, Some("child"), None, None),
    ];
    let g = Graph::new(&events);
    assert_eq!(g.num_edges(), 1);
    let roots = g.get_roots();
    assert_eq!(roots.len(), 1);
    assert_eq!(roots[0].index(), 0);
    let children = g.get_adj(roots[0]);
    assert_eq!(children.len(), 1);
    assert_eq!(children[0].index(), 1);
}

#[test]
fn unmatched_parent_identifier_leaves_event_parentless() {
    let events = vec![
        ev(1, Some(99), 0, 10, Some("orphan"), None, None),
        ev(2, None, 0, 100, Some("outer"), None, None),
    ];
    let g = Graph::new(&events);
    // No identifier matches 99, so no hierarchy edge is added for the
    // orphan even though a later span contains it.
    assert_eq!(g.num_edges(), 0);
    let roots = g.get_roots();
    assert_eq!(roots.len(), 2);
    assert_eq!(roots[0].index(), 0);
    assert_eq!(roots[1].index(), 1);
}

#[test]
fn reference_edges_keep_multiplicity() {
    // Two events share the referenced span: both get a reference edge.
    let events = vec![
        ev(1, None, 0, 10, Some("a"), None, None),
        ev(2, None, 0, 10, Some("b"), None, None),
        ev(3, None, 20, 30, Some("c"), None, Some((0, 10))),
    ];
    let g = Graph::new(&events);
    // One hierarchy edge (the identical spans contain each other) plus
    // two reference edges, one per span match.
    assert_eq!(g.num_edges(), 3);
    let roots = g.get_roots();
    assert_eq!(roots.len(), 2);
    let refed_b = g.get_refed_by(roots[0]);
    assert_eq!(refed_b.len(), 1);
    assert_eq!(refed_b[0].index(), 2);
}

#[test]
fn merge_splices_noop_chain() {
    // A -> N -> B with N a no-op; after the merge, A -> B directly.
    let events = vec![
        ev(3, Some(2), 0, 10, Some("b"), None, None),
        ev(2, Some(1), 0, 50, None, None, None),
        ev(1, None, 0, 100, Some("a"), None, None),
    ];
    let mut g = Graph::new(&events);
    assert_eq!(g.num_edges(), 2);
    g.merge_noops();
    assert_eq!(g.num_edges(), 1);
    let roots = g.get_roots();
    assert_eq!(roots.len(), 1);
    assert_eq!(roots[0].index(), 2);
    let children = g.get_adj(roots[0]);
    assert_eq!(children.len(), 1);
    assert_eq!(children[0].index(), 0);
    // The leaf has no children of its own; the no-op is no longer on the
    // path from the root to it.
    let leaf_children = g.get_adj(children[0]);
    assert_eq!(leaf_children.len(), 0);
    assert!(g.is_leaf(children[0]));
}

#[test]
fn merge_collapses_transitive_noop_chain() {
    // A -> N1 -> N2 -> B with two chained no-ops.
    let events = vec![
        ev(4, Some(3), 0, 5, Some("b"), None, None),
        ev(3, Some(2), 0, 10, None, None, None),
        ev(2, Some(1), 0, 50, None, None, None),
        ev(1, None, 0, 100, Some("a"), None, None),
    ];
    let mut g = Graph::new(&events);
    g.merge_noops();
    assert_eq!(g.num_edges(), 1);
    let roots = g.get_roots();
    assert_eq!(roots.len(), 1);
    assert_eq!(roots[0].index(), 3);
    let children = g.get_adj(roots[0]);
    assert_eq!(children.len(), 1);
    assert_eq!(children[0].index(), 0);
}

#[test]
fn roots_exclude_noops_before_and_after_merge() {
    let events = vec![ev(1, None, 0, 10, None, None, None)];
    let mut g = Graph::new(&events);
    // The lone event is a no-op with zero incoming edges: still no root.
    assert_eq!(g.get_roots().len(), 0);
    g.merge_noops();
    assert_eq!(g.get_roots().len(), 0);
    assert_eq!(g.num_nodes(), 1);
}

#[test]
fn children_come_in_edge_insertion_order() {
    let events = vec![
        ev(1, None, 0, 10, Some("c1"), None, None),
        ev(2, None, 20, 30, Some("c2"), None, None),
        ev(3, None, 0, 100, Some("p"), None, None),
    ];
    let g = Graph::new(&events);
    let roots = g.get_roots();
    assert_eq!(roots.len(), 1);
    let children = g.get_adj(roots[0]);
    assert_eq!(children.len(), 2);
    assert_eq!(children[0].index(), 0);
    assert_eq!(children[1].index(), 1);
}

#[test]
fn leaf_test_counts_any_outgoing_edge() {
    // An event with only a reference edge out of it is not a leaf.
    let events = vec![
        ev(1, None, 0, 10, Some("target"), None, None),
        ev(2, None, 20, 30, Some("source"), None, Some((0, 10))),
    ];
    let g = Graph::new(&events);
    let roots = g.get_roots();
    assert_eq!(roots.len(), 2);
    assert!(g.is_leaf(roots[0]));
    assert!(!g.is_leaf(roots[1]));
}

#[test]
fn get_node_returns_stored_event() {
    let events = vec![
        ev(42, None, 3, 9, None, Some("boom"), None),
        ev(7, None, 0, 100, Some("fine"), None, None),
    ];
    let g = Graph::new(&events);
    let roots = g.get_roots();
    assert_eq!(roots.len(), 1);
    let root = g.get_node(roots[0]);
    assert_eq!(root.id, 7);
    assert_eq!(root.ok.as_deref(), Some("fine"));
    let children = g.get_adj(roots[0]);
    assert_eq!(children.len(), 1);
    let child = g.get_node(children[0]);
    assert_eq!(child.id, 42);
    assert_eq!(child.error.as_deref(), Some("boom"));
}

#[test]
fn unresolved_links_are_observable() {
    let events = vec![
        ev(1, Some(99), 0, 10, Some("orphan"), None, None),
        ev(2, None, 20, 30, Some("dangling"), None, Some((50, 60))),
        ev(3, Some(1), 40, 45, Some("fine"), None, Some((0, 10))),
    ];
    let g = Graph::new(&events);
    let (parents, refs) = g.unresolved_links();
    assert_eq!(parents.len(), 1);
    assert_eq!(parents[0].index(), 0);
    assert_eq!(refs.len(), 1);
    assert_eq!(refs[0].index(), 1);
}

#[test]
fn span_accessors_and_intersection() {
    let s = Span::new(5, 20);
    assert_eq!(s.low(), 5);
    assert_eq!(s.high(), 20);
    let t = Span::new(15, 30);
    assert!(s.intersects(&t));
    assert!(t.intersects(&s));
    assert_eq!(s.intersection(&t), Some(Span::new(15, 20)));
    let u = Span::new(21, 25);
    assert!(!s.intersects(&u));
    assert_eq!(s.intersection(&u), None);
}

#[test]
fn trace_find_filters_by_query_range() {
    let trace = Trace {
        events: vec![
            ev(1, None, 0, 10, Some("a"), None, None),
            ev(2, None, 50, 60, Some("b"), None, None),
            ev(3, None, 5, 15, Some("c"), None, None),
        ],
    };
    let hits = trace.find(0, 12);
    assert_eq!(hits.len(), 2);
    assert_eq!(hits[0].id, 1);
    assert_eq!(hits[1].id, 3);
}

#[test]
fn trace_stage_events_filters_by_stage() {
    let mut lexer_event = ev(1, None, 0, 10, Some("tok"), None, None);
    lexer_event.stage = "lexer".to_string();
    let trace = Trace {
        events: vec![
            lexer_event,
            ev(2, None, 0, 10, Some("expr"), None, None),
            ev(3, None, 20, 30, Some("stmt"), None, None),
        ],
    };
    let parser_events = trace.stage_events("parser");
    assert_eq!(parser_events.len(), 2);
    assert_eq!(parser_events[0].id, 2);
    assert_eq!(parser_events[1].id, 3);
    let lexer_events = trace.stage_events("lexer");
    assert_eq!(lexer_events.len(), 1);
    assert_eq!(lexer_events[0].id, 1);
    assert_eq!(trace.stage_events("llvm").len(), 0);
}

#[test]
fn event_intersect_uses_inclusive_bounds() {
    let e = ev(1, None, 10, 20, Some("x"), None, None);
    assert!(e.intersect(15, 25));
    assert!(e.intersect(0, 10));
    // A query starting exactly at the event's high offset still touches it.
    assert!(e.intersect(20, 30));
    assert!(!e.intersect(21, 30));
    assert!(!e.intersect(0, 9));
}

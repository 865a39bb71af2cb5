//! Causal-graph reconstruction: given the trace events of one compiler run,
//! this module infers the edge topology (hierarchy and reference edges),
//! collapses no-op nodes, and answers structural queries.

use vstd::prelude::*;

use crate::trace::Event;
use crate::trace::Span;

verus! {

/// The kind of a directed relation between two nodes.
#[derive(Debug, Clone, Copy, PartialEq, Eq, Structural)]
pub enum EdgeType {
    /// A direct syntactic relationship: the source node encloses the target.
    Parent,
    /// The source node used the target node for context during resolution:
    /// the value of the target was used to determine the value of the source.
    Ref,
}

/// A directed relation of some type between two node positions.
#[derive(Debug, Clone, Copy, PartialEq, Eq, Structural)]
pub struct Edge {
    pub source: usize,
    pub target: usize,
    pub ty: EdgeType,
}

/// A stable, opaque handle into a graph's node arena.  Merging no-op nodes
/// never invalidates a handle: merge only rewrites edges.
#[derive(Debug, Clone, Copy, PartialEq, Eq, Structural)]
pub struct NodeId(usize);

impl NodeId {
    /// The arena position this handle names.
    pub closed spec fn spec_index(self) -> int {
        self.0 as int
    }

    /// The handle for an arena position.
    pub fn new(index: usize) -> (r: NodeId)
        ensures
            r.spec_index() == index,
    {
        NodeId(index)
    }

    /// The arena position this handle names.
    pub fn index(&self) -> (r: usize)
        ensures
            r == self.spec_index(),
    {
        self.0
    }
}

/// True when the span of `a` contains the span of `b` (inclusive bounds).
pub open spec fn spec_contains(a: Event, b: Event) -> bool {
    a.source.0 <= b.source.0 && b.source.1 <= a.source.1
}

/// Returns true if the span of `a` contains the span of `b`.
pub fn contains(a: &Event, b: &Event) -> (r: bool)
    ensures
        r == spec_contains(*a, *b),
{
    a.source.0 <= b.source.0 && b.source.1 <= a.source.1
}

/// The first position at or after `j` whose event has identifier `id`.
pub open spec fn find_by_id(nodes: Seq<Event>, id: u64, j: int) -> Option<int>
    decreases nodes.len() - j,
{
    if !(0 <= j < nodes.len()) {
        None
    } else if nodes[j].id == id {
        Some(j)
    } else {
        find_by_id(nodes, id, j + 1)
    }
}

/// The first position at or after `j` whose event's span contains the span
/// of the event at position `i`.
pub open spec fn find_container(nodes: Seq<Event>, i: int, j: int) -> Option<int>
    decreases nodes.len() - j,
{
    if !(0 <= j < nodes.len()) {
        None
    } else if spec_contains(nodes[j], nodes[i]) {
        Some(j)
    } else {
        find_container(nodes, i, j + 1)
    }
}

/// The inferred parent position of the event at position `i`: the first
/// event matching an explicit parent identifier when one is declared,
/// otherwise the first later event whose span contains the event's span.
pub open spec fn parent_of(nodes: Seq<Event>, i: int) -> Option<int> {
    match nodes[i].parent_id {
        Some(pid) => find_by_id(nodes, pid, 0),
        None => find_container(nodes, i, i + 1),
    }
}

/// The hierarchy edges contributed by events at positions below `n`,
/// in inference order.
pub open spec fn hierarchy_edges_upto(nodes: Seq<Event>, n: int) -> Seq<Edge>
    decreases n,
{
    if n <= 0 {
        Seq::empty()
    } else {
        hierarchy_edges_upto(nodes, n - 1) + match parent_of(nodes, n - 1) {
            Some(j) => seq![
                Edge { source: j as usize, target: (n - 1) as usize, ty: EdgeType::Parent },
            ],
            None => Seq::empty(),
        }
    }
}

/// All hierarchy edges inferred from an event sequence.
pub open spec fn hierarchy_edges(nodes: Seq<Event>) -> Seq<Edge> {
    hierarchy_edges_upto(nodes, nodes.len() as int)
}

/// The reference edges from position `i` to every position below `j` whose
/// event's span equals the reference span `rs`, in target order.
pub open spec fn ref_targets_upto(nodes: Seq<Event>, i: int, rs: Span, j: int) -> Seq<Edge>
    decreases j,
{
    if j <= 0 {
        Seq::empty()
    } else {
        ref_targets_upto(nodes, i, rs, j - 1) + if nodes[j - 1].source == rs {
            seq![Edge { source: i as usize, target: (j - 1) as usize, ty: EdgeType::Ref }]
        } else {
            Seq::empty()
        }
    }
}

/// The reference edges contributed by the event at position `i`: one edge
/// per event whose span equals the declared reference span, multiplicity
/// preserved.
pub open spec fn node_ref_edges(nodes: Seq<Event>, i: int) -> Seq<Edge> {
    match nodes[i].ref_spans {
        Some(rs) => ref_targets_upto(nodes, i, rs, nodes.len() as int),
        None => Seq::empty(),
    }
}

/// The reference edges contributed by events at positions below `n`.
pub open spec fn ref_edges_upto(nodes: Seq<Event>, n: int) -> Seq<Edge>
    decreases n,
{
    if n <= 0 {
        Seq::empty()
    } else {
        ref_edges_upto(nodes, n - 1) + node_ref_edges(nodes, n - 1)
    }
}

/// All reference edges inferred from an event sequence.
pub open spec fn ref_edges(nodes: Seq<Event>) -> Seq<Edge> {
    ref_edges_upto(nodes, nodes.len() as int)
}

/// The full derived edge list of a freshly built graph: every hierarchy
/// edge, followed by every reference edge.
pub open spec fn build_edges(nodes: Seq<Event>) -> Seq<Edge> {
    hierarchy_edges(nodes) + ref_edges(nodes)
}

/// Every edge endpoint lies inside the node arena.
pub open spec fn edges_wf(nodes: Seq<Event>, edges: Seq<Edge>) -> bool {
    forall|e: int|
        0 <= e < edges.len() ==> edges[e].source < nodes.len() && edges[e].target < nodes.len()
}

/// An annotated graph of the events generated by the compiler: the event
/// arena plus its derived edge list.
#[derive(Debug)]
pub struct Graph {
    edges: Vec<Edge>,
    nodes: Vec<Event>,
}

impl Graph {
    /// The node arena, in event order.
    pub closed spec fn nodes_seq(&self) -> Seq<Event> {
        self.nodes@
    }

    /// The derived edge list, in insertion order.
    pub closed spec fn edges_seq(&self) -> Seq<Edge> {
        self.edges@
    }

    /// Every edge of the graph stays inside the node arena.
    pub open spec fn wf(&self) -> bool {
        edges_wf(self.nodes_seq(), self.edges_seq())
    }

    /// Builds the graph for an event sequence: the nodes are the events,
    /// and the edges are the inferred hierarchy edges followed by the
    /// inferred reference edges.
    pub fn new(trace: &[Event]) -> (graph: Graph)
        ensures
            graph.nodes_seq() == trace@,
            graph.edges_seq() == build_edges(trace@),
            graph.wf(),
    {
        let mut nodes: Vec<Event> = Vec::new();
        let n = trace.len();
        for i in 0..n
            invariant
                n == trace@.len(),
                nodes@ == trace@.subrange(0, i as int),
        {
            nodes.push(trace[i].clone());
            proof {
                assert(nodes@ =~= trace@.subrange(0, i + 1 as int));
            }
        }
        proof {
            assert(trace@.subrange(0, n as int) =~= trace@);
        }
        let mut graph = Graph { edges: Vec::new(), nodes };

        // Construct the set of causal edges from the event set.
        graph = Self::construct_hierarchy_edges(graph);

        // Wherever an event declares a reference span that occurs in the
        // trace, add a reference edge.
        graph = Self::construct_ref_edges(graph);
        proof {
            assert(graph.edges_seq() =~= build_edges(trace@));
            lemma_hierarchy_edges_wf(trace@, trace@.len() as int);
            lemma_ref_edges_wf(trace@, trace@.len() as int);
        }
        graph
    }

    /// The number of nodes in the graph.
    pub fn num_nodes(&self) -> (r: usize)
        ensures
            r == self.nodes_seq().len(),
    {
        self.nodes.len()
    }

    /// The total number of edges in the graph.
    pub fn num_edges(&self) -> (r: usize)
        ensures
            r == self.edges_seq().len(),
    {
        self.edges.len()
    }

    /// A copy of the derived edge list, in insertion order.
    pub fn edge_list(&self) -> (r: Vec<Edge>)
        ensures
            r@ == self.edges_seq(),
    {
        let mut r: Vec<Edge> = Vec::new();
        let n = self.edges.len();
        let mut e: usize = 0;
        while e < n
            invariant
                e <= n,
                n == self.edges_seq().len(),
                r@ == self.edges_seq().subrange(0, e as int),
            decreases n - e,
        {
            r.push(self.edges[e]);
            proof {
                assert(r@ =~= self.edges_seq().subrange(0, e + 1 as int));
            }
            e = e + 1;
        }
        proof {
            assert(self.edges_seq().subrange(0, n as int) =~= self.edges_seq());
        }
        r
    }

    /// Appends to the edge list one hierarchy edge per event that has an
    /// inferred parent: the parent event has the first matching identifier
    /// when the child declares one, and otherwise the first later event
    /// whose span contains the child's span.
    fn construct_hierarchy_edges(mut graph: Graph) -> (r: Graph)
        ensures
            r.nodes_seq() == graph.nodes_seq(),
            r.edges_seq() == graph.edges_seq() + hierarchy_edges(graph.nodes_seq()),
    {
        let ghost nodes0 = graph.nodes@;
        let ghost edges0 = graph.edges@;
        let len = graph.nodes.len();
        let mut i: usize = 0;
        while i < len
            invariant
                i <= len,
                len == nodes0.len(),
                graph.nodes@ == nodes0,
                graph.edges@ == edges0 + hierarchy_edges_upto(nodes0, i as int),
            decreases len - i,
        {
            // If this node declares a parent identifier, find the parent
            // event by identifier; otherwise search later events for the
            // first one whose span contains this node's span.
            let parent: Option<usize> = match graph.nodes[i].parent_id {
                Some(pid) => find_event_by_id(&graph.nodes, pid),
                None => find_container_from(&graph.nodes, i, i + 1),
            };
            match parent {
                Some(j) => {
                    graph.add_parent_edge(j, i);
                    proof {
                        assert(parent_of(nodes0, i as int) == Some(j as int));
                    }
                },
                None => {
                    proof {
                        assert(parent_of(nodes0, i as int) is None);
                    }
                },
            }
            proof {
                assert(hierarchy_edges_upto(nodes0, i + 1 as int) == hierarchy_edges_upto(
                    nodes0,
                    i as int,
                ) + match parent_of(nodes0, i as int) {
                    Some(j) => seq![
                        Edge { source: j as usize, target: i, ty: EdgeType::Parent },
                    ],
                    None => Seq::<Edge>::empty(),
                });
                assert(graph.edges@ =~= edges0 + hierarchy_edges_upto(nodes0, i + 1 as int));
            }
            i = i + 1;
        }
        graph
    }

    /// Appends to the edge list every inferred reference edge: for each
    /// event that declares a reference span, one edge to every event whose
    /// own span equals that reference span.
    fn construct_ref_edges(mut graph: Graph) -> (r: Graph)
        ensures
            r.nodes_seq() == graph.nodes_seq(),
            r.edges_seq() == graph.edges_seq() + ref_edges(graph.nodes_seq()),
    {
        let ghost nodes0 = graph.nodes@;
        let ghost edges0 = graph.edges@;
        let len = graph.nodes.len();
        let mut i: usize = 0;
        while i < len
            invariant
                i <= len,
                len == nodes0.len(),
                graph.nodes@ == nodes0,
                graph.edges@ == edges0 + ref_edges_upto(nodes0, i as int),
            decreases len - i,
        {
            let ghost edges_i = graph.edges@;
            match graph.nodes[i].ref_spans {
                Some(rs) => {
                    let mut j: usize = 0;
                    while j < len
                        invariant
                            j <= len,
                            i < len,
                            len == nodes0.len(),
                            graph.nodes@ == nodes0,
                            nodes0[i as int].ref_spans == Some(rs),
                            graph.edges@ == edges_i + ref_targets_upto(
                                nodes0,
                                i as int,
                                rs,
                                j as int,
                            ),
                        decreases len - j,
                    {
                        if graph.nodes[j].source == rs {
                            graph.add_ref_edge(i, j);
                        }
                        proof {
                            assert(graph.edges@ =~= edges_i + ref_targets_upto(
                                nodes0,
                                i as int,
                                rs,
                                j + 1 as int,
                            ));
                        }
                        j = j + 1;
                    }
                    proof {
                        assert(graph.edges@ =~= edges0 + ref_edges_upto(nodes0, i + 1 as int));
                    }
                },
                None => {
                    proof {
                        assert(graph.edges@ =~= edges0 + ref_edges_upto(nodes0, i + 1 as int));
                    }
                },
            }
            i = i + 1;
        }
        graph
    }

    /// Appends one hierarchy edge.
    fn add_parent_edge(&mut self, source: usize, target: usize)
        ensures
            final(self).nodes_seq() == old(self).nodes_seq(),
            final(self).edges_seq() == old(self).edges_seq().push(
                Edge { source, target, ty: EdgeType::Parent },
            ),
    {
        self.edges.push(Edge { source, target, ty: EdgeType::Parent })
    }

    /// Appends one reference edge.
    fn add_ref_edge(&mut self, source: usize, target: usize)
        ensures
            final(self).nodes_seq() == old(self).nodes_seq(),
            final(self).edges_seq() == old(self).edges_seq().push(
                Edge { source, target, ty: EdgeType::Ref },
            ),
    {
        self.edges.push(Edge { source, target, ty: EdgeType::Ref })
    }
}

/// The first edge position at or after `e` holding a hierarchy edge whose
/// target is node `n`: the edge connecting `n` to its parent.
pub open spec fn find_parent_edge(edges: Seq<Edge>, n: int, e: int) -> Option<int>
    decreases edges.len() - e,
{
    if !(0 <= e < edges.len()) {
        None
    } else if edges[e].ty == EdgeType::Parent && edges[e].target == n {
        Some(e)
    } else {
        find_parent_edge(edges, n, e + 1)
    }
}

/// The edge list with every edge sourced at node `n` redirected to
/// originate at node `p` instead.  Order and length are kept.
pub open spec fn redirect_sources(edges: Seq<Edge>, n: int, p: usize) -> Seq<Edge> {
    edges.map_values(
        |ed: Edge|
            if ed.source == n {
                Edge { source: p, target: ed.target, ty: ed.ty }
            } else {
                ed
            },
    )
}

/// One step of the no-op merge pass, applied to node `n`: when `n` is a
/// no-op with a parent, every edge sourced at `n` is redirected to the
/// parent and the parent-to-`n` hierarchy edge is deleted.  A node that is
/// not a no-op, or a no-op with no incoming hierarchy edge, leaves the
/// edge list unchanged.
pub open spec fn merge_step(nodes: Seq<Event>, edges: Seq<Edge>, n: int) -> Seq<Edge> {
    if !(0 <= n < nodes.len()) || !nodes[n].is_noop() {
        edges
    } else {
        match find_parent_edge(edges, n, 0) {
            None => edges,
            Some(pe) => redirect_sources(edges, n, edges[pe].source).remove(pe),
        }
    }
}

/// The edge list after the merge pass has processed nodes `0 .. n` in
/// ascending order.  Because each step looks the parent up in the current
/// edge list, chains of no-op nodes resolve correctly in this order.
pub open spec fn merge_upto(nodes: Seq<Event>, edges: Seq<Edge>, n: int) -> Seq<Edge>
    decreases n,
{
    if n <= 0 {
        edges
    } else {
        merge_step(nodes, merge_upto(nodes, edges, n - 1), n - 1)
    }
}

/// The edge list after the full no-op merge pass.
pub open spec fn merge_all(nodes: Seq<Event>, edges: Seq<Edge>) -> Seq<Edge> {
    merge_upto(nodes, edges, nodes.len() as int)
}

/// True when some hierarchy edge targets node `i`.
pub open spec fn has_parent_edge(edges: Seq<Edge>, i: int) -> bool {
    exists|e: int|
        0 <= e < edges.len() && edges[e].ty == EdgeType::Parent && edges[e].target == i
}

/// A root is a node with no incoming hierarchy edge that is not a no-op:
/// a parentless no-op is not considered a root.
pub open spec fn is_root(nodes: Seq<Event>, edges: Seq<Edge>, i: int) -> bool {
    !has_parent_edge(edges, i) && !nodes[i].is_noop()
}

/// The roots among nodes `0 .. n`, in ascending node position.
pub open spec fn roots_upto(nodes: Seq<Event>, edges: Seq<Edge>, n: int) -> Seq<int>
    decreases n,
{
    if n <= 0 {
        Seq::empty()
    } else {
        roots_upto(nodes, edges, n - 1) + if is_root(nodes, edges, n - 1) {
            seq![n - 1]
        } else {
            Seq::empty()
        }
    }
}

/// All root positions, in ascending order.
pub open spec fn spec_roots(nodes: Seq<Event>, edges: Seq<Edge>) -> Seq<int> {
    roots_upto(nodes, edges, nodes.len() as int)
}

/// The hierarchy targets of edges sourced at node `i` among the first `n`
/// edges, in edge-insertion order.
pub open spec fn children_upto(edges: Seq<Edge>, i: int, n: int) -> Seq<int>
    decreases n,
{
    if n <= 0 {
        Seq::empty()
    } else {
        children_upto(edges, i, n - 1) + if edges[n - 1].ty == EdgeType::Parent && edges[n
            - 1].source == i {
            seq![edges[n - 1].target as int]
        } else {
            Seq::empty()
        }
    }
}

/// The children of node `i`: hierarchy targets of edges sourced at `i`,
/// in edge-insertion order.
pub open spec fn spec_children(edges: Seq<Edge>, i: int) -> Seq<int> {
    children_upto(edges, i, edges.len() as int)
}

/// The sources of reference edges targeting node `i` among the first `n`
/// edges, in edge-insertion order.
pub open spec fn refed_by_upto(edges: Seq<Edge>, i: int, n: int) -> Seq<int>
    decreases n,
{
    if n <= 0 {
        Seq::empty()
    } else {
        refed_by_upto(edges, i, n - 1) + if edges[n - 1].ty == EdgeType::Ref && edges[n
            - 1].target == i {
            seq![edges[n - 1].source as int]
        } else {
            Seq::empty()
        }
    }
}

/// The nodes that reference node `i` through a reference edge.
pub open spec fn spec_refed_by(edges: Seq<Edge>, i: int) -> Seq<int> {
    refed_by_upto(edges, i, edges.len() as int)
}

/// A leaf is a node at which no edge of any type originates.
pub open spec fn spec_is_leaf(edges: Seq<Edge>, i: int) -> bool {
    forall|e: int| 0 <= e < edges.len() ==> (#[trigger] edges[e].source) != i
}

/// The event at position `i` declares a parent identifier that no event
/// of the sequence carries.
pub open spec fn unresolved_parent_at(nodes: Seq<Event>, i: int) -> bool {
    match nodes[i].parent_id {
        Some(pid) => find_by_id(nodes, pid, 0) is None,
        None => false,
    }
}

/// The event at position `i` declares a reference span that no event's
/// own span equals.
pub open spec fn unresolved_ref_at(nodes: Seq<Event>, i: int) -> bool {
    match nodes[i].ref_spans {
        Some(rs) => !(exists|j: int| 0 <= j < nodes.len() && (#[trigger] nodes[j]).source == rs),
        None => false,
    }
}

/// The positions among `0 .. n` with an unresolvable parent identifier,
/// ascending.
pub open spec fn unresolved_parents_upto(nodes: Seq<Event>, n: int) -> Seq<int>
    decreases n,
{
    if n <= 0 {
        Seq::empty()
    } else {
        unresolved_parents_upto(nodes, n - 1) + if unresolved_parent_at(nodes, n - 1) {
            seq![n - 1]
        } else {
            Seq::empty()
        }
    }
}

/// The positions among `0 .. n` with an unresolvable reference span,
/// ascending.
pub open spec fn unresolved_refs_upto(nodes: Seq<Event>, n: int) -> Seq<int>
    decreases n,
{
    if n <= 0 {
        Seq::empty()
    } else {
        unresolved_refs_upto(nodes, n - 1) + if unresolved_ref_at(nodes, n - 1) {
            seq![n - 1]
        } else {
            Seq::empty()
        }
    }
}

impl Graph {
    /// Splices every no-op node out of the hierarchy: the node's outgoing
    /// edges are redirected to originate at its parent, and the edge from
    /// the parent to the no-op node is deleted.  The no-op node itself
    /// stays in the arena, with no incident edges.  Nodes are processed in
    /// ascending position; each step consults the current edge list, so
    /// chains of no-op nodes collapse onto their nearest recorded ancestor.
    pub fn merge_noops(&mut self)
        ensures
            final(self).nodes_seq() == old(self).nodes_seq(),
            final(self).edges_seq() == merge_all(old(self).nodes_seq(), old(self).edges_seq()),
            old(self).wf() ==> final(self).wf(),
    {
        let ghost nodes0 = self.nodes@;
        let ghost edges0 = self.edges@;
        let len = self.nodes.len();
        let mut n: usize = 0;
        while n < len
            invariant
                n <= len,
                len == nodes0.len(),
                self.nodes@ == nodes0,
                self.edges@ == merge_upto(nodes0, edges0, n as int),
            decreases len - n,
        {
            let ghost cur = self.edges@;
            let is_noop = {
                let ev = &self.nodes[n];
                ev.error.is_none() && ev.ok.is_none()
            };
            if is_noop {
                // Find the edge connecting this node to its parent.
                match find_parent_edge_exec(&self.edges, n) {
                    Some(pe) => {
                        let p = self.edges[pe].source;
                        // Rebuild the edge list with every edge that
                        // starts at this no-op node redirected to start at
                        // the parent instead.
                        let mut redirected: Vec<Edge> = Vec::new();
                        let elen = self.edges.len();
                        let mut e: usize = 0;
                        while e < elen
                            invariant
                                e <= elen,
                                elen == cur.len(),
                                self.edges@ == cur,
                                redirected@ == redirect_sources(cur, n as int, p).subrange(
                                    0,
                                    e as int,
                                ),
                            decreases elen - e,
                        {
                            let mut edge = self.edges[e];
                            if edge.source == n {
                                edge.source = p;
                            }
                            redirected.push(edge);
                            proof {
                                assert(redirected@ =~= redirect_sources(cur, n as int, p).subrange(
                                    0,
                                    e + 1 as int,
                                ));
                            }
                            e = e + 1;
                        }
                        proof {
                            assert(redirected@ =~= redirect_sources(cur, n as int, p));
                        }
                        // Delete the edge connecting the parent to the
                        // no-op node.
                        redirected.remove(pe);
                        self.edges = redirected;
                        proof {
                            assert(self.edges@ == merge_step(nodes0, cur, n as int));
                        }
                    },
                    None => {
                        // A no-op with no recorded parent keeps its edges:
                        // there is nowhere to redirect them to.
                        proof {
                            assert(self.edges@ == merge_step(nodes0, cur, n as int));
                        }
                    },
                }
            } else {
                proof {
                    assert(self.edges@ == merge_step(nodes0, cur, n as int));
                }
            }
            n = n + 1;
        }
        proof {
            if edges_wf(nodes0, edges0) {
                lemma_merge_upto_wf(nodes0, edges0, len as int);
            }
        }
    }

    /// Returns the nodes that have no incoming hierarchy edge and are not
    /// no-ops — the roots — in ascending node position.
    pub fn get_roots(&self) -> (r: Vec<NodeId>)
        ensures
            r@.map_values(|id: NodeId| id.spec_index()) == spec_roots(
                self.nodes_seq(),
                self.edges_seq(),
            ),
    {
        let mut roots: Vec<NodeId> = Vec::new();
        let n = self.nodes.len();
        let mut i: usize = 0;
        while i < n
            invariant
                i <= n,
                n == self.nodes_seq().len(),
                roots@.map_values(|id: NodeId| id.spec_index()) == roots_upto(
                    self.nodes_seq(),
                    self.edges_seq(),
                    i as int,
                ),
            decreases n - i,
        {
            let recorded = {
                let ev = &self.nodes[i];
                ev.error.is_some() || ev.ok.is_some()
            };
            if recorded && !has_parent_edge_exec(&self.edges, i) {
                roots.push(NodeId(i));
            }
            proof {
                assert(roots@.map_values(|id: NodeId| id.spec_index()) =~= roots_upto(
                    self.nodes_seq(),
                    self.edges_seq(),
                    i + 1 as int,
                ));
            }
            i = i + 1;
        }
        roots
    }

    /// Returns the event stored at the given node position.  Calling this
    /// with a handle outside the arena is a programmer error.
    pub fn get_node(&self, id: NodeId) -> (r: &Event)
        requires
            id.spec_index() < self.nodes_seq().len(),
        ensures
            *r == self.nodes_seq()[id.spec_index()],
    {
        &self.nodes[id.0]
    }

    /// Returns the children of the given node: the hierarchy targets of
    /// edges sourced at it, in edge-insertion order.
    pub fn get_adj(&self, id: NodeId) -> (r: Vec<NodeId>)
        ensures
            r@.map_values(|c: NodeId| c.spec_index()) == spec_children(
                self.edges_seq(),
                id.spec_index(),
            ),
    {
        let mut children: Vec<NodeId> = Vec::new();
        let n = self.edges.len();
        let mut e: usize = 0;
        while e < n
            invariant
                e <= n,
                n == self.edges_seq().len(),
                children@.map_values(|c: NodeId| c.spec_index()) == children_upto(
                    self.edges_seq(),
                    id.spec_index(),
                    e as int,
                ),
            decreases n - e,
        {
            let edge = self.edges[e];
            if edge.ty == EdgeType::Parent && edge.source == id.0 {
                children.push(NodeId(edge.target));
            }
            proof {
                assert(children@.map_values(|c: NodeId| c.spec_index()) =~= children_upto(
                    self.edges_seq(),
                    id.spec_index(),
                    e + 1 as int,
                ));
            }
            e = e + 1;
        }
        children
    }

    /// Returns the nodes that reference the given node: the sources of
    /// reference edges targeting it, in edge-insertion order.
    pub fn get_refed_by(&self, id: NodeId) -> (r: Vec<NodeId>)
        ensures
            r@.map_values(|c: NodeId| c.spec_index()) == spec_refed_by(
                self.edges_seq(),
                id.spec_index(),
            ),
    {
        let mut sources: Vec<NodeId> = Vec::new();
        let n = self.edges.len();
        let mut e: usize = 0;
        while e < n
            invariant
                e <= n,
                n == self.edges_seq().len(),
                sources@.map_values(|c: NodeId| c.spec_index()) == refed_by_upto(
                    self.edges_seq(),
                    id.spec_index(),
                    e as int,
                ),
            decreases n - e,
        {
            let edge = self.edges[e];
            if edge.ty == EdgeType::Ref && edge.target == id.0 {
                sources.push(NodeId(edge.source));
            }
            proof {
                assert(sources@.map_values(|c: NodeId| c.spec_index()) =~= refed_by_upto(
                    self.edges_seq(),
                    id.spec_index(),
                    e + 1 as int,
                ));
            }
            e = e + 1;
        }
        sources
    }

    /// Returns the nodes whose declared links resolved to nothing during
    /// inference: first those whose explicit parent identifier no event
    /// carries, then those whose reference span no event's span equals.
    /// Construction records no edge for such a link and continues; this
    /// query makes the dropped links observable instead of silent.
    pub fn unresolved_links(&self) -> (r: (Vec<NodeId>, Vec<NodeId>))
        ensures
            r.0@.map_values(|id: NodeId| id.spec_index()) == unresolved_parents_upto(
                self.nodes_seq(),
                self.nodes_seq().len() as int,
            ),
            r.1@.map_values(|id: NodeId| id.spec_index()) == unresolved_refs_upto(
                self.nodes_seq(),
                self.nodes_seq().len() as int,
            ),
    {
        let mut parents: Vec<NodeId> = Vec::new();
        let mut refs: Vec<NodeId> = Vec::new();
        let len = self.nodes.len();
        let mut i: usize = 0;
        while i < len
            invariant
                i <= len,
                len == self.nodes_seq().len(),
                parents@.map_values(|id: NodeId| id.spec_index()) == unresolved_parents_upto(
                    self.nodes_seq(),
                    i as int,
                ),
                refs@.map_values(|id: NodeId| id.spec_index()) == unresolved_refs_upto(
                    self.nodes_seq(),
                    i as int,
                ),
            decreases len - i,
        {
            let parent_id = self.nodes[i].parent_id;
            match parent_id {
                Some(pid) => {
                    if find_event_by_id(&self.nodes, pid).is_none() {
                        parents.push(NodeId(i));
                    }
                },
                None => {},
            }
            let ref_spans = self.nodes[i].ref_spans;
            match ref_spans {
                Some(rs) => {
                    if !has_span_match(&self.nodes, rs) {
                        refs.push(NodeId(i));
                    }
                },
                None => {},
            }
            proof {
                assert(parents@.map_values(|id: NodeId| id.spec_index())
                    =~= unresolved_parents_upto(self.nodes_seq(), i + 1 as int));
                assert(refs@.map_values(|id: NodeId| id.spec_index()) =~= unresolved_refs_upto(
                    self.nodes_seq(),
                    i + 1 as int,
                ));
            }
            i = i + 1;
        }
        (parents, refs)
    }

    /// Returns true if no edge of any type originates at the given node.
    pub fn is_leaf(&self, id: NodeId) -> (r: bool)
        ensures
            r == spec_is_leaf(self.edges_seq(), id.spec_index()),
    {
        let n = self.edges.len();
        let mut e: usize = 0;
        while e < n
            invariant
                e <= n,
                n == self.edges_seq().len(),
                forall|k: int|
                    0 <= k < e ==> (#[trigger] self.edges_seq()[k].source) != id.spec_index(),
            decreases n - e,
        {
            if self.edges[e].source == id.0 {
                return false;
            }
            e = e + 1;
        }
        true
    }
}

/// Returns the first edge position holding a hierarchy edge whose target
/// is node `n`.
fn find_parent_edge_exec(edges: &Vec<Edge>, n: usize) -> (r: Option<usize>)
    ensures
        match r {
            Some(u) => find_parent_edge(edges@, n as int, 0) == Some(u as int) && u < edges@.len(),
            None => find_parent_edge(edges@, n as int, 0) is None,
        },
{
    let len = edges.len();
    let mut e: usize = 0;
    while e < len
        invariant
            e <= len,
            len == edges@.len(),
            find_parent_edge(edges@, n as int, 0) == find_parent_edge(edges@, n as int, e as int),
        decreases len - e,
    {
        let edge = edges[e];
        if edge.ty == EdgeType::Parent && edge.target == n {
            return Some(e);
        }
        e = e + 1;
    }
    None
}

/// Returns true when some hierarchy edge targets node `i`.
fn has_parent_edge_exec(edges: &Vec<Edge>, i: usize) -> (r: bool)
    ensures
        r == has_parent_edge(edges@, i as int),
{
    let len = edges.len();
    let mut e: usize = 0;
    while e < len
        invariant
            e <= len,
            len == edges@.len(),
            forall|k: int|
                0 <= k < e ==> !((#[trigger] edges@[k].ty) == EdgeType::Parent && edges@[k].target
                    == i),
        decreases len - e,
    {
        let edge = edges[e];
        if edge.ty == EdgeType::Parent && edge.target == i {
            return true;
        }
        e = e + 1;
    }
    false
}

/// A found parent edge lies inside the edge list.
proof fn lemma_find_parent_edge_in_range(edges: Seq<Edge>, n: int, e: int)
    ensures
        find_parent_edge(edges, n, e) matches Some(pe) ==> e <= pe < edges.len() && 0 <= pe,
    decreases edges.len() - e,
{
    if 0 <= e < edges.len() && !(edges[e].ty == EdgeType::Parent && edges[e].target == n) {
        lemma_find_parent_edge_in_range(edges, n, e + 1);
    }
}

/// One merge step keeps every edge endpoint inside the arena.
proof fn lemma_merge_step_wf(nodes: Seq<Event>, edges: Seq<Edge>, n: int)
    requires
        edges_wf(nodes, edges),
    ensures
        edges_wf(nodes, merge_step(nodes, edges, n)),
{
    if 0 <= n < nodes.len() && nodes[n].is_noop() {
        match find_parent_edge(edges, n, 0) {
            None => {},
            Some(pe) => {
                lemma_find_parent_edge_in_range(edges, n, 0);
                let p = edges[pe].source;
                let red = redirect_sources(edges, n, p);
                assert(forall|e: int|
                    0 <= e < red.len() ==> (#[trigger] red[e]).source < nodes.len()
                        && red[e].target < nodes.len());
                let rem = red.remove(pe);
                assert(forall|e: int|
                    0 <= e < rem.len() ==> (#[trigger] rem[e]).source < nodes.len()
                        && rem[e].target < nodes.len());
            },
        }
    }
}

/// The merge pass keeps every edge endpoint inside the arena.
proof fn lemma_merge_upto_wf(nodes: Seq<Event>, edges: Seq<Edge>, n: int)
    requires
        edges_wf(nodes, edges),
    ensures
        edges_wf(nodes, merge_upto(nodes, edges, n)),
    decreases n,
{
    if n > 0 {
        lemma_merge_upto_wf(nodes, edges, n - 1);
        lemma_merge_step_wf(nodes, merge_upto(nodes, edges, n - 1), n - 1);
    }
}

/// Returns the first position whose event has the given identifier.
fn find_event_by_id(nodes: &Vec<Event>, id: u64) -> (r: Option<usize>)
    ensures
        match r {
            Some(u) => find_by_id(nodes@, id, 0) == Some(u as int),
            None => find_by_id(nodes@, id, 0) is None,
        },
{
    let len = nodes.len();
    let mut j: usize = 0;
    while j < len
        invariant
            j <= len,
            len == nodes@.len(),
            find_by_id(nodes@, id, 0) == find_by_id(nodes@, id, j as int),
        decreases len - j,
    {
        if nodes[j].id == id {
            return Some(j);
        }
        j = j + 1;
    }
    None
}

/// Returns true when some event's own span equals the given span.
fn has_span_match(nodes: &Vec<Event>, rs: Span) -> (r: bool)
    ensures
        r == (exists|j: int| 0 <= j < nodes@.len() && (#[trigger] nodes@[j]).source == rs),
{
    let len = nodes.len();
    let mut j: usize = 0;
    while j < len
        invariant
            j <= len,
            len == nodes@.len(),
            forall|k: int| 0 <= k < j ==> (#[trigger] nodes@[k]).source != rs,
        decreases len - j,
    {
        if nodes[j].source == rs {
            return true;
        }
        j = j + 1;
    }
    false
}

/// Returns the first position at or after `start` whose event's span
/// contains the span of the event at position `i`.
fn find_container_from(nodes: &Vec<Event>, i: usize, start: usize) -> (r: Option<usize>)
    requires
        i < nodes@.len(),
    ensures
        match r {
            Some(u) => find_container(nodes@, i as int, start as int) == Some(u as int),
            None => find_container(nodes@, i as int, start as int) is None,
        },
{
    let len = nodes.len();
    let mut j: usize = start;
    while j < len
        invariant
            len == nodes@.len(),
            i < len,
            find_container(nodes@, i as int, start as int) == find_container(
                nodes@,
                i as int,
                j as int,
            ),
        decreases len - j,
    {
        if contains(&nodes[j], &nodes[i]) {
            return Some(j);
        }
        j = j + 1;
    }
    None
}

/// Every hierarchy edge inferred from the first `n` events stays inside
/// the arena.
proof fn lemma_hierarchy_edges_wf(nodes: Seq<Event>, n: int)
    requires
        n <= nodes.len(),
    ensures
        edges_wf(nodes, hierarchy_edges_upto(nodes, n)),
    decreases n,
{
    if n > 0 {
        lemma_hierarchy_edges_wf(nodes, n - 1);
        match parent_of(nodes, n - 1) {
            Some(j) => {
                lemma_parent_of_in_range(nodes, n - 1);
            },
            None => {},
        }
    }
}

/// An inferred parent position lies inside the arena.
proof fn lemma_parent_of_in_range(nodes: Seq<Event>, i: int)
    ensures
        parent_of(nodes, i) matches Some(j) ==> 0 <= j < nodes.len(),
{
    match nodes[i].parent_id {
        Some(pid) => {
            lemma_find_by_id_in_range(nodes, pid, 0);
        },
        None => {
            lemma_find_container_in_range(nodes, i, i + 1);
        },
    }
}

proof fn lemma_find_by_id_in_range(nodes: Seq<Event>, id: u64, j: int)
    ensures
        find_by_id(nodes, id, j) matches Some(u) ==> 0 <= u < nodes.len(),
    decreases nodes.len() - j,
{
    if 0 <= j < nodes.len() && nodes[j].id != id {
        lemma_find_by_id_in_range(nodes, id, j + 1);
    }
}

proof fn lemma_find_container_in_range(nodes: Seq<Event>, i: int, j: int)
    ensures
        find_container(nodes, i, j) matches Some(u) ==> 0 <= u < nodes.len(),
    decreases nodes.len() - j,
{
    if 0 <= j < nodes.len() && !spec_contains(nodes[j], nodes[i]) {
        lemma_find_container_in_range(nodes, i, j + 1);
    }
}

/// Every reference edge inferred from the first `n` events stays inside
/// the arena.
proof fn lemma_ref_edges_wf(nodes: Seq<Event>, n: int)
    requires
        n <= nodes.len(),
    ensures
        edges_wf(nodes, ref_edges_upto(nodes, n)),
    decreases n,
{
    if n > 0 {
        lemma_ref_edges_wf(nodes, n - 1);
        match nodes[n - 1].ref_spans {
            Some(rs) => {
                lemma_ref_targets_wf(nodes, n - 1, rs, nodes.len() as int);
            },
            None => {},
        }
    }
}

proof fn lemma_ref_targets_wf(nodes: Seq<Event>, i: int, rs: Span, j: int)
    requires
        0 <= i < nodes.len(),
        j <= nodes.len(),
    ensures
        edges_wf(nodes, ref_targets_upto(nodes, i, rs, j)),
    decreases j,
{
    if j > 0 {
        lemma_ref_targets_wf(nodes, i, rs, j - 1);
    }
}

/// Every edge among the first `j` reference edges of node `i` has type
/// `Ref`.
proof fn lemma_ref_targets_all_ref(nodes: Seq<Event>, i: int, rs: Span, j: int)
    ensures
        forall|k: int|
            0 <= k < ref_targets_upto(nodes, i, rs, j).len() ==> (#[trigger] ref_targets_upto(
                nodes,
                i,
                rs,
                j,
            )[k]).ty == EdgeType::Ref,
    decreases j,
{
    if j > 0 {
        lemma_ref_targets_all_ref(nodes, i, rs, j - 1);
    }
}

/// Every inferred reference edge has type `Ref`.
proof fn lemma_ref_edges_all_ref(nodes: Seq<Event>, n: int)
    ensures
        forall|k: int|
            0 <= k < ref_edges_upto(nodes, n).len() ==> (#[trigger] ref_edges_upto(nodes, n)[k]).ty
                == EdgeType::Ref,
    decreases n,
{
    if n > 0 {
        lemma_ref_edges_all_ref(nodes, n - 1);
        match nodes[n - 1].ref_spans {
            Some(rs) => {
                lemma_ref_targets_all_ref(nodes, n - 1, rs, nodes.len() as int);
            },
            None => {},
        }
    }
}

/// No hierarchy edge targets node `i` when the hierarchy part has no such
/// edge and the remaining part consists of reference edges only.
proof fn lemma_no_parent_edge_in_append(hier: Seq<Edge>, refs: Seq<Edge>, i: int)
    requires
        forall|k: int|
            0 <= k < hier.len() ==> !((#[trigger] hier[k]).ty == EdgeType::Parent && hier[k].target
                == i),
        forall|k: int| 0 <= k < refs.len() ==> (#[trigger] refs[k]).ty == EdgeType::Ref,
    ensures
        !has_parent_edge(hier + refs, i),
{
    assert forall|e: int| 0 <= e < (hier + refs).len() implies !((#[trigger] (hier + refs)[e]).ty
        == EdgeType::Parent && (hier + refs)[e].target == i) by {
        if e < hier.len() {
            assert((hier + refs)[e] == hier[e]);
        } else {
            assert((hier + refs)[e] == refs[e - hier.len()]);
        }
    }
}

/// A single event with no parent identifier and no enclosing event yields
/// an empty hierarchy edge set, and — provided it recorded an outcome —
/// the roots are exactly that event.
pub proof fn lemma_single_event_graph(e: Event)
    requires
        e.parent_id is None,
        !e.is_noop(),
    ensures
        hierarchy_edges(seq![e]) == Seq::<Edge>::empty(),
        spec_roots(seq![e], build_edges(seq![e])) == seq![0int],
{
    let s = seq![e];
    assert(find_container(s, 0, 1) is None);
    assert(parent_of(s, 0) is None);
    assert(hierarchy_edges_upto(s, 0) == Seq::<Edge>::empty());
    assert(hierarchy_edges(s) =~= Seq::<Edge>::empty());

    let edges = build_edges(s);
    lemma_ref_edges_all_ref(s, 1);
    lemma_no_parent_edge_in_append(hierarchy_edges(s), ref_edges(s), 0);
    assert(is_root(s, edges, 0));
    assert(roots_upto(s, edges, 0) == Seq::<int>::empty());
    assert(spec_roots(s, edges) =~= seq![0int]);
}

/// When an enclosing event follows the event it encloses, span containment
/// infers exactly one hierarchy edge, from the encloser to the enclosed,
/// and — provided the encloser recorded an outcome — the roots are exactly
/// the encloser.
pub proof fn lemma_span_containment_infers_parent(inner: Event, outer: Event)
    requires
        inner.parent_id is None,
        outer.parent_id is None,
        spec_contains(outer, inner),
        !outer.is_noop(),
    ensures
        hierarchy_edges(seq![inner, outer]) == seq![
            Edge { source: 1, target: 0, ty: EdgeType::Parent },
        ],
        spec_roots(seq![inner, outer], build_edges(seq![inner, outer])) == seq![1int],
{
    let s = seq![inner, outer];
    let hier_edge = Edge { source: 1, target: 0, ty: EdgeType::Parent };
    assert(find_container(s, 0, 1) == Some(1int));
    assert(parent_of(s, 0) == Some(1int));
    assert(find_container(s, 1, 2) is None);
    assert(parent_of(s, 1) is None);
    assert(hierarchy_edges_upto(s, 0) == Seq::<Edge>::empty());
    assert(hierarchy_edges_upto(s, 1) =~= seq![hier_edge]);
    assert(hierarchy_edges(s) =~= seq![hier_edge]);

    let edges = build_edges(s);
    lemma_ref_edges_all_ref(s, 2);
    lemma_no_parent_edge_in_append(hierarchy_edges(s), ref_edges(s), 1);
    assert(is_root(s, edges, 1));
    assert(edges[0] == hier_edge);
    assert(has_parent_edge(edges, 0));
    assert(!is_root(s, edges, 0));
    assert(roots_upto(s, edges, 0) == Seq::<int>::empty());
    assert(roots_upto(s, edges, 1) =~= Seq::<int>::empty());
    assert(spec_roots(s, edges) =~= seq![1int]);
}

/// The merge pass splices a no-op out of a hierarchy chain: with edges
/// `a -> n` and `n -> b` where only `n` is a no-op, the merged edge list
/// is exactly `a -> b`.  The no-op keeps no incident edge of any kind and
/// is absent from every traversal that starts at `a`.
pub proof fn lemma_merge_splices_noop_chain(nodes: Seq<Event>, a: int, n: int, b: int)
    requires
        0 <= a < nodes.len(),
        0 <= n < nodes.len(),
        0 <= b < nodes.len(),
        a != n,
        n != b,
        a != b,
        nodes.len() <= usize::MAX,
        nodes[n].is_noop(),
        !nodes[a].is_noop(),
        !nodes[b].is_noop(),
    ensures
        ({
            let e0 = seq![
                Edge { source: a as usize, target: n as usize, ty: EdgeType::Parent },
                Edge { source: n as usize, target: b as usize, ty: EdgeType::Parent },
            ];
            let merged = merge_all(nodes, e0);
            &&& merged == seq![Edge { source: a as usize, target: b as usize, ty: EdgeType::Parent }]
            &&& !has_parent_edge(merged, n)
            &&& spec_children(merged, n) == Seq::<int>::empty()
            &&& spec_refed_by(merged, n) == Seq::<int>::empty()
            &&& spec_is_leaf(merged, n)
            &&& spec_children(merged, a) == seq![b]
            &&& spec_children(merged, b) == Seq::<int>::empty()
        }),
{
    let e0 = seq![
        Edge { source: a as usize, target: n as usize, ty: EdgeType::Parent },
        Edge { source: n as usize, target: b as usize, ty: EdgeType::Parent },
    ];
    let e1 = seq![Edge { source: a as usize, target: b as usize, ty: EdgeType::Parent }];
    lemma_merge_chain_steps(nodes, a, n, b, nodes.len() as int);
    let merged = merge_all(nodes, e0);
    assert(merged == e1);
    assert(!has_parent_edge(merged, n)) by {
        assert(forall|e: int| 0 <= e < merged.len() ==> (#[trigger] merged[e]).target == b);
    }
    assert(children_upto(merged, n, 0) == Seq::<int>::empty());
    assert(spec_children(merged, n) =~= Seq::<int>::empty());
    assert(refed_by_upto(merged, n, 0) == Seq::<int>::empty());
    assert(spec_refed_by(merged, n) =~= Seq::<int>::empty());
    assert(children_upto(merged, a, 0) == Seq::<int>::empty());
    assert(spec_children(merged, a) =~= seq![b]);
    assert(children_upto(merged, b, 0) == Seq::<int>::empty());
    assert(spec_children(merged, b) =~= Seq::<int>::empty());
}

/// Processing the chain `a -> n -> b` leaves the edge pair untouched until
/// the no-op `n` is reached, and yields the single edge `a -> b` from then
/// on.
proof fn lemma_merge_chain_steps(nodes: Seq<Event>, a: int, n: int, b: int, k: int)
    requires
        0 <= a < nodes.len(),
        0 <= n < nodes.len(),
        0 <= b < nodes.len(),
        a != n,
        n != b,
        a != b,
        nodes.len() <= usize::MAX,
        nodes[n].is_noop(),
        !nodes[a].is_noop(),
        !nodes[b].is_noop(),
        k <= nodes.len(),
    ensures
        ({
            let e0 = seq![
                Edge { source: a as usize, target: n as usize, ty: EdgeType::Parent },
                Edge { source: n as usize, target: b as usize, ty: EdgeType::Parent },
            ];
            let e1 = seq![Edge { source: a as usize, target: b as usize, ty: EdgeType::Parent }];
            merge_upto(nodes, e0, k) == if k <= n {
                e0
            } else {
                e1
            }
        }),
    decreases k,
{
    let e0 = seq![
        Edge { source: a as usize, target: n as usize, ty: EdgeType::Parent },
        Edge { source: n as usize, target: b as usize, ty: EdgeType::Parent },
    ];
    let e1 = seq![Edge { source: a as usize, target: b as usize, ty: EdgeType::Parent }];
    if k > 0 {
        lemma_merge_chain_steps(nodes, a, n, b, k - 1);
        let m = k - 1;
        if m < n {
            // The earlier nodes leave the chain untouched: neither edge
            // targets them.
            if nodes[m].is_noop() {
                assert(find_parent_edge(e0, m, 2) is None);
                assert(find_parent_edge(e0, m, 1) is None);
                assert(find_parent_edge(e0, m, 0) is None);
            }
            assert(merge_step(nodes, e0, m) == e0);
        } else if m == n {
            assert(find_parent_edge(e0, n, 0) == Some(0int));
            let red = redirect_sources(e0, n, a as usize);
            assert(red =~= seq![
                Edge { source: a as usize, target: n as usize, ty: EdgeType::Parent },
                Edge { source: a as usize, target: b as usize, ty: EdgeType::Parent },
            ]);
            assert(red.remove(0) =~= e1);
            assert(merge_step(nodes, e0, n) == e1);
        } else {
            // Only `b` is targeted by the remaining edge, and `b` recorded
            // an outcome, so later steps change nothing.
            if nodes[m].is_noop() {
                assert(find_parent_edge(e1, m, 1) is None);
                assert(find_parent_edge(e1, m, 0) is None);
            }
            assert(merge_step(nodes, e1, m) == e1);
        }
    }
}

/// Every position listed among the roots of the first `n` nodes lies below
/// `n` and satisfies the root predicate.
pub proof fn lemma_roots_upto_are_roots(nodes: Seq<Event>, edges: Seq<Edge>, n: int)
    ensures
        forall|k: int|
            0 <= k < roots_upto(nodes, edges, n).len() ==> {
                let i = #[trigger] roots_upto(nodes, edges, n)[k];
                0 <= i < n && is_root(nodes, edges, i)
            },
    decreases n,
{
    if n > 0 {
        lemma_roots_upto_are_roots(nodes, edges, n - 1);
        let prev = roots_upto(nodes, edges, n - 1);
        let cur = roots_upto(nodes, edges, n);
        assert forall|k: int| 0 <= k < cur.len() implies {
            let i = #[trigger] cur[k];
            0 <= i < n && is_root(nodes, edges, i)
        } by {
            if k < prev.len() {
                assert(cur[k] == prev[k]);
            }
        }
    }
}

/// A listed root is never a no-op node and never has an incoming hierarchy
/// edge — whatever the edge list, so in particular both before and after
/// the no-op merge pass.
pub proof fn lemma_roots_exclude_noops(nodes: Seq<Event>, edges: Seq<Edge>)
    ensures
        forall|k: int|
            0 <= k < spec_roots(nodes, edges).len() ==> {
                let i = #[trigger] spec_roots(nodes, edges)[k];
                &&& 0 <= i < nodes.len()
                &&& !nodes[i].is_noop()
                &&& !has_parent_edge(edges, i)
            },
{
    lemma_roots_upto_are_roots(nodes, edges, nodes.len() as int);
}

/// In a well-formed graph, every listed child position lies inside the
/// arena.
pub proof fn lemma_children_in_range(nodes: Seq<Event>, edges: Seq<Edge>, i: int, n: int)
    requires
        edges_wf(nodes, edges),
        n <= edges.len(),
    ensures
        forall|k: int|
            0 <= k < children_upto(edges, i, n).len() ==> 0 <= #[trigger] children_upto(
                edges,
                i,
                n,
            )[k] < nodes.len(),
    decreases n,
{
    if n > 0 {
        lemma_children_in_range(nodes, edges, i, n - 1);
        let prev = children_upto(edges, i, n - 1);
        let cur = children_upto(edges, i, n);
        assert forall|k: int| 0 <= k < cur.len() implies 0 <= #[trigger] cur[k] < nodes.len() by {
            if k < prev.len() {
                assert(cur[k] == prev[k]);
            } else {
                assert(cur[k] == edges[n - 1].target as int);
            }
        }
    }
}

/// Each node has at most one incoming hierarchy edge: no two hierarchy
/// edges share a target.
pub open spec fn at_most_one_parent(edges: Seq<Edge>) -> bool {
    forall|e1: int, e2: int|
        0 <= e1 < e2 < edges.len() && (#[trigger] edges[e1]).ty == EdgeType::Parent
            && (#[trigger] edges[e2]).ty == EdgeType::Parent ==> edges[e1].target
            != edges[e2].target
}

/// Every hierarchy edge inferred from the first `n` events targets a node
/// below `n`, has hierarchy type, and no two of them share a target.
proof fn lemma_hierarchy_edges_targets(nodes: Seq<Event>, n: int)
    requires
        0 <= n <= nodes.len(),
        nodes.len() <= usize::MAX,
    ensures
        forall|k: int|
            0 <= k < hierarchy_edges_upto(nodes, n).len() ==> (#[trigger] hierarchy_edges_upto(
                nodes,
                n,
            )[k]).ty == EdgeType::Parent && hierarchy_edges_upto(nodes, n)[k].target < n,
        forall|k1: int, k2: int|
            0 <= k1 < k2 < hierarchy_edges_upto(nodes, n).len() ==> (#[trigger] hierarchy_edges_upto(
                nodes,
                n,
            )[k1]).target != (#[trigger] hierarchy_edges_upto(nodes, n)[k2]).target,
    decreases n,
{
    if n > 0 {
        lemma_hierarchy_edges_targets(nodes, n - 1);
        let prev = hierarchy_edges_upto(nodes, n - 1);
        let cur = hierarchy_edges_upto(nodes, n);
        assert forall|k: int| 0 <= k < cur.len() implies (#[trigger] cur[k]).ty == EdgeType::Parent
            && cur[k].target < n by {
            if k < prev.len() {
                assert(cur[k] == prev[k]);
            }
        }
        assert forall|k1: int, k2: int| 0 <= k1 < k2 < cur.len() implies (#[trigger] cur[k1]).target
            != (#[trigger] cur[k2]).target by {
            if k2 < prev.len() {
                assert(cur[k1] == prev[k1]);
                assert(cur[k2] == prev[k2]);
            } else {
                assert(cur[k1] == prev[k1]);
                assert(cur[k2].target == n - 1);
                assert(prev[k1].target < n - 1);
            }
        }
    }
}

/// The derived edges of a freshly built graph give each node at most one
/// incoming hierarchy edge: the inference adds at most one parent per
/// event, and reference edges never carry hierarchy type.
pub proof fn lemma_built_graph_is_forest(nodes: Seq<Event>)
    requires
        nodes.len() <= usize::MAX,
    ensures
        at_most_one_parent(build_edges(nodes)),
{
    let hier = hierarchy_edges(nodes);
    let refs = ref_edges(nodes);
    let all = build_edges(nodes);
    lemma_hierarchy_edges_targets(nodes, nodes.len() as int);
    lemma_ref_edges_all_ref(nodes, nodes.len() as int);
    assert forall|e1: int, e2: int|
        0 <= e1 < e2 < all.len() && (#[trigger] all[e1]).ty == EdgeType::Parent
            && (#[trigger] all[e2]).ty == EdgeType::Parent implies all[e1].target
        != all[e2].target by {
        if e2 < hier.len() {
            assert(all[e1] == hier[e1]);
            assert(all[e2] == hier[e2]);
        } else {
            assert(all[e2] == refs[e2 - hier.len()]);
        }
    }
}

/// One merge step never gives a node a second incoming hierarchy edge:
/// redirection changes only edge sources, and deletion only removes.
proof fn lemma_merge_step_keeps_forest(nodes: Seq<Event>, edges: Seq<Edge>, n: int)
    requires
        at_most_one_parent(edges),
    ensures
        at_most_one_parent(merge_step(nodes, edges, n)),
{
    if 0 <= n < nodes.len() && nodes[n].is_noop() {
        match find_parent_edge(edges, n, 0) {
            None => {},
            Some(pe) => {
                lemma_find_parent_edge_in_range(edges, n, 0);
                let red = redirect_sources(edges, n, edges[pe].source);
                assert(forall|k: int|
                    0 <= k < red.len() ==> (#[trigger] red[k]).ty == edges[k].ty && red[k].target
                        == edges[k].target);
                let rem = red.remove(pe);
                assert forall|e1: int, e2: int|
                    0 <= e1 < e2 < rem.len() && (#[trigger] rem[e1]).ty == EdgeType::Parent && (
                    #[trigger] rem[e2]).ty == EdgeType::Parent implies rem[e1].target
                    != rem[e2].target by {
                    let o1 = if e1 < pe {
                        e1
                    } else {
                        e1 + 1
                    };
                    let o2 = if e2 < pe {
                        e2
                    } else {
                        e2 + 1
                    };
                    assert(rem[e1] == red[o1]);
                    assert(rem[e2] == red[o2]);
                }
            },
        }
    }
}

/// The merge pass keeps the hierarchy a forest: each node keeps at most
/// one incoming hierarchy edge throughout.
pub proof fn lemma_merge_keeps_forest(nodes: Seq<Event>, edges: Seq<Edge>, n: int)
    requires
        at_most_one_parent(edges),
    ensures
        at_most_one_parent(merge_upto(nodes, edges, n)),
    decreases n,
{
    if n > 0 {
        lemma_merge_keeps_forest(nodes, edges, n - 1);
        lemma_merge_step_keeps_forest(nodes, merge_upto(nodes, edges, n - 1), n - 1);
    }
}

/// The listed roots come in strictly ascending node position.
pub proof fn lemma_roots_ascending(nodes: Seq<Event>, edges: Seq<Edge>, n: int)
    ensures
        forall|k1: int, k2: int|
            0 <= k1 < k2 < roots_upto(nodes, edges, n).len() ==> #[trigger] roots_upto(
                nodes,
                edges,
                n,
            )[k1] < #[trigger] roots_upto(nodes, edges, n)[k2],
    decreases n,
{
    if n > 0 {
        lemma_roots_ascending(nodes, edges, n - 1);
        lemma_roots_upto_are_roots(nodes, edges, n - 1);
        let prev = roots_upto(nodes, edges, n - 1);
        let cur = roots_upto(nodes, edges, n);
        assert forall|k1: int, k2: int| 0 <= k1 < k2 < cur.len() implies #[trigger] cur[k1]
            < #[trigger] cur[k2] by {
            if k2 < prev.len() {
                assert(cur[k1] == prev[k1]);
                assert(cur[k2] == prev[k2]);
            } else {
                assert(cur[k1] == prev[k1]);
                assert(cur[k2] == n - 1);
                assert(prev[k1] < n - 1);
            }
        }
    }
}

/// A leaf has no children: no edge originates at it, so no hierarchy
/// target is listed for it.
pub proof fn lemma_leaf_has_no_children(edges: Seq<Edge>, i: int, n: int)
    requires
        spec_is_leaf(edges, i),
        n <= edges.len(),
    ensures
        children_upto(edges, i, n) == Seq::<int>::empty(),
    decreases n,
{
    if n > 0 {
        lemma_leaf_has_no_children(edges, i, n - 1);
        assert(edges[n - 1].source != i);
        assert(children_upto(edges, i, n) =~= Seq::<int>::empty());
    }
}

} // verus!

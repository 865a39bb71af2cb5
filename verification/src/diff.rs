//! The diff engine: a paired pre-order traversal of two graphs that
//! reports every divergent node pair — pairs whose outcomes differ, and
//! leaf pairs whose resolved source texts differ.

use vstd::prelude::*;

use crate::graph::Graph;
use crate::graph::NodeId;
use crate::graph::lemma_children_in_range;
use crate::graph::lemma_leaf_has_no_children;
use crate::graph::lemma_roots_upto_are_roots;
use crate::graph::spec_children;
use crate::graph::spec_is_leaf;
use crate::graph::spec_roots;
use crate::sourcemap::SmEntryModel;
use crate::sourcemap::SourceMap;
use crate::sourcemap::spec_text_in_span;
use crate::text::str_eq;
use crate::trace::Event;

verus! {

/// One side of a comparison: a graph's nodes and edges, together with the
/// model of the source map that resolves its spans.
pub ghost struct GraphSide {
    pub nodes: Seq<Event>,
    pub edges: Seq<crate::graph::Edge>,
    pub sm: Seq<SmEntryModel>,
}

/// The side a graph and its source resolver present to the diff engine.
pub open spec fn side_of(g: &Graph, sm: &SourceMap) -> GraphSide {
    GraphSide { nodes: g.nodes_seq(), edges: g.edges_seq(), sm: sm.model() }
}

/// The text an optional outcome field carries.
pub open spec fn opt_text(o: Option<String>) -> Option<Seq<char>> {
    match o {
        Some(s) => Some(s@),
        None => None,
    }
}

/// Two outcomes are identical in kind and value: both recorded the same
/// success text, both recorded the same failure text, or both recorded
/// nothing.
pub open spec fn outcomes_match(a: Event, b: Event) -> bool {
    opt_text(a.ok) == opt_text(b.ok) && opt_text(a.error) == opt_text(b.error)
}

/// The leaf text check: resolved texts that differ are a divergence, and
/// so is a resolution that fails on the left while succeeding on the
/// right.  The reverse failure, and failure on both sides, leave no
/// textual verdict and are tolerated.
pub open spec fn text_divergent(lm: Seq<SmEntryModel>, le: Event, rm: Seq<SmEntryModel>, re: Event) -> bool {
    match (spec_text_in_span(lm, le.source), spec_text_in_span(rm, re.source)) {
        (Ok(lt), Ok(rt)) => lt != rt,
        (Err(_), Ok(_)) => true,
        _ => false,
    }
}

/// A node pair is divergent when the outcomes differ in kind or value, or
/// — when the outcomes agree and at least one node is a leaf — when the
/// leaf text check fails.
pub open spec fn pair_divergent(left: GraphSide, right: GraphSide, l: int, r: int) -> bool {
    if !outcomes_match(left.nodes[l], right.nodes[r]) {
        true
    } else if spec_is_leaf(left.edges, l) || spec_is_leaf(right.edges, r) {
        text_divergent(left.sm, left.nodes[l], right.sm, right.nodes[r])
    } else {
        false
    }
}

/// The divergent pairs discovered from the pair `(l, r)` downward, in
/// pre-order: the pair itself first when it is divergent, then the pairs
/// found under the positionally zipped children.  The traversal explores
/// at most `fuel` levels; on the hierarchy forest of a built graph a fuel
/// of the node count reaches every level.
pub open spec fn diff_from(left: GraphSide, right: GraphSide, l: int, r: int, fuel: nat) -> Seq<
    (int, int),
>
    decreases fuel, 0int, 0int,
{
    if fuel == 0 {
        Seq::empty()
    } else {
        (if pair_divergent(left, right, l, r) {
            seq![(l, r)]
        } else {
            Seq::empty()
        }) + diff_zip(
            left,
            right,
            spec_children(left.edges, l),
            spec_children(right.edges, r),
            0,
            (fuel - 1) as nat,
        )
    }
}

/// The divergent pairs discovered under the positionally zipped node
/// lists, from index `i` on.  Only the common prefix is compared: extra
/// entries on the longer side are not visited.
pub open spec fn diff_zip(
    left: GraphSide,
    right: GraphSide,
    lc: Seq<int>,
    rc: Seq<int>,
    i: int,
    fuel: nat,
) -> Seq<(int, int)>
    decreases fuel, (if lc.len() <= rc.len() {
        lc.len()
    } else {
        rc.len()
    }) - i, 1int,
{
    if i < lc.len() && i < rc.len() {
        diff_from(left, right, lc[i], rc[i], fuel) + diff_zip(left, right, lc, rc, i + 1, fuel)
    } else {
        Seq::empty()
    }
}

/// The full diff of two sides: the roots are paired positionally and each
/// pair is traversed, with enough fuel to reach every level of the left
/// graph's hierarchy forest.
pub open spec fn spec_diff(left: GraphSide, right: GraphSide) -> Seq<(int, int)> {
    diff_zip(
        left,
        right,
        spec_roots(left.nodes, left.edges),
        spec_roots(right.nodes, right.edges),
        0,
        left.nodes.len() as nat,
    )
}

/// The node positions a list of handle pairs names.
pub open spec fn pairs_view(v: Seq<(NodeId, NodeId)>) -> Seq<(int, int)> {
    v.map_values(|p: (NodeId, NodeId)| (p.0.spec_index(), p.1.spec_index()))
}

/// The pairs the traversal visits from `(l, r)` downward, in pre-order:
/// the pair itself, then the pairs under the positionally zipped children,
/// within `fuel` levels.
pub open spec fn compared_pairs_from(
    left: GraphSide,
    right: GraphSide,
    l: int,
    r: int,
    fuel: nat,
) -> Seq<(int, int)>
    decreases fuel, 0int, 0int,
{
    if fuel == 0 {
        Seq::empty()
    } else {
        seq![(l, r)] + compared_pairs_zip(
            left,
            right,
            spec_children(left.edges, l),
            spec_children(right.edges, r),
            0,
            (fuel - 1) as nat,
        )
    }
}

/// The pairs the traversal visits under the positionally zipped node
/// lists, from index `i` on.
pub open spec fn compared_pairs_zip(
    left: GraphSide,
    right: GraphSide,
    lc: Seq<int>,
    rc: Seq<int>,
    i: int,
    fuel: nat,
) -> Seq<(int, int)>
    decreases fuel, (if lc.len() <= rc.len() {
        lc.len()
    } else {
        rc.len()
    }) - i, 1int,
{
    if i < lc.len() && i < rc.len() {
        compared_pairs_from(left, right, lc[i], rc[i], fuel) + compared_pairs_zip(
            left,
            right,
            lc,
            rc,
            i + 1,
            fuel,
        )
    } else {
        Seq::empty()
    }
}

/// All pairs the diff compares: the positionally zipped roots and their
/// zipped descendants, in pre-order discovery order.
pub open spec fn spec_compared(left: GraphSide, right: GraphSide) -> Seq<(int, int)> {
    compared_pairs_zip(
        left,
        right,
        spec_roots(left.nodes, left.edges),
        spec_roots(right.nodes, right.edges),
        0,
        left.nodes.len() as nat,
    )
}

/// The divergence test, as a predicate on a visited pair.
pub open spec fn divergence_pred(left: GraphSide, right: GraphSide) -> spec_fn((int, int)) -> bool {
    |p: (int, int)| pair_divergent(left, right, p.0, p.1)
}

/// Compares two optional outcome texts by value.
fn opt_string_eq(a: &Option<String>, b: &Option<String>) -> (r: bool)
    ensures
        r == (opt_text(*a) == opt_text(*b)),
{
    match (a, b) {
        (None, None) => true,
        (Some(x), Some(y)) => str_eq(x.as_str(), y.as_str()),
        _ => false,
    }
}

/// Diffs two graphs: pairs their roots positionally and traverses each
/// pair, returning the divergent node pairs in pre-order discovery order.
/// Extra roots on the longer side are not examined.
pub fn diff(left: &Graph, left_sm: &SourceMap, right: &Graph, right_sm: &SourceMap) -> (r: Vec<
    (NodeId, NodeId),
>)
    requires
        left.wf(),
        right.wf(),
    ensures
        pairs_view(r@) == spec_diff(side_of(left, left_sm), side_of(right, right_sm)),
{
    let ghost ls = side_of(left, left_sm);
    let ghost rs = side_of(right, right_sm);
    let lroots = left.get_roots();
    let rroots = right.get_roots();
    let ghost lr = spec_roots(ls.nodes, ls.edges);
    let ghost rr = spec_roots(rs.nodes, rs.edges);
    proof {
        lemma_roots_upto_are_roots(ls.nodes, ls.edges, ls.nodes.len() as int);
        lemma_roots_upto_are_roots(rs.nodes, rs.edges, rs.nodes.len() as int);
    }
    let fuel = left.num_nodes();
    let mut diffs: Vec<(NodeId, NodeId)> = Vec::new();
    let n = if lroots.len() <= rroots.len() {
        lroots.len()
    } else {
        rroots.len()
    };
    let mut i: usize = 0;
    while i < n
        invariant
            i <= n,
            left.wf(),
            right.wf(),
            ls == side_of(left, left_sm),
            rs == side_of(right, right_sm),
            fuel == ls.nodes.len(),
            lroots@.map_values(|id: NodeId| id.spec_index()) == lr,
            rroots@.map_values(|id: NodeId| id.spec_index()) == rr,
            lr == spec_roots(ls.nodes, ls.edges),
            rr == spec_roots(rs.nodes, rs.edges),
            forall|k: int| 0 <= k < lr.len() ==> 0 <= #[trigger] lr[k] < ls.nodes.len(),
            forall|k: int| 0 <= k < rr.len() ==> 0 <= #[trigger] rr[k] < rs.nodes.len(),
            n == if lr.len() <= rr.len() {
                lr.len()
            } else {
                rr.len()
            },
            pairs_view(diffs@) + diff_zip(ls, rs, lr, rr, i as int, fuel as nat) == diff_zip(
                ls,
                rs,
                lr,
                rr,
                0,
                fuel as nat,
            ),
        decreases n - i,
    {
        let ghost before = pairs_view(diffs@);
        proof {
            assert(lroots@[i as int].spec_index() == lr[i as int]);
            assert(rroots@[i as int].spec_index() == rr[i as int]);
        }
        inner_diff(left, left_sm, lroots[i], right, right_sm, rroots[i], &mut diffs, fuel);
        proof {
            assert(diff_zip(ls, rs, lr, rr, i as int, fuel as nat) == diff_from(
                ls,
                rs,
                lr[i as int],
                rr[i as int],
                fuel as nat,
            ) + diff_zip(ls, rs, lr, rr, i + 1 as int, fuel as nat));
            assert(pairs_view(diffs@) + diff_zip(ls, rs, lr, rr, i + 1 as int, fuel as nat)
                =~= diff_zip(ls, rs, lr, rr, 0, fuel as nat));
        }
        i = i + 1;
    }
    proof {
        assert(diff_zip(ls, rs, lr, rr, n as int, fuel as nat) == Seq::<(int, int)>::empty());
        assert(pairs_view(diffs@) =~= diff_zip(ls, rs, lr, rr, 0, fuel as nat));
    }
    diffs
}

/// Traverses the pair `(l, r)` and its zipped descendants, appending every
/// divergent pair in pre-order.  A divergence at a pair never prunes the
/// traversal: the children are compared regardless.  The traversal
/// descends at most `fuel` levels.
pub fn inner_diff(
    left: &Graph,
    left_sm: &SourceMap,
    l: NodeId,
    right: &Graph,
    right_sm: &SourceMap,
    r: NodeId,
    diff: &mut Vec<(NodeId, NodeId)>,
    fuel: usize,
)
    requires
        left.wf(),
        right.wf(),
        0 <= l.spec_index() < left.nodes_seq().len(),
        0 <= r.spec_index() < right.nodes_seq().len(),
    ensures
        pairs_view(final(diff)@) == pairs_view(old(diff)@) + diff_from(
            side_of(left, left_sm),
            side_of(right, right_sm),
            l.spec_index(),
            r.spec_index(),
            fuel as nat,
        ),
    decreases fuel,
{
    let ghost ls = side_of(left, left_sm);
    let ghost rs = side_of(right, right_sm);
    let ghost base = pairs_view(diff@);
    if fuel == 0 {
        proof {
            assert(pairs_view(diff@) =~= base + Seq::<(int, int)>::empty());
        }
        return ;
    }
    let ln = left.get_node(l);
    let rn = right.get_node(r);
    // A pair diverges when the outcomes differ; when they agree and a
    // side is a leaf, the resolved source texts decide.
    let divergent = if !(opt_string_eq(&ln.ok, &rn.ok) && opt_string_eq(&ln.error, &rn.error)) {
        true
    } else if left.is_leaf(l) || right.is_leaf(r) {
        let lt = left_sm.text_in_span(ln.source);
        let rt = right_sm.text_in_span(rn.source);
        match (lt, rt) {
            (Ok(a), Ok(b)) => !str_eq(a.as_str(), b.as_str()),
            (Err(_), Ok(_)) => true,
            _ => false,
        }
    } else {
        false
    };
    proof {
        assert(divergent == pair_divergent(ls, rs, l.spec_index(), r.spec_index()));
    }
    if divergent {
        diff.push((l, r));
        proof {
            assert(pairs_view(diff@) =~= base + seq![(l.spec_index(), r.spec_index())]);
        }
    }
    let ghost head = pairs_view(diff@);

    // Check all zipped children for differences, divergence above
    // notwithstanding.
    let lchild = left.get_adj(l);
    let rchild = right.get_adj(r);
    let ghost lc = spec_children(ls.edges, l.spec_index());
    let ghost rc = spec_children(rs.edges, r.spec_index());
    proof {
        lemma_children_in_range(ls.nodes, ls.edges, l.spec_index(), ls.edges.len() as int);
        lemma_children_in_range(rs.nodes, rs.edges, r.spec_index(), rs.edges.len() as int);
    }
    let n = if lchild.len() <= rchild.len() {
        lchild.len()
    } else {
        rchild.len()
    };
    let ghost subfuel = (fuel - 1) as nat;
    let mut i: usize = 0;
    while i < n
        invariant
            i <= n,
            left.wf(),
            right.wf(),
            ls == side_of(left, left_sm),
            rs == side_of(right, right_sm),
            fuel >= 1,
            subfuel == (fuel - 1) as nat,
            lchild@.map_values(|id: NodeId| id.spec_index()) == lc,
            rchild@.map_values(|id: NodeId| id.spec_index()) == rc,
            lc == spec_children(ls.edges, l.spec_index()),
            rc == spec_children(rs.edges, r.spec_index()),
            forall|k: int| 0 <= k < lc.len() ==> 0 <= #[trigger] lc[k] < ls.nodes.len(),
            forall|k: int| 0 <= k < rc.len() ==> 0 <= #[trigger] rc[k] < rs.nodes.len(),
            n == if lc.len() <= rc.len() {
                lc.len()
            } else {
                rc.len()
            },
            pairs_view(diff@) + diff_zip(ls, rs, lc, rc, i as int, subfuel) == head + diff_zip(
                ls,
                rs,
                lc,
                rc,
                0,
                subfuel,
            ),
        decreases n - i,
    {
        proof {
            assert(lchild@[i as int].spec_index() == lc[i as int]);
            assert(rchild@[i as int].spec_index() == rc[i as int]);
        }
        inner_diff(left, left_sm, lchild[i], right, right_sm, rchild[i], diff, fuel - 1);
        proof {
            assert(diff_zip(ls, rs, lc, rc, i as int, subfuel) == diff_from(
                ls,
                rs,
                lc[i as int],
                rc[i as int],
                subfuel,
            ) + diff_zip(ls, rs, lc, rc, i + 1 as int, subfuel));
            assert(pairs_view(diff@) + diff_zip(ls, rs, lc, rc, i + 1 as int, subfuel) =~= head
                + diff_zip(ls, rs, lc, rc, 0, subfuel));
        }
        i = i + 1;
    }
    proof {
        assert(diff_zip(ls, rs, lc, rc, n as int, subfuel) == Seq::<(int, int)>::empty());
        assert(pairs_view(diff@) =~= head + diff_zip(ls, rs, lc, rc, 0, subfuel));
        assert(pairs_view(diff@) =~= base + diff_from(
            ls,
            rs,
            l.spec_index(),
            r.spec_index(),
            fuel as nat,
        ));
    }
}

/// A pair of one node with itself, compared under one and the same side,
/// never diverges: the outcomes agree trivially, and the leaf text check
/// resolves the same text — or fails the same way — on both sides.
proof fn lemma_pair_self_not_divergent(left: GraphSide, right: GraphSide, l: int)
    requires
        left.nodes == right.nodes,
        left.edges == right.edges,
        left.sm == right.sm,
    ensures
        !pair_divergent(left, right, l, l),
{
    assert(outcomes_match(left.nodes[l], right.nodes[l]));
    match spec_text_in_span(left.sm, left.nodes[l].source) {
        Ok(_) => {},
        Err(_) => {},
    }
}

/// Traversal of equal sides from a pair of one node with itself finds no
/// divergence at any depth.
proof fn lemma_diff_from_self(left: GraphSide, right: GraphSide, l: int, fuel: nat)
    requires
        left.nodes == right.nodes,
        left.edges == right.edges,
        left.sm == right.sm,
    ensures
        diff_from(left, right, l, l, fuel) == Seq::<(int, int)>::empty(),
    decreases fuel, 0int, 0int,
{
    if fuel > 0 {
        lemma_pair_self_not_divergent(left, right, l);
        let c = spec_children(left.edges, l);
        lemma_diff_zip_self(left, right, c, 0, (fuel - 1) as nat);
        assert(diff_from(left, right, l, l, fuel) =~= Seq::<(int, int)>::empty());
    }
}

/// Zipping one node list with itself over equal sides finds no divergence.
proof fn lemma_diff_zip_self(left: GraphSide, right: GraphSide, c: Seq<int>, i: int, fuel: nat)
    requires
        left.nodes == right.nodes,
        left.edges == right.edges,
        left.sm == right.sm,
    ensures
        diff_zip(left, right, c, c, i, fuel) == Seq::<(int, int)>::empty(),
    decreases fuel, c.len() - i, 1int,
{
    if i < c.len() {
        lemma_diff_from_self(left, right, c[i], fuel);
        lemma_diff_zip_self(left, right, c, i + 1, fuel);
        assert(diff_zip(left, right, c, c, i, fuel) =~= Seq::<(int, int)>::empty());
    }
}

/// Diffing two graphs built from identical event sequences — so with
/// equal nodes and equal derived edges — against one and the same source
/// content yields an empty divergence list.
pub proof fn lemma_diff_identical_empty(left: GraphSide, right: GraphSide)
    requires
        left.nodes == right.nodes,
        left.edges == right.edges,
        left.sm == right.sm,
    ensures
        spec_diff(left, right) == Seq::<(int, int)>::empty(),
{
    let roots = spec_roots(left.nodes, left.edges);
    lemma_diff_zip_self(left, right, roots, 0, left.nodes.len() as nat);
}

/// When each side has exactly one root, both roots are leaves with
/// matching outcomes, and the two spans resolve to different literal
/// texts, the diff reports exactly one divergence pair: that leaf pair.
pub proof fn lemma_leaf_text_divergence(left: GraphSide, right: GraphSide, l: int, r: int)
    requires
        spec_roots(left.nodes, left.edges) == seq![l],
        spec_roots(right.nodes, right.edges) == seq![r],
        outcomes_match(left.nodes[l], right.nodes[r]),
        spec_is_leaf(left.edges, l),
        spec_is_leaf(right.edges, r),
        spec_text_in_span(left.sm, left.nodes[l].source) is Ok,
        spec_text_in_span(right.sm, right.nodes[r].source) is Ok,
        spec_text_in_span(left.sm, left.nodes[l].source) != spec_text_in_span(
            right.sm,
            right.nodes[r].source,
        ),
        left.nodes.len() >= 1,
    ensures
        spec_diff(left, right) == seq![(l, r)],
{
    let fuel = left.nodes.len() as nat;
    let lr = spec_roots(left.nodes, left.edges);
    let rr = spec_roots(right.nodes, right.edges);
    assert(pair_divergent(left, right, l, r));
    let lc = spec_children(left.edges, l);
    let rc = spec_children(right.edges, r);
    lemma_leaf_has_no_children(left.edges, l, left.edges.len() as int);
    lemma_leaf_has_no_children(right.edges, r, right.edges.len() as int);
    assert(lc.len() == 0);
    assert(diff_zip(left, right, lc, rc, 0, (fuel - 1) as nat) == Seq::<(int, int)>::empty());
    assert(diff_from(left, right, l, r, fuel) =~= seq![(l, r)]);
    assert(diff_zip(left, right, lr, rr, 1, fuel) == Seq::<(int, int)>::empty());
    assert(spec_diff(left, right) =~= seq![(l, r)]);
}

/// A sequence in which the predicate holds of no element filters to the
/// empty sequence.
proof fn lemma_filter_none<A>(s: Seq<A>, pred: spec_fn(A) -> bool)
    requires
        forall|j: int| #![trigger s[j]] 0 <= j < s.len() ==> !pred(s[j]),
    ensures
        s.filter(pred) == Seq::<A>::empty(),
    decreases s.len(),
{
    reveal(Seq::filter);
    if s.len() > 0 {
        lemma_filter_none(s.drop_last(), pred);
        assert(!pred(s.last()));
    }
    assert(s.filter(pred) =~= Seq::<A>::empty());
}

/// A sequence in which the predicate holds exactly at position `k`
/// filters to the one element standing there.
proof fn lemma_filter_single<A>(s: Seq<A>, pred: spec_fn(A) -> bool, k: int)
    requires
        0 <= k < s.len(),
        forall|j: int| #![trigger s[j]] 0 <= j < s.len() ==> (pred(s[j]) <==> j == k),
    ensures
        s.filter(pred) == seq![s[k]],
    decreases s.len(),
{
    reveal(Seq::filter);
    if k == s.len() - 1 {
        lemma_filter_none(s.drop_last(), pred);
        assert(pred(s.last()));
        assert(s.filter(pred) =~= seq![s[k]]);
    } else {
        lemma_filter_single(s.drop_last(), pred, k);
        assert(!pred(s.last()));
        assert(s.filter(pred) =~= seq![s[k]]);
    }
}

/// What the traversal reports from a pair is the divergent part of what
/// it visits, in visiting order.
proof fn lemma_diff_from_is_filter(left: GraphSide, right: GraphSide, l: int, r: int, fuel: nat)
    ensures
        diff_from(left, right, l, r, fuel) == compared_pairs_from(left, right, l, r, fuel).filter(
            divergence_pred(left, right),
        ),
    decreases fuel, 0int, 0int,
{
    let pred = divergence_pred(left, right);
    reveal(Seq::filter);
    if fuel == 0 {
        assert(Seq::<(int, int)>::empty().filter(pred) =~= Seq::<(int, int)>::empty());
    } else {
        let lc = spec_children(left.edges, l);
        let rc = spec_children(right.edges, r);
        lemma_diff_zip_is_filter(left, right, lc, rc, 0, (fuel - 1) as nat);
        let head = seq![(l, r)];
        assert(head.drop_last() =~= Seq::<(int, int)>::empty());
        assert(Seq::<(int, int)>::empty().filter(pred) =~= Seq::<(int, int)>::empty());
        assert(head.last() == (l, r));
        assert(head.filter(pred) =~= if pair_divergent(left, right, l, r) {
            seq![(l, r)]
        } else {
            Seq::<(int, int)>::empty()
        });
        Seq::filter_distributes_over_add(
            head,
            compared_pairs_zip(left, right, lc, rc, 0, (fuel - 1) as nat),
            pred,
        );
        assert(diff_from(left, right, l, r, fuel) =~= compared_pairs_from(
            left,
            right,
            l,
            r,
            fuel,
        ).filter(pred));
    }
}

/// What the traversal reports under zipped node lists is the divergent
/// part of what it visits there.
proof fn lemma_diff_zip_is_filter(
    left: GraphSide,
    right: GraphSide,
    lc: Seq<int>,
    rc: Seq<int>,
    i: int,
    fuel: nat,
)
    ensures
        diff_zip(left, right, lc, rc, i, fuel) == compared_pairs_zip(
            left,
            right,
            lc,
            rc,
            i,
            fuel,
        ).filter(divergence_pred(left, right)),
    decreases fuel, (if lc.len() <= rc.len() {
        lc.len()
    } else {
        rc.len()
    }) - i, 1int,
{
    let pred = divergence_pred(left, right);
    if i < lc.len() && i < rc.len() {
        lemma_diff_from_is_filter(left, right, lc[i], rc[i], fuel);
        lemma_diff_zip_is_filter(left, right, lc, rc, i + 1, fuel);
        Seq::filter_distributes_over_add(
            compared_pairs_from(left, right, lc[i], rc[i], fuel),
            compared_pairs_zip(left, right, lc, rc, i + 1, fuel),
            pred,
        );
    } else {
        reveal(Seq::filter);
        assert(Seq::<(int, int)>::empty().filter(pred) =~= Seq::<(int, int)>::empty());
    }
}

/// The diff is exactly the divergent part of the compared pairs: every
/// reported pair was visited and found divergent, every visited divergent
/// pair is reported, and the pre-order of visiting is kept.
pub proof fn lemma_diff_reports_divergent_pairs(left: GraphSide, right: GraphSide)
    ensures
        spec_diff(left, right) == spec_compared(left, right).filter(divergence_pred(left, right)),
{
    lemma_diff_zip_is_filter(
        left,
        right,
        spec_roots(left.nodes, left.edges),
        spec_roots(right.nodes, right.edges),
        0,
        left.nodes.len() as nat,
    );
}

/// When exactly one compared pair diverges — say one paired leaf whose
/// spans resolve to different literal text, every other compared pair
/// agreeing in outcome and text — the diff reports exactly that pair,
/// wherever in the trees it stands.
pub proof fn lemma_diff_single_divergence(left: GraphSide, right: GraphSide, k: int)
    requires
        0 <= k < spec_compared(left, right).len(),
        forall|j: int|
            #![trigger spec_compared(left, right)[j]]
            0 <= j < spec_compared(left, right).len() ==> (pair_divergent(
                left,
                right,
                spec_compared(left, right)[j].0,
                spec_compared(left, right)[j].1,
            ) <==> j == k),
    ensures
        spec_diff(left, right) == seq![spec_compared(left, right)[k]],
{
    lemma_diff_reports_divergent_pairs(left, right);
    let s = spec_compared(left, right);
    let pred = divergence_pred(left, right);
    assert(forall|j: int| #![trigger s[j]] 0 <= j < s.len() ==> (pred(s[j]) <==> j == k));
    lemma_filter_single(s, pred, k);
}

/// A pair whose outcomes differ in kind or value is recorded as divergent
/// — it heads the reported list — and the traversal still recurses into
/// the zipped children; deeper divergences follow it.
pub proof fn lemma_outcome_mismatch_recurses(
    left: GraphSide,
    right: GraphSide,
    l: int,
    r: int,
    fuel: nat,
)
    requires
        !outcomes_match(left.nodes[l], right.nodes[r]),
        fuel >= 1,
    ensures
        diff_from(left, right, l, r, fuel) == seq![(l, r)] + diff_zip(
            left,
            right,
            spec_children(left.edges, l),
            spec_children(right.edges, r),
            0,
            (fuel - 1) as nat,
        ),
        diff_from(left, right, l, r, fuel)[0] == (l, r),
{
    assert(pair_divergent(left, right, l, r));
}

} // verus!

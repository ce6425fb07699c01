use std::collections::HashSet;
use vstd::prelude::*;
use crate::types::{NodeId, EdgeType};
use crate::graph::{Graph, GraphView};
use crate::collections::set_elements;

verus! {

broadcast use {vstd::std_specs::hash::group_hash_axioms, vstd::seq_lib::group_seq_properties};

/// The part of the graph around a start node that a traversal kept: its
/// nodes, and every edge of the graph between two of them.
pub struct Subgraph {
    pub nodes: HashSet<NodeId>,
    pub edges: Vec<(NodeId, NodeId, EdgeType)>,
}

/// Deepest layer a traversal visits.
pub open spec fn max_depth() -> nat {
    4
}

/// Most nodes a traversal keeps.
pub open spec fn node_limit() -> nat {
    150
}

/// The targets of the outgoing edges of `v`.
pub open spec fn successors(g: GraphView, v: NodeId) -> Set<NodeId> {
    Set::new(|m: NodeId| exists|k: EdgeType| #[trigger] g.has_edge(v, m, k))
}

/// The nodes one step away from a node of `s` that is not a hub.
pub open spec fn expansion(g: GraphView, s: Set<NodeId>) -> Set<NodeId> {
    Set::new(|m: NodeId| exists|v: NodeId| #[trigger] s.contains(v) && !g.is_supernode(v) && successors(g, v).contains(m))
}

/// The nodes within `d` steps of `start`, where only nodes that are not
/// hubs are stepped out of.
pub open spec fn reach(g: GraphView, start: NodeId, d: nat) -> Set<NodeId>
    decreases d,
{
    if d == 0 {
        Set::empty().insert(start)
    } else {
        reach(g, start, (d - 1) as nat).union(expansion(g, reach(g, start, (d - 1) as nat)))
    }
}

/// The nodes within fewer than `d` steps of `start` (none for `d == 0`).
pub open spec fn reach_before(g: GraphView, start: NodeId, d: nat) -> Set<NodeId> {
    if d == 0 { Set::empty() } else { reach(g, start, (d - 1) as nat) }
}

/// A traversal steps only out of nodes with at most 300 outgoing and at
/// most 300 incoming edges: every node one step out of a set is a successor
/// of such a member.
pub proof fn lemma_hubs_not_expanded(g: GraphView, s: Set<NodeId>, m: NodeId)
    requires
        expansion(g, s).contains(m),
    ensures
        exists|v: NodeId| #[trigger] s.contains(v) && g.out_degree_of(v) <= 300 && g.in_degree_of(v) <= 300
            && (exists|k: EdgeType| #[trigger] g.has_edge(v, m, k)),
{
    let v = choose|v: NodeId| #[trigger] s.contains(v) && !g.is_supernode(v) && successors(g, v).contains(m);
    assert(s.contains(v));
}

/// Every node a traversal keeps apart from the start is a successor of a
/// kept node that is not a hub (at most 300 edges out and at most 300 in),
/// within four steps of the start.
pub proof fn lemma_reach_through_non_hubs(g: GraphView, start: NodeId, d: nat, m: NodeId)
    requires
        reach(g, start, d).contains(m),
        m != start,
    ensures
        exists|v: NodeId| #[trigger] reach(g, start, d).contains(v) && g.out_degree_of(v) <= 300 && g.in_degree_of(v) <= 300
            && (exists|k: EdgeType| #[trigger] g.has_edge(v, m, k)),
    decreases d,
{
    if d > 0 {
        let prev = reach(g, start, (d - 1) as nat);
        lemma_reach_monotone(g, start, (d - 1) as nat, d);
        if prev.contains(m) {
            lemma_reach_through_non_hubs(g, start, (d - 1) as nat, m);
            let v = choose|v: NodeId| #[trigger] prev.contains(v) && g.out_degree_of(v) <= 300 && g.in_degree_of(v) <= 300
                && (exists|k: EdgeType| #[trigger] g.has_edge(v, m, k));
            assert(reach(g, start, d).contains(v));
        } else {
            lemma_hubs_not_expanded(g, prev, m);
            let v = choose|v: NodeId| #[trigger] prev.contains(v) && g.out_degree_of(v) <= 300 && g.in_degree_of(v) <= 300
                && (exists|k: EdgeType| #[trigger] g.has_edge(v, m, k));
            assert(reach(g, start, d).contains(v));
        }
    }
}

/// The layers grow with the depth.
pub proof fn lemma_reach_monotone(g: GraphView, start: NodeId, d1: nat, d2: nat)
    requires
        d1 <= d2,
    ensures
        reach(g, start, d1).subset_of(reach(g, start, d2)),
    decreases d2,
{
    if d1 < d2 {
        lemma_reach_monotone(g, start, d1, (d2 - 1) as nat);
    }
}

/// What a traversal from `start` keeps: nodes within `max_depth()` steps,
/// at most `node_limit()` of them, all of them unless that limit is hit,
/// and never a node at some distance while a nearer one is left out.
pub open spec fn bounded_nodes(g: GraphView, start: NodeId, nodes: Set<NodeId>) -> bool {
    &&& nodes.finite()
    &&& nodes.subset_of(reach(g, start, max_depth()))
    &&& nodes.contains(start)
    &&& nodes.len() <= node_limit()
    &&& nodes != reach(g, start, max_depth()) ==> nodes.len() == node_limit()
    &&& forall|v: NodeId, d: nat| d <= max_depth() && nodes.contains(v) && !(#[trigger] reach(g, start, d).contains(v))
            ==> reach(g, start, d).subset_of(nodes)
}

/// The edges of the graph between two nodes of `nodes`, each once.
pub open spec fn induced_edges(g: GraphView, nodes: Set<NodeId>, edges: Seq<(NodeId, NodeId, EdgeType)>) -> bool {
    &&& edges.no_duplicates()
    &&& forall|a: NodeId, b: NodeId, k: EdgeType| #[trigger] edges.contains((a, b, k))
            <==> (nodes.contains(a) && nodes.contains(b) && g.has_edge(a, b, k))
}

/// Breadth-first traversal from `start`, nearest layers first, over at most
/// four steps and 150 nodes; hubs are kept but not stepped out of. Returns
/// the nodes kept and the edges among them.
pub fn extract_bounded_subgraph(graph: &Graph, start: NodeId) -> (sub: Subgraph)
    requires
        graph.wf(),
    ensures
        bounded_nodes(graph@, start, sub.nodes@),
        induced_edges(graph@, sub.nodes@, sub.edges@),
{
    let ghost g = graph@;
    let mut visited: HashSet<NodeId> = HashSet::new();
    let mut frontier: Vec<NodeId> = Vec::new();
    frontier.push(start);
    let mut depth: u8 = 0;
    let mut full = false;
    proof {
        assert(reach(g, start, 0) =~= Set::empty().insert(start));
        assert(frontier@.to_set() =~= Set::empty().insert(start)) by {
            assert(frontier@[0] == start);
        }
    }
    while depth <= 4 && !full
        invariant
            graph.wf(),
            g == graph@,
            depth <= 5,
            full ==> depth <= 4,
            visited@.finite(),
            visited@.len() <= node_limit(),
            !full ==> visited@ == reach_before(g, start, depth as nat),
            !full && depth <= 4 ==> frontier@.to_set().subset_of(reach(g, start, depth as nat)),
            !full && depth <= 4 ==> reach(g, start, depth as nat).difference(reach_before(g, start, depth as nat))
                .subset_of(frontier@.to_set()),
            full ==> visited@.subset_of(reach(g, start, depth as nat)),
            full ==> reach_before(g, start, depth as nat).subset_of(visited@),
            full ==> visited@.len() == node_limit(),
            full || depth > 0 ==> visited@.contains(start),
            depth == 0 ==> frontier@ == seq![start],
        decreases 6 - depth, (if full { 0int } else { 1int }),
    {
        let ghost d = depth as nat;
        let mut next: Vec<NodeId> = Vec::new();
        let mut i: usize = 0;
        while i < frontier.len() && !full
            invariant
                graph.wf(),
                g == graph@,
                d == depth as nat,
                depth <= 4,
                i <= frontier.len(),
                visited@.finite(),
                visited@.len() <= node_limit(),
                reach_before(g, start, d).subset_of(visited@),
                visited@.subset_of(reach(g, start, d)),
                frontier@.to_set().subset_of(reach(g, start, d)),
                reach(g, start, d).difference(reach_before(g, start, d)).subset_of(frontier@.to_set()),
                forall|j: int| 0 <= j < i ==> visited@.contains(#[trigger] frontier@[j]),
                next@.to_set().subset_of(reach(g, start, d + 1)),
                forall|v: NodeId, m: NodeId| visited@.contains(v) && !reach_before(g, start, d).contains(v)
                    && !g.is_supernode(v) && #[trigger] successors(g, v).contains(m)
                    ==> visited@.contains(m) || next@.contains(m),
                full ==> visited@.len() == node_limit(),
                d > 0 || i > 0 || full ==> visited@.contains(start),
                i == 0 && !full ==> visited@ == reach_before(g, start, d),
                d == 0 ==> frontier@ == seq![start],
            decreases frontier.len() - i, (if full { 0int } else { 1int }),
        {
            if visited.len() >= 150 {
                proof {
                    if d == 0 && i == 0 {
                        assert(visited@ =~= Set::empty());
                    }
                }
                full = true;
            } else {
                let node = frontier[i];
                assert(frontier@.to_set().contains(node));
                let fresh = visited.insert(node);
                if fresh && !graph.is_supernode(node) {
                    match graph.out_edges(node) {
                        Some(neighbors) => {
                            let mut j: usize = 0;
                            while j < neighbors.len()
                                invariant
                                    graph.wf(),
                                    g == graph@,
                                    j <= neighbors.len(),
                                    reach(g, start, d).contains(node),
                                    !g.is_supernode(node),
                                    forall|t: NodeId, k: EdgeType| neighbors@.contains((t, k)) <==> g.has_edge(node, t, k),
                                    next@.to_set().subset_of(reach(g, start, d + 1)),
                                    forall|q: int| 0 <= q < j ==> visited@.contains(#[trigger] neighbors@[q].0)
                                        || next@.contains(neighbors@[q].0),
                                    forall|x: NodeId| next@.contains(x) ==> #[trigger] next@.contains(x),
                                    forall|v: NodeId, m: NodeId| visited@.contains(v) && v != node && !reach_before(g, start, d).contains(v)
                                        && !g.is_supernode(v) && #[trigger] successors(g, v).contains(m)
                                        ==> visited@.contains(m) || next@.contains(m),
                                decreases neighbors.len() - j,
                            {
                                let (n, kind) = neighbors[j];
                                let ghost old_next = next@;
                                if !visited.contains(&n) {
                                    proof {
                                        assert(neighbors@.contains((n, kind)));
                                        assert(g.has_edge(node, n, kind));
                                        assert(successors(g, node).contains(n));
                                        assert(expansion(g, reach(g, start, d)).contains(n));
                                        assert(reach(g, start, d + 1) == reach(g, start, d).union(expansion(g, reach(g, start, d))));
                                    }
                                    next.push(n);
                                    proof {
                                        old_next.lemma_push_to_set_commute(n);
                                        assert(next@.to_set() == old_next.to_set().insert(n));
                                    }
                                }
                                proof {
                                    assert forall|q: int| 0 <= q < j + 1 implies visited@.contains(#[trigger] neighbors@[q].0)
                                        || next@.contains(neighbors@[q].0) by {
                                        if q < j {
                                            assert(visited@.contains(neighbors@[q].0) || old_next.contains(neighbors@[q].0));
                                        } else {
                                            if !visited@.contains(n) {
                                                assert(next@[next@.len() - 1] == n);
                                            }
                                        }
                                    }
                                }
                                j += 1;
                            }
                            proof {
                                assert forall|m: NodeId| #[trigger] successors(g, node).contains(m) implies
                                    visited@.contains(m) || next@.contains(m) by {
                                    let k = choose|k: EdgeType| g.has_edge(node, m, k);
                                    assert(neighbors@.contains((m, k)));
                                    let q = choose|q: int| 0 <= q < neighbors@.len() && neighbors@[q] == (m, k);
                                    assert(visited@.contains(neighbors@[q].0) || next@.contains(neighbors@[q].0));
                                }
                            }
                        },
                        None => {
                            proof {
                                assert forall|m: NodeId| #[trigger] successors(g, node).contains(m) implies false by {
                                    let k = choose|k: EdgeType| g.has_edge(node, m, k);
                                }
                            }
                        },
                    }
                }
                proof {
                    if d == 0 {
                        assert(frontier@[0] == start);
                    }
                }
                i += 1;
            }
        }
        if !full {
            proof {
                assert(visited@ =~= reach(g, start, d)) by {
                    assert forall|x: NodeId| reach(g, start, d).contains(x) implies visited@.contains(x) by {
                        if !reach_before(g, start, d).contains(x) {
                            assert(frontier@.to_set().contains(x));
                            let j = choose|j: int| 0 <= j < frontier@.len() && frontier@[j] == x;
                        }
                    }
                }
                let d1 = d + 1;
                assert(reach(g, start, d1) == reach(g, start, d).union(expansion(g, reach(g, start, d))));
                assert forall|m: NodeId| reach(g, start, d1).difference(reach_before(g, start, d1)).contains(m)
                    implies next@.to_set().contains(m) by {
                    assert(expansion(g, reach(g, start, d)).contains(m));
                    let v = choose|v: NodeId| reach(g, start, d).contains(v) && !g.is_supernode(v) && successors(g, v).contains(m);
                    if d > 0 && reach_before(g, start, d).contains(v) {
                        let dp = (d - 1) as nat;
                        assert(reach(g, start, d) == reach(g, start, dp).union(expansion(g, reach(g, start, dp))));
                        assert(expansion(g, reach(g, start, dp)).contains(m));
                    }
                    assert(visited@.contains(m) || next@.contains(m));
                }
            }
            frontier = next;
            depth = depth + 1;
        } else {
            proof {
                lemma_reach_monotone(g, start, 0, d);
            }
        }
    }
    proof {
        if !full {
            assert(depth == 5);
        }
    }
    let nodes = set_elements(&visited);
    let mut edges: Vec<(NodeId, NodeId, EdgeType)> = Vec::new();
    let mut i: usize = 0;
    while i < nodes.len()
        invariant
            graph.wf(),
            g == graph@,
            i <= nodes.len(),
            nodes@.no_duplicates(),
            nodes@.to_set() == visited@,
            edges@.no_duplicates(),
            forall|a: NodeId, b: NodeId, k: EdgeType| #[trigger] edges@.contains((a, b, k))
                <==> (nodes@.subrange(0, i as int).contains(a) && visited@.contains(b) && g.has_edge(a, b, k)),
        decreases nodes.len() - i,
    {
        let node = nodes[i];
        match graph.out_edges(node) {
            Some(neighbors) => {
                let ghost before = edges@;
                proof {
                    assert forall|a: NodeId, b: NodeId, k: EdgeType| #[trigger] before.contains((a, b, k)) implies a != node by {
                        if before.contains((a, b, k)) && a == node {
                            let q = choose|q: int| 0 <= q < i && nodes@.subrange(0, i as int)[q] == a;
                            assert(nodes@[q] == nodes@[i as int]);
                        }
                    }
                }
                let mut j: usize = 0;
                while j < neighbors.len()
                    invariant
                        j <= neighbors.len(),
                        neighbors@.no_duplicates(),
                        forall|t: NodeId, k: EdgeType| neighbors@.contains((t, k)) <==> g.has_edge(node, t, k),
                        edges@.no_duplicates(),
                        edges@.subrange(0, before.len() as int) == before,
                        edges@.len() >= before.len(),
                        forall|a: NodeId, b: NodeId, k: EdgeType| #[trigger] before.contains((a, b, k)) ==> a != node,
                        forall|a: NodeId, b: NodeId, k: EdgeType| #[trigger] edges@.contains((a, b, k))
                            <==> (before.contains((a, b, k)) || (a == node && visited@.contains(b)
                                && neighbors@.subrange(0, j as int).contains((b, k)))),
                    decreases neighbors.len() - j,
                {
                    let (n, kind) = neighbors[j];
                    if visited.contains(&n) {
                        proof {
                            assert(!edges@.contains((node, n, kind))) by {
                                if edges@.contains((node, n, kind)) {
                                    assert(!before.contains((node, n, kind)));
                                    let q = choose|q: int| 0 <= q < j && neighbors@.subrange(0, j as int)[q] == (n, kind);
                                    assert(neighbors@[q] == neighbors@[j as int]);
                                }
                            }
                        }
                        let ghost old_edges = edges@;
                        edges.push((node, n, kind));
                        proof {
                            assert forall|x: int, y: int| 0 <= x < y < edges@.len() implies edges@[x] != edges@[y] by {
                                if y == edges@.len() - 1 {
                                    assert(old_edges.contains(old_edges[x]));
                                }
                            }
                            assert(edges@.subrange(0, before.len() as int) =~= before);
                        }
                    }
                    proof {
                        assert(neighbors@.subrange(0, j + 1) =~= neighbors@.subrange(0, j as int).push((n, kind)));
                    }
                    j += 1;
                }
                proof {
                    assert(neighbors@.subrange(0, j as int) =~= neighbors@);
                }
            },
            None => {},
        }
        proof {
            assert(nodes@.subrange(0, i + 1) =~= nodes@.subrange(0, i as int).push(node));
        }
        i += 1;
    }
    proof {
        assert(nodes@.subrange(0, i as int) =~= nodes@);
        if full {
            lemma_reach_monotone(g, start, depth as nat, max_depth());
        }
        assert forall|v: NodeId, dd: nat| dd <= max_depth() && visited@.contains(v) && !(#[trigger] reach(g, start, dd).contains(v))
            implies reach(g, start, dd).subset_of(visited@) by {
            if !full {
                lemma_reach_monotone(g, start, dd, max_depth());
            } else {
                if dd >= depth {
                    lemma_reach_monotone(g, start, depth as nat, dd);
                } else {
                    lemma_reach_monotone(g, start, dd, (depth - 1) as nat);
                }
            }
        }
    }
    Subgraph { nodes: visited, edges }
}

} // verus!

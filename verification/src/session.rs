use std::collections::HashSet;
use rand::seq::SliceRandom;
use vstd::prelude::*;
use crate::types::{NodeId, EdgeType, edge_code, GraphPayload, NodePayload, EdgePayload};
use crate::graph::{Graph, GraphView};
use crate::interner::{Interner, interned, intern_id, resolved, interner_capacity};
use crate::traversal::{Subgraph, extract_bounded_subgraph, bounded_nodes, induced_edges};
use crate::collections::{set_elements, sort_desc_by_key, sorted_desc, lemma_ranked_by_key};
use crate::types::code_bound;
use crate::github::{intern_all, register_all, register_files, path_id, lemma_intern_all};

verus! {

broadcast use {vstd::std_specs::hash::group_hash_axioms, vstd::seq_lib::group_seq_properties};

/// Incoming plus outgoing degree.
pub open spec fn total_degree(g: GraphView, n: NodeId) -> int {
    g.in_degree_of(n) + g.out_degree_of(n)
}

/// `s` with `x` appended unless it already holds it.
pub open spec fn push_new(s: Seq<NodeId>, x: NodeId) -> Seq<NodeId> {
    if s.contains(x) { s } else { s.push(x) }
}

/// `ranked` lists the nodes of `nodes` once each, largest total degree first.
pub open spec fn ranked_by_total_degree(g: GraphView, nodes: Set<NodeId>, ranked: Seq<NodeId>) -> bool {
    &&& ranked.no_duplicates()
    &&& ranked.to_set() == nodes
    &&& forall|a: int, b: int| 0 <= a < b < ranked.len() ==> total_degree(g, #[trigger] ranked[a]) >= total_degree(g, #[trigger] ranked[b])
}

/// `x` is a node of the graph whose incoming degree no other node exceeds.
pub open spec fn max_in_node(g: GraphView, x: NodeId) -> bool {
    g.out_edges.contains_key(x) && forall|n: NodeId| #[trigger] g.out_edges.contains_key(n) ==> g.in_degree_of(n) <= g.in_degree_of(x)
}

/// `x` is a node of the graph whose outgoing degree no other node exceeds.
pub open spec fn max_out_node(g: GraphView, x: NodeId) -> bool {
    g.out_edges.contains_key(x) && forall|n: NodeId| #[trigger] g.out_edges.contains_key(n) ==> g.out_degree_of(n) <= g.out_degree_of(x)
}

/// `tops` holds the first `count` nodes (or all) of some ranking by total degree.
pub open spec fn top_by_total_degree(g: GraphView, count: nat, tops: Seq<NodeId>) -> bool {
    exists|ranked: Seq<NodeId>| #![auto] ranked_by_total_degree(g, g.out_edges.dom(), ranked)
        && tops == ranked.take(if count <= ranked.len() { count as int } else { ranked.len() as int })
}

/// The starts a selection yields for a given node of largest incoming
/// degree `a`, of largest outgoing degree `b`, top list `tops`, and random
/// pick from it.
pub open spec fn start_choice(g: GraphView, top_count: nat, a: NodeId, b: NodeId, tops: Seq<NodeId>, pick: Option<NodeId>, starts: Seq<NodeId>) -> bool {
    &&& max_in_node(g, a)
    &&& max_out_node(g, b)
    &&& top_by_total_degree(g, top_count, tops)
    &&& (pick is None <==> tops.len() == 0)
    &&& (pick matches Some(p) ==> tops.contains(p))
    &&& starts == match pick {
        Some(p) => push_new(push_new(seq![a], b), p),
        None => push_new(seq![a], b),
    }
}

/// `slice::choose` with the thread's random generator: a uniformly random
/// element, `None` for an empty list. Which element comes back is chance.
#[verifier::external_body]
fn choose_random(items: &Vec<NodeId>) -> (pick: Option<NodeId>)
    ensures
        pick is None <==> items@.len() == 0,
        pick matches Some(x) ==> items@.contains(x),
{
    let mut rng = rand::thread_rng();
    items.as_slice().choose(&mut rng).copied()
}

/// Up to three traversal starts: a node of largest incoming degree, a node
/// of largest outgoing degree, and a random node among the `top_count` of
/// largest total degree, each only if not already chosen.
pub fn select_start_nodes(graph: &Graph, top_count: usize) -> (starts: Vec<NodeId>)
    requires
        graph.wf(),
    ensures
        graph@.out_edges.dom().is_empty() ==> starts@.len() == 0,
        !graph@.out_edges.dom().is_empty() ==> exists|a: NodeId, b: NodeId, tops: Seq<NodeId>, pick: Option<NodeId>|
            #[trigger] start_choice(graph@, top_count as nat, a, b, tops, pick, starts@),
{
    let nodes = graph.nodes();
    if nodes.len() == 0 {
        proof {
            assert(graph@.out_edges.dom() =~= nodes@.to_set());
        }
        return Vec::new();
    }
    let mut best_in = nodes[0];
    let mut best_out = nodes[0];
    let mut i: usize = 1;
    while i < nodes.len()
        invariant
            graph.wf(),
            1 <= i <= nodes@.len(),
            nodes@.contains(best_in),
            nodes@.contains(best_out),
            forall|j: int| 0 <= j < i ==> graph@.in_degree_of(#[trigger] nodes@[j]) <= graph@.in_degree_of(best_in),
            forall|j: int| 0 <= j < i ==> graph@.out_degree_of(#[trigger] nodes@[j]) <= graph@.out_degree_of(best_out),
        decreases nodes.len() - i,
    {
        let n = nodes[i];
        if graph.in_degree(n) >= graph.in_degree(best_in) {
            best_in = n;
        }
        if graph.out_degree(n) >= graph.out_degree(best_out) {
            best_out = n;
        }
        i += 1;
    }
    let mut starts: Vec<NodeId> = Vec::new();
    starts.push(best_in);
    if best_out != best_in {
        starts.push(best_out);
    }
    let ghost after_two = starts@;
    proof {
        assert(after_two == push_new(seq![best_in], best_out));
        assert forall|n: NodeId| #[trigger] graph@.out_edges.contains_key(n) implies
            graph@.in_degree_of(n) <= graph@.in_degree_of(best_in) && graph@.out_degree_of(n) <= graph@.out_degree_of(best_out) by {
            assert(nodes@.to_set().contains(n));
            let j = choose|j: int| 0 <= j < nodes@.len() && nodes@[j] == n;
        }
        assert(nodes@.to_set().contains(best_in));
        assert(nodes@.to_set().contains(best_out));
    }
    let mut keyed: Vec<(u64, u32)> = Vec::new();
    let mut i: usize = 0;
    while i < nodes.len()
        invariant
            graph.wf(),
            i <= nodes@.len(),
            keyed@.len() == i,
            forall|j: int| 0 <= j < i ==> #[trigger] keyed@[j] == ((graph@.in_degree_of(nodes@[j]) + graph@.out_degree_of(nodes@[j])) as u64, nodes@[j]),
        decreases nodes.len() - i,
    {
        let n = nodes[i];
        let d_in = graph.in_degree(n);
        let d_out = graph.out_degree(n);
        proof {
            crate::graph::lemma_degrees_bounded(graph@, n);
        }
        keyed.push((d_in + d_out, n));
        i += 1;
    }
    let sorted = sort_desc_by_key(&keyed);
    let count = if top_count < sorted.len() { top_count } else { sorted.len() };
    let mut tops: Vec<NodeId> = Vec::new();
    let mut i: usize = 0;
    while i < count
        invariant
            i <= count <= sorted@.len(),
            tops@.len() == i,
            forall|j: int| 0 <= j < i ==> #[trigger] tops@[j] == sorted@[j].1,
        decreases count - i,
    {
        tops.push(sorted[i].1);
        i += 1;
    }
    let ghost ranked = sorted@.map_values(|p: (u64, u32)| p.1);
    proof {
        assert forall|j: int| 0 <= j < nodes@.len() implies
            graph@.in_degree_of(#[trigger] nodes@[j]) + graph@.out_degree_of(nodes@[j]) <= u64::MAX by {
            crate::graph::lemma_degrees_bounded(graph@, nodes@[j]);
        }
        lemma_ranked_over(graph@, graph@.out_edges.dom(), nodes@, keyed@, sorted@);
        assert(tops@ =~= ranked.take(count as int));
        assert(top_by_total_degree(graph@, top_count as nat, tops@));
    }
    let pick = choose_random(&tops);
    match pick {
        Some(p) => {
            let mut present = false;
            let mut j: usize = 0;
            while j < starts.len()
                invariant
                    j <= starts@.len(),
                    present == starts@.subrange(0, j as int).contains(p),
                decreases starts.len() - j,
            {
                if starts[j] == p {
                    present = true;
                }
                assert(starts@.subrange(0, j + 1) =~= starts@.subrange(0, j as int).push(starts@[j as int]));
                j += 1;
            }
            assert(starts@.subrange(0, j as int) =~= starts@);
            if !present {
                starts.push(p);
            }
        },
        None => {},
    }
    proof {
        assert(start_choice(graph@, top_count as nat, best_in, best_out, tops@, pick, starts@));
    }
    starts
}

/// Position of an edge in the order of `(source, target, kind)` tuples,
/// kinds in declaration order.
pub open spec fn edge_rank(e: (NodeId, NodeId, EdgeType)) -> int {
    e.0 as int * code_bound() as int + edge_code(e.1, e.2) as int
}

/// Edges in strictly increasing tuple order (so each once).
pub open spec fn strictly_sorted(edges: Seq<(NodeId, NodeId, EdgeType)>) -> bool {
    forall|a: int, b: int| 0 <= a < b < edges.len() ==> edge_rank(#[trigger] edges[a]) < edge_rank(#[trigger] edges[b])
}

/// Tuples of different edges have different positions.
proof fn lemma_edge_rank_injective(x: (NodeId, NodeId, EdgeType), y: (NodeId, NodeId, EdgeType))
    ensures
        edge_rank(x) == edge_rank(y) <==> x == y,
{
    crate::types::lemma_edge_code(x.1, x.2);
    crate::types::lemma_edge_code(y.1, y.2);
    crate::types::lemma_edge_code_injective(x.1, x.2, y.1, y.2);
    if x.0 != y.0 {
        assert(edge_rank(x) != edge_rank(y)) by (nonlinear_arith)
            requires
                x.0 != y.0,
                edge_rank(x) == x.0 as int * code_bound() as int + edge_code(x.1, x.2) as int,
                edge_rank(y) == y.0 as int * code_bound() as int + edge_code(y.1, y.2) as int,
                0 <= edge_code(x.1, x.2) < code_bound(),
                0 <= edge_code(y.1, y.2) < code_bound(),
        {
            if x.0 < y.0 {
                assert(x.0 as int * code_bound() as int + code_bound() as int <= y.0 as int * code_bound() as int);
            } else {
                assert(y.0 as int * code_bound() as int + code_bound() as int <= x.0 as int * code_bound() as int);
            }
        }
    }
}

fn edge_rank_exec(e: (NodeId, NodeId, EdgeType)) -> (r: u128)
    ensures
        r == edge_rank(e),
{
    let code = crate::types::encode_edge(e.1, e.2);
    (e.0 as u128) * 0x4_0000_0000u128 + (code as u128)
}

/// Inserts an edge into a strictly sorted list unless it is there.
fn insert_sorted(v: &mut Vec<(NodeId, NodeId, EdgeType)>, e: (NodeId, NodeId, EdgeType))
    requires
        strictly_sorted(old(v)@),
    ensures
        strictly_sorted(final(v)@),
        final(v)@.to_set() == old(v)@.to_set().insert(e),
{
    let r = edge_rank_exec(e);
    let mut p: usize = 0;
    let mut scanning = true;
    while scanning && p < v.len()
        invariant
            p <= v@.len(),
            r == edge_rank(e),
            forall|a: int| 0 <= a < p ==> edge_rank(#[trigger] v@[a]) < edge_rank(e),
            !scanning ==> p < v@.len() && edge_rank(v@[p as int]) >= edge_rank(e),
        decreases v.len() - p, (if scanning { 1int } else { 0int }),
    {
        if edge_rank_exec(v[p]) < r {
            p += 1;
        } else {
            scanning = false;
        }
    }
    if p < v.len() && edge_rank_exec(v[p]) == r {
        proof {
            lemma_edge_rank_injective(v@[p as int], e);
            assert(v@.to_set().insert(e) =~= v@.to_set());
        }
        return;
    }
    let ghost old_v = v@;
    proof {
        assert forall|a: int| p <= a < old_v.len() implies edge_rank(#[trigger] old_v[a]) > edge_rank(e) by {
            assert(edge_rank(old_v[p as int]) >= edge_rank(e));
            if a > p {
                assert(edge_rank(old_v[p as int]) < edge_rank(old_v[a]));
            }
        }
    }
    v.insert(p, e);
    proof {
        assert forall|a: int, b: int| 0 <= a < b < v@.len() implies edge_rank(#[trigger] v@[a]) < edge_rank(#[trigger] v@[b]) by {
            if a == p {
                assert(v@[b] == old_v[b - 1]);
            } else if b == p {
                assert(v@[a] == old_v[a]);
            } else {
                let a0 = if a < p { a } else { a - 1 };
                let b0 = if b < p { b } else { b - 1 };
                assert(v@[a] == old_v[a0] && v@[b] == old_v[b0]);
            }
        }
        assert forall|y: (NodeId, NodeId, EdgeType)| v@.to_set().contains(y) <==> old_v.to_set().insert(e).contains(y) by {
            if v@.to_set().contains(y) {
                let q = choose|q: int| 0 <= q < v@.len() && v@[q] == y;
                if q < p {
                    assert(old_v[q] == y);
                } else if q > p {
                    assert(old_v[q - 1] == y);
                }
            }
            if old_v.to_set().contains(y) {
                let q = choose|q: int| 0 <= q < old_v.len() && old_v[q] == y;
                if q < p {
                    assert(v@[q] == y);
                } else {
                    assert(v@[q + 1] == y);
                }
            }
            if y == e {
                assert(v@[p as int] == e);
            }
        }
        assert(v@.to_set() =~= old_v.to_set().insert(e));
    }
}

/// The union of a sequence of node sets.
pub open spec fn union_all(parts: Seq<Set<NodeId>>) -> Set<NodeId>
    decreases parts.len(),
{
    if parts.len() == 0 {
        Set::empty()
    } else {
        union_all(parts.drop_last()).union(parts.last())
    }
}

/// Some part holds both endpoints of the edge, and the graph holds the edge.
pub open spec fn edge_in_some_part(g: GraphView, parts: Seq<Set<NodeId>>, e: (NodeId, NodeId, EdgeType)) -> bool {
    g.has_edge(e.0, e.1, e.2) && exists|i: int| 0 <= i < parts.len() && (#[trigger] parts[i]).contains(e.0) && parts[i].contains(e.1)
}

/// The merged result of one traversal per start.
pub open spec fn merged_traversals(g: GraphView, starts: Seq<NodeId>, parts: Seq<Set<NodeId>>, sub_nodes: Set<NodeId>, sub_edges: Seq<(NodeId, NodeId, EdgeType)>) -> bool {
    &&& parts.len() == starts.len()
    &&& forall|i: int| 0 <= i < parts.len() ==> bounded_nodes(g, #[trigger] starts[i], parts[i])
    &&& sub_nodes == union_all(parts)
    &&& strictly_sorted(sub_edges)
    &&& forall|e: (NodeId, NodeId, EdgeType)| #[trigger] sub_edges.contains(e) <==> edge_in_some_part(g, parts, e)
}

/// Runs one bounded traversal per start and merges them: the union of their
/// nodes, and their edges sorted with repeats dropped.
pub fn gather_context(graph: &Graph, starts: &Vec<NodeId>) -> (merged: Subgraph)
    requires
        graph.wf(),
    ensures
        exists|parts: Seq<Set<NodeId>>| #[trigger] merged_traversals(graph@, starts@, parts, merged.nodes@, merged.edges@),
{
    let mut nodes: HashSet<NodeId> = HashSet::new();
    let mut edges: Vec<(NodeId, NodeId, EdgeType)> = Vec::new();
    let ghost mut parts: Seq<Set<NodeId>> = Seq::empty();
    let mut i: usize = 0;
    while i < starts.len()
        invariant
            graph.wf(),
            i <= starts@.len(),
            parts.len() == i,
            forall|j: int| 0 <= j < i ==> bounded_nodes(graph@, #[trigger] starts@[j], parts[j]),
            nodes@ == union_all(parts),
            strictly_sorted(edges@),
            forall|e: (NodeId, NodeId, EdgeType)| #[trigger] edges@.contains(e) <==> edge_in_some_part(graph@, parts, e),
        decreases starts.len() - i,
    {
        let sub = extract_bounded_subgraph(graph, starts[i]);
        let members = set_elements(&sub.nodes);
        let ghost before_nodes = nodes@;
        let mut j: usize = 0;
        while j < members.len()
            invariant
                j <= members@.len(),
                nodes@ == before_nodes.union(members@.take(j as int).to_set()),
            decreases members.len() - j,
        {
            proof {
                assert(members@.take(j + 1) == members@.take(j as int).push(members@[j as int]));
                members@.take(j as int).lemma_push_to_set_commute(members@[j as int]);
            }
            nodes.insert(members[j]);
            assert(nodes@ =~= before_nodes.union(members@.take(j + 1).to_set()));
            j += 1;
        }
        assert(members@.take(members@.len() as int) == members@);
        let ghost before_edges = edges@;
        let mut j: usize = 0;
        while j < sub.edges.len()
            invariant
                j <= sub.edges@.len(),
                strictly_sorted(edges@),
                edges@.to_set() == before_edges.to_set().union(sub.edges@.take(j as int).to_set()),
            decreases sub.edges.len() - j,
        {
            proof {
                assert(sub.edges@.take(j + 1) == sub.edges@.take(j as int).push(sub.edges@[j as int]));
                sub.edges@.take(j as int).lemma_push_to_set_commute(sub.edges@[j as int]);
            }
            insert_sorted(&mut edges, sub.edges[j]);
            assert(edges@.to_set() =~= before_edges.to_set().union(sub.edges@.take(j + 1).to_set()));
            j += 1;
        }
        assert(sub.edges@.take(sub.edges@.len() as int) == sub.edges@);
        let ghost new_parts = parts.push(sub.nodes@);
        proof {
            assert(new_parts.drop_last() == parts);
            assert(nodes@ =~= union_all(new_parts));
            assert forall|e: (NodeId, NodeId, EdgeType)| #[trigger] edges@.contains(e) <==> edge_in_some_part(graph@, new_parts, e) by {
                assert(edges@.contains(e) == edges@.to_set().contains(e));
                assert(before_edges.contains(e) == before_edges.to_set().contains(e));
                assert(sub.edges@.contains(e) == sub.edges@.to_set().contains(e));
                if edge_in_some_part(graph@, parts, e) {
                    let q = choose|q: int| 0 <= q < parts.len() && (#[trigger] parts[q]).contains(e.0) && parts[q].contains(e.1);
                    assert(new_parts[q] == parts[q]);
                }
                if edge_in_some_part(graph@, new_parts, e) {
                    let q = choose|q: int| 0 <= q < new_parts.len() && (#[trigger] new_parts[q]).contains(e.0) && new_parts[q].contains(e.1);
                    if q < parts.len() {
                        assert(new_parts[q] == parts[q]);
                        assert(edge_in_some_part(graph@, parts, e));
                    } else {
                        assert(sub.edges@.contains((e.0, e.1, e.2)));
                    }
                }
                if sub.edges@.contains(e) {
                    assert(sub.edges@.contains((e.0, e.1, e.2)));
                    assert(new_parts[parts.len() as int] == sub.nodes@);
                }
            }
            parts = new_parts;
        }
        i += 1;
    }
    let merged = Subgraph { nodes, edges };
    proof {
        assert(merged_traversals(graph@, starts@, parts, merged.nodes@, merged.edges@));
    }
    merged
}

/// The names of the nodes in `ranked` order, skipping nodes without a name.
pub open spec fn names_in_order(strings: Seq<Seq<char>>, ranked: Seq<NodeId>) -> Seq<Seq<char>>
    decreases ranked.len(),
{
    if ranked.len() == 0 {
        Seq::empty()
    } else {
        let rest = names_in_order(strings, ranked.drop_last());
        match resolved(strings, ranked.last()) {
            Some(name) => rest.push(name),
            None => rest,
        }
    }
}

/// Most file names reported beside an answer.
pub open spec fn max_top_files() -> nat {
    3
}

/// The names of the first three named nodes, by total degree.
pub fn top_files(graph: &Graph, interner: &Interner, nodes: &HashSet<NodeId>) -> (names: Vec<String>)
    requires
        graph.wf(),
    ensures
        exists|ranked: Seq<NodeId>| #![auto] ranked_by_total_degree(graph@, nodes@, ranked) && {
            let all = names_in_order(interner@, ranked);
            names@.map_values(|s: String| s@) == if all.len() <= max_top_files() { all } else { all.take(max_top_files() as int) }
        },
{
    let members = set_elements(nodes);
    let mut keyed: Vec<(u64, u32)> = Vec::new();
    let mut i: usize = 0;
    while i < members.len()
        invariant
            graph.wf(),
            i <= members@.len(),
            keyed@.len() == i,
            forall|j: int| 0 <= j < i ==> #[trigger] keyed@[j] == ((graph@.in_degree_of(members@[j]) + graph@.out_degree_of(members@[j])) as u64, members@[j]),
        decreases members.len() - i,
    {
        let n = members[i];
        let d_in = graph.in_degree(n);
        let d_out = graph.out_degree(n);
        proof {
            crate::graph::lemma_degrees_bounded(graph@, n);
        }
        keyed.push((d_in + d_out, n));
        i += 1;
    }
    let sorted = sort_desc_by_key(&keyed);
    let ghost ranked = sorted@.map_values(|p: (u64, u32)| p.1);
    proof {
        assert forall|j: int| 0 <= j < members@.len() implies
            graph@.in_degree_of(#[trigger] members@[j]) + graph@.out_degree_of(members@[j]) <= u64::MAX by {
            crate::graph::lemma_degrees_bounded(graph@, members@[j]);
        }
        lemma_ranked_over(graph@, nodes@, members@, keyed@, sorted@);
    }
    let mut names: Vec<String> = Vec::new();
    let mut i: usize = 0;
    while i < sorted.len() && names.len() < 3
        invariant
            i <= sorted@.len(),
            ranked == sorted@.map_values(|p: (u64, u32)| p.1),
            names@.map_values(|s: String| s@) == names_in_order(interner@, ranked.take(i as int)),
            names@.len() <= 3,
        decreases sorted.len() - i,
    {
        proof {
            assert(ranked.take(i + 1).drop_last() == ranked.take(i as int));
            assert(ranked.take(i + 1).last() == sorted@[i as int].1);
        }
        match interner.resolve(sorted[i].1) {
            Some(name) => {
                let owned = name.to_owned();
                names.push(owned);
                assert(names@.map_values(|s: String| s@) =~= names_in_order(interner@, ranked.take(i + 1)));
            },
            None => {},
        }
        i += 1;
    }
    proof {
        lemma_names_prefix(interner@, ranked, i as int);
        if names@.len() < 3 {
            assert(ranked.take(sorted@.len() as int) == ranked);
        }
    }
    names
}

/// Names of a prefix are a prefix of the names, and once three names are
/// found, the first three names are those.
proof fn lemma_names_prefix(strings: Seq<Seq<char>>, ranked: Seq<NodeId>, i: int)
    requires
        0 <= i <= ranked.len(),
    ensures
        ({
            let pre = names_in_order(strings, ranked.take(i));
            let all = names_in_order(strings, ranked);
            &&& pre.len() <= all.len()
            &&& all.take(pre.len() as int) == pre
        }),
    decreases ranked.len() - i,
{
    if i < ranked.len() {
        lemma_names_prefix(strings, ranked, i + 1);
        assert(ranked.take(i + 1).drop_last() == ranked.take(i));
        let pre = names_in_order(strings, ranked.take(i));
        let pre1 = names_in_order(strings, ranked.take(i + 1));
        let all = names_in_order(strings, ranked);
        assert(pre1.take(pre.len() as int) == pre);
        assert(all.take(pre.len() as int) =~= all.take(pre1.len() as int).take(pre.len() as int));
    } else {
        assert(ranked.take(i) == ranked);
        assert(names_in_order(strings, ranked).take(names_in_order(strings, ranked).len() as int) == names_in_order(strings, ranked));
    }
}

/// The ranking read off pairs `(total degree, node)` of a set's members sorted by key.
proof fn lemma_ranked_over(g: GraphView, set: Set<NodeId>, nodes: Seq<NodeId>, keyed: Seq<(u64, u32)>, sorted: Seq<(u64, u32)>)
    requires
        nodes.no_duplicates(),
        nodes.to_set() == set,
        keyed.len() == nodes.len(),
        forall|j: int| 0 <= j < nodes.len() ==> #[trigger] keyed[j] == ((g.in_degree_of(nodes[j]) + g.out_degree_of(nodes[j])) as u64, nodes[j]),
        forall|j: int| 0 <= j < nodes.len() ==> g.in_degree_of(#[trigger] nodes[j]) + g.out_degree_of(nodes[j]) <= u64::MAX,
        sorted.len() == keyed.len(),
        sorted.to_set() == keyed.to_set(),
        keyed.no_duplicates() ==> sorted.no_duplicates(),
        sorted_desc(sorted),
    ensures
        ranked_by_total_degree(g, set, sorted.map_values(|p: (u64, u32)| p.1)),
{
    let key = |n: u32| total_degree(g, n);
    assert forall|j: int| 0 <= j < nodes.len() implies (#[trigger] keyed[j]).1 == nodes[j] && keyed[j].0 == key(nodes[j]) by {
        assert(g.in_degree_of(nodes[j]) + g.out_degree_of(nodes[j]) <= u64::MAX);
    }
    lemma_ranked_by_key(key, set, nodes, keyed, sorted);
}

/// The node list of a payload as `(id, label)` pairs.
pub open spec fn payload_nodes(p: &GraphPayload) -> Seq<(u32, Seq<char>)> {
    p.nodes@.map_values(|n: NodePayload| (n.id, n.label@))
}

/// The labels of a payload's nodes, in order.
pub open spec fn payload_labels(p: &GraphPayload) -> Seq<Seq<char>> {
    p.nodes@.map_values(|n: NodePayload| n.label@)
}

/// The edge list of a payload as `(source, target)` pairs.
pub open spec fn payload_edges(p: &GraphPayload) -> Seq<(u32, u32)> {
    p.edges@.map_values(|e: EdgePayload| (e.source, e.target))
}

/// The label of the first node with identifier `id`.
pub open spec fn label_of(nodes: Seq<(u32, Seq<char>)>, id: u32) -> Option<Seq<char>>
    decreases nodes.len(),
{
    if nodes.len() == 0 {
        None
    } else if nodes[0].0 == id {
        Some(nodes[0].1)
    } else {
        label_of(nodes.drop_first(), id)
    }
}

/// The graph after an import edge for each payload edge whose two ends
/// have labels, in turn.
pub open spec fn relink(g: GraphView, strings: Seq<Seq<char>>, nodes: Seq<(u32, Seq<char>)>, edges: Seq<(u32, u32)>) -> GraphView
    decreases edges.len(),
{
    if edges.len() == 0 {
        g
    } else {
        let prev = relink(g, strings, nodes, edges.drop_last());
        match (label_of(nodes, edges.last().0), label_of(nodes, edges.last().1)) {
            (Some(s), Some(d)) => prev.with_edge(path_id(strings, s), path_id(strings, d), EdgeType::Imports),
            _ => prev,
        }
    }
}

proof fn lemma_label_of(nodes: Seq<(u32, Seq<char>)>, id: u32)
    ensures
        label_of(nodes, id) matches Some(l) ==> exists|i: int| 0 <= i < nodes.len() && #[trigger] nodes[i] == (id, l),
    decreases nodes.len(),
{
    if nodes.len() > 0 && nodes[0].0 != id {
        lemma_label_of(nodes.drop_first(), id);
        if let Some(l) = label_of(nodes, id) {
            let i = choose|i: int| 0 <= i < nodes.drop_first().len() && #[trigger] nodes.drop_first()[i] == (id, l);
            assert(nodes[i + 1] == (id, l));
        }
    }
}

/// The label of the first payload node with the identifier.
fn find_label(payload: &GraphPayload, id: u32) -> (label: Option<&String>)
    ensures
        match (label, label_of(payload_nodes(payload), id)) {
            (Some(l), Some(m)) => l@ == m,
            (None, None) => true,
            _ => false,
        },
{
    let ghost ns = payload_nodes(payload);
    let mut i: usize = 0;
    while i < payload.nodes.len()
        invariant
            i <= payload.nodes@.len(),
            ns == payload_nodes(payload),
            label_of(ns, id) == label_of(ns.skip(i as int), id),
        decreases payload.nodes.len() - i,
    {
        proof {
            assert(ns.skip(i as int).drop_first() == ns.skip(i + 1));
            assert(ns.skip(i as int)[0] == ns[i as int]);
        }
        if payload.nodes[i].id == id {
            return Some(&payload.nodes[i].label);
        }
        i += 1;
    }
    None
}

/// Rebuilds the in-memory graph from a saved payload: every node label is
/// interned and added, then an import edge for each payload edge whose two
/// ends name nodes of the payload.
pub fn rebuild_from_payload(payload: &GraphPayload, interner: &mut Interner, graph: &mut Graph)
    requires
        old(interner).wf(),
        old(graph).wf(),
        old(interner)@.len() + payload.nodes@.len() <= interner_capacity(),
    ensures
        final(interner).wf(),
        final(graph).wf(),
        final(interner)@ == intern_all(old(interner)@, payload_labels(payload)),
        final(graph)@ == relink(register_all(old(graph)@, old(interner)@, payload_labels(payload)),
            final(interner)@, payload_nodes(payload), payload_edges(payload)),
{
    let ghost s0 = interner@;
    let ghost g0 = graph@;
    let ghost labels = payload_labels(payload);
    let mut i: usize = 0;
    while i < payload.nodes.len()
        invariant
            interner.wf(),
            graph.wf(),
            i <= payload.nodes@.len(),
            labels == payload_labels(payload),
            s0.len() + payload.nodes@.len() <= interner_capacity(),
            interner@ == intern_all(s0, labels.take(i as int)),
            graph@ == register_all(g0, s0, labels.take(i as int)),
        decreases payload.nodes.len() - i,
    {
        proof {
            lemma_intern_all(s0, labels.take(i as int));
            assert(labels.take(i + 1).drop_last() == labels.take(i as int));
            assert(labels.take(i + 1).last() == payload.nodes@[i as int].label@);
        }
        let id = interner.intern(payload.nodes[i].label.as_str());
        graph.add_node(id);
        i += 1;
    }
    proof {
        assert(labels.take(payload.nodes@.len() as int) == labels);
        lemma_intern_all(s0, labels);
    }
    let ghost s1 = interner@;
    let ghost g1 = graph@;
    let ghost ns = payload_nodes(payload);
    let ghost es = payload_edges(payload);
    let mut i: usize = 0;
    while i < payload.edges.len()
        invariant
            interner.wf(),
            graph.wf(),
            interner@ == s1,
            s1 == intern_all(s0, labels),
            labels == payload_labels(payload),
            ns == payload_nodes(payload),
            es == payload_edges(payload),
            forall|j: int| 0 <= j < labels.len() ==> s1.contains(#[trigger] labels[j]),
            i <= payload.edges@.len(),
            graph@ == relink(g1, s1, ns, es.take(i as int)),
        decreases payload.edges.len() - i,
    {
        let e = &payload.edges[i];
        proof {
            assert(es.take(i + 1).drop_last() == es.take(i as int));
            assert(es.take(i + 1).last() == (e.source, e.target));
        }
        let src_label = find_label(payload, e.source);
        let dst_label = find_label(payload, e.target);
        match (src_label, dst_label) {
            (Some(sl), Some(dl)) => {
                proof {
                    lemma_label_of(ns, e.source);
                    lemma_label_of(ns, e.target);
                    let a = choose|a: int| 0 <= a < ns.len() && #[trigger] ns[a] == (e.source, sl@);
                    let b = choose|b: int| 0 <= b < ns.len() && #[trigger] ns[b] == (e.target, dl@);
                    assert(labels[a] == sl@);
                    assert(labels[b] == dl@);
                }
                let src = interner.intern(sl.as_str());
                let dst = interner.intern(dl.as_str());
                graph.add_edge(src, dst, EdgeType::Imports);
            },
            _ => {},
        }
        i += 1;
    }
    proof {
        assert(es.take(payload.edges@.len() as int) == es);
    }
}

} // verus!

use std::collections::{HashMap, HashSet};
use vstd::prelude::*;
use crate::types::{NodeId, EdgeType, edge_code, code_endpoint, code_kind, code_bound, encode_edge, decode_edge, lemma_edge_code, lemma_code_roundtrip, lemma_edge_code_injective};
use crate::collections::{set_elements, map_keys};

verus! {

broadcast use {vstd::std_specs::hash::group_hash_axioms, vstd::seq_lib::group_seq_properties};

/// Abstract state of a [`Graph`]: for each node with an outgoing
/// (incoming) table, the set of half-edge codes `edge_code(other, kind)`
/// stored there, and the degree counters kept beside the tables.
pub struct GraphView {
    pub out_edges: Map<NodeId, Set<u64>>,
    pub in_edges: Map<NodeId, Set<u64>>,
    pub out_degree: Map<NodeId, u64>,
    pub in_degree: Map<NodeId, u64>,
}

/// A set of half-edge codes without those whose endpoint is `node`.
pub open spec fn drop_endpoint(codes: Set<u64>, node: NodeId) -> Set<u64> {
    codes.filter(|c: u64| code_endpoint(c) != node)
}

/// The degree a counter map records for a node, 0 where it records none.
pub open spec fn count_of(m: Map<NodeId, u64>, node: NodeId) -> u64 {
    if m.contains_key(node) { m[node] } else { 0 }
}

/// The code set a table map holds for a node, empty where it holds none.
pub open spec fn codes_of(m: Map<NodeId, Set<u64>>, node: NodeId) -> Set<u64> {
    if m.contains_key(node) { m[node] } else { Set::empty() }
}

/// Threshold above which a node counts as a hub.
pub open spec fn supernode_threshold() -> u64 {
    300
}

impl GraphView {
    /// The graph holds the edge `from -[kind]-> to` in its outgoing table.
    pub open spec fn has_edge(self, from: NodeId, to: NodeId, kind: EdgeType) -> bool {
        self.out_edges.contains_key(from) && self.out_edges[from].contains(edge_code(to, kind))
    }

    /// The incoming table of `to` records `from` with `kind`.
    pub open spec fn has_back_edge(self, to: NodeId, from: NodeId, kind: EdgeType) -> bool {
        self.in_edges.contains_key(to) && self.in_edges[to].contains(edge_code(from, kind))
    }

    pub open spec fn out_degree_of(self, node: NodeId) -> u64 {
        count_of(self.out_degree, node)
    }

    pub open spec fn in_degree_of(self, node: NodeId) -> u64 {
        count_of(self.in_degree, node)
    }

    /// A node with more than 300 outgoing or more than 300 incoming edges.
    pub open spec fn is_supernode(self, node: NodeId) -> bool {
        self.out_degree_of(node) > supernode_threshold() || self.in_degree_of(node) > supernode_threshold()
    }

    /// The graph with no nodes.
    pub open spec fn empty() -> GraphView {
        GraphView {
            out_edges: Map::empty(),
            in_edges: Map::empty(),
            out_degree: Map::empty(),
            in_degree: Map::empty(),
        }
    }

    /// Every outgoing edge is recorded in the incoming table of its target, and back.
    pub open spec fn edges_mirrored(self) -> bool {
        forall|a: NodeId, b: NodeId, k: EdgeType| #[trigger]
            self.has_edge(a, b, k) ==> self.has_back_edge(b, a, k)
    }

    /// Well-formedness: tables and counters cover the same nodes, each
    /// counter is the size of its table, codes are in range, and the two
    /// tables record the same edges.
    pub open spec fn wf(self) -> bool {
        &&& self.out_edges.dom() == self.out_degree.dom()
        &&& self.in_edges.dom() == self.in_degree.dom()
        &&& forall|n: NodeId| #[trigger] self.out_edges.contains_key(n) ==>
            self.out_edges[n].finite() && self.out_degree[n] == self.out_edges[n].len()
        &&& forall|n: NodeId| #[trigger] self.in_edges.contains_key(n) ==>
            self.in_edges[n].finite() && self.in_degree[n] == self.in_edges[n].len()
        &&& forall|n: NodeId, c: u64| self.out_edges.contains_key(n) && #[trigger] self.out_edges[n].contains(c)
            ==> c < code_bound()
        &&& forall|n: NodeId, c: u64| self.in_edges.contains_key(n) && #[trigger] self.in_edges[n].contains(c)
            ==> c < code_bound()
        &&& forall|a: NodeId, b: NodeId, k: EdgeType|
            #![trigger self.has_edge(a, b, k)]
            #![trigger self.has_back_edge(b, a, k)]
            self.has_edge(a, b, k) <==> self.has_back_edge(b, a, k)
    }

    /// The graph after `add_node(id)`: empty tables and zero counters for
    /// `id` where it had none.
    pub open spec fn with_node(self, id: NodeId) -> GraphView {
        GraphView {
            out_edges: if self.out_edges.contains_key(id) { self.out_edges } else { self.out_edges.insert(id, Set::empty()) },
            in_edges: if self.in_edges.contains_key(id) { self.in_edges } else { self.in_edges.insert(id, Set::empty()) },
            out_degree: if self.out_degree.contains_key(id) { self.out_degree } else { self.out_degree.insert(id, 0) },
            in_degree: if self.in_degree.contains_key(id) { self.in_degree } else { self.in_degree.insert(id, 0) },
        }
    }

    /// The graph after `add_edge(from, to, kind)`: unchanged if the edge is
    /// present, else the edge is recorded on both sides and both counters
    /// go up by one.
    pub open spec fn with_edge(self, from: NodeId, to: NodeId, kind: EdgeType) -> GraphView {
        if self.has_edge(from, to, kind) {
            self
        } else {
            GraphView {
                out_edges: self.out_edges.insert(from, codes_of(self.out_edges, from).insert(edge_code(to, kind))),
                in_edges: self.in_edges.insert(to, codes_of(self.in_edges, to).insert(edge_code(from, kind))),
                out_degree: self.out_degree.insert(from, (self.out_degree_of(from) + 1) as u64),
                in_degree: self.in_degree.insert(to, (self.in_degree_of(to) + 1) as u64),
            }
        }
    }

    /// The graph after `remove_node(node)`: the node's tables and counters
    /// are gone, every edge that touches it is gone from every table, and
    /// each counter is the size of what is left in its table.
    pub open spec fn without_node(self, node: NodeId) -> GraphView {
        let outs = self.out_edges.remove(node).map_values(|s: Set<u64>| drop_endpoint(s, node));
        let ins = self.in_edges.remove(node).map_values(|s: Set<u64>| drop_endpoint(s, node));
        GraphView {
            out_edges: outs,
            in_edges: ins,
            out_degree: outs.map_values(|s: Set<u64>| s.len() as u64),
            in_degree: ins.map_values(|s: Set<u64>| s.len() as u64),
        }
    }
}

/// A node is a hub exactly when more than 300 edges leave it or more than
/// 300 edges reach it.
pub proof fn lemma_hub_rule(g: GraphView, n: NodeId)
    ensures
        g.is_supernode(n) <==> (g.out_degree_of(n) > 300 || g.in_degree_of(n) > 300),
{
}

/// A finite set of codes below `code_bound()` has at most `code_bound()` elements.
pub proof fn lemma_codes_len_bound(s: Set<u64>)
    requires
        s.finite(),
        forall|c: u64| #[trigger] s.contains(c) ==> c < code_bound(),
    ensures
        s.len() <= code_bound(),
{
    broadcast use vstd::set_lib::range_set_properties;
    let full = Set::<u64>::range(0, code_bound());
    assert(full.finite());
    assert(s.subset_of(full));
    vstd::set_lib::lemma_len_subset(s, full);
}

/// Dropping the codes of one endpoint keeps a code set finite and in range.
proof fn lemma_drop_endpoint(s: Set<u64>, node: NodeId)
    requires
        s.finite(),
        forall|c: u64| #[trigger] s.contains(c) ==> c < code_bound(),
    ensures
        drop_endpoint(s, node).finite(),
        drop_endpoint(s, node).len() <= s.len(),
        drop_endpoint(s, node).len() <= code_bound(),
        forall|c: u64| #[trigger] drop_endpoint(s, node).contains(c) ==> c < code_bound(),
{
    s.lemma_len_filter(|c: u64| code_endpoint(c) != node);
    lemma_codes_len_bound(s);
}

/// Removing a node from a well-formed graph leaves a well-formed graph,
/// which holds exactly the edges of the old one that do not touch the node.
pub proof fn lemma_without_node(g: GraphView, node: NodeId)
    requires
        g.wf(),
    ensures
        g.without_node(node).wf(),
        forall|a: NodeId, b: NodeId, k: EdgeType| #[trigger] g.without_node(node).has_edge(a, b, k)
            <==> (a != node && b != node && g.has_edge(a, b, k)),
        !g.without_node(node).out_edges.contains_key(node),
        !g.without_node(node).in_edges.contains_key(node),
{
    let r = g.without_node(node);
    assert forall|n: NodeId| #[trigger] r.out_edges.contains_key(n) implies
        r.out_edges[n].finite() && r.out_degree[n] == r.out_edges[n].len() by {
        lemma_drop_endpoint(g.out_edges[n], node);
    }
    assert forall|n: NodeId| #[trigger] r.in_edges.contains_key(n) implies
        r.in_edges[n].finite() && r.in_degree[n] == r.in_edges[n].len() by {
        lemma_drop_endpoint(g.in_edges[n], node);
    }
    assert(r.out_edges.dom() =~= r.out_degree.dom());
    assert(r.in_edges.dom() =~= r.in_degree.dom());
    assert forall|a: NodeId, b: NodeId, k: EdgeType| #[trigger] r.has_edge(a, b, k)
        <==> (a != node && b != node && g.has_edge(a, b, k)) by {
        lemma_edge_code(b, k);
    }
    assert forall|a: NodeId, b: NodeId, k: EdgeType| #[trigger] r.has_back_edge(b, a, k)
        <==> (a != node && b != node && g.has_back_edge(b, a, k)) by {
        lemma_edge_code(a, k);
    }
}

/// The codes of `base` (the table of `owner`) left after unlinking `node`
/// from every neighbor whose own code for `owner` is in `done`.
spec fn unlinked(base: Set<u64>, node: NodeId, owner: NodeId, done: Set<u64>) -> Set<u64> {
    base.filter(|c: u64| !(code_endpoint(c) == node && done.contains(edge_code(owner, code_kind(c)))))
}

/// Unlinking everything the mirror table of `node` names drops all codes of `node`.
proof fn lemma_unlinked_all(base: Set<u64>, node: NodeId, owner: NodeId, done: Set<u64>)
    requires
        forall|c: u64| #[trigger] base.contains(c) ==> c < code_bound(),
        forall|k: EdgeType| base.contains(edge_code(node, k)) ==> #[trigger] done.contains(edge_code(owner, k)),
    ensures
        unlinked(base, node, owner, done) == drop_endpoint(base, node),
{
    assert forall|c: u64| base.contains(c) && code_endpoint(c) == node implies
        done.contains(edge_code(owner, code_kind(c))) by {
        lemma_code_roundtrip(c);
    }
    assert(unlinked(base, node, owner, done) =~= drop_endpoint(base, node));
}

/// Unlinking one more neighbor removes exactly the code of `node` with that kind.
proof fn lemma_unlinked_step(base: Set<u64>, node: NodeId, owner: NodeId, done: Set<u64>, kind: EdgeType)
    requires
        forall|c: u64| #[trigger] base.contains(c) ==> c < code_bound(),
    ensures
        unlinked(base, node, owner, done.insert(edge_code(owner, kind)))
            == unlinked(base, node, owner, done).remove(edge_code(node, kind)),
{
    let a = unlinked(base, node, owner, done.insert(edge_code(owner, kind)));
    let b = unlinked(base, node, owner, done).remove(edge_code(node, kind));
    assert forall|c: u64| a.contains(c) <==> b.contains(c) by {
        if base.contains(c) {
            lemma_code_roundtrip(c);
            lemma_edge_code_injective(owner, code_kind(c), owner, kind);
            lemma_edge_code_injective(code_endpoint(c), code_kind(c), node, kind);
        }
    }
    assert(a =~= b);
}

/// Unlinking through a code that names a different owner changes nothing.
proof fn lemma_unlinked_other(base: Set<u64>, node: NodeId, owner: NodeId, done: Set<u64>, other: NodeId, kind: EdgeType)
    requires
        other != owner,
    ensures
        unlinked(base, node, owner, done.insert(edge_code(other, kind)))
            == unlinked(base, node, owner, done),
{
    let a = unlinked(base, node, owner, done.insert(edge_code(other, kind)));
    let b = unlinked(base, node, owner, done);
    assert forall|c: u64| a.contains(c) <==> b.contains(c) by {
        lemma_edge_code_injective(owner, code_kind(c), other, kind);
    }
    assert(a =~= b);
}

/// The half-edges packed in a set of codes, each once.
fn decode_all(set: &HashSet<u64>) -> (v: Vec<(NodeId, EdgeType)>)
    requires
        forall|c: u64| #[trigger] set@.contains(c) ==> c < code_bound(),
    ensures
        v@.no_duplicates(),
        forall|t: NodeId, k: EdgeType| v@.contains((t, k)) <==> set@.contains(edge_code(t, k)),
{
    let codes = set_elements(set);
    let mut v: Vec<(NodeId, EdgeType)> = Vec::new();
    let mut i: usize = 0;
    while i < codes.len()
        invariant
            i <= codes.len(),
            codes@.no_duplicates(),
            codes@.to_set() == set@,
            forall|c: u64| #[trigger] set@.contains(c) ==> c < code_bound(),
            v@.len() == i,
            forall|j: int| 0 <= j < i ==> edge_code(#[trigger] v@[j].0, v@[j].1) == codes@[j],
        decreases codes.len() - i,
    {
        assert(codes@.to_set().contains(codes@[i as int]));
        let half = decode_edge(codes[i]);
        v.push(half);
        i += 1;
    }
    assert forall|a: int, b: int| 0 <= a < v@.len() && 0 <= b < v@.len() && a != b implies v@[a] != v@[b] by {
        assert(codes@[a] != codes@[b]);
        assert(edge_code(v@[a].0, v@[a].1) == codes@[a]);
        assert(edge_code(v@[b].0, v@[b].1) == codes@[b]);
    }
    assert forall|t: NodeId, k: EdgeType| v@.contains((t, k)) <==> set@.contains(edge_code(t, k)) by {
        if v@.contains((t, k)) {
            let j = choose|j: int| 0 <= j < v@.len() && v@[j] == (t, k);
            assert(edge_code(v@[j].0, v@[j].1) == codes@[j]);
            assert(codes@.to_set().contains(codes@[j]));
        }
        if set@.contains(edge_code(t, k)) {
            assert(codes@.to_set().contains(edge_code(t, k)));
            let j = choose|j: int| 0 <= j < codes@.len() && codes@[j] == edge_code(t, k);
            assert(edge_code(v@[j].0, v@[j].1) == codes@[j]);
            lemma_edge_code_injective(v@[j].0, v@[j].1, t, k);
            assert(v@[j] == (t, k));
        }
    }
    v
}

/// In a well-formed graph every outgoing edge is mirrored, so `validate`
/// never reports a broken edge.
pub proof fn lemma_wf_mirrored(g: GraphView)
    requires
        g.wf(),
    ensures
        g.edges_mirrored(),
{
}

/// Each degree counter of a well-formed graph is at most `code_bound()`,
/// so the sum of a node's two counters fits in a `u64`.
pub proof fn lemma_degrees_bounded(g: GraphView, n: NodeId)
    requires
        g.wf(),
    ensures
        g.out_degree_of(n) <= code_bound(),
        g.in_degree_of(n) <= code_bound(),
{
    if g.out_edges.contains_key(n) {
        lemma_codes_len_bound(g.out_edges[n]);
    }
    if g.in_edges.contains_key(n) {
        lemma_codes_len_bound(g.in_edges[n]);
    }
}

/// Adding an edge records it in the outgoing table of its source and the
/// incoming table of its target, and changes no other edge.
pub proof fn lemma_add_edge_recorded(g: GraphView, from: NodeId, to: NodeId, kind: EdgeType)
    requires
        g.wf(),
    ensures
        g.with_edge(from, to, kind).has_edge(from, to, kind),
        g.with_edge(from, to, kind).has_back_edge(to, from, kind),
        forall|a: NodeId, b: NodeId, k: EdgeType| !(a == from && b == to && k == kind) ==>
            (#[trigger] g.with_edge(from, to, kind).has_edge(a, b, k) <==> g.has_edge(a, b, k)),
{
    lemma_edge_code(to, kind);
    lemma_edge_code(from, kind);
    if !g.has_edge(from, to, kind) {
        assert forall|a: NodeId, b: NodeId, k: EdgeType| !(a == from && b == to && k == kind) implies
            (#[trigger] g.with_edge(from, to, kind).has_edge(a, b, k) <==> g.has_edge(a, b, k)) by {
            lemma_edge_code_injective(b, k, to, kind);
        }
    } else {
        assert(g.has_back_edge(to, from, kind));
    }
}

/// Adding an edge that is already there changes nothing, so adding the
/// same edge twice leaves it recorded once with its counters bumped once.
pub proof fn lemma_add_edge_idempotent(g: GraphView, from: NodeId, to: NodeId, kind: EdgeType)
    requires
        g.wf(),
    ensures
        g.with_edge(from, to, kind).with_edge(from, to, kind) == g.with_edge(from, to, kind),
{
    lemma_add_edge_recorded(g, from, to, kind);
}

/// Adding a node records no edge, and adding it again changes nothing.
pub proof fn lemma_add_node(g: GraphView, id: NodeId)
    requires
        g.wf(),
    ensures
        g.with_node(id).out_edges.contains_key(id),
        g.with_node(id).in_edges.contains_key(id),
        forall|a: NodeId, b: NodeId, k: EdgeType| #[trigger] g.with_node(id).has_edge(a, b, k) <==> g.has_edge(a, b, k),
        g.with_node(id).with_node(id) == g.with_node(id),
{
}

/// Adding a node to a well-formed graph leaves it well formed.
pub proof fn lemma_with_node_wf(g: GraphView, id: NodeId)
    requires
        g.wf(),
    ensures
        g.with_node(id).wf(),
{
    let r = g.with_node(id);
    assert(r.out_edges.dom() =~= r.out_degree.dom());
    assert(r.in_edges.dom() =~= r.in_degree.dom());
    assert forall|a: NodeId, b: NodeId, k: EdgeType| r.has_edge(a, b, k) <==> r.has_back_edge(b, a, k) by {
        assert(r.has_edge(a, b, k) == g.has_edge(a, b, k));
        assert(r.has_back_edge(b, a, k) == g.has_back_edge(b, a, k));
    }
    assert forall|n: NodeId| #[trigger] r.out_edges.contains_key(n) implies
        r.out_edges[n].finite() && r.out_degree[n] == r.out_edges[n].len() by {
        if n == id && !g.out_edges.contains_key(id) {
            assert(r.out_edges[n] == Set::<u64>::empty());
        }
    }
    assert forall|n: NodeId| #[trigger] r.in_edges.contains_key(n) implies
        r.in_edges[n].finite() && r.in_degree[n] == r.in_edges[n].len() by {
        if n == id && !g.in_edges.contains_key(id) {
            assert(r.in_edges[n] == Set::<u64>::empty());
        }
    }
}

/// Adding an edge to a well-formed graph leaves it well formed.
pub proof fn lemma_with_edge_wf(g: GraphView, from: NodeId, to: NodeId, kind: EdgeType)
    requires
        g.wf(),
    ensures
        g.with_edge(from, to, kind).wf(),
{
    if !g.has_edge(from, to, kind) {
        let r = g.with_edge(from, to, kind);
        lemma_edge_code(to, kind);
        lemma_edge_code(from, kind);
        assert(!g.has_back_edge(to, from, kind));
        if g.out_edges.contains_key(from) {
            lemma_codes_len_bound(g.out_edges[from]);
        }
        if g.in_edges.contains_key(to) {
            lemma_codes_len_bound(g.in_edges[to]);
        }
        assert(r.out_edges.dom() =~= r.out_degree.dom());
        assert(r.in_edges.dom() =~= r.in_degree.dom());
        assert forall|a: NodeId, b: NodeId, k: EdgeType| r.has_edge(a, b, k) <==> r.has_back_edge(b, a, k) by {
            lemma_edge_code_injective(b, k, to, kind);
            lemma_edge_code_injective(a, k, from, kind);
            assert(r.has_edge(a, b, k) == (g.has_edge(a, b, k) || (a == from && b == to && k == kind)));
            assert(r.has_back_edge(b, a, k) == (g.has_back_edge(b, a, k) || (a == from && b == to && k == kind)));
        }
        assert forall|n: NodeId| #[trigger] r.out_edges.contains_key(n) implies
            r.out_edges[n].finite() && r.out_degree[n] == r.out_edges[n].len() by {
            if n == from && !g.out_edges.contains_key(from) {
                assert(codes_of(g.out_edges, from) =~= Set::empty());
            }
        }
        assert forall|n: NodeId| #[trigger] r.in_edges.contains_key(n) implies
            r.in_edges[n].finite() && r.in_degree[n] == r.in_edges[n].len() by {
            if n == to && !g.in_edges.contains_key(to) {
                assert(codes_of(g.in_edges, to) =~= Set::empty());
            }
        }
        assert forall|n: NodeId, c: u64| r.out_edges.contains_key(n) && #[trigger] r.out_edges[n].contains(c)
            implies c < code_bound() by {
            if n == from && c != edge_code(to, kind) {
                assert(g.out_edges.contains_key(from));
            }
        }
        assert forall|n: NodeId, c: u64| r.in_edges.contains_key(n) && #[trigger] r.in_edges[n].contains(c)
            implies c < code_bound() by {
            if n == to && c != edge_code(from, kind) {
                assert(g.in_edges.contains_key(to));
            }
        }
    }
}

/// Directed graph of code entities. Each node may have a table of outgoing
/// half-edges `(target, kind)` and a table of incoming half-edges
/// `(source, kind)`, kept as sets of packed codes, and a counter of each.
pub struct Graph {
    adj_out: HashMap<NodeId, HashSet<u64>>,
    adj_in: HashMap<NodeId, HashSet<u64>>,
    out_degree: HashMap<NodeId, u64>,
    in_degree: HashMap<NodeId, u64>,
}

impl View for Graph {
    type V = GraphView;

    closed spec fn view(&self) -> GraphView {
        GraphView {
            out_edges: self.adj_out@.map_values(|s: HashSet<u64>| s@),
            in_edges: self.adj_in@.map_values(|s: HashSet<u64>| s@),
            out_degree: self.out_degree@,
            in_degree: self.in_degree@,
        }
    }
}

impl Graph {
    pub open spec fn wf(&self) -> bool {
        self@.wf()
    }

    /// An empty graph.
    pub fn new() -> (g: Self)
        ensures
            g.wf(),
            g@ == GraphView::empty(),
    {
        let g = Graph {
            adj_out: HashMap::new(),
            adj_in: HashMap::new(),
            out_degree: HashMap::new(),
            in_degree: HashMap::new(),
        };
        assert(g@.out_edges =~= Map::empty());
        assert(g@.in_edges =~= Map::empty());
        g
    }

    /// Makes sure `id` has both tables and both counters, leaving existing ones alone.
    pub fn add_node(&mut self, id: NodeId)
        requires
            old(self).wf(),
        ensures
            final(self).wf(),
            final(self)@ == old(self)@.with_node(id),
    {
        let ghost g0 = self@;
        if !self.adj_out.contains_key(&id) {
            self.adj_out.insert(id, HashSet::new());
        }
        if !self.adj_in.contains_key(&id) {
            self.adj_in.insert(id, HashSet::new());
        }
        if !self.out_degree.contains_key(&id) {
            self.out_degree.insert(id, 0);
        }
        if !self.in_degree.contains_key(&id) {
            self.in_degree.insert(id, 0);
        }
        assert(self@.out_edges =~= g0.with_node(id).out_edges);
        assert(self@.in_edges =~= g0.with_node(id).in_edges);
        assert(self@.out_degree =~= g0.with_node(id).out_degree);
        assert(self@.in_degree =~= g0.with_node(id).in_degree);
        proof {
            let g1 = self@;
            assert forall|a: NodeId, b: NodeId, k: EdgeType| g1.has_edge(a, b, k) <==> g1.has_back_edge(b, a, k) by {
                assert(g1.has_edge(a, b, k) == g0.has_edge(a, b, k));
                assert(g1.has_back_edge(b, a, k) == g0.has_back_edge(b, a, k));
            }
        }
    }
    /// Records the edge `from -[kind]-> to`. A new edge goes into the
    /// outgoing table of `from` and the incoming table of `to` and bumps both
    /// counters; an edge already present changes nothing.
    pub fn add_edge(&mut self, from: NodeId, to: NodeId, kind: EdgeType)
        requires
            old(self).wf(),
        ensures
            final(self).wf(),
            final(self)@ == old(self)@.with_edge(from, to, kind),
    {
        let ghost g0 = self@;
        let code = encode_edge(to, kind);
        let mut outs = match self.adj_out.remove(&from) {
            Some(s) => s,
            None => HashSet::new(),
        };
        assert(outs@ == codes_of(g0.out_edges, from));
        let fresh = outs.insert(code);
        let ghost outs_view = outs@;
        self.adj_out.insert(from, outs);
        if fresh {
            let back = encode_edge(from, kind);
            let mut ins = match self.adj_in.remove(&to) {
                Some(s) => s,
                None => HashSet::new(),
            };
            assert(ins@ == codes_of(g0.in_edges, to));
            ins.insert(back);
            self.adj_in.insert(to, ins);
            let od: u64 = match self.out_degree.get(&from) {
                Some(d) => *d,
                None => 0,
            };
            let id: u64 = match self.in_degree.get(&to) {
                Some(d) => *d,
                None => 0,
            };
            proof {
                if g0.out_edges.contains_key(from) {
                    lemma_codes_len_bound(g0.out_edges[from]);
                }
                if g0.in_edges.contains_key(to) {
                    lemma_codes_len_bound(g0.in_edges[to]);
                }
            }
            self.out_degree.insert(from, od + 1);
            self.in_degree.insert(to, id + 1);
            proof {
                let g1 = self@;
                let g2 = g0.with_edge(from, to, kind);
                assert(!g0.has_edge(from, to, kind));
                assert(g1.out_edges =~= g2.out_edges);
                assert(g1.in_edges =~= g2.in_edges);
                assert(g1.out_degree =~= g2.out_degree);
                assert(g1.in_degree =~= g2.in_degree);
                assert forall|a: NodeId, b: NodeId, k: EdgeType| g1.has_edge(a, b, k) <==> g1.has_back_edge(b, a, k) by {
                    lemma_edge_code_injective(b, k, to, kind);
                    lemma_edge_code_injective(a, k, from, kind);
                    assert(g1.has_edge(a, b, k) == (g0.has_edge(a, b, k) || (a == from && b == to && k == kind)));
                    assert(g1.has_back_edge(b, a, k) == (g0.has_back_edge(b, a, k) || (a == from && b == to && k == kind)));
                }
                assert forall|n: NodeId| #[trigger] g1.out_edges.contains_key(n) implies
                    g1.out_edges[n].finite() && g1.out_degree[n] == g1.out_edges[n].len() by {
                    if n == from && !g0.out_edges.contains_key(from) {
                        assert(codes_of(g0.out_edges, from) =~= Set::empty());
                    }
                }
                assert forall|n: NodeId| #[trigger] g1.in_edges.contains_key(n) implies
                    g1.in_edges[n].finite() && g1.in_degree[n] == g1.in_edges[n].len() by {
                    if n == to && !g0.in_edges.contains_key(to) {
                        assert(codes_of(g0.in_edges, to) =~= Set::empty());
                    }
                }
                lemma_edge_code(to, kind);
                lemma_edge_code(from, kind);
            }
        } else {
            proof {
                assert(g0.has_edge(from, to, kind));
                assert(outs_view =~= g0.out_edges[from]);
                assert(self@.out_edges =~= g0.out_edges);
            }
        }
    }
    /// Deletes `node`: its tables and counters, and every edge that touches
    /// it from the tables of its neighbors, whose counters go down by one per
    /// edge removed.
    pub fn remove_node(&mut self, node: NodeId)
        requires
            old(self).wf(),
        ensures
            final(self).wf(),
            final(self)@ == old(self)@.without_node(node),
    {
        let ghost g0 = self@;
        let ghost d1 = codes_of(g0.out_edges, node);
        // Unlink `node` from the incoming tables of its targets.
        match self.adj_out.remove(&node) {
            Some(neighbors) => {
                let codes = set_elements(&neighbors);
                let ghost mut done: Set<u64> = Set::empty();
                let mut i: usize = 0;
                while i < codes.len()
                    invariant
                        g0.wf(),
                        g0.out_edges.contains_key(node),
                        d1 == g0.out_edges[node],
                        i <= codes.len(),
                        codes@.no_duplicates(),
                        codes@.to_set() == d1,
                        done.subset_of(d1),
                        forall|j: int| 0 <= j < i ==> done.contains(#[trigger] codes@[j]),
                        forall|j: int| i <= j < codes@.len() ==> !done.contains(#[trigger] codes@[j]),
                        self@.out_edges == g0.out_edges.remove(node),
                        self@.out_degree == g0.out_degree,
                        self@.in_edges.dom() == g0.in_edges.dom(),
                        self@.in_degree.dom() == g0.in_degree.dom(),
                        forall|t: NodeId| #[trigger] self@.in_edges.contains_key(t) ==>
                            self@.in_edges[t] == unlinked(g0.in_edges[t], node, t, done)
                            && self@.in_edges[t].finite()
                            && self@.in_degree[t] == self@.in_edges[t].len(),
                    decreases codes.len() - i,
                {
                    let code = codes[i];
                    assert(codes@.to_set().contains(code));
                    let (target, kind) = decode_edge(code);
                    proof {
                        assert(g0.has_edge(node, target, kind));
                        assert(g0.has_back_edge(target, node, kind));
                    }
                    let ghost before = self@;
                    match self.adj_in.remove(&target) {
                        Some(mut in_set) => {
                            let back = encode_edge(node, kind);
                            proof {
                                lemma_edge_code(node, kind);
                                lemma_edge_code(target, kind);
                                assert(!done.contains(code));
                                assert(in_set@.contains(back));
                                lemma_unlinked_step(g0.in_edges[target], node, target, done, kind);
                            }
                            in_set.remove(&back);
                            let ghost in_view = in_set@;
                            self.adj_in.insert(target, in_set);
                            match self.in_degree.get(&target) {
                                Some(d) => {
                                    let d = *d;
                                    self.in_degree.insert(target, d.saturating_sub(1));
                                },
                                None => {},
                            }
                            proof {
                                let next_done = done.insert(code);
                                assert forall|t: NodeId| #[trigger] self@.in_edges.contains_key(t) implies
                                    self@.in_edges[t] == unlinked(g0.in_edges[t], node, t, next_done)
                                    && self@.in_edges[t].finite()
                                    && self@.in_degree[t] == self@.in_edges[t].len() by {
                                    if t != target {
                                        lemma_unlinked_other(g0.in_edges[t], node, t, done, target, kind);
                                        assert(self@.in_edges[t] == before.in_edges[t]);
                                    }
                                }
                                assert(self@.in_edges.dom() =~= g0.in_edges.dom());
                                assert(self@.in_degree.dom() =~= g0.in_degree.dom());
                                assert(self@.out_edges =~= g0.out_edges.remove(node));
                                done = next_done;
                                assert forall|j: int| i + 1 <= j < codes@.len() implies !done.contains(#[trigger] codes@[j]) by {
                                    assert(codes@[j] != codes@[i as int]);
                                }
                            }
                        },
                        None => {
                            proof { assert(false); }
                        },
                    }
                    i += 1;
                }
                proof {
                    assert(done =~= d1) by {
                        assert forall|c: u64| d1.contains(c) implies done.contains(c) by {
                            assert(codes@.to_set().contains(c));
                            let j = choose|j: int| 0 <= j < codes@.len() && codes@[j] == c;
                            assert(done.contains(codes@[j]));
                        }
                    }
                    assert forall|t: NodeId| #[trigger] self@.in_edges.contains_key(t) implies
                        self@.in_edges[t] == drop_endpoint(g0.in_edges[t], node) by {
                        assert forall|k: EdgeType| g0.in_edges[t].contains(edge_code(node, k)) implies
                            #[trigger] done.contains(edge_code(t, k)) by {
                            assert(g0.has_back_edge(t, node, k));
                            assert(g0.has_edge(node, t, k));
                        }
                        lemma_unlinked_all(g0.in_edges[t], node, t, done);
                    }
                }
            },
            None => {
                proof {
                    assert forall|t: NodeId| #[trigger] self@.in_edges.contains_key(t) implies
                        self@.in_edges[t] == drop_endpoint(g0.in_edges[t], node) by {
                        assert forall|c: u64| #[trigger] g0.in_edges[t].contains(c) implies code_endpoint(c) != node by {
                            lemma_code_roundtrip(c);
                            if code_endpoint(c) == node {
                                assert(g0.has_back_edge(t, node, code_kind(c)));
                            }
                        }
                        assert(self@.in_edges[t] =~= drop_endpoint(g0.in_edges[t], node));
                    }
                    assert(self@.out_edges =~= g0.out_edges.remove(node));
                }
            },
        }
        let ghost g1 = self@;
        assert(g1.out_edges == g0.out_edges.remove(node));
        assert(g1.out_degree == g0.out_degree);
        assert(g1.in_edges.dom() == g0.in_edges.dom());
        assert(g1.in_degree.dom() == g0.in_degree.dom());
        assert(forall|t: NodeId| #[trigger] g1.in_edges.contains_key(t) ==>
            g1.in_edges[t] == drop_endpoint(g0.in_edges[t], node)
            && g1.in_edges[t].finite() && g1.in_degree[t] == g1.in_edges[t].len());
        let ghost d2 = if g1.in_edges.contains_key(node) { g1.in_edges[node] } else { Set::empty() };
        // Unlink `node` from the outgoing tables of its sources.
        match self.adj_in.remove(&node) {
            Some(sources) => {
                let codes = set_elements(&sources);
                let ghost mut done: Set<u64> = Set::empty();
                let mut i: usize = 0;
                while i < codes.len()
                    invariant
                        g0.wf(),
                        g1.in_edges.contains_key(node),
                        g0.in_edges.contains_key(node),
                        d2 == g1.in_edges[node],
                        d2 == drop_endpoint(g0.in_edges[node], node),
                        i <= codes.len(),
                        codes@.no_duplicates(),
                        codes@.to_set() == d2,
                        done.subset_of(d2),
                        forall|j: int| 0 <= j < i ==> done.contains(#[trigger] codes@[j]),
                        forall|j: int| i <= j < codes@.len() ==> !done.contains(#[trigger] codes@[j]),
                        self@.in_edges == g1.in_edges.remove(node),
                        self@.in_degree == g1.in_degree,
                        self@.out_edges.dom() == g0.out_edges.dom().remove(node),
                        self@.out_degree.dom() == g0.out_degree.dom(),
                        forall|t: NodeId| #[trigger] self@.out_edges.contains_key(t) ==>
                            self@.out_edges[t] == unlinked(g0.out_edges[t], node, t, done)
                            && self@.out_edges[t].finite()
                            && self@.out_degree[t] == self@.out_edges[t].len(),
                    decreases codes.len() - i,
                {
                    let code = codes[i];
                    assert(codes@.to_set().contains(code));
                    let (source, kind) = decode_edge(code);
                    proof {
                        assert(g0.in_edges[node].contains(code));
                        assert(g0.has_back_edge(node, source, kind));
                        assert(g0.has_edge(source, node, kind));
                        assert(source != node);
                        assert(g0.out_edges.dom().remove(node).contains(source));
                        assert(self@.out_edges.contains_key(source));
                        assert(self@.out_edges[source] == unlinked(g0.out_edges[source], node, source, done));
                    }
                    let ghost before = self@;
                    match self.adj_out.remove(&source) {
                        Some(mut out_set) => {
                            let back = encode_edge(node, kind);
                            proof {
                                lemma_edge_code(node, kind);
                                lemma_edge_code(source, kind);
                                assert(!done.contains(code));
                                assert(out_set@.contains(back));
                                lemma_unlinked_step(g0.out_edges[source], node, source, done, kind);
                            }
                            out_set.remove(&back);
                            self.adj_out.insert(source, out_set);
                            match self.out_degree.get(&source) {
                                Some(d) => {
                                    let d = *d;
                                    self.out_degree.insert(source, d.saturating_sub(1));
                                },
                                None => {},
                            }
                            proof {
                                let next_done = done.insert(code);
                                assert forall|t: NodeId| #[trigger] self@.out_edges.contains_key(t) implies
                                    self@.out_edges[t] == unlinked(g0.out_edges[t], node, t, next_done)
                                    && self@.out_edges[t].finite()
                                    && self@.out_degree[t] == self@.out_edges[t].len() by {
                                    if t != source {
                                        lemma_unlinked_other(g0.out_edges[t], node, t, done, source, kind);
                                        assert(self@.out_edges[t] == before.out_edges[t]);
                                    }
                                }
                                assert(self@.out_edges.dom() =~= g0.out_edges.dom().remove(node));
                                assert(self@.out_degree.dom() =~= g0.out_degree.dom());
                                assert(self@.in_edges =~= g1.in_edges.remove(node));
                                done = next_done;
                                assert forall|j: int| i + 1 <= j < codes@.len() implies !done.contains(#[trigger] codes@[j]) by {
                                    assert(codes@[j] != codes@[i as int]);
                                }
                            }
                        },
                        None => {
                            proof { assert(false); }
                        },
                    }
                    i += 1;
                }
                proof {
                    assert(done =~= d2) by {
                        assert forall|c: u64| d2.contains(c) implies done.contains(c) by {
                            assert(codes@.to_set().contains(c));
                            let j = choose|j: int| 0 <= j < codes@.len() && codes@[j] == c;
                            assert(done.contains(codes@[j]));
                        }
                    }
                    assert forall|t: NodeId| #[trigger] self@.out_edges.contains_key(t) implies
                        self@.out_edges[t] == drop_endpoint(g0.out_edges[t], node) by {
                        assert forall|k: EdgeType| g0.out_edges[t].contains(edge_code(node, k)) implies
                            #[trigger] done.contains(edge_code(t, k)) by {
                            assert(g0.has_edge(t, node, k));
                            assert(g0.has_back_edge(node, t, k));
                            lemma_edge_code(t, k);
                        }
                        lemma_unlinked_all(g0.out_edges[t], node, t, done);
                    }
                }
            },
            None => {
                proof {
                    assert forall|t: NodeId| #[trigger] self@.out_edges.contains_key(t) implies
                        self@.out_edges[t] == drop_endpoint(g0.out_edges[t], node) by {
                        assert forall|c: u64| #[trigger] g0.out_edges[t].contains(c) implies code_endpoint(c) != node by {
                            lemma_code_roundtrip(c);
                            if code_endpoint(c) == node {
                                assert(g0.has_edge(t, node, code_kind(c)));
                            }
                        }
                        assert(self@.out_edges[t] =~= drop_endpoint(g0.out_edges[t], node));
                    }
                    assert(self@.out_edges.dom() =~= g0.out_edges.dom().remove(node));
                }
            },
        }
        assert(self@.out_edges.dom() == g0.out_edges.dom().remove(node));
        assert(forall|t: NodeId| #[trigger] self@.out_edges.contains_key(t) ==>
            self@.out_edges[t] == drop_endpoint(g0.out_edges[t], node));
        self.out_degree.remove(&node);
        self.in_degree.remove(&node);
        proof {
            let r = g0.without_node(node);
            assert(self@.out_edges =~= r.out_edges);
            assert(self@.in_edges =~= r.in_edges);
            assert(self@.out_degree =~= r.out_degree);
            assert(self@.in_degree =~= r.in_degree);
            lemma_without_node(g0, node);
        }
    }
    /// Whether `node` has more than 300 outgoing or more than 300 incoming
    /// edges, counting a node without counters as having none.
    pub fn is_supernode(&self, node: NodeId) -> (hub: bool)
        ensures
            hub == self@.is_supernode(node),
    {
        let out_deg = self.out_degree(node);
        let in_deg = self.in_degree(node);
        out_deg > 300 || in_deg > 300
    }

    /// The outgoing counter of `node`, 0 where it has none.
    pub fn out_degree(&self, node: NodeId) -> (d: u64)
        ensures
            d == self@.out_degree_of(node),
    {
        match self.out_degree.get(&node) {
            Some(d) => *d,
            None => 0,
        }
    }

    /// The incoming counter of `node`, 0 where it has none.
    pub fn in_degree(&self, node: NodeId) -> (d: u64)
        ensures
            d == self@.in_degree_of(node),
    {
        match self.in_degree.get(&node) {
            Some(d) => *d,
            None => 0,
        }
    }

    /// Whether the graph has neither outgoing tables nor incoming counters.
    pub fn is_empty(&self) -> (empty: bool)
        ensures
            empty == (self@.out_edges.dom().is_empty() && self@.in_degree.dom().is_empty()),
    {
        assert(self@.out_edges.dom() =~= self.adj_out@.dom());
        self.adj_out.is_empty() && self.in_degree.is_empty()
    }

    /// The nodes that have an outgoing table, each once.
    pub fn nodes(&self) -> (ids: Vec<NodeId>)
        ensures
            ids@.no_duplicates(),
            ids@.to_set() == self@.out_edges.dom(),
    {
        let ids = map_keys(&self.adj_out);
        assert(self@.out_edges.dom() =~= self.adj_out@.dom());
        ids
    }

    /// The outgoing half-edges `(target, kind)` of `node`, each once, or
    /// `None` where the node has no outgoing table.
    pub fn out_edges(&self, node: NodeId) -> (edges: Option<Vec<(NodeId, EdgeType)>>)
        requires
            self.wf(),
        ensures
            edges is None <==> !self@.out_edges.contains_key(node),
            edges matches Some(v) ==> {
                &&& v@.no_duplicates()
                &&& forall|t: NodeId, k: EdgeType| v@.contains((t, k)) <==> self@.has_edge(node, t, k)
            },
    {
        match self.adj_out.get(&node) {
            Some(set) => {
                assert(self@.out_edges.contains_key(node) && set@ == self@.out_edges[node]);
                let v = decode_all(set);
                Some(v)
            },
            None => None,
        }
    }

    /// The incoming half-edges `(source, kind)` of `node`, each once, or
    /// `None` where the node has no incoming table.
    pub fn in_edges(&self, node: NodeId) -> (edges: Option<Vec<(NodeId, EdgeType)>>)
        requires
            self.wf(),
        ensures
            edges is None <==> !self@.in_edges.contains_key(node),
            edges matches Some(v) ==> {
                &&& v@.no_duplicates()
                &&& forall|s: NodeId, k: EdgeType| v@.contains((s, k)) <==> self@.has_back_edge(node, s, k)
            },
    {
        match self.adj_in.get(&node) {
            Some(set) => {
                assert(self@.in_edges.contains_key(node) && set@ == self@.in_edges[node]);
                let v = decode_all(set);
                Some(v)
            },
            None => None,
        }
    }

    /// Checks that every outgoing edge is recorded in the incoming table of
    /// its target. A graph that fails the check is a broken graph, on which
    /// the check may not be run; every well-formed graph passes it
    /// (`lemma_wf_mirrored`).
    pub fn validate(&self) -> (consistent: bool)
        requires
            self@.edges_mirrored(),
        ensures
            consistent,
            consistent == self@.edges_mirrored(),
    {
        let sources = map_keys(&self.adj_out);
        proof {
            assert(self@.out_edges.dom() =~= self.adj_out@.dom());
        }
        let mut i: usize = 0;
        while i < sources.len()
            invariant
                self@.edges_mirrored(),
                i <= sources.len(),
                sources@.to_set() == self@.out_edges.dom(),
                forall|j: int, b: NodeId, k: EdgeType| 0 <= j < i && #[trigger] self@.has_edge(sources@[j], b, k)
                    ==> self@.has_back_edge(b, sources@[j], k),
            decreases sources.len() - i,
        {
            let node = sources[i];
            assert(sources@.to_set().contains(node));
            let codes: Vec<u64> = match self.adj_out.get(&node) {
                Some(set) => {
                    assert(set@ == self@.out_edges[node]);
                    set_elements(set)
                },
                None => {
                    proof {
                        assert(self.adj_out@.dom().contains(node));
                        assert(false);
                    }
                    Vec::new()
                },
            };
            let mut j: usize = 0;
            while j < codes.len()
                invariant
                    self@.edges_mirrored(),
                    j <= codes.len(),
                    self@.out_edges.contains_key(node),
                    codes@.to_set() == self@.out_edges[node],
                    forall|q: int| 0 <= q < j && #[trigger] codes@[q] < code_bound() ==>
                        self@.has_back_edge(code_endpoint(codes@[q]), node, code_kind(codes@[q])),
                decreases codes.len() - j,
            {
                let c = codes[j];
                if c < 0x4_0000_0000u64 {
                    let (n, kind) = decode_edge(c);
                    let back = encode_edge(node, kind);
                    let present = match self.adj_in.get(&n) {
                        Some(set) => {
                            assert(self@.in_edges.contains_key(n) && set@ == self@.in_edges[n]);
                            set.contains(&back)
                        },
                        None => {
                            assert(!self@.in_edges.contains_key(n));
                            false
                        },
                    };
                    if !present {
                        proof {
                            assert(codes@.to_set().contains(codes@[j as int]));
                            assert(self@.has_edge(node, n, kind));
                            assert(!self@.has_back_edge(n, node, kind));
                        }
                        return false;
                    }
                }
                j += 1;
            }
            proof {
                assert forall|b: NodeId, k: EdgeType| self@.has_edge(node, b, k) implies self@.has_back_edge(b, node, k) by {
                    lemma_edge_code(b, k);
                    assert(codes@.to_set().contains(edge_code(b, k)));
                    let q = choose|q: int| 0 <= q < codes@.len() && codes@[q] == edge_code(b, k);
                    assert(codes@[q] < code_bound());
                }
            }
            i += 1;
        }
        assert forall|a: NodeId, b: NodeId, k: EdgeType| #[trigger] self@.has_edge(a, b, k) implies self@.has_back_edge(b, a, k) by {
            assert(self@.out_edges.dom().contains(a));
            assert(sources@.to_set().contains(a));
            let j = choose|j: int| 0 <= j < sources@.len() && sources@[j] == a;
            assert(self@.has_edge(sources@[j], b, k));
        }
        true
    }
    /// Every edge of the graph as `(source, target, kind)`, each once.
    pub fn all_edges(&self) -> (edges: Vec<(NodeId, NodeId, EdgeType)>)
        requires
            self.wf(),
        ensures
            edges@.no_duplicates(),
            forall|a: NodeId, b: NodeId, k: EdgeType| #[trigger] edges@.contains((a, b, k)) <==> self@.has_edge(a, b, k),
    {
        let nodes = self.nodes();
        let mut edges: Vec<(NodeId, NodeId, EdgeType)> = Vec::new();
        let mut i: usize = 0;
        while i < nodes.len()
            invariant
                self.wf(),
                i <= nodes@.len(),
                nodes@.no_duplicates(),
                nodes@.to_set() == self@.out_edges.dom(),
                edges@.no_duplicates(),
                forall|a: NodeId, b: NodeId, k: EdgeType| #[trigger] edges@.contains((a, b, k))
                    <==> (nodes@.subrange(0, i as int).contains(a) && self@.has_edge(a, b, k)),
            decreases nodes.len() - i,
        {
            let node = nodes[i];
            assert(nodes@.to_set().contains(node));
            let neighbors = match self.out_edges(node) {
                Some(v) => v,
                None => Vec::new(),
            };
            let ghost before = edges@;
            proof {
                assert forall|a: NodeId, b: NodeId, k: EdgeType| #[trigger] before.contains((a, b, k)) implies a != node by {
                    if before.contains((a, b, k)) && a == node {
                        let q = choose|q: int| 0 <= q < i && nodes@.subrange(0, i as int)[q] == a;
                        assert(nodes@[q] == nodes@[i as int]);
                    }
                }
            }
            let mut j: usize = 0;
            while j < neighbors.len()
                invariant
                    j <= neighbors.len(),
                    neighbors@.no_duplicates(),
                    forall|t: NodeId, k: EdgeType| neighbors@.contains((t, k)) <==> self@.has_edge(node, t, k),
                    edges@.no_duplicates(),
                    forall|a: NodeId, b: NodeId, k: EdgeType| #[trigger] before.contains((a, b, k)) ==> a != node,
                    forall|a: NodeId, b: NodeId, k: EdgeType| #[trigger] edges@.contains((a, b, k))
                        <==> (before.contains((a, b, k)) || (a == node && neighbors@.subrange(0, j as int).contains((b, k)))),
                decreases neighbors.len() - j,
            {
                let (n, kind) = neighbors[j];
                proof {
                    assert(!edges@.contains((node, n, kind))) by {
                        if edges@.contains((node, n, kind)) {
                            let q = choose|q: int| 0 <= q < j && neighbors@.subrange(0, j as int)[q] == (n, kind);
                            assert(neighbors@[q] == neighbors@[j as int]);
                        }
                    }
                }
                let ghost old_edges = edges@;
                edges.push((node, n, kind));
                proof {
                    assert forall|x: int, y: int| 0 <= x < y < edges@.len() implies edges@[x] != edges@[y] by {
                        if y == edges@.len() - 1 {
                            assert(old_edges.contains(old_edges[x]));
                        }
                    }
                    assert(neighbors@.subrange(0, j + 1) =~= neighbors@.subrange(0, j as int).push((n, kind)));
                }
                j += 1;
            }
            proof {
                assert(neighbors@.subrange(0, j as int) =~= neighbors@);
                assert(nodes@.subrange(0, i + 1) =~= nodes@.subrange(0, i as int).push(node));
                assert forall|b: NodeId, k: EdgeType| self@.has_edge(node, b, k) implies neighbors@.contains((b, k)) by {}
            }
            i += 1;
        }
        proof {
            assert(nodes@.subrange(0, i as int) =~= nodes@);
            assert forall|a: NodeId, b: NodeId, k: EdgeType| self@.has_edge(a, b, k) implies nodes@.contains(a) by {
                assert(self@.out_edges.dom().contains(a));
                assert(nodes@.to_set().contains(a));
            }
        }
        edges
    }
}

} // verus!

use std::collections::HashMap;
use vstd::prelude::*;
use crate::types::{NodeId, StringId, NodeType, EdgeType};
use crate::graph::{Graph, GraphView};
use crate::collections::map_keys;

verus! {

broadcast use {vstd::std_specs::hash::group_hash_axioms, vstd::seq_lib::group_seq_properties};

/// A change to the code graph, as the parser reports it.
#[derive(Debug, Clone, Copy, PartialEq, Eq, Hash, Structural)]
pub enum Event {
    AddNode { id: StringId, kind: NodeType, file_id: StringId },
    AddEdge { src: StringId, dst: StringId, kind: EdgeType },
    ClearFile { file_id: StringId },
}

/// Whether an event clears a file.
pub open spec fn is_clear(e: Event) -> bool {
    e is ClearFile
}

/// Abstract state of a [`GraphState`]: the graph, and for each file the
/// nodes added for it, in order.
pub struct StateView {
    pub graph: GraphView,
    pub files: Map<StringId, Seq<NodeId>>,
}

/// The graph after removing the nodes of `nodes` one after another.
pub open spec fn without_nodes(g: GraphView, nodes: Seq<NodeId>) -> GraphView
    decreases nodes.len(),
{
    if nodes.len() == 0 {
        g
    } else {
        without_nodes(g, nodes.drop_last()).without_node(nodes.last())
    }
}

/// The nodes recorded for a file, none where it has no record.
pub open spec fn nodes_of(files: Map<StringId, Seq<NodeId>>, file_id: StringId) -> Seq<NodeId> {
    if files.contains_key(file_id) { files[file_id] } else { Seq::empty() }
}

/// The state after one event: a clear removes the file's record and each
/// node in it; an added node is recorded under its file; an added edge
/// goes into the graph.
pub open spec fn after_event(st: StateView, e: Event) -> StateView {
    match e {
        Event::ClearFile { file_id } => {
            if st.files.contains_key(file_id) {
                StateView { graph: without_nodes(st.graph, st.files[file_id]), files: st.files.remove(file_id) }
            } else {
                st
            }
        },
        Event::AddNode { id, kind: _, file_id } => StateView {
            graph: st.graph.with_node(id),
            files: st.files.insert(file_id, nodes_of(st.files, file_id).push(id)),
        },
        Event::AddEdge { src, dst, kind } => StateView { graph: st.graph.with_edge(src, dst, kind), files: st.files },
    }
}

/// The state after the events of `es`, in order.
pub open spec fn after_events(st: StateView, es: Seq<Event>) -> StateView
    decreases es.len(),
{
    if es.len() == 0 {
        st
    } else {
        after_event(after_events(st, es.drop_last()), es.last())
    }
}

/// The state after a batch: its clears first, then the other events, each
/// group in batch order.
pub open spec fn after_batch(st: StateView, es: Seq<Event>) -> StateView {
    after_events(after_events(st, es.filter(|e: Event| is_clear(e))), es.filter(|e: Event| !is_clear(e)))
}

/// Removing nodes one after another keeps the graph well formed.
pub proof fn lemma_without_nodes_wf(g: GraphView, nodes: Seq<NodeId>)
    requires
        g.wf(),
    ensures
        without_nodes(g, nodes).wf(),
    decreases nodes.len(),
{
    if nodes.len() > 0 {
        lemma_without_nodes_wf(g, nodes.drop_last());
        crate::graph::lemma_without_node(without_nodes(g, nodes.drop_last()), nodes.last());
    }
}

/// Removing nodes one after another leaves none of them with a table and
/// no edge that touches any of them; other edges stay.
pub proof fn lemma_without_nodes(g: GraphView, nodes: Seq<NodeId>)
    requires
        g.wf(),
    ensures
        without_nodes(g, nodes).wf(),
        forall|v: NodeId| #[trigger] nodes.contains(v) ==>
            !without_nodes(g, nodes).out_edges.contains_key(v) && !without_nodes(g, nodes).in_edges.contains_key(v),
        forall|a: NodeId, b: NodeId, k: EdgeType| #[trigger] without_nodes(g, nodes).has_edge(a, b, k)
            <==> (!nodes.contains(a) && !nodes.contains(b) && g.has_edge(a, b, k)),
    decreases nodes.len(),
{
    if nodes.len() > 0 {
        let prev = without_nodes(g, nodes.drop_last());
        lemma_without_nodes(g, nodes.drop_last());
        crate::graph::lemma_without_node(prev, nodes.last());
        let r = without_nodes(g, nodes);
        assert forall|v: NodeId| #[trigger] nodes.contains(v) implies
            !r.out_edges.contains_key(v) && !r.in_edges.contains_key(v) by {
            if v != nodes.last() {
                let i = choose|i: int| 0 <= i < nodes.len() && nodes[i] == v;
                assert(nodes.drop_last()[i] == v);
                assert(nodes.drop_last().contains(v));
            }
        }
        assert forall|a: NodeId, b: NodeId, k: EdgeType| #[trigger] r.has_edge(a, b, k)
            <==> (!nodes.contains(a) && !nodes.contains(b) && g.has_edge(a, b, k)) by {
            assert(nodes.contains(a) <==> (nodes.drop_last().contains(a) || a == nodes.last())) by {
                if nodes.contains(a) && a != nodes.last() {
                    let i = choose|i: int| 0 <= i < nodes.len() && nodes[i] == a;
                    assert(nodes.drop_last()[i] == a);
                }
            }
            assert(nodes.contains(b) <==> (nodes.drop_last().contains(b) || b == nodes.last())) by {
                if nodes.contains(b) && b != nodes.last() {
                    let i = choose|i: int| 0 <= i < nodes.len() && nodes[i] == b;
                    assert(nodes.drop_last()[i] == b);
                }
            }
        }
    }
}

/// Re-extracting a file (a clear of the file, then a node added for it)
/// replaces its record: the file then lists just the new node, the node
/// has its tables, and no edge touches a node the file listed before.
pub proof fn lemma_reparse_replaces(st: StateView, file_id: StringId, id: NodeId, kind: NodeType)
    requires
        st.graph.wf(),
    ensures
        ({
            let r = after_batch(st, seq![Event::ClearFile { file_id }, Event::AddNode { id, kind, file_id }]);
            &&& r.graph.wf()
            &&& r.files.contains_key(file_id)
            &&& r.files[file_id] == seq![id]
            &&& r.graph.out_edges.contains_key(id)
            &&& forall|a: NodeId, b: NodeId, k: EdgeType| #[trigger] r.graph.has_edge(a, b, k) ==>
                    !nodes_of(st.files, file_id).contains(a) && !nodes_of(st.files, file_id).contains(b)
        }),
{
    let clear = Event::ClearFile { file_id };
    let add = Event::AddNode { id, kind, file_id };
    let es = seq![clear, add];
    assert(es == Seq::<Event>::empty().push(clear).push(add));
    Seq::<Event>::empty().lemma_filter_push(clear, |e: Event| is_clear(e));
    Seq::<Event>::empty().push(clear).lemma_filter_push(add, |e: Event| is_clear(e));
    Seq::<Event>::empty().lemma_filter_push(clear, |e: Event| !is_clear(e));
    Seq::<Event>::empty().push(clear).lemma_filter_push(add, |e: Event| !is_clear(e));
    assert(Seq::<Event>::empty().filter(|e: Event| is_clear(e)) =~= Seq::<Event>::empty());
    assert(Seq::<Event>::empty().filter(|e: Event| !is_clear(e)) =~= Seq::<Event>::empty());
    assert(es.filter(|e: Event| is_clear(e)) == seq![clear]);
    assert(es.filter(|e: Event| !is_clear(e)) == seq![add]);
    assert(seq![clear].drop_last() =~= Seq::<Event>::empty());
    assert(seq![add].drop_last() =~= Seq::<Event>::empty());
    let s1 = after_event(st, clear);
    reveal_with_fuel(after_events, 2);
    assert(after_events(st, seq![clear]) == s1);
    assert(after_events(s1, seq![add]) == after_event(s1, add));
    let old_nodes = nodes_of(st.files, file_id);
    if st.files.contains_key(file_id) {
        lemma_without_nodes(st.graph, st.files[file_id]);
    } else {
        assert(old_nodes =~= Seq::<NodeId>::empty());
    }
    assert(!s1.files.contains_key(file_id));
    assert(nodes_of(s1.files, file_id) =~= Seq::<NodeId>::empty());
    let r = after_event(s1, add);
    assert(r.files[file_id] =~= seq![id]);
    crate::graph::lemma_add_node(s1.graph, id);
}

/// The identifiers of the nodes that `es` adds to `file_id`, in order.
pub open spec fn added_to_file(es: Seq<Event>, file_id: StringId) -> Seq<NodeId>
    decreases es.len(),
{
    if es.len() == 0 {
        Seq::empty()
    } else {
        let prev = added_to_file(es.drop_last(), file_id);
        match es.last() {
            Event::AddNode { id, kind: _, file_id: f } => if f == file_id { prev.push(id) } else { prev },
            _ => prev,
        }
    }
}

/// Applying events one after another keeps the graph well formed.
pub proof fn lemma_after_events_wf(st: StateView, es: Seq<Event>)
    requires
        st.graph.wf(),
    ensures
        after_events(st, es).graph.wf(),
    decreases es.len(),
{
    if es.len() > 0 {
        lemma_after_events_wf(st, es.drop_last());
        let mid = after_events(st, es.drop_last());
        match es.last() {
            Event::ClearFile { file_id } => {
                if mid.files.contains_key(file_id) {
                    lemma_without_nodes_wf(mid.graph, mid.files[file_id]);
                }
            },
            Event::AddNode { id, kind: _, file_id: _ } => {
                crate::graph::lemma_with_node_wf(mid.graph, id);
            },
            Event::AddEdge { src, dst, kind } => {
                crate::graph::lemma_with_edge_wf(mid.graph, src, dst, kind);
            },
        }
    }
}

/// Clearing files one after another leaves none of them with a record.
proof fn lemma_clears_remove(st: StateView, cs: Seq<Event>)
    requires
        forall|i: int| 0 <= i < cs.len() ==> is_clear(#[trigger] cs[i]),
    ensures
        forall|e: Event| #[trigger] cs.contains(e) ==>
            (e matches Event::ClearFile { file_id } ==> !after_events(st, cs).files.contains_key(file_id)),
    decreases cs.len(),
{
    if cs.len() > 0 {
        let prev = cs.drop_last();
        assert forall|i: int| 0 <= i < prev.len() implies is_clear(#[trigger] prev[i]) by {
            assert(prev[i] == cs[i]);
        }
        lemma_clears_remove(st, prev);
        assert(is_clear(cs[cs.len() - 1]));
        assert forall|e: Event| #[trigger] cs.contains(e) implies
            (e matches Event::ClearFile { file_id } ==> !after_events(st, cs).files.contains_key(file_id)) by {
            if e != cs.last() {
                let i = choose|i: int| 0 <= i < cs.len() && cs[i] == e;
                assert(prev[i] == e);
                assert(prev.contains(e));
            }
        }
    }
}

/// Events without clears keep every edge, add every edge they name, and
/// append the nodes they add to the records of their files.
proof fn lemma_additions(st: StateView, os: Seq<Event>)
    requires
        st.graph.wf(),
        forall|i: int| 0 <= i < os.len() ==> !is_clear(#[trigger] os[i]),
    ensures
        after_events(st, os).graph.wf(),
        forall|a: NodeId, b: NodeId, k: EdgeType| #[trigger] st.graph.has_edge(a, b, k) ==>
            after_events(st, os).graph.has_edge(a, b, k),
        forall|e: Event| #[trigger] os.contains(e) ==>
            (e matches Event::AddEdge { src, dst, kind } ==> after_events(st, os).graph.has_edge(src, dst, kind)),
        forall|f: StringId| #[trigger] nodes_of(after_events(st, os).files, f) == nodes_of(st.files, f) + added_to_file(os, f),
        forall|f: StringId| #[trigger] after_events(st, os).files.contains_key(f) <==>
            (st.files.contains_key(f) || added_to_file(os, f).len() > 0),
    decreases os.len(),
{
    lemma_after_events_wf(st, os);
    if os.len() == 0 {
        assert forall|f: StringId| #[trigger] nodes_of(after_events(st, os).files, f) == nodes_of(st.files, f) + added_to_file(os, f) by {
            assert(nodes_of(st.files, f) + Seq::<NodeId>::empty() =~= nodes_of(st.files, f));
        }
    } else {
        let prev = os.drop_last();
        assert forall|i: int| 0 <= i < prev.len() implies !is_clear(#[trigger] prev[i]) by {
            assert(prev[i] == os[i]);
        }
        lemma_additions(st, prev);
        lemma_after_events_wf(st, prev);
        let mid = after_events(st, prev);
        let r = after_events(st, os);
        let e = os.last();
        assert(!is_clear(os[os.len() - 1]));
        assert(r == after_event(mid, e));
        match e {
            Event::AddNode { id, kind: _, file_id } => {
                crate::graph::lemma_add_node(mid.graph, id);
                assert forall|f: StringId| #[trigger] nodes_of(r.files, f) == nodes_of(st.files, f) + added_to_file(os, f) by {
                    assert(nodes_of(mid.files, f) == nodes_of(st.files, f) + added_to_file(prev, f));
                    if f == file_id {
                        assert(nodes_of(st.files, f) + added_to_file(prev, f).push(id)
                            =~= (nodes_of(st.files, f) + added_to_file(prev, f)).push(id));
                    }
                }
                assert forall|f: StringId| #[trigger] r.files.contains_key(f) <==>
                    (st.files.contains_key(f) || added_to_file(os, f).len() > 0) by {
                    assert(mid.files.contains_key(f) <==> (st.files.contains_key(f) || added_to_file(prev, f).len() > 0));
                }
            },
            Event::AddEdge { src, dst, kind } => {
                crate::graph::lemma_add_edge_recorded(mid.graph, src, dst, kind);
                assert forall|f: StringId| #[trigger] nodes_of(r.files, f) == nodes_of(st.files, f) + added_to_file(os, f) by {
                    assert(nodes_of(mid.files, f) == nodes_of(st.files, f) + added_to_file(prev, f));
                }
                assert forall|f: StringId| #[trigger] r.files.contains_key(f) <==>
                    (st.files.contains_key(f) || added_to_file(os, f).len() > 0) by {
                    assert(mid.files.contains_key(f) <==> (st.files.contains_key(f) || added_to_file(prev, f).len() > 0));
                }
            },
            Event::ClearFile { file_id: _ } => {},
        }
        assert forall|a: NodeId, b: NodeId, k: EdgeType| #[trigger] st.graph.has_edge(a, b, k) implies
            r.graph.has_edge(a, b, k) by {
            assert(mid.graph.has_edge(a, b, k));
        }
        assert forall|x: Event| #[trigger] os.contains(x) implies
            (x matches Event::AddEdge { src, dst, kind } ==> r.graph.has_edge(src, dst, kind)) by {
            if x != e {
                let i = choose|i: int| 0 <= i < os.len() && os[i] == x;
                assert(prev[i] == x);
                assert(prev.contains(x));
            }
        }
    }
}

/// Dropping the clears of a sequence leaves the nodes it adds to each file alone.
proof fn lemma_added_without_clears(es: Seq<Event>, f: StringId)
    ensures
        added_to_file(es.filter(|e: Event| !is_clear(e)), f) == added_to_file(es, f),
    decreases es.len(),
{
    if es.len() > 0 {
        lemma_added_without_clears(es.drop_last(), f);
        assert(es.drop_last().push(es.last()) == es);
        es.drop_last().lemma_filter_push(es.last(), |e: Event| !is_clear(e));
        let fp = es.drop_last().filter(|e: Event| !is_clear(e));
        if !is_clear(es.last()) {
            assert(fp.push(es.last()).drop_last() == fp);
        }
    }
}

/// What a batch leaves behind: a well-formed graph that holds every edge
/// the batch adds, recorded on both sides, and for every file the batch
/// clears, a record listing exactly the nodes the batch adds to it, in
/// batch order (no record where it adds none).
pub proof fn lemma_batch_outcome(st: StateView, es: Seq<Event>)
    requires
        st.graph.wf(),
    ensures
        after_batch(st, es).graph.wf(),
        forall|i: int| 0 <= i < es.len() ==> (#[trigger] es[i] matches Event::AddEdge { src, dst, kind } ==>
            after_batch(st, es).graph.has_edge(src, dst, kind) && after_batch(st, es).graph.has_back_edge(dst, src, kind)),
        forall|i: int| 0 <= i < es.len() ==> (#[trigger] es[i] matches Event::ClearFile { file_id } ==>
            nodes_of(after_batch(st, es).files, file_id) == added_to_file(es, file_id)
            && (after_batch(st, es).files.contains_key(file_id) <==> added_to_file(es, file_id).len() > 0)),
{
    broadcast use vstd::seq_lib::group_filter_ensures;
    let cs = es.filter(|e: Event| is_clear(e));
    let os = es.filter(|e: Event| !is_clear(e));
    let s1 = after_events(st, cs);
    let r = after_batch(st, es);
    assert forall|i: int| 0 <= i < cs.len() implies is_clear(#[trigger] cs[i]) by {
        es.lemma_filter_pred(|e: Event| is_clear(e), i);
    }
    assert forall|i: int| 0 <= i < os.len() implies !is_clear(#[trigger] os[i]) by {
        es.lemma_filter_pred(|e: Event| !is_clear(e), i);
    }
    lemma_after_events_wf(st, cs);
    lemma_clears_remove(st, cs);
    lemma_additions(s1, os);
    crate::graph::lemma_wf_mirrored(r.graph);
    assert forall|i: int| 0 <= i < es.len() implies (#[trigger] es[i] matches Event::AddEdge { src, dst, kind } ==>
        r.graph.has_edge(src, dst, kind) && r.graph.has_back_edge(dst, src, kind)) by {
        if es[i] is AddEdge {
            es.lemma_filter_contains(|e: Event| !is_clear(e), i);
            assert(os.contains(es[i]));
        }
    }
    assert forall|i: int| 0 <= i < es.len() implies (#[trigger] es[i] matches Event::ClearFile { file_id } ==>
        nodes_of(r.files, file_id) == added_to_file(es, file_id)
        && (r.files.contains_key(file_id) <==> added_to_file(es, file_id).len() > 0)) by {
        if let Event::ClearFile { file_id } = es[i] {
            es.lemma_filter_contains(|e: Event| is_clear(e), i);
            assert(cs.contains(es[i]));
            assert(!s1.files.contains_key(file_id));
            lemma_added_without_clears(es, file_id);
            assert(nodes_of(s1.files, file_id) + added_to_file(os, file_id) =~= added_to_file(os, file_id));
        }
    }
}

/// Whether an event clears file `f` or adds a node to it.
pub open spec fn touches_file(e: Event, f: StringId) -> bool {
    match e {
        Event::ClearFile { file_id } => file_id == f,
        Event::AddNode { id: _, kind: _, file_id } => file_id == f,
        Event::AddEdge { .. } => false,
    }
}

/// An event changes only the record of the file it names: every other
/// file keeps its record, or its lack of one, as it was.
pub proof fn lemma_event_keeps_other_files(st: StateView, e: Event, f: StringId)
    requires
        !touches_file(e, f),
    ensures
        after_event(st, e).files.contains_key(f) == st.files.contains_key(f),
        st.files.contains_key(f) ==> after_event(st, e).files[f] == st.files[f],
{
}

/// Events that neither clear file `f` nor add a node to it leave its
/// record, or its lack of one, as it was.
pub proof fn lemma_events_keep_other_files(st: StateView, es: Seq<Event>, f: StringId)
    requires
        forall|e: Event| #[trigger] es.contains(e) ==> !touches_file(e, f),
    ensures
        after_events(st, es).files.contains_key(f) == st.files.contains_key(f),
        st.files.contains_key(f) ==> after_events(st, es).files[f] == st.files[f],
    decreases es.len(),
{
    if es.len() > 0 {
        let prev = es.drop_last();
        assert forall|e: Event| #[trigger] prev.contains(e) implies !touches_file(e, f) by {
            let i = choose|i: int| 0 <= i < prev.len() && prev[i] == e;
            assert(es[i] == e);
            assert(es.contains(e));
        }
        lemma_events_keep_other_files(st, prev, f);
        assert(es.contains(es[es.len() - 1]));
        lemma_event_keeps_other_files(after_events(st, prev), es.last(), f);
    }
}

/// A batch that neither clears file `f` nor adds a node to it leaves its
/// record, or its lack of one, as it was.
pub proof fn lemma_batch_keeps_other_files(st: StateView, es: Seq<Event>, f: StringId)
    requires
        forall|e: Event| #[trigger] es.contains(e) ==> !touches_file(e, f),
    ensures
        after_batch(st, es).files.contains_key(f) == st.files.contains_key(f),
        st.files.contains_key(f) ==> after_batch(st, es).files[f] == st.files[f],
{
    broadcast use vstd::seq_lib::group_filter_ensures;
    let cs = es.filter(|e: Event| is_clear(e));
    let os = es.filter(|e: Event| !is_clear(e));
    assert forall|e: Event| #[trigger] cs.contains(e) implies !touches_file(e, f) by {
        es.lemma_filter_contains_rev(|e: Event| is_clear(e), e);
    }
    assert forall|e: Event| #[trigger] os.contains(e) implies !touches_file(e, f) by {
        es.lemma_filter_contains_rev(|e: Event| !is_clear(e), e);
    }
    lemma_events_keep_other_files(st, cs, f);
    lemma_events_keep_other_files(after_events(st, cs), os, f);
}

/// The code graph together with the index of nodes per file.
pub struct GraphState {
    pub graph: Graph,
    pub file_index: HashMap<StringId, Vec<StringId>>,
}

impl View for GraphState {
    type V = StateView;

    open spec fn view(&self) -> StateView {
        StateView { graph: self.graph@, files: self.file_index@.map_values(|v: Vec<StringId>| v@) }
    }
}

impl GraphState {
    pub open spec fn wf(&self) -> bool {
        self.graph.wf()
    }

    /// An empty graph with no files.
    pub fn new() -> (st: Self)
        ensures
            st.wf(),
            st@.graph == GraphView::empty(),
            st@.files == Map::<StringId, Seq<NodeId>>::empty(),
    {
        let st = GraphState { graph: Graph::new(), file_index: HashMap::new() };
        assert(st@.files =~= Map::<StringId, Seq<NodeId>>::empty());
        st
    }

    /// Applies a batch: all clears first, then the other events.
    pub fn apply_batch(&mut self, events: &Vec<Event>)
        requires
            old(self).wf(),
        ensures
            final(self).wf(),
            final(self)@ == after_batch(old(self)@, events@),
    {
        let ghost s0 = self@;
        let ghost clears = events@.filter(|e: Event| is_clear(e));
        let ghost others = events@.filter(|e: Event| !is_clear(e));
        let mut i: usize = 0;
        while i < events.len()
            invariant
                self.wf(),
                i <= events.len(),
                self@ == after_events(s0, events@.take(i as int).filter(|e: Event| is_clear(e))),
            decreases events.len() - i,
        {
            let e = events[i];
            proof {
                assert(events@.take(i + 1) == events@.take(i as int).push(e));
                events@.take(i as int).lemma_filter_push(e, |e: Event| is_clear(e));
            }
            if matches!(e, Event::ClearFile { .. }) {
                let ghost before = self@;
                self.apply_event(&e);
                proof {
                    let pre = events@.take(i as int).filter(|e: Event| is_clear(e));
                    assert(pre.push(e).drop_last() == pre);
                }
            }
            i += 1;
        }
        proof {
            assert(events@.take(events@.len() as int) == events@);
        }
        let ghost s1 = self@;
        let mut i: usize = 0;
        while i < events.len()
            invariant
                self.wf(),
                i <= events.len(),
                self@ == after_events(s1, events@.take(i as int).filter(|e: Event| !is_clear(e))),
            decreases events.len() - i,
        {
            let e = events[i];
            proof {
                assert(events@.take(i + 1) == events@.take(i as int).push(e));
                events@.take(i as int).lemma_filter_push(e, |e: Event| !is_clear(e));
            }
            if !matches!(e, Event::ClearFile { .. }) {
                self.apply_event(&e);
                proof {
                    let pre = events@.take(i as int).filter(|e: Event| !is_clear(e));
                    assert(pre.push(e).drop_last() == pre);
                }
            }
            i += 1;
        }
        proof {
            assert(events@.take(events@.len() as int) == events@);
        }
    }

    /// Applies one event.
    fn apply_event(&mut self, event: &Event)
        requires
            old(self).wf(),
        ensures
            final(self).wf(),
            final(self)@ == after_event(old(self)@, *event),
    {
        let ghost s0 = self@;
        match *event {
            Event::ClearFile { file_id } => {
                match self.file_index.remove(&file_id) {
                    Some(nodes) => {
                        let mut i: usize = 0;
                        while i < nodes.len()
                            invariant
                                self.graph.wf(),
                                i <= nodes.len(),
                                self.graph@ == without_nodes(s0.graph, nodes@.take(i as int)),
                                self.file_index@.map_values(|v: Vec<StringId>| v@) == s0.files.remove(file_id),
                            decreases nodes.len() - i,
                        {
                            proof {
                                assert(nodes@.take(i + 1).drop_last() == nodes@.take(i as int));
                            }
                            self.graph.remove_node(nodes[i]);
                            i += 1;
                        }
                        proof {
                            assert(nodes@.take(nodes@.len() as int) == nodes@);
                        }
                    },
                    None => {
                        proof {
                            assert(self@.files =~= s0.files);
                        }
                    },
                }
                assert(self@.files =~= after_event(s0, *event).files);
            },
            Event::AddNode { id, kind: _, file_id } => {
                self.graph.add_node(id);
                let mut list = match self.file_index.remove(&file_id) {
                    Some(v) => v,
                    None => Vec::new(),
                };
                list.push(id);
                self.file_index.insert(file_id, list);
                assert(self@.files =~= after_event(s0, *event).files);
            },
            Event::AddEdge { src, dst, kind } => {
                self.graph.add_edge(src, dst, kind);
            },
        }
    }
}

/// Events waiting to be applied, each held once, in order of arrival.
pub struct EventBatch {
    events: Vec<Event>,
}

impl View for EventBatch {
    type V = Seq<Event>;

    closed spec fn view(&self) -> Seq<Event> {
        self.events@
    }
}

impl EventBatch {
    /// An empty batch.
    pub fn new() -> (b: Self)
        ensures
            b@ == Seq::<Event>::empty(),
    {
        EventBatch { events: Vec::new() }
    }

    /// Adds an event unless it is already waiting; tells whether it was added.
    pub fn insert(&mut self, e: Event) -> (added: bool)
        ensures
            added == !old(self)@.contains(e),
            final(self)@ == if added { old(self)@.push(e) } else { old(self)@ },
            old(self)@.no_duplicates() ==> final(self)@.no_duplicates(),
    {
        let mut i: usize = 0;
        while i < self.events.len()
            invariant
                i <= self.events@.len(),
                self@ == old(self)@,
                forall|j: int| 0 <= j < i ==> self.events@[j] != e,
            decreases self.events.len() - i,
        {
            if self.events[i] == e {
                assert(self@[i as int] == e);
                return false;
            }
            i += 1;
        }
        self.events.push(e);
        proof {
            assert forall|a: int, b: int| 0 <= a < b < self@.len() && old(self)@.no_duplicates() implies self@[a] != self@[b] by {
                if b == self@.len() - 1 {
                    assert(old(self)@[a] != e);
                }
            }
        }
        true
    }

    pub fn is_empty(&self) -> (empty: bool)
        ensures
            empty == (self@.len() == 0),
    {
        self.events.len() == 0
    }

    pub fn len(&self) -> (n: usize)
        ensures
            n == self@.len(),
    {
        self.events.len()
    }

    /// Drops every waiting event.
    pub fn clear(&mut self)
        ensures
            final(self)@ == Seq::<Event>::empty(),
    {
        self.events = Vec::new();
    }

    /// The waiting events, in order of arrival.
    pub fn events(&self) -> (v: &Vec<Event>)
        ensures
            v@ == self@,
    {
        &self.events
    }
}

/// One flush of the event pipeline: a non-empty batch is applied, the
/// graph's edge mirroring is checked, and the batch is emptied. Returns the
/// check's verdict, or `None` when there was nothing to apply.
pub fn flush_batch(state: &mut GraphState, batch: &mut EventBatch) -> (checked: Option<bool>)
    requires
        old(state).wf(),
    ensures
        final(state).wf(),
        old(batch)@.len() == 0 ==> checked is None && final(state)@ == old(state)@ && final(batch)@ == old(batch)@,
        old(batch)@.len() > 0 ==> {
            &&& final(state)@ == after_batch(old(state)@, old(batch)@)
            &&& final(batch)@ == Seq::<Event>::empty()
            &&& checked == Some(final(state)@.graph.edges_mirrored())
        },
        checked matches Some(ok) ==> ok,
{
    if batch.is_empty() {
        return None;
    }
    state.apply_batch(batch.events());
    proof {
        crate::graph::lemma_wf_mirrored(state@.graph);
    }
    let ok = state.graph.validate();
    batch.clear();
    Some(ok)
}

} // verus!

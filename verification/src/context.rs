use std::collections::HashSet;
use vstd::prelude::*;
use vstd::utf8::encode_utf8;
use crate::types::{NodeId, EdgeType};
use crate::graph::{Graph, GraphView};
use crate::interner::{Interner, resolved};
use crate::traversal::Subgraph;
use crate::collections::{set_elements, sort_desc_by_key, sorted_desc, lemma_ranked_by_key};
use crate::text::{chars_of, push_str, string_from_chars};

verus! {

broadcast use {vstd::std_specs::hash::group_hash_axioms, vstd::seq_lib::group_seq_properties};

/// Text accumulated under a token budget.
pub struct Budget {
    pub content: Seq<char>,
    pub tokens: nat,
    pub max_tokens: nat,
}

/// The token estimate of a text: a quarter of its UTF-8 length.
pub open spec fn tokens_of(text: Seq<char>) -> nat {
    ((encode_utf8(text).len() as usize) / 4) as nat
}

/// Appending `text` within the budget: refused (budget unchanged, `false`)
/// when its tokens would exceed the maximum.
pub open spec fn push_text(b: Budget, text: Seq<char>) -> (Budget, bool) {
    if b.tokens + tokens_of(text) > b.max_tokens {
        (b, false)
    } else {
        (Budget { content: b.content + text, tokens: b.tokens + tokens_of(text), max_tokens: b.max_tokens }, true)
    }
}

/// Appending under a budget: a text fits exactly when the tokens so far
/// plus its own stay within the maximum; a text that fits is appended and
/// counted, one that does not leaves the budget as it was; either way the
/// count stays within the maximum.
pub proof fn lemma_push_text(b: Budget, text: Seq<char>)
    requires
        b.tokens <= b.max_tokens,
    ensures
        push_text(b, text).1 == (b.tokens + tokens_of(text) <= b.max_tokens),
        push_text(b, text).1 ==> push_text(b, text).0.content == b.content + text
            && push_text(b, text).0.tokens == b.tokens + tokens_of(text)
            && push_text(b, text).0.max_tokens == b.max_tokens,
        !push_text(b, text).1 ==> push_text(b, text).0 == b,
        push_text(b, text).0.tokens <= push_text(b, text).0.max_tokens,
{
}

/// The heading line of a section.
pub open spec fn section_text(title: Seq<char>) -> Seq<char> {
    "\n=== "@ + title + " ===\n"@
}

/// The budget after trying to add a section heading.
pub open spec fn with_section(b: Budget, title: Seq<char>) -> Budget {
    push_text(b, section_text(title)).0
}

/// The line listing one entity.
pub open spec fn entity_line(name: Seq<char>) -> Seq<char> {
    "- "@ + name + "\n"@
}

/// Adding entity lines for the nodes of `ranked` in order, skipping nodes
/// without a name, until one does not fit; returns the budget and the
/// accepted nodes.
pub open spec fn push_entities(b: Budget, strings: Seq<Seq<char>>, ranked: Seq<NodeId>, acc: Set<NodeId>) -> (Budget, Set<NodeId>)
    decreases ranked.len(),
{
    if ranked.len() == 0 {
        (b, acc)
    } else {
        match resolved(strings, ranked[0]) {
            None => push_entities(b, strings, ranked.drop_first(), acc),
            Some(name) => {
                let (b2, ok) = push_text(b, entity_line(name));
                if ok {
                    push_entities(b2, strings, ranked.drop_first(), acc.insert(ranked[0]))
                } else {
                    (b, acc)
                }
            },
        }
    }
}

/// The upper-case verb of an edge kind.
pub open spec fn verb_of(kind: EdgeType) -> Seq<char> {
    match kind {
        EdgeType::Calls => "CALLS"@,
        EdgeType::Imports => "IMPORTS"@,
        EdgeType::Contains => "CONTAINS"@,
        EdgeType::Extends => "EXTENDS"@,
    }
}

/// The name of a node, `UNKNOWN` where it has none.
pub open spec fn name_or_unknown(strings: Seq<Seq<char>>, id: NodeId) -> Seq<char> {
    match resolved(strings, id) {
        Some(name) => name,
        None => "UNKNOWN"@,
    }
}

/// The line stating one relationship.
pub open spec fn relation_line(strings: Seq<Seq<char>>, src: NodeId, dst: NodeId, kind: EdgeType) -> Seq<char> {
    name_or_unknown(strings, src) + " ["@ + verb_of(kind) + "] "@ + name_or_unknown(strings, dst) + "\n"@
}

/// Each relationship line names the edge's own kind in capitals between
/// the two names: `CALLS`, `IMPORTS`, `CONTAINS` or `EXTENDS`.
pub proof fn lemma_relation_line(strings: Seq<Seq<char>>, src: NodeId, dst: NodeId)
    ensures
        relation_line(strings, src, dst, EdgeType::Calls)
            == name_or_unknown(strings, src) + " [CALLS] "@ + name_or_unknown(strings, dst) + "\n"@,
        relation_line(strings, src, dst, EdgeType::Imports)
            == name_or_unknown(strings, src) + " [IMPORTS] "@ + name_or_unknown(strings, dst) + "\n"@,
        relation_line(strings, src, dst, EdgeType::Contains)
            == name_or_unknown(strings, src) + " [CONTAINS] "@ + name_or_unknown(strings, dst) + "\n"@,
        relation_line(strings, src, dst, EdgeType::Extends)
            == name_or_unknown(strings, src) + " [EXTENDS] "@ + name_or_unknown(strings, dst) + "\n"@,
{
    reveal_strlit(" [");
    reveal_strlit("] ");
    reveal_strlit("CALLS");
    reveal_strlit("IMPORTS");
    reveal_strlit("CONTAINS");
    reveal_strlit("EXTENDS");
    reveal_strlit(" [CALLS] ");
    reveal_strlit(" [IMPORTS] ");
    reveal_strlit(" [CONTAINS] ");
    reveal_strlit(" [EXTENDS] ");
    let a = name_or_unknown(strings, src);
    let b = name_or_unknown(strings, dst);
    assert(a + " ["@ + "CALLS"@ + "] "@ + b + "\n"@ =~= a + " [CALLS] "@ + b + "\n"@);
    assert(a + " ["@ + "IMPORTS"@ + "] "@ + b + "\n"@ =~= a + " [IMPORTS] "@ + b + "\n"@);
    assert(a + " ["@ + "CONTAINS"@ + "] "@ + b + "\n"@ =~= a + " [CONTAINS] "@ + b + "\n"@);
    assert(a + " ["@ + "EXTENDS"@ + "] "@ + b + "\n"@ =~= a + " [EXTENDS] "@ + b + "\n"@);
}

/// Adding relationship lines for the edges between accepted nodes, in
/// order, until one does not fit.
pub open spec fn push_relations(b: Budget, strings: Seq<Seq<char>>, accepted: Set<NodeId>, edges: Seq<(NodeId, NodeId, EdgeType)>) -> Budget
    decreases edges.len(),
{
    if edges.len() == 0 {
        b
    } else {
        let (src, dst, kind) = edges[0];
        if accepted.contains(src) && accepted.contains(dst) {
            let (b2, ok) = push_text(b, relation_line(strings, src, dst, kind));
            if ok {
                push_relations(b2, strings, accepted, edges.drop_first())
            } else {
                b
            }
        } else {
            push_relations(b, strings, accepted, edges.drop_first())
        }
    }
}

/// The whole context: entities heading, entity lines, relationships
/// heading, relationship lines.
pub open spec fn rendered(b: Budget, strings: Seq<Seq<char>>, acc: Set<NodeId>, ranked: Seq<NodeId>, edges: Seq<(NodeId, NodeId, EdgeType)>) -> Seq<char> {
    let (b2, accepted) = push_entities(with_section(b, "ENTITIES"@), strings, ranked, acc);
    push_relations(with_section(b2, "RELATIONSHIPS"@), strings, accepted, edges).content
}

/// `ranked` lists the nodes of `nodes` once each, by outgoing degree, largest first.
pub open spec fn ranked_by_out_degree(g: GraphView, nodes: Set<NodeId>, ranked: Seq<NodeId>) -> bool {
    &&& ranked.no_duplicates()
    &&& ranked.to_set() == nodes
    &&& forall|a: int, b: int| 0 <= a < b < ranked.len() ==> g.out_degree_of(#[trigger] ranked[a]) >= g.out_degree_of(#[trigger] ranked[b])
}

/// Renders a subgraph as text for a language model, within a token budget
/// estimated at four bytes per token.
pub struct ContextBuilder<'a> {
    interner: &'a Interner,
    content: Vec<char>,
    tokens: usize,
    max_tokens: usize,
    accepted_nodes: HashSet<NodeId>,
}

impl<'a> ContextBuilder<'a> {
    /// The text and token count so far, and the maximum.
    pub closed spec fn budget(&self) -> Budget {
        Budget { content: self.content@, tokens: self.tokens as nat, max_tokens: self.max_tokens as nat }
    }

    /// The interned names the builder resolves nodes with.
    pub closed spec fn strings(&self) -> Seq<Seq<char>> {
        self.interner@
    }

    /// The nodes whose entity line has been added.
    pub closed spec fn accepted(&self) -> Set<NodeId> {
        self.accepted_nodes@
    }

    pub closed spec fn wf(&self) -> bool {
        self.tokens <= self.max_tokens
    }

    /// A builder with no text and a budget of `max_tokens`.
    pub fn new(interner: &'a Interner, max_tokens: usize) -> (b: Self)
        ensures
            b.wf(),
            b.budget() == (Budget { content: Seq::empty(), tokens: 0, max_tokens: max_tokens as nat }),
            b.strings() == interner@,
            b.accepted() == Set::<NodeId>::empty(),
    {
        ContextBuilder { interner, content: Vec::new(), tokens: 0, max_tokens, accepted_nodes: HashSet::new() }
    }

    /// Token estimate of a text: its byte length divided by four.
    fn estimate_tokens(text: &str) -> (t: usize)
        ensures
            t == tokens_of(text@),
    {
        text.len() / 4
    }

    /// Adds a section heading if it fits.
    pub fn add_section(&mut self, title: &str)
        requires
            old(self).wf(),
        ensures
            final(self).wf(),
            final(self).budget() == with_section(old(self).budget(), title@),
            final(self).strings() == old(self).strings(),
            final(self).accepted() == old(self).accepted(),
    {
        let mut text = chars_of("\n=== ");
        push_str(&mut text, title);
        push_str(&mut text, " ===\n");
        let text = string_from_chars(&text);
        assert(text@ =~= section_text(title@));
        self.try_push(text.as_str());
    }

    /// Appends `text` if its tokens fit in what is left of the budget.
    pub fn try_push(&mut self, text: &str) -> (ok: bool)
        requires
            old(self).wf(),
        ensures
            final(self).wf(),
            (final(self).budget(), ok) == push_text(old(self).budget(), text@),
            final(self).strings() == old(self).strings(),
            final(self).accepted() == old(self).accepted(),
    {
        let t = Self::estimate_tokens(text);
        if t > self.max_tokens - self.tokens {
            return false;
        }
        push_str(&mut self.content, text);
        self.tokens = self.tokens + t;
        true
    }

    /// Renders the subgraph: its nodes ranked by outgoing degree, each named
    /// on an entity line while the budget lasts, then each edge between
    /// accepted nodes on a relationship line while the budget lasts.
    pub fn build(self, graph: &Graph, subgraph: &Subgraph) -> (text: String)
        requires
            self.wf(),
            graph.wf(),
        ensures
            exists|ranked: Seq<NodeId>| #![auto]
                ranked_by_out_degree(graph@, subgraph.nodes@, ranked)
                && text@ == rendered(self.budget(), self.strings(), self.accepted(), ranked, subgraph.edges@),
    {
        let mut this = self;
        let ghost b0 = this.budget();
        let ghost strings = this.strings();
        let ghost acc0 = this.accepted();
        let nodes = set_elements(&subgraph.nodes);
        let mut keyed: Vec<(u64, u32)> = Vec::new();
        let mut i: usize = 0;
        while i < nodes.len()
            invariant
                i <= nodes@.len(),
                keyed@.len() == i,
                forall|j: int| 0 <= j < i ==> #[trigger] keyed@[j] == (graph@.out_degree_of(nodes@[j]), nodes@[j]),
            decreases nodes.len() - i,
        {
            let n = nodes[i];
            keyed.push((graph.out_degree(n), n));
            i += 1;
        }
        let sorted = sort_desc_by_key(&keyed);
        let mut ranked: Vec<NodeId> = Vec::new();
        let mut i: usize = 0;
        while i < sorted.len()
            invariant
                i <= sorted@.len(),
                ranked@.len() == i,
                forall|j: int| 0 <= j < i ==> #[trigger] ranked@[j] == sorted@[j].1,
            decreases sorted.len() - i,
        {
            ranked.push(sorted[i].1);
            i += 1;
        }
        proof {
            let key = |n: u32| graph@.out_degree_of(n) as int;
            assert forall|j: int| 0 <= j < nodes@.len() implies (#[trigger] keyed@[j]).1 == nodes@[j] && keyed@[j].0 == key(nodes@[j]) by {}
            lemma_ranked_by_key(key, subgraph.nodes@, nodes@, keyed@, sorted@);
            assert(ranked@ =~= sorted@.map_values(|p: (u64, u32)| p.1));
            assert(ranked_by_out_degree(graph@, subgraph.nodes@, ranked@));
        }
        this.add_section("ENTITIES");
        let ghost b1 = this.budget();
        let mut i: usize = 0;
        let mut stopped = false;
        while i < ranked.len() && !stopped
            invariant
                this.wf(),
                this.strings() == strings,
                i <= ranked@.len(),
                !stopped ==> push_entities(b1, strings, ranked@, acc0)
                    == push_entities(this.budget(), strings, ranked@.skip(i as int), this.accepted()),
                stopped ==> push_entities(b1, strings, ranked@, acc0) == (this.budget(), this.accepted()),
            decreases ranked.len() - i, (if stopped { 0int } else { 1int }),
        {
            let node = ranked[i];
            proof {
                assert(ranked@.skip(i as int).drop_first() == ranked@.skip(i + 1));
                assert(ranked@.skip(i as int)[0] == node);
            }
            match this.interner.resolve(node) {
                Some(name) => {
                    let mut line = chars_of("- ");
                    push_str(&mut line, name);
                    push_str(&mut line, "\n");
                    let line = string_from_chars(&line);
                    assert(line@ =~= entity_line(name@));
                    if this.try_push(line.as_str()) {
                        this.accepted_nodes.insert(node);
                        i += 1;
                    } else {
                        stopped = true;
                    }
                },
                None => {
                    i += 1;
                },
            }
        }
        proof {
            if !stopped {
                assert(ranked@.skip(i as int).len() == 0);
            }
        }
        let ghost accepted = this.accepted();
        this.add_section("RELATIONSHIPS");
        let ghost b3 = this.budget();
        let mut i: usize = 0;
        let mut stopped = false;
        while i < subgraph.edges.len() && !stopped
            invariant
                this.wf(),
                this.strings() == strings,
                this.accepted() == accepted,
                i <= subgraph.edges@.len(),
                !stopped ==> push_relations(b3, strings, accepted, subgraph.edges@)
                    == push_relations(this.budget(), strings, accepted, subgraph.edges@.skip(i as int)),
                stopped ==> push_relations(b3, strings, accepted, subgraph.edges@) == this.budget(),
            decreases subgraph.edges.len() - i, (if stopped { 0int } else { 1int }),
        {
            let (src, dst, kind) = subgraph.edges[i];
            proof {
                assert(subgraph.edges@.skip(i as int).drop_first() == subgraph.edges@.skip(i + 1));
                assert(subgraph.edges@.skip(i as int)[0] == (src, dst, kind));
            }
            if this.accepted_nodes.contains(&src) && this.accepted_nodes.contains(&dst) {
                let src_name = match this.interner.resolve(src) {
                    Some(s) => s,
                    None => "UNKNOWN",
                };
                let dst_name = match this.interner.resolve(dst) {
                    Some(s) => s,
                    None => "UNKNOWN",
                };
                let verb = match kind {
                    EdgeType::Calls => "CALLS",
                    EdgeType::Imports => "IMPORTS",
                    EdgeType::Contains => "CONTAINS",
                    EdgeType::Extends => "EXTENDS",
                };
                let mut line = chars_of(src_name);
                push_str(&mut line, " [");
                push_str(&mut line, verb);
                push_str(&mut line, "] ");
                push_str(&mut line, dst_name);
                push_str(&mut line, "\n");
                let line = string_from_chars(&line);
                assert(src_name@ == name_or_unknown(strings, src));
                assert(dst_name@ == name_or_unknown(strings, dst));
                assert(verb@ == verb_of(kind));
                assert(line@ =~= relation_line(strings, src, dst, kind));
                if this.try_push(line.as_str()) {
                    i += 1;
                } else {
                    stopped = true;
                }
            } else {
                i += 1;
            }
        }
        proof {
            if !stopped {
                assert(subgraph.edges@.skip(i as int).len() == 0);
            }
            assert(this.content@ == rendered(b0, strings, acc0, ranked@, subgraph.edges@));
        }
        string_from_chars(&this.content)
    }
}

} // verus!

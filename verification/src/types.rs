use vstd::prelude::*;

verus! {

/// Identifier of a node in the code graph (an interned name).
pub type NodeId = u32;

/// Identifier of an interned string.
pub type StringId = u32;

/// What a node of the code graph stands for.
#[derive(Debug, Clone, Copy, PartialEq, Eq, Hash, Structural)]
pub enum NodeType {
    File,
    Function,
    Class,
}

/// The relation an edge of the code graph records.
#[derive(Debug, Clone, Copy, PartialEq, Eq, Hash, PartialOrd, Ord, Structural)]
pub enum EdgeType {
    Calls,
    Imports,
    Contains,
    Extends,
}

/// Position of an edge kind in the declaration order of `EdgeType`.
pub open spec fn kind_index(kind: EdgeType) -> u64 {
    match kind {
        EdgeType::Calls => 0,
        EdgeType::Imports => 1,
        EdgeType::Contains => 2,
        EdgeType::Extends => 3,
    }
}

/// The edge kind at a position of the declaration order (positions taken modulo 4).
pub open spec fn kind_at(index: u64) -> EdgeType {
    if index % 4 == 0 {
        EdgeType::Calls
    } else if index % 4 == 1 {
        EdgeType::Imports
    } else if index % 4 == 2 {
        EdgeType::Contains
    } else {
        EdgeType::Extends
    }
}

/// Exclusive bound of the codes that `edge_code` produces.
pub open spec fn code_bound() -> u64 {
    0x4_0000_0000u64
}

/// A half-edge `(endpoint, kind)` packed into one integer: the endpoint
/// times four plus the kind's position.
pub open spec fn edge_code(endpoint: NodeId, kind: EdgeType) -> u64 {
    (endpoint as u64 * 4 + kind_index(kind)) as u64
}

/// The endpoint packed in a code.
pub open spec fn code_endpoint(code: u64) -> NodeId {
    (code / 4) as NodeId
}

/// The edge kind packed in a code.
pub open spec fn code_kind(code: u64) -> EdgeType {
    kind_at(code % 4)
}

/// Packing and unpacking are inverse on the codes below `code_bound()`.
pub proof fn lemma_edge_code(endpoint: NodeId, kind: EdgeType)
    ensures
        edge_code(endpoint, kind) < code_bound(),
        code_endpoint(edge_code(endpoint, kind)) == endpoint,
        code_kind(edge_code(endpoint, kind)) == kind,
{
}

/// Every code below the bound is the packing of its own endpoint and kind.
pub proof fn lemma_code_roundtrip(code: u64)
    requires
        code < code_bound(),
    ensures
        edge_code(code_endpoint(code), code_kind(code)) == code,
{
}

/// Packing is injective.
pub proof fn lemma_edge_code_injective(a: NodeId, ka: EdgeType, b: NodeId, kb: EdgeType)
    ensures
        edge_code(a, ka) == edge_code(b, kb) <==> (a == b && ka == kb),
{
    lemma_edge_code(a, ka);
    lemma_edge_code(b, kb);
}

/// Packs a half-edge into its code.
pub fn encode_edge(endpoint: NodeId, kind: EdgeType) -> (code: u64)
    ensures
        code == edge_code(endpoint, kind),
        code < code_bound(),
{
    let k: u64 = match kind {
        EdgeType::Calls => 0,
        EdgeType::Imports => 1,
        EdgeType::Contains => 2,
        EdgeType::Extends => 3,
    };
    (endpoint as u64) * 4 + k
}

/// Unpacks a code into its endpoint and kind.
pub fn decode_edge(code: u64) -> (half: (NodeId, EdgeType))
    requires
        code < code_bound(),
    ensures
        half.0 == code_endpoint(code),
        half.1 == code_kind(code),
        edge_code(half.0, half.1) == code,
{
    let r = code % 4;
    let kind = if r == 0 {
        EdgeType::Calls
    } else if r == 1 {
        EdgeType::Imports
    } else if r == 2 {
        EdgeType::Contains
    } else {
        EdgeType::Extends
    };
    ((code / 4) as NodeId, kind)
}

/// A node as it is sent to the front end.
pub struct NodePayload {
    pub id: u32,
    pub label: String,
}

/// An edge as it is sent to the front end.
pub struct EdgePayload {
    pub source: u32,
    pub target: u32,
    pub kind: String,
}

/// A whole graph as it is sent to the front end.
pub struct GraphPayload {
    pub nodes: Vec<NodePayload>,
    pub edges: Vec<EdgePayload>,
}

} // verus!

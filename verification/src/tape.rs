//! The tape: a document flattened into a sequence of nodes in pre-order.
//!
//! A container node records how many entries it holds (`len`, counting an
//! object's key and value as one entry) and how many nodes follow it that
//! belong to it (`count`).
use vstd::prelude::*;
use vstd::std_specs::cmp::PartialEqSpecImpl;
use vstd::utf8::encode_utf8;

verus! {

/// A scalar value.
#[derive(Debug, Clone)]
pub enum StaticNode {
    Null,
    Bool(bool),
    I64(i64),
    U64(u64),
    /// A number with a fraction or an exponent, or one too large for 64 bits,
    /// kept as the text it was written as.
    Float(String),
}

/// One slot of a tape.
#[derive(Debug, PartialEq, Clone)]
pub enum Node {
    String(String),
    Object { len: usize, count: usize },
    Array { len: usize, count: usize },
    Static(StaticNode),
}

/// The mathematical content of a node: strings by their UTF-8 bytes and both
/// integer kinds by their value, so that `I64(1)` and `U64(1)` are the same.
pub enum NodeView {
    Str(Seq<u8>),
    Object { len: nat, count: nat },
    Array { len: nat, count: nat },
    Null,
    Bool(bool),
    Int(int),
    Float(Seq<u8>),
}

impl View for StaticNode {
    type V = NodeView;

    open spec fn view(&self) -> NodeView {
        match self {
            StaticNode::Null => NodeView::Null,
            StaticNode::Bool(b) => NodeView::Bool(*b),
            StaticNode::I64(i) => NodeView::Int(*i as int),
            StaticNode::U64(u) => NodeView::Int(*u as int),
            StaticNode::Float(s) => NodeView::Float(encode_utf8(s@)),
        }
    }
}

/// An integer node keeps the kind of its token: a signed `I64` only for a
/// token with a minus sign, so it never holds a positive number.
pub open spec fn int_kind_ok(n: Node) -> bool {
    match n {
        Node::Static(StaticNode::I64(v)) => v <= 0,
        _ => true,
    }
}

/// Every integer node of a tape keeps the kind of its token.
#[verifier::opaque]
pub open spec fn int_kinds(t: Seq<Node>) -> bool {
    forall|k: int| 0 <= k < t.len() ==> int_kind_ok(#[trigger] t[k])
}

/// Adding or setting a node that keeps its kind keeps every node's kind.
pub proof fn lemma_int_kinds_change(t: Seq<Node>, k: int, n: Node)
    requires
        int_kinds(t),
        int_kind_ok(n),
        0 <= k <= t.len(),
    ensures
        int_kinds(if k == t.len() {
            t.push(n)
        } else {
            t.update(k, n)
        }),
{
    reveal(int_kinds);
}

/// A tape with no nodes has no integer of the wrong kind.
pub proof fn lemma_int_kinds_empty()
    ensures
        int_kinds(Seq::<Node>::empty()),
{
    reveal(int_kinds);
}

impl View for Node {
    type V = NodeView;

    open spec fn view(&self) -> NodeView {
        match self {
            Node::String(s) => NodeView::Str(encode_utf8(s@)),
            Node::Object { len, count } => NodeView::Object { len: *len as nat, count: *count as nat },
            Node::Array { len, count } => NodeView::Array { len: *len as nat, count: *count as nat },
            Node::Static(s) => s@,
        }
    }
}

impl PartialEq for StaticNode {
    /// Scalars compare by value: an integer is the same whichever of the two
    /// integer kinds holds it, and a number kept as text by its text.
    fn eq(&self, other: &StaticNode) -> (r: bool) {
        match (self, other) {
            (StaticNode::Null, StaticNode::Null) => true,
            (StaticNode::Bool(a), StaticNode::Bool(b)) => *a == *b,
            (StaticNode::I64(a), StaticNode::I64(b)) => *a == *b,
            (StaticNode::U64(a), StaticNode::U64(b)) => *a == *b,
            (StaticNode::I64(a), StaticNode::U64(b)) => *a >= 0 && *a as u64 == *b,
            (StaticNode::U64(a), StaticNode::I64(b)) => *b >= 0 && *b as u64 == *a,
            (StaticNode::Float(a), StaticNode::Float(b)) => {
                proof {
                    vstd::utf8::encode_utf8_decode_utf8(a@);
                    vstd::utf8::encode_utf8_decode_utf8(b@);
                }
                a.eq(b)
            },
            _ => false,
        }
    }
}

impl PartialEqSpecImpl for StaticNode {
    open spec fn obeys_eq_spec() -> bool {
        true
    }

    open spec fn eq_spec(&self, other: &StaticNode) -> bool {
        self@ == other@
    }
}

/// The views of the nodes of a tape.
pub open spec fn tape_view(t: Seq<Node>) -> Seq<NodeView> {
    t.map_values(|n: Node| n@)
}

} // verus!

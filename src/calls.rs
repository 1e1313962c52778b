//! The calls that building a typed value makes on its construction
//! protocol, and the order in which a tree asks for them.
use vstd::prelude::*;
use crate::tree::{Node, Number};

verus! {

/// One call on the construction protocol. The leaf calls and the two
/// `Begin` calls go to the current visitor; `Element`, `Key` and `Finish`
/// go to the innermost open builder.
#[derive(Clone, Debug)]
pub enum Call {
    Null,
    Boolean(bool),
    String(String),
    /// A non-negative integer.
    Nonnegative(u64),
    /// A negative integer.
    Negative(i64),
    /// A floating-point number, as its IEEE-754 bit pattern.
    Float(u64),
    /// Opens a sequence builder.
    BeginSeq,
    /// Opens a mapping builder.
    BeginMap,
    /// Asks the innermost sequence builder for the visitor of its next element.
    Element,
    /// Asks the innermost mapping builder for the visitor of the entry with this key.
    Key(String),
    /// Closes the innermost builder.
    Finish,
}

/// The call that asks a container for the visitor of its child `p`.
pub open spec fn child_request(n: Node, p: int) -> Call {
    match n {
        Node::Object(es) => Call::Key(es@[p].0),
        _ => Call::Element,
    }
}

/// All calls that converting node `i` makes, in order: depth first, each
/// container opened, its children requested and converted one after the
/// other, then closed.
pub open spec fn node_calls(nodes: Seq<Node>, i: int) -> Seq<Call>
    decreases nodes.len() - i, nodes[i].width() + 1,
{
    if 0 <= i < nodes.len() {
        match nodes[i] {
            Node::Array(_) => seq![Call::BeginSeq] + rest_calls(nodes, i, 0),
            Node::Object(_) => seq![Call::BeginMap] + rest_calls(nodes, i, 0),
            Node::Null => seq![Call::Null],
            Node::Bool(b) => seq![Call::Boolean(b)],
            Node::String(s) => seq![Call::String(s)],
            Node::Number(Number::U64(v)) => seq![Call::Nonnegative(v)],
            Node::Number(Number::I64(v)) => seq![Call::Negative(v)],
            Node::Number(Number::F64(v)) => seq![Call::Float(v)],
        }
    } else {
        seq![]
    }
}

/// The calls that container `i` still makes once its children before `p`
/// are done: each remaining child requested and converted, then `Finish`.
pub open spec fn rest_calls(nodes: Seq<Node>, i: int, p: int) -> Seq<Call>
    decreases nodes.len() - i, nodes[i].width() - p,
{
    if 0 <= i < nodes.len() && 0 <= p < nodes[i].width() {
        let c = nodes[i].child(p);
        let sub = if i < c < nodes.len() {
            node_calls(nodes, c)
        } else {
            seq![]
        };
        seq![child_request(nodes[i], p)] + sub + rest_calls(nodes, i, p + 1)
    } else {
        seq![Call::Finish]
    }
}

} // verus!

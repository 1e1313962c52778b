//! The traversal engine: a work stack of pending frames that yields the
//! protocol calls of a tree one at a time, never recursing.
use vstd::prelude::*;
use crate::calls::{Call, node_calls, rest_calls, child_request};
use crate::tree::{Node, Number, Tree, children_after};

verus! {

/// One unit of pending work.
#[derive(Clone, Copy)]
enum Frame {
    /// Convert node `i` with the current visitor.
    Visit(usize),
    /// Container `i` continues with its child at position `p`.
    Rest(usize, usize),
}

/// The calls that a frame still stands for.
spec fn frame_calls(nodes: Seq<Node>, f: Frame) -> Seq<Call> {
    match f {
        Frame::Visit(i) => node_calls(nodes, i as int),
        Frame::Rest(i, p) => rest_calls(nodes, i as int, p as int),
    }
}

/// The calls that a stack stands for: the top frame's first.
spec fn stack_calls(nodes: Seq<Node>, s: Seq<Frame>) -> Seq<Call>
    decreases s.len(),
{
    if s.len() == 0 {
        seq![]
    } else {
        frame_calls(nodes, s.last()) + stack_calls(nodes, s.drop_last())
    }
}

spec fn frame_ok(nodes: Seq<Node>, f: Frame) -> bool {
    match f {
        Frame::Visit(i) => i < nodes.len(),
        Frame::Rest(i, p) => i < nodes.len() && (nodes[i as int] is Array || nodes[i as int] is Object)
            && p <= nodes[i as int].width(),
    }
}

/// Drives the conversion of one tree. Each call of `next` pops one frame,
/// pushes at most two, and returns the next protocol call.
pub struct Driver {
    tree: Tree,
    stack: Vec<Frame>,
}

impl Driver {
    /// The calls still to come, in order.
    pub closed spec fn pending(&self) -> Seq<Call> {
        stack_calls(self.tree.nodes@, self.stack@)
    }

    pub closed spec fn inv(&self) -> bool {
        &&& self.tree.wf()
        &&& forall|k: int| 0 <= k < self.stack@.len() ==> frame_ok(self.tree.nodes@, #[trigger] self.stack@[k])
    }

    /// Starts the conversion of `tree` from its root, or refuses a tree
    /// that is not well formed.
    pub fn new(tree: Tree) -> (r: Option<Driver>)
        ensures
            r is Some <==> tree.wf(),
            r matches Some(d) ==> d.inv() && d.pending() == node_calls(tree.nodes@, 0),
    {
        if !tree.is_well_formed() {
            return None;
        }
        let mut stack: Vec<Frame> = Vec::new();
        stack.push(Frame::Visit(0));
        let d = Driver { tree, stack };
        proof {
            assert(d.stack@.drop_last() =~= Seq::<Frame>::empty());
            assert(stack_calls(d.tree.nodes@, Seq::<Frame>::empty()) == Seq::<Call>::empty());
            assert(d.pending() =~= node_calls(d.tree.nodes@, 0));
        }
        Some(d)
    }

    /// Whether all calls have been handed out.
    pub fn is_done(&self) -> (r: bool)
        requires
            self.inv(),
        ensures
            r == (self.pending().len() == 0),
    {
        proof {
            if self.stack@.len() > 0 {
                lemma_frame_calls_nonempty(self.tree.nodes@, self.stack@.last());
            }
        }
        self.stack.len() == 0
    }

    /// Hands out the next call, or `None` once the conversion is complete.
    pub fn next(&mut self) -> (r: Option<Call>)
        requires
            old(self).inv(),
        ensures
            final(self).inv(),
            old(self).pending().len() == 0 ==> r is None && final(self).pending() == old(self).pending(),
            old(self).pending().len() > 0 ==> r == Some(old(self).pending()[0])
                && final(self).pending() == old(self).pending().drop_first(),
    {
        let ghost nodes = self.tree.nodes@;
        let ghost s0 = self.stack@;
        proof {
            if s0.len() > 0 {
                lemma_frame_calls_nonempty(nodes, s0.last());
                assert(frame_ok(nodes, s0[s0.len() - 1]));
            }
        }
        let f = match self.stack.pop() {
            None => { return None; },
            Some(f) => f,
        };
        let ghost rest = self.stack@;
        assert(rest == s0.drop_last());
        assert(forall|k: int| 0 <= k < rest.len() ==> rest[k] == s0[k]);
        match f {
            Frame::Visit(i) => {
                let call = match &self.tree.nodes[i] {
                    Node::Null => Call::Null,
                    Node::Bool(b) => Call::Boolean(*b),
                    Node::String(s) => Call::String(s.clone()),
                    Node::Number(Number::U64(v)) => Call::Nonnegative(*v),
                    Node::Number(Number::I64(v)) => Call::Negative(*v),
                    Node::Number(Number::F64(v)) => Call::Float(*v),
                    Node::Array(_) => Call::BeginSeq,
                    Node::Object(_) => Call::BeginMap,
                };
                if matches!(call, Call::BeginSeq) || matches!(call, Call::BeginMap) {
                    self.stack.push(Frame::Rest(i, 0));
                    proof {
                        assert(self.stack@.drop_last() == rest);
                        assert(self.pending() =~= old(self).pending().drop_first());
                    }
                } else {
                    proof {
                        assert(self.pending() =~= old(self).pending().drop_first());
                    }
                }
                Some(call)
            },
            Frame::Rest(i, p) => {
                let (more, call, c) = match &self.tree.nodes[i] {
                    Node::Array(cs) => if p < cs.len() {
                        (true, Call::Element, cs[p])
                    } else {
                        (false, Call::Finish, 0)
                    },
                    Node::Object(es) => if p < es.len() {
                        (true, Call::Key(es[p].0.clone()), es[p].1)
                    } else {
                        (false, Call::Finish, 0)
                    },
                    _ => (false, Call::Finish, 0),
                };
                if more {
                    proof {
                        assert(children_after(nodes, i as int));
                        assert(nodes[i as int].child(p as int) == c);
                        assert(call == child_request(nodes[i as int], p as int));
                    }
                    self.stack.push(Frame::Rest(i, p + 1));
                    let ghost mid = self.stack@;
                    self.stack.push(Frame::Visit(c));
                    proof {
                        assert(mid.drop_last() == rest);
                        assert(self.stack@.drop_last() == mid);
                        assert(i < c < nodes.len());
                        assert(rest_calls(nodes, i as int, p as int) == seq![call] + node_calls(nodes, c as int)
                            + rest_calls(nodes, i as int, p + 1));
                        assert(old(self).pending() == rest_calls(nodes, i as int, p as int) + stack_calls(nodes, rest));
                        assert(stack_calls(nodes, mid) == rest_calls(nodes, i as int, p + 1) + stack_calls(nodes, rest));
                        assert(self.pending() == node_calls(nodes, c as int) + stack_calls(nodes, mid));
                        assert(self.pending() =~= old(self).pending().drop_first());
                    }
                } else {
                    proof {
                        assert(frame_ok(nodes, f));
                        assert(p as int >= nodes[i as int].width());
                        assert(call == Call::Finish);
                        assert(rest_calls(nodes, i as int, p as int) == seq![Call::Finish]);
                        assert(self.pending() =~= old(self).pending().drop_first());
                    }
                }
                Some(call)
            },
        }
    }
}

/// Runs a driver over `tree` to the end and collects every call it hands
/// out: `None` for a tree that is not well formed.
pub fn calls_of(tree: Tree) -> (r: Option<Vec<Call>>)
    ensures
        r is Some <==> tree.wf(),
        r matches Some(v) ==> v@ == node_calls(tree.nodes@, 0),
{
    let mut d = match Driver::new(tree) {
        None => {
            return None;
        },
        Some(d) => d,
    };
    let ghost all = d.pending();
    let mut out: Vec<Call> = Vec::new();
    loop
        invariant
            d.inv(),
            out@ + d.pending() == all,
        ensures
            out@ == all,
        decreases d.pending().len(),
    {
        let ghost before = d.pending();
        match d.next() {
            None => {
                assert(out@ + before =~= out@);
                break;
            },
            Some(c) => {
                out.push(c);
                assert(out@ + d.pending() =~= all);
            },
        }
    }
    Some(out)
}

/// A frame that fits the tree stands for at least one call.
proof fn lemma_frame_calls_nonempty(nodes: Seq<Node>, f: Frame)
    requires
        frame_ok(nodes, f),
    ensures
        frame_calls(nodes, f).len() > 0,
{
    match f {
        Frame::Visit(i) => {
            assert(node_calls(nodes, i as int).len() > 0);
        },
        Frame::Rest(i, p) => {
            assert(rest_calls(nodes, i as int, p as int).len() > 0);
        },
    }
}

} // verus!

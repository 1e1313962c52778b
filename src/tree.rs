//! The generic value tree, held as a flat list of nodes.
use vstd::prelude::*;

verus! {

/// A number as the tree holds it.
#[derive(Clone, Copy, Debug, PartialEq, Eq, Structural)]
pub enum Number {
    /// A non-negative integer.
    U64(u64),
    /// A negative integer.
    I64(i64),
    /// A floating-point number, as its IEEE-754 bit pattern.
    F64(u64),
}

/// One node of the tree. Containers name their children by index.
#[derive(Clone, Debug)]
pub enum Node {
    Null,
    Bool(bool),
    String(String),
    Number(Number),
    /// The indices of the elements, in order.
    Array(Vec<usize>),
    /// The entries, in iteration order: a key and the index of its value.
    Object(Vec<(String, usize)>),
}

/// A value tree: `nodes[0]` is the root, and every child stands after its
/// parent, which makes the tree finite and free of cycles.
#[derive(Clone, Debug)]
pub struct Tree {
    pub nodes: Vec<Node>,
}

impl Node {
    /// How many children the node has.
    pub open spec fn width(self) -> nat {
        match self {
            Node::Array(cs) => cs@.len(),
            Node::Object(es) => es@.len(),
            _ => 0,
        }
    }

    /// The index of child `k`.
    pub open spec fn child(self, k: int) -> int {
        match self {
            Node::Array(cs) => cs@[k] as int,
            Node::Object(es) => es@[k].1 as int,
            _ => -1,
        }
    }
}

/// Each child of node `i` lies after it and inside the list.
pub open spec fn children_after(nodes: Seq<Node>, i: int) -> bool {
    forall|k: int| 0 <= k < nodes[i].width() ==> i < #[trigger] nodes[i].child(k) < nodes.len()
}

impl Tree {
    pub open spec fn wf(&self) -> bool {
        &&& self.nodes@.len() > 0
        &&& forall|i: int| 0 <= i < self.nodes@.len() ==> children_after(self.nodes@, i)
    }

    /// Tells whether the tree is well formed: it has a root, and every
    /// child index points past its parent and into the list.
    pub fn is_well_formed(&self) -> (r: bool)
        ensures
            r == self.wf(),
    {
        let n = self.nodes.len();
        if n == 0 {
            return false;
        }
        let mut i: usize = 0;
        while i < n
            invariant
                n == self.nodes@.len(),
                i <= n,
                forall|j: int| 0 <= j < i ==> children_after(self.nodes@, j),
            decreases n - i,
        {
            let ok = match &self.nodes[i] {
                Node::Array(cs) => {
                    let mut k: usize = 0;
                    let mut good = true;
                    while k < cs.len()
                        invariant
                            i < n,
                            self.nodes@[i as int] == Node::Array(*cs),
                            n == self.nodes@.len(),
                            k <= cs@.len(),
                            good == (forall|m: int| 0 <= m < k ==> i < #[trigger] cs@[m] < n),
                        decreases cs@.len() - k,
                    {
                        if !(i < cs[k] && cs[k] < n) {
                            good = false;
                        }
                        k += 1;
                    }
                    proof {
                        if !good {
                            let m = choose|m: int| 0 <= m < cs@.len() && !(i < #[trigger] cs@[m] < n);
                            assert(self.nodes@[i as int].child(m) == cs@[m]);
                        } else {
                            assert forall|m: int| 0 <= m < self.nodes@[i as int].width() implies i
                                < #[trigger] self.nodes@[i as int].child(m) < n by {
                                assert(cs@[m] == self.nodes@[i as int].child(m));
                            }
                        }
                    }
                    good
                },
                Node::Object(es) => {
                    let mut k: usize = 0;
                    let mut good = true;
                    while k < es.len()
                        invariant
                            i < n,
                            self.nodes@[i as int] == Node::Object(*es),
                            n == self.nodes@.len(),
                            k <= es@.len(),
                            good == (forall|m: int| 0 <= m < k ==> i < #[trigger] es@[m].1 < n),
                        decreases es@.len() - k,
                    {
                        if !(i < es[k].1 && es[k].1 < n) {
                            good = false;
                        }
                        k += 1;
                    }
                    proof {
                        if !good {
                            let m = choose|m: int| 0 <= m < es@.len() && !(i < #[trigger] es@[m].1 < n);
                            assert(self.nodes@[i as int].child(m) == es@[m].1);
                        } else {
                            assert forall|m: int| 0 <= m < self.nodes@[i as int].width() implies i
                                < #[trigger] self.nodes@[i as int].child(m) < n by {
                                assert(es@[m].1 == self.nodes@[i as int].child(m));
                            }
                        }
                    }
                    good
                },
                _ => true,
            };
            assert(ok == children_after(self.nodes@, i as int));
            if !ok {
                return false;
            }
            i += 1;
        }
        true
    }
}

} // verus!

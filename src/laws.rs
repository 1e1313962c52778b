//! Facts about the order in which a tree's calls come.
use vstd::prelude::*;
use crate::calls::{Call, node_calls, rest_calls, child_request};
use crate::tree::{Node, Number, Tree, children_after};

verus! {

/// The calls for the children `lo..hi` of container `i`: for each, its
/// request, then its own calls.
pub open spec fn children_calls(nodes: Seq<Node>, i: int, lo: int, hi: int) -> Seq<Call>
    decreases hi - lo,
{
    if lo >= hi {
        seq![]
    } else {
        seq![child_request(nodes[i], lo)] + node_calls(nodes, nodes[i].child(lo))
            + children_calls(nodes, i, lo + 1, hi)
    }
}

/// Where, among the calls of container `i`, child `k` is requested.
pub open spec fn request_position(nodes: Seq<Node>, i: int, k: int) -> int {
    1 + children_calls(nodes, i, 0, k).len() as int
}

proof fn lemma_rest_is_children(t: Tree, i: int, p: int)
    requires
        t.wf(),
        0 <= i < t.nodes@.len(),
        0 <= p <= t.nodes@[i].width(),
    ensures
        rest_calls(t.nodes@, i, p) == children_calls(t.nodes@, i, p, t.nodes@[i].width() as int)
            + seq![Call::Finish],
    decreases t.nodes@[i].width() - p,
{
    let nodes = t.nodes@;
    let w = nodes[i].width() as int;
    if p < w {
        lemma_rest_is_children(t, i, p + 1);
        assert(children_after(nodes, i));
        assert(i < nodes[i].child(p) < nodes.len());
        assert(rest_calls(nodes, i, p) =~= children_calls(nodes, i, p, w) + seq![Call::Finish]);
    } else {
        assert(children_calls(nodes, i, p, w) =~= Seq::<Call>::empty());
        assert(rest_calls(nodes, i, p) =~= children_calls(nodes, i, p, w) + seq![Call::Finish]);
    }
}

proof fn lemma_children_split(nodes: Seq<Node>, i: int, lo: int, mid: int, hi: int)
    requires
        lo <= mid <= hi,
    ensures
        children_calls(nodes, i, lo, hi) == children_calls(nodes, i, lo, mid) + children_calls(nodes, i, mid, hi),
    decreases mid - lo,
{
    if lo < mid {
        lemma_children_split(nodes, i, lo + 1, mid, hi);
        assert(children_calls(nodes, i, lo, hi) =~= children_calls(nodes, i, lo, mid) + children_calls(nodes, i, mid, hi));
    } else {
        assert(children_calls(nodes, i, lo, hi) =~= children_calls(nodes, i, lo, mid) + children_calls(nodes, i, mid, hi));
    }
}

/// Children are converted one after the other, in their order: the calls of
/// a container are its opening, the calls of the children before `k`, the
/// request for child `k` and its calls, those of the children after it,
/// and `Finish`. So a conversion that stops at a failure inside child `k`
/// has made no call for any child after `k`.
pub proof fn lemma_children_one_at_a_time(t: Tree, i: int, k: int)
    requires
        t.wf(),
        0 <= i < t.nodes@.len(),
        t.nodes@[i] is Array || t.nodes@[i] is Object,
        0 <= k < t.nodes@[i].width(),
    ensures
        node_calls(t.nodes@, i) == seq![node_calls(t.nodes@, i)[0]] + children_calls(t.nodes@, i, 0, k)
            + seq![child_request(t.nodes@[i], k)] + node_calls(t.nodes@, t.nodes@[i].child(k))
            + children_calls(t.nodes@, i, k + 1, t.nodes@[i].width() as int) + seq![Call::Finish],
        t.nodes@[i] is Array ==> node_calls(t.nodes@, i)[0] == Call::BeginSeq,
        t.nodes@[i] is Object ==> node_calls(t.nodes@, i)[0] == Call::BeginMap,
{
    let nodes = t.nodes@;
    let w = nodes[i].width() as int;
    lemma_rest_is_children(t, i, 0);
    lemma_children_split(nodes, i, 0, k, w);
    assert(children_calls(nodes, i, k, w) =~= seq![child_request(nodes[i], k)] + node_calls(nodes, nodes[i].child(k))
        + children_calls(nodes, i, k + 1, w));
    assert(node_calls(nodes, i) =~= seq![node_calls(nodes, i)[0]] + children_calls(nodes, i, 0, k)
        + seq![child_request(nodes[i], k)] + node_calls(nodes, nodes[i].child(k))
        + children_calls(nodes, i, k + 1, w) + seq![Call::Finish]);
}

/// The entries of an object are requested in the object's own iteration
/// order: entry `j` is asked for by its key, and before every later entry.
pub proof fn lemma_entries_in_order(t: Tree, i: int, j: int, k: int)
    requires
        t.wf(),
        0 <= i < t.nodes@.len(),
        t.nodes@[i] is Object,
        0 <= j < k < t.nodes@[i].width(),
    ensures
        request_position(t.nodes@, i, j) < request_position(t.nodes@, i, k),
        node_calls(t.nodes@, i)[request_position(t.nodes@, i, j)] == Call::Key(t.nodes@[i]->Object_0@[j].0),
        node_calls(t.nodes@, i)[request_position(t.nodes@, i, k)] == Call::Key(t.nodes@[i]->Object_0@[k].0),
{
    let nodes = t.nodes@;
    lemma_children_one_at_a_time(t, i, j);
    lemma_children_one_at_a_time(t, i, k);
    lemma_children_split(nodes, i, 0, j, k);
    assert(children_calls(nodes, i, j, k).len() > 0);
}

/// A number is handed on by the call for its kind: a non-negative integer
/// to the unsigned acceptor, a negative one to the signed acceptor, a float
/// to the floating-point acceptor.
pub proof fn lemma_number_dispatch(t: Tree, i: int)
    requires
        0 <= i < t.nodes@.len(),
        t.nodes@[i] is Number,
    ensures
        t.nodes@[i] matches Node::Number(Number::U64(v)) ==> node_calls(t.nodes@, i) == seq![Call::Nonnegative(v)],
        t.nodes@[i] matches Node::Number(Number::I64(v)) ==> node_calls(t.nodes@, i) == seq![Call::Negative(v)],
        t.nodes@[i] matches Node::Number(Number::F64(v)) ==> node_calls(t.nodes@, i) == seq![Call::Float(v)],
{
}

/// `n` copies of `s`, one after the other.
pub open spec fn repeat(s: Seq<Call>, n: nat) -> Seq<Call>
    decreases n,
{
    if n == 0 {
        seq![]
    } else {
        s + repeat(s, (n - 1) as nat)
    }
}

/// The tree of `d + 1` arrays, each of the first `d` holding the next as its
/// only element, the last one empty.
pub open spec fn nested_arrays(nodes: Seq<Node>, d: nat) -> bool {
    &&& nodes.len() == d + 1
    &&& forall|k: int|
        0 <= k < d ==> #[trigger] nodes[k] == Node::Array(nodes[k]->Array_0) && nodes[k]->Array_0@.len() == 1
            && nodes[k]->Array_0@[0] == k + 1
    &&& nodes[d as int] is Array
    &&& nodes[d as int]->Array_0@.len() == 0
}

proof fn lemma_repeat_back(s: Seq<Call>, n: nat)
    ensures
        repeat(s, n) + s == repeat(s, n + 1),
    decreases n,
{
    if n > 0 {
        lemma_repeat_back(s, (n - 1) as nat);
        assert(repeat(s, n) + s =~= s + (repeat(s, (n - 1) as nat) + s));
    } else {
        assert(repeat(s, 0) + s =~= s + repeat(s, 0));
    }
}

proof fn lemma_nested_from(t: Tree, d: nat, k: nat)
    requires
        nested_arrays(t.nodes@, d),
        k <= d,
    ensures
        node_calls(t.nodes@, k as int) == repeat(seq![Call::BeginSeq, Call::Element], (d - k) as nat)
            + seq![Call::BeginSeq] + repeat(seq![Call::Finish], (d - k + 1) as nat),
    decreases d - k,
{
    let nodes = t.nodes@;
    let open = seq![Call::BeginSeq, Call::Element];
    let close = seq![Call::Finish];
    if k == d {
        assert(rest_calls(nodes, k as int, 0) == close);
        assert(repeat(close, 1) =~= close);
        assert(node_calls(nodes, k as int) =~= repeat(open, 0) + seq![Call::BeginSeq] + repeat(close, 1));
    } else {
        lemma_nested_from(t, d, k + 1);
        let n = (d - k - 1) as nat;
        assert(nodes[k as int] == Node::Array(nodes[k as int]->Array_0));
        assert(nodes[k as int].child(0) == k + 1);
        assert(rest_calls(nodes, k as int, 1) == close);
        assert(rest_calls(nodes, k as int, 0) == seq![Call::Element] + node_calls(nodes, k + 1 as int) + close);
        lemma_repeat_back(close, n + 1);
        assert(node_calls(nodes, k as int) =~= open + repeat(open, n) + seq![Call::BeginSeq] + (repeat(close, n + 1)
            + close));
        assert(repeat(open, n + 1) == open + repeat(open, n));
        assert(node_calls(nodes, k as int) =~= repeat(open, n + 1) + seq![Call::BeginSeq] + repeat(close, n + 2));
    }
}

/// Nesting depth costs nothing but calls: arrays nested `d` deep, for any
/// `d`, are converted by `d` times opening a sequence and requesting its
/// element, opening the innermost, and closing all `d + 1`.
pub proof fn lemma_nested_arrays(t: Tree, d: nat)
    requires
        nested_arrays(t.nodes@, d),
    ensures
        node_calls(t.nodes@, 0) == repeat(seq![Call::BeginSeq, Call::Element], d) + seq![Call::BeginSeq]
            + repeat(seq![Call::Finish], d + 1),
{
    lemma_nested_from(t, d, 0);
}

} // verus!

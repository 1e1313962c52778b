use value_walk::calls::Call;
use value_walk::driver::{calls_of, Driver};
use value_walk::tree::{Node, Number, Tree};

/// Builds a tree in pre-order from a compact description.
enum V {
    Null,
    B(bool),
    S(&'static str),
    U(u64),
    I(i64),
    F(f64),
    A(Vec<V>),
    O(Vec<(&'static str, V)>),
}

fn tree_of(v: V) -> Tree {
    let mut nodes: Vec<Node> = vec![Node::Null];
    let mut work: Vec<(V, usize)> = vec![(v, 0)];
    while let Some((v, at)) = work.pop() {
        nodes[at] = match v {
            V::Null => Node::Null,
            V::B(b) => Node::Bool(b),
            V::S(s) => Node::String(s.to_string()),
            V::U(n) => Node::Number(Number::U64(n)),
            V::I(n) => Node::Number(Number::I64(n)),
            V::F(x) => Node::Number(Number::F64(x.to_bits())),
            V::A(items) => {
                let mut idx = Vec::new();
                for item in items {
                    nodes.push(Node::Null);
                    idx.push(nodes.len() - 1);
                    work.push((item, nodes.len() - 1));
                }
                Node::Array(idx)
            }
            V::O(entries) => {
                let mut es = Vec::new();
                for (k, item) in entries {
                    nodes.push(Node::Null);
                    es.push((k.to_string(), nodes.len() - 1));
                    work.push((item, nodes.len() - 1));
                }
                Node::Object(es)
            }
        };
    }
    Tree { nodes }
}

/// A protocol that renders the value as compact text.
fn render(calls: &[Call]) -> String {
    let mut out = String::new();
    // For each open container: whether it is a mapping, and whether no child came yet.
    let mut open: Vec<(bool, bool)> = Vec::new();
    for c in calls {
        match c {
            Call::Null => out.push_str("null"),
            Call::Boolean(b) => out.push_str(&b.to_string()),
            Call::String(s) => out.push_str(&format!("{:?}", s)),
            Call::Nonnegative(n) => out.push_str(&n.to_string()),
            Call::Negative(n) => out.push_str(&n.to_string()),
            Call::Float(x) => out.push_str(&format!("{:?}", f64::from_bits(*x))),
            Call::BeginSeq => {
                out.push('[');
                open.push((false, true));
            }
            Call::BeginMap => {
                out.push('{');
                open.push((true, true));
            }
            Call::Element | Call::Key(_) => {
                let top = open.last_mut().unwrap();
                if !top.1 {
                    out.push(',');
                }
                top.1 = false;
                if let Call::Key(k) = c {
                    out.push_str(&format!("{:?}:", k));
                }
            }
            Call::Finish => {
                let (is_map, _) = open.pop().unwrap();
                out.push(if is_map { '}' } else { ']' });
            }
        }
    }
    out
}

#[derive(Debug, PartialEq)]
struct Rec {
    s: String,
    i: i32,
    v: Vec<f64>,
}

/// A protocol for `Rec`, fed one call at a time; it stops at the first
/// call it rejects.
fn decode_rec(d: &mut Driver) -> Result<Rec, String> {
    let mut next = || d.next().ok_or_else(|| "input ended".to_string());
    if !matches!(next()?, Call::BeginMap) {
        return Err("expected a map".into());
    }
    let (mut s, mut i, mut v) = (None, None, None);
    loop {
        match next()? {
            Call::Finish => break,
            Call::Key(k) if k == "s" => match next()? {
                Call::String(x) => s = Some(x),
                other => return Err(format!("s: unexpected {:?}", other)),
            },
            Call::Key(k) if k == "i" => match next()? {
                Call::Nonnegative(n) if n <= i32::MAX as u64 => i = Some(n as i32),
                Call::Negative(n) if n >= i32::MIN as i64 => i = Some(n as i32),
                other => return Err(format!("i: unexpected {:?}", other)),
            },
            Call::Key(k) if k == "v" => {
                if !matches!(next()?, Call::BeginSeq) {
                    return Err("v: expected a sequence".into());
                }
                let mut xs = Vec::new();
                loop {
                    match next()? {
                        Call::Finish => break,
                        Call::Element => xs.push(match next()? {
                            Call::Nonnegative(n) => n as f64,
                            Call::Negative(n) => n as f64,
                            Call::Float(b) => f64::from_bits(b),
                            other => return Err(format!("v: unexpected {:?}", other)),
                        }),
                        other => return Err(format!("v: unexpected {:?}", other)),
                    }
                }
                v = Some(xs);
            }
            other => return Err(format!("unknown field {:?}", other)),
        }
    }
    match (s, i, v) {
        (Some(s), Some(i), Some(v)) => Ok(Rec { s, i, v }),
        _ => Err("missing field".into()),
    }
}

fn driver(v: V) -> Driver {
    Driver::new(tree_of(v)).expect("well formed")
}

fn calls(v: V) -> Vec<Call> {
    calls_of(tree_of(v)).expect("well formed")
}

#[test]
fn simple() {
    let mut d = driver(V::O(vec![
        ("s", V::S("This is a test")),
        ("i", V::U(24)),
        ("v", V::A(vec![V::U(10), V::F(1.2), V::I(-50)])),
    ]));
    let s = decode_rec(&mut d).unwrap();
    assert_eq!(
        Rec {
            s: "This is a test".into(),
            i: 24,
            v: vec![10.0, 1.2, -50.0]
        },
        s
    );
}

#[test]
fn end_to_end_record() {
    let mut d = driver(V::O(vec![
        ("s", V::S("hello")),
        ("i", V::I(-3)),
        ("v", V::A(vec![V::U(1), V::F(2.5), V::I(-4)])),
    ]));
    let r = decode_rec(&mut d).unwrap();
    assert_eq!(r, Rec { s: "hello".into(), i: -3, v: vec![1.0, 2.5, -4.0] });
    assert!(d.is_done());
}

#[test]
fn end_to_end_rejection() {
    let mut d = driver(V::O(vec![
        ("s", V::S("hello")),
        ("i", V::S("oops")),
        ("v", V::A(vec![V::U(1), V::F(2.5), V::I(-4)])),
    ]));
    let r = decode_rec(&mut d);
    assert_eq!(r, Err("i: unexpected String(\"oops\")".to_string()));
    // The entry after the rejected one was never reached.
    assert!(!d.is_done());
    assert!(matches!(d.next(), Some(Call::Key(k)) if k == "v"));
}

#[test]
fn fail_fast_on_element_two() {
    let mut d = driver(V::A(vec![V::U(0), V::U(1), V::S("bad"), V::U(3), V::U(4)]));
    let mut requested = 0;
    let mut err = None;
    while let Some(c) = d.next() {
        match c {
            Call::BeginSeq | Call::Finish | Call::Nonnegative(_) => {}
            Call::Element => requested += 1,
            other => {
                err = Some((requested - 1, other));
                break;
            }
        }
    }
    assert_eq!(requested, 3);
    assert!(matches!(err, Some((2, Call::String(ref s))) if s == "bad"));
}

#[test]
fn numbers_dispatch_by_kind() {
    assert!(matches!(calls(V::U(5)).as_slice(), [Call::Nonnegative(5)]));
    assert!(matches!(calls(V::I(-5)).as_slice(), [Call::Negative(-5)]));
    match calls(V::F(5.0)).as_slice() {
        [Call::Float(b)] => assert_eq!(f64::from_bits(*b), 5.0),
        other => panic!("unexpected {:?}", other),
    }
}

#[test]
fn leaves() {
    assert!(matches!(calls(V::Null).as_slice(), [Call::Null]));
    assert!(matches!(calls(V::B(true)).as_slice(), [Call::Boolean(true)]));
    assert!(matches!(calls(V::S("x")).as_slice(), [Call::String(s)] if s == "x"));
}

#[test]
fn entries_keep_source_order() {
    let cs = calls(V::O(vec![("b", V::U(1)), ("a", V::U(2)), ("c", V::U(3))]));
    let keys: Vec<String> = cs
        .iter()
        .filter_map(|c| if let Call::Key(k) = c { Some(k.clone()) } else { None })
        .collect();
    assert_eq!(keys, vec!["b", "a", "c"]);
    assert_eq!(render(&cs), r#"{"b":1,"a":2,"c":3}"#);
}

#[test]
fn round_trip_through_text() {
    let v = V::O(vec![
        ("a", V::A(vec![V::Null, V::B(false), V::A(vec![]), V::O(vec![])])),
        ("n", V::O(vec![("x", V::I(-7)), ("y", V::F(0.5))])),
        ("s", V::S("q")),
    ]);
    assert_eq!(render(&calls(v)), r#"{"a":[null,false,[],{}],"n":{"x":-7,"y":0.5},"s":"q"}"#);
}

#[test]
fn empty_containers() {
    assert!(matches!(calls(V::A(vec![])).as_slice(), [Call::BeginSeq, Call::Finish]));
    assert!(matches!(calls(V::O(vec![])).as_slice(), [Call::BeginMap, Call::Finish]));
}

#[test]
fn deep_nesting() {
    let depth = 50_000;
    // Each array holds the next one; the innermost is empty.
    let mut nodes = Vec::new();
    for i in 0..depth {
        nodes.push(Node::Array(vec![i + 1]));
    }
    nodes.push(Node::Array(vec![]));
    let cs = calls_of(Tree { nodes }).expect("well formed");
    assert_eq!(cs.len(), 2 * depth + 2 + depth);
    assert!(matches!(cs[0], Call::BeginSeq));
    assert!(matches!(cs[1], Call::Element));
    assert!(cs[2 * depth + 2..].iter().all(|c| matches!(c, Call::Finish)));
}

#[test]
fn malformed_trees_are_refused() {
    assert!(calls_of(Tree { nodes: vec![] }).is_none());
    // A child that points back at its parent.
    assert!(calls_of(Tree { nodes: vec![Node::Array(vec![0])] }).is_none());
    // A child past the end.
    assert!(calls_of(Tree { nodes: vec![Node::Array(vec![1])] }).is_none());
    let t = Tree { nodes: vec![Node::Object(vec![("k".to_string(), 2)]), Node::Null] };
    assert!(!t.is_well_formed());
    assert!(Driver::new(t).is_none());
}

#[test]
fn well_formed_tree_is_accepted() {
    let t = Tree { nodes: vec![Node::Array(vec![2, 1]), Node::Null, Node::Bool(true)] };
    assert!(t.is_well_formed());
    assert_eq!(render(&calls_of(t).unwrap()), "[true,null]");
}

#[test]
fn next_after_the_end() {
    let mut d = driver(V::Null);
    assert!(!d.is_done());
    assert!(matches!(d.next(), Some(Call::Null)));
    assert!(d.is_done());
    assert!(d.next().is_none());
    assert!(d.next().is_none());
}

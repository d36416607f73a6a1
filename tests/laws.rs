use rusty_jq::engine::{process_rust_value, Handle};
use rusty_jq::filter::{CompareOp, Literal, RustyFilter};
use rusty_jq::parser::parse_query;
use rusty_jq::value::{copy_value, Value};

fn num_i(i: i64) -> Value {
    Value::Int(i)
}

fn arr(items: Vec<Value>) -> Value {
    Value::Array(items)
}

fn obj(entries: Vec<(&str, Value)>) -> Value {
    Value::Object(entries.into_iter().map(|(k, v)| (k.to_string(), v)).collect())
}

fn field(k: &str) -> RustyFilter {
    RustyFilter::Field(k.to_string())
}

fn eval(v: &Value, filters: &[RustyFilter]) -> Vec<Value> {
    process_rust_value(Handle::Borrowed(v), filters)
        .into_iter()
        .map(|h| h.into_owned())
        .collect()
}

#[test]
fn identity_yields_input() {
    for v in [num_i(3), Value::Null, arr(vec![num_i(1)]), obj(vec![("a", num_i(1))])] {
        assert_eq!(eval(&v, &[RustyFilter::Identity]), vec![copy_value(&v)]);
    }
}

#[test]
fn mismatched_shapes_yield_nothing() {
    let o = obj(vec![("a", num_i(1))]);
    let a = arr(vec![num_i(1), num_i(2)]);
    assert!(eval(&a, &[field("a")]).is_empty());
    assert!(eval(&o, &[field("b")]).is_empty());
    assert!(eval(&o, &[RustyFilter::Index(0)]).is_empty());
    assert!(eval(&a, &[RustyFilter::Index(2)]).is_empty());
    assert!(eval(&a, &[RustyFilter::Index(-3)]).is_empty());
    assert!(eval(&num_i(5), &[RustyFilter::Iterator]).is_empty());
    assert!(eval(&Value::Null, &[field("a")]).is_empty());
}

#[test]
fn iterator_distributes_over_elements() {
    let v = arr(vec![
        obj(vec![("a", arr(vec![num_i(1), num_i(2)]))]),
        obj(vec![("b", num_i(0))]),
        obj(vec![("a", arr(vec![num_i(3)]))]),
    ]);
    let rest = [field("a"), RustyFilter::Iterator];
    let mut whole = vec![RustyFilter::Iterator];
    whole.extend(rest.iter().map(|f| match f {
        RustyFilter::Field(k) => RustyFilter::Field(k.clone()),
        _ => RustyFilter::Iterator,
    }));
    let mut each = Vec::new();
    if let Value::Array(items) = &v {
        for x in items {
            each.extend(eval(x, &rest));
        }
    }
    assert_eq!(eval(&v, &whole), each);
    assert_eq!(each, vec![num_i(1), num_i(2), num_i(3)]);
}

#[test]
fn index_reads_from_both_ends() {
    let v = arr(vec![num_i(10), num_i(20), num_i(30)]);
    let n = 3;
    for i in 0..n {
        assert_eq!(eval(&v, &[RustyFilter::Index(i)]), vec![num_i(10 * (i as i64 + 1))]);
        assert_eq!(eval(&v, &[RustyFilter::Index(i - n)]), vec![num_i(10 * (i as i64 + 1))]);
    }
}

#[test]
fn object_cartesian_order() {
    let v = obj(vec![("xs", arr(vec![num_i(1), num_i(2)])), ("y", num_i(9))]);
    let filters = [RustyFilter::Object(vec![
        ("a".to_string(), vec![field("xs"), RustyFilter::Iterator]),
        ("b".to_string(), vec![field("y")]),
    ])];
    assert_eq!(
        eval(&v, &filters),
        vec![obj(vec![("a", num_i(1)), ("b", num_i(9))]), obj(vec![("a", num_i(2)), ("b", num_i(9))])]
    );
}

#[test]
fn empty_pair_annihilates_object() {
    let v = obj(vec![("xs", arr(vec![num_i(1), num_i(2)]))]);
    let filters = [RustyFilter::Object(vec![
        ("a".to_string(), vec![field("xs"), RustyFilter::Iterator]),
        ("b".to_string(), vec![field("missing")]),
    ])];
    assert!(eval(&v, &filters).is_empty());
}

#[test]
fn select_keeps_the_borrowed_input() {
    let v = obj(vec![("age", num_i(20))]);
    let filters = [RustyFilter::Select(vec![field("age")], CompareOp::Gte, Literal::Int(18))];
    let out = process_rust_value(Handle::Borrowed(&v), &filters);
    assert_eq!(out.len(), 1);
    match &out[0] {
        Handle::Borrowed(r) => assert!(std::ptr::eq(*r, &v)),
        Handle::Owned(_) => panic!("select copied its input"),
    }
}

#[test]
fn remaining_text_is_a_suffix() {
    for q in [".a  rest", ".[] | .b)", "{a: .x} }", ".", "select(.a == 1)xyz"] {
        let (rest, _) = parse_query(q).expect("a program");
        assert!(q.ends_with(rest), "{:?} {:?}", q, rest);
    }
}

#[test]
fn parse_gives_expected_program() {
    let (rest, p) = parse_query(".a[-1] | .b[]").unwrap();
    assert_eq!(rest, "");
    assert_eq!(
        p,
        vec![field("a"), RustyFilter::Index(-1), field("b"), RustyFilter::Iterator]
    );
    let (rest, p) = parse_query("select(.x != \"q r\")").unwrap();
    assert_eq!(rest, "");
    assert_eq!(
        p,
        vec![RustyFilter::Select(
            vec![field("x")],
            CompareOp::Neq,
            Literal::String("q r".to_string())
        )]
    );
}

#[test]
fn selection_steps_hand_out_borrows() {
    let v = obj(vec![("a", arr(vec![obj(vec![("b", num_i(1))]), obj(vec![("b", num_i(2))])]))]);
    let filters = [
        field("a"),
        RustyFilter::Iterator,
        RustyFilter::Select(vec![field("b")], CompareOp::Gt, Literal::Int(0)),
        field("b"),
    ];
    let out = process_rust_value(Handle::Borrowed(&v), &filters);
    assert_eq!(out.len(), 2);
    assert!(out.iter().all(|h| matches!(h, Handle::Borrowed(_))));
    let built = process_rust_value(
        Handle::Borrowed(&v),
        &[RustyFilter::Object(vec![("c".to_string(), vec![field("a")])])],
    );
    assert!(matches!(built[0], Handle::Owned(_)));
}

use rusty_jq::parser::{parse_number, ParseError};
use rusty_jq::program::{compile, shape, Shaped};
use rusty_jq::value::Value;

fn num_i(i: i64) -> Value {
    Value::Int(i)
}

fn text(s: &str) -> Value {
    Value::Str(s.to_string())
}

fn arr(items: Vec<Value>) -> Value {
    Value::Array(items)
}

fn obj(entries: Vec<(&str, Value)>) -> Value {
    Value::Object(entries.into_iter().map(|(k, v)| (k.to_string(), v)).collect())
}

fn num(t: &str) -> Value {
    Value::Float(parse_number(t).expect("a number"))
}

fn run(query: &str, input: &Value) -> Vec<Value> {
    compile(query).expect("a valid query").run(input)
}

#[test]
fn identity_returns_whole_document() {
    let doc = obj(vec![("a", num_i(1))]);
    assert_eq!(run(".", &doc), vec![obj(vec![("a", num_i(1))])]);
}

#[test]
fn field_returns_member() {
    let doc = obj(vec![("a", arr(vec![num_i(10), num_i(20), num_i(30)]))]);
    assert_eq!(run(".a", &doc), vec![arr(vec![num_i(10), num_i(20), num_i(30)])]);
}

#[test]
fn negative_index_after_field() {
    let doc = obj(vec![("a", arr(vec![num_i(10), num_i(20), num_i(30)]))]);
    assert_eq!(run(".a[-1]", &doc), vec![num_i(30)]);
}

#[test]
fn iterate_then_pipe_to_field() {
    let doc = obj(vec![(
        "items",
        arr(vec![obj(vec![("name", text("x"))]), obj(vec![("name", text("y"))])]),
    )]);
    assert_eq!(run(".items[] | .name", &doc), vec![text("x"), text("y")]);
}

#[test]
fn object_construction_streams_product() {
    let doc = obj(vec![("a", num_i(1)), ("b", arr(vec![num_i(2), num_i(3)]))]);
    assert_eq!(
        run("{k: .a, v: .b[]}", &doc),
        vec![obj(vec![("k", num_i(1)), ("v", num_i(2))]), obj(vec![("k", num_i(1)), ("v", num_i(3))])]
    );
}

#[test]
fn select_filters_users_by_age() {
    let doc = obj(vec![(
        "users",
        arr(vec![
            obj(vec![("name", text("A")), ("age", num_i(17))]),
            obj(vec![("name", text("B")), ("age", num_i(20))]),
        ]),
    )]);
    assert_eq!(run(".users[] | select(.age >= 18) | .name", &doc), vec![text("B")]);
}

#[test]
fn first_gives_first_result_or_none() {
    let doc = arr(vec![num_i(4), num_i(5)]);
    let p = compile(".[]").unwrap();
    assert_eq!(p.first(&doc), Some(num_i(4)));
    let q = compile(".missing").unwrap();
    assert_eq!(q.first(&obj(vec![])), None);
}

#[test]
fn empty_query_is_invalid() {
    assert_eq!(compile("").err(), Some(ParseError::InvalidSyntax));
    assert_eq!(compile("   ").err(), Some(ParseError::InvalidSyntax));
    assert_eq!(compile("abc").err(), Some(ParseError::InvalidSyntax));
}

#[test]
fn trailing_text_is_extra() {
    assert_eq!(
        compile(".a junk").err(),
        Some(ParseError::ExtraCharacters(" junk".to_string()))
    );
}

#[test]
fn trailing_unicode_space_is_accepted() {
    assert!(compile(".a \u{3000}\t\n").is_ok());
    assert_eq!(
        compile(".a \u{00e9}").err(),
        Some(ParseError::ExtraCharacters(" \u{00e9}".to_string()))
    );
}

#[test]
fn index_overflow_leaves_extra_text() {
    assert_eq!(
        compile(".[99999999999]").err(),
        Some(ParseError::ExtraCharacters("[99999999999]".to_string()))
    );
}

#[test]
fn integer_literal_overflow_is_invalid() {
    assert_eq!(
        compile("select(.a == 99999999999999999999)").err(),
        Some(ParseError::InvalidSyntax)
    );
}

#[test]
fn adjacent_fields_chain() {
    let doc = obj(vec![("a", obj(vec![("b", obj(vec![("c", num_i(7))]))]))]);
    assert_eq!(run(".a.b.c", &doc), vec![num_i(7)]);
    assert_eq!(run(".a | .b | .c", &doc), vec![num_i(7)]);
    assert_eq!(run(".x.b.c", &doc), Vec::<Value>::new());
}

#[test]
fn duplicate_keys_later_wins() {
    let doc = obj(vec![("x", num_i(1)), ("y", num_i(2))]);
    assert_eq!(run("{a: .x, a: .y}", &doc), vec![obj(vec![("a", num_i(2))])]);
}

#[test]
fn steps_after_construction_read_new_values() {
    let doc = obj(vec![("x", arr(vec![num_i(1), num_i(2), num_i(3)]))]);
    assert_eq!(run("{a: .x} | .a", &doc), vec![arr(vec![num_i(1), num_i(2), num_i(3)])]);
    assert_eq!(run("{a: .x} | .a[1]", &doc), vec![num_i(2)]);
    assert_eq!(run("{a: .x} | .a[]", &doc), vec![num_i(1), num_i(2), num_i(3)]);
    assert_eq!(run("{a: .x} | select(.a[0] == 1) | .a[-1]", &doc), vec![num_i(3)]);
}

#[test]
fn nested_objects_and_selects() {
    let doc = obj(vec![("p", obj(vec![("q", num_i(5))]))]);
    assert_eq!(
        run("{outer: {inner: .p.q}}", &doc),
        vec![obj(vec![("outer", obj(vec![("inner", num_i(5))]))])]
    );
    assert_eq!(run("select(select(.p.q > 1) | .p.q < 9)", &doc).len(), 1);
}

#[test]
fn compare_integers_every_operator() {
    let doc = obj(vec![("n", num_i(5))]);
    let cases = [
        ("==", 5, true),
        ("==", 4, false),
        ("!=", 4, true),
        ("!=", 5, false),
        (">", 4, true),
        (">", 5, false),
        ("<", 6, true),
        ("<", 5, false),
        (">=", 5, true),
        (">=", 6, false),
        ("<=", 5, true),
        ("<=", 4, false),
    ];
    for (op, lit, expected) in cases {
        let q = format!("select(.n {} {})", op, lit);
        assert_eq!(run(&q, &doc).len() == 1, expected, "{}", q);
    }
}

#[test]
fn unsigned_values_compare_by_value() {
    let doc = obj(vec![("n", Value::UInt(u64::MAX))]);
    assert_eq!(run("select(.n > -1)", &doc).len(), 1);
    assert_eq!(run("select(.n > 9223372036854775807)", &doc).len(), 1);
    assert_eq!(run("select(.n < 0)", &doc).len(), 0);
    let small = obj(vec![("n", Value::UInt(3))]);
    assert_eq!(run("select(.n == 3)", &small).len(), 1);
}

#[test]
fn negative_integer_literal() {
    let doc = obj(vec![("n", num_i(-9223372036854775808))]);
    assert_eq!(run("select(.n == -9223372036854775808)", &doc).len(), 1);
    assert_eq!(run("select(.n < -5)", &doc).len(), 1);
}

#[test]
fn floats_compare_exactly() {
    let doc = obj(vec![("f", num("1.50"))]);
    assert_eq!(run("select(.f == 1.5)", &doc).len(), 1);
    assert_eq!(run("select(.f > 1.49)", &doc).len(), 1);
    assert_eq!(run("select(.f < -2.0)", &doc).len(), 0);
    let zero = obj(vec![("f", num("-0"))]);
    assert_eq!(run("select(.f == 0.0)", &zero).len(), 1);
    let neg = obj(vec![("f", num("-2.5"))]);
    assert_eq!(run("select(.f < -2.25)", &neg).len(), 1);
    assert_eq!(run("select(.f > -3.0)", &neg).len(), 1);
}

#[test]
fn float_and_integer_do_not_compare() {
    let doc = obj(vec![("f", num("2")), ("i", num_i(2))]);
    assert_eq!(run("select(.f == 2)", &doc).len(), 0);
    assert_eq!(run("select(.i == 2.0)", &doc).len(), 0);
}

#[test]
fn strings_compare_lexicographically() {
    let doc = obj(vec![("s", text("abc"))]);
    assert_eq!(run("select(.s == \"abc\")", &doc).len(), 1);
    assert_eq!(run("select(.s < \"abd\")", &doc).len(), 1);
    assert_eq!(run("select(.s > \"ab\")", &doc).len(), 1);
    assert_eq!(run("select(.s != \"a b-c_\")", &doc).len(), 1);
    assert_eq!(run("select(.s == \"\")", &obj(vec![("s", text(""))])).len(), 1);
}

#[test]
fn booleans_and_null_compare() {
    let doc = obj(vec![("t", Value::Bool(true)), ("z", Value::Null)]);
    assert_eq!(run("select(.t > false)", &doc).len(), 1);
    assert_eq!(run("select(.t == true)", &doc).len(), 1);
    assert_eq!(run("select(.z == null)", &doc).len(), 1);
    assert_eq!(run("select(.z != null)", &doc).len(), 0);
    assert_eq!(run("select(.z >= null)", &doc).len(), 0);
    assert_eq!(run("select(.t == 1)", &doc).len(), 0);
}

#[test]
fn select_uses_first_path_result() {
    let doc = obj(vec![("xs", arr(vec![num_i(1), num_i(9)]))]);
    assert_eq!(run("select(.xs[] == 1)", &doc).len(), 1);
    assert_eq!(run("select(.xs[] == 9)", &doc).len(), 0);
    assert_eq!(run("select(.none == 1)", &doc).len(), 0);
}

#[test]
fn whitespace_inside_constructs() {
    let doc = obj(vec![("a", num_i(1)), ("b", num_i(2))]);
    assert_eq!(
        run("{ x : .a ,\n y:.b }", &doc),
        vec![obj(vec![("x", num_i(1)), ("y", num_i(2))])]
    );
    assert_eq!(run("select(  .a   ==   1  )", &doc).len(), 1);
    assert_eq!(run("| .a", &doc), vec![num_i(1)]);
}

#[test]
fn field_names_with_dashes_and_digits() {
    let doc = obj(vec![("my-key_2", num_i(8)), ("select", num_i(3))]);
    assert_eq!(run(".my-key_2", &doc), vec![num_i(8)]);
    assert_eq!(run(".select", &doc), vec![num_i(3)]);
}

fn nested_objects(n: usize) -> String {
    let mut q = String::new();
    for _ in 0..n {
        q.push_str("{a: ");
    }
    q.push('.');
    for _ in 0..n {
        q.push('}');
    }
    q
}

#[test]
fn nesting_is_capped() {
    assert!(compile(&nested_objects(3)).is_ok());
    assert!(compile(&nested_objects(1024)).is_ok());
    assert_eq!(compile(&nested_objects(1025)).err(), Some(ParseError::InvalidSyntax));
    let doc = num_i(4);
    let out = run(&nested_objects(2), &doc);
    assert_eq!(out, vec![obj(vec![("a", obj(vec![("a", num_i(4))]))])]);
}

#[test]
fn results_shaped_for_single_value_hosts() {
    let doc = arr(vec![num_i(1), num_i(2)]);
    assert!(matches!(shape(run(".[5]", &doc)), Shaped::Nothing));
    match shape(run(".[0]", &doc)) {
        Shaped::One(v) => assert_eq!(v, num_i(1)),
        _ => panic!("expected one value"),
    }
    match shape(run(".[]", &doc)) {
        Shaped::Many(vs) => assert_eq!(vs, vec![num_i(1), num_i(2)]),
        _ => panic!("expected a list"),
    }
}

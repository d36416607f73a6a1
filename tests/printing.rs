use rusty_jq::parser::parse_query;
use rusty_jq::printer::to_query;

fn reparse(query: &str) -> (String, String) {
    let (rest, program) = parse_query(query).expect("a program");
    assert_eq!(rest, "");
    let printed = to_query(&program);
    let (rest2, again) = parse_query(&printed).expect("printed text parses");
    assert_eq!(rest2, "");
    assert_eq!(again, program);
    (printed, to_query(&again))
}

#[test]
fn printed_programs_parse_back() {
    for q in [
        ".",
        ".a.b-c._d",
        ".a[-1]|.b[] | .[2] | .[-0]",
        "{k: .a, v: .b[]}",
        "{ x:{y: .z}, w : . }",
        ".users[] | select(.age >= 18) | .name",
        "select(.s != \"a b_c-d\")",
        "select(.f < -12.50)",
        "select(.f == 0.0)",
        "select(.n > -9223372036854775808)",
        "select(.t == true) | select(.u == false) | select(.v == null)",
        "select(select(.a <= 1) | .b == 2)",
        ".[2147483647] | .[-2147483648]",
    ] {
        let (printed, again) = reparse(q);
        assert_eq!(printed, again, "{}", q);
    }
}

#[test]
fn printer_uses_canonical_spacing() {
    let (_, p) = parse_query("{a:.x,b:.y}|select(.a>=1)").unwrap();
    assert_eq!(to_query(&p), "{a: .x, b: .y} | select(.a >= 1)");
    let (_, p) = parse_query(".a[-1]").unwrap();
    assert_eq!(to_query(&p), ".a | .[-1]");
}

#[test]
fn grammar_texts_parse_whole() {
    for q in [
        ".",
        ".a|.b",
        ".a \t|\n .b",
        ".[007] | .[-0] | .[]",
        "{a:.x}",
        "{ a :\t.x , b:. | .y }",
        "select(.a==1)",
        "select( .a >= -0012 )",
        "select(.f<3.000)",
        "select(.s!=\"\")",
        "select(.t\n==\ntrue\n)",
        "{k: select(.a == null) | .b}",
    ] {
        let (rest, program) = parse_query(q).expect("a program");
        assert_eq!(rest, "", "{}", q);
        assert!(!program.is_empty());
    }
}

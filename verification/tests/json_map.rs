use json_map::{parse, pretty_print, Value};

fn obj(pairs: Vec<(&str, Value)>) -> Value {
    Value::Obj(pairs.into_iter().map(|(k, v)| (k.to_string(), v)).collect())
}

fn num(t: &str) -> Value {
    Value::Num(t.to_string())
}

#[test]
fn parse_scalars() {
    assert_eq!(parse("null").unwrap(), Value::Null);
    assert_eq!(parse("true").unwrap(), Value::Bool(true));
    assert_eq!(parse("false").unwrap(), Value::Bool(false));
    assert_eq!(parse("42").unwrap(), num("42"));
    assert_eq!(parse("-0").unwrap(), num("-0"));
    assert_eq!(parse("\"hi\"").unwrap(), Value::Str("hi".to_string()));
}

#[test]
fn parse_keeps_member_order() {
    let v = parse("{\".\":1,\"$\":2,\"1\":3}").unwrap();
    match &v {
        Value::Obj(ms) => {
            let keys: Vec<&str> = ms.iter().map(|m| m.0.as_str()).collect();
            assert_eq!(keys, vec![".", "$", "1"]);
            assert_eq!(ms[0].1, num("1"));
            assert_eq!(ms[1].1, num("2"));
            assert_eq!(ms[2].1, num("3"));
        },
        _ => panic!("expected an object"),
    }
    assert_eq!(json_map::ser::stringify(&v).unwrap(), "{\".\":1,\"$\":2,\"1\":3}");
}

#[test]
fn pretty_print_exact() {
    let v = parse("{ \".\": 1, \"$\": 2, \"1\": 3 }").unwrap();
    assert_eq!(pretty_print(&v).unwrap(), "{\n  \".\": 1,\n  \"$\": 2,\n  \"1\": 3\n}");
}

#[test]
fn pretty_print_nested() {
    let v = parse("{\"a\":[1,{\"b\":[]}],\"c\":{}}").unwrap();
    assert_eq!(
        pretty_print(&v).unwrap(),
        "{\n  \"a\": [\n    1,\n    {\n      \"b\": []\n    }\n  ],\n  \"c\": {}\n}"
    );
}

#[test]
fn malformed_inputs_fail() {
    assert!(parse("{\"a\":}").is_err());
    assert!(parse("").is_err());
    assert!(parse("{\"a\":1").is_err());
    assert!(parse("   ").is_err());
    assert!(parse("nul").is_err());
    assert!(parse("truefalse").is_err());
    assert!(parse("[1,]").is_err());
    assert!(parse("{\"a\" 1}").is_err());
    assert!(parse("01").is_err());
    assert!(parse("1.").is_err());
    assert!(parse("1e").is_err());
    assert!(parse("-").is_err());
    assert!(parse("\"unterminated").is_err());
    assert!(parse("\"bad \\x escape\"").is_err());
    assert!(parse("\"lone \\ud800 surrogate\"").is_err());
    assert!(parse("\"ctrl \u{0001} raw\"").is_err());
    assert!(parse("1 2").is_err());
    let e = parse("{\"a\":}").unwrap_err();
    assert!(!e.message().is_empty());
}

#[test]
fn whitespace_between_tokens() {
    let v = parse(" \t\r\n[ 1 , 2 ,\n\"x\" ]  ").unwrap();
    assert_eq!(json_map::ser::stringify(&v).unwrap(), "[1,2,\"x\"]");
}

#[test]
fn round_trip_compact_texts() {
    let cases = vec![
        "null",
        "true",
        "false",
        "0",
        "-0",
        "12345",
        "-1.5",
        "1e2",
        "1.25E-3",
        "\"\"",
        "\"a b\"",
        "[]",
        "{}",
        "[null,true,[1,2],{\"k\":\"v\"}]",
        "{\"x\":{\"y\":[0.5,\"z\"]}}",
        "{\".\":1,\"$\":2,\"1\":3}",
    ];
    for t in cases {
        let v = parse(t).expect(t);
        let s = json_map::ser::stringify(&v).expect(t);
        assert_eq!(s, t);
        // idempotence across a second cycle
        let v2 = parse(&s).expect(t);
        assert_eq!(v2, v);
        assert_eq!(json_map::ser::stringify(&v2).unwrap(), s);
    }
}

#[test]
fn number_representation_is_kept() {
    // the token text survives the round trip unchanged
    for t in vec!["1e2", "1E2", "10.50", "-0.0", "3e+07", "3e-07"] {
        assert_eq!(json_map::ser::stringify(&parse(t).unwrap()).unwrap(), t);
    }
}

#[test]
fn duplicate_keys_are_retained_in_order() {
    let v = parse("{\"a\":1,\"b\":2,\"a\":3}").unwrap();
    match &v {
        Value::Obj(ms) => {
            let keys: Vec<&str> = ms.iter().map(|m| m.0.as_str()).collect();
            assert_eq!(keys, vec!["a", "b", "a"]);
        },
        _ => panic!("expected an object"),
    }
    assert_eq!(json_map::ser::stringify(&v).unwrap(), "{\"a\":1,\"b\":2,\"a\":3}");
}

#[test]
fn string_escapes_parse() {
    assert_eq!(
        parse("\"a\\n\\t\\r\\b\\f\\\\\\\"\\/z\"").unwrap(),
        Value::Str("a\n\t\r\u{8}\u{c}\\\"/z".to_string())
    );
    assert_eq!(parse("\"\\u0041\"").unwrap(), Value::Str("A".to_string()));
    // a surrogate pair decodes to one character
    assert_eq!(parse("\"\\uD83D\\uDE00\"").unwrap(), Value::Str("\u{1F600}".to_string()));
    // raw non-ASCII passes through
    assert_eq!(parse("\"héllo\"").unwrap(), Value::Str("héllo".to_string()));
}

#[test]
fn string_escapes_print() {
    let v = Value::Str("a\"b\\c\nd\te\rf\u{8}g\u{c}h\u{1}i".to_string());
    assert_eq!(
        json_map::ser::stringify(&v).unwrap(),
        "\"a\\\"b\\\\c\\nd\\te\\rf\\bg\\fh\\u0001i\""
    );
    // escaped output parses back to the same value
    assert_eq!(parse(&json_map::ser::stringify(&v).unwrap()).unwrap(), v);
    // non-ASCII is written as raw text
    let w = Value::Str("héllo \u{1F600}".to_string());
    assert_eq!(json_map::ser::stringify(&w).unwrap(), "\"héllo \u{1F600}\"");
}

#[test]
fn nesting_depth_is_bounded() {
    let deep_ok = format!("{}0{}", "[".repeat(128), "]".repeat(128));
    assert!(parse(&deep_ok).is_ok());
    let too_deep = format!("{}0{}", "[".repeat(129), "]".repeat(129));
    assert!(parse(&too_deep).is_err());
}

#[test]
fn stringify_rejects_malformed_number_tokens() {
    for bad in vec!["", "abc", "01", "1.", "--1", "+1", "1e", "0x10"] {
        let v = Value::Arr(vec![num(bad)]);
        assert!(json_map::ser::stringify(&v).is_err(), "token {:?} should be rejected", bad);
        assert!(pretty_print(&v).is_err());
    }
    let e = json_map::ser::stringify(&num("abc")).unwrap_err();
    assert!(!e.message().is_empty());
}

#[test]
fn stringify_built_values() {
    let v = obj(vec![
        ("list", Value::Arr(vec![Value::Null, Value::Bool(false), num("2.5")])),
        ("empty", Value::Arr(vec![])),
        ("text", Value::Str("ok".to_string())),
    ]);
    assert_eq!(
        json_map::ser::stringify(&v).unwrap(),
        "{\"list\":[null,false,2.5],\"empty\":[],\"text\":\"ok\"}"
    );
    let p = pretty_print(&v).unwrap();
    assert_eq!(parse(&p).unwrap(), v);
}

#[test]
fn pretty_output_reparses_to_same_value() {
    let t = "{\"a\":[1,2,{\"b\":null}],\"c\":\"x\\ny\"}";
    let v = parse(t).unwrap();
    let p = pretty_print(&v).unwrap();
    assert_eq!(parse(&p).unwrap(), v);
    assert_eq!(json_map::ser::stringify(&parse(&p).unwrap()).unwrap(), t);
}

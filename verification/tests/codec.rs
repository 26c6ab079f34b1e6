use sexpr::{
    alist_entries, alist_get, enum_variant, from_slice, from_str, number_from_decimal, to_vec,
    to_vec_alist, to_vec_pretty, Atom, Sexp, StreamDeserializer,
};

fn text_of(v: &Sexp) -> String {
    String::from_utf8(to_vec(v).unwrap()).unwrap()
}

fn pretty_of(v: &Sexp) -> String {
    String::from_utf8(to_vec_pretty(v).unwrap()).unwrap()
}

fn sym(name: &str) -> Sexp {
    Sexp::new_symbol(name.to_string())
}

fn string_leaf(s: &str) -> Sexp {
    Sexp::new_string(s.to_string())
}

fn sample_value() -> Sexp {
    Sexp::List(vec![
        Sexp::Nil,
        Sexp::from(true),
        Sexp::from(false),
        Sexp::from(42u64),
        Sexp::from(-7i64),
        sym("alpha"),
        Sexp::new_keyword("key".to_string()),
        string_leaf("text with \"quotes\" and \\ and \n"),
        Sexp::List(vec![]),
        Sexp::new_entry(Atom::from_str("a"), Sexp::from(1u64)),
        Sexp::new_improper_list(vec![sym("x"), sym("y")], Sexp::from(9u64)),
    ])
}

#[test]
fn round_trip_compact() {
    let v = sample_value();
    let bytes = to_vec(&v).unwrap();
    let back = from_slice(&bytes).unwrap();
    assert_eq!(back, v);
}

#[test]
fn round_trip_pretty() {
    let v = sample_value();
    let bytes = to_vec_pretty(&v).unwrap();
    let back = from_slice(&bytes).unwrap();
    assert_eq!(back, v);
}

#[test]
fn compact_encoding_idempotent() {
    let v = sample_value();
    let once = to_vec(&v).unwrap();
    let back = from_slice(&once).unwrap();
    let twice = to_vec(&back).unwrap();
    assert_eq!(once, twice);
}

#[test]
fn pretty_and_compact_decode_alike() {
    let v = sample_value();
    let compact = from_slice(&to_vec(&v).unwrap()).unwrap();
    let pretty = from_slice(&to_vec_pretty(&v).unwrap()).unwrap();
    assert_eq!(compact, v);
    assert_eq!(pretty, v);
}

#[test]
fn pretty_layout_exact() {
    let v = Sexp::List(vec![Sexp::from(1u64), Sexp::from(2u64)]);
    assert_eq!(pretty_of(&v), "(\n  1\n  2\n)");
    assert_eq!(pretty_of(&Sexp::List(vec![])), "()");
}

#[test]
fn number_boundary_max_is_integer() {
    let v = from_str("18446744073709551615").unwrap();
    match v {
        Sexp::Number(n) => assert_eq!(n.as_u64(), Some(u64::MAX)),
        other => panic!("expected a number, got {:?}", other),
    }
}

#[test]
fn number_boundary_overflow_is_float() {
    let v = from_str("18446744073709551616").unwrap();
    match v {
        Sexp::Number(n) => {
            assert!(n.is_f64());
            // one digit was dropped at the overflow switch: the value is
            // approximate
            assert_eq!(n.as_decimal(), Some((false, 1844674407370955161, 1)));
        },
        other => panic!("expected a number, got {:?}", other),
    }
}

#[test]
fn leading_zero_rejected() {
    assert!(from_str("00").unwrap_err().is_syntax());
    assert!(from_str("01").unwrap_err().is_syntax());
    let zero = from_str("0").unwrap();
    assert_eq!(zero, Sexp::from(0u64));
    let half = from_str("0.5").unwrap();
    match half {
        Sexp::Number(n) => assert_eq!(n.as_decimal(), Some((false, 5, -1))),
        other => panic!("expected a number, got {:?}", other),
    }
}

#[test]
fn minus_zero_is_integer_zero() {
    assert_eq!(from_str("-0").unwrap(), Sexp::from(0u64));
}

#[test]
fn float_decode_normalizes() {
    match from_str("3.10").unwrap() {
        Sexp::Number(n) => assert_eq!(n.as_decimal(), Some((false, 31, -1))),
        other => panic!("expected a number, got {:?}", other),
    }
    match from_str("-0.0").unwrap() {
        Sexp::Number(n) => assert_eq!(n.as_decimal(), Some((true, 0, 0))),
        other => panic!("expected a number, got {:?}", other),
    }
}

#[test]
fn number_out_of_range_rejected() {
    let mut big = String::from("1");
    for _ in 0..309 {
        big.push('0');
    }
    let err = from_str(&big).unwrap_err();
    assert!(err.is_syntax());
    assert!(err.to_text().starts_with("number out of range"));
}

#[test]
fn pair_into_keyed_target() {
    let v = from_str("((a . b))").unwrap();
    assert_eq!(alist_get(&v, "a").unwrap(), Some(sym("b")));
}

#[test]
fn sequence_entry_into_keyed_target() {
    let v = from_str("((a b c))").unwrap();
    assert_eq!(
        alist_get(&v, "a").unwrap(),
        Some(Sexp::List(vec![sym("b"), sym("c")]))
    );
}

#[test]
fn dotted_list_value_equals_sequence_entry() {
    let sugar = from_str("((key some values))").unwrap();
    let dotted = from_str("((key . (some values)))").unwrap();
    assert_eq!(sugar, dotted);
}

#[test]
fn keyed_example_two_fields() {
    let v = from_str("((fingerprint . \"ABC\") (location . \"X\"))").unwrap();
    let entries = alist_entries(&v).unwrap();
    assert_eq!(entries.len(), 2);
    assert_eq!(entries[0].0.as_str(), "fingerprint");
    assert_eq!(entries[0].1, string_leaf("ABC"));
    assert_eq!(entries[1].0.as_str(), "location");
    assert_eq!(entries[1].1, string_leaf("X"));
}

#[test]
fn streaming_two_items_and_resume() {
    let data = b"(a 1) (b 2)";
    let mut stream = StreamDeserializer::new(data);
    let first = stream.next().unwrap().unwrap();
    assert_eq!(first, Sexp::List(vec![sym("a"), Sexp::from(1u64)]));
    let offset = stream.byte_offset();
    let second = stream.next().unwrap().unwrap();
    assert_eq!(second, Sexp::List(vec![sym("b"), Sexp::from(2u64)]));
    assert!(stream.next().is_none());
    // re-feeding from the reported offset decodes the remaining item
    let resumed = from_slice(&data[offset..]).unwrap();
    assert_eq!(resumed, second);
}

#[test]
fn streaming_rejects_bare_scalar() {
    let mut stream = StreamDeserializer::new(b"5");
    let err = stream.next().unwrap().unwrap_err();
    assert!(err.is_syntax());
    assert!(err.to_text().starts_with("expected `(`"));
}

#[test]
fn streaming_eof_keeps_offset_for_retry() {
    let mut stream = StreamDeserializer::new(b"(a 1) (b");
    let first = stream.next().unwrap().unwrap();
    assert_eq!(first, Sexp::List(vec![sym("a"), Sexp::from(1u64)]));
    let offset = stream.byte_offset();
    let err = stream.next().unwrap().unwrap_err();
    assert!(err.is_eof());
    // join new data to the reported offset and try again
    let mut joined = b"(a 1) (b".to_vec()[offset..].to_vec();
    joined.extend_from_slice(b" 2)");
    assert_eq!(
        from_slice(&joined).unwrap(),
        Sexp::List(vec![sym("b"), Sexp::from(2u64)])
    );
}

#[test]
fn recursion_limit_is_a_syntax_error() {
    let mut input = String::new();
    for _ in 0..129 {
        input.push('(');
    }
    let err = from_str(&input).unwrap_err();
    assert!(err.is_syntax());
    assert!(err.to_text().starts_with("recursion limit exceeded"));
}

#[test]
fn nesting_below_the_limit_is_accepted() {
    let mut input = String::new();
    for _ in 0..127 {
        input.push('(');
    }
    for _ in 0..127 {
        input.push(')');
    }
    let v = from_str(&input).unwrap();
    let mut expected = Sexp::List(vec![]);
    for _ in 0..126 {
        expected = Sexp::List(vec![expected]);
    }
    assert_eq!(v, expected);
}

#[test]
fn enum_variant_shapes() {
    let unit = from_str("Dog").unwrap();
    let (name, payload) = enum_variant(&unit).unwrap();
    assert_eq!(name.as_str(), "Dog");
    assert!(payload.is_empty());

    let data = from_str("(Frog 1 2)").unwrap();
    let (name, payload) = enum_variant(&data).unwrap();
    assert_eq!(name.as_str(), "Frog");
    assert_eq!(payload, vec![Sexp::from(1u64), Sexp::from(2u64)]);

    let bad = from_str("5").unwrap();
    assert!(enum_variant(&bad).unwrap_err().is_data());
}

#[test]
fn key_must_be_string_like() {
    let err = to_vec_alist(&vec![(Sexp::from(true), Sexp::from(1u64))]).unwrap_err();
    assert!(err.is_data());
    assert_eq!(err.to_text(), "key must be a string");

    let float_key = Sexp::Number(number_from_decimal(false, 15, -1).unwrap());
    let err = to_vec_alist(&vec![(float_key, Sexp::from(1u64))]).unwrap_err();
    assert!(err.is_data());

    // the same rejection through the pretty formatter
    let mut ser = sexpr::Serializer::pretty(Vec::new());
    let err = ser
        .serialize_alist(&vec![(Sexp::from(false), Sexp::from(1u64))])
        .unwrap_err();
    assert!(err.is_data());
}

#[test]
fn alist_encoding_round_trips() {
    let entries = vec![
        (sym("a"), Sexp::from(1u64)),
        (string_leaf("b"), Sexp::List(vec![Sexp::from(2u64), Sexp::from(3u64)])),
        (Sexp::from(7u64), Sexp::from(4u64)),
    ];
    let bytes = to_vec_alist(&entries).unwrap();
    assert_eq!(
        String::from_utf8(bytes.clone()).unwrap(),
        "((a . 1) (\"b\" . (2 3)) (\"7\" . 4))"
    );
    let back = from_slice(&bytes).unwrap();
    assert_eq!(alist_get(&back, "a").unwrap(), Some(Sexp::from(1u64)));
    assert_eq!(
        alist_get(&back, "b").unwrap(),
        Some(Sexp::List(vec![Sexp::from(2u64), Sexp::from(3u64)]))
    );
}

use sexpr::{from_str, Atom, Category, Sexp};

#[test]
fn empty_input_is_eof() {
    let err = from_str("").unwrap_err();
    assert!(err.is_eof());
    assert_eq!(err.classify(), Category::Eof);
}

#[test]
fn unterminated_list_is_eof() {
    let err = from_str("(a").unwrap_err();
    assert!(err.is_eof());
    assert_eq!(err.to_text(), "EOF while parsing a list at line 1 column 3");
}

#[test]
fn unterminated_string_is_eof() {
    let err = from_str("\"ab").unwrap_err();
    assert!(err.is_eof());
    assert!(err.to_text().starts_with("EOF while parsing a string"));
}

#[test]
fn missing_separator_rejected() {
    let err = from_str("(\"a\"\"b\")").unwrap_err();
    assert!(err.is_syntax());
    assert!(err.to_text().starts_with("expected ` ` or `)`"));
}

#[test]
fn stray_closing_parenthesis_rejected() {
    let err = from_str(")").unwrap_err();
    assert!(err.is_syntax());
    assert!(err.to_text().starts_with("expected value"));
}

#[test]
fn bad_hash_literal_rejected() {
    let err = from_str("#x").unwrap_err();
    assert!(err.is_syntax());
    assert!(err.to_text().starts_with("expected ident"));
}

#[test]
fn bad_escape_rejected() {
    let err = from_str("\"\\q\"").unwrap_err();
    assert!(err.is_syntax());
    assert!(err.to_text().starts_with("invalid escape"));
}

#[test]
fn truncated_hex_escape_rejected() {
    let err = from_str("\"\\u00").unwrap_err();
    assert!(err.is_syntax());
    assert!(err.to_text().starts_with("unexpected end of hex escape"));
}

#[test]
fn non_ascii_hex_escape_rejected() {
    let err = from_str("\"\\u00ff\"").unwrap_err();
    assert!(err.is_syntax());
    assert!(err.to_text().starts_with("invalid unicode code point"));
}

#[test]
fn fraction_needs_a_digit() {
    let err = from_str("1.").unwrap_err();
    assert!(err.is_syntax());
    assert!(err.to_text().starts_with("invalid number"));
}

#[test]
fn trailing_characters_rejected() {
    let err = from_str("1 2").unwrap_err();
    assert!(err.is_syntax());
    assert_eq!(err.to_text(), "trailing characters at line 1 column 3");
}

#[test]
fn shape_mismatch_is_data() {
    let v = from_str("5").unwrap();
    let err = sexpr::alist_entries(&v).unwrap_err();
    assert!(err.is_data());
    assert_eq!(err.line(), 0);
    assert_eq!(err.column(), 0);
}

#[test]
fn position_counts_lines_and_columns() {
    let err = from_str("(\n#x)").unwrap_err();
    assert_eq!(err.line(), 2);
    assert_eq!(err.column(), 2);
}

#[test]
fn fix_position_keeps_first_position() {
    let err = from_str("00").unwrap_err();
    assert_eq!((err.line(), err.column()), (1, 2));
    let err = err.fix_position(9, 9);
    assert_eq!((err.line(), err.column()), (1, 2));
}

#[test]
fn escapes_round_trip() {
    let v = from_str("\"a\\\"b\\\\c\\/d\\b\\f\\n\\r\\t\\u0001e\"").unwrap();
    assert_eq!(
        v,
        Sexp::new_string("a\"b\\c/d\u{8}\u{c}\n\r\t\u{1}e".to_string())
    );
    let bytes = sexpr::to_vec(&v).unwrap();
    assert_eq!(
        String::from_utf8(bytes.clone()).unwrap(),
        "\"a\\\"b\\\\c/d\\b\\f\\n\\r\\t\\u0001e\""
    );
    assert_eq!(sexpr::from_slice(&bytes).unwrap(), v);
}

#[test]
fn non_ascii_text_round_trips() {
    let v = from_str("\"caf\u{e9} \u{1f600}\"").unwrap();
    assert_eq!(v, Sexp::new_string("caf\u{e9} \u{1f600}".to_string()));
    let bytes = sexpr::to_vec(&v).unwrap();
    assert_eq!(sexpr::from_slice(&bytes).unwrap(), v);
}

#[test]
fn atom_discrimination() {
    let kw = Atom::from_str("#:keyword");
    assert!(kw.is_keyword());
    assert_eq!(kw.as_str(), "keyword");
    let quoted = Atom::from_str("\"string\"");
    assert!(quoted.is_string());
    assert_eq!(quoted.as_str(), "string");
    let bare = Atom::from_str("symbol");
    assert!(bare.is_symbol());
    assert_eq!(bare.as_str(), "symbol");
}

#[test]
fn keyword_value_round_trips() {
    let v = from_str("#:kw").unwrap();
    assert_eq!(v, Sexp::new_keyword("kw".to_string()));
    assert_eq!(String::from_utf8(sexpr::to_vec(&v).unwrap()).unwrap(), "#:kw");
}

#[test]
fn nil_literal_decodes_to_nil() {
    assert_eq!(from_str("#nil").unwrap(), Sexp::Nil);
    assert_eq!(String::from_utf8(sexpr::to_vec(&Sexp::Nil).unwrap()).unwrap(), "#nil");
}

#[test]
fn pair_with_nil_tail_is_proper_list() {
    let v = from_str("(a . #nil)").unwrap();
    assert_eq!(v, Sexp::List(vec![Sexp::new_symbol("a".to_string())]));
}

#[test]
fn deserializer_end_checks_trailing_text() {
    let mut de = sexpr::Deserializer::from_str("(a) ");
    let v = de.parse_value().unwrap();
    assert_eq!(v, Sexp::List(vec![Sexp::new_symbol("a".to_string())]));
    assert!(de.end().is_ok());

    let mut de = sexpr::Deserializer::from_str("(a) b");
    de.parse_value().unwrap();
    assert!(de.end().unwrap_err().is_syntax());
}

#[test]
fn number_accessors() {
    let v = from_str("7").unwrap();
    match v {
        Sexp::Number(n) => {
            assert!(n.is_u64());
            assert!(n.is_i64());
            assert!(!n.is_f64());
            assert_eq!(n.as_u64(), Some(7));
            assert_eq!(n.as_i64(), Some(7));
        },
        other => panic!("expected a number, got {:?}", other),
    }
    let v = from_str("-9223372036854775808").unwrap();
    match v {
        Sexp::Number(n) => {
            assert_eq!(n.as_i64(), Some(i64::MIN));
            assert_eq!(n.as_u64(), None);
        },
        other => panic!("expected a number, got {:?}", other),
    }
}

#[test]
fn negative_magnitude_beyond_signed_range_is_float() {
    let v = from_str("-9223372036854775809").unwrap();
    match v {
        Sexp::Number(n) => {
            assert!(n.is_f64());
            assert_eq!(n.as_decimal(), Some((true, 9223372036854775809, 0)));
        },
        other => panic!("expected a number, got {:?}", other),
    }
}

#[test]
fn io_errors_carry_no_position() {
    let io_err = std::io::Error::new(std::io::ErrorKind::Other, "closed");
    let err = sexpr::Error::io(io_err);
    assert!(err.is_io());
    assert_eq!((err.line(), err.column()), (0, 0));
    assert_eq!(err.to_text(), "IO error");
}

#[test]
fn fix_position_attaches_to_unpositioned_errors() {
    let v = from_str("5").unwrap();
    let err = sexpr::alist_entries(&v).unwrap_err();
    assert_eq!(err.line(), 0);
    let err = err.fix_position(3, 4);
    assert_eq!((err.line(), err.column()), (3, 4));
}

#[test]
fn positions_render_with_more_than_one_digit() {
    let input = format!("{}#x", " ".repeat(11));
    let err = from_str(&input).unwrap_err();
    assert_eq!((err.line(), err.column()), (1, 13));
    assert_eq!(err.to_text(), "expected ident at line 1 column 13");
}

#[test]
fn deserializer_into_iter_streams_the_rest() {
    let de = sexpr::Deserializer::from_str("(a) (b)");
    let mut stream = de.into_iter();
    let first = stream.next().unwrap().unwrap();
    assert_eq!(first, Sexp::List(vec![Sexp::new_symbol("a".to_string())]));
    let second = stream.next().unwrap().unwrap();
    assert_eq!(second, Sexp::List(vec![Sexp::new_symbol("b".to_string())]));
    assert!(stream.next().is_none());
    assert_eq!(stream.byte_offset(), 7);
}

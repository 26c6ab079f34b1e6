use sexpr::{from_str, number_from_decimal, to_vec, Sexp};

fn text(v: &Sexp) -> String {
    String::from_utf8(to_vec(v).unwrap()).unwrap()
}

#[test]
fn test_struct_symbol_keys() {
    let s = "((fingerprint . \"0xF9BA143B95FF6D82\")
                  (location . \"Menlo Park, CA\"))";
    let user = from_str(s).unwrap();
    let fingerprint = match sexpr::alist_get(&user, "fingerprint").unwrap().unwrap() {
        Sexp::Atom(a) => a.as_string(),
        other => panic!("expected a string, got {:?}", other),
    };
    let location = match sexpr::alist_get(&user, "location").unwrap().unwrap() {
        Sexp::Atom(a) => a.as_string(),
        other => panic!("expected a string, got {:?}", other),
    };
    assert_eq!(
        (fingerprint.as_str(), location.as_str()),
        ("0xF9BA143B95FF6D82", "Menlo Park, CA")
    );
}

#[test]
fn test_struct_string_keys() {
    let s = "((\"fingerprint\" . \"0xF9BA143B95FF6D82\")
                  (\"location\" . \"Menlo Park, CA\"))";
    let user = from_str(s).unwrap();
    let fingerprint = match sexpr::alist_get(&user, "fingerprint").unwrap().unwrap() {
        Sexp::Atom(a) => a.as_string(),
        other => panic!("expected a string, got {:?}", other),
    };
    let location = match sexpr::alist_get(&user, "location").unwrap().unwrap() {
        Sexp::Atom(a) => a.as_string(),
        other => panic!("expected a string, got {:?}", other),
    };
    assert_eq!(
        (fingerprint.as_str(), location.as_str()),
        ("0xF9BA143B95FF6D82", "Menlo Park, CA")
    );
}

#[test]
fn test_write_u64() {
    assert_eq!(text(&Sexp::from(3u64)), "3");
    assert_eq!(text(&Sexp::from(u64::MAX)), u64::MAX.to_string());
}

#[test]
fn test_write_i64() {
    assert_eq!(text(&Sexp::from(3i64)), "3");
    assert_eq!(text(&Sexp::from(-2i64)), "-2");
    assert_eq!(text(&Sexp::from(-1234i64)), "-1234");
    assert_eq!(text(&Sexp::from(i64::MIN)), i64::MIN.to_string());
}

#[test]
fn test_write_f64() {
    // the decimal forms of 3.0, 3.1, -1.5 and 0.5
    let three = Sexp::Number(number_from_decimal(false, 3, 0).unwrap());
    assert_eq!(text(&three), "3.0");
    let three_one = Sexp::Number(number_from_decimal(false, 31, -1).unwrap());
    assert_eq!(text(&three_one), "3.1");
    let minus_three_halves = Sexp::Number(number_from_decimal(true, 15, -1).unwrap());
    assert_eq!(text(&minus_three_halves), "-1.5");
    let half = Sexp::Number(number_from_decimal(false, 5, -1).unwrap());
    assert_eq!(text(&half), "0.5");
}

#[test]
fn test_write_str() {
    assert_eq!(text(&Sexp::new_string("".to_string())), "\"\"");
    assert_eq!(text(&Sexp::new_string("foo".to_string())), "\"foo\"");
}

#[test]
fn test_write_bool() {
    assert_eq!(text(&Sexp::from(true)), "#t");
    assert_eq!(text(&Sexp::from(false)), "#f");
}

#[test]
fn test_write_sym() {
    assert_eq!(text(&Sexp::new_string("a".to_string())), "\"a\"");
}

#[test]
fn test_pair() {
    let pair = Sexp::new_entry(sexpr::Atom::from_str("hello"), Sexp::new_string("world".to_string()));
    assert_eq!(text(&pair), "(hello . \"world\")");
}

#[test]
fn test_improper_list() {
    let v = Sexp::new_improper_list(
        vec![Sexp::from(1u64), Sexp::from(2u64), Sexp::new_string("hello".to_string())],
        Sexp::new_string("world".to_string()),
    );
    assert_eq!(text(&v), "(1 2 \"hello\" . \"world\")");
}

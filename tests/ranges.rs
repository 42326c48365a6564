use qlschema::lex::lex;
use qlschema::parse::{parse_data_type, parse_dbl_range, parse_int_range};
use qlschema::schema::SymbolTable;

fn maps_to_int_range(s: &str) -> bool {
    let toks = lex(s).expect("lexes");
    let (range, end) = parse_int_range(&toks, 0).expect("parses");
    assert_eq!(end, toks.len());
    range.to_text() == s
}

fn maps_to_dbl_range(s: &str) -> bool {
    let toks = lex(s).expect("lexes");
    let (range, end) = parse_dbl_range(&toks, 0).expect("parses");
    assert_eq!(end, toks.len());
    range.to_text() == s
}

fn maps_to_data_type(s: &str) -> bool {
    let toks = lex(s).expect("lexes");
    let syms = SymbolTable::new();
    let (dtype, end) = parse_data_type(&toks, 0, &syms).expect("parses");
    assert_eq!(end, toks.len());
    dtype.to_text() == s
}

#[test]
fn int_range_test() {
    assert!(maps_to_int_range("<5,10>"));
    assert!(maps_to_int_range("<10,10>"));
    assert!(maps_to_int_range("<,10>"));
    assert!(maps_to_int_range("<5,>"));
}

#[test]
fn dbl_range_test() {
    assert!(maps_to_dbl_range("<5,>"));
    assert!(maps_to_dbl_range("<,10>"));
    assert!(maps_to_dbl_range("<1.1,9.9>"));
    assert!(maps_to_dbl_range("<1.1,9.900009>"));
}

#[test]
fn data_type_test() {
    assert!(maps_to_data_type("int?<5,10>"));
    assert!(maps_to_data_type("int<5,10>"));
}

#[test]
fn round_trip_more_texts() {
    assert!(maps_to_int_range("<,>"));
    assert!(maps_to_int_range("<-7,-2>"));
    assert!(maps_to_int_range("<-2147483648,2147483647>"));
    assert!(maps_to_dbl_range("<-0.05,100.5>"));
    assert!(maps_to_data_type("str?<1,50>"));
    assert!(maps_to_data_type("dbl<0,100>"));
    assert!(maps_to_data_type("dbl?<-1.25,>"));
}

#[test]
fn dbl_text_is_normalised() {
    let toks = lex("<5.0,1.10>").unwrap();
    let (range, _) = parse_dbl_range(&toks, 0).unwrap();
    assert_eq!(range.to_text(), "<5,1.1>");
}

#[test]
fn range_is_optional_and_nullability_may_follow_it() {
    let syms = SymbolTable::new();
    let toks = lex("int").unwrap();
    let (dtype, end) = parse_data_type(&toks, 0, &syms).unwrap();
    assert_eq!(end, 1);
    assert!(!dtype.nullable);
    assert_eq!(dtype.to_text(), "int<,>");

    let toks = lex("integer<1,2>?").unwrap();
    let (dtype, end) = parse_data_type(&toks, 0, &syms).unwrap();
    assert_eq!(end, toks.len());
    assert_eq!(dtype.to_text(), "int?<1,2>");

    let toks = lex("text?").unwrap();
    let (dtype, _) = parse_data_type(&toks, 0, &syms).unwrap();
    assert_eq!(dtype.to_text(), "str?<,>");
}

#[test]
fn int_range_rejects_a_double_bound() {
    let toks = lex("<1.5,2>").unwrap();
    assert_eq!(
        parse_int_range(&toks, 0).unwrap_err(),
        qlschema::parse::ParseError::Unexpected(1)
    );
}

#[test]
fn type_names_are_case_sensitive() {
    let syms = SymbolTable::new();
    let toks = lex("INT<1,2>").unwrap();
    assert_eq!(
        parse_data_type(&toks, 0, &syms).unwrap_err(),
        qlschema::parse::ParseError::UnknownType(0)
    );
}

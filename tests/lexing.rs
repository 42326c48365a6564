use qlschema::decimal::Decimal;
use qlschema::lex::{lex, LexError, Token};

#[test]
fn lexes_every_kind_of_token() {
    let toks = lex("type t table ( ) < > , = ? : ; name_1 -12 3.50 \"a b\"").unwrap();
    assert_eq!(toks.len(), 16);
    assert!(matches!(toks[0], Token::TypeKwd));
    assert!(matches!(&toks[1], Token::Ident(n) if n == "t"));
    assert!(matches!(toks[2], Token::TableKwd));
    assert!(matches!(toks[3], Token::OParen));
    assert!(matches!(toks[4], Token::CParen));
    assert!(matches!(toks[5], Token::OAngle));
    assert!(matches!(toks[6], Token::CAngle));
    assert!(matches!(toks[7], Token::Comma));
    assert!(matches!(toks[8], Token::Equals));
    assert!(matches!(toks[9], Token::QMark));
    assert!(matches!(toks[10], Token::Colon));
    assert!(matches!(toks[11], Token::Semicolon));
    assert!(matches!(&toks[12], Token::Ident(n) if n == "name_1"));
    assert!(matches!(toks[13], Token::IntLiteral(-12)));
    assert!(matches!(
        toks[14],
        Token::DblLiteral(Decimal { negative: false, mantissa: 35, scale: 1 })
    ));
    assert!(matches!(&toks[15], Token::StrLiteral(s) if s == "a b"));
}

#[test]
fn keywords_need_a_whole_word() {
    let toks = lex("types tablet").unwrap();
    assert!(matches!(&toks[0], Token::Ident(n) if n == "types"));
    assert!(matches!(&toks[1], Token::Ident(n) if n == "tablet"));
}

#[test]
fn empty_and_blank_sources_have_no_tokens() {
    assert_eq!(lex("").unwrap().len(), 0);
    assert_eq!(lex(" \n\t ").unwrap().len(), 0);
}

#[test]
fn unmatched_character_is_reported_at_its_position() {
    assert_eq!(lex("ab $").unwrap_err(), LexError::Unmatched(3));
    assert_eq!(lex("\"open").unwrap_err(), LexError::Unmatched(0));
    assert_eq!(lex("- 1").unwrap_err(), LexError::Unmatched(0));
}

#[test]
fn integer_limits() {
    assert!(matches!(lex("2147483647").unwrap()[0], Token::IntLiteral(2147483647)));
    assert!(matches!(lex("-2147483648").unwrap()[0], Token::IntLiteral(-2147483648)));
    assert_eq!(lex("x 2147483648").unwrap_err(), LexError::BadNumber(2));
    assert_eq!(lex("-2147483649").unwrap_err(), LexError::BadNumber(0));
}

#[test]
fn decimal_limits() {
    let toks = lex("123456789.123456789").unwrap();
    assert!(matches!(
        toks[0],
        Token::DblLiteral(Decimal { negative: false, mantissa: 123456789123456789, scale: 9 })
    ));
    assert_eq!(lex("1234567890.123456789").unwrap_err(), LexError::BadNumber(0));
    assert!(matches!(
        lex("-0.0").unwrap()[0],
        Token::DblLiteral(Decimal { negative: false, mantissa: 0, scale: 0 })
    ));
}

#[test]
fn decimal_order_and_text() {
    let a = Decimal { negative: false, mantissa: 11, scale: 1 };
    let b = Decimal { negative: false, mantissa: 9900009, scale: 6 };
    let c = Decimal { negative: true, mantissa: 5, scale: 0 };
    assert!(a.le(&b));
    assert!(!b.le(&a));
    assert!(c.le(&a));
    assert!(a.le(&a));
    assert_eq!(Decimal::from_int(-5), c);
    let mut s = String::new();
    b.push_text(&mut s);
    assert_eq!(s, "9.900009");
    let mut s = String::new();
    Decimal { negative: true, mantissa: 5, scale: 3 }.push_text(&mut s);
    assert_eq!(s, "-0.005");
}

#[test]
fn positions_are_byte_offsets() {
    assert_eq!(lex("é").unwrap_err(), LexError::Unmatched(0));
    assert_eq!(lex("\"é\" $").unwrap_err(), LexError::Unmatched(5));
    assert_eq!(lex("\"日本\" 99999999999").unwrap_err(), LexError::BadNumber(9));
}

#[test]
fn unicode_white_space_is_skipped() {
    let toks = lex("type\u{A0}t\u{3000}int\u{2028};").unwrap();
    assert_eq!(toks.len(), 4);
    assert!(matches!(toks[0], Token::TypeKwd));
    assert!(matches!(toks[3], Token::Semicolon));
}

#[test]
fn decimal_well_formedness() {
    assert!(Decimal { negative: false, mantissa: 15, scale: 1 }.is_well_formed());
    assert!(!Decimal { negative: false, mantissa: 150, scale: 2 }.is_well_formed());
    assert!(!Decimal { negative: true, mantissa: 0, scale: 0 }.is_well_formed());
    assert!(!Decimal { negative: false, mantissa: 1, scale: 18 }.is_well_formed());
    assert!(!Decimal { negative: false, mantissa: 1000000000000000000, scale: 0 }.is_well_formed());
}

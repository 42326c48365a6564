use qlschema::decimal::Decimal;
use qlschema::lex::{lex, LexError};
use qlschema::parse::{parse_source, Parse, ParseError, SyntaxError};
use qlschema::schema::{
    ColumnSchema, DataType, Literal, ParentType, Prgm, Range, Stmt, Symbol, SymbolTable, TableSchema,
};
use qlschema::validate::{compile, validate_prgm, PrgmValidState, QlError, Validate, ValidationError};

fn int_type(min: Option<i32>, max: Option<i32>) -> DataType {
    DataType { parent: ParentType::Int(Range { min, max }), nullable: false }
}

fn column(name: &str, dtype: DataType) -> ColumnSchema {
    ColumnSchema { column_name: name.to_string(), dtype, default_value: None }
}

#[test]
fn range_ordering() {
    let mut st = PrgmValidState::new();
    let bad = Range { min: Some(5), max: Some(3) };
    assert!(matches!(bad.validate(&mut st), Err(ValidationError::IntRangeOrder(5, 3))));
    assert!(Range { min: Some(3), max: Some(5) }.validate(&mut st).is_ok());
    assert!(Range::<i32> { min: None, max: None }.validate(&mut st).is_ok());
    assert!(Range { min: Some(4), max: Some(4) }.validate(&mut st).is_ok());
    let hi = Decimal { negative: false, mantissa: 25, scale: 1 };
    let lo = Decimal { negative: false, mantissa: 2, scale: 0 };
    assert!(matches!(
        Range { min: Some(hi), max: Some(lo) }.validate(&mut st),
        Err(ValidationError::DblRangeOrder(a, b)) if a == hi && b == lo
    ));
    assert!(Range { min: Some(lo), max: Some(hi) }.validate(&mut st).is_ok());
}

#[test]
fn string_bound_sign() {
    let mut st = PrgmValidState::new();
    for max in [None, Some(-5), Some(0), Some(10)] {
        let p = ParentType::Str(Range { min: Some(-1), max });
        assert!(matches!(p.validate(&mut st), Err(ValidationError::NegativeLength(-1))));
    }
    let p = ParentType::Str(Range { min: Some(1), max: Some(-2) });
    assert!(matches!(p.validate(&mut st), Err(ValidationError::NegativeLength(-2))));
    let p = ParentType::Str(Range { min: Some(0), max: Some(3) });
    assert!(p.validate(&mut st).is_ok());
}

#[test]
fn duplicate_table_fails_at_the_second_statement() {
    let r = parse_source("table t(a: int); table t(b: int);");
    assert_eq!(r.unwrap_err(), SyntaxError::Parse(ParseError::Duplicate(9)));
}

#[test]
fn duplicate_column_fails_validation_only() {
    let src = "table t(a: int, a: dbl);";
    let prgm = parse_source(src).unwrap();
    assert_eq!(prgm.stmts.len(), 1);
    assert!(matches!(validate_prgm(&prgm), Err(ValidationError::DuplicateColumn(n)) if n == "a"));
    assert!(matches!(compile(src), Err(QlError::Invalid(ValidationError::DuplicateColumn(n))) if n == "a"));
}

#[test]
fn type_and_table_share_one_namespace() {
    let r = parse_source("type t int; table t(a: int);");
    assert_eq!(r.unwrap_err(), SyntaxError::Parse(ParseError::Duplicate(5)));
    let r = parse_source("type t int; type t dbl;");
    assert_eq!(r.unwrap_err(), SyntaxError::Parse(ParseError::Duplicate(5)));
}

#[test]
fn forward_reference_rejection() {
    let r = parse_source("table t(a: myint); type myint int;");
    assert_eq!(r.unwrap_err(), SyntaxError::Parse(ParseError::UnknownType(5)));
}

#[test]
fn alias_resolution() {
    let prgm = compile("type myint int<0,100>; table t(a: myint?);").unwrap();
    assert_eq!(prgm.stmts.len(), 2);
    assert_eq!(prgm.tables().len(), 1);
    match &prgm.stmts[1] {
        Stmt::TableSchema(t) => {
            assert_eq!(t.table_name, "t");
            assert_eq!(t.columns.len(), 1);
            assert_eq!(t.columns[0].column_name, "a");
            assert!(t.columns[0].dtype.nullable);
            assert!(matches!(
                t.columns[0].dtype.parent,
                ParentType::Int(Range { min: Some(0), max: Some(100) })
            ));
            assert_eq!(t.columns[0].dtype.to_text(), "int?<0,100>");
        }
        _ => panic!("expected a table"),
    }
}

#[test]
fn alias_nullability_is_decided_at_the_use_site() {
    let prgm = compile("type n int?<1,2>; table t(a: n);").unwrap();
    match &prgm.stmts[1] {
        Stmt::TableSchema(t) => assert!(!t.columns[0].dtype.nullable),
        _ => panic!("expected a table"),
    }
}

#[test]
fn unknown_identifier() {
    let r = parse_source("table t(a: unknown);");
    assert_eq!(r.unwrap_err(), SyntaxError::Parse(ParseError::UnknownType(5)));
    assert!(matches!(
        compile("table t(a: unknown);"),
        Err(QlError::Syntax(SyntaxError::Parse(ParseError::UnknownType(5))))
    ));
}

#[test]
fn end_to_end() {
    let prgm = compile("type percent dbl<0,100>; table scores(name: str<1,50>, score: percent);").unwrap();
    let tables: Vec<&TableSchema> = prgm.tables();
    assert_eq!(tables.len(), 1);
    let t = tables[0];
    assert_eq!(t.table_name, "scores");
    assert_eq!(t.columns.len(), 2);
    assert_eq!(t.columns[0].column_name, "name");
    assert!(matches!(t.columns[0].dtype.parent, ParentType::Str(Range { min: Some(1), max: Some(50) })));
    assert!(!t.columns[0].dtype.nullable);
    assert_eq!(t.columns[1].column_name, "score");
    assert!(!t.columns[1].dtype.nullable);
    assert_eq!(t.columns[1].dtype.to_text(), "dbl<0,100>");
}

#[test]
fn empty_program_and_empty_table() {
    assert_eq!(compile("").unwrap().stmts.len(), 0);
    let prgm = compile("table t();").unwrap();
    match &prgm.stmts[0] {
        Stmt::TableSchema(t) => assert_eq!(t.columns.len(), 0),
        _ => panic!("expected a table"),
    }
}

#[test]
fn quoted_names_are_accepted() {
    let prgm = compile("table \"my table\"(\"a col\": int);").unwrap();
    match &prgm.stmts[0] {
        Stmt::TableSchema(t) => {
            assert_eq!(t.table_name, "my table");
            assert_eq!(t.columns[0].column_name, "a col");
        }
        _ => panic!("expected a table"),
    }
}

#[test]
fn syntax_errors() {
    assert_eq!(parse_source("table t(a: int)").unwrap_err(), SyntaxError::Parse(ParseError::Unexpected(7)));
    assert_eq!(parse_source("table t(a: int);;").unwrap_err(), SyntaxError::Parse(ParseError::Unexpected(8)));
    assert_eq!(parse_source("table t(a int);").unwrap_err(), SyntaxError::Parse(ParseError::Unexpected(4)));
    assert_eq!(parse_source("table t(a: int,);").unwrap_err(), SyntaxError::Parse(ParseError::Unexpected(7)));
    assert_eq!(parse_source("type t;").unwrap_err(), SyntaxError::Parse(ParseError::Unexpected(2)));
    assert_eq!(parse_source("table t(a: int<1 2>);").unwrap_err(), SyntaxError::Parse(ParseError::Unexpected(8)));
    assert_eq!(parse_source("table t(a: int) &").unwrap_err(), SyntaxError::Lex(LexError::Unmatched(16)));
    assert!(matches!(compile("table t(a: int"), Err(QlError::Syntax(SyntaxError::Parse(ParseError::Unexpected(6))))));
}

#[test]
fn validation_errors_on_built_programs() {
    let dup_type = Prgm {
        stmts: vec![
            Stmt::TypeDef("x".to_string(), int_type(None, None)),
            Stmt::TypeDef("x".to_string(), int_type(None, None)),
        ],
    };
    assert!(matches!(validate_prgm(&dup_type), Err(ValidationError::DuplicateType(n)) if n == "x"));

    let table = || TableSchema { table_name: "t".to_string(), columns: vec![column("a", int_type(None, None))] };
    let dup_table = Prgm { stmts: vec![Stmt::TableSchema(table()), Stmt::TableSchema(table())] };
    assert!(matches!(validate_prgm(&dup_table), Err(ValidationError::DuplicateTable(n)) if n == "t"));

    let unresolved = DataType { parent: ParentType::Ident("later".to_string()), nullable: false };
    let prgm = Prgm {
        stmts: vec![
            Stmt::TableSchema(TableSchema { table_name: "t".to_string(), columns: vec![column("a", unresolved)] }),
            Stmt::TypeDef("later".to_string(), int_type(None, None)),
        ],
    };
    assert!(matches!(validate_prgm(&prgm), Err(ValidationError::UnknownType(n)) if n == "later"));

    let resolved = DataType { parent: ParentType::Ident("early".to_string()), nullable: true };
    let prgm = Prgm {
        stmts: vec![
            Stmt::TypeDef("early".to_string(), int_type(None, None)),
            Stmt::TableSchema(TableSchema { table_name: "t".to_string(), columns: vec![column("a", resolved)] }),
        ],
    };
    assert!(validate_prgm(&prgm).is_ok());

    let bad_range = Prgm {
        stmts: vec![Stmt::TypeDef("r".to_string(), int_type(Some(9), Some(1)))],
    };
    assert!(matches!(validate_prgm(&bad_range), Err(ValidationError::IntRangeOrder(9, 1))));
    assert!(matches!(compile("type r int<9,1>;"), Err(QlError::Invalid(ValidationError::IntRangeOrder(9, 1)))));
    assert!(matches!(compile("type s str<-1,>;"), Err(QlError::Invalid(ValidationError::NegativeLength(-1)))));
}

#[test]
fn literal_queries() {
    let i = Literal::Int(7);
    let d = Literal::Dbl(Decimal { negative: false, mantissa: 15, scale: 1 });
    let s = Literal::Str("x".to_string());
    assert!(i.is_int_literal() && i.is_dbl_literal() && !i.is_str_literal());
    assert!(!d.is_int_literal() && d.is_dbl_literal() && !d.is_str_literal());
    assert!(!s.is_int_literal() && !s.is_dbl_literal() && s.is_str_literal());
    assert_eq!(i.get_int(), Some(7));
    assert_eq!(d.get_int(), None);
    assert_eq!(i.get_dbl(), Some(Decimal { negative: false, mantissa: 7, scale: 0 }));
    assert_eq!(d.get_dbl(), Some(Decimal { negative: false, mantissa: 15, scale: 1 }));
    assert_eq!(s.get_dbl(), None);
    assert_eq!(s.get_str().map(|v| v.as_str()), Some("x"));
    assert_eq!(i.get_str(), None);
}

#[test]
fn rendering_columns_tables_and_statements() {
    let prgm = compile("type p dbl<0,1.5>; table t(a: int?<1,>, \"b c\": p);").unwrap();
    assert_eq!(prgm.stmts[0].to_text(), "type p dbl<0,1.5>;");
    assert_eq!(prgm.stmts[1].to_text(), "table t (a: int?<1,>, b c: dbl<0,1.5>);");
    assert_eq!(prgm.to_text(), "table t (a: int?<1,>, b c: dbl<0,1.5>);\n");
    let t = TableSchema {
        table_name: "u".to_string(),
        columns: vec![ColumnSchema {
            column_name: "k".to_string(),
            dtype: int_type(None, Some(3)),
            default_value: Some(Literal::Str("z".to_string())),
        }],
    };
    assert_eq!(t.to_text(), "u (k: int<,3> = \"z\")");
    let empty = TableSchema { table_name: "e".to_string(), columns: vec![] };
    assert_eq!(empty.to_text(), "e ()");
}

#[test]
fn statements_define_names_only_when_whole() {
    let mut syms = SymbolTable::new();
    let toks = lex("type small int<0,9>; table t(a: small)").unwrap();
    let (stmt, end) = Stmt::parse(&toks, 0, &mut syms).unwrap();
    assert_eq!(end, 8);
    assert_eq!(stmt.to_text(), "type small int<0,9>;");
    assert!(matches!(syms.get(&"small".to_string()), Some(Symbol::DataType(_))));
    // A table that does not parse leaves no name behind.
    let bad = lex("table u(a: nothing)").unwrap();
    assert_eq!(Stmt::parse(&bad, 0, &mut syms).unwrap_err(), ParseError::UnknownType(5));
    assert!(syms.get(&"u".to_string()).is_none());
    let (_, end) = Stmt::parse(&toks, 9, &mut syms).unwrap();
    assert_eq!(end, toks.len());
    match syms.get(&"t".to_string()) {
        Some(Symbol::Table(t)) => {
            assert_eq!(t.table_name, "t");
            assert_eq!(t.columns.len(), 1);
        }
        _ => panic!("expected a table symbol"),
    }
}

#[test]
fn rejected_statements_change_no_state() {
    let mut st = PrgmValidState::new();
    let first = Stmt::TypeDef("x".to_string(), int_type(None, None));
    assert!(first.validate(&mut st).is_ok());
    assert!(st.dtypes.contains(&"x".to_string()));
    let again = Stmt::TypeDef("x".to_string(), int_type(None, None));
    assert!(matches!(again.validate(&mut st), Err(ValidationError::DuplicateType(_))));
    assert!(st.dtypes.contains(&"x".to_string()));
    assert!(!st.tables.contains(&"x".to_string()));

    let mut syms = SymbolTable::new();
    let toks = lex("table t(a: int); type t int;").unwrap();
    assert!(Stmt::parse(&toks, 0, &mut syms).is_ok());
    assert_eq!(Stmt::parse(&toks, 8, &mut syms).unwrap_err(), ParseError::Duplicate(9));
    assert!(matches!(syms.get(&"t".to_string()), Some(Symbol::Table(_))));
}

//! The parser: recursive descent over a token sequence, one spec function per
//! production. A production reads from a position and either fails, leaving
//! its caller's position as it was, or succeeds with the position after it.
use vstd::prelude::*;
use crate::decimal::Decimal;
use crate::lex::{token_wf, tokens_view, Token, TokenV};
use crate::lex::{lex, lex_from, LexError};
use crate::schema::{
    columns_wf, dbl_range_wf, dtype_wf, stmts_wf, ColumnSchema, ColumnV, DataType, DataTypeV, DblRange, IntRange,
    ParentType, ParentTypeV, Prgm, Range, Stmt, StmtV, Symbol, SymbolTable, SymbolV, TableSchema,
    TableV,
};

verus! {

/// Why parsing failed, with the token position where it did (the number of
/// tokens when the input ended early).
#[derive(Clone, Copy, Debug, PartialEq, Eq, Structural)]
pub enum ParseError {
    /// Another token was expected here.
    Unexpected(usize),
    /// This name is neither a primitive type nor a type defined before.
    UnknownType(usize),
    /// This name is defined already.
    Duplicate(usize),
}

/// One of the three primitive type families.
#[derive(Clone, Copy, Debug, PartialEq, Eq, Structural)]
pub enum Family {
    Int,
    Str,
    Dbl,
}

pub open spec fn family_of(n: Seq<char>) -> Option<Family> {
    if n == seq!['i', 'n', 't'] || n == seq!['i', 'n', 't', 'e', 'g', 'e', 'r'] {
        Some(Family::Int)
    } else if n == seq!['s', 't', 'r'] || n == seq!['s', 't', 'r', 'i', 'n', 'g'] || n == seq![
        't',
        'e',
        'x',
        't',
    ] {
        Some(Family::Str)
    } else if n == seq!['d', 'b', 'l'] || n == seq!['d', 'o', 'u', 'b', 'l', 'e'] || n == seq![
        'f',
        'l',
        'o',
        'a',
        't',
    ] {
        Some(Family::Dbl)
    } else {
        None
    }
}

/// Whether the token at `k` is `tok`.
pub open spec fn tok_at(t: Seq<TokenV>, k: int, tok: TokenV) -> bool {
    0 <= k < t.len() && t[k] == tok
}

/// A token that carries nothing.
pub open spec fn is_plain(tok: TokenV) -> bool {
    !(tok is Ident || tok is IntLiteral || tok is DblLiteral || tok is StrLiteral)
}

/// The name at `k`: an identifier, or a quoted string.
pub open spec fn name_at(t: Seq<TokenV>, k: int) -> Option<Seq<char>> {
    if 0 <= k < t.len() {
        match t[k] {
            TokenV::Ident(n) => Some(n),
            TokenV::StrLiteral(n) => Some(n),
            _ => None,
        }
    } else {
        None
    }
}

/// The bound of an integer range at `k`: an integer literal.
pub open spec fn int_bound_at(t: Seq<TokenV>, k: int) -> Option<i32> {
    if 0 <= k < t.len() {
        match t[k] {
            TokenV::IntLiteral(v) => Some(v),
            _ => None,
        }
    } else {
        None
    }
}

/// The bound of a double range at `k`: a double literal, or an integer widened.
pub open spec fn dbl_bound_at(t: Seq<TokenV>, k: int) -> Option<Decimal> {
    if 0 <= k < t.len() {
        match t[k] {
            TokenV::IntLiteral(v) => Some(Decimal::of_int(v)),
            TokenV::DblLiteral(d) => Some(d),
            _ => None,
        }
    } else {
        None
    }
}

/// An optional bound, and the position after it.
pub open spec fn opt_step<T>(b: Option<T>, k: int) -> (Option<T>, int) {
    match b {
        Some(v) => (Some(v), k + 1),
        None => (None, k),
    }
}

/// `'<' Int? ',' Int? '>'` at `i`.
pub open spec fn spec_int_range(t: Seq<TokenV>, i: int) -> Result<(IntRange, int), ParseError> {
    if !tok_at(t, i, TokenV::OAngle) {
        Err(ParseError::Unexpected(i as usize))
    } else {
        let (min, k) = opt_step(int_bound_at(t, i + 1), i + 1);
        if !tok_at(t, k, TokenV::Comma) {
            Err(ParseError::Unexpected(k as usize))
        } else {
            let (max, k2) = opt_step(int_bound_at(t, k + 1), k + 1);
            if !tok_at(t, k2, TokenV::CAngle) {
                Err(ParseError::Unexpected(k2 as usize))
            } else {
                Ok((Range { min, max }, k2 + 1))
            }
        }
    }
}

/// `'<' Num? ',' Num? '>'` at `i`, where a number is a double or an integer.
pub open spec fn spec_dbl_range(t: Seq<TokenV>, i: int) -> Result<(DblRange, int), ParseError> {
    if !tok_at(t, i, TokenV::OAngle) {
        Err(ParseError::Unexpected(i as usize))
    } else {
        let (min, k) = opt_step(dbl_bound_at(t, i + 1), i + 1);
        if !tok_at(t, k, TokenV::Comma) {
            Err(ParseError::Unexpected(k as usize))
        } else {
            let (max, k2) = opt_step(dbl_bound_at(t, k + 1), k + 1);
            if !tok_at(t, k2, TokenV::CAngle) {
                Err(ParseError::Unexpected(k2 as usize))
            } else {
                Ok((Range { min, max }, k2 + 1))
            }
        }
    }
}

/// The optional range of a primitive family at `k`: absent when no `<` follows.
pub open spec fn spec_family_range(f: Family, t: Seq<TokenV>, k: int) -> Result<(ParentTypeV, int), ParseError> {
    match f {
        Family::Int => if tok_at(t, k, TokenV::OAngle) {
            match spec_int_range(t, k) {
                Ok((r, j)) => Ok((ParentTypeV::Int(r), j)),
                Err(e) => Err(e),
            }
        } else {
            Ok((ParentTypeV::Int(Range { min: None, max: None }), k))
        },
        Family::Str => if tok_at(t, k, TokenV::OAngle) {
            match spec_int_range(t, k) {
                Ok((r, j)) => Ok((ParentTypeV::Str(r), j)),
                Err(e) => Err(e),
            }
        } else {
            Ok((ParentTypeV::Str(Range { min: None, max: None }), k))
        },
        Family::Dbl => if tok_at(t, k, TokenV::OAngle) {
            match spec_dbl_range(t, k) {
                Ok((r, j)) => Ok((ParentTypeV::Dbl(r), j)),
                Err(e) => Err(e),
            }
        } else {
            Ok((ParentTypeV::Dbl(Range { min: None, max: None }), k))
        },
    }
}

/// A data type at `i`: a primitive family's name, then `?` and a range, in
/// either order, each optional; or the name of a type defined before, then
/// an optional `?`. The use site alone decides whether the type is nullable.
pub open spec fn spec_data_type(t: Seq<TokenV>, i: int, syms: Map<Seq<char>, SymbolV>) -> Result<(DataTypeV, int), ParseError> {
    match name_at(t, i) {
        None => Err(ParseError::Unexpected(i as usize)),
        Some(n) => match family_of(n) {
            Some(f) => {
                let q1 = tok_at(t, i + 1, TokenV::QMark);
                let k = if q1 { i + 2 } else { i + 1 };
                match spec_family_range(f, t, k) {
                    Err(e) => Err(e),
                    Ok((p, k2)) => {
                        let q2 = !q1 && tok_at(t, k2, TokenV::QMark);
                        let end = if q2 { k2 + 1 } else { k2 };
                        Ok((DataTypeV { parent: p, nullable: q1 || q2 }, end))
                    },
                }
            },
            None => if syms.contains_key(n) && syms[n] is DataType {
                let q = tok_at(t, i + 1, TokenV::QMark);
                let dt = syms[n]->DataType_0;
                Ok((DataTypeV { parent: dt.parent, nullable: q }, if q { i + 2 } else { i + 1 }))
            } else {
                Err(ParseError::UnknownType(i as usize))
            },
        },
    }
}

/// Whether every type in a symbol table has well-formed bounds.
pub open spec fn syms_wf(syms: Map<Seq<char>, SymbolV>) -> bool {
    forall|n: Seq<char>| #[trigger] syms.contains_key(n) && syms[n] is DataType ==> dtype_wf(syms[n]->DataType_0)
}

pub open spec fn toks_wf(t: Seq<TokenV>) -> bool {
    forall|k: int| 0 <= k < t.len() ==> token_wf(#[trigger] t[k])
}

/// Whether the token at `k` is the plain token `tok`.
pub fn is_tok(toks: &Vec<Token>, k: usize, tok: Token) -> (r: bool)
    requires
        is_plain(tok@),
    ensures
        r == tok_at(tokens_view(toks@), k as int, tok@),
{
    if k >= toks.len() {
        return false;
    }
    let r = match (&toks[k], &tok) {
        (Token::OParen, Token::OParen) => true,
        (Token::CParen, Token::CParen) => true,
        (Token::OAngle, Token::OAngle) => true,
        (Token::CAngle, Token::CAngle) => true,
        (Token::Comma, Token::Comma) => true,
        (Token::Equals, Token::Equals) => true,
        (Token::QMark, Token::QMark) => true,
        (Token::Colon, Token::Colon) => true,
        (Token::Semicolon, Token::Semicolon) => true,
        (Token::TypeKwd, Token::TypeKwd) => true,
        (Token::TableKwd, Token::TableKwd) => true,
        _ => false,
    };
    assert(tokens_view(toks@)[k as int] == toks@[k as int]@);
    r
}

/// The position after the plain token `tok` at `k`, or an error at `k`.
pub fn expect(toks: &Vec<Token>, k: usize, tok: Token) -> (r: Result<usize, ParseError>)
    requires
        is_plain(tok@),
    ensures
        match r {
            Ok(j) => tok_at(tokens_view(toks@), k as int, tok@) && j == k + 1,
            Err(e) => !tok_at(tokens_view(toks@), k as int, tok@) && e == ParseError::Unexpected(k),
        },
{
    let n = toks.len();
    if is_tok(toks, k, tok) {
        Ok(k + 1)
    } else {
        Err(ParseError::Unexpected(k))
    }
}

fn int_bound(toks: &Vec<Token>, k: usize) -> (r: Option<i32>)
    ensures
        r == int_bound_at(tokens_view(toks@), k as int),
{
    if k < toks.len() {
        assert(tokens_view(toks@)[k as int] == toks@[k as int]@);
        match &toks[k] {
            Token::IntLiteral(v) => Some(*v),
            _ => None,
        }
    } else {
        None
    }
}

fn dbl_bound(toks: &Vec<Token>, k: usize) -> (r: Option<Decimal>)
    requires
        toks_wf(tokens_view(toks@)),
    ensures
        r == dbl_bound_at(tokens_view(toks@), k as int),
        r matches Some(d) ==> d.wf(),
{
    if k < toks.len() {
        assert(tokens_view(toks@)[k as int] == toks@[k as int]@);
        match &toks[k] {
            Token::IntLiteral(v) => Some(Decimal::from_int(*v)),
            Token::DblLiteral(d) => Some(*d),
            _ => None,
        }
    } else {
        None
    }
}

/// Parses an integer range at `i`.
pub fn parse_int_range(toks: &Vec<Token>, i: usize) -> (r: Result<(IntRange, usize), ParseError>)
    ensures
        match r {
            Ok((rg, j)) => spec_int_range(tokens_view(toks@), i as int) == Ok::<(IntRange, int), ParseError>((rg, j as int))
                && i < j <= toks@.len(),
            Err(e) => spec_int_range(tokens_view(toks@), i as int) == Err::<(IntRange, int), ParseError>(e),
        },
{
    let n = toks.len();
    let k = expect(toks, i, Token::OAngle)?;
    let min = int_bound(toks, k);
    let k = if min.is_some() { k + 1 } else { k };
    let k = expect(toks, k, Token::Comma)?;
    let max = int_bound(toks, k);
    let k = if max.is_some() { k + 1 } else { k };
    let k = expect(toks, k, Token::CAngle)?;
    Ok((Range { min, max }, k))
}

/// Parses a double range at `i`.
pub fn parse_dbl_range(toks: &Vec<Token>, i: usize) -> (r: Result<(DblRange, usize), ParseError>)
    requires
        toks_wf(tokens_view(toks@)),
    ensures
        match r {
            Ok((rg, j)) => spec_dbl_range(tokens_view(toks@), i as int) == Ok::<(DblRange, int), ParseError>((rg, j as int))
                && i < j <= toks@.len() && dbl_range_wf(rg),
            Err(e) => spec_dbl_range(tokens_view(toks@), i as int) == Err::<(DblRange, int), ParseError>(e),
        },
{
    let n = toks.len();
    let k = expect(toks, i, Token::OAngle)?;
    let min = dbl_bound(toks, k);
    let k = if min.is_some() { k + 1 } else { k };
    let k = expect(toks, k, Token::Comma)?;
    let max = dbl_bound(toks, k);
    let k = if max.is_some() { k + 1 } else { k };
    let k = expect(toks, k, Token::CAngle)?;
    Ok((Range { min, max }, k))
}

/// Whether `s` holds the characters of `lit`.
fn eq_lit(s: &String, lit: &str) -> (r: bool)
    ensures
        r == (s@ == lit@),
{
    let a = s.as_str();
    let n = a.unicode_len();
    if n != lit.unicode_len() {
        return false;
    }
    let mut k: usize = 0;
    while k < n
        invariant
            n == a@.len() == lit@.len(),
            a@ == s@,
            k <= n,
            forall|x: int| 0 <= x < k ==> a@[x] == lit@[x],
        decreases n - k,
    {
        if a.get_char(k) != lit.get_char(k) {
            return false;
        }
        k = k + 1;
    }
    assert(a@ =~= lit@);
    true
}

/// The family that a name stands for, if it is one of the primitive names.
pub fn family(name: &String) -> (r: Option<Family>)
    ensures
        r == family_of(name@),
{
    proof {
        reveal_strlit("int");
        reveal_strlit("integer");
        reveal_strlit("str");
        reveal_strlit("string");
        reveal_strlit("text");
        reveal_strlit("dbl");
        reveal_strlit("double");
        reveal_strlit("float");
        assert("int"@ =~= seq!['i', 'n', 't']);
        assert("integer"@ =~= seq!['i', 'n', 't', 'e', 'g', 'e', 'r']);
        assert("str"@ =~= seq!['s', 't', 'r']);
        assert("string"@ =~= seq!['s', 't', 'r', 'i', 'n', 'g']);
        assert("text"@ =~= seq!['t', 'e', 'x', 't']);
        assert("dbl"@ =~= seq!['d', 'b', 'l']);
        assert("double"@ =~= seq!['d', 'o', 'u', 'b', 'l', 'e']);
        assert("float"@ =~= seq!['f', 'l', 'o', 'a', 't']);
    }
    if eq_lit(name, "int") || eq_lit(name, "integer") {
        Some(Family::Int)
    } else if eq_lit(name, "str") || eq_lit(name, "string") || eq_lit(name, "text") {
        Some(Family::Str)
    } else if eq_lit(name, "dbl") || eq_lit(name, "double") || eq_lit(name, "float") {
        Some(Family::Dbl)
    } else {
        None
    }
}

fn name_of(toks: &Vec<Token>, k: usize) -> (r: Option<&String>)
    ensures
        match r {
            Some(n) => name_at(tokens_view(toks@), k as int) == Some(n@),
            None => name_at(tokens_view(toks@), k as int) is None,
        },
{
    if k < toks.len() {
        assert(tokens_view(toks@)[k as int] == toks@[k as int]@);
        match &toks[k] {
            Token::Ident(n) => Some(n),
            Token::StrLiteral(n) => Some(n),
            _ => None,
        }
    } else {
        None
    }
}

fn parse_family_range(f: Family, toks: &Vec<Token>, k: usize) -> (r: Result<(ParentType, usize), ParseError>)
    requires
        toks_wf(tokens_view(toks@)),
        k <= toks@.len(),
    ensures
        match r {
            Ok((p, j)) => spec_family_range(f, tokens_view(toks@), k as int) == Ok::<(ParentTypeV, int), ParseError>((p@, j as int))
                && k <= j <= toks@.len() && dtype_wf(DataTypeV { parent: p@, nullable: false }),
            Err(e) => spec_family_range(f, tokens_view(toks@), k as int) == Err::<(ParentTypeV, int), ParseError>(e),
        },
{
    let has_range = is_tok(toks, k, Token::OAngle);
    match f {
        Family::Int => if has_range {
            let (rg, j) = parse_int_range(toks, k)?;
            Ok((ParentType::Int(rg), j))
        } else {
            Ok((ParentType::Int(Range { min: None, max: None }), k))
        },
        Family::Str => if has_range {
            let (rg, j) = parse_int_range(toks, k)?;
            Ok((ParentType::Str(rg), j))
        } else {
            Ok((ParentType::Str(Range { min: None, max: None }), k))
        },
        Family::Dbl => if has_range {
            let (rg, j) = parse_dbl_range(toks, k)?;
            Ok((ParentType::Dbl(rg), j))
        } else {
            Ok((ParentType::Dbl(Range { min: None, max: None }), k))
        },
    }
}

/// Parses a data type at `i`, resolving a type name through `syms`.
pub fn parse_data_type(toks: &Vec<Token>, i: usize, syms: &SymbolTable) -> (r: Result<(DataType, usize), ParseError>)
    requires
        toks_wf(tokens_view(toks@)),
        syms.wf(),
        syms_wf(syms@),
    ensures
        match r {
            Ok((dt, j)) => spec_data_type(tokens_view(toks@), i as int, syms@) == Ok::<(DataTypeV, int), ParseError>((dt@, j as int))
                && i < j <= toks@.len() && dtype_wf(dt@),
            Err(e) => spec_data_type(tokens_view(toks@), i as int, syms@) == Err::<(DataTypeV, int), ParseError>(e),
        },
{
    let n = toks.len();
    let name = match name_of(toks, i) {
        Some(name) => name,
        None => {
            return Err(ParseError::Unexpected(i));
        },
    };
    match family(name) {
        Some(f) => {
            let q1 = is_tok(toks, i + 1, Token::QMark);
            let k = if q1 { i + 2 } else { i + 1 };
            let (parent, k2) = parse_family_range(f, toks, k)?;
            let q2 = !q1 && is_tok(toks, k2, Token::QMark);
            let end = if q2 { k2 + 1 } else { k2 };
            Ok((DataType { parent, nullable: q1 || q2 }, end))
        },
        None => match syms.get(name) {
            Some(Symbol::DataType(dt)) => {
                let q = is_tok(toks, i + 1, Token::QMark);
                let parent = dt.duplicate().parent;
                Ok((DataType { parent, nullable: q }, if q { i + 2 } else { i + 1 }))
            },
            _ => Err(ParseError::UnknownType(i)),
        },
    }
}

/// A column at `i`: `name ':' type`.
pub open spec fn spec_column(t: Seq<TokenV>, i: int, syms: Map<Seq<char>, SymbolV>) -> Result<(ColumnV, int), ParseError> {
    match name_at(t, i) {
        None => Err(ParseError::Unexpected(i as usize)),
        Some(n) => if !tok_at(t, i + 1, TokenV::Colon) {
            Err(ParseError::Unexpected((i + 1) as usize))
        } else {
            match spec_data_type(t, i + 2, syms) {
                Ok((dt, j)) => Ok((ColumnV { name: n, dtype: dt, default_value: None }, j)),
                Err(e) => Err(e),
            }
        },
    }
}

/// Parses a column at `i`.
pub fn parse_column(toks: &Vec<Token>, i: usize, syms: &SymbolTable) -> (r: Result<(ColumnSchema, usize), ParseError>)
    requires
        toks_wf(tokens_view(toks@)),
        syms.wf(),
        syms_wf(syms@),
    ensures
        match r {
            Ok((c, j)) => spec_column(tokens_view(toks@), i as int, syms@) == Ok::<(ColumnV, int), ParseError>((c@, j as int))
                && i < j <= toks@.len() && dtype_wf(c@.dtype),
            Err(e) => spec_column(tokens_view(toks@), i as int, syms@) == Err::<(ColumnV, int), ParseError>(e),
        },
{
    let n = toks.len();
    let name = match name_of(toks, i) {
        Some(name) => name.clone(),
        None => {
            return Err(ParseError::Unexpected(i));
        },
    };
    let k = expect(toks, i + 1, Token::Colon)?;
    let (dtype, j) = parse_data_type(toks, k, syms)?;
    Ok((ColumnSchema { column_name: name, dtype, default_value: None }, j))
}

/// The columns from `k`, separated by commas, and the position after them.
pub open spec fn spec_columns_from(t: Seq<TokenV>, k: int, syms: Map<Seq<char>, SymbolV>) -> Result<(Seq<ColumnV>, int), ParseError>
    decreases t.len() - k,
{
    match spec_column(t, k, syms) {
        Err(e) => Err(e),
        Ok((c, j)) => if tok_at(t, j, TokenV::Comma) && k < j {
            match spec_columns_from(t, j + 1, syms) {
                Ok((cs, e)) => Ok((seq![c] + cs, e)),
                Err(e) => Err(e),
            }
        } else {
            Ok((seq![c], j))
        },
    }
}

/// A table at `i`: `name '(' ')'`, or `name '(' columns ')'`.
pub open spec fn spec_table(t: Seq<TokenV>, i: int, syms: Map<Seq<char>, SymbolV>) -> Result<(TableV, int), ParseError> {
    match name_at(t, i) {
        None => Err(ParseError::Unexpected(i as usize)),
        Some(n) => if !tok_at(t, i + 1, TokenV::OParen) {
            Err(ParseError::Unexpected((i + 1) as usize))
        } else if tok_at(t, i + 2, TokenV::CParen) {
            Ok((TableV { name: n, columns: Seq::empty() }, i + 3))
        } else {
            match spec_columns_from(t, i + 2, syms) {
                Err(e) => Err(e),
                Ok((cs, k)) => if !tok_at(t, k, TokenV::CParen) {
                    Err(ParseError::Unexpected(k as usize))
                } else {
                    Ok((TableV { name: n, columns: cs }, k + 1))
                },
            }
        },
    }
}

pub open spec fn columns_view(cs: Seq<ColumnSchema>) -> Seq<ColumnV> {
    cs.map_values(|c: ColumnSchema| c@)
}

pub open spec fn prepend_columns(
    prefix: Seq<ColumnV>,
    r: Result<(Seq<ColumnV>, int), ParseError>,
) -> Result<(Seq<ColumnV>, int), ParseError> {
    match r {
        Ok((cs, e)) => Ok((prefix + cs, e)),
        Err(e) => Err(e),
    }
}

/// Parses a table at `i` (after the `table` keyword).
pub fn parse_table(toks: &Vec<Token>, i: usize, syms: &SymbolTable) -> (r: Result<(TableSchema, usize), ParseError>)
    requires
        toks_wf(tokens_view(toks@)),
        syms.wf(),
        syms_wf(syms@),
    ensures
        match r {
            Ok((tb, j)) => spec_table(tokens_view(toks@), i as int, syms@) == Ok::<(TableV, int), ParseError>((tb@, j as int))
                && i < j <= toks@.len() && columns_wf(tb@.columns),
            Err(e) => spec_table(tokens_view(toks@), i as int, syms@) == Err::<(TableV, int), ParseError>(e),
        },
{
    let ghost t = tokens_view(toks@);
    let n = toks.len();
    let name = match name_of(toks, i) {
        Some(name) => name.clone(),
        None => {
            return Err(ParseError::Unexpected(i));
        },
    };
    let start = expect(toks, i + 1, Token::OParen)?;
    let mut columns: Vec<ColumnSchema> = Vec::new();
    if is_tok(toks, start, Token::CParen) {
        let tb = TableSchema { table_name: name, columns };
        assert(tb@.columns =~= Seq::<ColumnV>::empty());
        return Ok((tb, start + 1));
    }
    let mut k = start;
    let mut done = false;
    while !done
        invariant
            t == tokens_view(toks@),
            n == toks@.len(),
            toks_wf(t),
            syms.wf(),
            syms_wf(syms@),
            start == i + 2,
            start <= k <= n,
            !tok_at(t, start as int, TokenV::CParen),
            tok_at(t, i + 1, TokenV::OParen),
            name_at(t, i as int) == Some(name@),
            columns_wf(columns_view(columns@)),
            done ==> spec_columns_from(t, start as int, syms@) == Ok::<(Seq<ColumnV>, int), ParseError>((columns_view(columns@), k as int)),
            !done ==> spec_columns_from(t, start as int, syms@) == prepend_columns(columns_view(columns@), spec_columns_from(t, k as int, syms@)),
        decreases (n - k) * 2 + (if done { 0int } else { 1int }),
    {
        let ghost before = columns_view(columns@);
        match parse_column(toks, k, syms) {
            Err(e) => {
                assert(spec_columns_from(t, start as int, syms@) == Err::<(Seq<ColumnV>, int), ParseError>(e));
                return Err(e);
            },
            Ok((c, j)) => {
                let ghost cv = c@;
                columns.push(c);
                assert(columns_view(columns@) =~= before.push(cv));
                if is_tok(toks, j, Token::Comma) {
                    proof {
                        match spec_columns_from(t, j + 1, syms@) {
                            Ok((cs, e)) => {
                                assert(before + (seq![cv] + cs) =~= before.push(cv) + cs);
                            },
                            Err(_) => {},
                        }
                    }
                    k = j + 1;
                } else {
                    assert(before + seq![cv] =~= before.push(cv));
                    k = j;
                    done = true;
                }
            },
        }
    }
    let end = expect(toks, k, Token::CParen)?;
    let tb = TableSchema { table_name: name, columns };
    assert(tb@.columns =~= columns_view(tb.columns@));
    Ok((tb, end))
}

/// A statement at `i`, and the symbol table after it: a type alias or a
/// table, whose name is defined once the whole statement has parsed.
pub open spec fn spec_stmt(t: Seq<TokenV>, i: int, syms: Map<Seq<char>, SymbolV>) -> Result<(StmtV, int, Map<Seq<char>, SymbolV>), ParseError> {
    if tok_at(t, i, TokenV::TypeKwd) {
        match name_at(t, i + 1) {
            None => Err(ParseError::Unexpected((i + 1) as usize)),
            Some(n) => match spec_data_type(t, i + 2, syms) {
                Err(e) => Err(e),
                Ok((dt, j)) => if syms.contains_key(n) {
                    Err(ParseError::Duplicate((i + 1) as usize))
                } else {
                    Ok((StmtV::TypeDef(n, dt), j, syms.insert(n, SymbolV::DataType(dt))))
                },
            },
        }
    } else if tok_at(t, i, TokenV::TableKwd) {
        match spec_table(t, i + 1, syms) {
            Err(e) => Err(e),
            Ok((tb, j)) => if syms.contains_key(tb.name) {
                Err(ParseError::Duplicate((i + 1) as usize))
            } else {
                Ok((StmtV::TableSchema(tb), j, syms.insert(tb.name, SymbolV::Table(tb))))
            },
        }
    } else {
        Err(ParseError::Unexpected(i as usize))
    }
}

/// Parses a statement at `i`, defining its name in `syms` if it parses.
pub fn parse_stmt(toks: &Vec<Token>, i: usize, syms: &mut SymbolTable) -> (r: Result<(Stmt, usize), ParseError>)
    requires
        toks_wf(tokens_view(toks@)),
        old(syms).wf(),
        syms_wf(old(syms)@),
    ensures
        final(syms).wf(),
        syms_wf(final(syms)@),
        match r {
            Ok((st, j)) => spec_stmt(tokens_view(toks@), i as int, old(syms)@) == Ok::<(StmtV, int, Map<Seq<char>, SymbolV>), ParseError>((st@, j as int, final(syms)@))
                && i < j <= toks@.len() && stmts_wf(seq![st@]),
            Err(e) => spec_stmt(tokens_view(toks@), i as int, old(syms)@) == Err::<(StmtV, int, Map<Seq<char>, SymbolV>), ParseError>(e)
                && final(syms)@ == old(syms)@,
        },
{
    let n = toks.len();
    if is_tok(toks, i, Token::TypeKwd) {
        let name = match name_of(toks, i + 1) {
            Some(name) => name.clone(),
            None => {
                return Err(ParseError::Unexpected(i + 1));
            },
        };
        let (dt, j) = parse_data_type(toks, i + 2, syms)?;
        let copy = dt.duplicate();
        let ghost m0 = syms@;
        if syms.insert(name.clone(), Symbol::DataType(copy)) {
            return Err(ParseError::Duplicate(i + 1));
        }
        proof {
            assert forall|k: Seq<char>| #[trigger] syms@.contains_key(k) && syms@[k] is DataType implies dtype_wf(syms@[k]->DataType_0) by {
                if k != name@ {
                    assert(m0.contains_key(k));
                }
            }
        }
        Ok((Stmt::TypeDef(name, dt), j))
    } else if is_tok(toks, i, Token::TableKwd) {
        let (tb, j) = parse_table(toks, i + 1, syms)?;
        let name = tb.table_name.clone();
        let ghost m0 = syms@;
        if syms.insert(name, Symbol::Table(tb.duplicate())) {
            return Err(ParseError::Duplicate(i + 1));
        }
        proof {
            assert forall|k: Seq<char>| #[trigger] syms@.contains_key(k) && syms@[k] is DataType implies dtype_wf(syms@[k]->DataType_0) by {
                if k != tb.table_name@ {
                    assert(m0.contains_key(k));
                }
            }
        }
        Ok((Stmt::TableSchema(tb), j))
    } else {
        Err(ParseError::Unexpected(i))
    }
}

/// The statements from `i` to the end, each followed by `;`, and the symbol
/// table after them. Anything that is not a statement is an error.
pub open spec fn spec_program_from(t: Seq<TokenV>, i: int, syms: Map<Seq<char>, SymbolV>) -> Result<(Seq<StmtV>, Map<Seq<char>, SymbolV>), ParseError>
    decreases t.len() - i,
{
    if i < 0 || i >= t.len() {
        Ok((Seq::empty(), syms))
    } else {
        match spec_stmt(t, i, syms) {
            Err(e) => Err(e),
            Ok((st, j, syms2)) => if !tok_at(t, j, TokenV::Semicolon) || j < i {
                Err(ParseError::Unexpected(j as usize))
            } else {
                match spec_program_from(t, j + 1, syms2) {
                    Ok((ss, m)) => Ok((seq![st] + ss, m)),
                    Err(e) => Err(e),
                }
            },
        }
    }
}

pub open spec fn prepend_stmts(
    prefix: Seq<StmtV>,
    r: Result<(Seq<StmtV>, Map<Seq<char>, SymbolV>), ParseError>,
) -> Result<(Seq<StmtV>, Map<Seq<char>, SymbolV>), ParseError> {
    match r {
        Ok((ss, m)) => Ok((prefix + ss, m)),
        Err(e) => Err(e),
    }
}

/// Parses a whole program, defining its names in `syms`.
#[verifier::rlimit(30)]
pub fn parse_program(toks: &Vec<Token>, syms: &mut SymbolTable) -> (r: Result<Prgm, ParseError>)
    requires
        toks_wf(tokens_view(toks@)),
        old(syms).wf(),
        syms_wf(old(syms)@),
    ensures
        final(syms).wf(),
        match r {
            Ok(p) => spec_program_from(tokens_view(toks@), 0, old(syms)@) == Ok::<(Seq<StmtV>, Map<Seq<char>, SymbolV>), ParseError>((p@, final(syms)@))
                && stmts_wf(p@),
            Err(e) => spec_program_from(tokens_view(toks@), 0, old(syms)@) == Err::<(Seq<StmtV>, Map<Seq<char>, SymbolV>), ParseError>(e),
        },
{
    let ghost t = tokens_view(toks@);
    let ghost m0 = syms@;
    assert(m0 == old(syms)@);
    let n = toks.len();
    let mut stmts: Vec<Stmt> = Vec::new();
    let mut k: usize = 0;
    while k < n
        invariant
            t == tokens_view(toks@),
            n == toks@.len(),
            toks_wf(t),
            syms.wf(),
            syms_wf(syms@),
            k <= n,
            m0 == old(syms)@,
            stmts_wf(stmts@.map_values(|s: Stmt| s@)),
            spec_program_from(t, 0, m0) == prepend_stmts(stmts@.map_values(|s: Stmt| s@), spec_program_from(t, k as int, syms@)),
        decreases n - k,
    {
        let ghost before = stmts@.map_values(|s: Stmt| s@);
        let ghost m1 = syms@;
        let (st, j) = match parse_stmt(toks, k, syms) {
            Ok(x) => x,
            Err(e) => {
                assert(spec_program_from(t, k as int, m1) == Err::<(Seq<StmtV>, Map<Seq<char>, SymbolV>), ParseError>(e));
                assert(spec_program_from(t, 0, m0) == Err::<(Seq<StmtV>, Map<Seq<char>, SymbolV>), ParseError>(e));
                return Err(e);
            },
        };
        let end = match expect(toks, j, Token::Semicolon) {
            Ok(end) => end,
            Err(e) => {
                assert(spec_program_from(t, k as int, m1) == Err::<(Seq<StmtV>, Map<Seq<char>, SymbolV>), ParseError>(e));
                assert(spec_program_from(t, 0, m0) == Err::<(Seq<StmtV>, Map<Seq<char>, SymbolV>), ParseError>(e));
                return Err(e);
            },
        };
        let ghost sv = st@;
        let ghost rest = spec_program_from(t, end as int, syms@);
        assert(spec_program_from(t, k as int, m1) == prepend_stmts(seq![sv], rest));
        stmts.push(st);
        proof {
            assert(stmts@.map_values(|s: Stmt| s@) =~= before.push(sv));
            crate::schema::lemma_stmts_wf_push(before, sv);
            match rest {
                Ok((ss, m)) => {
                    assert(before + (seq![sv] + ss) =~= before.push(sv) + ss);
                },
                Err(_) => {},
            }
        }
        k = end;
    }
    let p = Prgm { stmts };
    assert(p@ + Seq::<StmtV>::empty() =~= p@);
    Ok(p)
}

/// Why source text is not a program: it does not lex, or does not parse.
#[derive(Clone, Copy, Debug, PartialEq, Eq, Structural)]
pub enum SyntaxError {
    Lex(LexError),
    Parse(ParseError),
}

/// What the statements of source text are, as a program, with a fresh symbol table.
pub open spec fn spec_parse(s: Seq<char>) -> Result<Seq<StmtV>, SyntaxError> {
    match lex_from(s, 0) {
        Err(e) => Err(SyntaxError::Lex(e)),
        Ok(t) => match spec_program_from(t, 0, Map::empty()) {
            Ok((ss, _)) => Ok(ss),
            Err(e) => Err(SyntaxError::Parse(e)),
        },
    }
}

/// Lexes and parses source text with a fresh symbol table.
pub fn parse_source(src: &str) -> (r: Result<Prgm, SyntaxError>)
    ensures
        match r {
            Ok(p) => spec_parse(src@) == Ok::<Seq<StmtV>, SyntaxError>(p@) && stmts_wf(p@),
            Err(e) => spec_parse(src@) == Err::<Seq<StmtV>, SyntaxError>(e),
        },
{
    let toks = match lex(src) {
        Ok(toks) => toks,
        Err(e) => {
            return Err(SyntaxError::Lex(e));
        },
    };
    let mut syms = SymbolTable::new();
    match parse_program(&toks, &mut syms) {
        Ok(p) => Ok(p),
        Err(e) => Err(SyntaxError::Parse(e)),
    }
}

/// A production of the grammar: a value that parses from a token position,
/// reading and defining names in a symbol table.
pub trait Parse: Sized {
    /// Whether parsing from `i` with names `syms` may give `v`, ending at `j`
    /// with names `syms2`.
    spec fn accepts(t: Seq<TokenV>, i: int, syms: Map<Seq<char>, SymbolV>, v: Self, j: int, syms2: Map<Seq<char>, SymbolV>) -> bool;

    /// Whether parsing from `i` with names `syms` fails with `e`.
    spec fn rejects(t: Seq<TokenV>, i: int, syms: Map<Seq<char>, SymbolV>, e: ParseError) -> bool;

    fn parse(toks: &Vec<Token>, i: usize, syms: &mut SymbolTable) -> (r: Result<(Self, usize), ParseError>)
        requires
            toks_wf(tokens_view(toks@)),
            old(syms).wf(),
            syms_wf(old(syms)@),
        ensures
            final(syms).wf(),
            syms_wf(final(syms)@),
            match r {
                Ok((v, j)) => Self::accepts(tokens_view(toks@), i as int, old(syms)@, v, j as int, final(syms)@),
                Err(e) => Self::rejects(tokens_view(toks@), i as int, old(syms)@, e) && final(syms)@ == old(syms)@,
            },
    ;
}

impl Parse for DataType {
    open spec fn accepts(t: Seq<TokenV>, i: int, syms: Map<Seq<char>, SymbolV>, v: Self, j: int, syms2: Map<Seq<char>, SymbolV>) -> bool {
        spec_data_type(t, i, syms) == Ok::<(DataTypeV, int), ParseError>((v@, j)) && syms2 == syms
    }

    open spec fn rejects(t: Seq<TokenV>, i: int, syms: Map<Seq<char>, SymbolV>, e: ParseError) -> bool {
        spec_data_type(t, i, syms) == Err::<(DataTypeV, int), ParseError>(e)
    }

    fn parse(toks: &Vec<Token>, i: usize, syms: &mut SymbolTable) -> (r: Result<(Self, usize), ParseError>) {
        parse_data_type(toks, i, syms)
    }
}

impl Parse for ColumnSchema {
    open spec fn accepts(t: Seq<TokenV>, i: int, syms: Map<Seq<char>, SymbolV>, v: Self, j: int, syms2: Map<Seq<char>, SymbolV>) -> bool {
        spec_column(t, i, syms) == Ok::<(ColumnV, int), ParseError>((v@, j)) && syms2 == syms
    }

    open spec fn rejects(t: Seq<TokenV>, i: int, syms: Map<Seq<char>, SymbolV>, e: ParseError) -> bool {
        spec_column(t, i, syms) == Err::<(ColumnV, int), ParseError>(e)
    }

    fn parse(toks: &Vec<Token>, i: usize, syms: &mut SymbolTable) -> (r: Result<(Self, usize), ParseError>) {
        parse_column(toks, i, syms)
    }
}

impl Parse for TableSchema {
    open spec fn accepts(t: Seq<TokenV>, i: int, syms: Map<Seq<char>, SymbolV>, v: Self, j: int, syms2: Map<Seq<char>, SymbolV>) -> bool {
        spec_table(t, i, syms) == Ok::<(TableV, int), ParseError>((v@, j)) && syms2 == syms
    }

    open spec fn rejects(t: Seq<TokenV>, i: int, syms: Map<Seq<char>, SymbolV>, e: ParseError) -> bool {
        spec_table(t, i, syms) == Err::<(TableV, int), ParseError>(e)
    }

    fn parse(toks: &Vec<Token>, i: usize, syms: &mut SymbolTable) -> (r: Result<(Self, usize), ParseError>) {
        parse_table(toks, i, syms)
    }
}

impl Parse for Stmt {
    open spec fn accepts(t: Seq<TokenV>, i: int, syms: Map<Seq<char>, SymbolV>, v: Self, j: int, syms2: Map<Seq<char>, SymbolV>) -> bool {
        spec_stmt(t, i, syms) == Ok::<(StmtV, int, Map<Seq<char>, SymbolV>), ParseError>((v@, j, syms2))
    }

    open spec fn rejects(t: Seq<TokenV>, i: int, syms: Map<Seq<char>, SymbolV>, e: ParseError) -> bool {
        spec_stmt(t, i, syms) == Err::<(StmtV, int, Map<Seq<char>, SymbolV>), ParseError>(e)
    }

    fn parse(toks: &Vec<Token>, i: usize, syms: &mut SymbolTable) -> (r: Result<(Self, usize), ParseError>) {
        parse_stmt(toks, i, syms)
    }
}

/// The tokens of an optional integer bound.
pub open spec fn int_bound_tokens(b: Option<i32>) -> Seq<TokenV> {
    match b {
        Some(v) => seq![TokenV::IntLiteral(v)],
        None => Seq::empty(),
    }
}

/// The tokens of an optional double bound.
pub open spec fn dbl_bound_tokens(b: Option<Decimal>) -> Seq<TokenV> {
    match b {
        Some(d) => seq![TokenV::DblLiteral(d)],
        None => Seq::empty(),
    }
}

/// The tokens that an integer range is written as.
pub open spec fn int_range_tokens(r: IntRange) -> Seq<TokenV> {
    seq![TokenV::OAngle] + int_bound_tokens(r.min) + seq![TokenV::Comma] + int_bound_tokens(r.max) + seq![TokenV::CAngle]
}

/// The tokens that a double range is written as.
pub open spec fn dbl_range_tokens(r: DblRange) -> Seq<TokenV> {
    seq![TokenV::OAngle] + dbl_bound_tokens(r.min) + seq![TokenV::Comma] + dbl_bound_tokens(r.max) + seq![TokenV::CAngle]
}

/// The tokens that a data type is written as: its family's name, `?` when
/// nullable, then its range.
pub open spec fn dtype_tokens(t: DataTypeV) -> Seq<TokenV> {
    let q: Seq<TokenV> = if t.nullable { seq![TokenV::QMark] } else { Seq::empty() };
    match t.parent {
        ParentTypeV::Int(r) => seq![TokenV::Ident(seq!['i', 'n', 't'])] + q + int_range_tokens(r),
        ParentTypeV::Str(r) => seq![TokenV::Ident(seq!['s', 't', 'r'])] + q + int_range_tokens(r),
        ParentTypeV::Dbl(r) => seq![TokenV::Ident(seq!['d', 'b', 'l'])] + q + dbl_range_tokens(r),
        ParentTypeV::Ident(n) => seq![TokenV::Ident(n)] + q,
    }
}

proof fn lemma_int_range_tokens_at(r: IntRange, t: Seq<TokenV>, o: int)
    requires
        0 <= o,
        o + int_range_tokens(r).len() <= t.len(),
        t.subrange(o, o + int_range_tokens(r).len()) == int_range_tokens(r),
    ensures
        spec_int_range(t, o) == Ok::<(IntRange, int), ParseError>((r, o + int_range_tokens(r).len())),
{
    let rt = int_range_tokens(r);
    assert(t[o] == rt[0]);
    let k = o + int_bound_tokens(r.min).len() + 1;
    assert(t[o + 1] == rt[1]);
    assert(t[k] == rt[k - o]);
    assert(t[k + 1] == rt[k + 1 - o]);
    let k2 = k + 1 + int_bound_tokens(r.max).len();
    assert(t[k2] == rt[k2 - o]);
}

proof fn lemma_dbl_range_tokens_at(r: DblRange, t: Seq<TokenV>, o: int)
    requires
        0 <= o,
        o + dbl_range_tokens(r).len() <= t.len(),
        t.subrange(o, o + dbl_range_tokens(r).len()) == dbl_range_tokens(r),
    ensures
        spec_dbl_range(t, o) == Ok::<(DblRange, int), ParseError>((r, o + dbl_range_tokens(r).len())),
{
    let rt = dbl_range_tokens(r);
    assert(t[o] == rt[0]);
    let k = o + dbl_bound_tokens(r.min).len() + 1;
    assert(t[o + 1] == rt[1]);
    assert(t[k] == rt[k - o]);
    assert(t[k + 1] == rt[k + 1 - o]);
    let k2 = k + 1 + dbl_bound_tokens(r.max).len();
    assert(t[k2] == rt[k2 - o]);
}

/// Parsing the tokens that an integer range is written as gives the range
/// back, and reads all of them.
pub proof fn lemma_int_range_round_trip(r: IntRange)
    ensures
        spec_int_range(int_range_tokens(r), 0) == Ok::<(IntRange, int), ParseError>((r, int_range_tokens(r).len() as int)),
{
    let t = int_range_tokens(r);
    assert(t.subrange(0, t.len() as int) =~= t);
    lemma_int_range_tokens_at(r, t, 0);
}

/// Parsing the tokens that a double range is written as gives the range
/// back, and reads all of them.
pub proof fn lemma_dbl_range_round_trip(r: DblRange)
    ensures
        spec_dbl_range(dbl_range_tokens(r), 0) == Ok::<(DblRange, int), ParseError>((r, dbl_range_tokens(r).len() as int)),
{
    let t = dbl_range_tokens(r);
    assert(t.subrange(0, t.len() as int) =~= t);
    lemma_dbl_range_tokens_at(r, t, 0);
}

/// Parsing the tokens that a data type of a primitive family is written as
/// gives the data type back and reads all of them, whatever names are defined.
pub proof fn lemma_data_type_round_trip(t: DataTypeV, syms: Map<Seq<char>, SymbolV>)
    requires
        !(t.parent is Ident),
    ensures
        spec_data_type(dtype_tokens(t), 0, syms) == Ok::<(DataTypeV, int), ParseError>((t, dtype_tokens(t).len() as int)),
{
    let ts = dtype_tokens(t);
    let o: int = if t.nullable { 2 } else { 1 };
    assert(seq!['i', 'n', 't'] == seq!['i', 'n', 't']);
    match t.parent {
        ParentTypeV::Int(r) => {
            assert(ts.subrange(o, ts.len() as int) =~= int_range_tokens(r));
            lemma_int_range_tokens_at(r, ts, o);
            assert(ts[0] == TokenV::Ident(seq!['i', 'n', 't']));
            assert(family_of(seq!['i', 'n', 't']) == Some(Family::Int));
        },
        ParentTypeV::Str(r) => {
            assert(ts.subrange(o, ts.len() as int) =~= int_range_tokens(r));
            lemma_int_range_tokens_at(r, ts, o);
            assert(ts[0] == TokenV::Ident(seq!['s', 't', 'r']));
            assert(seq!['s', 't', 'r'] != seq!['i', 'n', 't']);
            assert(seq!['s', 't', 'r'] != seq!['i', 'n', 't', 'e', 'g', 'e', 'r']);
            assert(family_of(seq!['s', 't', 'r']) == Some(Family::Str));
        },
        ParentTypeV::Dbl(r) => {
            assert(ts.subrange(o, ts.len() as int) =~= dbl_range_tokens(r));
            lemma_dbl_range_tokens_at(r, ts, o);
            assert(ts[0] == TokenV::Ident(seq!['d', 'b', 'l']));
            assert(seq!['d', 'b', 'l'] != seq!['i', 'n', 't']);
            assert(seq!['d', 'b', 'l'] != seq!['i', 'n', 't', 'e', 'g', 'e', 'r']);
            assert(seq!['d', 'b', 'l'] != seq!['s', 't', 'r']);
            assert(seq!['d', 'b', 'l'] != seq!['s', 't', 'r', 'i', 'n', 'g']);
            assert(seq!['d', 'b', 'l'] != seq!['t', 'e', 'x', 't']);
            assert(family_of(seq!['d', 'b', 'l']) == Some(Family::Dbl));
        },
        ParentTypeV::Ident(_) => {},
    }
    if t.nullable {
        assert(ts[1] == TokenV::QMark);
    } else {
        assert(ts[1] == TokenV::OAngle);
    }
}

} // verus!

//! Round trips between rendering and lexing: the text that a value renders
//! to lexes to the tokens that the value is written as.
use vstd::prelude::*;
use crate::lex::{
    digits_end, digits_value, ident_end, is_alpha, is_digit, is_space, lex_from, lex_number, lex_one,
    prepend, LexError, TokenV,
};
use crate::parse::{
    dtype_tokens, int_bound_tokens, int_range_tokens, lemma_data_type_round_trip,
    lemma_int_range_round_trip, spec_data_type, spec_dbl_range, spec_int_range, ParseError,
};
use crate::schema::{
    dbl_bound_text, dbl_range_text, dbl_range_wf, dtype_text, int_bound_text, int_range_text,
    DataTypeV, DblRange, IntRange, ParentTypeV, SymbolV,
};
use crate::text::{digit_char, int_text, nat_digits, padded_digits};
use crate::decimal::{pow10, Decimal};
use crate::lex::lemma_pow10_add;
use vstd::arithmetic::div_mod::{lemma_fundamental_div_mod, lemma_mod_breakdown, lemma_multiply_divide_lt, lemma_small_mod};

verus! {

proof fn lemma_digit_char(d: nat)
    requires
        d < 10,
    ensures
        is_digit(digit_char(d)),
        ((digit_char(d) as nat) - 48) as nat == d,
{
}

proof fn lemma_nat_digits(n: nat, s: Seq<char>, a: int)
    requires
        0 <= a,
        a + nat_digits(n).len() <= s.len(),
        s.subrange(a, a + nat_digits(n).len()) == nat_digits(n),
    ensures
        nat_digits(n).len() >= 1,
        digits_value(s, a, a + nat_digits(n).len()) == n,
        forall|k: int| a <= k < a + nat_digits(n).len() ==> is_digit(#[trigger] s[k]),
    decreases n,
{
    let d = nat_digits(n);
    let e = a + d.len();
    if n < 10 {
        lemma_digit_char(n);
        assert(s[a] == s.subrange(a, e)[0]);
        assert(e == a + 1);
        assert(digits_value(s, a, a) == 0);
    } else {
        let p = nat_digits(n / 10);
        assert(s.subrange(a, a + p.len()) == s.subrange(a, e).subrange(0, p.len() as int));
        assert(s.subrange(a, e).subrange(0, p.len() as int) =~= p);
        lemma_nat_digits(n / 10, s, a);
        lemma_digit_char(n % 10);
        assert(s[e - 1] == s.subrange(a, e)[d.len() - 1]);
        assert(d.len() == p.len() + 1);
        assert(s[e - 1] == digit_char(n % 10));
        assert(e - 1 == a + p.len());
        assert((n / 10) * 10 + n % 10 == n);
        assert(digits_value(s, a, e) == digits_value(s, a, e - 1) * 10 + ((s[e - 1] as nat) - 48) as nat);
        assert forall|k: int| a <= k < e implies is_digit(#[trigger] s[k]) by {
            if k < e - 1 {
                assert(a <= k < a + p.len());
            }
        }
    }
}

proof fn lemma_digits_end_at(s: Seq<char>, a: int, b: int)
    requires
        0 <= a <= b <= s.len(),
        forall|k: int| a <= k < b ==> is_digit(#[trigger] s[k]),
        b == s.len() || !is_digit(s[b]),
    ensures
        digits_end(s, a) == b,
    decreases b - a,
{
    if a < b {
        lemma_digits_end_at(s, a + 1, b);
    }
}

proof fn lemma_padded_digits(n: nat, w: nat, s: Seq<char>, a: int)
    requires
        0 <= a,
        a + w <= s.len(),
        s.subrange(a, a + w) == padded_digits(n, w),
    ensures
        padded_digits(n, w).len() == w,
        digits_value(s, a, a + w) == n % pow10(w),
        forall|k: int| a <= k < a + w ==> is_digit(#[trigger] s[k]),
    decreases w,
{
    if w == 0 {
        assert(digits_value(s, a, a) == 0);
    } else {
        let p = padded_digits(n / 10, (w - 1) as nat);
        lemma_padded_digits_len(n / 10, (w - 1) as nat);
        assert(s.subrange(a, a + w - 1) =~= s.subrange(a, a + w).subrange(0, w - 1));
        assert(s.subrange(a, a + w).subrange(0, w - 1) =~= p);
        lemma_padded_digits(n / 10, (w - 1) as nat, s, a);
        lemma_digit_char(n % 10);
        assert(s[a + w - 1] == s.subrange(a, a + w)[w - 1]);
        assert(s[a + w - 1] == digit_char(n % 10));
        let q = pow10((w - 1) as nat);
        crate::decimal::lemma_pow10_mono(0, (w - 1) as nat);
        assert(pow10(w) == 10 * q);
        lemma_mod_breakdown(n as int, 10, q as int);
        assert(digits_value(s, a, a + w) == digits_value(s, a, a + w - 1) * 10 + ((s[a + w - 1] as nat) - 48) as nat);
        assert(n % pow10(w) == 10 * ((n / 10) % q) + n % 10);
        assert forall|k: int| a <= k < a + w implies is_digit(#[trigger] s[k]) by {
            if k < a + w - 1 {
                assert(a <= k < a + (w - 1));
            }
        }
    }
}

proof fn lemma_padded_digits_len(n: nat, w: nat)
    ensures
        padded_digits(n, w).len() == w,
    decreases w,
{
    if w > 0 {
        lemma_padded_digits_len(n / 10, (w - 1) as nat);
    }
}

proof fn lemma_nat_digits_len(x: nat, k: nat)
    requires
        x < pow10(k),
        k >= 1,
    ensures
        1 <= nat_digits(x).len() <= k,
    decreases x,
{
    if x >= 10 {
        assert(pow10(k) == 10 * pow10((k - 1) as nat));
        if k == 1 {
            assert(pow10(0) == 1);
        }
        lemma_nat_digits_len(x / 10, (k - 1) as nat);
    }
}

/// Where the text of a decimal with a fraction stands in `s`, with no digit
/// or `.` after it, it lexes to that decimal.
proof fn lemma_lex_decimal(d: Decimal, s: Seq<char>, a: int)
    requires
        d.wf(),
        d.scale > 0,
        0 <= a,
        a + d.text().len() <= s.len(),
        s.subrange(a, a + d.text().len()) == d.text(),
        a + d.text().len() == s.len() || (!is_digit(s[a + d.text().len()]) && s[a + d.text().len()] != '.'),
    ensures
        lex_one(s, a) == Ok::<(TokenV, int), LexError>((TokenV::DblLiteral(d), a + d.text().len())),
{
    let t = d.text();
    let m = d.mantissa as nat;
    let sc = d.scale as nat;
    let p = pow10(sc);
    let whole = nat_digits(m / p);
    let frac = padded_digits(m % p, sc);
    let sign: Seq<char> = if d.negative { seq!['-'] } else { Seq::empty() };
    lemma_padded_digits_len(m % p, sc);
    assert(t =~= sign + whole + seq!['.'] + frac);
    let a1 = a + sign.len();
    let b = a1 + whole.len();
    let e = b + 1 + sc;
    assert(e == a + t.len());
    assert(s.subrange(a1, b) =~= t.subrange(sign.len() as int, (sign.len() + whole.len()) as int));
    assert(t.subrange(sign.len() as int, (sign.len() + whole.len()) as int) =~= whole);
    lemma_nat_digits(m / p, s, a1);
    assert(s[b] == t[b - a]);
    assert(s[b] == '.');
    assert(s.subrange(b + 1, e) =~= t.subrange(b + 1 - a, e - a));
    assert(t.subrange(b + 1 - a, e - a) =~= frac);
    lemma_padded_digits(m % p, sc, s, b + 1);
    lemma_digits_end_at(s, a1, b);
    lemma_digits_end_at(s, b + 1, e);
    if d.negative {
        assert(s[a] == t[0]);
        assert(s[a] == '-');
    }
    assert(is_digit(s[a1]));
    assert(is_digit(s[b + 1]));
    // At most MAX_DIGITS digits are written.
    crate::decimal::lemma_pow10_mono(0, sc);
    let k: nat = (18 - sc) as nat;
    lemma_pow10_add(k, sc);
    crate::decimal::lemma_pow10_18();
    assert(k + sc == 18);
    lemma_multiply_divide_lt(m as int, p as int, pow10(k) as int);
    lemma_nat_digits_len(m / p, k);
    // The digits give the mantissa back.
    lemma_fundamental_div_mod(m as int, p as int);
    assert((m / p) * p + m % p == m) by (nonlinear_arith)
        requires m == p * (m / p) + (m % p);
    assert((e - b - 1) as nat == sc);
    assert(digits_value(s, a1, b) == m / p);
    lemma_small_mod(m % p, p);
    assert(digits_value(s, b + 1, e) == m % p);
    assert(pow10((e - b - 1) as nat) == p);
    assert(digits_value(s, a1, b) * pow10((e - b - 1) as nat) + digits_value(s, b + 1, e) == m);
    assert(crate::lex::normalize(m, sc) == (m, sc));
    assert(lex_number(s, a) == Ok::<(TokenV, int), LexError>((TokenV::DblLiteral(d), e)));
}

/// Where the text of an integer stands in `s`, with no digit or `.` after
/// it, it lexes to that integer.
proof fn lemma_lex_int(v: i32, s: Seq<char>, a: int)
    requires
        0 <= a,
        a + int_text(v as int).len() <= s.len(),
        s.subrange(a, a + int_text(v as int).len()) == int_text(v as int),
        a + int_text(v as int).len() == s.len() || (!is_digit(s[a + int_text(v as int).len()])
            && s[a + int_text(v as int).len()] != '.'),
    ensures
        lex_one(s, a) == Ok::<(TokenV, int), LexError>((TokenV::IntLiteral(v), a + int_text(v as int).len())),
{
    let t = int_text(v as int);
    let e = a + t.len();
    if v < 0 {
        let m = (-v) as nat;
        let d = nat_digits(m);
        assert(s[a] == t[0]);
        assert(s.subrange(a + 1, e) =~= s.subrange(a, e).subrange(1, t.len() as int));
        assert(s.subrange(a, e).subrange(1, t.len() as int) =~= d);
        lemma_nat_digits(m, s, a + 1);
        lemma_digits_end_at(s, a + 1, e);
        assert(lex_number(s, a) == Ok::<(TokenV, int), LexError>((TokenV::IntLiteral(v), e)));
    } else {
        let d = nat_digits(v as nat);
        lemma_nat_digits(v as nat, s, a);
        lemma_digits_end_at(s, a, e);
        assert(is_digit(s[a]));
        assert(lex_number(s, a) == Ok::<(TokenV, int), LexError>((TokenV::IntLiteral(v), e)));
    }
}

/// One step of lexing: a token that is not a space, then the rest.
proof fn lemma_lex_step(s: Seq<char>, i: int, t: TokenV, j: int)
    requires
        0 <= i < j <= s.len(),
        !is_space(s[i]),
        lex_one(s, i) == Ok::<(TokenV, int), LexError>((t, j)),
    ensures
        lex_from(s, i) == prepend(seq![t], lex_from(s, j)),
{
}

proof fn lemma_prepend_prepend(a: Seq<TokenV>, b: Seq<TokenV>, r: Result<Seq<TokenV>, LexError>)
    ensures
        prepend(a, prepend(b, r)) == prepend(a + b, r),
{
    match r {
        Ok(ts) => {
            assert(a + (b + ts) =~= (a + b) + ts);
        },
        Err(_) => {},
    }
}

/// Lexing from `i` where an optional integer bound is written, followed by `c`.
proof fn lemma_lex_bound(s: Seq<char>, i: int, b: Option<i32>)
    requires
        0 <= i,
        i + int_bound_text(b).len() < s.len(),
        s.subrange(i, i + int_bound_text(b).len()) == int_bound_text(b),
        !is_digit(s[i + int_bound_text(b).len()]),
        s[i + int_bound_text(b).len()] != '.',
    ensures
        lex_from(s, i) == prepend(int_bound_tokens(b), lex_from(s, i + int_bound_text(b).len())),
{
    match b {
        Some(v) => {
            lemma_lex_int(v, s, i);
            let t = int_text(v as int);
            assert(s[i] == t[0]);
            if v < 0 {
                assert(t[0] == '-');
            } else {
                lemma_nat_digits(v as nat, s, i);
            }
            lemma_lex_step(s, i, TokenV::IntLiteral(v), i + t.len());
        },
        None => {
            assert(prepend(Seq::empty(), lex_from(s, i)) == lex_from(s, i)) by {
                match lex_from(s, i) {
                    Ok(ts) => {
                        assert(Seq::<TokenV>::empty() + ts =~= ts);
                    },
                    Err(_) => {},
                }
            }
        },
    }
}

/// Where the text of an integer range ends `s`, from `o`, it lexes to the
/// range's tokens.
proof fn lemma_lex_int_range_at(r: IntRange, s: Seq<char>, o: int)
    requires
        0 <= o,
        o + int_range_text(r).len() == s.len(),
        s.subrange(o, s.len() as int) == int_range_text(r),
    ensures
        lex_from(s, o) == Ok::<Seq<TokenV>, LexError>(int_range_tokens(r)),
{
    let rt = int_range_text(r);
    let a = int_bound_text(r.min);
    let b = int_bound_text(r.max);
    let comma_at: int = o + 1 + a.len() as int;
    let close_at: int = comma_at + 1 + b.len() as int;
    assert(s.len() == close_at + 1);
    assert(s[o] == rt[0]);
    assert(s.subrange(o + 1, comma_at) =~= rt.subrange(1, 1 + a.len() as int));
    assert(rt.subrange(1, 1 + a.len() as int) =~= a);
    assert(s[comma_at] == rt[comma_at - o]);
    assert(s.subrange(comma_at + 1, close_at) =~= rt.subrange(comma_at + 1 - o, close_at - o));
    assert(rt.subrange(comma_at + 1 - o, close_at - o) =~= b);
    assert(s[close_at] == rt[close_at - o]);
    lemma_lex_step(s, o, TokenV::OAngle, o + 1);
    lemma_lex_bound(s, o + 1, r.min);
    lemma_lex_step(s, comma_at, TokenV::Comma, comma_at + 1);
    lemma_lex_bound(s, comma_at + 1, r.max);
    lemma_lex_step(s, close_at, TokenV::CAngle, close_at + 1);
    assert(lex_from(s, close_at + 1) == Ok::<Seq<TokenV>, LexError>(Seq::empty()));
    let ta = int_bound_tokens(r.min);
    let tb = int_bound_tokens(r.max);
    lemma_prepend_prepend(tb, seq![TokenV::CAngle], lex_from(s, close_at + 1));
    lemma_prepend_prepend(seq![TokenV::Comma], tb + seq![TokenV::CAngle], lex_from(s, close_at + 1));
    lemma_prepend_prepend(ta, seq![TokenV::Comma] + (tb + seq![TokenV::CAngle]), lex_from(s, close_at + 1));
    lemma_prepend_prepend(seq![TokenV::OAngle], ta + (seq![TokenV::Comma] + (tb + seq![TokenV::CAngle])), lex_from(s, close_at + 1));
    assert(seq![TokenV::OAngle] + (ta + (seq![TokenV::Comma] + (tb + seq![TokenV::CAngle]))) + Seq::<TokenV>::empty()
        =~= int_range_tokens(r));
}

/// The text of an integer range lexes to the tokens it is written as, and
/// parsing those gives the range back: rendering, lexing and parsing an
/// integer range returns it unchanged.
pub proof fn lemma_int_range_text_round_trip(r: IntRange)
    ensures
        lex_from(int_range_text(r), 0) == Ok::<Seq<TokenV>, LexError>(int_range_tokens(r)),
        spec_int_range(int_range_tokens(r), 0) == Ok::<(IntRange, int), ParseError>((r, int_range_tokens(r).len() as int)),
{
    lemma_int_range_round_trip(r);
    let s = int_range_text(r);
    assert(s.subrange(0, s.len() as int) =~= s);
    lemma_lex_int_range_at(r, s, 0);
}

/// The text of an integer or string data type lexes to the tokens it is
/// written as, and parsing those gives the data type back, whatever names
/// are defined: rendering, lexing and parsing such a data type returns it
/// unchanged.
#[verifier::rlimit(40)]
pub proof fn lemma_data_type_text_round_trip(t: DataTypeV, syms: Map<Seq<char>, SymbolV>)
    requires
        t.parent is Int || t.parent is Str,
    ensures
        lex_from(dtype_text(t), 0) == Ok::<Seq<TokenV>, LexError>(dtype_tokens(t)),
        spec_data_type(dtype_tokens(t), 0, syms) == Ok::<(DataTypeV, int), ParseError>((t, dtype_tokens(t).len() as int)),
{
    lemma_data_type_round_trip(t, syms);
    let s = dtype_text(t);
    let r = match t.parent {
        ParentTypeV::Int(r) => r,
        ParentTypeV::Str(r) => r,
        _ => arbitrary(),
    };
    let name: Seq<char> = if t.parent is Int { seq!['i', 'n', 't'] } else { seq!['s', 't', 'r'] };
    let q: Seq<char> = if t.nullable { seq!['?'] } else { Seq::empty() };
    let o: int = 3 + q.len() as int;
    assert(s =~= name + q + int_range_text(r));
    assert(s.subrange(o, s.len() as int) =~= int_range_text(r));
    lemma_lex_int_range_at(r, s, o);
    assert(s[3] == if t.nullable { '?' } else { '<' });
    assert(ident_end(s, 3) == 3);
    assert(ident_end(s, 2) == 3);
    assert(ident_end(s, 1) == 3);
    assert(s.subrange(0, 3) =~= name);
    assert(name != seq!['t', 'y', 'p', 'e']);
    assert(name != seq!['t', 'a', 'b', 'l', 'e']) by {
        assert(name.len() != 5);
    }
    assert(is_alpha(s[0]));
    lemma_lex_step(s, 0, TokenV::Ident(name), 3);
    if t.nullable {
        lemma_lex_step(s, 3, TokenV::QMark, 4);
        lemma_prepend_prepend(seq![TokenV::Ident(name)], seq![TokenV::QMark], lex_from(s, o));
        assert(seq![TokenV::Ident(name)] + seq![TokenV::QMark] + int_range_tokens(r) =~= dtype_tokens(t));
    } else {
        assert(seq![TokenV::Ident(name)] + int_range_tokens(r) =~= dtype_tokens(t));
    }
}

/// The signed value of a decimal without a fraction.
pub open spec fn whole_value(d: Decimal) -> int {
    if d.negative {
        -(d.mantissa as int)
    } else {
        d.mantissa as int
    }
}

/// Whether a double bound can be written so that it lexes again: a bound
/// without a fraction is written as an integer, which must fit in 32 bits.
pub open spec fn dbl_bound_lexable(b: Option<Decimal>) -> bool {
    b is Some && b->0.scale == 0 ==> i32::MIN <= whole_value(b->0) <= i32::MAX
}

/// The token that the text of a double bound lexes to.
pub open spec fn dbl_bound_lexed(b: Option<Decimal>) -> Seq<TokenV> {
    match b {
        Some(d) => if d.scale == 0 {
            seq![TokenV::IntLiteral(whole_value(d) as i32)]
        } else {
            seq![TokenV::DblLiteral(d)]
        },
        None => Seq::empty(),
    }
}

proof fn lemma_lex_dbl_bound(s: Seq<char>, i: int, b: Option<Decimal>)
    requires
        0 <= i,
        b matches Some(d) ==> d.wf(),
        dbl_bound_lexable(b),
        i + dbl_bound_text(b).len() < s.len(),
        s.subrange(i, i + dbl_bound_text(b).len()) == dbl_bound_text(b),
        !is_digit(s[i + dbl_bound_text(b).len()]),
        s[i + dbl_bound_text(b).len()] != '.',
    ensures
        lex_from(s, i) == prepend(dbl_bound_lexed(b), lex_from(s, i + dbl_bound_text(b).len())),
{
    match b {
        Some(d) => {
            let t = d.text();
            let m = d.mantissa as nat;
            let sign: Seq<char> = if d.negative { seq!['-'] } else { Seq::empty() };
            let a1 = i + sign.len();
            crate::decimal::lemma_pow10_mono(0, d.scale as nat);
            if d.negative {
                assert(s[i] == t[0]);
            } else {
                let whole = nat_digits(m / pow10(d.scale as nat));
                assert(s.subrange(a1, a1 + whole.len()) =~= t.subrange(0, whole.len() as int));
                assert(t.subrange(0, whole.len() as int) =~= whole);
                lemma_nat_digits(m / pow10(d.scale as nat), s, a1);
                assert(s[i] == s[a1]);
            }
            if d.scale == 0 {
                let v = whole_value(d) as i32;
                assert(pow10(0) == 1);
                assert(d.scale as nat == 0);
                assert(pow10(d.scale as nat) == 1);
                assert(m / 1 == m);
                assert(m / pow10(d.scale as nat) == m);
                if d.negative {
                    assert(v < 0);
                    assert((-v) as nat == m);
                    assert(t =~= seq!['-'] + nat_digits(m));
                } else {
                    assert(v as nat == m);
                    assert(t =~= nat_digits(m));
                }
                assert(t =~= int_text(v as int));
                lemma_lex_int(v, s, i);
                lemma_lex_step(s, i, TokenV::IntLiteral(v), i + t.len());
            } else {
                lemma_lex_decimal(d, s, i);
                lemma_lex_step(s, i, TokenV::DblLiteral(d), i + t.len());
            }
        },
        None => {
            assert(prepend(Seq::empty(), lex_from(s, i)) == lex_from(s, i)) by {
                match lex_from(s, i) {
                    Ok(ts) => {
                        assert(Seq::<TokenV>::empty() + ts =~= ts);
                    },
                    Err(_) => {},
                }
            }
        },
    }
}

/// The tokens that the text of a double range lexes to.
pub open spec fn dbl_range_lexed(r: DblRange) -> Seq<TokenV> {
    seq![TokenV::OAngle] + dbl_bound_lexed(r.min) + seq![TokenV::Comma] + dbl_bound_lexed(r.max) + seq![TokenV::CAngle]
}

proof fn lemma_dbl_bound_parses(t: Seq<TokenV>, k: int, b: Option<Decimal>)
    requires
        b matches Some(d) ==> d.wf(),
        dbl_bound_lexable(b),
        0 <= k,
        k + dbl_bound_lexed(b).len() <= t.len(),
        t.subrange(k, k + dbl_bound_lexed(b).len()) == dbl_bound_lexed(b),
        b is None ==> !(k < t.len() && (t[k] is IntLiteral || t[k] is DblLiteral)),
    ensures
        crate::parse::opt_step(crate::parse::dbl_bound_at(t, k), k) == (b, k + dbl_bound_lexed(b).len()),
{
    match b {
        Some(d) => {
            assert(t[k] == dbl_bound_lexed(b)[0]);
            if d.scale == 0 {
                assert(Decimal::of_int(whole_value(d) as i32) == d);
            }
        },
        None => {},
    }
}

/// Where the text of a double range ends `s`, from `o`, it lexes to the
/// tokens that parse back to the range.
proof fn lemma_dbl_range_at(r: DblRange, s: Seq<char>, o: int)
    requires
        dbl_range_wf(r),
        dbl_bound_lexable(r.min),
        dbl_bound_lexable(r.max),
        0 <= o,
        o + dbl_range_text(r).len() == s.len(),
        s.subrange(o, s.len() as int) == dbl_range_text(r),
    ensures
        lex_from(s, o) == Ok::<Seq<TokenV>, LexError>(dbl_range_lexed(r)),
{
    let rt = dbl_range_text(r);
    let a = dbl_bound_text(r.min);
    let b = dbl_bound_text(r.max);
    let comma_at: int = o + 1 + a.len() as int;
    let close_at: int = comma_at + 1 + b.len() as int;
    assert(s.len() == close_at + 1);
    assert(s[o] == rt[0]);
    assert(s.subrange(o + 1, comma_at) =~= rt.subrange(1, 1 + a.len() as int));
    assert(rt.subrange(1, 1 + a.len() as int) =~= a);
    assert(s[comma_at] == rt[comma_at - o]);
    assert(s.subrange(comma_at + 1, close_at) =~= rt.subrange(comma_at + 1 - o, close_at - o));
    assert(rt.subrange(comma_at + 1 - o, close_at - o) =~= b);
    assert(s[close_at] == rt[close_at - o]);
    lemma_lex_step(s, o, TokenV::OAngle, o + 1);
    lemma_lex_dbl_bound(s, o + 1, r.min);
    lemma_lex_step(s, comma_at, TokenV::Comma, comma_at + 1);
    lemma_lex_dbl_bound(s, comma_at + 1, r.max);
    lemma_lex_step(s, close_at, TokenV::CAngle, close_at + 1);
    assert(lex_from(s, close_at + 1) == Ok::<Seq<TokenV>, LexError>(Seq::empty()));
    let ta = dbl_bound_lexed(r.min);
    let tb = dbl_bound_lexed(r.max);
    lemma_prepend_prepend(tb, seq![TokenV::CAngle], lex_from(s, close_at + 1));
    lemma_prepend_prepend(seq![TokenV::Comma], tb + seq![TokenV::CAngle], lex_from(s, close_at + 1));
    lemma_prepend_prepend(ta, seq![TokenV::Comma] + (tb + seq![TokenV::CAngle]), lex_from(s, close_at + 1));
    lemma_prepend_prepend(seq![TokenV::OAngle], ta + (seq![TokenV::Comma] + (tb + seq![TokenV::CAngle])), lex_from(s, close_at + 1));
    assert(seq![TokenV::OAngle] + (ta + (seq![TokenV::Comma] + (tb + seq![TokenV::CAngle]))) + Seq::<TokenV>::empty()
        =~= dbl_range_lexed(r));
}

/// Where the tokens of a double range's text end `t`, from `o`, they parse
/// back to the range.
proof fn lemma_dbl_range_parses_at(r: DblRange, t: Seq<TokenV>, o: int)
    requires
        dbl_range_wf(r),
        dbl_bound_lexable(r.min),
        dbl_bound_lexable(r.max),
        0 <= o,
        o + dbl_range_lexed(r).len() == t.len(),
        t.subrange(o, t.len() as int) == dbl_range_lexed(r),
    ensures
        spec_dbl_range(t, o) == Ok::<(DblRange, int), ParseError>((r, t.len() as int)),
{
    let lt = dbl_range_lexed(r);
    let ta = dbl_bound_lexed(r.min);
    let tb = dbl_bound_lexed(r.max);
    let k: int = o + 1 + ta.len() as int;
    let k2: int = k + 1 + tb.len() as int;
    assert(t[o] == lt[0]);
    assert(t.subrange(o + 1, k) =~= lt.subrange(1, 1 + ta.len() as int));
    assert(lt.subrange(1, 1 + ta.len() as int) =~= ta);
    assert(t[k] == lt[k - o]);
    assert(t.subrange(k + 1, k2) =~= lt.subrange(k + 1 - o, k2 - o));
    assert(lt.subrange(k + 1 - o, k2 - o) =~= tb);
    assert(t[k2] == lt[k2 - o]);
    lemma_dbl_bound_parses(t, o + 1, r.min);
    lemma_dbl_bound_parses(t, k + 1, r.max);
}

/// The text of a double range lexes, and parsing the tokens gives the range
/// back: rendering, lexing and parsing a double range returns it unchanged,
/// where each bound without a fraction fits in 32 bits.
pub proof fn lemma_dbl_range_text_round_trip(r: DblRange)
    requires
        dbl_range_wf(r),
        dbl_bound_lexable(r.min),
        dbl_bound_lexable(r.max),
    ensures
        lex_from(dbl_range_text(r), 0) == Ok::<Seq<TokenV>, LexError>(dbl_range_lexed(r)),
        spec_dbl_range(dbl_range_lexed(r), 0) == Ok::<(DblRange, int), ParseError>((r, dbl_range_lexed(r).len() as int)),
{
    let s = dbl_range_text(r);
    assert(s.subrange(0, s.len() as int) =~= s);
    lemma_dbl_range_at(r, s, 0);
    let lt = dbl_range_lexed(r);
    assert(lt.subrange(0, lt.len() as int) =~= lt);
    lemma_dbl_range_parses_at(r, lt, 0);
}

/// The text of a double data type lexes, and parsing the tokens gives the
/// data type back, whatever names are defined, where each bound without a
/// fraction fits in 32 bits.
#[verifier::rlimit(40)]
pub proof fn lemma_dbl_data_type_text_round_trip(t: DataTypeV, syms: Map<Seq<char>, SymbolV>)
    requires
        t.parent is Dbl,
        dbl_range_wf(t.parent->Dbl_0),
        dbl_bound_lexable(t.parent->Dbl_0.min),
        dbl_bound_lexable(t.parent->Dbl_0.max),
    ensures
        lex_from(dtype_text(t), 0) matches Ok(ts)
            && spec_data_type(ts, 0, syms) == Ok::<(DataTypeV, int), ParseError>((t, ts.len() as int)),
{
    let r = t.parent->Dbl_0;
    let s = dtype_text(t);
    let name: Seq<char> = seq!['d', 'b', 'l'];
    let q: Seq<char> = if t.nullable { seq!['?'] } else { Seq::empty() };
    let o: int = 3 + q.len() as int;
    assert(s =~= name + q + dbl_range_text(r));
    assert(s.subrange(o, s.len() as int) =~= dbl_range_text(r));
    lemma_dbl_range_at(r, s, o);
    assert(s[3] == if t.nullable { '?' } else { '<' });
    assert(ident_end(s, 3) == 3);
    assert(ident_end(s, 2) == 3);
    assert(ident_end(s, 1) == 3);
    assert(s.subrange(0, 3) =~= name);
    assert(name != seq!['t', 'y', 'p', 'e']);
    assert(name != seq!['t', 'a', 'b', 'l', 'e']) by {
        assert(name.len() != 5);
    }
    assert(is_alpha(s[0]));
    lemma_lex_step(s, 0, TokenV::Ident(name), 3);
    let qt: Seq<TokenV> = if t.nullable { seq![TokenV::QMark] } else { Seq::empty() };
    let ts = seq![TokenV::Ident(name)] + qt + dbl_range_lexed(r);
    if t.nullable {
        lemma_lex_step(s, 3, TokenV::QMark, 4);
        lemma_prepend_prepend(seq![TokenV::Ident(name)], seq![TokenV::QMark], lex_from(s, o));
        assert(seq![TokenV::Ident(name)] + seq![TokenV::QMark] + dbl_range_lexed(r) =~= ts);
    } else {
        assert(seq![TokenV::Ident(name)] + dbl_range_lexed(r) =~= ts);
    }
    assert(lex_from(s, 0) == Ok::<Seq<TokenV>, LexError>(ts));
    let k: int = 1 + qt.len() as int;
    assert(ts.subrange(k, ts.len() as int) =~= dbl_range_lexed(r));
    lemma_dbl_range_parses_at(r, ts, k);
    assert(ts[0] == TokenV::Ident(name));
    assert(name != seq!['i', 'n', 't']);
    assert(name != seq!['i', 'n', 't', 'e', 'g', 'e', 'r']);
    assert(name != seq!['s', 't', 'r']);
    assert(name != seq!['s', 't', 'r', 'i', 'n', 'g']);
    assert(name != seq!['t', 'e', 'x', 't']);
    assert(crate::parse::family_of(name) == Some(crate::parse::Family::Dbl));
    if t.nullable {
        assert(ts[1] == TokenV::QMark);
    } else {
        assert(ts[1] == TokenV::OAngle);
    }
    assert(ts[k] == TokenV::OAngle);
}

} // verus!

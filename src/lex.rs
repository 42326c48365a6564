//! The lexer: source text to tokens, the longest match at each position.
use vstd::prelude::*;
use crate::decimal::{pow10, pow10_u64, lemma_pow10_mono, lemma_pow10_18, Decimal, MAX_DIGITS};
use crate::text::push_char;

verus! {

/// A token of the language.
#[derive(Debug)]
pub enum Token {
    OParen,
    CParen,
    OAngle,
    CAngle,
    Comma,
    Equals,
    QMark,
    Colon,
    Semicolon,
    TypeKwd,
    TableKwd,
    Ident(String),
    IntLiteral(i32),
    DblLiteral(Decimal),
    StrLiteral(String),
}

pub ghost enum TokenV {
    OParen,
    CParen,
    OAngle,
    CAngle,
    Comma,
    Equals,
    QMark,
    Colon,
    Semicolon,
    TypeKwd,
    TableKwd,
    Ident(Seq<char>),
    IntLiteral(i32),
    DblLiteral(Decimal),
    StrLiteral(Seq<char>),
}

impl View for Token {
    type V = TokenV;

    open spec fn view(&self) -> TokenV {
        match self {
            Token::OParen => TokenV::OParen,
            Token::CParen => TokenV::CParen,
            Token::OAngle => TokenV::OAngle,
            Token::CAngle => TokenV::CAngle,
            Token::Comma => TokenV::Comma,
            Token::Equals => TokenV::Equals,
            Token::QMark => TokenV::QMark,
            Token::Colon => TokenV::Colon,
            Token::Semicolon => TokenV::Semicolon,
            Token::TypeKwd => TokenV::TypeKwd,
            Token::TableKwd => TokenV::TableKwd,
            Token::Ident(s) => TokenV::Ident(s@),
            Token::IntLiteral(v) => TokenV::IntLiteral(*v),
            Token::DblLiteral(d) => TokenV::DblLiteral(*d),
            Token::StrLiteral(s) => TokenV::StrLiteral(s@),
        }
    }
}

/// Why lexing failed, with the byte offset in the source where it did.
#[derive(Clone, Copy, Debug, PartialEq, Eq, Structural)]
pub enum LexError {
    /// No token starts with this character.
    Unmatched(usize),
    /// A number that does not fit: an integer beyond 32 bits, or a decimal
    /// of more than `MAX_DIGITS` digits.
    BadNumber(usize),
}

/// How many bytes the UTF-8 encoding of `c` takes.
pub open spec fn utf8_len(c: char) -> nat {
    if (c as u32) < 0x80 {
        1
    } else if (c as u32) < 0x800 {
        2
    } else if (c as u32) < 0x10000 {
        3
    } else {
        4
    }
}

/// The byte offset of the character at index `k` of `s`, in UTF-8.
pub open spec fn byte_offset(s: Seq<char>, k: int) -> nat
    decreases k,
{
    if k <= 0 || k > s.len() {
        0
    } else {
        byte_offset(s, k - 1) + utf8_len(s[k - 1])
    }
}

/// A white-space character: the ASCII controls from tab to carriage return,
/// the space, and the other characters of Unicode's `White_Space` property.
pub open spec fn is_space(c: char) -> bool {
    ||| ('\t' <= c && c <= '\r')
    ||| c == ' '
    ||| c == '\u{85}'
    ||| c == '\u{A0}'
    ||| c == '\u{1680}'
    ||| ('\u{2000}' <= c && c <= '\u{200A}')
    ||| c == '\u{2028}'
    ||| c == '\u{2029}'
    ||| c == '\u{202F}'
    ||| c == '\u{205F}'
    ||| c == '\u{3000}'
}

pub open spec fn is_alpha(c: char) -> bool {
    ('a' <= c && c <= 'z') || ('A' <= c && c <= 'Z')
}

pub open spec fn is_digit(c: char) -> bool {
    '0' <= c && c <= '9'
}

pub open spec fn is_ident_char(c: char) -> bool {
    is_alpha(c) || is_digit(c) || c == '_'
}

/// The end of the run of identifier characters from `i`.
pub open spec fn ident_end(s: Seq<char>, i: int) -> int
    decreases s.len() - i,
{
    if 0 <= i < s.len() && is_ident_char(s[i]) {
        ident_end(s, i + 1)
    } else {
        i
    }
}

/// The end of the run of digits from `i`.
pub open spec fn digits_end(s: Seq<char>, i: int) -> int
    decreases s.len() - i,
{
    if 0 <= i < s.len() && is_digit(s[i]) {
        digits_end(s, i + 1)
    } else {
        i
    }
}

/// The position of the first `"` at or after `i`, or the length if none.
pub open spec fn quote_end(s: Seq<char>, i: int) -> int
    decreases s.len() - i,
{
    if 0 <= i < s.len() && s[i] != '"' {
        quote_end(s, i + 1)
    } else {
        i
    }
}

/// The number that the digits `s[a..b]` write.
pub open spec fn digits_value(s: Seq<char>, a: int, b: int) -> nat
    decreases b - a,
{
    if b <= a {
        0
    } else {
        digits_value(s, a, b - 1) * 10 + ((s[b - 1] as nat) - 48) as nat
    }
}

/// `m / 10^sc` with the trailing zeros of the fraction taken away.
pub open spec fn normalize(m: nat, sc: nat) -> (nat, nat)
    decreases sc,
{
    if sc > 0 && m % 10 == 0 {
        normalize(m / 10, (sc - 1) as nat)
    } else {
        (m, sc)
    }
}

/// The token of a number that starts at `i` (a digit, or `-` and a digit).
pub open spec fn lex_number(s: Seq<char>, i: int) -> Result<(TokenV, int), LexError> {
    let n = s.len();
    let neg = s[i] == '-';
    let a = if neg { i + 1 } else { i };
    let b = digits_end(s, a);
    if b + 1 < s.len() && s[b] == '.' && is_digit(s[b + 1]) {
        let e = digits_end(s, b + 1);
        if (b - a) + (e - b - 1) > MAX_DIGITS {
            Err(LexError::BadNumber(byte_offset(s, i) as usize))
        } else {
            let m = digits_value(s, a, b) * pow10((e - b - 1) as nat) + digits_value(s, b + 1, e);
            let (nm, ns) = normalize(m, (e - b - 1) as nat);
            let d = Decimal { negative: neg && nm != 0, mantissa: nm as u64, scale: ns as u32 };
            Ok((TokenV::DblLiteral(d), e))
        }
    } else {
        let v: int = if neg { -digits_value(s, a, b) } else { digits_value(s, a, b) as int };
        if i32::MIN <= v <= i32::MAX {
            Ok((TokenV::IntLiteral(v as i32), b))
        } else {
            Err(LexError::BadNumber(byte_offset(s, i) as usize))
        }
    }
}

/// The token that starts at `i`, where no space is, and where it ends.
pub open spec fn lex_one(s: Seq<char>, i: int) -> Result<(TokenV, int), LexError> {
    let n = s.len();
    let c = s[i];
    if c == '(' {
        Ok((TokenV::OParen, i + 1))
    } else if c == ')' {
        Ok((TokenV::CParen, i + 1))
    } else if c == '<' {
        Ok((TokenV::OAngle, i + 1))
    } else if c == '>' {
        Ok((TokenV::CAngle, i + 1))
    } else if c == ',' {
        Ok((TokenV::Comma, i + 1))
    } else if c == '=' {
        Ok((TokenV::Equals, i + 1))
    } else if c == '?' {
        Ok((TokenV::QMark, i + 1))
    } else if c == ':' {
        Ok((TokenV::Colon, i + 1))
    } else if c == ';' {
        Ok((TokenV::Semicolon, i + 1))
    } else if is_alpha(c) {
        let e = ident_end(s, i + 1);
        let w = s.subrange(i, e);
        if w == seq!['t', 'y', 'p', 'e'] {
            Ok((TokenV::TypeKwd, e))
        } else if w == seq!['t', 'a', 'b', 'l', 'e'] {
            Ok((TokenV::TableKwd, e))
        } else {
            Ok((TokenV::Ident(w), e))
        }
    } else if is_digit(c) || (c == '-' && i + 1 < s.len() && is_digit(s[i + 1])) {
        lex_number(s, i)
    } else if c == '"' {
        let q = quote_end(s, i + 1);
        if q < s.len() {
            Ok((TokenV::StrLiteral(s.subrange(i + 1, q)), q + 1))
        } else {
            Err(LexError::Unmatched(byte_offset(s, i) as usize))
        }
    } else {
        Err(LexError::Unmatched(byte_offset(s, i) as usize))
    }
}

/// The tokens of `s[i..]`: spaces are skipped, and each token is the longest
/// one that starts where the last one ended.
pub open spec fn lex_from(s: Seq<char>, i: int) -> Result<Seq<TokenV>, LexError>
    decreases s.len() - i,
{
    if i < 0 || i >= s.len() {
        Ok(Seq::empty())
    } else if is_space(s[i]) {
        lex_from(s, i + 1)
    } else {
        match lex_one(s, i) {
            Err(e) => Err(e),
            Ok((t, j)) => if i < j && j <= s.len() {
                match lex_from(s, j) {
                    Ok(ts) => Ok(seq![t] + ts),
                    Err(e) => Err(e),
                }
            } else {
                Err(LexError::Unmatched(byte_offset(s, i) as usize))
            },
        }
    }
}

/// `prefix` put before the tokens of `r`, an error passed on.
pub open spec fn prepend(prefix: Seq<TokenV>, r: Result<Seq<TokenV>, LexError>) -> Result<Seq<TokenV>, LexError> {
    match r {
        Ok(ts) => Ok(prefix + ts),
        Err(e) => Err(e),
    }
}

pub open spec fn token_wf(t: TokenV) -> bool {
    t matches TokenV::DblLiteral(d) ==> d.wf()
}

pub open spec fn tokens_view(ts: Seq<Token>) -> Seq<TokenV> {
    ts.map_values(|t: Token| t@)
}

proof fn lemma_ident_end(s: Seq<char>, i: int)
    requires
        0 <= i <= s.len(),
    ensures
        i <= ident_end(s, i) <= s.len(),
    decreases s.len() - i,
{
    if i < s.len() && is_ident_char(s[i]) {
        lemma_ident_end(s, i + 1);
    }
}

proof fn lemma_digits_end(s: Seq<char>, i: int)
    requires
        0 <= i <= s.len(),
    ensures
        i <= digits_end(s, i) <= s.len(),
        forall|k: int| i <= k < digits_end(s, i) ==> is_digit(#[trigger] s[k]),
    decreases s.len() - i,
{
    if i < s.len() && is_digit(s[i]) {
        lemma_digits_end(s, i + 1);
    }
}

proof fn lemma_quote_end(s: Seq<char>, i: int)
    requires
        0 <= i <= s.len(),
    ensures
        i <= quote_end(s, i) <= s.len(),
        quote_end(s, i) < s.len() ==> s[quote_end(s, i)] == '"',
    decreases s.len() - i,
{
    if i < s.len() && s[i] != '"' {
        lemma_quote_end(s, i + 1);
    }
}

proof fn lemma_digits_bound(s: Seq<char>, a: int, b: int)
    requires
        a <= b <= s.len(),
        0 <= a,
        forall|k: int| a <= k < b ==> is_digit(#[trigger] s[k]),
    ensures
        digits_value(s, a, b) < pow10((b - a) as nat),
    decreases b - a,
{
    if b > a {
        lemma_digits_bound(s, a, b - 1);
        let v = digits_value(s, a, b - 1);
        let p = pow10((b - 1 - a) as nat);
        let d = ((s[b - 1] as nat) - 48) as nat;
        assert(v * 10 + d < p * 10) by (nonlinear_arith)
            requires v < p, d < 10;
        assert(pow10((b - a) as nat) == 10 * p);
    }
}

proof fn lemma_digits_mono(s: Seq<char>, a: int, k: int, b: int)
    requires
        a <= k <= b,
    ensures
        digits_value(s, a, k) <= digits_value(s, a, b),
    decreases b - k,
{
    if b > k {
        lemma_digits_mono(s, a, k, b - 1);
        let v = digits_value(s, a, b - 1);
        assert(v <= v * 10) by (nonlinear_arith)
            requires v >= 0;
    }
}

proof fn lemma_normalize(m: nat, sc: nat)
    ensures
        normalize(m, sc).0 <= m,
        normalize(m, sc).1 <= sc,
        normalize(m, sc).1 > 0 ==> normalize(m, sc).0 % 10 != 0,
    decreases sc,
{
    if sc > 0 && m % 10 == 0 {
        lemma_normalize(m / 10, (sc - 1) as nat);
    }
}

/// Relies on `str::char_indices`: the byte offset at which each character
/// of `s` starts, each character taking its UTF-8 width.
#[verifier::external_body]
fn char_offsets(s: &str) -> (r: Vec<usize>)
    ensures
        r@.len() == s@.len(),
        forall|k: int| 0 <= k < s@.len() ==> #[trigger] r@[k] == byte_offset(s@, k),
{
    s.char_indices().map(|(i, _)| i).collect()
}

/// The characters of `s`.
fn chars_of(s: &str) -> (r: Vec<char>)
    ensures
        r@ == s@,
{
    let n = s.unicode_len();
    let mut r: Vec<char> = Vec::new();
    let mut i: usize = 0;
    while i < n
        invariant
            n == s@.len(),
            i <= n,
            r@ == s@.subrange(0, i as int),
        decreases n - i,
    {
        r.push(s.get_char(i));
        i = i + 1;
    }
    r
}

fn is_space_char(c: char) -> (r: bool)
    ensures
        r == is_space(c),
{
    ('\t' <= c && c <= '\r') || c == ' ' || c == '\u{85}' || c == '\u{A0}' || c == '\u{1680}'
        || ('\u{2000}' <= c && c <= '\u{200A}') || c == '\u{2028}' || c == '\u{2029}' || c == '\u{202F}'
        || c == '\u{205F}' || c == '\u{3000}'
}

fn is_alpha_char(c: char) -> (r: bool)
    ensures
        r == is_alpha(c),
{
    ('a' <= c && c <= 'z') || ('A' <= c && c <= 'Z')
}

fn is_digit_char(c: char) -> (r: bool)
    ensures
        r == is_digit(c),
{
    '0' <= c && c <= '9'
}

fn scan_ident(s: &Vec<char>, i: usize) -> (e: usize)
    requires
        i <= s@.len(),
    ensures
        e == ident_end(s@, i as int),
{
    let mut e = i;
    while e < s.len() && (is_alpha_char(s[e]) || is_digit_char(s[e]) || s[e] == '_')
        invariant
            i <= e <= s@.len(),
            ident_end(s@, i as int) == ident_end(s@, e as int),
        decreases s@.len() - e,
    {
        e = e + 1;
    }
    e
}

fn scan_digits(s: &Vec<char>, i: usize) -> (e: usize)
    requires
        i <= s@.len(),
    ensures
        e == digits_end(s@, i as int),
{
    let mut e = i;
    while e < s.len() && is_digit_char(s[e])
        invariant
            i <= e <= s@.len(),
            digits_end(s@, i as int) == digits_end(s@, e as int),
        decreases s@.len() - e,
    {
        e = e + 1;
    }
    e
}

fn scan_quote(s: &Vec<char>, i: usize) -> (e: usize)
    requires
        i <= s@.len(),
    ensures
        e == quote_end(s@, i as int),
{
    let mut e = i;
    while e < s.len() && s[e] != '"'
        invariant
            i <= e <= s@.len(),
            quote_end(s@, i as int) == quote_end(s@, e as int),
        decreases s@.len() - e,
    {
        e = e + 1;
    }
    e
}

fn collect(s: &Vec<char>, a: usize, b: usize) -> (r: String)
    requires
        a <= b <= s@.len(),
    ensures
        r@ == s@.subrange(a as int, b as int),
{
    let mut r = String::new();
    let mut k = a;
    while k < b
        invariant
            a <= k <= b <= s@.len(),
            r@ == s@.subrange(a as int, k as int),
        decreases b - k,
    {
        push_char(&mut r, s[k]);
        k = k + 1;
        assert(r@ =~= s@.subrange(a as int, k as int));
    }
    r
}

fn digit_value(c: char) -> (d: u64)
    requires
        is_digit(c),
    ensures
        d == (c as nat) - 48,
        d < 10,
{
    (c as u32 - 48) as u64
}

pub proof fn lemma_pow10_add(x: nat, y: nat)
    ensures
        pow10(x + y) == pow10(x) * pow10(y),
    decreases x,
{
    if x > 0 {
        lemma_pow10_add((x - 1) as nat, y);
        assert(pow10(x + y) == 10 * pow10((x - 1 + y) as nat));
        assert(10 * (pow10((x - 1) as nat) * pow10(y)) == (10 * pow10((x - 1) as nat)) * pow10(y)) by (nonlinear_arith);
        assert(pow10(x) == 10 * pow10((x - 1) as nat));
    } else {
        assert(pow10(0) == 1);
    }
}

/// The value of the digits `s[a..b]`, at most 18 of them.
fn digits_u64(s: &Vec<char>, a: usize, b: usize) -> (r: u64)
    requires
        a <= b <= s@.len(),
        b - a <= 18,
        forall|x: int| a <= x < b ==> is_digit(#[trigger] s@[x]),
    ensures
        r == digits_value(s@, a as int, b as int),
        r < pow10((b - a) as nat),
{
    proof {
        lemma_pow10_18();
    }
    let mut m: u64 = 0;
    let mut k = a;
    while k < b
        invariant
            a <= k <= b <= s@.len(),
            b - a <= 18,
            forall|x: int| a <= x < b ==> is_digit(#[trigger] s@[x]),
            m == digits_value(s@, a as int, k as int),
            m < pow10((k - a) as nat),
            pow10(18) == 1000000000000000000,
        decreases b - k,
    {
        let d = digit_value(s[k]);
        let ghost nd: nat = (k - a) as nat;
        proof {
            lemma_pow10_mono(nd + 1, 18);
            assert(pow10(nd + 1) == 10 * pow10(nd));
            assert(m * 10 + d < pow10(nd) * 10) by (nonlinear_arith)
                requires m < pow10(nd), d < 10;
            assert((k + 1 - a) as nat == nd + 1);
        }
        m = m * 10 + d;
        k = k + 1;
    }
    m
}

/// The value of the digits `s[a..b]`, or `None` beyond `2^31`.
fn digits_capped(s: &Vec<char>, a: usize, b: usize) -> (r: Option<u64>)
    requires
        a <= b <= s@.len(),
        forall|x: int| a <= x < b ==> is_digit(#[trigger] s@[x]),
    ensures
        match r {
            Some(v) => v == digits_value(s@, a as int, b as int) && v <= 2147483648,
            None => digits_value(s@, a as int, b as int) > 2147483648,
        },
{
    let mut acc: u64 = 0;
    let mut k = a;
    while k < b
        invariant
            a <= k <= b <= s@.len(),
            forall|x: int| a <= x < b ==> is_digit(#[trigger] s@[x]),
            acc == digits_value(s@, a as int, k as int),
            acc <= 2147483648,
        decreases b - k,
    {
        let d = digit_value(s[k]);
        acc = acc * 10 + d;
        k = k + 1;
        if acc > 2147483648 {
            proof {
                lemma_digits_mono(s@, a as int, k as int, b as int);
            }
            return None;
        }
    }
    Some(acc)
}

fn lex_number_exec(s: &Vec<char>, i: usize, pos: usize) -> (r: Result<(Token, usize), LexError>)
    requires
        i < s@.len(),
        pos == byte_offset(s@, i as int),
        is_digit(s@[i as int]) || (s@[i as int] == '-' && i + 1 < s@.len() && is_digit(s@[i + 1])),
    ensures
        match r {
            Ok((t, j)) => lex_number(s@, i as int) == Ok::<(TokenV, int), LexError>((t@, j as int))
                && token_wf(t@) && i < j <= s@.len(),
            Err(e) => lex_number(s@, i as int) == Err::<(TokenV, int), LexError>(e),
        },
{
    let n = s.len();
    let neg = s[i] == '-';
    let a = if neg { i + 1 } else { i };
    let b = scan_digits(s, a);
    proof {
        lemma_digits_end(s@, a as int);
        lemma_digits_end(s@, a + 1);
        assert(digits_end(s@, a as int) == digits_end(s@, a + 1));
        lemma_pow10_18();
    }
    if b < n && b + 1 < n && s[b] == '.' && is_digit_char(s[b + 1]) {
        let e = scan_digits(s, b + 1);
        proof {
            lemma_digits_end(s@, b + 2);
            assert(digits_end(s@, b + 1) == digits_end(s@, b + 2));
            lemma_digits_end(s@, b + 1);
        }
        if (b - a) + (e - b - 1) > MAX_DIGITS as usize {
            return Err(LexError::BadNumber(pos));
        }
        let whole = digits_u64(s, a, b);
        let frac = digits_u64(s, b + 1, e);
        let f: u32 = (e - b - 1) as u32;
        let p = pow10_u64(f);
        let ghost w: nat = (b - a) as nat;
        proof {
            lemma_pow10_add(w, f as nat);
            lemma_pow10_mono(w + f as nat, 18);
            assert(whole * p + frac < pow10(w) * p) by (nonlinear_arith)
                requires whole < pow10(w), frac < p, p >= 1;
        }
        let mut m: u64 = whole * p + frac;
        let ghost m0 = m as nat;
        let mut sc: u32 = f;
        while sc > 0 && m % 10 == 0
            invariant
                normalize(m0, f as nat) == normalize(m as nat, sc as nat),
                m <= m0,
            decreases sc,
        {
            m = m / 10;
            sc = sc - 1;
        }
        proof {
            lemma_normalize(m0, f as nat);
        }
        let d = Decimal { negative: neg && m != 0, mantissa: m, scale: sc };
        Ok((Token::DblLiteral(d), e))
    } else {
        match digits_capped(s, a, b) {
            None => Err(LexError::BadNumber(pos)),
            Some(acc) => {
                if neg {
                    Ok((Token::IntLiteral((-(acc as i64)) as i32), b))
                } else if acc > 2147483647 {
                    Err(LexError::BadNumber(pos))
                } else {
                    Ok((Token::IntLiteral(acc as i32), b))
                }
            },
        }
    }
}

fn lex_one_exec(s: &Vec<char>, i: usize, pos: usize) -> (r: Result<(Token, usize), LexError>)
    requires
        i < s@.len(),
        pos == byte_offset(s@, i as int),
    ensures
        match r {
            Ok((t, j)) => lex_one(s@, i as int) == Ok::<(TokenV, int), LexError>((t@, j as int))
                && token_wf(t@) && i < j <= s@.len(),
            Err(e) => lex_one(s@, i as int) == Err::<(TokenV, int), LexError>(e),
        },
{
    let n = s.len();
    let c = s[i];
    if c == '(' {
        Ok((Token::OParen, i + 1))
    } else if c == ')' {
        Ok((Token::CParen, i + 1))
    } else if c == '<' {
        Ok((Token::OAngle, i + 1))
    } else if c == '>' {
        Ok((Token::CAngle, i + 1))
    } else if c == ',' {
        Ok((Token::Comma, i + 1))
    } else if c == '=' {
        Ok((Token::Equals, i + 1))
    } else if c == '?' {
        Ok((Token::QMark, i + 1))
    } else if c == ':' {
        Ok((Token::Colon, i + 1))
    } else if c == ';' {
        Ok((Token::Semicolon, i + 1))
    } else if is_alpha_char(c) {
        let e = scan_ident(s, i + 1);
        proof {
            lemma_ident_end(s@, i + 1);
        }
        let ghost w = s@.subrange(i as int, e as int);
        if e - i == 4 && s[i] == 't' && s[i + 1] == 'y' && s[i + 2] == 'p' && s[i + 3] == 'e' {
            assert(w =~= seq!['t', 'y', 'p', 'e']);
            Ok((Token::TypeKwd, e))
        } else if e - i == 5 && s[i] == 't' && s[i + 1] == 'a' && s[i + 2] == 'b' && s[i + 3] == 'l'
            && s[i + 4] == 'e' {
            assert(w =~= seq!['t', 'a', 'b', 'l', 'e']);
            assert(w != seq!['t', 'y', 'p', 'e']) by {
                assert(w.len() != 4);
            }
            Ok((Token::TableKwd, e))
        } else {
            assert(w != seq!['t', 'y', 'p', 'e']) by {
                if w.len() == 4 {
                    assert(w[0] == s@[i as int] && w[1] == s@[i + 1] && w[2] == s@[i + 2] && w[3] == s@[i + 3]);
                }
            }
            assert(w != seq!['t', 'a', 'b', 'l', 'e']) by {
                if w.len() == 5 {
                    assert(w[0] == s@[i as int] && w[1] == s@[i + 1] && w[2] == s@[i + 2] && w[3] == s@[i + 3] && w[4] == s@[i + 4]);
                }
            }
            Ok((Token::Ident(collect(s, i, e)), e))
        }
    } else if is_digit_char(c) || (c == '-' && i + 1 < s.len() && is_digit_char(s[i + 1])) {
        lex_number_exec(s, i, pos)
    } else if c == '"' {
        let q = scan_quote(s, i + 1);
        proof {
            lemma_quote_end(s@, i + 1);
        }
        if q < s.len() {
            Ok((Token::StrLiteral(collect(s, i + 1, q)), q + 1))
        } else {
            Err(LexError::Unmatched(pos))
        }
    } else {
        Err(LexError::Unmatched(pos))
    }
}

/// Splits source text into tokens, or reports the first position where no
/// token starts or a number does not fit.
pub fn lex(src: &str) -> (r: Result<Vec<Token>, LexError>)
    ensures
        match r {
            Ok(ts) => lex_from(src@, 0) == Ok::<Seq<TokenV>, LexError>(tokens_view(ts@))
                && forall|k: int| 0 <= k < ts@.len() ==> token_wf(#[trigger] ts@[k]@),
            Err(e) => lex_from(src@, 0) == Err::<Seq<TokenV>, LexError>(e),
        },
{
    let s = chars_of(src);
    let offsets = char_offsets(src);
    let mut toks: Vec<Token> = Vec::new();
    let mut i: usize = 0;
    while i < s.len()
        invariant
            s@ == src@,
            offsets@.len() == s@.len(),
            forall|k: int| 0 <= k < s@.len() ==> #[trigger] offsets@[k] == byte_offset(s@, k),
            i <= s@.len(),
            lex_from(s@, 0) == prepend(tokens_view(toks@), lex_from(s@, i as int)),
            forall|k: int| 0 <= k < toks@.len() ==> token_wf(#[trigger] toks@[k]@),
        decreases s@.len() - i,
    {
        if is_space_char(s[i]) {
            i = i + 1;
        } else {
            match lex_one_exec(&s, i, offsets[i]) {
                Err(e) => {
                    return Err(e);
                },
                Ok((t, j)) => {
                    let ghost tv = t@;
                    let ghost before = tokens_view(toks@);
                    toks.push(t);
                    proof {
                        assert(tokens_view(toks@) =~= before.push(tv));
                        match lex_from(s@, j as int) {
                            Ok(ts) => {
                                assert(before + (seq![tv] + ts) =~= before.push(tv) + ts);
                            },
                            Err(_) => {},
                        }
                    }
                    i = j;
                },
            }
        }
    }
    proof {
        assert(tokens_view(toks@) + Seq::<TokenV>::empty() =~= tokens_view(toks@));
    }
    Ok(toks)
}

} // verus!

//! Exact decimal numbers, standing for the double literals of the language.
use vstd::prelude::*;
use crate::text::{nat_digits, padded_digits, push_char, push_nat_digits, push_padded_digits};

verus! {

/// The most digits a decimal literal may carry.
pub const MAX_DIGITS: u32 = 18;

pub open spec fn pow10(n: nat) -> nat
    decreases n,
{
    if n == 0 {
        1
    } else {
        10 * pow10((n - 1) as nat)
    }
}

pub proof fn lemma_pow10_mono(a: nat, b: nat)
    requires
        a <= b,
    ensures
        1 <= pow10(a) <= pow10(b),
    decreases b,
{
    if b > a {
        lemma_pow10_mono(a, (b - 1) as nat);
    } else if a > 0 {
        lemma_pow10_mono((a - 1) as nat, (a - 1) as nat);
    }
}

pub proof fn lemma_pow10_18()
    ensures
        pow10(18) == 1000000000000000000,
{
    reveal_with_fuel(pow10, 19);
}

/// `10^n` for `n <= 19`.
pub fn pow10_u64(n: u32) -> (r: u64)
    requires
        n <= 19,
    ensures
        r == pow10(n as nat),
{
    let mut r: u64 = 1;
    let mut i: u32 = 0;
    while i < n
        invariant
            i <= n <= 19,
            r == pow10(i as nat),
        decreases n - i,
    {
        proof {
            lemma_pow10_mono((i + 1) as nat, 19);
            reveal_with_fuel(pow10, 20);
        }
        r = r * 10;
        i = i + 1;
    }
    r
}

/// A decimal number `mantissa / 10^scale`, negated when `negative`.
///
/// A well-formed decimal has at most `MAX_DIGITS` digits, at least one of
/// them before the point, no trailing zero after the point, and no sign on
/// zero, so that each number has one form.
#[derive(Clone, Copy, Debug, PartialEq, Eq, Structural)]
pub struct Decimal {
    pub negative: bool,
    pub mantissa: u64,
    pub scale: u32,
}

impl Decimal {
    pub open spec fn wf(self) -> bool {
        &&& self.mantissa < pow10(MAX_DIGITS as nat)
        &&& self.scale < MAX_DIGITS
        &&& (self.scale > 0 ==> self.mantissa % 10 != 0)
        &&& (self.mantissa == 0 ==> !self.negative)
    }

    /// The number times `10^MAX_DIGITS`: an integer for every well-formed decimal.
    pub open spec fn scaled(self) -> int {
        let m = self.mantissa * pow10((MAX_DIGITS - self.scale) as nat);
        if self.negative {
            -m
        } else {
            m
        }
    }

    /// The text of the number: its whole part, then the fraction if any.
    pub open spec fn text(self) -> Seq<char> {
        let p = pow10(self.scale as nat);
        let whole = nat_digits(self.mantissa as nat / p);
        let frac = if self.scale > 0 {
            seq!['.'] + padded_digits(self.mantissa as nat % p, self.scale as nat)
        } else {
            Seq::empty()
        };
        (if self.negative { seq!['-'] } else { Seq::empty() }) + whole + frac
    }

    /// Whether the decimal is well-formed.
    pub fn is_well_formed(&self) -> (r: bool)
        ensures
            r == self.wf(),
    {
        let limit = pow10_u64(MAX_DIGITS);
        self.mantissa < limit && self.scale < MAX_DIGITS && (self.scale == 0 || self.mantissa % 10 != 0)
            && (self.mantissa != 0 || !self.negative)
    }

    /// An integer times `10^MAX_DIGITS`, the scale of `scaled`.
    pub open spec fn from_int_spec(v: i32) -> int {
        v * pow10(MAX_DIGITS as nat)
    }

    /// The decimal that an integer widens to.
    pub open spec fn of_int(v: i32) -> Decimal {
        Decimal { negative: v < 0, mantissa: (if v < 0 { -v } else { v as int }) as u64, scale: 0 }
    }

    /// The decimal equal to the integer `v`.
    pub fn from_int(v: i32) -> (r: Decimal)
        ensures
            r == Decimal::of_int(v),
            r.wf(),
            r.scale == 0,
            r.scaled() == Decimal::from_int_spec(v),
    {
        proof {
            lemma_pow10_18();
        }
        let m: u64 = if v < 0 { (-(v as i64)) as u64 } else { v as u64 };
        let r = Decimal { negative: v < 0, mantissa: m, scale: 0 };
        assert((MAX_DIGITS - r.scale) as nat == 18);
        r
    }

    fn scaled_magnitude(&self) -> (r: u128)
        requires
            self.wf(),
        ensures
            r == self.mantissa * pow10((MAX_DIGITS - self.scale) as nat),
    {
        let p = pow10_u64(MAX_DIGITS - self.scale);
        proof {
            lemma_pow10_18();
            lemma_pow10_mono((MAX_DIGITS - self.scale) as nat, 18);
            assert(self.mantissa * p <= 1000000000000000000u128 * 1000000000000000000u128)
                by (nonlinear_arith)
                requires
                    self.mantissa < 1000000000000000000u128,
                    p <= 1000000000000000000u128,
            ;
        }
        (self.mantissa as u128) * (p as u128)
    }

    /// Whether `self <= other` as numbers.
    pub fn le(&self, other: &Decimal) -> (r: bool)
        requires
            self.wf(),
            other.wf(),
        ensures
            r == (self.scaled() <= other.scaled()),
    {
        let a = self.scaled_magnitude();
        let b = other.scaled_magnitude();
        if self.negative {
            if other.negative {
                b <= a
            } else {
                true
            }
        } else if other.negative {
            a == 0 && b == 0
        } else {
            a <= b
        }
    }

    /// Appends the text of the number.
    pub fn push_text(&self, s: &mut String)
        requires
            self.wf(),
        ensures
            final(s)@ == old(s)@ + self.text(),
    {
        proof {
            lemma_pow10_mono(self.scale as nat, 18);
            lemma_pow10_18();
        }
        let p = pow10_u64(self.scale);
        if self.negative {
            push_char(s, '-');
        }
        push_nat_digits(s, self.mantissa / p);
        if self.scale > 0 {
            push_char(s, '.');
            push_padded_digits(s, self.mantissa % p, self.scale);
        }
        proof {
            let sign: Seq<char> = if self.negative { seq!['-'] } else { Seq::empty() };
            let whole = nat_digits(self.mantissa as nat / pow10(self.scale as nat));
            let frac: Seq<char> = if self.scale > 0 {
                seq!['.'] + padded_digits(self.mantissa as nat % pow10(self.scale as nat), self.scale as nat)
            } else {
                Seq::empty()
            };
            assert(final(s)@ =~= old(s)@ + (sign + whole + frac));
        }
    }
}

} // verus!

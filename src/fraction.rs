//! The fraction value type: arithmetic, reduction to lowest terms, text form.
use crate::divisor::{gcd, lemma_gcd_divides, lemma_gcd_quotients_coprime};
use crate::numeral::{
    fits_i32, i32_of, lemma_int_of_nat_text, lemma_nat_text_lacks, nat_text, parse_i32,
    push_decimal, widen,
};
use crate::scan::{find_char, first_index, lemma_concat_lacks, lemma_first_after, lemma_first_index};
use vstd::arithmetic::div_mod::{lemma_fundamental_div_mod, lemma_mod_pos_bound};
use vstd::prelude::*;

verus! {

/// A rational number as a numerator over a denominator. A fraction is meaningful only with a
/// non-zero denominator: reading and arithmetic never make one with a zero denominator, and
/// the functions that need it (`reduce`, `to_string`) require it. The pair need not be in
/// lowest terms, nor its denominator positive.
#[derive(Debug, Clone, Copy, PartialEq, Eq, Structural)]
pub struct Fraction {
    pub numerator: i32,
    pub denominator: i32,
}

/// What can go wrong when reading or computing a fraction.
#[derive(Debug, Clone, Copy, PartialEq, Eq, Structural)]
pub enum FractionError {
    /// A part of the text is not a decimal integer that an `i32` holds.
    InvalidNumber,
    /// A denominator, or a divisor's numerator, is zero.
    DivideByZero,
    /// A numerator or denominator of the result lies outside the `i32` range.
    Overflow,
}

pub open spec fn abs(v: int) -> nat {
    if v < 0 {
        (-v) as nat
    } else {
        v as nat
    }
}

/// The fraction `n / d`, where both fit in an `i32`.
pub open spec fn fraction_of(n: int, d: int) -> Result<Fraction, FractionError> {
    if fits_i32(n) && fits_i32(d) {
        Ok(Fraction { numerator: n as i32, denominator: d as i32 })
    } else {
        Err(FractionError::Overflow)
    }
}

pub open spec fn sum(a: Fraction, b: Fraction) -> Result<Fraction, FractionError> {
    fraction_of(
        a.numerator * b.denominator + b.numerator * a.denominator,
        a.denominator * b.denominator,
    )
}

pub open spec fn difference(a: Fraction, b: Fraction) -> Result<Fraction, FractionError> {
    fraction_of(
        a.numerator * b.denominator - b.numerator * a.denominator,
        a.denominator * b.denominator,
    )
}

pub open spec fn product(a: Fraction, b: Fraction) -> Result<Fraction, FractionError> {
    fraction_of(a.numerator * b.numerator, a.denominator * b.denominator)
}

pub open spec fn quotient(a: Fraction, b: Fraction) -> Result<Fraction, FractionError> {
    if b.numerator == 0 {
        Err(FractionError::DivideByZero)
    } else {
        fraction_of(a.numerator * b.denominator, a.denominator * b.numerator)
    }
}

/// Lowest terms with a positive denominator: divide both parts by the gcd of their magnitudes
/// and carry the sign on the numerator. `None` where a part leaves the `i32` range.
pub open spec fn reduced(x: Fraction) -> Option<Fraction> {
    let a = abs(x.numerator as int);
    let b = abs(x.denominator as int);
    let g = gcd(a, b);
    let p: int = if (x.numerator < 0) != (x.denominator < 0) {
        -(a / g)
    } else {
        (a / g) as int
    };
    let q: int = (b / g) as int;
    if fits_i32(p) && fits_i32(q) {
        Some(Fraction { numerator: p as i32, denominator: q as i32 })
    } else {
        None
    }
}

/// The canonical form: a positive denominator that shares no factor with the numerator.
pub open spec fn is_reduced(x: Fraction) -> bool {
    x.denominator > 0 && gcd(abs(x.numerator as int), x.denominator as nat) == 1
}

/// Both fractions denote the same rational number.
pub open spec fn same_value(x: Fraction, y: Fraction) -> bool {
    x.numerator * y.denominator == y.numerator * x.denominator
}

/// The fraction that a whole part, a numerator and a denominator, as read, stand for:
/// `whole + num/den`, where a negative whole part makes the fraction part negative too.
pub open spec fn assemble(whole: Option<int>, num: Option<int>, den: Option<int>) -> Result<
    Fraction,
    FractionError,
> {
    if whole is None || num is None || den is None {
        Err(FractionError::InvalidNumber)
    } else if den->0 == 0 {
        Err(FractionError::DivideByZero)
    } else {
        let w = whole->0;
        let n = if w < 0 {
            -num->0
        } else {
            num->0
        };
        fraction_of(w * den->0 + n, den->0)
    }
}

/// Reading a fraction: `whole_num/den` where the text holds `_` (the whole part before the
/// first `_`, then the rest split at its first `/`), `num/den` where it holds only `/`, and a
/// plain integer otherwise. Each part is a decimal integer that fits in an `i32`.
pub open spec fn parsed(s: Seq<char>) -> Result<Fraction, FractionError> {
    if s.contains('_') {
        let k = first_index(s, '_');
        let rest = s.skip(k + 1);
        if rest.contains('/') {
            let j = first_index(rest, '/');
            assemble(i32_of(s.take(k)), i32_of(rest.take(j)), i32_of(rest.skip(j + 1)))
        } else {
            Err(FractionError::InvalidNumber)
        }
    } else if s.contains('/') {
        let j = first_index(s, '/');
        assemble(Some(0), i32_of(s.take(j)), i32_of(s.skip(j + 1)))
    } else {
        assemble(i32_of(s), Some(0), Some(1))
    }
}

/// The text of a fraction with numerator `-a` (when `negative`) or `a` over the positive `d`:
/// a whole number when `d` is one, a mixed number `whole_rest/d` when `a` exceeds `d`, else `a/d`.
pub open spec fn layout(negative: bool, a: nat, d: nat) -> Seq<char> {
    let body = if d == 1 {
        nat_text(a)
    } else if a > d {
        nat_text(a / d) + seq!['_'] + nat_text(a % d) + seq!['/'] + nat_text(d)
    } else {
        nat_text(a) + seq!['/'] + nat_text(d)
    };
    if negative {
        seq!['-'] + body
    } else {
        body
    }
}

/// The canonical text of a fraction: the sign moves off the denominator first.
pub open spec fn text_of(x: Fraction) -> Seq<char> {
    let n: int = if x.denominator < 0 {
        -x.numerator
    } else {
        x.numerator as int
    };
    layout(n < 0, abs(n), abs(x.denominator as int))
}

/// The product of two `i32`s, which always fits in an `i64`.
fn wide_mul(a: i32, b: i32) -> (r: i64)
    ensures
        r == a as int * b as int,
{
    proof {
        let x = a as int;
        let y = b as int;
        assert(-0x4000_0000_0000_0000 <= x * y <= 0x4000_0000_0000_0000) by (nonlinear_arith)
            requires
                -0x8000_0000 <= x <= 0x7fff_ffff,
                -0x8000_0000 <= y <= 0x7fff_ffff,
        ;
    }
    (a as i64) * (b as i64)
}

/// The fraction from its parts as read.
fn assemble_parts(whole: Option<i32>, num: Option<i32>, den: Option<i32>) -> (r: Result<
    Fraction,
    FractionError,
>)
    ensures
        r == assemble(widen(whole), widen(num), widen(den)),
{
    match (whole, num, den) {
        (Some(w), Some(n), Some(d)) => {
            if d == 0 {
                return Err(FractionError::DivideByZero);
            }
            let n = if w < 0 { -(n as i128) } else { n as i128 };
            checked_fraction(wide_mul(w, d) as i128 + n, d as i128)
        },
        _ => Err(FractionError::InvalidNumber),
    }
}

/// Builds `n / d` where both fit in an `i32`.
fn checked_fraction(n: i128, d: i128) -> (r: Result<Fraction, FractionError>)
    ensures
        r == fraction_of(n as int, d as int),
{
    if n < i32::MIN as i128 || n > i32::MAX as i128 || d < i32::MIN as i128 || d > i32::MAX
        as i128 {
        Err(FractionError::Overflow)
    } else {
        Ok(Fraction { numerator: n as i32, denominator: d as i32 })
    }
}

/// The magnitude of an `i32`, which always fits in a `u32`.
fn magnitude(v: i32) -> (r: u32)
    ensures
        r == abs(v as int),
{
    if v < 0 {
        (-(v as i64)) as u32
    } else {
        v as u32
    }
}

impl Fraction {
    /// `a/b + c/d = (a*d + c*b) / (b*d)`, not reduced.
    pub fn add(self, other: Fraction) -> (r: Result<Fraction, FractionError>)
        ensures
            r == sum(self, other),
    {
        let left = wide_mul(self.numerator, other.denominator);
        let right = wide_mul(other.numerator, self.denominator);
        let den = wide_mul(self.denominator, other.denominator);
        checked_fraction(left as i128 + right as i128, den as i128)
    }

    /// `a/b - c/d = (a*d - c*b) / (b*d)`, not reduced.
    pub fn sub(self, other: Fraction) -> (r: Result<Fraction, FractionError>)
        ensures
            r == difference(self, other),
    {
        let left = wide_mul(self.numerator, other.denominator);
        let right = wide_mul(other.numerator, self.denominator);
        let den = wide_mul(self.denominator, other.denominator);
        checked_fraction(left as i128 - right as i128, den as i128)
    }

    /// `a/b * c/d = (a*c) / (b*d)`, not reduced.
    pub fn mul(self, other: Fraction) -> (r: Result<Fraction, FractionError>)
        ensures
            r == product(self, other),
    {
        let num = wide_mul(self.numerator, other.numerator);
        let den = wide_mul(self.denominator, other.denominator);
        checked_fraction(num as i128, den as i128)
    }

    /// `a/b / c/d = (a*d) / (b*c)`, not reduced; refused when `c` is zero.
    pub fn div(self, other: Fraction) -> (r: Result<Fraction, FractionError>)
        ensures
            r == quotient(self, other),
    {
        if other.numerator == 0 {
            return Err(FractionError::DivideByZero);
        }
        let num = wide_mul(self.numerator, other.denominator);
        let den = wide_mul(self.denominator, other.numerator);
        checked_fraction(num as i128, den as i128)
    }

    /// Reads `7`, `-1/4` or `-1_1/4`.
    pub fn parse(s: &str) -> (r: Result<Fraction, FractionError>)
        ensures
            r == parsed(s@),
    {
        let n = s.unicode_len();
        match find_char(s, '_') {
            Some(k) => {
                proof {
                    lemma_first_index(s@, '_', k as int);
                }
                let whole = s.substring_char(0, k);
                let rest = s.substring_char(k + 1, n);
                assert(whole@ == s@.take(k as int));
                assert(rest@ == s@.skip(k + 1));
                let m = rest.unicode_len();
                match find_char(rest, '/') {
                    Some(j) => {
                        proof {
                            lemma_first_index(rest@, '/', j as int);
                        }
                        let num = rest.substring_char(0, j);
                        let den = rest.substring_char(j + 1, m);
                        assert(num@ == rest@.take(j as int));
                        assert(den@ == rest@.skip(j + 1));
                        assemble_parts(parse_i32(whole), parse_i32(num), parse_i32(den))
                    },
                    None => Err(FractionError::InvalidNumber),
                }
            },
            None => match find_char(s, '/') {
                Some(j) => {
                    proof {
                        lemma_first_index(s@, '/', j as int);
                    }
                    let num = s.substring_char(0, j);
                    let den = s.substring_char(j + 1, n);
                    assert(num@ == s@.take(j as int));
                    assert(den@ == s@.skip(j + 1));
                    assemble_parts(Some(0), parse_i32(num), parse_i32(den))
                },
                None => assemble_parts(parse_i32(s), Some(0), Some(1)),
            },
        }
    }

    /// The fraction as text: `7`, `-1/4` or `-1_1/4`.
    pub fn to_string(&self) -> (r: String)
        requires
            self.denominator != 0,
        ensures
            r@ == text_of(*self),
    {
        let mut n = self.numerator as i64;
        let mut d = self.denominator as i64;
        if d < 0 {
            n = -n;
            d = -d;
        }
        let negative = n < 0;
        let a: u64 = if negative { (-n) as u64 } else { n as u64 };
        let d: u64 = d as u64;
        proof {
            reveal_strlit("-");
            reveal_strlit("_");
            reveal_strlit("/");
        }
        let mut out = String::new();
        if negative {
            out.append("-");
        }
        let ghost sign = out@;
        if d == 1 {
            push_decimal(&mut out, a);
            assert(out@ =~= sign + nat_text(a as nat));
        } else {
            if a > d {
                push_decimal(&mut out, a / d);
                out.append("_");
                push_decimal(&mut out, a % d);
                out.append("/");
                push_decimal(&mut out, d);
                assert(out@ =~= sign + (nat_text((a / d) as nat) + seq!['_'] + nat_text(
                    (a % d) as nat,
                ) + seq!['/'] + nat_text(d as nat)));
            } else {
                push_decimal(&mut out, a);
                out.append("/");
                push_decimal(&mut out, d);
                assert(out@ =~= sign + (nat_text(a as nat) + seq!['/'] + nat_text(d as nat)));
            }
        }
        out
    }

    /// Euclid's algorithm on two magnitudes.
    pub fn gcd(a: u32, b: u32) -> (r: u32)
        ensures
            r == gcd(a as nat, b as nat),
    {
        let mut x = a;
        let mut y = b;
        while y != 0
            invariant
                gcd(x as nat, y as nat) == gcd(a as nat, b as nat),
            decreases y,
        {
            let t = x % y;
            x = y;
            y = t;
        }
        x
    }

    /// The same number in lowest terms with a positive denominator. Fails only where the
    /// result's numerator or denominator does not fit in an `i32`.
    pub fn reduce(input: Fraction) -> (r: Result<Fraction, String>)
        requires
            input.denominator != 0,
        ensures
            r is Ok <==> reduced(input) is Some,
            r matches Ok(y) ==> reduced(input) == Some(y) && is_reduced(y) && same_value(y, input),
    {
        let a = magnitude(input.numerator);
        let b = magnitude(input.denominator);
        let g = Fraction::gcd(a, b);
        proof {
            lemma_gcd_divides(a as nat, b as nat);
        }
        let p = (a / g) as i64;
        let q = (b / g) as i64;
        let num: i64 = if (input.numerator < 0) != (input.denominator < 0) { -p } else { p };
        if num < i32::MIN as i64 || num > i32::MAX as i64 || q > i32::MAX as i64 {
            return Err(String::from_str("result out of range"));
        }
        let y = Fraction { numerator: num as i32, denominator: q as i32 };
        proof {
            lemma_reduced_canonical(input);
        }
        Ok(y)
    }
}

impl std::str::FromStr for Fraction {
    type Err = FractionError;

    /// Reads `7`, `-1/4` or `-1_1/4`, as `Fraction::parse` does.
    fn from_str(s: &str) -> (r: Result<Fraction, FractionError>)
        ensures
            r == parsed(s@),
    {
        Fraction::parse(s)
    }
}

/// What reduction returns is in canonical form and denotes the same number.
pub proof fn lemma_reduced_canonical(x: Fraction)
    requires
        x.denominator != 0,
        reduced(x) is Some,
    ensures
        is_reduced(reduced(x)->0),
        same_value(reduced(x)->0, x),
{
    let y = reduced(x)->0;
    let a = abs(x.numerator as int);
    let b = abs(x.denominator as int);
    let g = gcd(a, b);
    lemma_gcd_divides(a, b);
    lemma_gcd_quotients_coprime(a, b);
    lemma_fundamental_div_mod(a as int, g as int);
    lemma_fundamental_div_mod(b as int, g as int);
    let a1 = (a / g) as int;
    let b1 = (b / g) as int;
    assert(b1 > 0) by (nonlinear_arith)
        requires
            b as int == g * b1 + 0,
            b > 0,
            g > 0,
    ;
    assert(abs(y.numerator as int) == a / g);
    assert(a1 * b == a * b1) by (nonlinear_arith)
        requires
            a as int == g * a1,
            b as int == g * b1,
    ;
    let sn: int = if x.numerator < 0 { -1 } else { 1 };
    let sd: int = if x.denominator < 0 { -1 } else { 1 };
    assert(x.numerator == sn * a && x.denominator == sd * b && sd * sd == 1) by {
        if x.numerator < 0 {
        }
        if x.denominator < 0 {
        }
    }
    assert(y.numerator == sn * sd * a1 && y.denominator == b1) by {
        if x.numerator < 0 {
            if x.denominator < 0 {
            }
        } else {
            if x.denominator < 0 {
            }
        }
    }
    assert(same_value(y, x)) by (nonlinear_arith)
        requires
            x.numerator == sn * a,
            x.denominator == sd * b,
            y.numerator == sn * sd * a1,
            y.denominator == b1,
            sd * sd == 1,
            a1 * b == a * b1,
    ;
}

/// Reducing a fraction that has been reduced changes nothing.
pub proof fn lemma_reduce_idempotent(x: Fraction)
    requires
        x.denominator != 0,
    ensures
        reduced(x) matches Some(y) ==> reduced(y) == Some(y),
{
    if reduced(x) is Some {
        lemma_reduced_canonical(x);
        lemma_reduced_fixed(reduced(x)->0);
    }
}

/// The text of `m`, after a minus where `negative`.
pub open spec fn signed_text(negative: bool, m: nat) -> Seq<char> {
    if negative {
        seq!['-'] + nat_text(m)
    } else {
        nat_text(m)
    }
}

proof fn lemma_signed_text(negative: bool, m: nat)
    requires
        fits_i32(if negative { -m } else { m as int }),
    ensures
        i32_of(signed_text(negative, m)) == Some(if negative { -m } else { m as int }),
        !signed_text(negative, m).contains('_'),
        !signed_text(negative, m).contains('/'),
{
    lemma_int_of_nat_text(m);
    lemma_nat_text_lacks(m, negative, '_');
    lemma_nat_text_lacks(m, negative, '/');
}

/// Reading back the text of a fraction in canonical form, then reducing what was read,
/// gives the fraction again.
pub proof fn lemma_text_round_trip(x: Fraction)
    requires
        is_reduced(x),
    ensures
        parsed(text_of(x)) matches Ok(y) && reduced(y) == Some(x),
{
    lemma_reduced_fixed(x);
    let n = x.numerator as int;
    let d = x.denominator as nat;
    let a = abs(n);
    let neg = n < 0;
    let s = text_of(x);
    assert(s == layout(neg, a, d));
    lemma_signed_text(false, d);
    if d == 1 {
        lemma_signed_text(neg, a);
        assert(s =~= signed_text(neg, a));
        assert(parsed(s) == Ok::<Fraction, FractionError>(x));
    } else if a > d {
        lemma_fundamental_div_mod(a as int, d as int);
        lemma_mod_pos_bound(a as int, d as int);
        let q = a / d;
        let r = a % d;
        assert(1 <= q <= a) by (nonlinear_arith)
            requires
                a as int == d * q + r,
                0 <= r < d,
                a > d,
                d > 1,
        ;
        lemma_signed_text(neg, q);
        lemma_signed_text(false, r);
        let p = signed_text(neg, q);
        let rest = nat_text(r) + seq!['/'] + nat_text(d);
        assert(s =~= p + seq!['_'] + rest);
        lemma_first_after(p, '_', rest);
        lemma_first_after(nat_text(r), '/', nat_text(d));
        let w: int = if neg { -q } else { q as int };
        let f: int = if neg { -r } else { r as int };
        assert(w * d + f == n) by (nonlinear_arith)
            requires
                a as int == d * q + r,
                w == (if neg { -q } else { q as int }),
                f == (if neg { -r } else { r as int }),
                n == (if neg { -a } else { a as int }),
        ;
        assert(parsed(s) == assemble(Some(w), Some(r as int), Some(d as int)));
    } else {
        lemma_signed_text(neg, a);
        let p = signed_text(neg, a);
        assert(s =~= p + seq!['/'] + nat_text(d));
        lemma_first_after(p, '/', nat_text(d));
        lemma_concat_lacks(p, seq!['/'], '_');
        lemma_concat_lacks(p + seq!['/'], nat_text(d), '_');
        assert(!s.contains('_'));
        assert(i32_of(s.take(first_index(s, '/'))) == Some(n));
        assert(i32_of(s.skip(first_index(s, '/') + 1)) == Some(d as int));
        assert(parsed(s) == assemble(Some(0), Some(n), Some(d as int)));
        assert(parsed(s) == Ok::<Fraction, FractionError>(x));
    }
}

/// A fraction in canonical form is its own reduction.
pub proof fn lemma_reduced_fixed(x: Fraction)
    requires
        is_reduced(x),
    ensures
        reduced(x) == Some(x),
{
    let a = abs(x.numerator as int);
    let b = x.denominator as nat;
    assert(gcd(a, b) == 1);
    assert(a / 1 == a && b / 1 == b);
}

} // verus!

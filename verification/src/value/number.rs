//! Exact rational numbers with 64-bit parts.
use vstd::prelude::*;
use crate::value::model::{same_number, Rational};

verus! {

/// A number: the fraction `num / den` with a positive denominator.
///
/// Arithmetic is exact. A result whose reduced form does not fit the two
/// 64-bit parts is a domain error, which the operations report as `None`.
#[derive(Debug, Clone, Copy)]
pub struct Number {
    num: i64,
    den: u64,
}

/// The greatest common divisor by Euclid's algorithm; `gcd(a, 0)` is `a`.
pub open spec fn gcd(a: nat, b: nat) -> nat
    decreases b,
{
    if b == 0 {
        a
    } else {
        gcd(b, a % b)
    }
}

/// The absolute value of an integer.
pub open spec fn abs(n: int) -> nat {
    if n < 0 {
        (-n) as nat
    } else {
        n as nat
    }
}

/// The fraction `num / den` with both parts divided by their greatest
/// common divisor.
pub open spec fn reduce(num: int, den: int) -> Rational
    recommends
        den > 0,
{
    let g = gcd(abs(num), abs(den)) as int;
    let m = abs(num) as int / g;
    Rational { num: if num < 0 { -m } else { m }, den: den / g }
}

/// `mag`, negated if `negative`.
pub open spec fn signed(negative: bool, mag: int) -> int {
    if negative {
        -mag
    } else {
        mag
    }
}

/// The parts of `r` fit a `Number`.
pub open spec fn fits(r: Rational) -> bool {
    i64::MIN <= r.num <= i64::MAX && 0 < r.den <= u64::MAX
}

/// `gcd(a, b)` is positive unless both arguments are zero.
pub proof fn lemma_gcd_positive(a: nat, b: nat)
    requires
        a > 0 || b > 0,
    ensures
        gcd(a, b) > 0,
    decreases b,
{
    if b != 0 {
        lemma_gcd_positive(b, a % b);
    }
}

/// `gcd(a, b)` divides both arguments.
pub proof fn lemma_gcd_divides(a: nat, b: nat)
    requires
        a > 0 || b > 0,
    ensures
        gcd(a, b) > 0,
        a % gcd(a, b) == 0,
        b % gcd(a, b) == 0,
    decreases b,
{
    lemma_gcd_positive(a, b);
    if b != 0 {
        lemma_gcd_divides(b, a % b);
        let g = gcd(a, b);
        assert(g == gcd(b, a % b));
        // a = b * (a / b) + a % b, and g divides both summands
        lemma_divides_combination(a as int, b as int, g as int);
    }
}

/// If `g` divides `b` and `a % b`, it divides `a`.
proof fn lemma_divides_combination(a: int, b: int, g: int)
    requires
        a >= 0,
        b > 0,
        g > 0,
        b % g == 0,
        (a % b) % g == 0,
    ensures
        a % g == 0,
{
    let q = a / b;
    let r = a % b;
    assert(a == b * q + r) by {
        vstd::arithmetic::div_mod::lemma_fundamental_div_mod(a, b);
    }
    let bg = b / g;
    let rg = r / g;
    assert(b == g * bg) by {
        vstd::arithmetic::div_mod::lemma_fundamental_div_mod(b, g);
    }
    assert(r == g * rg) by {
        vstd::arithmetic::div_mod::lemma_fundamental_div_mod(r, g);
    }
    assert(a == g * (bg * q + rg)) by (nonlinear_arith)
        requires
            a == b * q + r,
            b == g * bg,
            r == g * rg,
    ;
    assert(a % g == 0) by {
        vstd::arithmetic::div_mod::lemma_mod_multiples_basic(bg * q + rg, g);
        assert(g * (bg * q + rg) == (bg * q + rg) * g) by (nonlinear_arith);
    }
}

/// Reducing a fraction keeps its value and the sign of its denominator,
/// and makes neither part larger.
pub proof fn lemma_reduce_same_number(num: int, den: int)
    requires
        den > 0,
    ensures
        0 < reduce(num, den).den <= den,
        abs(reduce(num, den).num) <= abs(num),
        num >= 0 ==> reduce(num, den).num >= 0,
        num <= 0 ==> reduce(num, den).num <= 0,
        same_number(reduce(num, den), Rational { num, den }),
{
    let g = gcd(abs(num), abs(den)) as int;
    lemma_gcd_divides(abs(num), abs(den));
    let a = abs(num) as int;
    let m = a / g;
    let d = den / g;
    assert(den == g * d) by {
        vstd::arithmetic::div_mod::lemma_fundamental_div_mod(den, g);
    }
    assert(a == g * m) by {
        vstd::arithmetic::div_mod::lemma_fundamental_div_mod(a, g);
    }
    assert(d > 0 && d <= den && 0 <= m <= a && m * den == a * d) by (nonlinear_arith)
        requires
            den == g * d,
            a == g * m,
            g > 0,
            den > 0,
            a >= 0,
    ;
    assert((-m) * den == (-a) * d) by (nonlinear_arith)
        requires
            m * den == a * d,
    ;
}

/// A common factor of both arguments is a factor of their gcd.
proof fn lemma_gcd_scale(k: nat, a: nat, b: nat)
    requires
        k > 0,
    ensures
        gcd(k * a, k * b) == k * gcd(a, b),
    decreases b,
{
    if b == 0 {
        assert(k * b == 0) by (nonlinear_arith)
            requires
                b == 0,
        ;
    } else {
        assert(k * b > 0) by (nonlinear_arith)
            requires
                k > 0,
                b > 0,
        ;
        vstd::arithmetic::div_mod::lemma_truncate_middle(a as int, k as int, b as int);
        lemma_gcd_scale(k, b, a % b);
    }
}

/// A reduced fraction has no common factor left.
pub proof fn lemma_reduce_coprime(num: int, den: int)
    requires
        den > 0,
    ensures
        gcd(abs(reduce(num, den).num), abs(reduce(num, den).den)) == 1,
{
    let a = abs(num);
    let b = abs(den);
    let g = gcd(a, b);
    lemma_gcd_divides(a, b);
    let m = a / g;
    let d = b / g;
    assert(a == g * m) by {
        vstd::arithmetic::div_mod::lemma_fundamental_div_mod(a as int, g as int);
    }
    assert(b == g * d) by {
        vstd::arithmetic::div_mod::lemma_fundamental_div_mod(b as int, g as int);
    }
    lemma_gcd_scale(g, m, d);
    assert(gcd(m, d) == 1) by (nonlinear_arith)
        requires
            g == g * gcd(m, d),
            g > 0,
    ;
    assert(abs(reduce(num, den).num) == m);
    assert(abs(reduce(num, den).den) == d);
}

impl View for Number {
    type V = Rational;

    closed spec fn view(&self) -> Rational {
        Rational { num: self.num as int, den: self.den as int }
    }
}

/// Euclid's algorithm on machine integers.
fn gcd_u128(a: u128, b: u128) -> (g: u128)
    ensures
        g == gcd(a as nat, b as nat),
{
    let mut x: u128 = a;
    let mut y: u128 = b;
    while y != 0
        invariant
            gcd(x as nat, y as nat) == gcd(a as nat, b as nat),
        decreases y,
    {
        let r: u128 = x % y;
        x = y;
        y = r;
    }
    x
}

/// The sum of two fractions, reduced.
pub open spec fn sum_of(a: Rational, b: Rational) -> Rational {
    reduce(a.num * b.den + b.num * a.den, a.den * b.den)
}

/// The difference of two fractions, reduced.
pub open spec fn difference_of(a: Rational, b: Rational) -> Rational {
    reduce(a.num * b.den - b.num * a.den, a.den * b.den)
}

/// The product of two fractions, reduced.
pub open spec fn product_of(a: Rational, b: Rational) -> Rational {
    reduce(a.num * b.num, a.den * b.den)
}

/// The quotient of two fractions, reduced; meaningful for a divisor that
/// is not zero.
pub open spec fn quotient_of(a: Rational, b: Rational) -> Rational {
    reduce(signed(b.num < 0, a.num * b.den), a.den * abs(b.num))
}

/// The remainder of a division that truncates toward zero: it has the
/// sign of the dividend.
pub open spec fn truncated_rem(x: int, y: int) -> int {
    signed(x < 0, (abs(x) % abs(y)) as int)
}

/// The remainder of `a` divided by `b`, the quotient truncated toward
/// zero; meaningful for a divisor that is not zero.
pub open spec fn remainder_of(a: Rational, b: Rational) -> Rational {
    reduce(truncated_rem(a.num * b.den, b.num * a.den), a.den * b.den)
}

/// `a` raised to the power `e`, by repeated multiplication; `None` as soon
/// as a product does not fit.
pub open spec fn power_of(a: Rational, e: nat) -> Option<Rational>
    decreases e,
{
    if e == 0 {
        Some(Rational { num: 1, den: 1 })
    } else {
        match power_of(a, (e - 1) as nat) {
            Some(p) => if fits(product_of(p, a)) {
                Some(product_of(p, a))
            } else {
                None
            },
            None => None,
        }
    }
}

/// `a` is less than `b`, both denominators positive.
pub open spec fn less(a: Rational, b: Rational) -> bool {
    a.num * b.den < b.num * a.den
}

proof fn lemma_product_bound(a: int, b: int)
    requires
        -0x8000_0000_0000_0000 <= a <= 0x7fff_ffff_ffff_ffff,
        0 <= b <= 0xffff_ffff_ffff_ffff,
    ensures
        -0x7fff_ffff_ffff_ffff_ffff_ffff_ffff_ffff <= a * b <= 0x7fff_ffff_ffff_ffff_ffff_ffff_ffff_ffff,
{
    assert(-0x7fff_ffff_ffff_ffff_ffff_ffff_ffff_ffff <= a * b
        <= 0x7fff_ffff_ffff_ffff_ffff_ffff_ffff_ffff) by (nonlinear_arith)
        requires
            -0x8000_0000_0000_0000 <= a <= 0x7fff_ffff_ffff_ffff,
            0 <= b <= 0xffff_ffff_ffff_ffff,
    ;
}

proof fn lemma_magnitude_bound(a: int, b: int)
    requires
        0 <= a <= 0xffff_ffff_ffff_ffff,
        0 <= b <= 0xffff_ffff_ffff_ffff,
    ensures
        0 <= a * b <= 0xffff_ffff_ffff_fffe_0000_0000_0000_0001,
{
    assert(0 <= a * b <= 0xffff_ffff_ffff_fffe_0000_0000_0000_0001) by (nonlinear_arith)
        requires
            0 <= a <= 0xffff_ffff_ffff_ffff,
            0 <= b <= 0xffff_ffff_ffff_ffff,
    ;
}

/// The magnitude of a 64-bit integer.
fn magnitude(n: i64) -> (m: u64)
    ensures
        m == abs(n as int),
{
    if n < 0 {
        let wide: i128 = -(n as i128);
        wide as u64
    } else {
        n as u64
    }
}

impl Number {
    #[verifier::type_invariant]
    spec fn inv(self) -> bool {
        self.den > 0 && gcd(abs(self.num as int), self.den as nat) == 1
    }

    /// Every number is a reduced fraction with a positive denominator.
    /// The call does nothing; it tells the verifier the fact.
    pub fn validate(&self)
        ensures
            self@.den > 0,
            fits(self@),
            gcd(abs(self@.num), abs(self@.den)) == 1,
    {
        proof {
            use_type_invariant(self);
        }
    }

    /// The integer `n`.
    pub fn from_i64(n: i64) -> (r: Number)
        ensures
            r@ == (Rational { num: n as int, den: 1 }),
    {
        assert(gcd(abs(n as int), 1) == 1) by {
            reveal_with_fuel(gcd, 3);
        }
        Number { num: n, den: 1 }
    }

    /// The numerator.
    pub fn numerator(&self) -> (n: i64)
        ensures
            n == self@.num,
    {
        self.num
    }

    /// The denominator, which is positive.
    pub fn denominator(&self) -> (d: u64)
        ensures
            d == self@.den,
            d > 0,
    {
        proof {
            use_type_invariant(self);
        }
        self.den
    }

    /// The fraction `mag / den`, negated if `negative`, in reduced form, if
    /// `den` is positive and the reduced parts fit.
    pub(crate) fn from_parts(negative: bool, mag: u128, den: u128) -> (r: Option<Number>)
        ensures
            r is Some <==> den > 0 && fits(reduce(signed(negative, mag as int), den as int)),
            r matches Some(n) ==> n@ == reduce(signed(negative, mag as int), den as int),
    {
        if den == 0 {
            return None;
        }
        let g: u128 = gcd_u128(mag, den);
        proof {
            lemma_gcd_divides(mag as nat, den as nat);
            lemma_reduce_same_number(signed(negative, mag as int), den as int);
            lemma_reduce_coprime(signed(negative, mag as int), den as int);
        }
        let m: u128 = mag / g;
        let d: u128 = den / g;
        if d > 0xffff_ffff_ffff_ffff {
            return None;
        }
        if negative && m != 0 {
            if m > 0x8000_0000_0000_0000 {
                return None;
            }
            let n: i128 = -(m as i128);
            Some(Number { num: n as i64, den: d as u64 })
        } else {
            if m > 0x7fff_ffff_ffff_ffff {
                return None;
            }
            Some(Number { num: m as i64, den: d as u64 })
        }
    }

    /// The fraction `num / den` in reduced form; `None` when `den` is zero.
    pub fn new(num: i64, den: u64) -> (r: Option<Number>)
        ensures
            r is Some <==> den > 0,
            r matches Some(n) ==> n@ == reduce(num as int, den as int),
    {
        proof {
            if den > 0 {
                lemma_reduce_same_number(num as int, den as int);
            }
        }
        Number::from_parts(num < 0, magnitude(num) as u128, den as u128)
    }

    /// Whether the two fractions denote the same number.
    pub fn same(&self, other: &Number) -> (r: bool)
        ensures
            r == same_number(self@, other@),
    {
        let a: i128 = self.num as i128;
        let b: i128 = other.den as i128;
        let c: i128 = other.num as i128;
        let d: i128 = self.den as i128;
        proof {
            lemma_product_bound(a as int, b as int);
            lemma_product_bound(c as int, d as int);
        }
        a * b == c * d
    }

    /// Whether `self` is less than `other`.
    pub fn less_than(&self, other: &Number) -> (r: bool)
        ensures
            r == less(self@, other@),
    {
        let a: i128 = self.num as i128;
        let b: i128 = other.den as i128;
        let c: i128 = other.num as i128;
        let d: i128 = self.den as i128;
        proof {
            lemma_product_bound(a as int, b as int);
            lemma_product_bound(c as int, d as int);
        }
        a * b < c * d
    }

    /// Whether the number is zero.
    pub fn is_zero(&self) -> (r: bool)
        ensures
            r == (self@.num == 0),
    {
        self.num == 0
    }

    /// The sum, unless its reduced form does not fit.
    pub fn add(&self, other: &Number) -> (r: Option<Number>)
        ensures
            r is Some <==> fits(sum_of(self@, other@)),
            r matches Some(n) ==> n@ == sum_of(self@, other@),
    {
        proof {
            use_type_invariant(self);
            use_type_invariant(other);
            lemma_magnitude_bound(abs(self.num as int) as int, other.den as int);
            lemma_magnitude_bound(abs(other.num as int) as int, self.den as int);
            lemma_magnitude_bound(self.den as int, other.den as int);
            assert(abs(self.num as int) * other.den == abs(self.num * other.den)) by (nonlinear_arith)
                requires
                    other.den > 0,
            ;
            assert(abs(other.num as int) * self.den == abs(other.num * self.den)) by (nonlinear_arith)
                requires
                    self.den > 0,
            ;
            assert(self.den * other.den > 0) by (nonlinear_arith)
                requires
                    self.den > 0,
                    other.den > 0,
            ;
            lemma_product_bound(self.num as int, other.den as int);
            lemma_product_bound(other.num as int, self.den as int);
        }
        let p: u128 = (magnitude(self.num) as u128) * (other.den as u128);
        let q: u128 = (magnitude(other.num) as u128) * (self.den as u128);
        let d: u128 = (self.den as u128) * (other.den as u128);
        let p_neg = self.num < 0;
        let q_neg = other.num < 0;
        assert(self.num * other.den == signed(p_neg, p as int)) by (nonlinear_arith)
            requires
                p == abs(self.num as int) * other.den,
                p_neg == (self.num < 0),
        ;
        assert(other.num * self.den == signed(q_neg, q as int)) by (nonlinear_arith)
            requires
                q == abs(other.num as int) * self.den,
                q_neg == (other.num < 0),
        ;
        if p_neg == q_neg {
            Number::from_parts(p_neg, p + q, d)
        } else if p >= q {
            Number::from_parts(p_neg, p - q, d)
        } else {
            Number::from_parts(q_neg, q - p, d)
        }
    }

    /// The number with the opposite sign, unless it does not fit.
    pub fn negate(&self) -> (r: Option<Number>)
        ensures
            r is Some <==> self@.num != i64::MIN,
            r matches Some(n) ==> n@ == (Rational { num: -self@.num, den: self@.den }),
    {
        proof {
            use_type_invariant(self);
        }
        if self.num == i64::MIN {
            None
        } else {
            Some(Number { num: -self.num, den: self.den })
        }
    }

    /// The difference, unless its reduced form does not fit.
    pub fn subtract(&self, other: &Number) -> (r: Option<Number>)
        ensures
            r is Some <==> fits(difference_of(self@, other@)),
            r matches Some(n) ==> n@ == difference_of(self@, other@),
    {
        proof {
            use_type_invariant(self);
            use_type_invariant(other);
            lemma_magnitude_bound(abs(self.num as int) as int, other.den as int);
            lemma_magnitude_bound(abs(other.num as int) as int, self.den as int);
            lemma_magnitude_bound(self.den as int, other.den as int);
            lemma_product_bound(self.num as int, other.den as int);
            lemma_product_bound(other.num as int, self.den as int);
            assert(abs(self.num as int) * other.den == abs(self.num * other.den)) by (nonlinear_arith)
                requires
                    other.den > 0,
            ;
            assert(abs(other.num as int) * self.den == abs(other.num * self.den)) by (nonlinear_arith)
                requires
                    self.den > 0,
            ;
            assert(self.den * other.den > 0) by (nonlinear_arith)
                requires
                    self.den > 0,
                    other.den > 0,
            ;
        }
        let p: u128 = (magnitude(self.num) as u128) * (other.den as u128);
        let q: u128 = (magnitude(other.num) as u128) * (self.den as u128);
        let d: u128 = (self.den as u128) * (other.den as u128);
        let p_neg = self.num < 0;
        let q_neg = !(other.num < 0);
        assert(self.num * other.den == signed(p_neg, p as int)) by (nonlinear_arith)
            requires
                p == abs(self.num as int) * other.den,
                p_neg == (self.num < 0),
        ;
        assert(-(other.num * self.den) == signed(q_neg, q as int)) by (nonlinear_arith)
            requires
                q == abs(other.num as int) * self.den,
                q_neg == !(other.num < 0),
        ;
        if p_neg == q_neg {
            Number::from_parts(p_neg, p + q, d)
        } else if p >= q {
            Number::from_parts(p_neg, p - q, d)
        } else {
            Number::from_parts(q_neg, q - p, d)
        }
    }

    /// The product, unless its reduced form does not fit.
    pub fn multiply(&self, other: &Number) -> (r: Option<Number>)
        ensures
            r is Some <==> fits(product_of(self@, other@)),
            r matches Some(n) ==> n@ == product_of(self@, other@),
    {
        proof {
            use_type_invariant(self);
            use_type_invariant(other);
            lemma_magnitude_bound(abs(self.num as int) as int, abs(other.num as int) as int);
            lemma_magnitude_bound(self.den as int, other.den as int);
            assert(self.den * other.den > 0) by (nonlinear_arith)
                requires
                    self.den > 0,
                    other.den > 0,
            ;
        }
        let p: u128 = (magnitude(self.num) as u128) * (magnitude(other.num) as u128);
        let d: u128 = (self.den as u128) * (other.den as u128);
        let negative = (self.num < 0) != (other.num < 0);
        assert(self.num * other.num == signed(negative, p as int)) by (nonlinear_arith)
            requires
                p == abs(self.num as int) * abs(other.num as int),
                negative == ((self.num < 0) != (other.num < 0)),
        ;
        Number::from_parts(negative, p, d)
    }

    /// The quotient, unless the divisor is zero or the reduced form does
    /// not fit.
    pub fn divide(&self, other: &Number) -> (r: Option<Number>)
        ensures
            r is Some <==> other@.num != 0 && fits(quotient_of(self@, other@)),
            r matches Some(n) ==> n@ == quotient_of(self@, other@),
    {
        if other.num == 0 {
            return None;
        }
        proof {
            use_type_invariant(self);
            use_type_invariant(other);
            lemma_magnitude_bound(abs(self.num as int) as int, other.den as int);
            lemma_magnitude_bound(self.den as int, abs(other.num as int) as int);
            assert(self.den * abs(other.num as int) > 0) by (nonlinear_arith)
                requires
                    self.den > 0,
                    abs(other.num as int) > 0,
            ;
        }
        let p: u128 = (magnitude(self.num) as u128) * (other.den as u128);
        let d: u128 = (self.den as u128) * (magnitude(other.num) as u128);
        let negative = (self.num < 0) != (other.num < 0);
        assert(signed(other.num < 0, self.num * other.den) == signed(negative, p as int))
            by (nonlinear_arith)
            requires
                p == abs(self.num as int) * other.den,
                negative == ((self.num < 0) != (other.num < 0)),
        ;
        Number::from_parts(negative, p, d)
    }

    /// The remainder of the division truncated toward zero, unless the
    /// divisor is zero or the reduced form does not fit.
    pub fn remainder(&self, other: &Number) -> (r: Option<Number>)
        ensures
            r is Some <==> other@.num != 0 && fits(remainder_of(self@, other@)),
            r matches Some(n) ==> n@ == remainder_of(self@, other@),
    {
        if other.num == 0 {
            return None;
        }
        proof {
            use_type_invariant(self);
            use_type_invariant(other);
            lemma_magnitude_bound(abs(self.num as int) as int, other.den as int);
            lemma_magnitude_bound(abs(other.num as int) as int, self.den as int);
            lemma_magnitude_bound(self.den as int, other.den as int);
            assert(abs(self.num as int) * other.den == abs(self.num * other.den)) by (nonlinear_arith)
                requires
                    other.den > 0,
            ;
            assert(abs(other.num as int) * self.den == abs(other.num * self.den)) by (nonlinear_arith)
                requires
                    self.den > 0,
            ;
            assert(abs(other.num as int) * self.den > 0) by (nonlinear_arith)
                requires
                    self.den > 0,
                    abs(other.num as int) > 0,
            ;
            assert(self.den * other.den > 0) by (nonlinear_arith)
                requires
                    self.den > 0,
                    other.den > 0,
            ;
            assert((self.num * other.den < 0) == (self.num < 0)) by (nonlinear_arith)
                requires
                    other.den > 0,
            ;
        }
        let p: u128 = (magnitude(self.num) as u128) * (other.den as u128);
        let q: u128 = (magnitude(other.num) as u128) * (self.den as u128);
        let d: u128 = (self.den as u128) * (other.den as u128);
        Number::from_parts(self.num < 0, p % q, d)
    }

    /// `self` raised to the whole power `exponent`, unless a product on
    /// the way does not fit.
    pub fn power(&self, exponent: u64) -> (r: Option<Number>)
        ensures
            r is Some <==> power_of(self@, exponent as nat) is Some,
            r matches Some(n) ==> Some(n@) == power_of(self@, exponent as nat),
    {
        if self.num == -1 && self.den == 1 {
            proof {
                lemma_power_of_minus_one(exponent as nat);
            }
            return Some(Number::from_i64(if exponent % 2 == 0 { 1 } else { -1 }));
        }
        let mut acc = Number::from_i64(1);
        let mut i: u64 = 0;
        while i < exponent
            invariant
                i <= exponent,
                power_of(self@, i as nat) == Some(acc@),
            decreases exponent - i,
        {
            match acc.multiply(self) {
                Some(next) => {
                    if next.num == acc.num && next.den == acc.den {
                        proof {
                            lemma_power_settles(self@, i as nat, exponent as nat);
                        }
                        return Some(acc);
                    }
                    acc = next;
                },
                None => {
                    proof {
                        lemma_power_fails(self@, (i + 1) as nat, exponent as nat);
                    }
                    return None;
                },
            }
            i += 1;
        }
        Some(acc)
    }
}

/// A power that equals the one before it equals every later one.
proof fn lemma_power_settles(a: Rational, i: nat, e: nat)
    requires
        i <= e,
        power_of(a, i) is Some,
        power_of(a, i + 1) == power_of(a, i),
    ensures
        power_of(a, e) == power_of(a, i),
    decreases e,
{
    if i < e {
        lemma_power_settles(a, i, (e - 1) as nat);
    }
}

/// The powers of minus one alternate between one and minus one.
proof fn lemma_power_of_minus_one(e: nat)
    ensures
        power_of(Rational { num: -1, den: 1 }, e) == Some(
            Rational { num: if e % 2 == 0 { 1 } else { -1 }, den: 1 },
        ),
    decreases e,
{
    reveal_with_fuel(gcd, 3);
    if e > 0 {
        lemma_power_of_minus_one((e - 1) as nat);
        let a = Rational { num: -1, den: 1 };
        let p = power_of(a, (e - 1) as nat)->0;
        assert(p.num * a.num == -p.num) by (nonlinear_arith)
            requires
                a.num == -1,
        ;
        assert(p.den * a.den == 1) by (nonlinear_arith)
            requires
                a.den == 1,
                p.den == 1,
        ;
        assert(gcd(1, 1) == 1);
        assert(abs(-p.num) == 1);
        assert(1int / 1int == 1int);
        assert(product_of(p, a) == Rational { num: -p.num, den: 1 });
    }
}

/// Once a power does not fit, no higher power does.
proof fn lemma_power_fails(a: Rational, i: nat, e: nat)
    requires
        i <= e,
        power_of(a, i) is None,
    ensures
        power_of(a, e) is None,
    decreases e,
{
    if i < e {
        lemma_power_fails(a, i, (e - 1) as nat);
    }
}

} // verus!

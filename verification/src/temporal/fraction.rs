//! Exact fractions, and the arithmetic on them that fails where a result
//! cannot be held rather than round it.

use vstd::arithmetic::div_mod::{lemma_fundamental_div_mod, lemma_mod_multiples_basic};
use vstd::prelude::*;

verus! {

/// The quotient of two integers as a real number.
pub open spec fn ratio(n: int, d: int) -> real {
    n as real / d as real
}

/// The greatest common divisor, by Euclid's algorithm.
pub open spec fn gcd(a: nat, b: nat) -> nat
    decreases b,
{
    if b == 0 {
        a
    } else {
        gcd(b, a % b)
    }
}

/// The common divisor that Euclid's algorithm finds divides both numbers,
/// and is positive unless both are zero.
pub proof fn lemma_gcd_divides(a: nat, b: nat)
    ensures
        (a > 0 || b > 0) ==> gcd(a, b) > 0,
        gcd(a, b) > 0 ==> a % gcd(a, b) == 0 && b % gcd(a, b) == 0,
        gcd(a, b) <= a || a == 0,
        gcd(a, b) <= b || b == 0,
    decreases b,
{
    if b == 0 {
        if a > 0 {
            lemma_mod_multiples_basic(1, a as int);
        }
    } else {
        let r = a % b;
        lemma_gcd_divides(b, r);
        let g = gcd(b, r);
        assert(g > 0);
        lemma_fundamental_div_mod(a as int, b as int);
        lemma_fundamental_div_mod(b as int, g as int);
        lemma_fundamental_div_mod(r as int, g as int);
        let q = a as int / b as int;
        let bq = b as int / g as int;
        let rq = r as int / g as int;
        assert(a as int == (q * bq + rq) * g) by (nonlinear_arith)
            requires
                a as int == b as int * q + r as int,
                b as int == g as int * bq,
                r as int == g as int * rq,
        ;
        lemma_mod_multiples_basic(q * bq + rq, g as int);
        if a > 0 && g > a {
            assert(q * bq + rq >= 1) by (nonlinear_arith)
                requires
                    a as int == (q * bq + rq) * g,
                    a > 0,
                    g > 0,
            ;
            assert((q * bq + rq) * g >= g) by (nonlinear_arith)
                requires
                    q * bq + rq >= 1,
                    g > 0,
            ;
        }
    }
}

/// A quotient does not change when a common factor is taken out of both
/// of its terms.
pub proof fn lemma_ratio_cancel(n: int, d: int, g: int)
    requires
        d > 0,
        g > 0,
    ensures
        ratio(n * g, d * g) == ratio(n, d),
{
    assert((n * g) as real == n as real * g as real) by (nonlinear_arith);
    assert((d * g) as real == d as real * g as real) by (nonlinear_arith);
    assert((n as real * g as real) / (d as real * g as real) == n as real / d as real)
        by (nonlinear_arith)
        requires
            d as real > 0real,
            g as real > 0real,
    ;
}

/// A quotient by one is the number itself.
pub proof fn lemma_ratio_whole(n: int)
    ensures
        ratio(n, 1) == n as real,
        ratio(0, 1) == 0real,
        ratio(1, 1) == 1real,
{
    let one = 1int as real;
    assert(one == 1real);
    let x = n as real;
    assert(x / one == x) by (nonlinear_arith)
        requires
            one == 1real,
    ;
    assert(0int as real == 0real);
    assert(0real / one == 0real) by (nonlinear_arith)
        requires
            one == 1real,
    ;
    assert(one / one == 1real) by (nonlinear_arith)
        requires
            one == 1real,
    ;
}

/// The sum of two quotients.
pub proof fn lemma_ratio_add(a: int, b: int, c: int, d: int)
    requires
        b > 0,
        d > 0,
    ensures
        ratio(a, b) + ratio(c, d) == ratio(a * d + c * b, b * d),
{
    assert(b as real * d as real == (b * d) as real) by (nonlinear_arith);
    assert(a as real / b as real + c as real / d as real == (a as real * d as real + c as real
        * b as real) / (b as real * d as real)) by (nonlinear_arith)
        requires
            b as real > 0real,
            d as real > 0real,
    ;
    assert((a * d + c * b) as real == a as real * d as real + c as real * b as real)
        by (nonlinear_arith);
}

/// The product of two quotients.
pub proof fn lemma_ratio_mul(a: int, b: int, c: int, d: int)
    requires
        b > 0,
        d > 0,
    ensures
        ratio(a, b) * ratio(c, d) == ratio(a * c, b * d),
{
    assert((a * c) as real == a as real * c as real) by (nonlinear_arith);
    assert((b * d) as real == b as real * d as real) by (nonlinear_arith);
    assert((a as real / b as real) * (c as real / d as real) == (a as real * c as real) / (
    b as real * d as real)) by (nonlinear_arith)
        requires
            b as real > 0real,
            d as real > 0real,
    ;
}

/// The quotient of two quotients.
pub proof fn lemma_ratio_div(a: int, b: int, c: int, d: int)
    requires
        b > 0,
        c > 0,
        d > 0,
    ensures
        ratio(a, b) / ratio(c, d) == ratio(a * d, b * c),
{
    assert((a * d) as real == a as real * d as real) by (nonlinear_arith);
    assert((b * c) as real == b as real * c as real) by (nonlinear_arith);
    assert((a as real / b as real) / (c as real / d as real) == (a as real * d as real) / (
    b as real * c as real)) by (nonlinear_arith)
        requires
            b as real > 0real,
            c as real > 0real,
            d as real > 0real,
    ;
}

/// Two quotients are ordered as their cross products are.
pub proof fn lemma_ratio_order(a: int, b: int, c: int, d: int)
    requires
        b > 0,
        d > 0,
    ensures
        ratio(a, b) < ratio(c, d) <==> a * d < c * b,
        ratio(a, b) == ratio(c, d) <==> a * d == c * b,
{
    let (ar, br, cr, dr) = (a as real, b as real, c as real, d as real);
    assert((a * d) as real == ar * dr) by (nonlinear_arith)
        requires
            ar == a as real,
            dr == d as real,
    ;
    assert((c * b) as real == cr * br) by (nonlinear_arith)
        requires
            cr == c as real,
            br == b as real,
    ;
    assert((ar / br < cr / dr) <==> (ar * dr < cr * br)) by (nonlinear_arith)
        requires
            br > 0real,
            dr > 0real,
    ;
    assert((ar / br == cr / dr) <==> (ar * dr == cr * br)) by (nonlinear_arith)
        requires
            br > 0real,
            dr > 0real,
    ;
}

/// A non-negative rational number, held exactly as a numerator over a
/// positive denominator of 64 bits each.
#[derive(Copy, Clone, Debug, PartialEq, Eq, Structural, Hash)]
pub struct Fraction {
    pub(crate) num: u64,
    pub(crate) den: u64,
}

/// The fraction `n / d` with the common divisor of its terms taken out, or
/// nothing where `d` is zero or a term is then still too large to hold.
pub open(crate) spec fn reduced(n: nat, d: nat) -> Option<Fraction> {
    let g = gcd(n, d);
    if d > 0 && n / g <= u64::MAX && d / g <= u64::MAX {
        Some(Fraction { num: (n / g) as u64, den: (d / g) as u64 })
    } else {
        None
    }
}

/// A fraction that `reduced` gives has the value of the quotient it was
/// made from.
pub proof fn lemma_reduced_value(n: nat, d: nat)
    ensures
        reduced(n, d) is Some ==> reduced(n, d).unwrap().well_formed() && reduced(
            n,
            d,
        ).unwrap().value() == ratio(n as int, d as int),
        d > 0 && n <= u64::MAX && d <= u64::MAX ==> reduced(n, d) is Some,
{
    if d > 0 {
        let g = gcd(n, d);
        lemma_gcd_divides(n, d);
        lemma_fundamental_div_mod(n as int, g as int);
        lemma_fundamental_div_mod(d as int, g as int);
        let nq = n as int / g as int;
        let dq = d as int / g as int;
        assert(nq * g == n && dq * g == d) by (nonlinear_arith)
            requires
                n as int == g as int * nq,
                d as int == g as int * dq,
        ;
        assert(dq > 0 && nq >= 0 && nq <= n && dq <= d) by (nonlinear_arith)
            requires
                dq * g == d,
                nq * g == n,
                d > 0,
                g > 0,
                n >= 0,
        ;
        lemma_ratio_cancel(nq, dq, g as int);
    }
}

impl Fraction {
    /// The numerator.
    pub open(crate) spec fn numer(self) -> nat {
        self.num as nat
    }

    /// The denominator.
    pub open(crate) spec fn denom(self) -> nat {
        self.den as nat
    }

    /// A fraction is well formed when its denominator is positive. Every
    /// fraction that this library hands out is.
    #[verifier::type_invariant]
    pub open(crate) spec fn well_formed(self) -> bool {
        self.den > 0
    }

    /// The fraction zero.
    pub open(crate) spec fn spec_zero() -> Fraction {
        Fraction { num: 0, den: 1 }
    }

    /// The fraction one.
    pub open(crate) spec fn spec_one() -> Fraction {
        Fraction { num: 1, den: 1 }
    }

    /// The number that the fraction stands for.
    pub open spec fn value(self) -> real {
        ratio(self.numer() as int, self.denom() as int)
    }

    /// The sum of two fractions, or nothing where it cannot be held: where
    /// the numerator over the product of the denominators exceeds 128 bits,
    /// or a term of the reduced sum exceeds 64.
    pub open spec fn spec_add(self, rhs: Fraction) -> Option<Fraction> {
        let n = self.numer() * rhs.denom() + rhs.numer() * self.denom();
        if n > u128::MAX {
            None
        } else {
            reduced(n, self.denom() * rhs.denom())
        }
    }

    /// The product of two fractions, or nothing where a term of the reduced
    /// product exceeds 64 bits.
    pub open spec fn spec_mul(self, rhs: Fraction) -> Option<Fraction> {
        reduced(self.numer() * rhs.numer(), self.denom() * rhs.denom())
    }

    /// The quotient of two fractions, or nothing where the divisor is zero or
    /// a term of the reduced quotient exceeds 64 bits.
    pub open spec fn spec_div(self, rhs: Fraction) -> Option<Fraction> {
        reduced(self.numer() * rhs.denom(), self.denom() * rhs.numer())
    }

    /// The difference of two fractions, or nothing where the second is the
    /// greater or a term of the reduced difference exceeds 64 bits.
    pub open spec fn spec_sub(self, rhs: Fraction) -> Option<Fraction> {
        if self.numer() * rhs.denom() < rhs.numer() * self.denom() {
            None
        } else {
            reduced(
                (self.numer() * rhs.denom() - rhs.numer() * self.denom()) as nat,
                self.denom() * rhs.denom(),
            )
        }
    }

    /// The greater of two fractions; the first where they are equal.
    pub open spec fn spec_max(self, rhs: Fraction) -> Fraction {
        if self.value() < rhs.value() {
            rhs
        } else {
            self
        }
    }
}

/// What the checked operations hand out is well formed and has the value of
/// the exact sum, product or quotient.
pub proof fn lemma_fraction_arithmetic(a: Fraction, b: Fraction)
    requires
        a.well_formed(),
        b.well_formed(),
    ensures
        a.spec_add(b) is Some ==> a.spec_add(b).unwrap().well_formed() && a.spec_add(
            b,
        ).unwrap().value() == a.value() + b.value(),
        a.spec_mul(b) is Some ==> a.spec_mul(b).unwrap().well_formed() && a.spec_mul(
            b,
        ).unwrap().value() == a.value() * b.value(),
        a.spec_div(b) is Some ==> a.spec_div(b).unwrap().well_formed() && b.numer() > 0
            && a.spec_div(b).unwrap().value() == a.value() / b.value(),
        a.value() >= 0real,
{
    let (an, ad, bn, bd) = (a.numer() as int, a.denom() as int, b.numer() as int, b.denom() as int);
    assert(an * bd + bn * ad >= 0) by (nonlinear_arith)
        requires
            an >= 0,
            bn >= 0,
            ad > 0,
            bd > 0,
    ;
    assert(ad * bd > 0) by (nonlinear_arith)
        requires
            ad > 0,
            bd > 0,
    ;
    lemma_reduced_value((an * bd + bn * ad) as nat, (ad * bd) as nat);
    lemma_ratio_add(an, ad, bn, bd);
    assert(an * bn >= 0 && ad * bd > 0 && an * bd >= 0) by (nonlinear_arith)
        requires
            an >= 0,
            bn >= 0,
            ad > 0,
            bd > 0,
    ;
    lemma_reduced_value((an * bn) as nat, (ad * bd) as nat);
    lemma_ratio_mul(an, ad, bn, bd);
    if bn > 0 {
        assert(ad * bn > 0) by (nonlinear_arith)
            requires
                ad > 0,
                bn > 0,
        ;
        lemma_reduced_value((an * bd) as nat, (ad * bn) as nat);
        lemma_ratio_div(an, ad, bn, bd);
    } else {
        assert(ad * bn == 0) by (nonlinear_arith)
            requires
                bn == 0,
        ;
    }
    assert(an as real / ad as real >= 0real) by (nonlinear_arith)
        requires
            an as real >= 0real,
            ad as real > 0real,
    ;
}

/// Euclid's algorithm on machine integers.
fn greatest_common_divisor(a: u128, b: u128) -> (g: u128)
    ensures
        g == gcd(a as nat, b as nat),
{
    let mut x: u128 = a;
    let mut y: u128 = b;
    while y != 0
        invariant
            gcd(x as nat, y as nat) == gcd(a as nat, b as nat),
        decreases y,
    {
        let r: u128 = x % y;
        x = y;
        y = r;
    }
    x
}

/// Takes the common divisor out of `n / d` and narrows the terms to 64 bits.
pub(crate) fn reduce(n: u128, d: u128) -> (r: Option<Fraction>)
    ensures
        r == reduced(n as nat, d as nat),
{
    if d == 0 {
        return None;
    }
    let g: u128 = greatest_common_divisor(n, d);
    proof {
        lemma_gcd_divides(n as nat, d as nat);
    }
    let rn: u128 = n / g;
    let rd: u128 = d / g;
    if rn > u64::MAX as u128 || rd > u64::MAX as u128 {
        return None;
    }
    proof {
        lemma_reduced_value(n as nat, d as nat);
    }
    Some(Fraction { num: rn as u64, den: rd as u64 })
}

impl Fraction {
    /// The fraction `num / den` in reduced form, or nothing where `den` is
    /// zero.
    pub fn new(num: u64, den: u64) -> (r: Option<Fraction>)
        ensures
            r == reduced(num as nat, den as nat),
            r is Some <==> den > 0,
            r is Some ==> r.unwrap().value() == ratio(num as int, den as int),
    {
        proof {
            lemma_reduced_value(num as nat, den as nat);
        }
        reduce(num as u128, den as u128)
    }

    /// The whole number `n`.
    pub fn from_integer(n: u64) -> (r: Fraction)
        ensures
            r.numer() == n,
            r.denom() == 1,
            r.value() == n as real,
    {
        proof {
            lemma_ratio_whole(n as int);
        }
        Fraction { num: n, den: 1 }
    }

    /// Zero.
    pub fn zero() -> (r: Fraction)
        ensures
            r == Fraction::spec_zero(),
            r.numer() == 0,
            r.denom() == 1,
            r.value() == 0real,
    {
        proof {
            lemma_ratio_whole(0);
        }
        Fraction { num: 0, den: 1 }
    }

    /// One.
    pub fn one() -> (r: Fraction)
        ensures
            r == Fraction::spec_one(),
            r.numer() == 1,
            r.denom() == 1,
            r.value() == 1real,
    {
        proof {
            lemma_ratio_whole(1);
        }
        Fraction { num: 1, den: 1 }
    }

    /// The numerator.
    pub fn numerator(&self) -> (r: u64)
        ensures
            r == self.numer(),
    {
        self.num
    }

    /// The denominator, which is never zero.
    pub fn denominator(&self) -> (r: u64)
        ensures
            r == self.denom(),
            r > 0,
    {
        proof {
            use_type_invariant(self);
        }
        self.den
    }

    /// The exact sum, where it can be held.
    pub fn checked_add(&self, rhs: &Fraction) -> (r: Option<Fraction>)
        ensures
            r == self.spec_add(*rhs),
            r is Some ==> r.unwrap().value() == self.value() + rhs.value(),
    {
        proof {
            use_type_invariant(self);
            use_type_invariant(rhs);
            lemma_fraction_arithmetic(*self, *rhs);
            lemma_products_fit(self.num, rhs.den);
            lemma_products_fit(rhs.num, self.den);
            lemma_products_fit(self.den, rhs.den);
        }
        let p: u128 = (self.num as u128) * (rhs.den as u128);
        let q: u128 = (rhs.num as u128) * (self.den as u128);
        if p > u128::MAX - q {
            return None;
        }
        reduce(p + q, (self.den as u128) * (rhs.den as u128))
    }

    /// The exact difference, where the second fraction is not the greater
    /// and the difference can be held.
    pub fn checked_sub(&self, rhs: &Fraction) -> (r: Option<Fraction>)
        ensures
            r == self.spec_sub(*rhs),
    {
        proof {
            use_type_invariant(self);
            use_type_invariant(rhs);
            lemma_products_fit(self.num, rhs.den);
            lemma_products_fit(rhs.num, self.den);
            lemma_products_fit(self.den, rhs.den);
        }
        let p: u128 = (self.num as u128) * (rhs.den as u128);
        let q: u128 = (rhs.num as u128) * (self.den as u128);
        if p < q {
            return None;
        }
        reduce(p - q, (self.den as u128) * (rhs.den as u128))
    }

    /// The exact product, where it can be held.
    pub fn checked_mul(&self, rhs: &Fraction) -> (r: Option<Fraction>)
        ensures
            r == self.spec_mul(*rhs),
            r is Some ==> r.unwrap().value() == self.value() * rhs.value(),
    {
        proof {
            use_type_invariant(self);
            use_type_invariant(rhs);
            lemma_fraction_arithmetic(*self, *rhs);
            lemma_products_fit(self.num, rhs.num);
            lemma_products_fit(self.den, rhs.den);
        }
        reduce((self.num as u128) * (rhs.num as u128), (self.den as u128) * (rhs.den as u128))
    }

    /// The exact quotient, where the divisor is not zero and it can be held.
    pub fn checked_div(&self, rhs: &Fraction) -> (r: Option<Fraction>)
        ensures
            r == self.spec_div(*rhs),
            r is Some ==> rhs.numer() > 0 && r.unwrap().value() == self.value() / rhs.value(),
    {
        proof {
            use_type_invariant(self);
            use_type_invariant(rhs);
            lemma_fraction_arithmetic(*self, *rhs);
            lemma_products_fit(self.num, rhs.den);
            lemma_products_fit(self.den, rhs.num);
        }
        reduce((self.num as u128) * (rhs.den as u128), (self.den as u128) * (rhs.num as u128))
    }

    /// Whether this fraction is less than the other.
    pub fn is_less_than(&self, rhs: &Fraction) -> (r: bool)
        ensures
            r == (self.value() < rhs.value()),
    {
        proof {
            use_type_invariant(self);
            use_type_invariant(rhs);
            lemma_ratio_order(self.num as int, self.den as int, rhs.num as int, rhs.den as int);
            lemma_products_fit(self.num, rhs.den);
            lemma_products_fit(rhs.num, self.den);
        }
        (self.num as u128) * (rhs.den as u128) < (rhs.num as u128) * (self.den as u128)
    }

    /// Whether the two fractions stand for the same number.
    pub fn is_equal_to(&self, rhs: &Fraction) -> (r: bool)
        ensures
            r == (self.value() == rhs.value()),
    {
        proof {
            use_type_invariant(self);
            use_type_invariant(rhs);
            lemma_ratio_order(self.num as int, self.den as int, rhs.num as int, rhs.den as int);
            lemma_products_fit(self.num, rhs.den);
            lemma_products_fit(rhs.num, self.den);
        }
        (self.num as u128) * (rhs.den as u128) == (rhs.num as u128) * (self.den as u128)
    }

    /// The greater of the two fractions; this one where they are equal.
    pub fn max(self, rhs: Fraction) -> (r: Fraction)
        ensures
            r == self.spec_max(rhs),
            r.value() >= self.value(),
            r.value() >= rhs.value(),
    {
        if self.is_less_than(&rhs) {
            rhs
        } else {
            self
        }
    }
}

/// The product of two 64-bit numbers fits in 128 bits.
proof fn lemma_products_fit(a: u64, b: u64)
    ensures
        a * b <= u128::MAX,
        a * b >= 0,
{
    assert(a * b <= 0xFFFF_FFFF_FFFF_FFFF * 0xFFFF_FFFF_FFFF_FFFF) by (nonlinear_arith)
        requires
            0 <= a <= 0xFFFF_FFFF_FFFF_FFFF,
            0 <= b <= 0xFFFF_FFFF_FFFF_FFFF,
    ;
    assert(a * b >= 0) by (nonlinear_arith)
        requires
            0 <= a,
            0 <= b,
    ;
}

} // verus!

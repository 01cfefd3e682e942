//! The fraction type: a signed 16-bit numerator over a positive denominator
//! no larger than `i16::MAX`, always held in lowest terms.
use crate::kernel::{
    divides, gcd, gcd_spec, lcm, lcm_spec, lemma_divides_elim, lemma_divides_le, lemma_gcd_comm,
    lemma_gcd_divides, lemma_gcd_scale,
};
use vstd::arithmetic::div_mod::{lemma_fundamental_div_mod, lemma_fundamental_div_mod_converse};
use core::cmp::Ordering;
use vstd::prelude::*;

verus! {

/// Absolute value of an integer, as a natural number.
pub open spec fn magnitude(n: int) -> nat {
    if n < 0 {
        (-n) as nat
    } else {
        n as nat
    }
}

/// The sign of an integer: -1, 0 or 1.
pub open spec fn sign(n: int) -> int {
    if n < 0 {
        -1
    } else if n == 0 {
        0
    } else {
        1
    }
}

/// `n / d` is in lowest terms, and both parts fit the fixed-width budget.
pub open spec fn is_lowest(n: int, d: int) -> bool {
    &&& i16::MIN <= n <= i16::MAX
    &&& 1 <= d <= i16::MAX
    &&& gcd_spec(magnitude(n), d as nat) == 1
}

/// `n / d` reduced to lowest terms: both parts divided by their gcd.
pub open spec fn lowest_terms(n: int, d: int) -> (int, int) {
    let g = gcd_spec(magnitude(n), d as nat) as int;
    (n / g, d / g)
}

/// The exact sum of two fractions, in lowest terms.
pub open spec fn sum_of(x: (int, int), y: (int, int)) -> (int, int) {
    lowest_terms(x.0 * y.1 + y.0 * x.1, x.1 * y.1)
}

/// The exact difference of two fractions, in lowest terms.
pub open spec fn difference_of(x: (int, int), y: (int, int)) -> (int, int) {
    lowest_terms(x.0 * y.1 - y.0 * x.1, x.1 * y.1)
}

/// The exact product of two fractions, in lowest terms.
pub open spec fn product_of(x: (int, int), y: (int, int)) -> (int, int) {
    lowest_terms(x.0 * y.0, x.1 * y.1)
}

/// The reciprocal of a nonzero fraction: the sign stays on the numerator.
pub open spec fn reciprocal_of(x: (int, int)) -> (int, int) {
    (sign(x.0) * x.1, magnitude(x.0) as int)
}

/// The exact quotient of two fractions, in lowest terms.
pub open spec fn quotient_of(x: (int, int), y: (int, int)) -> (int, int) {
    product_of(x, reciprocal_of(y))
}

/// An integer fits the signed 16-bit range.
pub open spec fn fits_i16(v: int) -> bool {
    i16::MIN <= v <= i16::MAX
}

/// Addition stays within the fixed width: the lcm of the denominators fits the
/// denominator range, and the scaled numerators and their sum fit `i16`.
pub open spec fn add_defined(x: (int, int), y: (int, int)) -> bool {
    let l = lcm_spec(x.1 as nat, y.1 as nat) as int;
    let a = x.0 * (l / x.1);
    let b = y.0 * (l / y.1);
    &&& l <= i16::MAX
    &&& fits_i16(a)
    &&& fits_i16(b)
    &&& fits_i16(a + b)
}

/// Multiplication stays within the fixed width.
pub open spec fn mul_defined(x: (int, int), y: (int, int)) -> bool {
    &&& fits_i16(x.0 * y.0)
    &&& x.1 * y.1 <= i16::MAX
}

/// A fraction has a reciprocal of the same width: it is neither zero nor `i16::MIN / d`.
pub open spec fn has_reciprocal(x: (int, int)) -> bool {
    x.0 != 0 && x.0 != i16::MIN
}

/// Subtraction, computed as adding the negated right operand, stays within the fixed width.
pub open spec fn sub_defined(x: (int, int), y: (int, int)) -> bool {
    y.0 != i16::MIN && add_defined(x, (-y.0, y.1))
}

/// Division, computed as multiplying by the reciprocal, stays within the fixed width.
pub open spec fn div_defined(x: (int, int), y: (int, int)) -> bool {
    has_reciprocal(y) && mul_defined(x, reciprocal_of(y))
}

proof fn lemma_magnitude_mul(k: int, n: int)
    requires
        k > 0,
    ensures
        magnitude(k * n) == k * magnitude(n),
{
    if n >= 0 {
        assert(k * n >= 0) by (nonlinear_arith)
            requires
                k > 0,
                n >= 0,
        ;
    } else {
        assert(k * n < 0 && -(k * n) == k * (-n)) by (nonlinear_arith)
            requires
                k > 0,
                n < 0,
        ;
    }
}

/// Reducing divides both parts by their gcd and leaves them coprime.
pub proof fn lemma_lowest_terms(n: int, d: int)
    requires
        d > 0,
    ensures
        ({
            let g = gcd_spec(magnitude(n), d as nat) as int;
            let (p, q) = lowest_terms(n, d);
            &&& g > 0
            &&& n == g * p
            &&& d == g * q
            &&& q > 0
            &&& q <= d
            &&& magnitude(p) <= magnitude(n)
            &&& gcd_spec(magnitude(p), q as nat) == 1
        }),
{
    let g = gcd_spec(magnitude(n), d as nat) as int;
    lemma_gcd_divides(magnitude(n), d as nat);
    if n < 0 {
        crate::kernel::lemma_divides_lin(g, magnitude(n) as int, 0, -1, 0);
    }
    assert(divides(g, n));
    lemma_fundamental_div_mod(n, g);
    lemma_fundamental_div_mod(d, g);
    let p = n / g;
    let q = d / g;
    assert(n == g * p);
    assert(d == g * q);
    assert(q > 0 && q <= d) by (nonlinear_arith)
        requires
            d > 0,
            g > 0,
            d == g * q,
    ;
    lemma_magnitude_mul(g, p);
    assert(magnitude(p) <= magnitude(n)) by (nonlinear_arith)
        requires
            magnitude(n) == g * magnitude(p),
            g > 0,
    ;
    lemma_gcd_scale(g as nat, magnitude(p), q as nat);
    let h = gcd_spec(magnitude(p), q as nat) as int;
    assert(h == 1) by (nonlinear_arith)
        requires
            g == g * h,
            g > 0,
    ;
}

/// Scaling numerator and denominator by the same positive factor does not change the lowest terms.
pub proof fn lemma_lowest_terms_scale(k: int, n: int, d: int)
    requires
        k > 0,
        d > 0,
    ensures
        lowest_terms(k * n, k * d) == lowest_terms(n, d),
{
    lemma_lowest_terms(n, d);
    let g = gcd_spec(magnitude(n), d as nat) as int;
    let (p, q) = lowest_terms(n, d);
    lemma_magnitude_mul(k, n);
    lemma_gcd_scale(k as nat, magnitude(n), d as nat);
    assert(k * n == p * (k * g) + 0 && k * d == q * (k * g) + 0 && k * g > 0) by (nonlinear_arith)
        requires
            n == g * p,
            d == g * q,
            k > 0,
            g > 0,
    ;
    lemma_fundamental_div_mod_converse(k * n, k * g, p, 0);
    lemma_fundamental_div_mod_converse(k * d, k * g, q, 0);
}

/// A pair already in lowest terms is its own reduction.
pub proof fn lemma_lowest_terms_fixed(n: int, d: int)
    requires
        d > 0,
        gcd_spec(magnitude(n), d as nat) == 1,
    ensures
        lowest_terms(n, d) == (n, d),
{
}

pub(crate) proof fn lemma_gcd_one(n: nat)
    ensures
        gcd_spec(n, 1) == 1,
{
    assert(n % 1 == 0);
    assert(gcd_spec(1, 0) == 1);
}

/// The order of two integers.
pub open spec fn compare(a: int, b: int) -> Ordering {
    if a < b {
        Ordering::Less
    } else if a == b {
        Ordering::Equal
    } else {
        Ordering::Greater
    }
}

/// The order of two fractions by value. Every pair is comparable: the factors
/// that scale each denominator to their lcm, `d2 / g` and `d1 / g`, never exceed
/// the denominator range.
pub open spec fn order_of(x: (int, int), y: (int, int)) -> Option<Ordering> {
    Some(compare(x.0 * y.1, y.0 * x.1))
}

/// Scaling both numerators to the lcm of the denominators gives the exact sum,
/// and scaled numerators compare as the fractions do.
proof fn lemma_common_denominator(n1: int, d1: int, n2: int, d2: int)
    requires
        d1 > 0,
        d2 > 0,
    ensures
        ({
            let l = lcm_spec(d1 as nat, d2 as nat) as int;
            let g = gcd_spec(d1 as nat, d2 as nat) as int;
            &&& g > 0
            &&& 0 < l <= d1 * d2
            &&& l / d1 <= d2
            &&& l / d2 <= d1
            &&& (n1 * (l / d1)) * g == n1 * d2
            &&& (n2 * (l / d2)) * g == n2 * d1
            &&& lowest_terms(n1 * (l / d1) + n2 * (l / d2), l) == lowest_terms(
                n1 * d2 + n2 * d1,
                d1 * d2,
            )
        }),
{
    let g = gcd_spec(d1 as nat, d2 as nat) as int;
    lemma_gcd_divides(d1 as nat, d2 as nat);
    lemma_fundamental_div_mod(d1, g);
    lemma_fundamental_div_mod(d2, g);
    let p = d1 / g;
    let q = d2 / g;
    assert(d1 * d2 == (g * p * q) * g + 0 && p > 0 && q > 0) by (nonlinear_arith)
        requires
            d1 == g * p,
            d2 == g * q,
            g > 0,
            d1 > 0,
            d2 > 0,
    ;
    lemma_fundamental_div_mod_converse(d1 * d2, g, g * p * q, 0);
    let l = g * p * q;
    assert(l == q * d1 + 0 && l == p * d2 + 0 && 0 < l <= d1 * d2 && q <= d2 && p <= d1)
        by (nonlinear_arith)
        requires
            d1 == g * p,
            d2 == g * q,
            g > 0,
            p > 0,
            q > 0,
            l == g * p * q,
    ;
    lemma_fundamental_div_mod_converse(l, d1, q, 0);
    lemma_fundamental_div_mod_converse(l, d2, p, 0);
    assert(n1 * d2 + n2 * d1 == g * (n1 * q + n2 * p) && d1 * d2 == g * l && (n1 * q) * g
        == n1 * d2 && (n2 * p) * g == n2 * d1) by (nonlinear_arith)
        requires
            d1 == g * p,
            d2 == g * q,
            l == g * p * q,
    ;
    lemma_lowest_terms_scale(g, n1 * q + n2 * p, l);
}

/// A fixed-width fraction, held in lowest terms.
#[derive(Debug, Clone, Copy, PartialEq, Eq, Structural)]
pub struct Fraction32 {
    numerator: i16,
    denominator: u16,
}

impl View for Fraction32 {
    type V = (int, int);

    /// The pair (numerator, denominator).
    closed spec fn view(&self) -> (int, int) {
        (self.numerator as int, self.denominator as int)
    }
}

impl Fraction32 {
    #[verifier::type_invariant]
    spec fn inv(self) -> bool {
        is_lowest(self.numerator as int, self.denominator as int)
    }

    /// The single constructor that reduces: divides both parts by their gcd.
    fn in_lowest_terms(numerator: i16, denominator: u16) -> (r: Self)
        requires
            1 <= denominator <= i16::MAX,
        ensures
            r@ == lowest_terms(numerator as int, denominator as int),
    {
        proof {
            lemma_lowest_terms(numerator as int, denominator as int);
        }
        if numerator == 0 {
            proof {
                lemma_gcd_comm(0, denominator as nat);
                lemma_gcd_one(0);
                lemma_fundamental_div_mod_converse(0, denominator as int, 0, 0);
                lemma_fundamental_div_mod_converse(denominator as int, denominator as int, 1, 0);
            }
            return Fraction32 { numerator: 0, denominator: 1 };
        }
        let mag: u16 = if numerator < 0 {
            (0 - numerator as i32) as u16
        } else {
            numerator as u16
        };
        let g = gcd(mag, denominator);
        let ghost p = lowest_terms(numerator as int, denominator as int).0;
        let ghost q = lowest_terms(numerator as int, denominator as int).1;
        proof {
            lemma_magnitude_mul(g as int, p);
            assert(mag == magnitude(p) * g + 0) by (nonlinear_arith)
                requires
                    mag == magnitude(g * p),
                    magnitude(g * p) == g * magnitude(p),
            ;
            lemma_fundamental_div_mod_converse(mag as int, g as int, magnitude(p) as int, 0);
            assert(denominator == q * g + 0) by (nonlinear_arith)
                requires
                    denominator == g * q,
            ;
            lemma_fundamental_div_mod_converse(denominator as int, g as int, q, 0);
        }
        let part: i32 = (mag / g) as i32;
        let n: i32 = if numerator < 0 {
            -part
        } else {
            part
        };
        let d = denominator / g;
        Fraction32 { numerator: n as i16, denominator: d }
    }

    /// Creates the fraction `numerator / denominator`, reduced to lowest terms.
    pub fn new(numerator: i16, denominator: u16) -> (r: Self)
        requires
            1 <= denominator <= i16::MAX,
        ensures
            r@ == lowest_terms(numerator as int, denominator as int),
    {
        Self::in_lowest_terms(numerator, denominator)
    }

    /// Creates the whole number `num / 1`.
    pub fn whole(num: i16) -> (r: Self)
        ensures
            r@ == (num as int, 1int),
    {
        proof {
            lemma_gcd_one(magnitude(num as int));
        }
        Fraction32 { numerator: num, denominator: 1 }
    }

    /// Creates `numerator / denominator` as given, without reducing it.
    pub fn new_unchecked(numerator: i16, denominator: u16) -> (r: Self)
        requires
            is_lowest(numerator as int, denominator as int),
        ensures
            r@ == (numerator as int, denominator as int),
    {
        Fraction32 { numerator, denominator }
    }

    /// The numerator; it carries the sign.
    pub fn numerator(self) -> (r: i16)
        ensures
            r == self@.0,
    {
        self.numerator
    }

    /// The denominator, in `1..=i16::MAX`.
    pub fn denominator(self) -> (r: u16)
        ensures
            r == self@.1,
            1 <= r <= i16::MAX,
    {
        proof {
            use_type_invariant(&self);
        }
        self.denominator
    }

    /// Reduces the fraction to lowest terms; a fraction already is, so this returns it unchanged.
    pub fn reduce(self) -> (r: Self)
        ensures
            r@ == lowest_terms(self@.0, self@.1),
            r == self,
    {
        proof {
            use_type_invariant(&self);
            lemma_gcd_comm(0, self@.1 as nat);
            lemma_lowest_terms_fixed(self@.0, self@.1);
        }
        if self.numerator == 0 {
            return Self::whole(0);
        }
        Self::in_lowest_terms(self.numerator, self.denominator)
    }

    /// The reciprocal, or `None` where there is none of the same width: for zero,
    /// and for a numerator of `i16::MIN`, whose magnitude exceeds the denominator range.
    pub fn reciprocal(self) -> (r: Option<Self>)
        ensures
            r is None <==> !has_reciprocal(self@),
            r matches Some(q) ==> q@ == reciprocal_of(self@),
    {
        proof {
            use_type_invariant(&self);
        }
        if self.numerator == 0 || self.numerator == i16::MIN {
            return None;
        }
        let den = self.denominator as i16;
        let numerator: i16 = if self.numerator < 0 {
            -den
        } else {
            den
        };
        let denominator: u16 = if self.numerator < 0 {
            (-self.numerator) as u16
        } else {
            self.numerator as u16
        };
        proof {
            lemma_gcd_comm(magnitude(self@.0), self@.1 as nat);
            assert(magnitude(numerator as int) == self@.1);
            lemma_lowest_terms_fixed(numerator as int, denominator as int);
        }
        Some(Self::new(numerator, denominator))
    }

    /// The exact sum over the lcm of the denominators, in lowest terms.
    pub fn add(self, rhs: Self) -> (r: Self)
        requires
            add_defined(self@, rhs@),
        ensures
            r@ == sum_of(self@, rhs@),
    {
        proof {
            use_type_invariant(&self);
            use_type_invariant(&rhs);
            lemma_common_denominator(self@.0, self@.1, rhs@.0, rhs@.1);
        }
        let denominator = lcm(self.denominator, rhs.denominator);
        let self_scale = (denominator / self.denominator) as i16;
        let other_scale = (denominator / rhs.denominator) as i16;
        let numerator = self.numerator * self_scale + rhs.numerator * other_scale;
        Self::new(numerator, denominator)
    }

    /// The exact difference, computed as the sum with the right operand times -1.
    pub fn sub(self, rhs: Self) -> (r: Self)
        requires
            sub_defined(self@, rhs@),
        ensures
            r@ == difference_of(self@, rhs@),
    {
        proof {
            use_type_invariant(&rhs);
            assert(rhs@.0 * -1 == -rhs@.0 && rhs@.1 * 1 == rhs@.1);
            assert(magnitude(-rhs@.0) == magnitude(rhs@.0));
            lemma_lowest_terms_fixed(-rhs@.0, rhs@.1);
            assert(self@.0 * rhs@.1 + (-rhs@.0) * self@.1 == self@.0 * rhs@.1 - rhs@.0 * self@.1)
                by (nonlinear_arith);
        }
        let negated = rhs.mul(Self::whole(-1));
        self.add(negated)
    }

    /// The exact product, in lowest terms.
    pub fn mul(self, rhs: Self) -> (r: Self)
        requires
            mul_defined(self@, rhs@),
        ensures
            r@ == product_of(self@, rhs@),
    {
        proof {
            use_type_invariant(&self);
            use_type_invariant(&rhs);
            assert(self@.1 * rhs@.1 >= 1) by (nonlinear_arith)
                requires
                    self@.1 >= 1,
                    rhs@.1 >= 1,
            ;
        }
        let numerator = self.numerator * rhs.numerator;
        let denominator = self.denominator * rhs.denominator;
        Self::new(numerator, denominator)
    }

    /// The exact quotient, computed as the product with the reciprocal of the right operand.
    pub fn div(self, rhs: Self) -> (r: Self)
        requires
            div_defined(self@, rhs@),
        ensures
            r@ == quotient_of(self@, rhs@),
    {
        let inverse = rhs.reciprocal().unwrap();
        self.mul(inverse)
    }

    /// Replaces the fraction with its sum with `rhs`.
    pub fn add_assign(&mut self, rhs: Self)
        requires
            add_defined(old(self)@, rhs@),
        ensures
            final(self)@ == sum_of(old(self)@, rhs@),
    {
        *self = self.add(rhs);
    }

    /// Replaces the fraction with its difference with `rhs`.
    pub fn sub_assign(&mut self, rhs: Self)
        requires
            sub_defined(old(self)@, rhs@),
        ensures
            final(self)@ == difference_of(old(self)@, rhs@),
    {
        *self = self.sub(rhs);
    }

    /// Replaces the fraction with its product with `rhs`.
    pub fn mul_assign(&mut self, rhs: Self)
        requires
            mul_defined(old(self)@, rhs@),
        ensures
            final(self)@ == product_of(old(self)@, rhs@),
    {
        *self = self.mul(rhs);
    }

    /// Replaces the fraction with its quotient by `rhs`.
    pub fn div_assign(&mut self, rhs: Self)
        requires
            div_defined(old(self)@, rhs@),
        ensures
            final(self)@ == quotient_of(old(self)@, rhs@),
    {
        *self = self.div(rhs);
    }

    /// Compares by value.
    pub fn cmp(&self, other: &Self) -> (r: Ordering)
        ensures
            r == compare(self@.0 * other@.1, other@.0 * self@.1),
    {
        self.partial_cmp(other).unwrap()
    }
}

impl From<i16> for Fraction32 {
    /// The whole number `v / 1`.
    fn from(v: i16) -> Self {
        Self::whole(v)
    }
}

impl vstd::std_specs::convert::FromSpecImpl<i16> for Fraction32 {
    open spec fn obeys_from_spec() -> bool {
        true
    }

    closed spec fn from_spec(v: i16) -> Self {
        Fraction32 { numerator: v, denominator: 1 }
    }
}

/// Converting an integer gives the whole number `v / 1`, as `whole` does.
pub proof fn lemma_from_is_whole(v: i16)
    ensures
        <Fraction32 as vstd::std_specs::convert::FromSpec<i16>>::from_spec(v)@ == (v as int, 1int),
{
}

impl PartialOrd for Fraction32 {
    /// Scales both numerators to the lcm of the denominators and compares them.
    /// The scale factors are `lcm / d1 == d2 / g` and `lcm / d2 == d1 / g`, with
    /// `g` the gcd of the denominators, so the lcm itself need not fit 16 bits.
    fn partial_cmp(&self, other: &Self) -> Option<Ordering> {
        proof {
            use_type_invariant(self);
            use_type_invariant(other);
        }
        let common_factor = gcd(self.denominator, other.denominator);
        let ghost g = common_factor as int;
        proof {
            lemma_gcd_divides(self@.1 as nat, other@.1 as nat);
            lemma_divides_elim(g, self@.1);
            lemma_divides_elim(g, other@.1);
            lemma_divides_le(g, self@.1);
        }
        let self_scale = (other.denominator / common_factor) as i32;
        let other_scale = (self.denominator / common_factor) as i32;
        proof {
            assert(0 <= self_scale <= other@.1 && 0 <= other_scale <= self@.1) by (nonlinear_arith)
                requires
                    other@.1 == g * self_scale,
                    self@.1 == g * other_scale,
                    g > 0,
                    other@.1 > 0,
                    self@.1 > 0,
            ;
            assert(-32768 * 32767 <= self@.0 * self_scale <= 32767 * 32767) by (nonlinear_arith)
                requires
                    -32768 <= self@.0 <= 32767,
                    0 <= self_scale <= 32767,
            ;
            assert(-32768 * 32767 <= other@.0 * other_scale <= 32767 * 32767) by (nonlinear_arith)
                requires
                    -32768 <= other@.0 <= 32767,
                    0 <= other_scale <= 32767,
            ;
        }
        let a = self.numerator as i32 * self_scale;
        let b = other.numerator as i32 * other_scale;
        proof {
            assert(a * g == self@.0 * other@.1 && b * g == other@.0 * self@.1) by (nonlinear_arith)
                requires
                    a == self@.0 * self_scale,
                    b == other@.0 * other_scale,
                    other@.1 == g * self_scale,
                    self@.1 == g * other_scale,
            ;
            assert((a < b <==> a * g < b * g) && (a == b <==> a * g == b * g)) by (nonlinear_arith)
                requires
                    g > 0,
            ;
        }
        if a < b {
            Some(Ordering::Less)
        } else if a == b {
            Some(Ordering::Equal)
        } else {
            Some(Ordering::Greater)
        }
    }
}

impl vstd::std_specs::cmp::PartialOrdSpecImpl for Fraction32 {
    open spec fn obeys_partial_cmp_spec() -> bool {
        true
    }

    open spec fn partial_cmp_spec(&self, other: &Self) -> Option<Ordering> {
        order_of(self@, other@)
    }
}

/// Reduction is idempotent, and its result is in lowest terms: coprime parts,
/// with zero as `0 / 1`.
pub proof fn lemma_reduce_idempotent(n: int, d: int)
    requires
        fits_i16(n),
        1 <= d <= i16::MAX,
    ensures
        ({
            let (p, q) = lowest_terms(n, d);
            &&& lowest_terms(p, q) == (p, q)
            &&& is_lowest(p, q)
            &&& p == 0 ==> q == 1
        }),
{
    lemma_lowest_terms(n, d);
    let (p, q) = lowest_terms(n, d);
    lemma_lowest_terms_fixed(p, q);
    lemma_gcd_comm(0, q as nat);
    let g = gcd_spec(magnitude(n), d as nat) as int;
    assert(-32768 <= p <= 32767) by (nonlinear_arith)
        requires
            -32768 <= n <= 32767,
            n == g * p,
            g > 0,
    ;
}

/// Zero is the additive identity and one the multiplicative identity, and
/// both operations are defined there.
pub proof fn lemma_identities(x: (int, int))
    requires
        is_lowest(x.0, x.1),
    ensures
        add_defined(x, (0, 1)),
        sum_of(x, (0, 1)) == x,
        mul_defined(x, (1, 1)),
        product_of(x, (1, 1)) == x,
{
    lemma_lowest_terms_fixed(x.0, x.1);
    lemma_gcd_one(x.1 as nat);
    lemma_fundamental_div_mod_converse(x.1 * 1, 1, x.1, 0);
    lemma_fundamental_div_mod_converse(x.1, x.1, 1, 0);
    assert(x.1 * 1 == x.1 && x.0 * 1 + 0 * x.1 == x.0 && x.0 * 1 == x.0 && 0 * 1 == 0);
    assert(lcm_spec(x.1 as nat, 1) == x.1);
}

/// A fraction minus itself is zero, and a fraction with a reciprocal times
/// that reciprocal is one. The subtraction is defined wherever the numerator
/// can be negated.
pub proof fn lemma_inverses(x: (int, int))
    requires
        is_lowest(x.0, x.1),
    ensures
        x.0 != i16::MIN ==> sub_defined(x, x),
        difference_of(x, x) == (0int, 1int),
        x.0 != 0 ==> product_of(x, reciprocal_of(x)) == (1int, 1int),
{
    let dd = x.1 * x.1;
    assert(x.0 * x.1 - x.0 * x.1 == 0 && dd > 0) by (nonlinear_arith)
        requires
            x.1 >= 1,
            dd == x.1 * x.1,
    ;
    crate::kernel::lemma_gcd_self(x.1 as nat);
    lemma_fundamental_div_mod_converse(dd, x.1, x.1, 0);
    lemma_fundamental_div_mod_converse(x.1, x.1, 1, 0);
    assert(lcm_spec(x.1 as nat, x.1 as nat) == x.1);
    assert(x.0 * 1 == x.0 && -x.0 * 1 == -x.0);
    lemma_gcd_comm(0, dd as nat);
    lemma_fundamental_div_mod_converse(0, dd, 0, 0);
    lemma_fundamental_div_mod_converse(dd, dd, 1, 0);
    if x.0 != 0 {
        let k = magnitude(x.0) * x.1;
        assert(x.0 * (sign(x.0) * x.1) == k * 1 && x.1 * magnitude(x.0) == k * 1 && k > 0)
            by (nonlinear_arith)
            requires
                x.0 < 0 ==> magnitude(x.0) == -x.0 && sign(x.0) == -1,
                x.0 > 0 ==> magnitude(x.0) == x.0 && sign(x.0) == 1,
                x.0 != 0,
                x.1 >= 1,
                k == magnitude(x.0) * x.1,
        ;
        lemma_lowest_terms_scale(k, 1, 1);
        lemma_gcd_one(1);
        lemma_lowest_terms_fixed(1, 1);
    }
}

} // verus!

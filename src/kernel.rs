//! Integer kernel: Stein's binary GCD and the LCM derived from it.
use vstd::arithmetic::div_mod::{
    lemma_fundamental_div_mod, lemma_fundamental_div_mod_converse, lemma_mod_multiples_basic,
    lemma_mod_sub_multiples_vanish,
};
use vstd::arithmetic::power2::{lemma2_to64, lemma_pow2_adds, lemma_pow2_pos, lemma_pow2_unfold, pow2};
use vstd::bits::{lemma_u16_shl_is_mul, lemma_u16_shr_is_div};
use vstd::prelude::*;
use vstd::std_specs::bits::{axiom_u16_trailing_zeros, u16_trailing_zeros};

verus! {

/// The greatest common divisor, by Euclid's recursion (`gcd_spec(0, 0) == 0`).
pub open spec fn gcd_spec(a: nat, b: nat) -> nat
    decreases b,
{
    if b == 0 {
        a
    } else {
        gcd_spec(b, a % b)
    }
}

/// The least common multiple of `a` and `b`, as `a * b / gcd(a, b)`.
pub open spec fn lcm_spec(a: nat, b: nat) -> nat {
    (a * b) / gcd_spec(a, b)
}

/// `d` is a positive divisor of `n`.
pub open spec fn divides(d: int, n: int) -> bool {
    d > 0 && n % d == 0
}

proof fn lemma_divides_intro(d: int, n: int, k: int)
    requires
        d > 0,
        n == d * k,
    ensures
        divides(d, n),
{
    lemma_mod_multiples_basic(k, d);
    assert(d * k == k * d) by (nonlinear_arith);
}

pub(crate) proof fn lemma_divides_elim(d: int, n: int)
    requires
        divides(d, n),
    ensures
        n == d * (n / d),
{
    lemma_fundamental_div_mod(n, d);
}

pub(crate) proof fn lemma_divides_lin(d: int, x: int, y: int, p: int, q: int)
    requires
        divides(d, x),
        divides(d, y),
    ensures
        divides(d, p * x + q * y),
{
    lemma_divides_elim(d, x);
    lemma_divides_elim(d, y);
    let kx = x / d;
    let ky = y / d;
    assert(p * x + q * y == d * (p * kx + q * ky)) by (nonlinear_arith)
        requires
            x == d * kx,
            y == d * ky,
    ;
    lemma_divides_intro(d, p * x + q * y, p * kx + q * ky);
}

pub(crate) proof fn lemma_divides_le(d: int, n: int)
    requires
        divides(d, n),
        n > 0,
    ensures
        d <= n,
{
    lemma_divides_elim(d, n);
    let k = n / d;
    assert(d <= n) by (nonlinear_arith)
        requires
            d > 0,
            n > 0,
            n == d * k,
    ;
}

proof fn lemma_divides_antisym(x: int, y: int)
    requires
        divides(x, y),
        divides(y, x),
    ensures
        x == y,
{
    lemma_divides_le(x, y);
    lemma_divides_le(y, x);
}

/// The gcd divides both arguments, and is positive unless both are zero.
pub proof fn lemma_gcd_divides(a: nat, b: nat)
    ensures
        gcd_spec(a, b) == 0 <==> (a == 0 && b == 0),
        (a > 0 || b > 0) ==> divides(gcd_spec(a, b) as int, a as int) && divides(
            gcd_spec(a, b) as int,
            b as int,
        ),
    decreases b,
{
    if b == 0 {
        if a > 0 {
            lemma_divides_intro(a as int, a as int, 1);
            lemma_divides_intro(a as int, 0, 0);
        }
    } else {
        let r = a % b;
        lemma_gcd_divides(b, r);
        let g = gcd_spec(b, r) as int;
        lemma_fundamental_div_mod(a as int, b as int);
        lemma_divides_lin(g, b as int, r as int, (a / b) as int, 1);
        assert((a / b) as int * b + 1 * r == a) by (nonlinear_arith)
            requires
                a == b * (a / b) + r,
        ;
    }
}

/// Every common divisor of `a` and `b` divides their gcd.
pub proof fn lemma_gcd_greatest(a: nat, b: nat, d: int)
    requires
        divides(d, a as int),
        divides(d, b as int),
    ensures
        divides(d, gcd_spec(a, b) as int),
    decreases b,
{
    if b > 0 {
        let r = a % b;
        lemma_fundamental_div_mod(a as int, b as int);
        lemma_divides_lin(d, a as int, b as int, 1, -((a / b) as int));
        assert(1 * a + (-((a / b) as int)) * b == r) by (nonlinear_arith)
            requires
                a == b * (a / b) + r,
        ;
        lemma_gcd_greatest(b, r, d);
    }
}

proof fn lemma_gcd_same(a: nat, b: nat, c: nat, e: nat)
    requires
        a > 0 || b > 0,
        c > 0 || e > 0,
        divides(gcd_spec(a, b) as int, c as int),
        divides(gcd_spec(a, b) as int, e as int),
        divides(gcd_spec(c, e) as int, a as int),
        divides(gcd_spec(c, e) as int, b as int),
    ensures
        gcd_spec(a, b) == gcd_spec(c, e),
{
    lemma_gcd_divides(a, b);
    lemma_gcd_divides(c, e);
    lemma_gcd_greatest(c, e, gcd_spec(a, b) as int);
    lemma_gcd_greatest(a, b, gcd_spec(c, e) as int);
    lemma_divides_antisym(gcd_spec(a, b) as int, gcd_spec(c, e) as int);
}

/// The gcd does not depend on the order of its arguments.
pub proof fn lemma_gcd_comm(a: nat, b: nat)
    ensures
        gcd_spec(a, b) == gcd_spec(b, a),
{
    if a > 0 || b > 0 {
        lemma_gcd_divides(a, b);
        lemma_gcd_divides(b, a);
        lemma_gcd_same(a, b, b, a);
    } else {
        assert(gcd_spec(0, 0) == 0);
    }
}

/// Scaling both arguments by `c` scales the gcd by `c`.
pub proof fn lemma_gcd_scale(c: nat, x: nat, y: nat)
    requires
        c > 0,
    ensures
        gcd_spec(c * x, c * y) == c * gcd_spec(x, y),
    decreases y,
{
    if y > 0 {
        let r = x % y;
        lemma_fundamental_div_mod(x as int, y as int);
        assert(c * x == (x / y) * (c * y) + c * r && 0 <= c * r < c * y) by (nonlinear_arith)
            requires
                x == y * (x / y) + r,
                0 <= r < y,
                c > 0,
        ;
        lemma_fundamental_div_mod_converse(
            (c * x) as int,
            (c * y) as int,
            (x / y) as int,
            (c * r) as int,
        );
        assert((c * x) % (c * y) == c * r);
        lemma_gcd_scale(c, y, r);
        assert(gcd_spec(c * x, c * y) == gcd_spec(c * y, c * r));
    } else {
        assert(c * y == 0) by (nonlinear_arith)
            requires
                y == 0,
        ;
    }
}

/// Subtracting the smaller argument from the larger keeps the gcd.
pub proof fn lemma_gcd_sub(a: nat, b: nat)
    requires
        a >= b > 0,
    ensures
        gcd_spec((a - b) as nat, b) == gcd_spec(a, b),
{
    lemma_mod_sub_multiples_vanish(a as int, b as int);
}

proof fn lemma_odd_divisor(g: int, y: int)
    requires
        divides(g, y),
        y % 2 == 1,
    ensures
        g % 2 == 1,
{
    lemma_divides_elim(g, y);
    if g % 2 == 0 {
        lemma_fundamental_div_mod(g, 2);
        let k = y / g;
        assert(y == ((g / 2) * k) * 2) by (nonlinear_arith)
            requires
                g == 2 * (g / 2) + 0,
                y == g * k,
        ;
        lemma_mod_multiples_basic((g / 2) * k, 2);
    }
}

proof fn lemma_odd_divides_half(g: int, z: int)
    requires
        g % 2 == 1,
        divides(g, 2 * z),
    ensures
        divides(g, z),
{
    lemma_divides_elim(g, 2 * z);
    let k = (2 * z) / g;
    lemma_fundamental_div_mod(k, 2);
    lemma_fundamental_div_mod(g, 2);
    if k % 2 == 1 {
        assert(2 * z == (g * (k / 2) + g / 2) * 2 + 1) by (nonlinear_arith)
            requires
                2 * z == g * k,
                k == 2 * (k / 2) + 1,
                g == 2 * (g / 2) + 1,
        ;
        lemma_fundamental_div_mod_converse(2 * z, 2, g * (k / 2) + g / 2, 1);
        lemma_fundamental_div_mod_converse(2 * z, 2, z, 0);
    }
    assert(z == g * (k / 2)) by (nonlinear_arith)
        requires
            2 * z == g * k,
            k == 2 * (k / 2) + 0,
    ;
    lemma_divides_intro(g, z, k / 2);
}

proof fn lemma_gcd_double_odd(z: nat, y: nat)
    requires
        y % 2 == 1,
    ensures
        gcd_spec(2 * z, y) == gcd_spec(z, y),
{
    lemma_gcd_divides(2 * z, y);
    lemma_gcd_divides(z, y);
    let g = gcd_spec(2 * z, y) as int;
    let h = gcd_spec(z, y) as int;
    lemma_odd_divisor(g, y as int);
    lemma_odd_divides_half(g, z as int);
    lemma_divides_lin(h, z as int, 0, 2, 0);
    lemma_divides_intro(h, 0, 0);
    lemma_gcd_same(2 * z, y, z, y);
}

/// Removing a power of two from one argument keeps the gcd when the other is odd.
proof fn lemma_gcd_pow2_odd(k: nat, z: nat, y: nat)
    requires
        y % 2 == 1,
    ensures
        gcd_spec(pow2(k) * z, y) == gcd_spec(z, y),
    decreases k,
{
    if k == 0 {
        lemma2_to64();
    } else {
        lemma_pow2_unfold(k);
        let w = pow2((k - 1) as nat) * z;
        assert(pow2(k) * z == 2 * w) by (nonlinear_arith)
            requires
                pow2(k) == 2 * pow2((k - 1) as nat),
                w == pow2((k - 1) as nat) * z,
        ;
        lemma_gcd_double_odd(w, y);
        lemma_gcd_pow2_odd((k - 1) as nat, z, y);
    }
}

proof fn lemma_low_bits_zero(x: u16, k: nat)
    requires
        x != 0,
        k <= u16_trailing_zeros(x),
    ensures
        divides(pow2(k) as int, x as int),
    decreases k,
{
    axiom_u16_trailing_zeros(x);
    lemma_pow2_pos(k);
    if k == 0 {
        lemma2_to64();
        lemma_divides_intro(1, x as int, x as int);
    } else {
        let j = (k - 1) as nat;
        lemma_low_bits_zero(x, j);
        lemma_pow2_pos(j);
        lemma_divides_elim(pow2(j) as int, x as int);
        let ju = j as u16;
        lemma_u16_shr_is_div(x, ju);
        assert((x >> ju) & 1u16 == 0u16);
        let q = x >> ju;
        assert(q & 1u16 == 0u16 ==> q % 2 == 0) by (bit_vector);
        lemma_fundamental_div_mod(q as int, 2);
        lemma_pow2_unfold(k);
        assert(x == pow2(k) * (q / 2)) by (nonlinear_arith)
            requires
                x == pow2(j) * q,
                q == 2 * (q / 2) + 0,
                pow2(k) == 2 * pow2(j),
        ;
        lemma_divides_intro(pow2(k) as int, x as int, (q / 2) as int);
    }
}

/// A nonzero value is its odd part shifted left by its trailing zeros.
proof fn lemma_trailing_zeros(x: u16)
    requires
        x != 0,
    ensures
        u16_trailing_zeros(x) < 16,
        x == pow2(u16_trailing_zeros(x) as nat) * (x >> (u16_trailing_zeros(x) as u16)),
        (x >> (u16_trailing_zeros(x) as u16)) % 2 == 1,
{
    axiom_u16_trailing_zeros(x);
    let t = u16_trailing_zeros(x);
    let tu = t as u16;
    lemma_low_bits_zero(x, t as nat);
    lemma_divides_elim(pow2(t as nat) as int, x as int);
    lemma_u16_shr_is_div(x, tu);
    let q = x >> tu;
    assert(q & 1u16 == 1u16 ==> q % 2 == 1) by (bit_vector);
}

/// The shared power of two of `a` and `b` is the smaller of their trailing zeros.
proof fn lemma_trailing_zeros_or(a: u16, b: u16)
    requires
        a != 0,
        b != 0,
    ensures
        u16_trailing_zeros(a | b) == if u16_trailing_zeros(a) <= u16_trailing_zeros(b) {
            u16_trailing_zeros(a)
        } else {
            u16_trailing_zeros(b)
        },
{
    axiom_u16_trailing_zeros(a);
    axiom_u16_trailing_zeros(b);
    axiom_u16_trailing_zeros(a | b);
    let ta = u16_trailing_zeros(a);
    let tb = u16_trailing_zeros(b);
    let t = u16_trailing_zeros(a | b);
    let m = if ta <= tb { ta } else { tb };
    assert(a | b != 0) by (bit_vector)
        requires
            a != 0,
    ;
    if t < m {
        let j = t as u16;
        assert((a >> j) & 1u16 == 0u16);
        assert((b >> j) & 1u16 == 0u16);
        assert(((a | b) >> j) & 1u16 == 0u16) by (bit_vector)
            requires
                (a >> j) & 1u16 == 0u16,
                (b >> j) & 1u16 == 0u16,
        ;
    } else if t > m {
        let j = m as u16;
        assert(((a | b) >> j) & 1u16 == 0u16);
        if ta <= tb {
            assert((a >> j) & 1u16 == 1u16);
            assert(((a | b) >> j) & 1u16 == 1u16) by (bit_vector)
                requires
                    (a >> j) & 1u16 == 1u16,
            ;
        } else {
            assert((b >> j) & 1u16 == 1u16);
            assert(((a | b) >> j) & 1u16 == 1u16) by (bit_vector)
                requires
                    (b >> j) & 1u16 == 1u16,
            ;
        }
    }
}

pub(crate) proof fn lemma_gcd_self(x: nat)
    ensures
        gcd_spec(x, x) == x,
{
    if x > 0 {
        assert(x % x == 0) by (nonlinear_arith)
            requires
                x > 0,
        ;
        assert(gcd_spec(x, x) == gcd_spec(x, 0));
    }
}

/// Splits off the shared power of two: `gcd(a, b) == 2^s * gcd(odd parts)`.
proof fn lemma_gcd_odd_parts(a: u16, b: u16)
    requires
        a != 0,
        b != 0,
    ensures
        ({
            let ta = u16_trailing_zeros(a);
            let tb = u16_trailing_zeros(b);
            let s = u16_trailing_zeros(a | b);
            gcd_spec(a as nat, b as nat) == pow2(s as nat) * gcd_spec(
                (a >> (ta as u16)) as nat,
                (b >> (tb as u16)) as nat,
            )
        }),
{
    lemma_trailing_zeros(a);
    lemma_trailing_zeros(b);
    lemma_trailing_zeros_or(a, b);
    let ta = u16_trailing_zeros(a) as nat;
    let tb = u16_trailing_zeros(b) as nat;
    let s = u16_trailing_zeros(a | b) as nat;
    let x = (a >> (ta as u16)) as nat;
    let y = (b >> (tb as u16)) as nat;
    lemma_pow2_pos(s);
    if ta <= tb {
        let k = (tb - s) as nat;
        lemma_pow2_adds(s, k);
        assert(b == pow2(s) * (pow2(k) * y)) by (nonlinear_arith)
            requires
                b == pow2(tb) * y,
                pow2(tb) == pow2(s) * pow2(k),
        ;
        lemma_gcd_scale(pow2(s), x, pow2(k) * y);
        lemma_gcd_comm(x, pow2(k) * y);
        lemma_gcd_pow2_odd(k, y, x);
        lemma_gcd_comm(y, x);
    } else {
        let k = (ta - s) as nat;
        lemma_pow2_adds(s, k);
        assert(a == pow2(s) * (pow2(k) * x)) by (nonlinear_arith)
            requires
                a == pow2(ta) * x,
                pow2(ta) == pow2(s) * pow2(k),
        ;
        lemma_gcd_scale(pow2(s), pow2(k) * x, y);
        lemma_gcd_pow2_odd(k, x, y);
    }
}

/// Greatest common divisor by Stein's binary algorithm: only subtraction and shifts.
pub fn gcd(a: u16, b: u16) -> (r: u16)
    ensures
        r == gcd_spec(a as nat, b as nat),
{
    if a == 0 || b == 0 {
        proof {
            lemma_gcd_comm(a as nat, b as nat);
            assert(a == 0 ==> a | b == b) by (bit_vector);
            assert(b == 0 ==> a | b == a) by (bit_vector);
        }
        return a | b;
    }
    let shift = (a | b).trailing_zeros() as u16;
    let ta = a.trailing_zeros() as u16;
    let tb = b.trailing_zeros() as u16;
    proof {
        lemma_gcd_odd_parts(a, b);
        lemma_trailing_zeros(a);
        lemma_trailing_zeros(b);
        lemma_trailing_zeros_or(a, b);
    }
    let mut x: u16 = a >> ta;
    let mut y: u16 = b >> tb;
    let ghost odd_gcd = gcd_spec(x as nat, y as nat);
    while x != y
        invariant
            x % 2 == 1,
            y % 2 == 1,
            gcd_spec(x as nat, y as nat) == odd_gcd,
        decreases x + y,
    {
        if x > y {
            let diff = x - y;
            proof {
                assert(diff != 0);
                lemma_trailing_zeros(diff);
                lemma_gcd_sub(x as nat, y as nat);
            }
            let t = diff.trailing_zeros() as u16;
            x = diff >> t;
            proof {
                lemma_gcd_pow2_odd(t as nat, x as nat, y as nat);
                lemma_pow2_pos(t as nat);
                assert(x <= diff) by (nonlinear_arith)
                    requires
                        diff == pow2(t as nat) * x,
                        pow2(t as nat) > 0,
                ;
            }
        } else {
            let diff = y - x;
            proof {
                assert(diff != 0);
                lemma_trailing_zeros(diff);
                lemma_gcd_sub(y as nat, x as nat);
                lemma_gcd_comm(x as nat, y as nat);
                lemma_gcd_comm(x as nat, diff as nat);
            }
            let t = diff.trailing_zeros() as u16;
            y = diff >> t;
            proof {
                lemma_gcd_pow2_odd(t as nat, y as nat, x as nat);
                lemma_gcd_comm(x as nat, y as nat);
                lemma_pow2_pos(t as nat);
                assert(y <= diff) by (nonlinear_arith)
                    requires
                        diff == pow2(t as nat) * y,
                        pow2(t as nat) > 0,
                ;
            }
        }
    }
    proof {
        lemma_gcd_self(x as nat);
        lemma_gcd_divides(a as nat, b as nat);
        lemma_divides_le(gcd_spec(a as nat, b as nat) as int, a as int);
        assert(x as nat == odd_gcd);
        assert(pow2(shift as nat) * x == gcd_spec(a as nat, b as nat));
        assert(x * pow2(shift as nat) <= u16::MAX) by (nonlinear_arith)
            requires
                pow2(shift as nat) * x <= a,
                a <= u16::MAX,
        ;
        lemma_u16_shl_is_mul(x, shift);
        assert(x * pow2(shift as nat) == pow2(shift as nat) * x) by (nonlinear_arith);
    }
    x << shift
}

/// Least common multiple, as `a / gcd(a, b) * b`, which is `a * b / gcd(a, b)`
/// without forming the product.
pub fn lcm(a: u16, b: u16) -> (r: u16)
    requires
        a != 0 || b != 0,
        lcm_spec(a as nat, b as nat) <= u16::MAX,
    ensures
        r == lcm_spec(a as nat, b as nat),
{
    let g = gcd(a, b);
    proof {
        lemma_gcd_divides(a as nat, b as nat);
        lemma_divides_elim(g as int, a as int);
        let p = a as int / g as int;
        assert(a as int * b as int == (p * b) * g + 0 && p * b >= 0) by (nonlinear_arith)
            requires
                a as int == g as int * p,
                p >= 0,
        ;
        lemma_fundamental_div_mod_converse(a as int * b as int, g as int, p * b, 0);
    }
    a / g * b
}

/// The gcd is symmetric, `gcd(a, 0) == a`, and `gcd(0, 0) == 0`.
pub proof fn lemma_gcd_laws(a: nat, b: nat)
    ensures
        gcd_spec(a, b) == gcd_spec(b, a),
        gcd_spec(a, 0) == a,
        gcd_spec(0, 0) == 0,
{
    lemma_gcd_comm(a, b);
}

/// The lcm times the gcd is the product of the two arguments.
pub proof fn lemma_lcm_times_gcd(a: nat, b: nat)
    ensures
        lcm_spec(a, b) * gcd_spec(a, b) == a * b,
{
    lemma_gcd_divides(a, b);
    let g = gcd_spec(a, b);
    if g > 0 {
        lemma_divides_lin(g as int, a as int, 0, b as int, 0);
        assert(b * a + 0 * 0 == a * b) by (nonlinear_arith);
        lemma_divides_elim(g as int, (a * b) as int);
        assert((a * b) / g * g == a * b) by (nonlinear_arith)
            requires
                a * b == g * ((a * b) / g),
        ;
    } else {
        assert(a * b == 0) by (nonlinear_arith)
            requires
                a == 0,
        ;
    }
}

} // verus!

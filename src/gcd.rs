//! Greatest common divisors of machine integers, by Euclid's remainders and
//! by Stein's binary method, and the coprimality test built on them.

use vstd::prelude::*;
use vstd::arithmetic::div_mod::{
    lemma_fundamental_div_mod,
    lemma_fundamental_div_mod_converse,
    lemma_mod_multiples_basic,
};
use vstd::arithmetic::power2::{lemma_pow2_pos, lemma_pow2_unfold, pow2};

verus! {

/// The greatest common divisor, by Euclid's recursion; `gcd(a, 0) == a`.
pub open spec fn gcd(a: nat, b: nat) -> nat
    decreases b,
{
    if b == 0 {
        a
    } else {
        gcd(b, a % b)
    }
}

/// `d` divides `x`; zero divides only zero.
pub open spec fn divides(d: nat, x: nat) -> bool {
    if d == 0 {
        x == 0
    } else {
        x % d == 0
    }
}

proof fn lemma_divides_combination(d: nat, x: nat, y: nat, p: int, q: int, z: nat)
    requires
        divides(d, x),
        divides(d, y),
        z == p * x + q * y,
    ensures
        divides(d, z),
{
    if d == 0 {
        assert(z == 0) by (nonlinear_arith)
            requires
                z == p * x + q * y,
                x == 0,
                y == 0;
    } else {
        lemma_fundamental_div_mod(x as int, d as int);
        lemma_fundamental_div_mod(y as int, d as int);
        let k = p * (x / d) + q * (y / d);
        assert(z == k * d) by (nonlinear_arith)
            requires
                z == p * x + q * y,
                x == d * (x / d) + x % d,
                y == d * (y / d) + y % d,
                x % d == 0,
                y % d == 0,
                k == p * (x / d) + q * (y / d);
        lemma_mod_multiples_basic(k, d as int);
    }
}

proof fn lemma_divides_antisymmetric(x: nat, y: nat)
    requires
        divides(x, y),
        divides(y, x),
    ensures
        x == y,
{
    if x != 0 && y != 0 {
        lemma_fundamental_div_mod(x as int, y as int);
        lemma_fundamental_div_mod(y as int, x as int);
        assert(x == y) by (nonlinear_arith)
            requires
                x > 0,
                y > 0,
                x == y * (x / y),
                y == x * (y / x),
        ;
    }
}

/// `gcd(a, b)` divides both `a` and `b`.
pub proof fn lemma_gcd_divides(a: nat, b: nat)
    ensures
        divides(gcd(a, b), a),
        divides(gcd(a, b), b),
    decreases b,
{
    let g = gcd(a, b);
    if b == 0 {
        if a != 0 {
            lemma_mod_multiples_basic(1, a as int);
        }
    } else {
        lemma_gcd_divides(b, a % b);
        lemma_fundamental_div_mod(a as int, b as int);
        lemma_divides_combination(g, b, a % b, (a / b) as int, 1, a);
    }
}

/// Every common divisor of `a` and `b` divides `gcd(a, b)`.
pub proof fn lemma_common_divisor_divides_gcd(a: nat, b: nat, d: nat)
    requires
        divides(d, a),
        divides(d, b),
    ensures
        divides(d, gcd(a, b)),
    decreases b,
{
    if b != 0 {
        lemma_fundamental_div_mod(a as int, b as int);
        let q = (a / b) as int;
        let r = (a % b) as int;
        assert(r == 1 * a + (-q) * b) by (nonlinear_arith)
            requires
                a == b * q + r,
        ;
        lemma_divides_combination(d, a, b, 1, -((a / b) as int), a % b);
        lemma_common_divisor_divides_gcd(b, a % b, d);
    }
}

/// Two pairs whose gcds divide each other's members have the same gcd.
proof fn lemma_gcd_same(a: nat, b: nat, c: nat, e: nat)
    requires
        divides(gcd(a, b), c),
        divides(gcd(a, b), e),
        divides(gcd(c, e), a),
        divides(gcd(c, e), b),
    ensures
        gcd(a, b) == gcd(c, e),
{
    lemma_common_divisor_divides_gcd(c, e, gcd(a, b));
    lemma_common_divisor_divides_gcd(a, b, gcd(c, e));
    lemma_divides_antisymmetric(gcd(a, b), gcd(c, e));
}

pub proof fn lemma_gcd_commutative(a: nat, b: nat)
    ensures
        gcd(a, b) == gcd(b, a),
{
    lemma_gcd_divides(a, b);
    lemma_gcd_divides(b, a);
    lemma_gcd_same(a, b, b, a);
}

/// Subtracting the smaller argument keeps the gcd.
pub proof fn lemma_gcd_subtract(a: nat, b: nat)
    requires
        a <= b,
    ensures
        gcd(a, b) == gcd(a, (b - a) as nat),
{
    let c = (b - a) as nat;
    lemma_gcd_divides(a, b);
    lemma_gcd_divides(a, c);
    lemma_divides_combination(gcd(a, b), a, b, -1, 1, c);
    lemma_divides_combination(gcd(a, c), a, c, 1, 1, b);
    lemma_gcd_same(a, b, a, c);
}

/// Against an odd number, a factor two of the other argument does not count.
pub proof fn lemma_gcd_odd_halve(a: nat, c: nat)
    requires
        a % 2 == 1,
    ensures
        gcd(a, 2 * c) == gcd(a, c),
{
    let g = gcd(a, 2 * c);
    lemma_gcd_divides(a, 2 * c);
    lemma_gcd_divides(a, c);
    lemma_divides_combination(gcd(a, c), a, c, 0, 2, 2 * c);
    // g divides a, which is odd, so g is odd; g divides 2c, hence c.
    assert(g != 0);
    lemma_fundamental_div_mod(a as int, g as int);
    lemma_fundamental_div_mod((2 * c) as int, g as int);
    let k = (2 * c) / g;
    let i = a / g;
    assert(g % 2 == 1) by (nonlinear_arith)
        requires
            a == g * i,
            a % 2 == 1,
            g > 0,
    {
        if g % 2 == 0 {
            assert(a == 2 * ((g / 2) * i));
        }
    }
    assert(k % 2 == 0) by (nonlinear_arith)
        requires
            2 * c == g * k,
            g % 2 == 1,
            k >= 0,
    {
        if k % 2 == 1 {
            assert(g * k == 2 * (2 * (g / 2) * (k / 2) + g / 2 + k / 2) + 1);
        }
    }
    assert(c == (k / 2) * g) by (nonlinear_arith)
        requires
            2 * c == g * k,
            k % 2 == 0,
    ;
    lemma_mod_multiples_basic((k / 2) as int, g as int);
    lemma_gcd_same(a, 2 * c, a, c);
}

/// A common factor two comes out of the gcd.
pub proof fn lemma_gcd_double(a: nat, b: nat)
    ensures
        gcd(2 * a, 2 * b) == 2 * gcd(a, b),
    decreases b,
{
    if b != 0 {
        lemma_fundamental_div_mod(a as int, b as int);
        assert((2 * a) as int == ((a / b) as int) * ((2 * b) as int) + (2 * (a % b)) as int
            && 0 <= 2 * (a % b) < 2 * b) by (nonlinear_arith)
            requires
                a == b * (a / b) + a % b,
                0 <= a % b < b,
        ;
        lemma_fundamental_div_mod_converse((2 * a) as int, (2 * b) as int, (a / b) as int, (2 * (a % b)) as int);
        lemma_gcd_double(b, a % b);
    }
}

/// `gcd(a, b)` is no larger than a non-zero `a`.
proof fn lemma_gcd_at_most(a: nat, b: nat)
    requires
        a != 0,
    ensures
        gcd(a, b) <= a,
{
    lemma_gcd_divides(a, b);
    let g = gcd(a, b);
    lemma_fundamental_div_mod(a as int, g as int);
    assert(g <= a) by (nonlinear_arith)
        requires
            g > 0,
            a > 0,
            a == g * (a / g),
    ;
}

/// The greatest common divisor by Euclid's remainders.
pub fn euclidean_gcd(a: u64, b: u64) -> (r: u64)
    ensures
        r == gcd(a as nat, b as nat),
{
    let mut x: u64 = a;
    let mut y: u64 = b;
    while y != 0
        invariant
            gcd(x as nat, y as nat) == gcd(a as nat, b as nat),
        decreases y,
    {
        let t = x % y;
        x = y;
        y = t;
    }
    x
}

/// The greatest common divisor by Stein's binary method: strip the common
/// factors of two, then subtract odd values until one is zero.
pub fn binary_gcd(a: u64, b: u64) -> (r: u64)
    ensures
        r == gcd(a as nat, b as nat),
{
    if a == 0 {
        proof {
            lemma_gcd_commutative(0, b as nat);
        }
        return b;
    }
    if b == 0 {
        return a;
    }
    let mut x: u64 = a;
    let mut y: u64 = b;
    let mut shift: u32 = 0;
    proof {
        lemma_pow2_pos(0);
        vstd::arithmetic::power2::lemma2_to64();
    }
    while x % 2 == 0 && y % 2 == 0
        invariant
            x != 0,
            y != 0,
            x <= a,
            shift < 64,
            pow2(shift as nat) * x <= a,
            gcd(a as nat, b as nat) == pow2(shift as nat) * gcd(x as nat, y as nat),
        decreases x,
    {
        proof {
            lemma_gcd_double((x / 2) as nat, (y / 2) as nat);
            assert(x as nat == 2 * ((x / 2) as nat) && y as nat == 2 * ((y / 2) as nat));
            lemma_pow2_unfold((shift + 1) as nat);
            assert(pow2(shift as nat) * gcd(x as nat, y as nat) == pow2((shift + 1) as nat) * gcd((x / 2) as nat, (y / 2) as nat)) by (nonlinear_arith)
                requires
                    gcd(x as nat, y as nat) == 2 * gcd((x / 2) as nat, (y / 2) as nat),
                    pow2((shift + 1) as nat) == 2 * pow2(shift as nat),
            ;
            lemma_pow2_unfold((shift + 1) as nat);
            lemma_pow2_pos(shift as nat);
            assert(pow2((shift + 1) as nat) <= a) by (nonlinear_arith)
                requires
                    pow2((shift + 1) as nat) == 2 * pow2(shift as nat),
                    pow2(shift as nat) * x <= a,
                    x >= 2,
            ;
            assert(a < pow2(64)) by {
                vstd::arithmetic::power2::lemma2_to64();
            }
            if shift + 1 >= 64 {
                vstd::arithmetic::power2::lemma_pow2_strictly_increases(64, (shift + 1) as nat);
            }
            assert(pow2((shift + 1) as nat) * (x / 2) <= a) by (nonlinear_arith)
                requires
                    pow2((shift + 1) as nat) == 2 * pow2(shift as nat),
                    pow2(shift as nat) * x <= a,
                    x % 2 == 0,
            ;
        }
        x = x / 2;
        y = y / 2;
        shift = shift + 1;
    }
    let ghost g0 = gcd(x as nat, y as nat);
    if x % 2 == 0 {
        // y is odd: factors two of x do not count.
        while x % 2 == 0
            invariant
                x != 0,
                y % 2 == 1,
                gcd(x as nat, y as nat) == g0,
                shift < 64,
                gcd(a as nat, b as nat) == pow2(shift as nat) * g0,
            decreases x,
        {
            proof {
                lemma_gcd_commutative(x as nat, y as nat);
                lemma_gcd_odd_halve(y as nat, (x / 2) as nat);
                lemma_gcd_commutative((x / 2) as nat, y as nat);
            }
            x = x / 2;
        }
    }
    while y != 0
        invariant
            x % 2 == 1,
            gcd(x as nat, y as nat) == g0,
            shift < 64,
            gcd(a as nat, b as nat) == pow2(shift as nat) * g0,
        decreases x + y,
    {
        let ghost y_before = y;
        while y % 2 == 0
            invariant
                y != 0,
                y <= y_before,
                x % 2 == 1,
                gcd(x as nat, y as nat) == g0,
            decreases y,
        {
            proof {
                lemma_gcd_odd_halve(x as nat, (y / 2) as nat);
                assert(y as nat == 2 * ((y / 2) as nat));
            }
            y = y / 2;
        }
        if x > y {
            proof {
                lemma_gcd_commutative(x as nat, y as nat);
            }
            let t = x;
            x = y;
            y = t;
        }
        proof {
            lemma_gcd_subtract(x as nat, y as nat);
        }
        y = y - x;
    }
    proof {
        lemma_gcd_at_most(a as nat, b as nat);
        lemma_pow2_pos(shift as nat);
        assert(pow2(shift as nat) * x <= a) by (nonlinear_arith)
            requires
                gcd(a as nat, b as nat) == pow2(shift as nat) * x,
                gcd(a as nat, b as nat) <= a,
        ;
        vstd::arithmetic::power2::lemma2_to64();
    }
    crate::gcd::shift_left(x, shift)
}

/// `x << shift` where the result is known to fit.
fn shift_left(x: u64, shift: u32) -> (r: u64)
    requires
        shift < 64,
        pow2(shift as nat) * x <= u64::MAX,
    ensures
        r == pow2(shift as nat) * x,
{
    proof {
        assert(x * pow2(shift as nat) <= u64::MAX) by (nonlinear_arith)
            requires
                pow2(shift as nat) * x <= u64::MAX,
        ;
        vstd::bits::lemma_u64_shl_is_mul(x, shift as u64);
    }
    x << (shift as u64)
}

/// Whether `a` and `b` share no factor but 1.
pub fn is_coprime(a: u64, b: u64) -> (r: bool)
    ensures
        r == (gcd(a as nat, b as nat) == 1),
{
    binary_gcd(a, b) == 1
}

} // verus!

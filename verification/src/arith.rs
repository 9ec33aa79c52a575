//! Congruence groundwork shared by the modular helpers and the Montgomery
//! contexts: substitution under multiplication and exponentiation,
//! cancellation of powers of two modulo an odd number, the Newton–Hensel
//! lifting step for the 2-adic inverse, and the core reduction argument.

use vstd::prelude::*;

verus! {

use vstd::arithmetic::div_mod::{
    lemma_fundamental_div_mod, lemma_mod_multiples_basic, lemma_mod_equivalence,
    lemma_mul_mod_noop_general, lemma_mod_multiples_vanish, lemma_multiply_divide_lt,
    lemma_div_pos_is_pos, lemma_small_mod, lemma_mod_bound, lemma_mod_pos_bound,
    lemma_mod_twice, lemma_mod_mod,
};
use vstd::arithmetic::mul::{lemma_mul_is_associative, lemma_mul_is_commutative,
    lemma_mul_inequality};
use vstd::arithmetic::power::{pow, lemma_pow_mod_noop, lemma_pow_multiplies, lemma_pow_adds,
    lemma_pow1};
use vstd::arithmetic::power2::{pow2, lemma_pow2_unfold, lemma_pow2_adds, lemma_pow2_pos,
    lemma2_to64};

/// Congruent factors give congruent products.
pub(crate) proof fn lemma_mul_congruence(x1: int, x2: int, y1: int, y2: int, m: int)
    requires
        m > 0,
        x1 % m == x2 % m,
        y1 % m == y2 % m,
    ensures
        (x1 * y1) % m == (x2 * y2) % m,
{
    lemma_mul_mod_noop_general(x1, y1, m);
    lemma_mul_mod_noop_general(x2, y2, m);
}

/// Congruent bases give congruent powers.
pub(crate) proof fn lemma_pow_congruence(b1: int, b2: int, e: nat, m: int)
    requires
        m > 0,
        b1 % m == b2 % m,
    ensures
        pow(b1, e) % m == pow(b2, e) % m,
{
    lemma_pow_mod_noop(b1, e, m);
    lemma_pow_mod_noop(b2, e, m);
}

/// One round of binary exponentiation leaves the running product
/// untouched as an integer: splitting off the exponent's low bit and
/// squaring the base rewrites `y * x^p` without changing its value.
pub(crate) proof fn lemma_square_and_multiply_values(x: int, y: int, p: nat)
    requires
        p > 0,
    ensures
        p % 2 == 1 ==> (y * x) * pow(x * x, (p / 2) as nat) == y * pow(x, p),
        p % 2 == 0 ==> y * pow(x * x, (p / 2) as nat) == y * pow(x, p),
{
    let h = (p / 2) as nat;
    lemma_pow_multiplies(x, 2, h);
    assert(pow(x, 2) == x * x) by {
        lemma_pow_adds(x, 1, 1);
        lemma_pow1(x);
    };
    assert(pow(x * x, h) == pow(x, 2 * h));
    if p % 2 == 1 {
        assert(p == 2 * h + 1);
        lemma_pow_adds(x, 1, 2 * h);
        lemma_pow1(x);
        assert(pow(x, p) == x * pow(x, 2 * h));
        assert((y * x) * pow(x, 2 * h) == y * (x * pow(x, 2 * h))) by {
            lemma_mul_is_associative(y, x, pow(x, 2 * h));
        };
    } else {
        assert(p == 2 * h);
    }
}

/// The modular image of one binary-exponentiation round.
pub(crate) proof fn lemma_square_and_multiply_step(x: int, y: int, p: nat, g: int, m: int)
    requires
        m > 0,
        p > 0,
        (y * pow(x, p)) % m == g,
    ensures
        p % 2 == 1 ==> ((y * x) * pow(x * x, (p / 2) as nat)) % m == g,
        p % 2 == 0 ==> (y * pow(x * x, (p / 2) as nat)) % m == g,
{
    lemma_square_and_multiply_values(x, y, p);
}

/// An even multiple of an odd number is an even number of times that
/// number: if `n` is odd and divides `2d`, it already divides `d`.
pub(crate) proof fn lemma_odd_divides_half(d: int, n: int)
    requires
        n % 2 == 1,
        n > 0,
        (2 * d) % n == 0,
    ensures
        d % n == 0,
{
    let q = (2 * d) / n;
    lemma_fundamental_div_mod(2 * d, n);
    assert(2 * d == n * q);
    let h = q / 2;
    lemma_fundamental_div_mod(q, 2);
    if q % 2 == 0 {
        assert(q == 2 * h);
        assert(n * (2 * h) == 2 * (n * h)) by (nonlinear_arith);
        assert(d == n * h);
        assert(n * h == h * n) by {
            lemma_mul_is_commutative(n, h);
        };
        lemma_mod_multiples_basic(h, n);
    } else {
        assert(q == 2 * h + 1);
        assert(n * (2 * h + 1) == 2 * (n * h) + n) by (nonlinear_arith);
        assert(n == 2 * (d - n * h));
        assert(n == (d - n * h) * 2) by {
            lemma_mul_is_commutative(2, d - n * h);
        };
        lemma_mod_multiples_basic(d - n * h, 2);
        assert(n % 2 == 0);
        assert(false);
    }
}

/// A power of two can be cancelled from a congruence modulo an odd number.
pub(crate) proof fn lemma_odd_cancel_pow2(a: int, b: int, s: nat, n: int)
    requires
        n % 2 == 1,
        n > 0,
        (a * (pow2(s) as int)) % n == (b * (pow2(s) as int)) % n,
    ensures
        a % n == b % n,
    decreases s,
{
    if s == 0 {
        lemma2_to64();
        vstd::arithmetic::mul::lemma_mul_basics(a);
        vstd::arithmetic::mul::lemma_mul_basics(b);
        assert(a * (pow2(0) as int) == a);
        assert(b * (pow2(0) as int) == b);
    } else {
        let t = (s - 1) as nat;
        lemma_pow2_unfold(s);
        let pt = pow2(t) as int;
        assert(a * (2 * pt) == 2 * (a * pt)) by (nonlinear_arith);
        assert(b * (2 * pt) == 2 * (b * pt)) by (nonlinear_arith);
        lemma_mod_equivalence(a * (pow2(s) as int), b * (pow2(s) as int), n);
        assert((2 * (a * pt - b * pt)) % n == 0);
        lemma_odd_divides_half(a * pt - b * pt, n);
        lemma_mod_equivalence(a * pt, b * pt, n);
        lemma_odd_cancel_pow2(a, b, t, n);
    }
}

/// Divisibility by a power of two carries down to smaller powers.
pub(crate) proof fn lemma_pow2_divides_weaken(v: int, c: nat, d: nat)
    requires
        d <= c,
        v % (pow2(c) as int) == 0,
    ensures
        v % (pow2(d) as int) == 0,
{
    let k = v / (pow2(c) as int);
    lemma_pow2_pos(c);
    lemma_pow2_pos(d);
    lemma_pow2_pos((c - d) as nat);
    lemma_fundamental_div_mod(v, pow2(c) as int);
    assert(v == (pow2(c) as int) * k);
    lemma_pow2_adds(d, (c - d) as nat);
    let pd = pow2(d) as int;
    let pe = pow2((c - d) as nat) as int;
    assert((pd * pe) * k == (pe * k) * pd) by (nonlinear_arith);
    lemma_mod_multiples_basic(pe * k, pd);
}

/// No odd number above 1 divides a power of two.
pub(crate) proof fn lemma_pow2_mod_odd_positive(k: nat, n: int)
    requires
        n % 2 == 1,
        n > 1,
    ensures
        0 < (pow2(k) as int) % n < n,
{
    lemma_pow2_pos(k);
    lemma_mod_pos_bound(pow2(k) as int, n);
    if (pow2(k) as int) % n == 0 {
        assert((1 * (pow2(k) as int)) % n == (0 * (pow2(k) as int)) % n) by {
            assert(1 * (pow2(k) as int) == pow2(k) as int);
            assert(0 * (pow2(k) as int) == 0);
            lemma_small_mod(0, n as nat);
        };
        lemma_odd_cancel_pow2(1, 0, k, n);
        lemma_small_mod(1, n as nat);
        lemma_small_mod(0, n as nat);
        assert(false);
    }
}

/// The square of an odd number is 1 modulo 8.
pub(crate) proof fn lemma_odd_square_mod_eight(n: int)
    requires
        n % 2 == 1,
    ensures
        (n * n) % 8 == 1,
{
    let r = n % 8;
    lemma_mul_mod_noop_general(n, n, 8);
    assert(r % 2 == 1) by {
        lemma_mod_mod(n, 2, 4);
    };
    assert(0 <= r < 8) by {
        lemma_mod_bound(n, 8);
    };
    assert((r * r) % 8 == 1) by (nonlinear_arith)
        requires
            r % 2 == 1,
            0 <= r < 8,
    ;
}

/// The 3-bit seed of the 2-adic inverse: any value congruent to `-n`
/// modulo 8 satisfies `n * x == -1 (mod 8)` when `n` is odd.
pub(crate) proof fn lemma_inverse_seed(n: int, x: int)
    requires
        n % 2 == 1,
        x % 8 == (-n) % 8,
    ensures
        (n * x + 1) % 8 == 0,
{
    lemma_mul_congruence(n, n, x, -n, 8);
    assert(n * (-n) == (-1) * (n * n)) by (nonlinear_arith);
    lemma_odd_square_mod_eight(n);
    assert(((-1) * (n * n)) % 8 == ((-1) * 1) % 8) by {
        lemma_mul_congruence(-1, -1, n * n, 1, 8);
        lemma_small_mod(1, 8);
    };
    lemma_mod_equivalence(n * x, -1, 8);
}

/// The Newton–Hensel doubling step: from an inverse correct to `b` bits,
/// `x * (n * x + 2)` is correct to `2b` bits, because
/// `n * x * (n * x + 2) + 1 == (n * x + 1)^2`.
pub(crate) proof fn lemma_hensel_square(n: int, x: int, b: nat)
    requires
        (n * x + 1) % (pow2(b) as int) == 0,
    ensures
        (n * (x * (n * x + 2)) + 1) % (pow2(2 * b) as int) == 0,
{
    let r = pow2(b) as int;
    lemma_pow2_pos(b);
    let k = (n * x + 1) / r;
    lemma_fundamental_div_mod(n * x + 1, r);
    assert(n * x + 1 == r * k);
    assert(n * (x * (n * x + 2)) + 1 == (n * x + 1) * (n * x + 1)) by (nonlinear_arith);
    assert((r * k) * (r * k) == (k * k) * (r * r)) by (nonlinear_arith);
    lemma_pow2_adds(b, b);
    assert(pow2(2 * b) as int == r * r);
    lemma_pow2_pos(2 * b);
    lemma_mod_multiples_basic(k * k, pow2(2 * b) as int);
}

/// Working modulo `2^w` loses nothing below `2^c`: a value congruent to
/// the exact lifting step modulo `2^w` satisfies the same divisibility.
pub(crate) proof fn lemma_lift_carries_over(n: int, t: int, tw: int, c: nat, w: nat)
    requires
        c <= w,
        (n * t + 1) % (pow2(c) as int) == 0,
        tw % (pow2(w) as int) == t % (pow2(w) as int),
    ensures
        (n * tw + 1) % (pow2(c) as int) == 0,
{
    lemma_pow2_pos(c);
    lemma_pow2_pos(w);
    lemma_mul_congruence(n, n, tw, t, pow2(w) as int);
    lemma_mod_equivalence(n * tw, n * t, pow2(w) as int);
    lemma_pow2_divides_weaken(n * tw - n * t, w, c);
    lemma_mod_equivalence(n * tw + 1, n * t + 1, pow2(c) as int);
}

/// Reducing the inner sum of the lifting step before the outer
/// multiplication does not change the result modulo `2^w`.
pub(crate) proof fn lemma_lift_step_composes(n: int, x: int, inner: int, w: nat)
    requires
        inner % (pow2(w) as int) == (n * x + 2) % (pow2(w) as int),
    ensures
        (inner * x) % (pow2(w) as int) == (x * (n * x + 2)) % (pow2(w) as int),
{
    lemma_pow2_pos(w);
    lemma_mul_congruence(inner, n * x + 2, x, x, pow2(w) as int);
    assert((n * x + 2) * x == x * (n * x + 2)) by {
        lemma_mul_is_commutative(n * x + 2, x);
    };
}

/// The heart of Montgomery reduction: with `t` built from the low half of
/// `x` and the negated inverse `np`, the sum `x + n*t` is an exact
/// multiple of the radix, and the quotient is congruent modulo `n` and
/// stays below `2n`.
pub(crate) proof fn lemma_redc(n: int, s: nat, np: int, x: int, t: int, u: int)
    requires
        1 < n < (pow2(s) as int),
        (n * np + 1) % (pow2(s) as int) == 0,
        0 <= x < n * (pow2(s) as int),
        t == ((x % (pow2(s) as int)) * np) % (pow2(s) as int),
        u == (x + n * t) / (pow2(s) as int),
    ensures
        (x + n * t) % (pow2(s) as int) == 0,
        u * (pow2(s) as int) == x + n * t,
        (u * (pow2(s) as int)) % n == x % n,
        0 <= u < 2 * n,
{
    let r = pow2(s) as int;
    lemma_pow2_pos(s);
    // t is congruent to x * np modulo the radix
    lemma_mul_mod_noop_general(x, np, r);
    lemma_mod_twice(x * np, r);
    assert(t % r == (x * np) % r);
    // so n * t is congruent to (n * np) * x, which is -x
    lemma_mul_congruence(n, n, t, x * np, r);
    assert(n * (x * np) == (n * np) * x) by (nonlinear_arith);
    lemma_mod_equivalence(n * np, -1, r);
    lemma_mul_congruence(n * np, -1, x, x, r);
    assert((n * t) % r == ((-1) * x) % r);
    assert((-1) * x == -x) by (nonlinear_arith);
    lemma_mod_equivalence(n * t, -x, r);
    assert((x + n * t) % r == 0) by {
        lemma_mod_equivalence(n * t + x, 0, r);
        lemma_small_mod(0, r as nat);
    };
    // the shift is therefore an exact division
    lemma_fundamental_div_mod(x + n * t, r);
    assert(r * u == x + n * t);
    lemma_mul_is_commutative(r, u);
    // dropping the multiple of n leaves x
    assert((x + n * t) % n == x % n) by {
        lemma_mod_multiples_vanish(t, x, n);
        assert(n * t + x == x + n * t);
    };
    // bounds: x < nR and t < R keep the quotient under 2n
    assert(0 <= t < r) by {
        lemma_mod_bound((x % r) * np, r);
    };
    assert(n * t < n * r) by (nonlinear_arith)
        requires
            0 <= t < r,
            n > 1,
    ;
    assert(x + n * t < 2 * (n * r));
    assert(u < 2 * n) by {
        assert(x + n * t < r * (2 * n)) by (nonlinear_arith)
            requires
                x + n * t < 2 * (n * r),
        ;
        lemma_multiply_divide_lt(x + n * t, r, 2 * n);
    };
    lemma_div_pos_is_pos(x + n * t, r);
    lemma_mul_inequality(0, u, r);
}

/// A Montgomery multiplication step: reducing the product of two values
/// in Montgomery form yields the Montgomery form of the product.
pub(crate) proof fn lemma_mont_mul(n: int, s: nat, x: int, y: int, gx: int, gy: int, z: int)
    requires
        n % 2 == 1,
        n > 1,
        x % n == (gx * (pow2(s) as int)) % n,
        y % n == (gy * (pow2(s) as int)) % n,
        (z * (pow2(s) as int)) % n == (x * y) % n,
    ensures
        z % n == ((gx * gy) * (pow2(s) as int)) % n,
{
    let r = pow2(s) as int;
    lemma_pow2_pos(s);
    lemma_mul_congruence(x, gx * r, y, gy * r, n);
    assert((gx * r) * (gy * r) == ((gx * gy) * r) * r) by (nonlinear_arith);
    assert((z * r) % n == (((gx * gy) * r) * r) % n);
    lemma_odd_cancel_pow2(z, (gx * gy) * r, s, n);
}

/// Leaving Montgomery form: one reduction of a Montgomery-form value
/// recovers the plain residue.
pub(crate) proof fn lemma_mont_exit(n: int, s: nat, y: int, gy: int, r_out: int)
    requires
        n % 2 == 1,
        n > 1,
        y % n == (gy * (pow2(s) as int)) % n,
        (r_out * (pow2(s) as int)) % n == y % n,
    ensures
        r_out % n == gy % n,
{
    lemma_pow2_pos(s);
    lemma_odd_cancel_pow2(r_out, gy, s, n);
}

/// Entering Montgomery form: one reduction of `x * (R^2 mod n)` yields
/// `x * R mod n`.
pub(crate) proof fn lemma_mont_convert(n: int, s: nat, x: int, r2: int, r_out: int)
    requires
        n % 2 == 1,
        n > 1,
        r2 % n == (pow2(2 * s) as int) % n,
        (r_out * (pow2(s) as int)) % n == (x * r2) % n,
    ensures
        r_out % n == (x * (pow2(s) as int)) % n,
{
    let r = pow2(s) as int;
    lemma_pow2_pos(s);
    lemma_pow2_adds(s, s);
    assert(pow2(2 * s) as int == r * r);
    lemma_mul_congruence(x, x, r2, r * r, n);
    assert(x * (r * r) == (x * r) * r) by {
        lemma_mul_is_associative(x, r, r);
    };
    lemma_odd_cancel_pow2(r_out, x * r, s, n);
}

} // verus!

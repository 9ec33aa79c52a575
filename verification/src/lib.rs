//! Modular-arithmetic primitives: addition, subtraction, multiplication and
//! exponentiation modulo `n` on signed residues in `[-n, n]`, plus
//! Montgomery-multiplication contexts (see [`montgomery`]) for repeated
//! multiplication under a fixed odd modulus.

use vstd::prelude::*;

mod arith;
pub mod montgomery;

verus! {

use vstd::arithmetic::div_mod::{lemma_fundamental_div_mod, lemma_mod_multiples_basic,
    lemma_mod_equivalence, lemma_mod_bound, lemma_small_mod};
use vstd::arithmetic::power::{pow, lemma_pow0, lemma_pow1, lemma_pow_adds};
use crate::arith::{lemma_mul_congruence, lemma_pow_congruence, lemma_square_and_multiply_step,
    lemma_square_and_multiply_values};

broadcast use vstd::arithmetic::mul::group_mul_is_commutative_and_distributive;

/// A value changed by a multiple of the modulus stays congruent: the
/// difference `reduce_spec(a, m) - a` is `-m`, `0` or `m`.
proof fn lemma_reduce_spec_congruent(a: int, m: int)
    requires
        m >= 1,
    ensures
        (reduce_spec(a, m) - a) % m == 0,
{
    lemma_mod_multiples_basic(-1, m);
    lemma_mod_multiples_basic(0, m);
    lemma_mod_multiples_basic(1, m);
}

/// One corrective reduction step: brings a value of `[-2m, 2m]` back into
/// `[-m, m]` by adding or subtracting the modulus at most once.
pub open spec fn reduce_spec(a: int, m: int) -> int {
    if a >= m {
        a - m
    } else if a <= -m {
        a + m
    } else {
        a
    }
}

/// Truncated remainder, the value Rust's `%` operator computes for a
/// positive divisor: the sign follows the dividend.
pub open spec fn trunc_rem(a: int, m: int) -> int {
    if a >= 0 {
        a % m
    } else {
        -((-a) % m)
    }
}

fn reduce(a: i64, modulo: &i64) -> (r: i64)
    requires
        *modulo >= 1,
        -2 * *modulo <= a <= 2 * *modulo,
    ensures
        r == reduce_spec(a as int, *modulo as int),
        -*modulo <= r <= *modulo,
{
    let mut a = a;
    if &a >= modulo {
        a -= *modulo;
    } else if a <= -*modulo {
        a += *modulo;
    }
    a
}

/// `a + b (mod n)`, for operands already in `[-modulo, modulo]`: the exact
/// sum followed by one corrective reduction step.
pub fn add_mod(a: &i64, b: &i64, modulo: &i64) -> (r: i64)
    requires
        *modulo >= 1,
        -*modulo <= *a <= *modulo,
        -*modulo <= *b <= *modulo,
        i64::MIN <= *a + *b,
        *a + *b <= i64::MAX,
    ensures
        r == reduce_spec(*a + *b, *modulo as int),
        -*modulo <= r <= *modulo,
        (r - (*a + *b)) % (*modulo as int) == 0,
{
    let c = *a + *b;
    proof {
        lemma_reduce_spec_congruent(c as int, *modulo as int);
    }
    reduce(c, modulo)
}

/// `a - b (mod n)`, for operands already in `[-modulo, modulo]`: the exact
/// difference followed by one corrective reduction step.
pub fn sub_mod(a: &i64, b: &i64, modulo: &i64) -> (r: i64)
    requires
        *modulo >= 1,
        -*modulo <= *a <= *modulo,
        -*modulo <= *b <= *modulo,
        i64::MIN <= *a - *b,
        *a - *b <= i64::MAX,
    ensures
        r == reduce_spec(*a - *b, *modulo as int),
        -*modulo <= r <= *modulo,
        (r - (*a - *b)) % (*modulo as int) == 0,
{
    let c = *a - *b;
    proof {
        lemma_reduce_spec_congruent(c as int, *modulo as int);
    }
    reduce(c, modulo)
}

/// `a * b (mod n)` through the native remainder: the result carries the
/// sign of the product and lies strictly inside `(-modulo, modulo)`.
pub fn mul_mod(a: &i64, b: &i64, modulo: &i64) -> (r: i64)
    requires
        *modulo >= 1,
        i64::MIN <= *a * *b,
        *a * *b <= i64::MAX,
    ensures
        r == trunc_rem(*a * *b, *modulo as int),
        -*modulo < r < *modulo,
        (r - *a * *b) % (*modulo as int) == 0,
{
    let p = *a * *b;
    let r = p % *modulo;
    proof {
        lemma_trunc_rem_facts(p as int, *modulo as int);
    }
    r
}

/// `a^b (mod n)` by square-and-multiply: the base is squared at every
/// round and folded into the accumulator whenever the corresponding
/// exponent bit, taken least significant first, is set. The result is
/// the truncated remainder of `a^b`, so its sign follows the power.
pub fn pow_mod(a: i64, b: u64, modulo: &i64) -> (r: i64)
    requires
        *modulo >= 1,
        -*modulo <= a <= *modulo,
        *modulo * *modulo <= i64::MAX,
    ensures
        -*modulo <= r <= *modulo,
        (r - pow(a as int, b as nat)) % (*modulo as int) == 0,
        b == 0 ==> r == 1,
        b > 0 ==> -*modulo < r < *modulo,
        b > 0 ==> r == trunc_rem(pow(a as int, b as nat), *modulo as int),
        a >= 0 && b > 0 ==> r == pow(a as int, b as nat) % (*modulo as int),
{
    let m = *modulo;
    let ghost mi = m as int;
    let ghost b0 = b;
    let mut e = b;
    let mut x = a;
    let mut y: i64 = 1i64;
    proof {
        vstd::arithmetic::mul::lemma_mul_basics(pow(a as int, b as nat));
    }
    while e > 0
        invariant
            m == *modulo,
            m >= 1,
            mi == m as int,
            m * m <= i64::MAX,
            -m <= x <= m,
            -m <= y <= m,
            ((y as int) * pow(x as int, e as nat)) % mi == pow(a as int, b0 as nat) % mi,
            trunc_rem((y as int) * pow(x as int, e as nat), mi) == trunc_rem(
                pow(a as int, b0 as nat),
                mi,
            ),
            a >= 0 ==> x >= 0 && y >= 0,
            e <= b0,
            b0 == 0 ==> y == 1,
            b0 > 0 && e == 0 ==> -m < y < m,
        decreases e,
    {
        let ghost (px, py, pe) = (x as int, y as int, e as nat);
        proof {
            assert(e & 1 == e % 2) by (bit_vector);
            lemma_square_and_multiply_step(px, py, pe, pow(a as int, b0 as nat) % mi, mi);
            lemma_square_and_multiply_values(px, py, pe);
            lemma_mul_bounds_square(px, py, m as int);
        }
        if e & 1 == 1 {
            y = mul_mod(&x, &y, &m);
            proof {
                lemma_mod_equivalence(y as int, px * py, mi);
                if a >= 0 {
                    assert(px * py >= 0) by (nonlinear_arith)
                        requires
                            px >= 0,
                            py >= 0,
                    ;
                    lemma_mod_bound(px * py, mi);
                }
            }
        }
        x = mul_mod(&x, &x, &m);
        proof {
            lemma_mod_equivalence(x as int, px * px, mi);
            if a >= 0 {
                assert(px * px >= 0) by (nonlinear_arith);
                lemma_mod_bound(px * px, mi);
            }
        }
        proof {
            assert(e >> 1u64 == e / 2) by (bit_vector);
        }
        e >>= 1u64;
        proof {
            lemma_pow_congruence(x as int, px * px, e as nat, mi);
            if pe % 2 == 1 {
                lemma_mul_congruence(y as int, py * px, pow(x as int, e as nat),
                    pow(px * px, e as nat), mi);
                lemma_trunc_rem_mul_left(px * py, pow(x as int, e as nat), mi);
                lemma_trunc_rem_pow(px * py, px * px, e as nat, mi);
                assert((px * py) * pow(px * px, e as nat) == (py * px) * pow(
                    px * px,
                    e as nat,
                ));
            } else {
                lemma_mul_congruence(y as int, y as int, pow(x as int, e as nat),
                    pow(px * px, e as nat), mi);
                lemma_trunc_rem_pow(py, px * px, e as nat, mi);
            }
        }
    }
    proof {
        lemma_pow0(x as int);
        vstd::arithmetic::mul::lemma_mul_basics(y as int);
        lemma_mod_equivalence(y as int, pow(a as int, b0 as nat), mi);
        if b0 > 0 {
            lemma_trunc_rem_identity(y as int, mi);
        }
        if a >= 0 && b0 > 0 {
            lemma_small_mod(y as nat, m as nat);
        }
    }
    y
}

/// `a * base^power (mod n)`: square-and-multiply as in [`pow_mod`], with
/// the accumulator seeded by `a` instead of 1, and likewise returning
/// the truncated remainder of the full product.
pub fn mul_pow_mod(a: i64, base: i64, power: u64, modulo: &i64) -> (r: i64)
    requires
        *modulo >= 1,
        -*modulo <= a <= *modulo,
        -*modulo <= base <= *modulo,
        *modulo * *modulo <= i64::MAX,
    ensures
        -*modulo <= r <= *modulo,
        (r - (a as int) * pow(base as int, power as nat)) % (*modulo as int) == 0,
        power == 0 ==> r == a,
        power > 0 ==> -*modulo < r < *modulo,
        power > 0 ==> r == trunc_rem((a as int) * pow(base as int, power as nat),
            *modulo as int),
        a >= 0 && base >= 0 && power > 0 ==> r == ((a as int) * pow(
            base as int,
            power as nat,
        )) % (*modulo as int),
{
    let m = *modulo;
    let ghost mi = m as int;
    let ghost p0 = power;
    let mut e = power;
    let mut x = base;
    let mut y: i64 = a;
    while e > 0
        invariant
            m == *modulo,
            m >= 1,
            mi == m as int,
            m * m <= i64::MAX,
            -m <= x <= m,
            -m <= y <= m,
            ((y as int) * pow(x as int, e as nat)) % mi == ((a as int) * pow(
                base as int,
                p0 as nat,
            )) % mi,
            trunc_rem((y as int) * pow(x as int, e as nat), mi) == trunc_rem(
                (a as int) * pow(base as int, p0 as nat),
                mi,
            ),
            a >= 0 && base >= 0 ==> x >= 0 && y >= 0,
            e <= p0,
            p0 == 0 ==> y == a,
            p0 > 0 && e == 0 ==> -m < y < m,
        decreases e,
    {
        let ghost (px, py, pe) = (x as int, y as int, e as nat);
        proof {
            assert(e & 1 == e % 2) by (bit_vector);
            lemma_square_and_multiply_step(px, py, pe, ((a as int) * pow(base as int, p0 as nat)) % mi, mi);
            lemma_square_and_multiply_values(px, py, pe);
            lemma_mul_bounds_square(px, py, m as int);
        }
        if e & 1 == 1 {
            y = mul_mod(&x, &y, &m);
            proof {
                lemma_mod_equivalence(y as int, px * py, mi);
                if a >= 0 && base >= 0 {
                    assert(px * py >= 0) by (nonlinear_arith)
                        requires
                            px >= 0,
                            py >= 0,
                    ;
                    lemma_mod_bound(px * py, mi);
                }
            }
        }
        x = mul_mod(&x, &x, &m);
        proof {
            lemma_mod_equivalence(x as int, px * px, mi);
            if a >= 0 && base >= 0 {
                assert(px * px >= 0) by (nonlinear_arith);
                lemma_mod_bound(px * px, mi);
            }
        }
        proof {
            assert(e >> 1u64 == e / 2) by (bit_vector);
        }
        e >>= 1u64;
        proof {
            lemma_pow_congruence(x as int, px * px, e as nat, mi);
            if pe % 2 == 1 {
                lemma_mul_congruence(y as int, py * px, pow(x as int, e as nat),
                    pow(px * px, e as nat), mi);
                lemma_trunc_rem_mul_left(px * py, pow(x as int, e as nat), mi);
                lemma_trunc_rem_pow(px * py, px * px, e as nat, mi);
                assert((px * py) * pow(px * px, e as nat) == (py * px) * pow(
                    px * px,
                    e as nat,
                ));
            } else {
                lemma_mul_congruence(y as int, y as int, pow(x as int, e as nat),
                    pow(px * px, e as nat), mi);
                lemma_trunc_rem_pow(py, px * px, e as nat, mi);
            }
        }
    }
    proof {
        lemma_pow0(x as int);
        vstd::arithmetic::mul::lemma_mul_basics(y as int);
        lemma_mod_equivalence(y as int, (a as int) * pow(base as int, p0 as nat), mi);
        if p0 > 0 {
            lemma_trunc_rem_identity(y as int, mi);
        }
        if a >= 0 && base >= 0 && p0 > 0 {
            lemma_small_mod(y as nat, m as nat);
        }
    }
    y
}

/// Factors bounded by `m` in magnitude keep their product within `m * m`.
proof fn lemma_mul_bounds_square(x: int, y: int, m: int) by (nonlinear_arith)
    requires
        m >= 1,
        -m <= x <= m,
        -m <= y <= m,
    ensures
        -(m * m) <= x * y <= m * m,
        -(m * m) <= x * x <= m * m,
{
}

/// The truncated remainder is congruent to the dividend and strictly
/// smaller than the divisor in magnitude.
proof fn lemma_trunc_rem_facts(a: int, m: int)
    requires
        m >= 1,
    ensures
        -m < trunc_rem(a, m) < m,
        (trunc_rem(a, m) - a) % m == 0,
{
    if a >= 0 {
        lemma_fundamental_div_mod(a, m);
        assert(trunc_rem(a, m) - a == -(a / m) * m);
        lemma_mod_multiples_basic(-(a / m), m);
    } else {
        lemma_fundamental_div_mod(-a, m);
        assert(trunc_rem(a, m) - a == ((-a) / m) * m);
        lemma_mod_multiples_basic((-a) / m, m);
    }
}

/// A value strictly inside the interval is its own truncated remainder.
proof fn lemma_trunc_rem_identity(v: int, m: int)
    requires
        m >= 1,
        -m < v < m,
    ensures
        trunc_rem(v, m) == v,
{
    if v >= 0 {
        lemma_small_mod(v as nat, m as nat);
    } else {
        lemma_small_mod((-v) as nat, m as nat);
    }
}

/// The truncated remainder of a multiple of the divisor is zero,
/// whatever the sign of the multiple.
proof fn lemma_trunc_rem_of_multiple(v: int, m: int)
    requires
        m >= 1,
        v % m == 0,
    ensures
        trunc_rem(v, m) == 0,
{
    lemma_fundamental_div_mod(v, m);
    if v < 0 {
        assert(-v == (-(v / m)) * m) by (nonlinear_arith)
            requires
                v == m * (v / m),
        ;
        lemma_mod_multiples_basic(-(v / m), m);
    }
}

/// Congruent values on the same side of zero have the same truncated
/// remainder; multiples of the divisor are covered on either side.
proof fn lemma_trunc_rem_congruent(v: int, w: int, m: int)
    requires
        m >= 1,
        (v - w) % m == 0,
        (v >= 0 <==> w >= 0) || v % m == 0,
    ensures
        trunc_rem(v, m) == trunc_rem(w, m),
{
    lemma_mod_equivalence(v, w, m);
    if v % m == 0 {
        lemma_trunc_rem_of_multiple(v, m);
        lemma_trunc_rem_of_multiple(w, m);
    } else if v >= 0 {
        assert(trunc_rem(v, m) == trunc_rem(w, m));
    } else {
        lemma_mod_equivalence(w, v, m);
        lemma_mod_equivalence(-v, -w, m);
    }
}

/// A factor may be replaced by its truncated remainder without changing
/// the truncated remainder of the product: the replacement keeps both
/// the residue class and the sign of the product.
proof fn lemma_trunc_rem_mul_left(x: int, y: int, m: int)
    requires
        m >= 1,
    ensures
        trunc_rem(trunc_rem(x, m) * y, m) == trunc_rem(x * y, m),
{
    let t = trunc_rem(x, m);
    lemma_trunc_rem_facts(x, m);
    lemma_mod_equivalence(t, x, m);
    lemma_mul_congruence(t, x, y, y, m);
    lemma_mod_equivalence(t * y, x * y, m);
    if t == 0 {
        assert(0int % m == 0) by {
            lemma_small_mod(0, m as nat);
        };
        lemma_mod_equivalence(0, x, m);
        lemma_mul_congruence(x, 0, y, y, m);
        assert(0 * y == 0);
        lemma_mod_equivalence(x * y, 0, m);
        lemma_trunc_rem_of_multiple(t * y, m);
        lemma_trunc_rem_of_multiple(x * y, m);
    } else {
        if t > 0 {
            lemma_small_mod(t as nat, m as nat);
        } else {
            vstd::arithmetic::div_mod::lemma_mod_add_multiples_vanish(t, m);
            lemma_small_mod((t + m) as nat, m as nat);
        }
        assert(t % m != 0);
        assert(x != 0);
        assert((x > 0 && t > 0) || (x < 0 && t < 0));
        assert(t * y >= 0 <==> x * y >= 0) by (nonlinear_arith)
            requires
                (x > 0 && t > 0) || (x < 0 && t < 0),
        ;
        lemma_trunc_rem_congruent(t * y, x * y, m);
    }
}

/// The base of a power may be replaced by its truncated remainder under
/// an outer truncated remainder, factor by factor.
proof fn lemma_trunc_rem_pow(v: int, u: int, e: nat, m: int)
    requires
        m >= 1,
    ensures
        trunc_rem(v * pow(trunc_rem(u, m), e), m) == trunc_rem(v * pow(u, e), m),
    decreases e,
{
    let t = trunc_rem(u, m);
    if e == 0 {
        lemma_pow0(t);
        lemma_pow0(u);
    } else {
        let e1 = (e - 1) as nat;
        let pt = pow(t, e1);
        let pu = pow(u, e1);
        assert(pow(t, e) == t * pt) by {
            lemma_pow_adds(t, 1, e1);
            lemma_pow1(t);
        };
        assert(pow(u, e) == u * pu) by {
            lemma_pow_adds(u, 1, e1);
            lemma_pow1(u);
        };
        assert(v * (t * pt) == t * (v * pt)) by (nonlinear_arith);
        lemma_trunc_rem_mul_left(u, v * pt, m);
        assert(u * (v * pt) == (v * u) * pt) by (nonlinear_arith);
        lemma_trunc_rem_pow(v * u, u, e1, m);
        assert((v * u) * pt == (v * u) * pow(trunc_rem(u, m), e1));
        assert((v * u) * pu == v * (u * pu)) by (nonlinear_arith);
    }
}

} // verus!

//! Montgomery modular multiplication: contexts that precompute, for one
//! fixed odd modulus, the negated 2-adic inverse `np` and the square of
//! the radix `r2`, and then multiply and exponentiate without any
//! per-multiplication division.

use vstd::prelude::*;

verus! {

use vstd::arithmetic::div_mod::{lemma_fundamental_div_mod, lemma_fundamental_div_mod_converse,
    lemma_mod_equivalence, lemma_mod_twice, lemma_small_mod, lemma_mod_multiples_vanish,
    lemma_add_mod_noop, lemma_mod_bound};
use vstd::arithmetic::mul::{lemma_mul_is_commutative, lemma_mul_basics};
use vstd::arithmetic::power::{pow, lemma_pow0};
use vstd::arithmetic::power2::{pow2, lemma_pow2_pos, lemma_pow2_adds, lemma2_to64,
    lemma2_to64_rest, lemma_pow2_unfold, lemma_pow2_strictly_increases};
use crate::arith::{lemma_square_and_multiply_step, lemma_inverse_seed,
    lemma_hensel_square, lemma_lift_carries_over, lemma_lift_step_composes,
    lemma_pow2_divides_weaken, lemma_pow2_mod_odd_positive, lemma_redc, lemma_mont_mul,
    lemma_mont_exit, lemma_mont_convert};

/// The smaller of two bit counts.
pub open spec fn bit_min(a: nat, b: nat) -> nat {
    if a <= b {
        a
    } else {
        b
    }
}

/// A family of Montgomery-arithmetic contexts over a single-width value
/// type `T` and a double-width intermediate type `U`. A context is built
/// once for an odd modulus `N` and then reused: `reduction` maps any
/// `x < N * R` to `x / R` modulo `N` without dividing, `convert` enters
/// Montgomery form, and `powmod` exponentiates through that form.
pub trait MontgomeryOperation<T, U>: Sized {
    /// The residue a single-width value stands for.
    spec fn t_val(x: T) -> int;

    /// The value a double-width intermediate stands for.
    spec fn u_val(x: U) -> int;

    /// The moduli this specialization accepts: odd, above 2, and small
    /// enough that every intermediate fits the double-width type. The
    /// unit modulus stays out: `convert` is defined on the residues
    /// `[0, n)`, and `powmod` must convert the value 1 to seed its
    /// accumulator.
    spec fn modulus_ok(n: int) -> bool;

    /// The pairs of modulus and target bit width the inverse computation
    /// supports.
    spec fn inverse_width_ok(n: int, s: u32) -> bool;

    /// The bound under which the computed inverse stays.
    spec fn inverse_cap(s: u32) -> int;

    /// A context is well formed once construction has filled in the
    /// constants belonging to its modulus.
    spec fn wf(&self) -> bool;

    /// The modulus of a well-formed context.
    spec fn modulus(&self) -> int;

    /// The exponent `s` of the Montgomery radix `R = 2^s`.
    spec fn radix_bits(&self) -> nat;

    /// The radix exponent the constructor chooses for a modulus: the
    /// fixed word width, or the modulus's own bit length in the
    /// arbitrary-width regime.
    spec fn radix_for(n: int) -> nat;

    /// Computes `N'` with `N * N' == -1 (mod 2^s)` by Newton–Hensel
    /// lifting from the 3-bit seed `(-N) mod 8`.
    fn calc_n_prime(n: &T, s: u32) -> (r: T)
        requires
            Self::t_val(*n) % 2 == 1,
            Self::t_val(*n) > 0,
            Self::inverse_width_ok(Self::t_val(*n), s),
        ensures
            (Self::t_val(*n) * Self::t_val(r) + 1) % (pow2(s as nat) as int) == 0,
            0 <= Self::t_val(r) < Self::inverse_cap(s),
    ;

    /// Builds the context for the odd modulus `n`: the one-time inverse
    /// computation and the precomputation of `R^2 mod n`.
    fn new(n: T) -> (m: Self)
        requires
            Self::t_val(n) % 2 == 1,
            Self::modulus_ok(Self::t_val(n)),
        ensures
            m.wf(),
            m.modulus() == Self::t_val(n),
            m.radix_bits() == Self::radix_for(Self::t_val(n)),
            m.modulus() < pow2(m.radix_bits()),
    ;

    /// Montgomery reduction: divides by the radix modulo `n`. The result
    /// `r` is the unique residue with `r * R == x (mod n)`.
    fn reduction(&self, x: U) -> (r: T)
        requires
            self.wf(),
            0 <= Self::u_val(x),
            Self::u_val(x) < self.modulus() * (pow2(self.radix_bits()) as int),
        ensures
            0 <= Self::t_val(r) < self.modulus(),
            (Self::t_val(r) * (pow2(self.radix_bits()) as int)) % self.modulus() == Self::u_val(
                x,
            ) % self.modulus(),
    ;

    /// Enters Montgomery form: maps a residue `x` to `x * R mod n` by one
    /// reduction of `x * r2`.
    fn convert(&self, x: T) -> (r: T)
        requires
            self.wf(),
            0 <= Self::t_val(x) < self.modulus(),
        ensures
            Self::t_val(r) == (Self::t_val(x) * (pow2(self.radix_bits()) as int))
                % self.modulus(),
            0 <= Self::t_val(r) < self.modulus(),
    ;

    /// `a^p mod n` by square-and-multiply carried out entirely in
    /// Montgomery form, with one final reduction back to an ordinary
    /// residue.
    fn powmod(&self, a: T, p: u64) -> (r: T)
        requires
            self.wf(),
            0 <= Self::t_val(a) < self.modulus(),
        ensures
            0 <= Self::t_val(r) < self.modulus(),
            Self::t_val(r) == pow(Self::t_val(a), p as nat) % self.modulus(),
    ;
}

/// Montgomery context with the fixed radix `R = 2^64`; intermediates are
/// 128 bits wide.
pub struct Montgomery64 {
    n: u64,
    np: u64,
    r2: u64,
}

impl MontgomeryOperation<u64, u128> for Montgomery64 {
    open spec fn t_val(x: u64) -> int {
        x as int
    }

    open spec fn u_val(x: u128) -> int {
        x as int
    }

    open spec fn modulus_ok(n: int) -> bool {
        2 < n < 0x8000000000000000
    }

    open spec fn inverse_width_ok(n: int, s: u32) -> bool {
        s <= 64
    }

    open spec fn inverse_cap(s: u32) -> int {
        0x10000000000000000
    }

    closed spec fn wf(&self) -> bool {
        &&& self.n % 2 == 1
        &&& 2 < self.n < 0x8000000000000000
        &&& ((self.n as int) * (self.np as int) + 1) % (pow2(64) as int) == 0
        &&& self.r2 as int == (pow2(128) as int) % (self.n as int)
    }

    closed spec fn modulus(&self) -> int {
        self.n as int
    }

    open spec fn radix_bits(&self) -> nat {
        64
    }

    open spec fn radix_for(n: int) -> nat {
        64
    }

    fn calc_n_prime(n: &u64, s: u32) -> (r: u64) {
        let nv = *n;
        proof {
            assert(!nv == u64::MAX - nv) by (bit_vector);
        }
        let mut x = (!nv + 1) % 8;
        let mut b: u32 = 3;
        proof {
            lemma2_to64();
            lemma2_to64_rest();
            assert(x == (0x10000000000000000 - nv) % 8);
            lemma_mod_multiples_vanish(0x2000000000000000, -(nv as int), 8);
            assert((0x10000000000000000 - nv) % 8 == (-(nv as int)) % 8);
            lemma_mod_bound(0x10000000000000000 - nv, 8);
            lemma_small_mod(x as nat, 8);
            lemma_inverse_seed(nv as int, x as int);
            lemma_pow2_divides_weaken((nv as int) * (x as int) + 1, 3, bit_min(3, s as nat));
        }
        while b < s
            invariant
                nv % 2 == 1,
                s <= 64,
                3 <= b,
                ((nv as int) * (x as int) + 1) % (pow2(bit_min(b as nat, s as nat)) as int) == 0,
            decreases 2 * s - b,
        {
            let nx = nv.wrapping_mul(x).wrapping_add(2).wrapping_mul(x);
            proof {
                lemma2_to64();
                lemma2_to64_rest();
                let ni = nv as int;
                let xi = x as int;
                let w: nat = 64;
                let c = bit_min(b as nat, s as nat);
                let c2 = bit_min((2 * b) as nat, s as nat);
                lemma_hensel_square(ni, xi, c);
                lemma_pow2_divides_weaken(ni * (xi * (ni * xi + 2)) + 1, 2 * c, c2);
                // the wrapped computation agrees with the exact step modulo 2^64
                let m1 = ((ni * xi) % (pow2(w) as int));
                assert(nv.wrapping_mul(x) == m1);
                let m2 = (m1 + 2) % (pow2(w) as int);
                assert(nv.wrapping_mul(x).wrapping_add(2) == m2);
                assert(m2 == (ni * xi + 2) % (pow2(w) as int)) by {
                    lemma_add_mod_noop(ni * xi, 2, pow2(w) as int);
                    lemma_small_mod(2, pow2(w));
                    lemma_mod_twice(ni * xi, pow2(w) as int);
                };
                lemma_lift_step_composes(ni, xi, m2, w);
                assert(nx as int == (m2 * xi) % (pow2(w) as int));
                assert(nx as int % (pow2(w) as int) == (xi * (ni * xi + 2)) % (pow2(w) as int))
                    by {
                    lemma_mod_twice((m2 * xi), pow2(w) as int);
                };
                lemma_lift_carries_over(ni, xi * (ni * xi + 2), nx as int, c2, w);
            }
            b = b * 2;
            x = nx;
        }
        x
    }

    fn new(n: u64) -> (m: Self) {
        let np = Self::calc_n_prime(&n, 64);
        let wide = u128::MAX % (n as u128);
        let r2 = (wide as u64) + 1;
        proof {
            let ni = n as int;
            lemma2_to64();
            lemma2_to64_rest();
            lemma_pow2_adds(64, 64);
            assert(pow2(128) as int == 0x100000000000000000000000000000000);
            lemma_pow2_mod_odd_positive(128, ni);
            let q = (pow2(128) as int) / ni;
            let r = (pow2(128) as int) % ni;
            lemma_fundamental_div_mod(pow2(128) as int, ni);
            assert(pow2(128) as int - 1 == q * ni + (r - 1)) by {
                lemma_mul_is_commutative(ni, q);
            };
            lemma_fundamental_div_mod_converse(pow2(128) as int - 1, ni, q, r - 1);
            assert(wide as int == r - 1);
        }
        Montgomery64 { n, np, r2 }
    }

    fn reduction(&self, x: u128) -> (r: u64) {
        proof {
            lemma2_to64();
            lemma2_to64_rest();
            lemma_pow2_adds(64, 64);
        }
        let t1 = (x & 0xffff_ffff_ffff_ffffu128) as u64;
        proof {
            assert(x & 0xffff_ffff_ffff_ffffu128 == x % 0x1_0000_0000_0000_0000u128)
                by (bit_vector);
        }
        let t2 = t1.wrapping_mul(self.np);
        proof {
            let ni = self.n as int;
            let w = pow2(64) as int;
            assert(t2 as int == ((x as int % w) * (self.np as int)) % w);
            assert(ni * (t2 as int) + (x as int) <= u128::MAX) by (nonlinear_arith)
                requires
                    0 < ni < 0x8000000000000000,
                    0 <= (t2 as int) < 0x10000000000000000,
                    w == 0x10000000000000000,
                    0 <= (x as int) < ni * w,
            ;
        }
        let t3 = x + (self.n as u128) * (t2 as u128);
        proof {
            assert(t3 >> 64u32 == t3 / 0x1_0000_0000_0000_0000u128) by (bit_vector);
            lemma_redc(self.n as int, 64, self.np as int, x as int, t2 as int, t3 as int / (
            pow2(64) as int));
        }
        let t4 = (t3 >> 64u32) as u64;
        if t4 >= self.n {
            proof {
                lemma_final_subtract(self.n as int, pow2(64) as int, t4 as int, x as int);
            }
            t4 - self.n
        } else {
            t4
        }
    }

    fn convert(&self, x: u64) -> (r: u64) {
        proof {
            let ni = self.n as int;
            lemma2_to64();
            lemma2_to64_rest();
            lemma_pow2_adds(64, 64);
            assert(0 <= (x as int) * (self.r2 as int) < ni * (pow2(64) as int))
                by (nonlinear_arith)
                requires
                    0 <= (x as int) < ni,
                    0 <= (self.r2 as int) < ni,
                    2 < ni < 0x8000000000000000,
                    pow2(64) as int == 0x10000000000000000,
            ;
        }
        let r = self.reduction((x as u128) * (self.r2 as u128));
        proof {
            lemma_mod_twice(pow2(128) as int, self.n as int);
            lemma_mont_convert(self.n as int, 64, x as int, self.r2 as int, r as int);
            lemma_small_mod(r as nat, self.n as nat);
        }
        r
    }

    fn powmod(&self, a: u64, p: u64) -> (r: u64) {
        let ghost ni = self.n as int;
        let ghost rv = pow2(64) as int;
        let mut x = self.convert(a);
        let mut y = self.convert(1u64);
        let mut e = p;
        let ghost mut gx = a as int;
        let ghost mut gy = 1int;
        proof {
            lemma2_to64();
            lemma2_to64_rest();
            lemma_pow2_adds(64, 64);
            lemma_mul_basics(rv);
            lemma_mul_basics(pow(a as int, p as nat));
            assert(1int * rv == rv);
            lemma_mod_twice((a as int) * rv, ni);
            lemma_mod_twice(1int * rv, ni);
        }
        while e > 0
            invariant
                self.wf(),
                ni == self.modulus(),
                rv == pow2(self.radix_bits()) as int,
                0 <= x < self.n,
                0 <= y < self.n,
                (x as int) % ni == (gx * rv) % ni,
                (y as int) % ni == (gy * rv) % ni,
                (gy * pow(gx, e as nat)) % ni == pow(a as int, p as nat) % ni,
            decreases e,
        {
            let ghost (pgx, pgy, pe) = (gx, gy, e as nat);
            let ghost (xi, yi) = (x as int, y as int);
            proof {
                lemma2_to64();
                lemma2_to64_rest();
                lemma_pow2_adds(64, 64);
                assert(e & 1 == e % 2) by (bit_vector);
                lemma_square_and_multiply_step(pgx, pgy, pe, pow(a as int, p as nat) % ni, ni);
                assert(0 <= xi * yi < ni * rv && 0 <= xi * xi < ni * rv) by (nonlinear_arith)
                    requires
                        0 <= xi < ni,
                        0 <= yi < ni,
                        2 < ni < 0x8000000000000000,
                        rv == 0x10000000000000000,
                ;
            }
            if e & 1 == 1 {
                y = self.reduction((x as u128) * (y as u128));
                proof {
                    lemma_mont_mul(ni, 64, xi, yi, pgx, pgy, y as int);
                }
            }
            x = self.reduction((x as u128) * (x as u128));
            proof {
                lemma_mont_mul(ni, 64, xi, xi, pgx, pgx, x as int);
                gx = pgx * pgx;
                if pe % 2 == 1 {
                    gy = pgy * pgx;
                    assert(pgx * pgy == pgy * pgx);
                }
                assert(e >> 1u64 == e / 2) by (bit_vector);
            }
            e >>= 1u64;
            proof {
                lemma_small_mod(x as nat, self.n as nat);
                lemma_small_mod(y as nat, self.n as nat);
            }
        }
        proof {
            assert(0 <= (y as int) < ni * rv) by (nonlinear_arith)
                requires
                    0 <= (y as int) < ni,
                    2 < ni,
                    rv == 0x10000000000000000,
            ;
        }
        let r = self.reduction(y as u128);
        proof {
            lemma_pow0(gx);
            lemma_mul_basics(gy);
            lemma_mont_exit(ni, 64, y as int, gy, r as int);
            lemma_small_mod(r as nat, self.n as nat);
            lemma_mod_equivalence(r as int, pow(a as int, p as nat), ni);
        }
        r
    }
}


/// Montgomery context with the fixed radix `R = 2^32`; intermediates are
/// 64 bits wide.
pub struct Montgomery32 {
    n: u32,
    np: u32,
    r2: u32,
}

impl MontgomeryOperation<u32, u64> for Montgomery32 {
    open spec fn t_val(x: u32) -> int {
        x as int
    }

    open spec fn u_val(x: u64) -> int {
        x as int
    }

    open spec fn modulus_ok(n: int) -> bool {
        2 < n < 0x80000000
    }

    open spec fn inverse_width_ok(n: int, s: u32) -> bool {
        s <= 32
    }

    open spec fn inverse_cap(s: u32) -> int {
        0x100000000
    }

    closed spec fn wf(&self) -> bool {
        &&& self.n % 2 == 1
        &&& 2 < self.n < 0x80000000
        &&& ((self.n as int) * (self.np as int) + 1) % (pow2(32) as int) == 0
        &&& self.r2 as int == (pow2(64) as int) % (self.n as int)
    }

    closed spec fn modulus(&self) -> int {
        self.n as int
    }

    open spec fn radix_bits(&self) -> nat {
        32
    }

    open spec fn radix_for(n: int) -> nat {
        32
    }

    fn calc_n_prime(n: &u32, s: u32) -> (r: u32) {
        let nv = *n;
        proof {
            assert(!nv == u32::MAX - nv) by (bit_vector);
        }
        let mut x = (!nv + 1) % 8;
        let mut b: u32 = 3;
        proof {
            lemma2_to64();
            lemma2_to64_rest();
            assert(x == (0x100000000 - nv) % 8);
            lemma_mod_multiples_vanish(0x20000000, -(nv as int), 8);
            assert((0x100000000 - nv) % 8 == (-(nv as int)) % 8);
            lemma_mod_bound(0x100000000 - nv, 8);
            lemma_small_mod(x as nat, 8);
            lemma_inverse_seed(nv as int, x as int);
            lemma_pow2_divides_weaken((nv as int) * (x as int) + 1, 3, bit_min(3, s as nat));
        }
        while b < s
            invariant
                nv % 2 == 1,
                s <= 32,
                3 <= b,
                ((nv as int) * (x as int) + 1) % (pow2(bit_min(b as nat, s as nat)) as int) == 0,
            decreases 2 * s - b,
        {
            let nx = nv.wrapping_mul(x).wrapping_add(2).wrapping_mul(x);
            proof {
                lemma2_to64();
                lemma2_to64_rest();
                let ni = nv as int;
                let xi = x as int;
                let w: nat = 32;
                let c = bit_min(b as nat, s as nat);
                let c2 = bit_min((2 * b) as nat, s as nat);
                lemma_hensel_square(ni, xi, c);
                lemma_pow2_divides_weaken(ni * (xi * (ni * xi + 2)) + 1, 2 * c, c2);
                // the wrapped computation agrees with the exact step modulo 2^32
                let m1 = ((ni * xi) % (pow2(w) as int));
                assert(nv.wrapping_mul(x) == m1);
                let m2 = (m1 + 2) % (pow2(w) as int);
                assert(nv.wrapping_mul(x).wrapping_add(2) == m2);
                assert(m2 == (ni * xi + 2) % (pow2(w) as int)) by {
                    lemma_add_mod_noop(ni * xi, 2, pow2(w) as int);
                    lemma_small_mod(2, pow2(w));
                    lemma_mod_twice(ni * xi, pow2(w) as int);
                };
                lemma_lift_step_composes(ni, xi, m2, w);
                assert(nx as int == (m2 * xi) % (pow2(w) as int));
                assert(nx as int % (pow2(w) as int) == (xi * (ni * xi + 2)) % (pow2(w) as int))
                    by {
                    lemma_mod_twice((m2 * xi), pow2(w) as int);
                };
                lemma_lift_carries_over(ni, xi * (ni * xi + 2), nx as int, c2, w);
            }
            b = b * 2;
            x = nx;
        }
        x
    }

    fn new(n: u32) -> (m: Self) {
        let np = Self::calc_n_prime(&n, 32);
        let wide = u64::MAX % (n as u64);
        let r2 = (wide as u32) + 1;
        proof {
            let ni = n as int;
            lemma2_to64();
            lemma2_to64_rest();
            lemma_pow2_mod_odd_positive(64, ni);
            let q = (pow2(64) as int) / ni;
            let r = (pow2(64) as int) % ni;
            lemma_fundamental_div_mod(pow2(64) as int, ni);
            assert(pow2(64) as int - 1 == q * ni + (r - 1)) by {
                lemma_mul_is_commutative(ni, q);
            };
            lemma_fundamental_div_mod_converse(pow2(64) as int - 1, ni, q, r - 1);
            assert(wide as int == r - 1);
        }
        Montgomery32 { n, np, r2 }
    }

    fn reduction(&self, x: u64) -> (r: u32) {
        proof {
            lemma2_to64();
            lemma2_to64_rest();
        }
        let t1 = (x & 0xffff_ffffu64) as u32;
        proof {
            assert(x & 0xffff_ffffu64 == x % 0x1_0000_0000u64) by (bit_vector);
        }
        let t2 = t1.wrapping_mul(self.np);
        proof {
            let ni = self.n as int;
            let w = pow2(32) as int;
            assert(t2 as int == ((x as int % w) * (self.np as int)) % w);
            assert(ni * (t2 as int) + (x as int) <= u64::MAX) by (nonlinear_arith)
                requires
                    0 < ni < 0x80000000,
                    0 <= (t2 as int) < 0x100000000,
                    w == 0x100000000,
                    0 <= (x as int) < ni * w,
            ;
        }
        let t3 = x + (self.n as u64) * (t2 as u64);
        proof {
            assert(t3 >> 32u32 == t3 / 0x1_0000_0000u64) by (bit_vector);
            lemma_redc(self.n as int, 32, self.np as int, x as int, t2 as int, t3 as int / (
            pow2(32) as int));
        }
        let t4 = (t3 >> 32u32) as u32;
        if t4 >= self.n {
            proof {
                lemma_final_subtract(self.n as int, pow2(32) as int, t4 as int, x as int);
            }
            t4 - self.n
        } else {
            t4
        }
    }

    fn convert(&self, x: u32) -> (r: u32) {
        proof {
            let ni = self.n as int;
            lemma2_to64();
            lemma2_to64_rest();
            assert(0 <= (x as int) * (self.r2 as int) < ni * (pow2(32) as int))
                by (nonlinear_arith)
                requires
                    0 <= (x as int) < ni,
                    0 <= (self.r2 as int) < ni,
                    2 < ni < 0x80000000,
                    pow2(32) as int == 0x100000000,
            ;
        }
        let r = self.reduction((x as u64) * (self.r2 as u64));
        proof {
            lemma_mod_twice(pow2(64) as int, self.n as int);
            lemma_mont_convert(self.n as int, 32, x as int, self.r2 as int, r as int);
            lemma_small_mod(r as nat, self.n as nat);
        }
        r
    }

    fn powmod(&self, a: u32, p: u64) -> (r: u32) {
        let ghost ni = self.n as int;
        let ghost rv = pow2(32) as int;
        let mut x = self.convert(a);
        let mut y = self.convert(1u32);
        let mut e = p;
        let ghost mut gx = a as int;
        let ghost mut gy = 1int;
        proof {
            lemma2_to64();
            lemma2_to64_rest();
            lemma_mul_basics(rv);
            lemma_mul_basics(pow(a as int, p as nat));
            assert(1int * rv == rv);
            lemma_mod_twice((a as int) * rv, ni);
            lemma_mod_twice(1int * rv, ni);
        }
        while e > 0
            invariant
                self.wf(),
                ni == self.modulus(),
                rv == pow2(self.radix_bits()) as int,
                0 <= x < self.n,
                0 <= y < self.n,
                (x as int) % ni == (gx * rv) % ni,
                (y as int) % ni == (gy * rv) % ni,
                (gy * pow(gx, e as nat)) % ni == pow(a as int, p as nat) % ni,
            decreases e,
        {
            let ghost (pgx, pgy, pe) = (gx, gy, e as nat);
            let ghost (xi, yi) = (x as int, y as int);
            proof {
                lemma2_to64();
                lemma2_to64_rest();
                assert(e & 1 == e % 2) by (bit_vector);
                lemma_square_and_multiply_step(pgx, pgy, pe, pow(a as int, p as nat) % ni, ni);
                assert(0 <= xi * yi < ni * rv && 0 <= xi * xi < ni * rv) by (nonlinear_arith)
                    requires
                        0 <= xi < ni,
                        0 <= yi < ni,
                        2 < ni < 0x80000000,
                        rv == 0x100000000,
                ;
            }
            if e & 1 == 1 {
                y = self.reduction((x as u64) * (y as u64));
                proof {
                    lemma_mont_mul(ni, 32, xi, yi, pgx, pgy, y as int);
                }
            }
            x = self.reduction((x as u64) * (x as u64));
            proof {
                lemma_mont_mul(ni, 32, xi, xi, pgx, pgx, x as int);
                gx = pgx * pgx;
                if pe % 2 == 1 {
                    gy = pgy * pgx;
                    assert(pgx * pgy == pgy * pgx);
                }
                assert(e >> 1u64 == e / 2) by (bit_vector);
            }
            e >>= 1u64;
            proof {
                lemma_small_mod(x as nat, self.n as nat);
                lemma_small_mod(y as nat, self.n as nat);
            }
        }
        proof {
            assert(0 <= (y as int) < ni * rv) by (nonlinear_arith)
                requires
                    0 <= (y as int) < ni,
                    2 < ni,
                    rv == 0x100000000,
            ;
        }
        let r = self.reduction(y as u64);
        proof {
            lemma_pow0(gx);
            lemma_mul_basics(gy);
            lemma_mont_exit(ni, 32, y as int, gy, r as int);
            lemma_small_mod(r as nat, self.n as nat);
            lemma_mod_equivalence(r as int, pow(a as int, p as nat), ni);
        }
        r
    }
}


/// Montgomery context for the arbitrary-width regime: the radix is
/// `R = 2^s` with `s` the bit length of the modulus, so the radix, the
/// mask `rm = R - 1` and every reduction are explicit values rather than
/// native word-width wraparound.
pub struct Montgomery {
    n: u128,
    np: u128,
    s: u32,
    rm: u128,
    r2: u128,
}

/// The number of binary digits of an integer: zero for anything below
/// one, and one more than the bit length of its half otherwise.
pub open spec fn bit_length(n: int) -> nat
    decreases n,
{
    if n <= 0 {
        0
    } else {
        bit_length(n / 2) + 1
    }
}

/// A positive number lies between the two powers of two that its bit
/// length names: `2^(len-1) <= n < 2^len`.
pub proof fn lemma_bit_length_interval(n: int)
    requires
        n >= 1,
    ensures
        bit_length(n) >= 1,
        pow2((bit_length(n) - 1) as nat) <= n < pow2(bit_length(n)),
    decreases n,
{
    lemma2_to64();
    if n == 1 {
        assert(bit_length(0) == 0);
        assert(bit_length(1) == 1);
    } else {
        lemma_bit_length_interval(n / 2);
        let b1 = bit_length(n / 2);
        lemma_fundamental_div_mod(n, 2);
        lemma_mod_bound(n, 2);
        lemma_pow2_adds((b1 - 1) as nat, 1);
        lemma_pow2_adds(b1, 1);
    }
}

/// The bit length is the only exponent whose interval contains `n`.
proof fn lemma_bit_length_of_interval(n: int, b: nat)
    requires
        n >= 1,
        b >= 1,
        pow2((b - 1) as nat) <= n < pow2(b),
    ensures
        b == bit_length(n),
{
    lemma_bit_length_interval(n);
    let c = bit_length(n);
    if b < c {
        if b < c - 1 {
            lemma_pow2_strictly_increases(b, (c - 1) as nat);
        }
        assert(false);
    }
    if b > c {
        if c < b - 1 {
            lemma_pow2_strictly_increases(c, (b - 1) as nat);
        }
        assert(false);
    }
}

/// The bit length of `n`, computed by shifting away 64-bit chunks first
/// and then single bits.
fn bits(n: u128) -> (r: u32)
    ensures
        (n as int) < pow2(r as nat),
        n >= 1 ==> r >= 1 && pow2((r - 1) as nat) <= n as int,
{
    let mut m = n;
    let mut b: u32 = 0;
    proof {
        assert(1u128 << 64u32 == 0x10000000000000000u128) by (bit_vector);
        lemma2_to64();
        lemma2_to64_rest();
        lemma_pow2_adds(64, 64);
        vstd::arithmetic::div_mod::lemma_div_basics(n as int);
    }
    let c64 = 1u128 << 64u32;
    while m > c64
        invariant
            c64 == 0x10000000000000000u128,
            m as int == n as int / (pow2(b as nat) as int),
            b >= 1 ==> pow2((b - 1) as nat) <= n as int,
            b <= 128,
        decreases m,
    {
        proof {
            lemma2_to64();
            lemma2_to64_rest();
            lemma_bits_chunk_step(n as int, m as int, b);
            assert(m >> 64u32 == m / 0x10000000000000000u128) by (bit_vector);
        }
        m = m >> 64u32;
        b = b + 64;
    }
    while m > 0
        invariant
            m as int == n as int / (pow2(b as nat) as int),
            b >= 1 ==> pow2((b - 1) as nat) <= n as int,
            b <= 128,
        decreases m,
    {
        proof {
            lemma2_to64();
            lemma2_to64_rest();
            lemma_bits_bit_step(n as int, m as int, b);
            assert(m >> 1u32 == m / 2) by (bit_vector);
        }
        m = m >> 1u32;
        b = b + 1;
    }
    proof {
        lemma2_to64();
        lemma2_to64_rest();
        lemma_pow2_pos(b as nat);
        lemma_fundamental_div_mod(n as int, pow2(b as nat) as int);
        lemma_mod_bound(n as int, pow2(b as nat) as int);
        lemma_mul_basics(pow2(b as nat) as int);
        vstd::arithmetic::div_mod::lemma_div_basics(n as int);
    }
    b
}

/// One 64-bit chunk of the bit count: shifting away 64 bits keeps the
/// running quotient exact and pushes the lower bound up by 64.
proof fn lemma_bits_chunk_step(n: int, m: int, b: u32)
    requires
        b <= 128,
        0 <= n <= u128::MAX,
        m == n / (pow2(b as nat) as int),
        m > 0x10000000000000000,
    ensures
        m / (pow2(64) as int) == n / (pow2((b + 64) as nat) as int),
        pow2((b + 63) as nat) <= n,
        b + 64 <= 128,
    decreases b,
{
    lemma_pow2_pos(b as nat);
    lemma_pow2_pos(64);
    lemma_pow2_pos((b + 64) as nat);
    lemma2_to64();
    lemma2_to64_rest();
    lemma_pow2_adds(b as nat, 64);
    vstd::arithmetic::div_mod::lemma_div_denominator(n, pow2(b as nat) as int, pow2(64) as int);
    // the quotient being large forces n itself to be large
    lemma_fundamental_div_mod(n, pow2(b as nat) as int);
    lemma_mod_bound(n, pow2(b as nat) as int);
    assert(n >= (pow2(b as nat) as int) * m);
    lemma_pow2_adds((b + 63) as nat, 1);
    lemma_pow2_adds(b as nat, 63);
    assert((pow2(b as nat) as int) * m >= (pow2(b as nat) as int) * (pow2(64) as int)) by {
        vstd::arithmetic::mul::lemma_mul_left_inequality(pow2(b as nat) as int, pow2(64) as int,
            m);
    };
    lemma_pow2_strictly_increases((b + 63) as nat, (b + 64) as nat);
    if b + 64 > 128 {
        lemma_pow2_adds(64, 64);
        if (b + 64) as nat > 128 {
            lemma_pow2_strictly_increases(128, (b + 64) as nat);
        }
        assert(false);
    }
}

/// One single-bit step of the bit count.
proof fn lemma_bits_bit_step(n: int, m: int, b: u32)
    requires
        b <= 128,
        0 <= n <= u128::MAX,
        m == n / (pow2(b as nat) as int),
        m > 0,
    ensures
        m / 2 == n / (pow2((b + 1) as nat) as int),
        pow2(b as nat) <= n,
        b + 1 <= 128,
{
    lemma_pow2_pos(b as nat);
    lemma_pow2_pos((b + 1) as nat);
    lemma2_to64();
    lemma2_to64_rest();
    lemma_pow2_adds(b as nat, 1);
    vstd::arithmetic::div_mod::lemma_div_denominator(n, pow2(b as nat) as int, 2);
    lemma_fundamental_div_mod(n, pow2(b as nat) as int);
    lemma_mod_bound(n, pow2(b as nat) as int);
    assert(n >= (pow2(b as nat) as int) * m);
    assert((pow2(b as nat) as int) * m >= (pow2(b as nat) as int) * 1) by {
        vstd::arithmetic::mul::lemma_mul_left_inequality(pow2(b as nat) as int, 1, m);
    };
    lemma_mul_basics(pow2(b as nat) as int);
    if b + 1 > 128 {
        lemma_pow2_adds(64, 64);
        assert(false);
    }
}

/// `1 << s` is the `s`-th power of two.
proof fn lemma_u128_shl_pow2(s: u32)
    requires
        s < 128,
    ensures
        (1u128 << s) as int == pow2(s as nat),
    decreases s,
{
    if s == 0 {
        assert(1u128 << 0u32 == 1) by (bit_vector);
        lemma2_to64();
        lemma2_to64_rest();
    } else {
        lemma_u128_shl_pow2((s - 1) as u32);
        assert(1u128 << s == 2 * (1u128 << ((s - 1) as u32))) by (bit_vector)
            requires
                0 < s < 128,
        ;
        lemma_pow2_unfold(s as nat);
    }
}

impl MontgomeryOperation<u128, u128> for Montgomery {
    open spec fn t_val(x: u128) -> int {
        x as int
    }

    open spec fn u_val(x: u128) -> int {
        x as int
    }

    open spec fn modulus_ok(n: int) -> bool {
        2 < n < 0x8000000000000000
    }

    open spec fn inverse_width_ok(n: int, s: u32) -> bool {
        s <= 63 && n < 0x10000000000000000
    }

    open spec fn inverse_cap(s: u32) -> int {
        pow2(s as nat) as int
    }

    closed spec fn wf(&self) -> bool {
        &&& self.n % 2 == 1
        &&& 2 < self.n < 0x8000000000000000
        &&& 1 <= self.s <= 63
        &&& pow2((self.s - 1) as nat) <= self.n as int
        &&& (self.n as int) < pow2(self.s as nat)
        &&& self.rm as int == pow2(self.s as nat) - 1
        &&& (self.np as int) < pow2(self.s as nat)
        &&& ((self.n as int) * (self.np as int) + 1) % (pow2(self.s as nat) as int) == 0
        &&& self.r2 as int == (pow2((2 * self.s) as nat) as int) % (self.n as int)
    }

    closed spec fn modulus(&self) -> int {
        self.n as int
    }

    closed spec fn radix_bits(&self) -> nat {
        self.s as nat
    }

    open spec fn radix_for(n: int) -> nat {
        bit_length(n)
    }

    fn calc_n_prime(n: &u128, s: u32) -> (r: u128) {
        let nv = *n;
        proof {
            assert(!nv == u128::MAX - nv) by (bit_vector);
            lemma_u128_shl_pow2(s);
            lemma_pow2_pos(s as nat);
            lemma2_to64();
            lemma2_to64_rest();
        }
        let rv = 1u128 << s;
        let mut x = (!nv + 1) % 8;
        let mut b: u32 = 3;
        proof {
            assert(x == (0x100000000000000000000000000000000 - nv) % 8);
            lemma_mod_multiples_vanish(0x20000000000000000000000000000000, -(nv as int), 8);
            lemma_mod_bound(0x100000000000000000000000000000000 - nv, 8);
            lemma_small_mod(x as nat, 8);
            lemma_inverse_seed(nv as int, x as int);
            lemma_pow2_divides_weaken((nv as int) * (x as int) + 1, 3, bit_min(3, s as nat));
        }
        while b < s
            invariant
                nv % 2 == 1,
                0 < nv < 0x10000000000000000,
                s <= 63,
                rv as int == pow2(s as nat),
                rv <= 0x8000000000000000,
                x <= 0x8000000000000000,
                3 <= b,
                ((nv as int) * (x as int) + 1) % (pow2(bit_min(b as nat, s as nat)) as int) == 0,
            decreases 2 * s - b,
        {
            proof {
                lemma2_to64();
                lemma2_to64_rest();
                lemma_pow2_pos(s as nat);
                assert((x as int) * (nv as int) <= u128::MAX) by (nonlinear_arith)
                    requires
                        0 <= (x as int) <= 0x8000000000000000,
                        0 <= (nv as int) < 0x10000000000000000,
                ;
            }
            let t1 = (x * nv) % rv;
            proof {
                lemma_mod_bound((x as int) * (nv as int), rv as int);
                assert((t1 as int + 2) * (x as int) <= u128::MAX) by (nonlinear_arith)
                    requires
                        0 <= (t1 as int) < rv as int,
                        rv <= 0x8000000000000000,
                        0 <= (x as int) <= 0x8000000000000000,
                ;
            }
            let t2 = t1 + 2;
            let nx = (t2 * x) % rv;
            proof {
                let ni = nv as int;
                let xi = x as int;
                let w = s as nat;
                let c = bit_min(b as nat, s as nat);
                let c2 = bit_min((2 * b) as nat, s as nat);
                lemma_hensel_square(ni, xi, c);
                lemma_pow2_divides_weaken(ni * (xi * (ni * xi + 2)) + 1, 2 * c, c2);
                assert(t1 as int == (ni * xi) % (pow2(w) as int)) by {
                    lemma_mul_is_commutative(xi, ni);
                };
                assert(t2 as int % (pow2(w) as int) == (ni * xi + 2) % (pow2(w) as int)) by {
                    lemma_add_mod_noop(ni * xi, 2, pow2(w) as int);
                    lemma_small_mod(2, pow2(w));
                    lemma_mod_twice(ni * xi, pow2(w) as int);
                };
                lemma_lift_step_composes(ni, xi, t2 as int, w);
                assert(nx as int == (t2 as int * xi) % (pow2(w) as int));
                assert(nx as int % (pow2(w) as int) == (xi * (ni * xi + 2)) % (pow2(w) as int))
                    by {
                    lemma_mod_twice((t2 as int * xi), pow2(w) as int);
                };
                lemma_lift_carries_over(ni, xi * (ni * xi + 2), nx as int, c2, w);
                lemma_mod_bound(t2 as int * xi, pow2(w) as int);
                assert(pow2(w) <= pow2(63)) by {
                    if w < 63 {
                        lemma_pow2_strictly_increases(w, 63);
                    }
                };
            }
            b = b * 2;
            x = nx;
        }
        proof {
            lemma_pow2_pos(s as nat);
        }
        let out = x % rv;
        proof {
            lemma_mod_bound(x as int, rv as int);
            lemma_mod_twice(x as int, rv as int);
            lemma_lift_carries_over(nv as int, x as int, out as int, s as nat, s as nat);
        }
        out
    }

    fn new(n: u128) -> (m: Self) {
        let s = bits(n);
        proof {
            lemma2_to64();
            lemma2_to64_rest();
            if s > 63 {
                if s - 1 > 63 {
                    lemma_pow2_strictly_increases(63, (s - 1) as nat);
                }
                assert(false);
            }
            lemma_u128_shl_pow2(s);
            lemma_u128_shl_pow2((2 * s) as u32);
            lemma_pow2_pos(s as nat);
            lemma_pow2_pos((2 * s) as nat);
            lemma_pow2_strictly_increases(s as nat, 64);
        }
        let rm = (1u128 << s) - 1;
        let r2 = (1u128 << (2 * s)) % n;
        let np = Self::calc_n_prime(&n, s);
        proof {
            lemma_mod_bound(pow2((2 * s) as nat) as int, n as int);
            lemma_bit_length_of_interval(n as int, s as nat);
        }
        Montgomery { r2, np, n, s, rm }
    }

    fn reduction(&self, x: u128) -> (r: u128) {
        let ghost w = self.s as nat;
        let ghost ni = self.n as int;
        proof {
            lemma_pow2_pos(w);
            lemma2_to64();
            lemma2_to64_rest();
            assert(pow2(w) <= pow2(63)) by {
                if w < 63 {
                    lemma_pow2_strictly_increases(w, 63);
                }
            };
        }
        let rv = self.rm + 1;
        let t1 = x % rv;
        proof {
            let rvi = rv as int;
            assert(0 <= (t1 as int) * (self.np as int) <= u128::MAX) by (nonlinear_arith)
                requires
                    0 <= (t1 as int) < rvi,
                    0 <= (self.np as int) < rvi,
                    rvi <= 0x8000000000000000,
            ;
        }
        let t2 = (t1 * self.np) % rv;
        proof {
            let rvi = rv as int;
            assert((t2 as int) * ni + (x as int) <= u128::MAX) by (nonlinear_arith)
                requires
                    0 <= (t2 as int) < rvi,
                    0 < ni < rvi,
                    rvi <= 0x8000000000000000,
                    0 <= (x as int) < ni * rvi,
            ;
            lemma_mod_bound((t1 as int) * (self.np as int), rv as int);
        }
        let t3 = t2 * self.n + x;
        let t4 = t3 / rv;
        proof {
            assert(t3 as int == (x as int) + ni * (t2 as int)) by {
                lemma_mul_is_commutative(t2 as int, ni);
            };
            lemma_redc(ni, w, self.np as int, x as int, t2 as int, t3 as int / (pow2(w) as int));
        }
        if t4 >= self.n {
            proof {
                lemma_final_subtract(ni, pow2(w) as int, t4 as int, x as int);
            }
            t4 - self.n
        } else {
            t4
        }
    }

    fn convert(&self, x: u128) -> (r: u128) {
        let ghost w = self.s as nat;
        let ghost ni = self.n as int;
        proof {
            lemma_pow2_pos(w);
            lemma2_to64();
            lemma2_to64_rest();
            assert(pow2(w) <= pow2(63)) by {
                if w < 63 {
                    lemma_pow2_strictly_increases(w, 63);
                }
            };
            assert(0 <= (x as int) * (self.r2 as int) < ni * (pow2(w) as int)
                && (x as int) * (self.r2 as int) <= u128::MAX) by (nonlinear_arith)
                requires
                    0 <= (x as int) < ni,
                    0 <= (self.r2 as int) < ni,
                    2 < ni < pow2(w) as int,
                    pow2(w) as int <= 0x8000000000000000,
            ;
        }
        let prod = x * self.r2;
        let r = self.reduction(prod);
        proof {
            lemma_mod_twice(pow2((2 * self.s) as nat) as int, ni);
            lemma_mont_convert(ni, w, x as int, self.r2 as int, r as int);
            lemma_small_mod(r as nat, self.n as nat);
        }
        r
    }

    fn powmod(&self, a: u128, p: u64) -> (r: u128) {
        let ghost ni = self.n as int;
        let ghost w = self.s as nat;
        let ghost rv = pow2(w) as int;
        proof {
            lemma_pow2_pos(w);
            lemma2_to64();
            lemma2_to64_rest();
            assert(pow2(w) <= pow2(63)) by {
                if w < 63 {
                    lemma_pow2_strictly_increases(w, 63);
                }
            };
        }
        let mut x = self.convert(a);
        let mut y = self.convert(1u128);
        let mut e = p;
        let ghost mut gx = a as int;
        let ghost mut gy = 1int;
        proof {
            lemma_mul_basics(rv);
            lemma_mul_basics(pow(a as int, p as nat));
            assert(1int * rv == rv);
            lemma_mod_twice((a as int) * rv, ni);
            lemma_mod_twice(1int * rv, ni);
        }
        while e > 0
            invariant
                self.wf(),
                ni == self.modulus(),
                w == self.radix_bits(),
                rv == pow2(w) as int,
                0 <= x < self.n,
                0 <= y < self.n,
                (x as int) % ni == (gx * rv) % ni,
                (y as int) % ni == (gy * rv) % ni,
                (gy * pow(gx, e as nat)) % ni == pow(a as int, p as nat) % ni,
            decreases e,
        {
            let ghost (pgx, pgy, pe) = (gx, gy, e as nat);
            let ghost (xi, yi) = (x as int, y as int);
            proof {
                lemma2_to64();
                lemma2_to64_rest();
                assert(pow2(w) <= pow2(63)) by {
                    if w < 63 {
                        lemma_pow2_strictly_increases(w, 63);
                    }
                };
                assert(e & 1 == e % 2) by (bit_vector);
                lemma_square_and_multiply_step(pgx, pgy, pe, pow(a as int, p as nat) % ni, ni);
                assert(0 <= xi * yi < ni * rv && 0 <= xi * xi < ni * rv && ni * rv <= u128::MAX)
                    by (nonlinear_arith)
                    requires
                        0 <= xi < ni,
                        0 <= yi < ni,
                        2 < ni < rv,
                        rv <= 0x8000000000000000,
                ;
            }
            if e & 1 == 1 {
                y = self.reduction(x * y);
                proof {
                    lemma_mont_mul(ni, w, xi, yi, pgx, pgy, y as int);
                }
            }
            x = self.reduction(x * x);
            proof {
                lemma_mont_mul(ni, w, xi, xi, pgx, pgx, x as int);
                gx = pgx * pgx;
                if pe % 2 == 1 {
                    gy = pgy * pgx;
                    assert(pgx * pgy == pgy * pgx);
                }
                assert(e >> 1u64 == e / 2) by (bit_vector);
            }
            e >>= 1u64;
            proof {
                lemma_small_mod(x as nat, self.n as nat);
                lemma_small_mod(y as nat, self.n as nat);
            }
        }
        proof {
            assert(0 <= (y as int) < ni * rv) by (nonlinear_arith)
                requires
                    0 <= (y as int) < ni,
                    2 < ni,
                    rv >= 1,
            ;
        }
        let r = self.reduction(y);
        proof {
            lemma_pow0(gx);
            lemma_mul_basics(gy);
            lemma_mont_exit(ni, w, y as int, gy, r as int);
            lemma_small_mod(r as nat, self.n as nat);
            lemma_mod_equivalence(r as int, pow(a as int, p as nat), ni);
        }
        r
    }
}


/// Montgomery form round-trips through one reduction: for a residue
/// `0 <= x < n`, any reduction result congruent to `x * R` modulo the odd
/// modulus `n` is exactly `x`. With `reduction`'s contract this says
/// `reduction(x * R) == x` on every well-formed context.
pub proof fn lemma_reduction_round_trip(n: int, s: nat, x: int, r: int)
    requires
        n % 2 == 1,
        1 < n,
        0 <= x < n,
        0 <= r < n,
        (r * (pow2(s) as int)) % n == (x * (pow2(s) as int)) % n,
    ensures
        r == x,
{
    crate::arith::lemma_odd_cancel_pow2(r, x, s, n);
    lemma_small_mod(r as nat, n as nat);
    lemma_small_mod(x as nat, n as nat);
}

/// The Montgomery path agrees with the direct path: a nonnegative
/// `pow_mod`-style result below `n` that is congruent to `a^p` equals the
/// residue `a^p mod n` that a context's `powmod` returns.
pub proof fn lemma_powmod_matches_pow_mod(a: int, p: nat, n: int, r1: int, r2: int)
    requires
        n > 0,
        0 <= r1 < n,
        (r1 - pow(a, p)) % n == 0,
        r2 == pow(a, p) % n,
    ensures
        r1 == r2,
{
    lemma_mod_equivalence(r1, pow(a, p), n);
    lemma_small_mod(r1 as nat, n as nat);
}

/// After the conditional subtraction the reduced value still represents
/// `x / R` modulo `n`.
proof fn lemma_final_subtract(n: int, rv: int, u: int, x: int)
    requires
        n > 1,
        rv > 0,
        (u * rv) % n == x % n,
        n <= u,
    ensures
        ((u - n) * rv) % n == x % n,
{
    lemma_mod_multiples_vanish(-rv, u * rv, n);
    assert((u - n) * rv == n * (-rv) + u * rv) by (nonlinear_arith);
}

} // verus!

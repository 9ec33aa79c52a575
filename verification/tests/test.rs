use modulo_n_tools::montgomery::{Montgomery, Montgomery32, Montgomery64, MontgomeryOperation};
use modulo_n_tools::{add_mod, mul_mod, mul_pow_mod, pow_mod, sub_mod};

#[test]
fn pow_mod_test_small() {
    assert_eq!(pow_mod(2, 15, &30), 8);
    assert_eq!(pow_mod(3, 53, &31), 11);
    assert_eq!(pow_mod(6, 12, &77), 36);
    assert_eq!(pow_mod(2, 10, &16), 0);
    assert_eq!(pow_mod(6, 10, &12), 0);
}

#[test]
fn montgomery32_test_small() {
    let m = Montgomery32::new(31);
    assert_eq!(m.powmod(3, 53), 11);
    assert_eq!(m.powmod(5, 9), 1);
    let m = Montgomery32::new(77);
    assert_eq!(m.powmod(6, 12), 36);
    assert_eq!(m.powmod(17, 9), 13);
}

#[test]
fn montgomery64_test_small() {
    let m = Montgomery64::new(31);
    assert_eq!(m.powmod(3, 53), 11);
    assert_eq!(m.powmod(5, 9), 1);
    let m = Montgomery64::new(77);
    assert_eq!(m.powmod(6, 12), 36);
    assert_eq!(m.powmod(17, 9), 13);
}

#[test]
fn add_mod_examples() {
    assert_eq!(add_mod(&3, &4, &5), 2);
    assert_eq!(add_mod(&2, &5, &6), 1);
    assert_eq!(add_mod(&-3, &-2, &4), -1);
    assert_eq!(add_mod(&2, &3, &5), 0);
}

#[test]
fn sub_mod_examples() {
    assert_eq!(sub_mod(&3, &4, &5), -1);
    assert_eq!(sub_mod(&2, &-5, &6), 1);
    assert_eq!(sub_mod(&-2, &-3, &4), 1);
    assert_eq!(sub_mod(&2, &2, &5), 0);
    assert_eq!(sub_mod(&-3, &-2, &4), -1);
}

#[test]
fn mul_mod_examples() {
    assert_eq!(mul_mod(&3, &4, &5), 2);
    assert_eq!(mul_mod(&2, &5, &6), 4);
    assert_eq!(mul_mod(&-2, &-3, &4), 2);
    assert_eq!(mul_mod(&2, &3, &6), 0);
}

#[test]
fn pow_mod_examples() {
    assert_eq!(pow_mod(3, 4, &5), 1);
    assert_eq!(pow_mod(2, 5, &6), 2);
    assert_eq!(pow_mod(-2, 3, &4), 0);
    assert_eq!(pow_mod(2, 3, &7), 1);
    assert_eq!(pow_mod(2, 6, &7), 1);
    assert_eq!(pow_mod(7, 0, &5), 1);
}

#[test]
fn mul_pow_mod_examples() {
    assert_eq!(mul_pow_mod(1, 3, 4, &5), 1);
    assert_eq!(mul_pow_mod(1, 2, 5, &6), 2);
    assert_eq!(mul_pow_mod(1, -2, 3, &4), 0);
    assert_eq!(mul_pow_mod(1, 2, 3, &7), 1);
    assert_eq!(mul_pow_mod(3, 2, 4, &7), 6);
    assert_eq!(mul_pow_mod(4, 5, 0, &9), 4);
}

#[test]
fn fermat_direct_path() {
    // a^p is congruent to a modulo a prime p
    for p in [3i64, 5, 7, 31, 97, 1000003] {
        for a in [0i64, 1, 2, 12, 29] {
            let a = a % p;
            assert_eq!(pow_mod(a, p as u64, &p), a);
        }
    }
}

#[test]
fn fermat_montgomery64() {
    for p in [31u64, 97, 1000003, 2305843009213693951] {
        let m = Montgomery64::new(p);
        for a in [1u64, 2, 12, 29, 12345] {
            let a = a % p;
            assert_eq!(m.powmod(a, p), a);
        }
    }
}

#[test]
fn fermat_montgomery32() {
    for p in [31u32, 89, 97, 1000003, 2147483629] {
        let m = Montgomery32::new(p);
        for a in [1u32, 2, 12, 29, 12345] {
            let a = a % p;
            assert_eq!(m.powmod(a, p as u64), a);
        }
    }
}

#[test]
fn fermat_montgomery_generic() {
    for p in [31u128, 97, 1000003, 2305843009213693951] {
        let m = Montgomery::new(p);
        for a in [1u128, 2, 12, 29, 12345] {
            let a = a % p;
            assert_eq!(m.powmod(a, p as u64), a);
        }
    }
}

#[test]
fn montgomery_scenarios() {
    let m = Montgomery64::new(57);
    assert_eq!(m.powmod(5, 42), 7);
    let m = Montgomery32::new(89);
    assert_eq!(m.powmod(3, 57), 23);
    let m = Montgomery64::new(97);
    assert_eq!(m.powmod(2, 77), 65);
    let m = Montgomery::new(57u128);
    assert_eq!(m.powmod(5, 42), 7);
}

#[test]
fn reduction_round_trip() {
    // one reduction maps x * R back to x: Montgomery form round-trips
    let m = Montgomery64::new(97);
    for x in [0u64, 1, 5, 42, 96] {
        assert_eq!(m.reduction((x as u128) << 64), x);
    }
    let m = Montgomery32::new(31);
    for x in [0u32, 1, 7, 30] {
        assert_eq!(m.reduction((x as u64) << 32), x);
    }
    // the arbitrary-width context for 57 has a 6-bit radix, R = 64
    let m = Montgomery::new(57u128);
    for x in [0u128, 1, 5, 42, 56] {
        assert_eq!(m.reduction(x * 64), x);
    }
}

#[test]
fn convert_enters_montgomery_form() {
    // convert(x) is x * R mod n; for R = 2^64 and n = 97 check the values
    let m = Montgomery64::new(97);
    for x in [0u64, 1, 5, 96] {
        let expected = ((x as u128) << 64) % 97;
        assert_eq!(m.convert(x) as u128, expected);
    }
}

#[test]
fn montgomery_matches_pow_mod() {
    // the Montgomery path and the direct path compute the same residues
    for n in [57u64, 77, 89, 101, 99991, 1234567891] {
        for a in [0u64, 1, 2, 3, 29, 1234] {
            let a = a % n;
            for e in [0u64, 1, 2, 13, 42, 1000] {
                let direct = pow_mod(a as i64, e, &(n as i64)) as u64;
                assert_eq!(Montgomery64::new(n).powmod(a, e), direct);
                assert_eq!(Montgomery::new(n as u128).powmod(a as u128, e), direct as u128);
                if n < 0x8000_0000 {
                    assert_eq!(Montgomery32::new(n as u32).powmod(a as u32, e), direct as u32);
                }
            }
        }
    }
}

#[test]
fn add_sub_stay_in_range() {
    for m in [1i64, 2, 5, 1000, i64::MAX / 2] {
        for a in [-m, -m / 2, 0, 1.min(m), m] {
            for b in [-m, -m / 3, 0, m] {
                let s = add_mod(&a, &b, &m);
                assert!(-m <= s && s <= m);
                assert_eq!((s as i128 - (a as i128 + b as i128)) % m as i128, 0);
                let d = sub_mod(&a, &b, &m);
                assert!(-m <= d && d <= m);
                assert_eq!((d as i128 - (a as i128 - b as i128)) % m as i128, 0);
            }
        }
    }
}

#[test]
fn n_prime_is_negated_inverse() {
    // the defining property of the precomputed constant:
    // n * calc_n_prime(n, s) == -1 modulo 2^s
    for n in [3u64, 57, 977, 0x7fff_ffff_ffff_ffe7] {
        let np = Montgomery64::calc_n_prime(&n, 64);
        assert_eq!(n.wrapping_mul(np).wrapping_add(1), 0);
    }
    for n in [3u32, 57, 977, 0x7fff_ffed] {
        let np = Montgomery32::calc_n_prime(&n, 32);
        assert_eq!(n.wrapping_mul(np).wrapping_add(1), 0);
    }
    for n in [57u128, 977] {
        // 57 and 977 have bit lengths 6 and 10
        let s = if n == 57 { 6u32 } else { 10u32 };
        let np = Montgomery::calc_n_prime(&n, s);
        assert_eq!((n * np + 1) % (1u128 << s), 0);
    }
}

#[test]
fn negative_bases_keep_their_sign() {
    // the result is the truncated remainder of the power itself
    assert_eq!(pow_mod(-5, 7, &7), -5);
    assert_eq!(pow_mod(-1, 1, &3), -1);
    assert_eq!(pow_mod(-3, 3, &5), -2);
    assert_eq!(mul_pow_mod(-1, 2, 3, &5), -3);
    assert_eq!(mul_mod(&-9223372036854775807, &1, &4), -3);
    // the most negative representable product is admitted
    assert_eq!(mul_mod(&-2147483648, &4294967296, &8), 0);
}

#[test]
fn unit_seed_reproduces_pow_mod() {
    // seeding the accumulator with 1 gives plain exponentiation,
    // negative bases included
    for m in [3i64, 4, 7, 31] {
        for base in [-3i64, -2, -1, 0, 1, 2, 3] {
            let base = base % m;
            for p in [1u64, 2, 3, 10, 31] {
                assert_eq!(mul_pow_mod(1, base, p, &m), pow_mod(base, p, &m));
            }
        }
    }
}

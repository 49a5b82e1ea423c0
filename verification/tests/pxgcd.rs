use num_bigint::BigInt;
use num_bigint::Sign;
use num_integer::Integer;
use num_traits::Signed;
use pxgcd::partial_extended_gcd;
use pxgcd::partial_extended_gcd_plain;
use pxgcd::shift_trunc;

fn xorshift64(state: &mut u64) -> u64 {
    let mut x: u64 = *state;
    x ^= x << 13;
    x ^= x >> 7;
    x ^= x << 17;
    *state = x;
    x
}

fn seed_from(bytes: &[u8]) -> u64 {
    let mut s: u64 = 0x9e37_79b9_7f4a_7c15;
    for b in bytes {
        s = s.rotate_left(8) ^ (*b as u64) ^ 0x2545_f491_4f6c_dd1d;
    }
    s
}

fn gen_bigint_bits(state: &mut u64, bits: usize) -> BigInt {
    let nbytes: usize = (bits + 7) / 8;
    let mut bytes: Vec<u8> = Vec::with_capacity(nbytes);
    let mut i: usize = 0;
    while i < nbytes {
        bytes.push((xorshift64(state) & 0xff) as u8);
        i += 1;
    }
    BigInt::from_bytes_be(Sign::Plus, &bytes)
}

fn identity_magnitude(co2: &BigInt, co1: &BigInt, r2: &BigInt, r1: &BigInt) -> BigInt {
    let t1: BigInt = co2 * r1 - co1 * r2;
    t1.abs()
}

#[test]
fn test_partial_extended_gcd() {
    let mut rng: u64 = seed_from(&[1u8; 16]);

    /* Test co2*r1 - co1*r2 = r2_orig */
    let mut g: BigInt = gen_bigint_bits(&mut rng, 2000);
    g += BigInt::from(1);
    let h: BigInt = gen_bigint_bits(&mut rng, 2000);
    let f: BigInt = h.mod_floor(&g);
    let l: BigInt = gen_bigint_bits(&mut rng, 1000);

    let t2: BigInt = g.abs();

    let (co2, co1, r2, r1) = partial_extended_gcd(&g, &f, &l);

    let t1: BigInt = identity_magnitude(&co2, &co1, &r2, &r1);
    assert_eq!(&t1, &t2);
}

#[test]
fn concrete_240_46_bound_1() {
    let g = BigInt::from(240);
    let f = BigInt::from(46);
    let l = BigInt::from(1);
    let (co2, co1, r2, r1) = partial_extended_gcd(&g, &f, &l);
    assert_eq!(r2, BigInt::from(2));
    assert_eq!(r1, BigInt::from(0));
    // The r1 term of the identity vanishes, so |co1| * r2 must give back the
    // original larger remainder; the identity's sign is the caller's to fix.
    assert_eq!(co1.abs(), BigInt::from(120));
    assert_eq!(identity_magnitude(&co2, &co1, &r2, &r1), BigInt::from(240));
}

#[test]
fn noop_when_r1_zero() {
    let g = BigInt::from(240);
    let f = BigInt::from(0);
    let l = BigInt::from(5);
    let (co2, co1, r2, r1) = partial_extended_gcd(&g, &f, &l);
    assert_eq!(co2, BigInt::from(0));
    assert_eq!(co1, BigInt::from(-1));
    assert_eq!(r2, BigInt::from(240));
    assert_eq!(r1, BigInt::from(0));
}

#[test]
fn noop_when_r1_at_most_bound() {
    let g = BigInt::from(240);
    let f = BigInt::from(46);
    let l = BigInt::from(46);
    let (co2, co1, r2, r1) = partial_extended_gcd(&g, &f, &l);
    assert_eq!(co2, BigInt::from(0));
    assert_eq!(co1, BigInt::from(-1));
    assert_eq!(r2, BigInt::from(240));
    assert_eq!(r1, BigInt::from(46));
}

#[test]
fn termination_bound_and_nonnegativity() {
    let mut rng: u64 = seed_from(b"bound-check");
    let mut round: usize = 0;
    while round < 20 {
        let bits: usize = 64 + 61 * round;
        let mut g: BigInt = gen_bigint_bits(&mut rng, bits);
        g += BigInt::from(1);
        let f: BigInt = gen_bigint_bits(&mut rng, bits).mod_floor(&g);
        let l: BigInt = gen_bigint_bits(&mut rng, bits / 2);
        let (co2, co1, r2, r1) = partial_extended_gcd(&g, &f, &l);
        assert!(r2.sign() != Sign::Minus);
        assert!(r2 >= r1);
        assert!(r1 == BigInt::from(0) || r1 <= l);
        assert_eq!(identity_magnitude(&co2, &co1, &r2, &r1), g.abs());
        round += 1;
    }
}

#[test]
fn cross_check_against_plain_reference() {
    let mut rng: u64 = seed_from(b"cross-check");
    let mut round: usize = 0;
    while round < 12 {
        let bits: usize = 48 + 97 * round;
        let mut g: BigInt = gen_bigint_bits(&mut rng, bits);
        g += BigInt::from(1);
        let f: BigInt = gen_bigint_bits(&mut rng, bits).mod_floor(&g);
        let l: BigInt = gen_bigint_bits(&mut rng, bits / 3);
        let (aco2, aco1, ar2, ar1) = partial_extended_gcd(&g, &f, &l);
        let (pco2, pco1, pr2, pr1) = partial_extended_gcd_plain(&g, &f, &l);
        assert_eq!(ar2, pr2);
        assert_eq!(ar1, pr1);
        assert_eq!(identity_magnitude(&aco2, &aco1, &ar2, &ar1), g.abs());
        assert_eq!(identity_magnitude(&pco2, &pco1, &pr2, &pr1), g.abs());
        round += 1;
    }
}

#[test]
fn full_gcd_when_bound_zero() {
    let g = BigInt::from(240);
    let f = BigInt::from(46);
    let l = BigInt::from(0);
    let (_co2, co1, r2, r1) = partial_extended_gcd(&g, &f, &l);
    assert_eq!(r2, BigInt::from(2));
    assert_eq!(r1, BigInt::from(0));
    assert_eq!(co1.abs(), BigInt::from(120));

    let mut rng: u64 = seed_from(b"gcd-oracle");
    let mut round: usize = 0;
    while round < 8 {
        let bits: usize = 80 + 133 * round;
        let mut a: BigInt = gen_bigint_bits(&mut rng, bits);
        a += BigInt::from(1);
        let b: BigInt = gen_bigint_bits(&mut rng, bits).mod_floor(&a);
        let (_c2, _c1, r2, r1) = partial_extended_gcd(&a, &b, &BigInt::from(0));
        assert_eq!(r1, BigInt::from(0));
        assert_eq!(r2, a.gcd(&b));
        round += 1;
    }
}

#[test]
fn gcd_preserved_when_stopping_above_zero() {
    let g = BigInt::from(10);
    let f = BigInt::from(7);
    let l = BigInt::from(5);
    let (co2, co1, r2, r1) = partial_extended_gcd(&g, &f, &l);
    assert_eq!(r2, BigInt::from(7));
    assert_eq!(r1, BigInt::from(3));
    assert_eq!(r2.gcd(&r1), g.gcd(&f));
    assert!(r2 >= r1);
    assert_eq!(identity_magnitude(&co2, &co1, &r2, &r1), BigInt::from(10));

    let (_p2, _p1, pr2, pr1) = partial_extended_gcd_plain(&g, &f, &l);
    assert_eq!(pr2, BigInt::from(7));
    assert_eq!(pr1, BigInt::from(3));
}

#[test]
fn equal_remainders() {
    let g = BigInt::from(100);
    let f = BigInt::from(100);
    let l = BigInt::from(1);
    let (co2, co1, r2, r1) = partial_extended_gcd(&g, &f, &l);
    assert_eq!(r2, BigInt::from(100));
    assert_eq!(r1, BigInt::from(0));
    assert_eq!(identity_magnitude(&co2, &co1, &r2, &r1), BigInt::from(100));
}

#[test]
fn large_random_scenario() {
    let mut rng: u64 = seed_from(b"large-random");
    let mut g: BigInt = gen_bigint_bits(&mut rng, 4096);
    g += BigInt::from(1);
    let f: BigInt = gen_bigint_bits(&mut rng, 4096).mod_floor(&g);
    let l: BigInt = gen_bigint_bits(&mut rng, 2048);
    let (co2, co1, r2, r1) = partial_extended_gcd(&g, &f, &l);
    assert_eq!(identity_magnitude(&co2, &co1, &r2, &r1), g.abs());
    assert!(r1 == BigInt::from(0) || r1 <= l);
    assert!(r2.sign() != Sign::Minus);
}

#[test]
fn shift_trunc_floors_non_negative_values() {
    assert_eq!(shift_trunc(&BigInt::from(7), 2), BigInt::from(1));
    assert_eq!(shift_trunc(&BigInt::from(8), 2), BigInt::from(2));
    assert_eq!(shift_trunc(&BigInt::from(0), 5), BigInt::from(0));
    assert_eq!(shift_trunc(&BigInt::from(12345), 0), BigInt::from(12345));
}

#[test]
fn shift_trunc_ceils_negative_values() {
    assert_eq!(shift_trunc(&BigInt::from(-7), 2), BigInt::from(-1));
    assert_eq!(shift_trunc(&BigInt::from(-8), 2), BigInt::from(-2));
    assert_eq!(shift_trunc(&BigInt::from(-1), 10), BigInt::from(0));
    assert_eq!(shift_trunc(&BigInt::from(-1024), 10), BigInt::from(-1));
}

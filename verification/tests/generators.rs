use num::BigUint;
use primegen::big::Big;
use primegen::random::{gen_blum_blum_shub, gen_linear_congruential_generator, Error};

fn to_biguint(b: &Big) -> BigUint {
    BigUint::new(b.to_limbs())
}

#[test]
fn bbs_test_100b() {
    let value = gen_blum_blum_shub(
        Big::from_u64(30000000091),
        Big::from_u64(40000000003),
        Big::from_u64(4882516701),
        100,
    )
    .unwrap();
    println!("Generated Value: {}", to_biguint(&value));
    println!("Generated Binary: {:b}", to_biguint(&value));
}

#[test]
fn bbs_test_100b_x100() {
    for _ in 0..100 {
        gen_blum_blum_shub(
            Big::from_u64(30000000091),
            Big::from_u64(40000000003),
            Big::from_u64(4882516701),
            100,
        )
        .unwrap();
    }
}

#[test]
fn bbs_test_100b_x1000() {
    for _ in 0..1000 {
        gen_blum_blum_shub(
            Big::from_u64(30000000091),
            Big::from_u64(40000000003),
            Big::from_u64(4882516701),
            100,
        )
        .unwrap();
    }
}

#[test]
fn lcg_test_100b_x100() {
    let curr_time = std::time::SystemTime::now()
        .duration_since(std::time::UNIX_EPOCH)
        .unwrap();
    let mut value = Big::from_u128(curr_time.as_millis());
    let modulus = Big::pow2_big(64);
    let multiplier = Big::from_u64(6364136223846793005);
    let increment = Big::from_u64(1);
    for _ in 0..100 {
        value = gen_linear_congruential_generator(&modulus, &multiplier, &increment, &value)
            .unwrap();
        println!("{}", to_biguint(&value));
    }
}

#[test]
fn bbs_exact_small_value() {
    // p = 11, q = 19, seed = 3, eight bits: the bit stream is 1,1,1,0,0,0,0,0,
    // packed least significant first, so the value is 7.
    let value = gen_blum_blum_shub(Big::from_u64(11), Big::from_u64(19), Big::from_u64(3), 8)
        .unwrap();
    assert!(value.equals(&Big::from_u64(7)));
}

#[test]
fn bbs_deterministic_and_seed_sensitive() {
    let run = |seed: u64| {
        gen_blum_blum_shub(
            Big::from_u64(30000000091),
            Big::from_u64(40000000003),
            Big::from_u64(seed),
            100,
        )
        .unwrap()
    };
    let a = run(4882516701);
    let b = run(4882516701);
    assert!(a.equals(&b));
    let expected = BigUint::parse_bytes(b"406382377500594060109544981539", 10).unwrap();
    assert_eq!(to_biguint(&a), expected);
    let c = run(4882516702);
    assert!(!a.equals(&c));
}

#[test]
fn bbs_rejects_seed_sharing_a_factor() {
    // A seed that is an exact multiple of p fails with NotCoPrimeError(seed, p).
    let p = 30000000091u64;
    let q = 40000000003u64;
    let r = gen_blum_blum_shub(Big::from_u64(p), Big::from_u64(q), Big::from_u64(p), 100);
    match r {
        Err(Error::NotCoPrimeError(value, factor)) => {
            assert!(value.equals(&Big::from_u64(p)));
            assert!(factor.equals(&Big::from_u64(p)));
        }
        _ => panic!("expected NotCoPrimeError for a seed equal to p"),
    }
    // A multiple of q is caught against q.
    let seed_q = Big::from_u64(q).times(&Big::from_u64(3));
    let r = gen_blum_blum_shub(Big::from_u64(p), Big::from_u64(q), seed_q, 100);
    match r {
        Err(Error::NotCoPrimeError(value, factor)) => {
            assert_eq!(to_biguint(&value), BigUint::from(q) * 3u32);
            assert!(factor.equals(&Big::from_u64(q)));
        }
        _ => panic!("expected NotCoPrimeError for a seed divisible by q"),
    }
}

#[test]
fn lcg_exact_small_value() {
    // modulus 256, multiplier 13, increment 7, seed 5: the recurrence gives
    // 72 (7 bits) and then 175 (8 bits), the first value one bit short of the
    // modulus's nine bits.
    let r = gen_linear_congruential_generator(
        &Big::from_u64(256),
        &Big::from_u64(13),
        &Big::from_u64(7),
        &Big::from_u64(5),
    )
    .unwrap();
    assert!(r.equals(&Big::from_u64(175)));
}

#[test]
fn lcg_deterministic() {
    let run = || {
        gen_linear_congruential_generator(
            &Big::pow2_big(64),
            &Big::from_u64(6364136223846793005),
            &Big::from_u64(1),
            &Big::from_u64(987654321),
        )
        .unwrap()
    };
    let a = run();
    let b = run();
    assert!(a.equals(&b));
}

#[test]
fn big_canonical_representation() {
    // High zero digits are discarded, so equal values compare equal whatever
    // the digit vector they came from.
    let a = Big::from_limbs(vec![5, 0, 0]);
    assert!(a.equals(&Big::from_u64(5)));
    let b = Big::from_limbs(vec![0, 1]);
    assert!(b.equals(&Big::from_u64(0x1_0000_0000)));
    assert_eq!(b.to_limbs(), vec![0, 1]);
    assert!(Big::from_u64(5).lt(&b));
    assert!(!b.lt(&Big::from_u64(5)));
    assert!(Big::zero().lt(&Big::from_u64(1)));
    assert_eq!(Big::from_u128(1u128 << 64).to_limbs(), vec![0, 0, 1]);
}

#[test]
fn lcg_reports_oversized_modulus() {
    // A modulus of more than 2^32 bits overflows the 32-bit bit-length count.
    let limb_count = (1usize << 27) + 1;
    let mut limbs = vec![0u32; limb_count];
    limbs[limb_count - 1] = 1;
    let modulus = Big::from_limbs(limbs);
    let r = gen_linear_congruential_generator(
        &modulus,
        &Big::from_u64(13),
        &Big::from_u64(7),
        &Big::from_u64(5),
    );
    assert!(matches!(r, Err(Error::ConversionError)));
}

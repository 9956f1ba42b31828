use num::BigUint;
use primegen::big::Big;
use primegen::prime::{
    gen_prime_number_lcg_fermat, gen_prime_number_lcg_fermat_parallel, gen_prime_number_lcg_miller,
    is_prime_fermat, is_prime_fermat_parallel_seeded, is_prime_fermat_seeded,
    is_prime_miller_rabin,
};
use std::str::FromStr;

fn to_biguint(b: &Big) -> BigUint {
    BigUint::new(b.to_limbs())
}

#[test]
fn test_is_prime_miller_rabin() {
    // Test Prime for 9973
    let value = Big::from_u64(9973);
    let is_prime = is_prime_miller_rabin(&value, 5);
    println!("Primality Test for {}: {}", to_biguint(&value), is_prime);
    assert!(is_prime);
}

#[test]
fn test_gen_prime_number_lcg_miller_64bits() {
    let now = Big::from_u64(
        std::time::SystemTime::now()
            .duration_since(std::time::UNIX_EPOCH)
            .unwrap()
            .as_secs(),
    );
    let prime = gen_prime_number_lcg_miller(64, 10, &now).unwrap();
    println!("Generated Prime: {}", to_biguint(&prime));
}

#[test]
fn test_is_prime_fermat_4096b() {
    let value = BigUint::from_str(
        &("5032108614105155921437439173060598007572804606272059045731565".to_owned()
            + "0693101422745814776681881943192812304344032158270870298941881"
            + "6285088506084110780952542129451826791391722798388151644430398"
            + "0827717928749084620399680065868086077959315957142137796590062"
            + "2480860091739142766118168466473207409136845917340718245823578"
            + "5211331076584902596668116189374109183543358706754339897233416"
            + "8855433337777974927243324153497478324925298158794414658941220"
            + "2258764718310578302531840997789158562203198976679360000244988"
            + "0251495448520816829432260316149211271847883211383038151488703"
            + "7935581711366407594986149619699304185556925012236276693571349"
            + "2909216756846033472391677268923650119990441599857011197624522"
            + "4403416160220064935525553798681545807605456355114781182993048"
            + "0300929981521347844212601094086282704002482719090858261171281"
            + "4740242883292954086344804011987706789189435928147029145454319"
            + "6151738778643556297999434751245948403910524333740247347784033"
            + "9114540844959154243819773903383326614738359417567143831561748"
            + "5020779690474010835789851621218933093421456285658900192831197"
            + "3111208769618231139156648679292489058721306888434442929011109"
            + "1269883106486781637133042440614058767377199942747257969666515"
            + "7443581950575419390533080958316659709310236517328719281051920"
            + "2026984277671"),
    )
    .unwrap();
    let value = Big::from_limbs(value.to_u32_digits());
    // Test With Fermat
    let is_prime = is_prime_fermat(&value, 10);
    println!("[Fermat] Result: {}", is_prime);
}

#[test]
fn miller_rabin_rejects_even_numbers() {
    for n in [4u64, 6, 100, 1024, 3000000000] {
        for rounds in [1usize, 5, 50] {
            assert!(!is_prime_miller_rabin(&Big::from_u64(n), rounds));
        }
    }
}

#[test]
fn miller_rabin_accepts_two_and_three() {
    for rounds in [0usize, 1, 5, 50] {
        assert!(is_prime_miller_rabin(&Big::from_u64(2), rounds));
        assert!(is_prime_miller_rabin(&Big::from_u64(3), rounds));
    }
}

#[test]
fn miller_rabin_rejects_nine() {
    // 9 = 3 * 3; the reproducible witness schedule rejects it with any
    // positive round count.
    assert!(!is_prime_miller_rabin(&Big::from_u64(9), 1));
    assert!(!is_prime_miller_rabin(&Big::from_u64(9), 5));
    assert!(!is_prime_miller_rabin(&Big::from_u64(9), 50));
}

#[test]
fn miller_rabin_known_values() {
    // A few more exact verdicts on small numbers.
    assert!(is_prime_miller_rabin(&Big::from_u64(5), 3));
    assert!(is_prime_miller_rabin(&Big::from_u64(104729), 10));
    assert!(!is_prime_miller_rabin(&Big::from_u64(15), 3));
    assert!(!is_prime_miller_rabin(&Big::from_u64(104727), 10));
}

#[test]
fn gen_prime_miller_64bit_is_odd_full_length_and_probably_prime() {
    let seed = Big::from_u64(123456789);
    let p = gen_prime_number_lcg_miller(64, 10, &seed).unwrap();
    let as_num = to_biguint(&p);
    assert_eq!(as_num.bits(), 64);
    assert!(p.is_odd());
    // A higher round count agrees: the witness schedule is reproducible.
    assert!(is_prime_miller_rabin(&p, 50));
}

#[test]
fn gen_prime_fermat_32bit_is_odd_and_full_length() {
    let seed = Big::from_u64(42424242);
    let p = gen_prime_number_lcg_fermat(32, 5, &seed).unwrap();
    assert_eq!(to_biguint(&p).bits(), 32);
    assert!(p.is_odd());
}

#[test]
fn gen_prime_fermat_parallel_32bit_is_odd_and_full_length() {
    let seed = Big::from_u64(24242424);
    let p = gen_prime_number_lcg_fermat_parallel(32, 8, &seed, 4).unwrap();
    assert_eq!(to_biguint(&p).bits(), 32);
    assert!(p.is_odd());
}

#[test]
fn fermat_parallel_zero_round_share_accepts_everything() {
    // With fewer rounds than workers each worker's share is zero rounds, so
    // the partitioned test accepts even a composite.
    let seed = Big::from_u64(5555);
    assert!(is_prime_fermat_parallel_seeded(&Big::from_u64(9975), 1, 4, &seed));
}

#[test]
fn gen_prime_fermat_parallel_zero_round_share_returns_first_candidate() {
    // With strongness below threads no primality evidence is gathered and
    // the search returns its first shaped candidate: for 16 bits from seed
    // 777 the recurrence's first 16-bit draw is 63519, shaped to 64527.
    let seed = Big::from_u64(777);
    let p = gen_prime_number_lcg_fermat_parallel(16, 1, &seed, 4).unwrap();
    assert!(p.equals(&Big::from_u64(64527)));
}

#[test]
fn fermat_seeded_exact_verdicts() {
    // The seeded chain is reproducible: 9973 is prime and accepted, 9975 is
    // composite and rejected.
    let seed = Big::from_u64(12345);
    assert!(is_prime_fermat_seeded(&Big::from_u64(9973), 3, &seed));
    assert!(!is_prime_fermat_seeded(&Big::from_u64(9975), 3, &seed));
}

#[test]
fn fermat_parallel_one_worker_matches_sequential() {
    for n in [9973u64, 9975, 104729, 15] {
        for seed in [12345u64, 777, 999999999] {
            let big_n = Big::from_u64(n);
            let big_seed = Big::from_u64(seed);
            let sequential = is_prime_fermat_seeded(&big_n, 6, &big_seed);
            let one_worker = is_prime_fermat_parallel_seeded(&big_n, 6, 1, &big_seed);
            assert_eq!(sequential, one_worker);
        }
    }
}

#[test]
fn fermat_parallel_partitions_rounds() {
    // With identically seeded workers the partitioned verdict equals the
    // sequential verdict over rounds / threads rounds.
    let big_n = Big::from_u64(9973);
    let big_seed = Big::from_u64(31337);
    let partitioned = is_prime_fermat_parallel_seeded(&big_n, 9, 4, &big_seed);
    let collapsed = is_prime_fermat_seeded(&big_n, 2, &big_seed);
    assert_eq!(partitioned, collapsed);
}

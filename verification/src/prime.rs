//! Probabilistic primality testing (Miller-Rabin and Fermat, with a
//! worker-partitioned Fermat variant) and the prime-search loops that shape
//! linear-congruential draws into odd candidates of an exact bit length.

use vstd::prelude::*;
use vstd::arithmetic::power::{
    pow, lemma_pow1, lemma_pow_mod_noop, lemma_pow_multiplies,
};
use vstd::arithmetic::power2::{
    pow2, lemma_pow2_pos, lemma_pow2_strictly_increases, lemma_pow2_unfold,
};
use vstd::arithmetic::div_mod::lemma_small_mod;
use crate::big::{Big, bit_len, gcd_spec, lemma_bit_len_from_bounds, lemma_bit_len_monotone};
use crate::random::{
    Error, LCG_STEP_BUDGET, boundary_hit, boundary_result, gen_linear_congruential_generator,
    is_boundary_index, lcg_iter, lemma_boundary_result_of_index,
};

verus! {

/// Multiplier of the witness-drawing recurrence, a well-known 64-bit linear
/// congruential constant; its increment is one.
pub const WITNESS_MULTIPLIER: u64 = 6364136223846793005;

/// Fixed internal seed of the witness-drawing recurrence: the witness
/// schedule is deliberately reproducible across calls rather than drawn from
/// an entropy source.
pub const MILLER_RABIN_SEED: u64 = 1442695040888963407;

/// Multiplier of the candidate-drawing recurrence (the POSIX `rand`
/// constant).
pub const POSIX_MULTIPLIER: u64 = 25214903917;

/// Increment of the candidate-drawing recurrence.
pub const POSIX_INCREMENT: u64 = 11;

/// How many candidates a prime search may try before it gives up; large
/// enough that exhaustion is practically unreachable.
pub const PRIME_SEARCH_BUDGET: u64 = 0xFFFF_FFFF_FFFF_FFFF;

/// The exponent of the least power of two at or above `n` (zero for `n <= 1`).
pub open spec fn next_pow2_exp(n: nat) -> nat
    decreases n,
{
    if n <= 1 {
        0
    } else {
        1 + next_pow2_exp(((n + 1) / 2) as nat)
    }
}

/// The least power of two at or above `n`.
pub open spec fn next_pow2(n: nat) -> nat {
    pow2(next_pow2_exp(n))
}

/// `next_pow2` reaches `n`.
pub proof fn lemma_next_pow2_ge(n: nat)
    ensures
        n <= next_pow2(n),
    decreases n,
{
    if n <= 1 {
        assert(pow2(0) == 1) by {
            vstd::arithmetic::power2::lemma2_to64();
        }
    } else {
        let h = ((n + 1) / 2) as nat;
        lemma_next_pow2_ge(h);
        lemma_pow2_unfold(next_pow2_exp(n));
        assert(2 * h >= n);
    }
}

/// `next_pow2` is the least power of two at or above `n`.
pub proof fn lemma_next_pow2_min(n: nat, e: nat)
    requires
        n <= pow2(e),
    ensures
        next_pow2_exp(n) <= e,
        next_pow2(n) <= pow2(e),
    decreases n,
{
    if n <= 1 {
        if e > 0 {
            lemma_pow2_strictly_increases(0, e);
        }
    } else {
        assert(pow2(0) == 1) by {
            vstd::arithmetic::power2::lemma2_to64();
        }
        if e == 0 {
            assert(false);
        }
        lemma_pow2_unfold(e);
        let h = ((n + 1) / 2) as nat;
        assert(h <= pow2((e - 1) as nat));
        lemma_next_pow2_min(h, (e - 1) as nat);
        if next_pow2_exp(n) > e {
            lemma_pow2_strictly_increases(e, next_pow2_exp(n));
            assert(false);
        }
        if next_pow2(n) > pow2(e) {
            if next_pow2_exp(n) < e {
                lemma_pow2_strictly_increases(next_pow2_exp(n), e);
            }
            assert(false);
        }
    }
}

/// The power of two out of `m`: the largest `r` with `2^r` dividing `m`.
pub open spec fn two_adic(m: nat) -> nat
    decreases m,
{
    if m == 0 {
        0
    } else if m % 2 == 1 {
        0
    } else {
        1 + two_adic(m / 2)
    }
}

/// The odd factor left of `m` once every factor of two is removed.
pub open spec fn odd_part(m: nat) -> nat
    decreases m,
{
    if m == 0 {
        0
    } else if m % 2 == 1 {
        m
    } else {
        odd_part(m / 2)
    }
}

/// Every positive number is its odd part scaled by its power of two.
pub proof fn lemma_two_adic_decomposition(m: nat)
    requires
        m > 0,
    ensures
        m == pow2(two_adic(m)) * odd_part(m),
        odd_part(m) % 2 == 1,
        odd_part(m) >= 1,
    decreases m,
{
    if m % 2 == 1 {
        assert(pow2(0) == 1) by {
            vstd::arithmetic::power2::lemma2_to64();
        }
        vstd::arithmetic::mul::lemma_mul_basics(m as int);
    } else {
        lemma_two_adic_decomposition(m / 2);
        lemma_pow2_unfold(two_adic(m));
        let r = two_adic(m / 2);
        let d = odd_part(m / 2);
        assert(2 * (pow2(r) * d) == (2 * pow2(r)) * d) by (nonlinear_arith);
        assert(m == 2 * (m / 2));
    }
}

/// The two-adic valuation of a positive number is below its bit length.
pub proof fn lemma_two_adic_below_bit_len(m: nat)
    requires
        m > 0,
    ensures
        two_adic(m) < bit_len(m),
{
    lemma_two_adic_decomposition(m);
    crate::big::lemma_bit_len_bounds(m);
    assert(pow2(two_adic(m)) <= m) by {
        lemma_pow2_pos(two_adic(m));
        vstd::arithmetic::mul::lemma_mul_inequality(1, odd_part(m) as int, pow2(two_adic(m)) as int);
        assert(pow2(two_adic(m)) * odd_part(m) == odd_part(m) * pow2(two_adic(m)))
            by (nonlinear_arith);
    }
    if two_adic(m) >= bit_len(m) {
        if two_adic(m) > bit_len(m) {
            lemma_pow2_strictly_increases(bit_len(m), two_adic(m));
        }
        assert(false);
    }
}

/// The space the witness recurrence runs in: two to the least power of two at
/// or above the candidate's bit length.
pub open spec fn witness_space(n: nat) -> nat {
    pow2(next_pow2(bit_len(n)))
}

/// A value clamped into the inclusive range `[lo, hi]`.
pub open spec fn clamp_spec(v: nat, lo: nat, hi: nat) -> nat {
    if v < lo {
        lo
    } else if v > hi {
        hi
    } else {
        v
    }
}

/// The witness drawn for a candidate `n`: the boundary-rejection recurrence
/// in the witness space, from the fixed internal seed, clamped into
/// `[2, n - 2]`.
pub open spec fn mr_witness(n: nat) -> nat {
    clamp_spec(
        boundary_result(witness_space(n), WITNESS_MULTIPLIER as nat, 1, MILLER_RABIN_SEED as nat),
        2,
        (n - 2) as nat,
    )
}

/// One Miller-Rabin round is inconclusive for odd `n >= 5` and witness `w`:
/// with `n - 1 == 2^r * d` (`d` odd) and `x_0 == w^d mod n`, either `x_0` is
/// `1` or `n - 1`, or one of the first `r - 1` repeated squarings of `x_0`
/// reaches `n - 1`.
pub open spec fn mr_round_inconclusive(n: nat, w: nat) -> bool {
    let d = odd_part((n - 1) as nat);
    let r = two_adic((n - 1) as nat);
    let x0 = pow(w as int, d) % (n as int);
    ||| x0 == 1
    ||| x0 == n - 1
    ||| exists|j: int|
        1 <= j < r && #[trigger] pow(x0, pow2(j as nat)) % (n as int) == n - 1
}

/// The outcome of the Miller-Rabin test. `2` and `3` are prime, other even
/// numbers are composite, and an odd candidate is probably prime when the round on its
/// (fixed, reproducible) witness is inconclusive. Every round draws the same
/// witness, so one round decides for any positive round count.
pub open spec fn mr_verdict(n: nat, rounds: nat) -> bool {
    if n == 2 || n == 3 {
        true
    } else if n % 2 == 0 {
        false
    } else {
        rounds == 0 || mr_round_inconclusive(n, mr_witness(n))
    }
}

/// The witness recurrence from seed `s` in `n`'s witness space hits its
/// boundary within the step budget.
pub open spec fn witness_draw_available(n: nat, s: nat) -> bool {
    exists|k: nat|
        1 <= k <= LCG_STEP_BUDGET && #[trigger] is_boundary_index(
            witness_space(n),
            WITNESS_MULTIPLIER as nat,
            1,
            s,
            k,
        )
}

/// Exactly what the Miller-Rabin tester returns. It refines `mr_verdict`
/// with the one way the two can part: when the witness draw would use up its
/// step budget, the tester declares the candidate composite rather than
/// consult a witness. Every input is therefore pinned, and the result is a
/// pure function of the candidate and the round count.
pub open spec fn mr_accepts(n: nat, rounds: nat) -> bool {
    if n == 2 || n == 3 {
        true
    } else if n % 2 == 0 {
        false
    } else if rounds == 0 {
        true
    } else if witness_draw_available(n, MILLER_RABIN_SEED as nat) {
        mr_verdict(n, rounds)
    } else {
        false
    }
}

/// Even numbers above three fail Miller-Rabin, whatever the round count.
pub proof fn lemma_miller_rabin_even_composite(n: nat, rounds: nat)
    requires
        n % 2 == 0,
        n > 3,
    ensures
        !mr_verdict(n, rounds),
{
}

/// Two and three pass Miller-Rabin, whatever the round count.
pub proof fn lemma_miller_rabin_small_primes(rounds: nat)
    ensures
        mr_verdict(2, rounds),
        mr_verdict(3, rounds),
{
}

/// With at least one round, the Miller-Rabin verdict does not depend on the
/// round count: every round examines the same reproducible witness.
pub proof fn lemma_miller_rabin_rounds_agree(n: nat, r1: nat, r2: nat)
    requires
        r1 >= 1,
        r2 >= 1,
    ensures
        mr_verdict(n, r1) == mr_verdict(n, r2),
{
}


/// The known composite nine is rejected with any positive round count: the
/// reproducible witness schedule walks the recurrence 4, 5, 2, 11 in the
/// sixteen-element witness space, clamps the draw 11 into [2, 7], and the
/// round on witness 7 is conclusive, since 7^1, 7^2 and 7^4 are 7, 4 and 7
/// modulo nine and never reach eight.
pub proof fn lemma_miller_rabin_rejects_nine(rounds: nat)
    requires
        rounds >= 1,
    ensures
        !mr_verdict(9, rounds),
{
    let a = WITNESS_MULTIPLIER as nat;
    let s = MILLER_RABIN_SEED as nat;
    assert(pow2(0) == 1 && pow2(1) == 2 && pow2(2) == 4 && pow2(4) == 16) by {
        vstd::arithmetic::power2::lemma2_to64();
    }
    assert(bit_len(9) == 4 && bit_len(4) == 3 && bit_len(5) == 3 && bit_len(2) == 2 && bit_len(
        11,
    ) == 4 && bit_len(16) == 5) by {
        reveal_with_fuel(bit_len, 6);
    }
    assert(next_pow2_exp(4) == 2) by {
        reveal_with_fuel(next_pow2_exp, 4);
    }
    assert(witness_space(9) == 16);
    assert(lcg_iter(16, a, 1, s, 1) == 4 && lcg_iter(16, a, 1, s, 2) == 5 && lcg_iter(
        16,
        a,
        1,
        s,
        3,
    ) == 2 && lcg_iter(16, a, 1, s, 4) == 11) by {
        reveal_with_fuel(lcg_iter, 6);
    }
    assert(is_boundary_index(16, a, 1, s, 4)) by {
        assert(boundary_hit(16, lcg_iter(16, a, 1, s, 4)));
        assert forall|j: nat| 1 <= j < 4 implies !boundary_hit(
            16,
            #[trigger] lcg_iter(16, a, 1, s, j),
        ) by {
            if j == 1 {
            } else if j == 2 {
            } else {
                assert(j == 3);
            }
        }
    }
    lemma_boundary_result_of_index(16, a, 1, s, 4);
    assert(mr_witness(9) == 7);
    assert(odd_part(8) == 1 && two_adic(8) == 3) by {
        reveal_with_fuel(odd_part, 5);
        reveal_with_fuel(two_adic, 5);
    }
    lemma_pow1(7);
    assert(pow(7, 2) == 49 && pow(7, 4) == 2401) by {
        reveal_with_fuel(pow, 6);
    }
    assert(!mr_round_inconclusive(9, 7)) by {
        assert(pow(7int, 1nat) % 9 == 7);
        assert forall|j: int| 1 <= j < 3 implies #[trigger] pow(7int, pow2(j as nat)) % 9 != 8 by {
            if j == 1 {
                assert(pow(7int, pow2(1)) % 9 == 4);
            } else {
                assert(j == 2);
                assert(pow(7int, pow2(2)) % 9 == 7);
            }
        }
    }
}

/// Relies on `std::time::SystemTime`: milliseconds since the Unix epoch, read
/// once per call and used only as a pseudorandom seed; nothing is assumed of
/// the value.
#[verifier::external_body]
fn now_millis() -> u128 {
    std::time::SystemTime::now().duration_since(std::time::UNIX_EPOCH).map(
        |d| d.as_millis(),
    ).unwrap_or(0)
}

/// The least power of two at or above `x`, as a machine word.
fn npot_u128(x: u128) -> (r: u128)
    requires
        x <= 0x8000_0000,
    ensures
        r == next_pow2(x as nat),
        r <= 0x8000_0000,
{
    proof {
        assert(pow2(31) == 0x8000_0000) by {
            vstd::arithmetic::power2::lemma2_to64();
            vstd::arithmetic::power2::lemma2_to64_rest();
        }
        lemma_next_pow2_min(x as nat, 31);
        lemma_next_pow2_ge(x as nat);
    }
    let mut p: u128 = 1;
    let ghost mut g: nat = 0;
    proof {
        assert(pow2(0) == 1) by {
            vstd::arithmetic::power2::lemma2_to64();
        }
    }
    while p < x
        invariant
            x <= 0x8000_0000,
            p >= 1,
            p == pow2(g),
            p <= next_pow2(x as nat),
            next_pow2(x as nat) <= 0x8000_0000,
        decreases 2 * x - p,
    {
        proof {
            lemma_next_pow2_ge(x as nat);
            let e2 = next_pow2_exp(x as nat);
            if g + 1 > e2 {
                if e2 < g {
                    lemma_pow2_strictly_increases(e2, g);
                }
                assert(pow2(e2) <= pow2(g));
                assert(false);
            }
            if g + 1 < e2 {
                lemma_pow2_strictly_increases(g + 1, e2);
            }
            lemma_pow2_unfold(g + 1);
            g = g + 1;
        }
        p = p * 2;
    }
    proof {
        lemma_next_pow2_min(x as nat, g);
    }
    p
}

/// Draw the witness-recurrence value for `maybe_prime` from `seed`: the
/// boundary-rejection recurrence in the candidate's witness space. Returns
/// `None` when the rejection loop used up its budget.
fn draw_witness_value(maybe_prime: &Big, seed: &Big) -> (r: Option<Big>)
    requires
        maybe_prime.wf(),
        seed.wf(),
        bit_len(maybe_prime@) <= 0x4000_0000,
    ensures
        match r {
            Some(v) => {
                &&& v.wf()
                &&& witness_draw_available(maybe_prime@, seed@)
                &&& v@ == boundary_result(
                    witness_space(maybe_prime@),
                    WITNESS_MULTIPLIER as nat,
                    1,
                    seed@,
                )
            },
            None => !witness_draw_available(maybe_prime@, seed@),
        },
{
    let bl = maybe_prime.bit_length();
    proof {
        assert(pow2(30) == 0x4000_0000 && pow2(31) == 0x8000_0000) by {
            vstd::arithmetic::power2::lemma2_to64();
            vstd::arithmetic::power2::lemma2_to64_rest();
        }
        if bit_len(maybe_prime@) < 31 {
            lemma_pow2_strictly_increases(bit_len(maybe_prime@), 31);
        }
        lemma_next_pow2_min(bit_len(maybe_prime@), 31);
    }
    let e = npot_u128(bl);
    let wspace = Big::pow2_big(e as u64);
    proof {
        lemma_pow2_pos(e as nat);
    }
    let mult = Big::from_u64(WITNESS_MULTIPLIER);
    let inc = Big::from_u64(1);
    let drawn = gen_linear_congruential_generator(&wspace, &mult, &inc, seed);
    match drawn {
        Ok(x) => {
            proof {
                assert(wspace@ == witness_space(maybe_prime@));
                assert(mult@ == WITNESS_MULTIPLIER as nat);
                assert(inc@ == 1nat);
                let k = choose|k: nat|
                    #[trigger] is_boundary_index(wspace@, mult@, inc@, seed@, k) && k
                        <= LCG_STEP_BUDGET;
                assert(is_boundary_index(wspace@, mult@, inc@, seed@, k) && k <= LCG_STEP_BUDGET);
                assert(is_boundary_index(
                    witness_space(maybe_prime@),
                    WITNESS_MULTIPLIER as nat,
                    1,
                    seed@,
                    k,
                ) && 1 <= k <= LCG_STEP_BUDGET);
            }
            Some(x)
        },
        Err(Error::SearchExhausted) => {
            proof {
                if witness_draw_available(maybe_prime@, seed@) {
                    let k = choose|k: nat|
                        1 <= k <= LCG_STEP_BUDGET && is_boundary_index(
                            witness_space(maybe_prime@),
                            WITNESS_MULTIPLIER as nat,
                            1,
                            seed@,
                            k,
                        );
                    assert(boundary_hit(
                        wspace@,
                        lcg_iter(wspace@, WITNESS_MULTIPLIER as nat, 1, seed@, k),
                    ));
                    assert(false);
                }
            }
            None
        },
        Err(Error::ConversionError) => {
            proof {
                lemma_pow2_strictly_increases(e as nat, e as nat + 1);
                lemma_bit_len_from_bounds(pow2(e as nat), e as nat);
                assert(false);
            }
            None
        },
        Err(Error::NotCoPrimeError(_, _)) => {
            proof {
                assert(false);
            }
            None
        },
    }
}

/// Miller-Rabin probabilistic primality test.
///
/// Special-cases two and three as prime and other even numbers as composite.
/// For an odd candidate it decomposes `n - 1` into `2^r * d` with `d` odd,
/// draws a witness from the fixed-seed recurrence, and declares the
/// candidate composite exactly when the round on that witness is conclusive.
/// The witness schedule is reproducible, so every round repeats the same
/// witness and one round decides; a candidate is declared composite (never
/// prime) if the witness draw uses up its step budget. The candidate's bit
/// length is bounded so that the witness space `2^k` can be materialized.
pub fn is_prime_miller_rabin(maybe_prime: &Big, rounds: usize) -> (r: bool)
    requires
        maybe_prime.wf(),
        maybe_prime@ != 1,
        bit_len(maybe_prime@) <= 0x4000_0000,
    ensures
        r == mr_accepts(maybe_prime@, rounds as nat),
        r ==> mr_verdict(maybe_prime@, rounds as nat),
{
    let ghost n = maybe_prime@;
    let two = Big::from_u64(2);
    let three = Big::from_u64(3);
    if maybe_prime.equals(&two) || maybe_prime.equals(&three) {
        return true;
    }
    if !maybe_prime.is_odd() {
        return false;
    }
    proof {
        assert(n % 2 == 1 && n != 1 && n != 3);
        assert(n >= 5);
    }
    if rounds == 0 {
        return true;
    }
    let one = Big::from_u64(1);
    let n_minus_1 = maybe_prime.minus(&one);
    let n_minus_2 = maybe_prime.minus(&two);
    let ghost m = (n - 1) as nat;
    // Decompose n - 1 == 2^r * d with d odd.
    let mut d = n_minus_1.clone_big();
    let mut r_exp: u64 = 0;
    proof {
        lemma_bit_len_monotone(m, n);
        lemma_two_adic_below_bit_len(m);
    }
    while !d.is_odd()
        invariant
            d.wf(),
            d@ >= 1,
            odd_part(d@) == odd_part(m),
            two_adic(m) == r_exp + two_adic(d@),
            two_adic(m) <= 0x4000_0000,
            m >= 4,
        decreases d@,
    {
        proof {
            assert(d@ % 2 == 0);
            assert(odd_part(d@) == odd_part(d@ / 2));
            assert(two_adic(d@) == 1 + two_adic(d@ / 2));
            if d@ / 2 == 0 {
                assert(d@ < 2);
                assert(false);
            }
        }
        d = d.half();
        r_exp = r_exp + 1;
    }
    proof {
        assert(two_adic(d@) == 0);
        assert(odd_part(d@) == d@);
        assert(d@ == odd_part(m));
        assert(r_exp == two_adic(m));
        assert(r_exp >= 1) by {
            assert(m % 2 == 0);
        }
    }
    // Draw the witness and clamp it into [2, n - 2].
    let seed = Big::from_u64(MILLER_RABIN_SEED);
    let drawn = draw_witness_value(maybe_prime, &seed);
    let witness_raw = match drawn {
        Some(v) => v,
        None => {
            return false;
        },
    };
    let witness = if witness_raw.lt(&two) {
        two
    } else if n_minus_2.lt(&witness_raw) {
        n_minus_2
    } else {
        witness_raw
    };
    proof {
        assert(witness@ == mr_witness(n));
    }
    // x0 = witness^d mod n; the round is inconclusive when x0 is 1 or n - 1,
    // or when a repeated squaring reaches n - 1.
    let x0 = witness.modpow_of(&d, maybe_prime);
    let ghost x0v = pow(mr_witness(n) as int, odd_part(m)) % (n as int);
    proof {
        assert(x0@ == x0v);
        assert(0 <= x0v < n);
    }
    let square_exp = Big::from_u64(2);
    if x0.equals(&one) || x0.equals(&n_minus_1) {
        return true;
    }
    let mut x = x0;
    let mut j: u64 = 0;
    proof {
        assert(pow2(0) == 1) by {
            vstd::arithmetic::power2::lemma2_to64();
        }
        lemma_pow1(x0v);
        lemma_small_mod(x@ as nat, n);
    }
    while j < r_exp - 1
        invariant
            x.wf(),
            maybe_prime.wf(),
            square_exp.wf(),
            n_minus_1.wf(),
            maybe_prime@ == n,
            square_exp@ == 2,
            n % 2 == 1,
            n >= 5,
            n_minus_1@ == n - 1,
            m == (n - 1) as nat,
            r_exp == two_adic(m),
            r_exp >= 1,
            rounds >= 1,
            witness_draw_available(n, MILLER_RABIN_SEED as nat),
            j <= r_exp - 1,
            x0v == pow(mr_witness(n) as int, odd_part(m)) % (n as int),
            x0v != 1 && x0v != n - 1,
            x@ == pow(x0v, pow2(j as nat)) % (n as int),
            forall|t: int|
                1 <= t <= j ==> #[trigger] pow(x0v, pow2(t as nat)) % (n as int) != n - 1,
        decreases r_exp - j,
    {
        let squared = x.modpow_of(&square_exp, maybe_prime);
        proof {
            lemma_pow_mod_noop(pow(x0v, pow2(j as nat)), 2, n as int);
            lemma_pow_multiplies(x0v, pow2(j as nat), 2);
            lemma_pow2_unfold(j as nat + 1);
            assert(pow2(j as nat) * 2 == 2 * pow2(j as nat)) by (nonlinear_arith);
            assert(squared@ == pow(x0v, pow2(j as nat + 1)) % (n as int));
        }
        x = squared;
        j = j + 1;
        if x.equals(&n_minus_1) {
            proof {
                assert(pow(x0v, pow2(j as nat)) % (n as int) == n - 1);
                assert(mr_round_inconclusive(n, mr_witness(n)));
            }
            return true;
        }
    }
    proof {
        assert(j == r_exp - 1);
        assert forall|t: int| 1 <= t < r_exp implies #[trigger] pow(x0v, pow2(t as nat)) % (
        n as int) != n - 1 by {
            assert(1 <= t <= j);
        }
        assert(!mr_round_inconclusive(n, mr_witness(n)));
    }
    false
}


/// The reduced draw one Fermat round makes from seed `s`: the boundary
/// recurrence value in `n`'s witness space, taken modulo `n`.
pub open spec fn fermat_draw(n: nat, s: nat) -> nat {
    boundary_result(witness_space(n), WITNESS_MULTIPLIER as nat, 1, s) % n
}

/// The Fermat chain: each round's reduced draw seeds the next round.
pub open spec fn fermat_seq(n: nat, s: nat, i: nat) -> nat
    decreases i,
{
    if i == 0 {
        s
    } else {
        fermat_draw(n, fermat_seq(n, s, (i - 1) as nat))
    }
}

/// One Fermat round accepts base `a`: `a` is coprime to `n` and
/// `a^(n-1) mod n == 1`.
pub open spec fn fermat_round_ok(n: nat, a: nat) -> bool {
    gcd_spec(a, n) == 1 && pow(a as int, (n - 1) as nat) % (n as int) == 1
}

/// The sequential Fermat verdict from seed `s`: all of the `rounds` chained
/// rounds accept their base.
pub open spec fn fermat_verdict(n: nat, s: nat, rounds: nat) -> bool {
    forall|i: nat| 1 <= i <= rounds ==> fermat_round_ok(n, #[trigger] fermat_seq(n, s, i))
}

/// Every draw of the `rounds`-round chain hits its boundary within the step
/// budget.
pub open spec fn fermat_draws_available(n: nat, s: nat, rounds: nat) -> bool {
    forall|i: nat| i < rounds ==> witness_draw_available(n, #[trigger] fermat_seq(n, s, i))
}

/// Exactly what the seeded Fermat tester returns, round by round: each round
/// needs its draw to hit the boundary within the step budget and its base to
/// pass the Fermat checks, and the chain stops at the first failure. The
/// result is a pure function of the candidate, the seed and the round count.
pub open spec fn fermat_run(n: nat, s: nat, rounds: nat) -> bool
    decreases rounds,
{
    if rounds == 0 {
        true
    } else {
        witness_draw_available(n, s) && {
            let a = fermat_draw(n, s);
            fermat_round_ok(n, a) && fermat_run(n, a, (rounds - 1) as nat)
        }
    }
}

/// Advancing the chain one round commutes with shifting the seed: the
/// `(i + 1)`-th base from `s` is the `i`-th base from `s`'s first draw.
pub proof fn lemma_fermat_seq_shift(n: nat, s: nat, i: nat)
    ensures
        fermat_seq(n, s, i + 1) == fermat_seq(n, fermat_draw(n, s), i),
    decreases i,
{
    assert(fermat_seq(n, s, 0) == s);
    if i > 0 {
        lemma_fermat_seq_shift(n, s, (i - 1) as nat);
        assert(fermat_seq(n, s, i + 1) == fermat_draw(n, fermat_seq(n, s, i)));
        assert(fermat_seq(n, fermat_draw(n, s), i) == fermat_draw(
            n,
            fermat_seq(n, fermat_draw(n, s), (i - 1) as nat),
        ));
    }
}

/// An accepting run certifies acceptance of every base. When every round
/// drew and passed, every base of the chain satisfies the Fermat checks.
pub proof fn lemma_fermat_run_implies_verdict(n: nat, s: nat, rounds: nat)
    requires
        fermat_run(n, s, rounds),
    ensures
        fermat_verdict(n, s, rounds),
    decreases rounds,
{
    if rounds > 0 {
        let a = fermat_draw(n, s);
        lemma_fermat_run_implies_verdict(n, a, (rounds - 1) as nat);
        assert(fermat_seq(n, s, 0) == s);
        assert(fermat_seq(n, s, 1) == a);
        assert forall|i: nat| 1 <= i <= rounds implies fermat_round_ok(
            n,
            #[trigger] fermat_seq(n, s, i),
        ) by {
            if i > 1 {
                lemma_fermat_seq_shift(n, s, (i - 1) as nat);
                assert(fermat_round_ok(n, fermat_seq(n, a, (i - 1) as nat)));
            }
        }
    }
}

/// When every draw of the chain is available, the run and the round-based
/// outcome agree; the two part only where a draw would exhaust its budget.
pub proof fn lemma_fermat_run_of_available(n: nat, s: nat, rounds: nat)
    requires
        fermat_draws_available(n, s, rounds),
    ensures
        fermat_run(n, s, rounds) == fermat_verdict(n, s, rounds),
    decreases rounds,
{
    if rounds > 0 {
        assert(fermat_seq(n, s, 0) == s);
        assert(witness_draw_available(n, fermat_seq(n, s, 0)));
        let a = fermat_draw(n, s);
        assert(fermat_seq(n, s, 1) == fermat_draw(n, fermat_seq(n, s, 0)));
        assert(fermat_seq(n, s, 1) == a);
        assert forall|i: nat| i < rounds - 1 implies witness_draw_available(
            n,
            #[trigger] fermat_seq(n, a, i),
        ) by {
            lemma_fermat_seq_shift(n, s, i);
            assert(witness_draw_available(n, fermat_seq(n, s, i + 1)));
        }
        lemma_fermat_run_of_available(n, a, (rounds - 1) as nat);
        if fermat_round_ok(n, a) && fermat_verdict(n, a, (rounds - 1) as nat) {
            assert forall|i: nat| 1 <= i <= rounds implies fermat_round_ok(
                n,
                #[trigger] fermat_seq(n, s, i),
            ) by {
                if i > 1 {
                    lemma_fermat_seq_shift(n, s, (i - 1) as nat);
                    assert(fermat_round_ok(n, fermat_seq(n, a, (i - 1) as nat)));
                }
            }
        }
        if fermat_verdict(n, s, rounds) {
            assert(fermat_round_ok(n, a));
            assert forall|i: nat| 1 <= i <= rounds - 1 implies fermat_round_ok(
                n,
                #[trigger] fermat_seq(n, a, i),
            ) by {
                lemma_fermat_seq_shift(n, s, i);
                assert(fermat_round_ok(n, fermat_seq(n, s, i + 1)));
            }
        }
    }
}

/// Some seed's run rejects candidate `n` over `rounds` rounds.
pub open spec fn fermat_candidate_rejected(n: nat, rounds: nat) -> bool {
    exists|s: nat| !(#[trigger] fermat_run(n, s, rounds))
}

/// Some seed's run accepts candidate `n` over `rounds` rounds.
pub open spec fn fermat_candidate_accepted(n: nat, rounds: nat) -> bool {
    exists|s: nat| #[trigger] fermat_run(n, s, rounds)
}

/// `v` is the first candidate of the search chain from seed `s` that a
/// drawn Fermat run of `rounds` rounds accepted: it stands at some index of
/// the chain within the search budget, some run accepts it, and every
/// earlier candidate was rejected by a run.
pub open spec fn fermat_search_outcome(bit_length: nat, s: nat, rounds: nat, v: nat) -> bool {
    exists|i: nat|
        {
            &&& 1 <= i <= PRIME_SEARCH_BUDGET
            &&& v == #[trigger] fermat_search_chain(bit_length, s, i)
            &&& fermat_candidate_accepted(v, rounds)
            &&& forall|j: nat|
                1 <= j < i ==> fermat_candidate_rejected(
                    #[trigger] fermat_search_chain(bit_length, s, j),
                    rounds,
                )
        }
}

/// One worker's verdict in the partitioned Fermat test. Every worker is
/// handed a clone of the same seed and the chain is deterministic, so worker
/// `t` runs the same `rounds / threads`-round chain as every other.
pub open spec fn fermat_worker_verdict(n: nat, s: nat, rounds: nat, threads: nat, t: nat) -> bool {
    fermat_verdict(n, s, rounds / threads)
}

/// The outcome of the partitioned Fermat test, the disjunction of the
/// workers' verdicts.
pub open spec fn fermat_parallel_verdict(n: nat, s: nat, rounds: nat, threads: nat) -> bool {
    exists|t: nat| t < threads && #[trigger] fermat_worker_verdict(n, s, rounds, threads, t)
}

/// With identically seeded workers the disjunction collapses: the
/// partitioned verdict equals one worker's sequential verdict over its share
/// of the rounds.
pub proof fn lemma_fermat_parallel_collapse(n: nat, s: nat, rounds: nat, threads: nat)
    requires
        threads >= 1,
    ensures
        fermat_parallel_verdict(n, s, rounds, threads) == fermat_verdict(n, s, rounds / threads),
{
    if fermat_verdict(n, s, rounds / threads) {
        assert(fermat_worker_verdict(n, s, rounds, threads, 0));
    }
}

/// With a single worker the partitioned Fermat test decides exactly as the
/// sequential test over the full round count.
pub proof fn lemma_fermat_parallel_single_worker(n: nat, s: nat, rounds: nat)
    ensures
        fermat_parallel_verdict(n, s, rounds, 1) == fermat_verdict(n, s, rounds),
{
    lemma_fermat_parallel_collapse(n, s, rounds, 1);
}

/// Fermat probabilistic primality test with a caller-supplied seed, the
/// injectable variant that makes the draw chain reproducible.
///
/// Each round draws a base from the boundary recurrence seeded by the
/// previous round's base, rejects immediately when the base shares a factor
/// with the candidate or fails the Fermat congruence, and accepts when every
/// round passed. A candidate is declared composite (never prime) if a draw
/// uses up its step budget; its bit length is bounded so that the witness
/// space `2^k` can be materialized.
pub fn is_prime_fermat_seeded(maybe_prime: &Big, rounds: usize, seed: &Big) -> (r: bool)
    requires
        maybe_prime.wf(),
        seed.wf(),
        maybe_prime@ >= 1,
        bit_len(maybe_prime@) <= 0x4000_0000,
    ensures
        r == fermat_run(maybe_prime@, seed@, rounds as nat),
        fermat_draws_available(maybe_prime@, seed@, rounds as nat) ==> r == fermat_verdict(
            maybe_prime@,
            seed@,
            rounds as nat,
        ),
        r ==> fermat_verdict(maybe_prime@, seed@, rounds as nat),
{
    let ghost n = maybe_prime@;
    let ghost s0 = seed@;
    let one = Big::from_u64(1);
    let n_minus_1 = maybe_prime.minus(&one);
    let mut cur = seed.clone_big();
    let mut i: usize = 0;
    while i < rounds
        invariant
            maybe_prime.wf(),
            cur.wf(),
            one.wf(),
            n_minus_1.wf(),
            maybe_prime@ == n,
            seed@ == s0,
            n >= 1,
            bit_len(n) <= 0x4000_0000,
            one@ == 1,
            n_minus_1@ == n - 1,
            i <= rounds,
            fermat_run(n, s0, rounds as nat) == fermat_run(n, cur@, (rounds - i) as nat),
        decreases rounds - i,
    {
        let drawn = draw_witness_value(maybe_prime, &cur);
        let x = match drawn {
            Some(v) => v,
            None => {
                proof {
                    assert(!fermat_run(n, cur@, (rounds - i) as nat));
                    if fermat_draws_available(n, s0, rounds as nat) {
                        lemma_fermat_run_of_available(n, s0, rounds as nat);
                    }
                }
                return false;
            },
        };
        let a = x.rem_of(maybe_prime);
        proof {
            assert(a@ == fermat_draw(n, cur@));
        }
        let g = a.gcd_of(maybe_prime);
        if !g.equals(&one) {
            proof {
                assert(!fermat_round_ok(n, a@));
                assert(!fermat_run(n, cur@, (rounds - i) as nat));
                if fermat_draws_available(n, s0, rounds as nat) {
                    lemma_fermat_run_of_available(n, s0, rounds as nat);
                }
            }
            return false;
        }
        let mp = a.modpow_of(&n_minus_1, maybe_prime);
        if !mp.equals(&one) {
            proof {
                assert(!fermat_round_ok(n, a@));
                assert(!fermat_run(n, cur@, (rounds - i) as nat));
                if fermat_draws_available(n, s0, rounds as nat) {
                    lemma_fermat_run_of_available(n, s0, rounds as nat);
                }
            }
            return false;
        }
        proof {
            assert(fermat_run(n, cur@, (rounds - i) as nat) == fermat_run(
                n,
                a@,
                (rounds - (i + 1)) as nat,
            ));
        }
        cur = a;
        i = i + 1;
    }
    proof {
        assert(fermat_run(n, s0, rounds as nat));
        lemma_fermat_run_implies_verdict(n, s0, rounds as nat);
        if fermat_draws_available(n, s0, rounds as nat) {
            lemma_fermat_run_of_available(n, s0, rounds as nat);
        }
    }
    true
}

/// Fermat probabilistic primality test, seeded once per call from the wall
/// clock; `true` means some seed's whole chain accepted the candidate.
pub fn is_prime_fermat(maybe_prime: &Big, rounds: usize) -> (r: bool)
    requires
        maybe_prime.wf(),
        maybe_prime@ >= 1,
        bit_len(maybe_prime@) <= 0x4000_0000,
    ensures
        exists|s: nat| r == fermat_run(maybe_prime@, s, rounds as nat),
        r ==> exists|s: nat| fermat_verdict(maybe_prime@, s, rounds as nat),
{
    let seed = Big::from_u128(now_millis());
    let v = is_prime_fermat_seeded(maybe_prime, rounds, &seed);
    proof {
        assert(v == fermat_run(maybe_prime@, seed@, rounds as nat));
        if v {
            assert(fermat_verdict(maybe_prime@, seed@, rounds as nat));
        }
    }
    v
}

/// Partitioned Fermat test with a caller-supplied seed. The rounds are split
/// evenly over `threads` workers and the verdicts are joined by disjunction;
/// since every worker clones the same seed and the chain is deterministic,
/// all workers compute the same verdict, which is computed once here.
pub fn is_prime_fermat_parallel_seeded(
    maybe_prime: &Big,
    rounds: usize,
    threads: usize,
    seed: &Big,
) -> (r: bool)
    requires
        maybe_prime.wf(),
        seed.wf(),
        maybe_prime@ >= 1,
        bit_len(maybe_prime@) <= 0x4000_0000,
        threads >= 1,
    ensures
        r == fermat_run(maybe_prime@, seed@, (rounds as nat) / (threads as nat)),
        fermat_draws_available(maybe_prime@, seed@, (rounds as nat) / (threads as nat))
            ==> r == fermat_parallel_verdict(
            maybe_prime@,
            seed@,
            rounds as nat,
            threads as nat,
        ),
        r ==> fermat_parallel_verdict(maybe_prime@, seed@, rounds as nat, threads as nat),
{
    let per_worker = rounds / threads;
    let v = is_prime_fermat_seeded(maybe_prime, per_worker, seed);
    proof {
        lemma_fermat_parallel_collapse(maybe_prime@, seed@, rounds as nat, threads as nat);
    }
    v
}

/// Partitioned Fermat test seeded once from the wall clock; `true` means
/// some seed's partitioned run accepted the candidate.
pub fn is_prime_fermat_parallel(maybe_prime: &Big, rounds: usize, threads: usize) -> (r: bool)
    requires
        maybe_prime.wf(),
        maybe_prime@ >= 1,
        bit_len(maybe_prime@) <= 0x4000_0000,
        threads >= 1,
    ensures
        exists|s: nat| r == #[trigger] fermat_run(maybe_prime@, s, (rounds as nat) / (threads as nat)),
        r ==> exists|s: nat|
            fermat_parallel_verdict(maybe_prime@, s, rounds as nat, threads as nat),
{
    let seed = Big::from_u128(now_millis());
    let v = is_prime_fermat_parallel_seeded(maybe_prime, rounds, threads, &seed);
    proof {
        assert(v == fermat_run(maybe_prime@, seed@, (rounds as nat) / (threads as nat)));
        if v {
            assert(fermat_parallel_verdict(maybe_prime@, seed@, rounds as nat, threads as nat));
        }
    }
    v
}


/// The shaped form of a boundary draw: halved, with the top bit of a
/// `bit_length`-bit number forced by adding `2^(bit_length - 1)`, and made
/// odd by adding one when needed.
pub open spec fn shape_spec(bit_length: nat, x: nat) -> nat {
    let c = x / 2 + pow2((bit_length - 1) as nat);
    if c % 2 == 1 {
        c
    } else {
        c + 1
    }
}

/// The deterministic candidate chain of the Miller-Rabin search: each
/// rejected candidate seeds the next boundary draw in the space
/// `2^(bit_length - 1)`.
pub open spec fn miller_search_chain(bit_length: nat, s: nat, i: nat) -> nat
    decreases i,
{
    if i == 0 {
        s
    } else {
        shape_spec(
            bit_length,
            boundary_result(
                pow2((bit_length - 1) as nat),
                POSIX_MULTIPLIER as nat,
                POSIX_INCREMENT as nat,
                miller_search_chain(bit_length, s, (i - 1) as nat),
            ),
        )
    }
}

/// The deterministic candidate chain of the Fermat search, whose draw space
/// is `2^bit_length`.
pub open spec fn fermat_search_chain(bit_length: nat, s: nat, i: nat) -> nat
    decreases i,
{
    if i == 0 {
        s
    } else {
        shape_spec(
            bit_length,
            boundary_result(
                pow2(bit_length),
                POSIX_MULTIPLIER as nat,
                POSIX_INCREMENT as nat,
                fermat_search_chain(bit_length, s, (i - 1) as nat),
            ),
        )
    }
}

/// The candidate recurrence from seed `s` in `space` hits its boundary
/// within the step budget, so a candidate draw there succeeds.
pub open spec fn candidate_draw_available(space: nat, s: nat) -> bool {
    exists|k: nat|
        1 <= k <= LCG_STEP_BUDGET && #[trigger] is_boundary_index(
            space,
            POSIX_MULTIPLIER as nat,
            POSIX_INCREMENT as nat,
            s,
            k,
        )
}

/// The first `i` candidate draws of the Miller-Rabin search all succeed.
pub open spec fn miller_chain_live(bit_length: nat, s: nat, i: nat) -> bool
    decreases i,
{
    if i == 0 {
        true
    } else {
        miller_chain_live(bit_length, s, (i - 1) as nat) && candidate_draw_available(
            pow2((bit_length - 1) as nat),
            miller_search_chain(bit_length, s, (i - 1) as nat),
        )
    }
}

/// A live prefix stays live: fewer draws need no more than all of them.
pub proof fn lemma_miller_chain_live_monotone(bit_length: nat, s: nat, i: nat, j: nat)
    requires
        j <= i,
        miller_chain_live(bit_length, s, i),
    ensures
        miller_chain_live(bit_length, s, j),
    decreases i,
{
    if j < i {
        lemma_miller_chain_live_monotone(bit_length, s, (i - 1) as nat, j);
    }
}

/// The first `i` candidate draws of the Fermat searches all succeed.
pub open spec fn fermat_chain_live(bit_length: nat, s: nat, i: nat) -> bool
    decreases i,
{
    if i == 0 {
        true
    } else {
        fermat_chain_live(bit_length, s, (i - 1) as nat) && candidate_draw_available(
            pow2(bit_length),
            fermat_search_chain(bit_length, s, (i - 1) as nat),
        )
    }
}

/// A live prefix of the Fermat chain stays live.
pub proof fn lemma_fermat_chain_live_monotone(bit_length: nat, s: nat, i: nat, j: nat)
    requires
        j <= i,
        fermat_chain_live(bit_length, s, i),
    ensures
        fermat_chain_live(bit_length, s, j),
    decreases i,
{
    if j < i {
        lemma_fermat_chain_live_monotone(bit_length, s, (i - 1) as nat, j);
    }
}

/// Shape a boundary draw into a candidate: halve it, force the top bit by
/// adding `2^(bit_length - 1)`, and force oddness by adding one when needed.
/// The result has exactly `bit_length` binary digits and is odd.
fn shape_candidate(x: &Big, top: &Big, one: &Big, bit_length: usize) -> (r: Big)
    requires
        x.wf(),
        top.wf(),
        one.wf(),
        2 <= bit_length <= 0x4000_0000,
        top@ == pow2((bit_length - 1) as nat),
        one@ == 1,
        x@ < pow2(bit_length as nat),
    ensures
        r.wf(),
        bit_len(r@) == bit_length,
        r@ % 2 == 1,
        2 <= r@,
        r@ == shape_spec(bit_length as nat, x@),
{
    let y = x.half();
    proof {
        lemma_pow2_unfold(bit_length as nat);
        assert(y@ < pow2((bit_length - 1) as nat));
    }
    let cand0 = y.plus(top);
    let cand = if cand0.is_odd() {
        cand0
    } else {
        proof {
            assert(pow2(bit_length as nat) % 2 == 0) by {
                lemma_pow2_unfold(bit_length as nat);
            }
            assert(cand0@ + 1 < pow2(bit_length as nat)) by {
                assert(cand0@ % 2 == 0);
                assert(cand0@ < pow2(bit_length as nat));
                if cand0@ + 1 == pow2(bit_length as nat) {
                    assert(pow2(bit_length as nat) % 2 == 1);
                }
            }
        }
        cand0.plus(one)
    };
    proof {
        assert(pow2((bit_length - 1) as nat) <= cand@ < pow2(bit_length as nat));
        lemma_bit_len_from_bounds(cand@, (bit_length - 1) as nat);
        assert(pow2(1) == 2) by {
            vstd::arithmetic::power2::lemma2_to64();
        }
        if (bit_length - 1) as nat > 1 {
            lemma_pow2_strictly_increases(1, (bit_length - 1) as nat);
        }
    }
    cand
}

/// Prime search with Miller-Rabin acceptance: draw candidates from the
/// boundary recurrence with the POSIX constants, shape each into an odd
/// number of exactly `bit_length` bits, and return the first candidate the
/// test accepts, feeding each rejected candidate back as the next seed.
///
/// The whole search is a pure function of its arguments: the result is the
/// first accepted candidate of the deterministic chain, every earlier
/// candidate having been rejected. `SearchExhausted` reports a search that
/// used up its (very large) candidate budget instead of retrying forever;
/// it comes only when every candidate the budget reached was rejected.
pub fn gen_prime_number_lcg_miller(bit_length: usize, strongness: usize, seed: &Big) -> (r:
    Result<Big, Error>)
    requires
        seed.wf(),
        2 <= bit_length <= 0x4000_0000,
    ensures
        match r {
            Ok(v) => {
                &&& v.wf()
                &&& bit_len(v@) == bit_length
                &&& v@ % 2 == 1
                &&& mr_verdict(v@, strongness as nat)
                &&& exists|i: nat|
                    {
                        &&& 1 <= i <= PRIME_SEARCH_BUDGET
                        &&& v@ == #[trigger] miller_search_chain(bit_length as nat, seed@, i)
                        &&& mr_accepts(v@, strongness as nat)
                        &&& forall|j: nat|
                            1 <= j < i ==> !mr_accepts(
                                #[trigger] miller_search_chain(bit_length as nat, seed@, j),
                                strongness as nat,
                            )
                    }
            },
            Err(e) => {
                &&& e == Error::SearchExhausted
                &&& forall|i: nat|
                    1 <= i <= PRIME_SEARCH_BUDGET && miller_chain_live(
                        bit_length as nat,
                        seed@,
                        i,
                    ) ==> !mr_accepts(
                        #[trigger] miller_search_chain(bit_length as nat, seed@, i),
                        strongness as nat,
                    )
            },
        },
{
    let modulus = Big::pow2_big((bit_length - 1) as u64);
    let top = Big::pow2_big((bit_length - 1) as u64);
    let mult = Big::from_u64(POSIX_MULTIPLIER);
    let inc = Big::from_u64(POSIX_INCREMENT);
    let one = Big::from_u64(1);
    let mut cur = seed.clone_big();
    let mut tries: u64 = 0;
    let ghost s0 = seed@;
    let ghost mut idx: nat = 0;
    let ghost mut stalled: bool = false;
    proof {
        lemma_pow2_pos((bit_length - 1) as nat);
        lemma_pow2_strictly_increases((bit_length - 1) as nat, bit_length as nat);
        lemma_bit_len_from_bounds(pow2((bit_length - 1) as nat), (bit_length - 1) as nat);
    }
    while tries < PRIME_SEARCH_BUDGET
        invariant
            modulus.wf(),
            top.wf(),
            mult.wf(),
            inc.wf(),
            one.wf(),
            cur.wf(),
            modulus@ == pow2((bit_length - 1) as nat),
            top@ == pow2((bit_length - 1) as nat),
            modulus@ > 0,
            bit_len(modulus@) == bit_length as nat,
            mult@ == POSIX_MULTIPLIER as nat,
            inc@ == POSIX_INCREMENT as nat,
            one@ == 1,
            seed@ == s0,
            2 <= bit_length <= 0x4000_0000,
            tries <= PRIME_SEARCH_BUDGET,
            idx <= tries,
            cur@ == miller_search_chain(bit_length as nat, s0, idx),
            !stalled ==> idx == tries,
            stalled ==> !candidate_draw_available(
                pow2((bit_length - 1) as nat),
                miller_search_chain(bit_length as nat, s0, idx),
            ),
            forall|j: nat|
                1 <= j <= idx ==> !mr_accepts(
                    #[trigger] miller_search_chain(bit_length as nat, s0, j),
                    strongness as nat,
                ),
        decreases PRIME_SEARCH_BUDGET - tries,
    {
        tries = tries + 1;
        let drawn = gen_linear_congruential_generator(&modulus, &mult, &inc, &cur);
        match drawn {
            Ok(x) => {
                proof {
                    let k = choose|k: nat|
                        #[trigger] is_boundary_index(modulus@, mult@, inc@, cur@, k) && k
                            <= LCG_STEP_BUDGET;
                    assert(is_boundary_index(modulus@, mult@, inc@, cur@, k) && k
                        <= LCG_STEP_BUDGET);
                    assert(candidate_draw_available(pow2((bit_length - 1) as nat), cur@));
                    if stalled {
                        assert(false);
                    }
                    crate::big::lemma_bit_len_bounds(x@);
                    assert(x@ < pow2(bit_length as nat)) by {
                        assert(bit_len(x@) + 1 == bit_length);
                        if x@ > 0 {
                            lemma_pow2_strictly_increases(bit_len(x@), bit_length as nat);
                        }
                    }
                }
                let cand = shape_candidate(&x, &top, &one, bit_length);
                proof {
                    idx = idx + 1;
                    assert(cand@ == miller_search_chain(bit_length as nat, s0, idx));
                }
                if is_prime_miller_rabin(&cand, strongness) {
                    proof {
                        assert({
                            &&& 1 <= idx <= PRIME_SEARCH_BUDGET
                            &&& cand@ == miller_search_chain(bit_length as nat, s0, idx)
                            &&& mr_accepts(cand@, strongness as nat)
                            &&& forall|j: nat|
                                1 <= j < idx ==> !mr_accepts(
                                    #[trigger] miller_search_chain(bit_length as nat, s0, j),
                                    strongness as nat,
                                )
                        });
                    }
                    return Ok(cand);
                }
                cur = cand;
            },
            Err(Error::SearchExhausted) => {
                proof {
                    if candidate_draw_available(pow2((bit_length - 1) as nat), cur@) {
                        let k = choose|k: nat|
                            1 <= k <= LCG_STEP_BUDGET && #[trigger] is_boundary_index(
                                pow2((bit_length - 1) as nat),
                                POSIX_MULTIPLIER as nat,
                                POSIX_INCREMENT as nat,
                                cur@,
                                k,
                            );
                        assert(boundary_hit(modulus@, lcg_iter(modulus@, mult@, inc@, cur@, k)));
                        assert(false);
                    }
                    stalled = true;
                }
            },
            Err(Error::ConversionError) => {
                proof {
                    assert(false);
                }
            },
            Err(Error::NotCoPrimeError(_, _)) => {
                proof {
                    assert(false);
                }
            },
        }
    }
    proof {
        assert forall|i: nat|
            1 <= i <= PRIME_SEARCH_BUDGET && miller_chain_live(
                bit_length as nat,
                s0,
                i,
            ) implies !mr_accepts(
            #[trigger] miller_search_chain(bit_length as nat, s0, i),
            strongness as nat,
        ) by {
            if i > idx {
                lemma_miller_chain_live_monotone(bit_length as nat, s0, i, idx + 1);
                assert(candidate_draw_available(
                    pow2((bit_length - 1) as nat),
                    miller_search_chain(bit_length as nat, s0, idx),
                ));
                assert(false);
            }
        }
    }
    Err(Error::SearchExhausted)
}

/// Prime search with Fermat acceptance: draws from the boundary recurrence
/// sized one bit wider than the Miller-Rabin search, shapes candidates the
/// same way, and accepts the first candidate some clock-seeded Fermat chain
/// passes.
///
/// Acceptance depends on the clock seed, so the contract speaks of every
/// outcome: the result is a chain candidate whose drawn run accepted it,
/// every earlier candidate's drawn run having rejected it; exhaustion comes
/// only when every candidate the budget drew was rejected by its run.
#[verifier::rlimit(60)]
#[verifier::spinoff_prover]
pub fn gen_prime_number_lcg_fermat(bit_length: usize, strongness: usize, seed: &Big) -> (r:
    Result<Big, Error>)
    requires
        seed.wf(),
        2 <= bit_length <= 0x4000_0000,
    ensures
        match r {
            Ok(v) => {
                &&& v.wf()
                &&& bit_len(v@) == bit_length
                &&& v@ % 2 == 1
                &&& exists|s: nat| fermat_verdict(v@, s, strongness as nat)
                &&& fermat_search_outcome(bit_length as nat, seed@, strongness as nat, v@)
            },
            Err(e) => {
                &&& e == Error::SearchExhausted
                &&& forall|i: nat|
                    1 <= i <= PRIME_SEARCH_BUDGET && fermat_chain_live(
                        bit_length as nat,
                        seed@,
                        i,
                    ) ==> fermat_candidate_rejected(
                        #[trigger] fermat_search_chain(bit_length as nat, seed@, i),
                        strongness as nat,
                    )
            },
        },
{
    let modulus = Big::pow2_big(bit_length as u64);
    let top = Big::pow2_big((bit_length - 1) as u64);
    let mult = Big::from_u64(POSIX_MULTIPLIER);
    let inc = Big::from_u64(POSIX_INCREMENT);
    let one = Big::from_u64(1);
    let mut cur = seed.clone_big();
    let mut tries: u64 = 0;
    let ghost s0 = seed@;
    let ghost mut idx: nat = 0;
    let ghost mut stalled: bool = false;
    proof {
        lemma_pow2_pos(bit_length as nat);
        lemma_pow2_strictly_increases(bit_length as nat, bit_length as nat + 1);
        lemma_bit_len_from_bounds(pow2(bit_length as nat), bit_length as nat);
    }
    while tries < PRIME_SEARCH_BUDGET
        invariant
            modulus.wf(),
            top.wf(),
            mult.wf(),
            inc.wf(),
            one.wf(),
            cur.wf(),
            modulus@ == pow2(bit_length as nat),
            top@ == pow2((bit_length - 1) as nat),
            modulus@ > 0,
            bit_len(modulus@) == bit_length as nat + 1,
            mult@ == POSIX_MULTIPLIER as nat,
            inc@ == POSIX_INCREMENT as nat,
            one@ == 1,
            seed@ == s0,
            2 <= bit_length <= 0x4000_0000,
            tries <= PRIME_SEARCH_BUDGET,
            idx <= tries,
            cur@ == fermat_search_chain(bit_length as nat, s0, idx),
            !stalled ==> idx == tries,
            stalled ==> !candidate_draw_available(
                pow2(bit_length as nat),
                fermat_search_chain(bit_length as nat, s0, idx),
            ),
            forall|j: nat|
                1 <= j <= idx ==> fermat_candidate_rejected(
                    #[trigger] fermat_search_chain(bit_length as nat, s0, j),
                    strongness as nat,
                ),
        decreases PRIME_SEARCH_BUDGET - tries,
    {
        tries = tries + 1;
        let drawn = gen_linear_congruential_generator(&modulus, &mult, &inc, &cur);
        match drawn {
            Ok(x) => {
                proof {
                    let k = choose|k: nat|
                        #[trigger] is_boundary_index(modulus@, mult@, inc@, cur@, k) && k
                            <= LCG_STEP_BUDGET;
                    assert(is_boundary_index(modulus@, mult@, inc@, cur@, k) && k
                        <= LCG_STEP_BUDGET);
                    assert(candidate_draw_available(pow2(bit_length as nat), cur@));
                    if stalled {
                        assert(false);
                    }
                    crate::big::lemma_bit_len_bounds(x@);
                    assert(x@ < pow2(bit_length as nat)) by {
                        assert(bit_len(x@) == bit_length);
                        if x@ > 0 {
                            assert(x@ < pow2(bit_len(x@)));
                        }
                    }
                }
                let cand = shape_candidate(&x, &top, &one, bit_length);
                proof {
                    idx = idx + 1;
                    assert(cand@ == fermat_search_chain(bit_length as nat, s0, idx));
                }
                if is_prime_fermat(&cand, strongness) {
                    proof {
                        let sw = choose|s: nat|
                            true == #[trigger] fermat_run(cand@, s, strongness as nat);
                        assert(fermat_run(cand@, sw, strongness as nat));
                        assert(fermat_candidate_accepted(cand@, strongness as nat));
                        assert(cand@ == fermat_search_chain(bit_length as nat, seed@, idx));
                        assert forall|j: nat| 1 <= j < idx implies fermat_candidate_rejected(
                            #[trigger] fermat_search_chain(bit_length as nat, seed@, j),
                            strongness as nat,
                        ) by {
                            assert(fermat_search_chain(bit_length as nat, seed@, j)
                                == fermat_search_chain(bit_length as nat, s0, j));
                        }
                        assert(1 <= idx <= PRIME_SEARCH_BUDGET);
                        assert(fermat_search_outcome(
                            bit_length as nat,
                            seed@,
                            strongness as nat,
                            cand@,
                        ));
                    }
                    return Ok(cand);
                }
                proof {
                    let sr = choose|s: nat|
                        false == #[trigger] fermat_run(cand@, s, strongness as nat);
                    assert(!fermat_run(cand@, sr, strongness as nat));
                    assert(fermat_candidate_rejected(cand@, strongness as nat));
                }
                cur = cand;
            },
            Err(Error::SearchExhausted) => {
                proof {
                    if candidate_draw_available(pow2(bit_length as nat), cur@) {
                        let k = choose|k: nat|
                            1 <= k <= LCG_STEP_BUDGET && #[trigger] is_boundary_index(
                                pow2(bit_length as nat),
                                POSIX_MULTIPLIER as nat,
                                POSIX_INCREMENT as nat,
                                cur@,
                                k,
                            );
                        assert(boundary_hit(modulus@, lcg_iter(modulus@, mult@, inc@, cur@, k)));
                        assert(false);
                    }
                    stalled = true;
                }
            },
            Err(Error::ConversionError) => {
                proof {
                    assert(false);
                }
            },
            Err(Error::NotCoPrimeError(_, _)) => {
                proof {
                    assert(false);
                }
            },
        }
    }
    proof {
        assert forall|i: nat|
            1 <= i <= PRIME_SEARCH_BUDGET && fermat_chain_live(
                bit_length as nat,
                s0,
                i,
            ) implies fermat_candidate_rejected(
            #[trigger] fermat_search_chain(bit_length as nat, s0, i),
            strongness as nat,
        ) by {
            if i > idx {
                lemma_fermat_chain_live_monotone(bit_length as nat, s0, i, idx + 1);
                assert(candidate_draw_available(
                    pow2(bit_length as nat),
                    fermat_search_chain(bit_length as nat, s0, idx),
                ));
                assert(false);
            }
        }
    }
    Err(Error::SearchExhausted)
}

/// Prime search with partitioned Fermat acceptance: candidates are drawn
/// from the space `2^bit_length` and shaped like the other searches —
/// halved, top bit forced, made odd — then handed to the partitioned test,
/// whose workers each run `strongness / threads` rounds of a shared
/// clock-seeded chain.
///
/// When `strongness < threads` each worker's share is zero rounds, every run
/// is vacuously accepting, and the search returns its first candidate.
#[verifier::rlimit(60)]
#[verifier::spinoff_prover]
pub fn gen_prime_number_lcg_fermat_parallel(
    bit_length: usize,
    strongness: usize,
    seed: &Big,
    threads: usize,
) -> (r: Result<Big, Error>)
    requires
        seed.wf(),
        2 <= bit_length <= 0x4000_0000,
        threads >= 1,
    ensures
        match r {
            Ok(v) => {
                &&& v.wf()
                &&& bit_len(v@) == bit_length
                &&& v@ % 2 == 1
                &&& exists|s: nat|
                    fermat_parallel_verdict(v@, s, strongness as nat, threads as nat)
                &&& fermat_search_outcome(
                    bit_length as nat,
                    seed@,
                    (strongness as nat) / (threads as nat),
                    v@,
                )
            },
            Err(e) => {
                &&& e == Error::SearchExhausted
                &&& forall|i: nat|
                    1 <= i <= PRIME_SEARCH_BUDGET && fermat_chain_live(
                        bit_length as nat,
                        seed@,
                        i,
                    ) ==> fermat_candidate_rejected(
                        #[trigger] fermat_search_chain(bit_length as nat, seed@, i),
                        (strongness as nat) / (threads as nat),
                    )
            },
        },
{
    let modulus = Big::pow2_big(bit_length as u64);
    let top = Big::pow2_big((bit_length - 1) as u64);
    let mult = Big::from_u64(POSIX_MULTIPLIER);
    let inc = Big::from_u64(POSIX_INCREMENT);
    let one = Big::from_u64(1);
    let mut cur = seed.clone_big();
    let mut tries: u64 = 0;
    let ghost s0 = seed@;
    let ghost mut idx: nat = 0;
    let ghost mut stalled: bool = false;
    let ghost per = (strongness as nat) / (threads as nat);
    proof {
        lemma_pow2_pos(bit_length as nat);
        lemma_pow2_strictly_increases(bit_length as nat, bit_length as nat + 1);
        lemma_bit_len_from_bounds(pow2(bit_length as nat), bit_length as nat);
    }
    while tries < PRIME_SEARCH_BUDGET
        invariant
            modulus.wf(),
            top.wf(),
            mult.wf(),
            inc.wf(),
            one.wf(),
            cur.wf(),
            modulus@ == pow2(bit_length as nat),
            top@ == pow2((bit_length - 1) as nat),
            modulus@ > 0,
            bit_len(modulus@) == bit_length as nat + 1,
            mult@ == POSIX_MULTIPLIER as nat,
            inc@ == POSIX_INCREMENT as nat,
            one@ == 1,
            seed@ == s0,
            2 <= bit_length <= 0x4000_0000,
            threads >= 1,
            per == (strongness as nat) / (threads as nat),
            tries <= PRIME_SEARCH_BUDGET,
            idx <= tries,
            cur@ == fermat_search_chain(bit_length as nat, s0, idx),
            !stalled ==> idx == tries,
            stalled ==> !candidate_draw_available(
                pow2(bit_length as nat),
                fermat_search_chain(bit_length as nat, s0, idx),
            ),
            forall|j: nat|
                1 <= j <= idx ==> fermat_candidate_rejected(
                    #[trigger] fermat_search_chain(bit_length as nat, s0, j),
                    per,
                ),
        decreases PRIME_SEARCH_BUDGET - tries,
    {
        tries = tries + 1;
        let drawn = gen_linear_congruential_generator(&modulus, &mult, &inc, &cur);
        match drawn {
            Ok(x) => {
                proof {
                    let k = choose|k: nat|
                        #[trigger] is_boundary_index(modulus@, mult@, inc@, cur@, k) && k
                            <= LCG_STEP_BUDGET;
                    assert(is_boundary_index(modulus@, mult@, inc@, cur@, k) && k
                        <= LCG_STEP_BUDGET);
                    assert(candidate_draw_available(pow2(bit_length as nat), cur@));
                    if stalled {
                        assert(false);
                    }
                    crate::big::lemma_bit_len_bounds(x@);
                    assert(x@ < pow2(bit_length as nat)) by {
                        assert(bit_len(x@) == bit_length);
                        if x@ > 0 {
                            assert(x@ < pow2(bit_len(x@)));
                        }
                    }
                }
                let cand = shape_candidate(&x, &top, &one, bit_length);
                proof {
                    idx = idx + 1;
                    assert(cand@ == fermat_search_chain(bit_length as nat, s0, idx));
                }
                if is_prime_fermat_parallel(&cand, strongness, threads) {
                    proof {
                        let sw = choose|s: nat| true == #[trigger] fermat_run(cand@, s, per);
                        assert(fermat_run(cand@, sw, per));
                        assert(fermat_candidate_accepted(cand@, per));
                        assert(per == (strongness as nat) / (threads as nat));
                        assert(cand@ == fermat_search_chain(bit_length as nat, seed@, idx));
                        assert forall|j: nat| 1 <= j < idx implies fermat_candidate_rejected(
                            #[trigger] fermat_search_chain(bit_length as nat, seed@, j),
                            (strongness as nat) / (threads as nat),
                        ) by {
                            assert(fermat_search_chain(bit_length as nat, seed@, j)
                                == fermat_search_chain(bit_length as nat, s0, j));
                        }
                        assert(1 <= idx <= PRIME_SEARCH_BUDGET);
                        assert(fermat_search_outcome(
                            bit_length as nat,
                            seed@,
                            (strongness as nat) / (threads as nat),
                            cand@,
                        ));
                    }
                    return Ok(cand);
                }
                proof {
                    let sr = choose|s: nat| false == #[trigger] fermat_run(cand@, s, per);
                    assert(!fermat_run(cand@, sr, per));
                    assert(fermat_candidate_rejected(cand@, per));
                }
                cur = cand;
            },
            Err(Error::SearchExhausted) => {
                proof {
                    if candidate_draw_available(pow2(bit_length as nat), cur@) {
                        let k = choose|k: nat|
                            1 <= k <= LCG_STEP_BUDGET && #[trigger] is_boundary_index(
                                pow2(bit_length as nat),
                                POSIX_MULTIPLIER as nat,
                                POSIX_INCREMENT as nat,
                                cur@,
                                k,
                            );
                        assert(boundary_hit(modulus@, lcg_iter(modulus@, mult@, inc@, cur@, k)));
                        assert(false);
                    }
                    stalled = true;
                }
            },
            Err(Error::ConversionError) => {
                proof {
                    assert(false);
                }
            },
            Err(Error::NotCoPrimeError(_, _)) => {
                proof {
                    assert(false);
                }
            },
        }
    }
    proof {
        assert forall|i: nat|
            1 <= i <= PRIME_SEARCH_BUDGET && fermat_chain_live(
                bit_length as nat,
                s0,
                i,
            ) implies fermat_candidate_rejected(
            #[trigger] fermat_search_chain(bit_length as nat, s0, i),
            (strongness as nat) / (threads as nat),
        ) by {
            if i > idx {
                lemma_fermat_chain_live_monotone(bit_length as nat, s0, i, idx + 1);
                assert(candidate_draw_available(
                    pow2(bit_length as nat),
                    fermat_search_chain(bit_length as nat, s0, idx),
                ));
                assert(false);
            }
        }
    }
    Err(Error::SearchExhausted)
}

} // verus!

//! Pseudorandom generators over arbitrary-precision naturals: the linear
//! congruential generator in its boundary-rejection form, and the
//! Blum-Blum-Shub bit-stream generator.

use vstd::prelude::*;
use vstd::arithmetic::power2::pow2;
use crate::big::{Big, bit_len, lemma_bit_len_monotone};

verus! {

/// Errors surfaced by the generators.
///
/// `NotCoPrimeError` carries the offending seed and the modulus factor it
/// shares a divisor with. `ConversionError` reports a bit length that
/// overflows a 32-bit count. `SearchExhausted` reports that a rejection
/// loop used up its (very large) iteration budget instead of spinning
/// forever.
#[derive(Debug)]
pub enum Error {
    NotCoPrimeError(Big, Big),
    ConversionError,
    SearchExhausted,
}

/// How many recurrence steps a boundary-rejection search may take before it
/// gives up; large enough that exhaustion is practically unreachable.
pub const LCG_STEP_BUDGET: u64 = 0xFFFF_FFFF_FFFF_FFFF;

/// One step of the linear congruential recurrence:
/// `(multiplier * seed + increment) mod modulus`.
pub open spec fn lcg_step(modulus: nat, multiplier: nat, increment: nat, seed: nat) -> nat {
    (multiplier * seed + increment) % modulus
}

/// The seed after `k` steps of the recurrence.
pub open spec fn lcg_iter(modulus: nat, multiplier: nat, increment: nat, seed: nat, k: nat) -> nat
    decreases k,
{
    if k == 0 {
        seed
    } else {
        lcg_step(modulus, multiplier, increment, lcg_iter(modulus, multiplier, increment, seed, (k - 1) as nat))
    }
}

/// The boundary condition of the rejection loop: the value's bit length is
/// exactly one less than the modulus's.
pub open spec fn boundary_hit(modulus: nat, x: nat) -> bool {
    bit_len(x) + 1 == bit_len(modulus)
}

/// `k` is the first step index at which the recurrence hits the boundary
/// condition.
pub open spec fn is_boundary_index(
    modulus: nat,
    multiplier: nat,
    increment: nat,
    seed: nat,
    k: nat,
) -> bool {
    &&& k >= 1
    &&& boundary_hit(modulus, lcg_iter(modulus, multiplier, increment, seed, k))
    &&& forall|j: nat|
        1 <= j < k ==> !boundary_hit(
            modulus,
            #[trigger] lcg_iter(modulus, multiplier, increment, seed, j),
        )
}

/// The value the boundary-rejection loop returns: the recurrence iterated up
/// to the first boundary hit.
pub open spec fn boundary_result(modulus: nat, multiplier: nat, increment: nat, seed: nat) -> nat {
    lcg_iter(
        modulus,
        multiplier,
        increment,
        seed,
        choose|k: nat| is_boundary_index(modulus, multiplier, increment, seed, k),
    )
}

/// At most one step index is the first boundary hit.
pub proof fn lemma_boundary_index_unique(
    modulus: nat,
    multiplier: nat,
    increment: nat,
    seed: nat,
    k1: nat,
    k2: nat,
)
    requires
        is_boundary_index(modulus, multiplier, increment, seed, k1),
        is_boundary_index(modulus, multiplier, increment, seed, k2),
    ensures
        k1 == k2,
{
    if k1 < k2 {
        assert(!boundary_hit(modulus, lcg_iter(modulus, multiplier, increment, seed, k1)));
    }
    if k2 < k1 {
        assert(!boundary_hit(modulus, lcg_iter(modulus, multiplier, increment, seed, k2)));
    }
}

/// A known first boundary hit pins down `boundary_result`.
pub proof fn lemma_boundary_result_of_index(
    modulus: nat,
    multiplier: nat,
    increment: nat,
    seed: nat,
    k: nat,
)
    requires
        is_boundary_index(modulus, multiplier, increment, seed, k),
    ensures
        boundary_result(modulus, multiplier, increment, seed) == lcg_iter(
            modulus,
            multiplier,
            increment,
            seed,
            k,
        ),
{
    let kc = choose|kk: nat| is_boundary_index(modulus, multiplier, increment, seed, kk);
    lemma_boundary_index_unique(modulus, multiplier, increment, seed, k, kc);
}

/// Iterating `j + k` steps is iterating `j` steps and then `k` more: the
/// recurrence composes associatively.
pub proof fn lemma_lcg_iter_adds(
    modulus: nat,
    multiplier: nat,
    increment: nat,
    seed: nat,
    j: nat,
    k: nat,
)
    ensures
        lcg_iter(modulus, multiplier, increment, seed, j + k) == lcg_iter(
            modulus,
            multiplier,
            increment,
            lcg_iter(modulus, multiplier, increment, seed, j),
            k,
        ),
    decreases k,
{
    if k > 0 {
        lemma_lcg_iter_adds(modulus, multiplier, increment, seed, j, (k - 1) as nat);
        assert(j + k == (j + (k - 1) as nat) + 1);
    }
}

/// Chaining two boundary-rejection searches is iterating the base
/// recurrence: feeding one search's result in as the next seed lands at step
/// `k1 + k2` of the original recurrence, where `k1` and `k2` are the two
/// searches' first boundary hits.
pub proof fn lemma_boundary_result_chain(
    modulus: nat,
    multiplier: nat,
    increment: nat,
    seed: nat,
    k1: nat,
    k2: nat,
)
    requires
        is_boundary_index(modulus, multiplier, increment, seed, k1),
        is_boundary_index(
            modulus,
            multiplier,
            increment,
            lcg_iter(modulus, multiplier, increment, seed, k1),
            k2,
        ),
    ensures
        boundary_result(
            modulus,
            multiplier,
            increment,
            boundary_result(modulus, multiplier, increment, seed),
        ) == lcg_iter(modulus, multiplier, increment, seed, k1 + k2),
{
    lemma_boundary_result_of_index(modulus, multiplier, increment, seed, k1);
    lemma_boundary_result_of_index(
        modulus,
        multiplier,
        increment,
        lcg_iter(modulus, multiplier, increment, seed, k1),
        k2,
    );
    lemma_lcg_iter_adds(modulus, multiplier, increment, seed, k1, k2);
}

/// The boundary-rejection linear congruential generator: applies the
/// recurrence until the value's bit length is exactly one less than the
/// modulus's, and returns that value.
///
/// The result is the uniquely determined first boundary hit, so two calls on
/// equal arguments return equal values. The modulus's bit length must fit a
/// 32-bit count, else `ConversionError`; a search that uses up its step
/// budget reports `SearchExhausted` instead of looping forever.
pub fn gen_linear_congruential_generator(
    modulus: &Big,
    multiplier: &Big,
    increment: &Big,
    seed: &Big,
) -> (r: Result<Big, Error>)
    requires
        modulus.wf(),
        multiplier.wf(),
        increment.wf(),
        seed.wf(),
        modulus@ > 0,
    ensures
        match r {
            Ok(v) => {
                &&& v.wf()
                &&& bit_len(modulus@) <= u32::MAX
                &&& exists|k: nat|
                    #[trigger] is_boundary_index(modulus@, multiplier@, increment@, seed@, k)
                        && k <= LCG_STEP_BUDGET
                &&& v@ == boundary_result(modulus@, multiplier@, increment@, seed@)
                &&& boundary_hit(modulus@, v@)
            },
            Err(Error::ConversionError) => bit_len(modulus@) > u32::MAX,
            Err(Error::SearchExhausted) => {
                &&& bit_len(modulus@) <= u32::MAX
                &&& forall|j: nat|
                    1 <= j <= LCG_STEP_BUDGET ==> !boundary_hit(
                        modulus@,
                        #[trigger] lcg_iter(modulus@, multiplier@, increment@, seed@, j),
                    )
            },
            Err(Error::NotCoPrimeError(_, _)) => false,
        },
{
    let target = modulus.bit_length();
    if target > 0xFFFF_FFFFu128 {
        return Err(Error::ConversionError);
    }
    let mut cur = seed.clone_big();
    let mut steps: u64 = 0;
    let ghost n = modulus@;
    let ghost a = multiplier@;
    let ghost c = increment@;
    let ghost s0 = seed@;
    while steps < LCG_STEP_BUDGET
        invariant
            modulus.wf(),
            multiplier.wf(),
            increment.wf(),
            seed.wf(),
            cur.wf(),
            modulus@ == n,
            multiplier@ == a,
            increment@ == c,
            seed@ == s0,
            n > 0,
            target == bit_len(n),
            target <= u32::MAX,
            steps <= LCG_STEP_BUDGET,
            cur@ == lcg_iter(n, a, c, s0, steps as nat),
            forall|j: nat|
                1 <= j <= steps ==> !boundary_hit(n, #[trigger] lcg_iter(n, a, c, s0, j)),
        decreases LCG_STEP_BUDGET - steps,
    {
        let stepped = cur.times(multiplier).plus(increment).rem_of(modulus);
        proof {
            assert(stepped@ == (cur@ * a + c) % n);
            assert(cur@ * a == a * cur@);
            assert(stepped@ == lcg_step(n, a, c, lcg_iter(n, a, c, s0, steps as nat)));
            assert(stepped@ == lcg_iter(n, a, c, s0, steps as nat + 1));
        }
        cur = stepped;
        steps = steps + 1;
        proof {
            lemma_bit_len_monotone(cur@, n);
        }
        let b = cur.bit_length();
        if b + 1 == target {
            proof {
                assert(boundary_hit(n, cur@));
                assert(is_boundary_index(n, a, c, s0, steps as nat));
                lemma_boundary_result_of_index(n, a, c, s0, steps as nat);
            }
            return Ok(cur);
        }
    }
    Err(Error::SearchExhausted)
}

/// `x_i` in the Blum-Blum-Shub iteration: `x_0` is the seed and each later
/// value is the square of the previous one modulo `p * q`.
pub open spec fn bbs_x(p: nat, q: nat, seed: nat, i: nat) -> nat
    decreases i,
{
    if i == 0 {
        seed
    } else {
        let prev = bbs_x(p, q, seed, (i - 1) as nat);
        (prev * prev) % (p * q)
    }
}

/// The number assembled from the first `size` Blum-Blum-Shub bits, where bit
/// `i` is the parity of `x_i` and bits are packed least significant first.
pub open spec fn bbs_value(p: nat, q: nat, seed: nat, size: nat) -> nat
    decreases size,
{
    if size == 0 {
        0
    } else {
        bbs_value(p, q, seed, (size - 1) as nat) + (bbs_x(p, q, seed, (size - 1) as nat) % 2)
            * pow2((size - 1) as nat)
    }
}

/// A `size`-bit stream packs into a value below `2^size`.
pub proof fn lemma_bbs_value_bound(p: nat, q: nat, seed: nat, size: nat)
    ensures
        bbs_value(p, q, seed, size) < pow2(size),
    decreases size,
{
    if size == 0 {
        vstd::arithmetic::power2::lemma_pow2_pos(0);
        assert(pow2(0) == 1) by {
            vstd::arithmetic::power2::lemma2_to64();
        }
    } else {
        lemma_bbs_value_bound(p, q, seed, (size - 1) as nat);
        vstd::arithmetic::power2::lemma_pow2_unfold(size);
        let bit = bbs_x(p, q, seed, (size - 1) as nat) % 2;
        assert(bit * pow2((size - 1) as nat) <= pow2((size - 1) as nat)) by (nonlinear_arith)
            requires
                bit <= 1,
                pow2((size - 1) as nat) >= 0,
        ;
    }
}

/// The Blum-Blum-Shub generator: emits `size` bits, bit `i` being the least
/// significant bit of `x_i` where `x_0` is the seed and `x_{i+1} = x_i^2 mod
/// p*q`, packed least-significant-bit first.
///
/// The seed must not be a multiple of `p` or of `q`; that shallow
/// divisibility check (not a full gcd test) rejects the seed with
/// `NotCoPrimeError` carrying the seed and the factor it divides. At least
/// one bit is emitted, and the bit count is bounded so the packed result
/// fits comfortably in memory.
pub fn gen_blum_blum_shub(p_val: Big, q_val: Big, seed: Big, size: usize) -> (r: Result<
    Big,
    Error,
>)
    requires
        p_val.wf(),
        q_val.wf(),
        seed.wf(),
        p_val@ > 0,
        q_val@ > 0,
        1 <= size <= 0x4000_0000,
    ensures
        match r {
            Ok(v) => {
                &&& seed@ % p_val@ != 0
                &&& seed@ % q_val@ != 0
                &&& v.wf()
                &&& v@ == bbs_value(p_val@, q_val@, seed@, size as nat)
                &&& v@ < pow2(size as nat)
            },
            Err(Error::NotCoPrimeError(v, f)) => {
                &&& v@ == seed@
                &&& (f@ == p_val@ && seed@ % p_val@ == 0) || (f@ == q_val@ && seed@ % p_val@ != 0
                    && seed@ % q_val@ == 0)
            },
            Err(Error::ConversionError) => false,
            Err(Error::SearchExhausted) => false,
        },
{
    let ghost p = p_val@;
    let ghost q = q_val@;
    let ghost s0 = seed@;
    if seed.rem_of(&p_val).is_zero() {
        return Err(Error::NotCoPrimeError(seed, p_val));
    }
    if seed.rem_of(&q_val).is_zero() {
        return Err(Error::NotCoPrimeError(seed, q_val));
    }
    let n_val = p_val.times(&q_val);
    proof {
        assert(n_val@ == p * q);
        assert(n_val@ > 0) by (nonlinear_arith)
            requires
                n_val@ == p * q,
                p > 0,
                q > 0,
        ;
    }
    let mut acc = if seed.is_odd() {
        Big::from_u64(1)
    } else {
        Big::zero()
    };
    proof {
        assert(pow2(0) == 1) by {
            vstd::arithmetic::power2::lemma2_to64();
        }
        assert(bbs_value(p, q, s0, 0) == 0);
        assert(bbs_x(p, q, s0, 0) == s0);
        let sm = s0 % 2;
        assert(sm * pow2(0) == sm) by (nonlinear_arith)
            requires
                pow2(0) == 1,
        ;
        assert(acc@ == bbs_value(p, q, s0, 1));
    }
    let mut cur = seed;
    let mut idx: usize = 1;
    while idx < size
        invariant
            p_val.wf(),
            q_val.wf(),
            cur.wf(),
            acc.wf(),
            n_val.wf(),
            p_val@ == p,
            q_val@ == q,
            n_val@ == p * q,
            n_val@ > 0,
            1 <= idx <= size,
            size <= 0x4000_0000,
            cur@ == bbs_x(p, q, s0, (idx - 1) as nat),
            acc@ == bbs_value(p, q, s0, idx as nat),
        decreases size - idx,
    {
        let next = cur.times(&cur).rem_of(&n_val);
        proof {
            assert(next@ == bbs_x(p, q, s0, idx as nat));
        }
        cur = next;
        if cur.is_odd() {
            let weight = Big::pow2_big(idx as u64);
            acc = acc.plus(&weight);
        }
        proof {
            let bit = bbs_x(p, q, s0, idx as nat) % 2;
            assert(bbs_value(p, q, s0, idx as nat + 1) == bbs_value(p, q, s0, idx as nat) + bit
                * pow2(idx as nat));
            if bit == 1 {
                assert(bit * pow2(idx as nat) == pow2(idx as nat)) by (nonlinear_arith)
                    requires
                        bit == 1,
                ;
            } else {
                assert(bit * pow2(idx as nat) == 0) by (nonlinear_arith)
                    requires
                        bit == 0,
                ;
            }
            assert(acc@ == bbs_value(p, q, s0, idx as nat + 1));
        }
        idx = idx + 1;
    }
    proof {
        lemma_bbs_value_bound(p, q, s0, size as nat);
    }
    Ok(acc)
}


} // verus!

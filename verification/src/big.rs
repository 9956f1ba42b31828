//! Arbitrary-precision natural numbers, represented as little-endian base 2^32
//! digit vectors and interpreted in specifications as mathematical naturals.
//! The heavy arithmetic (multiplication, division, modular exponentiation,
//! gcd) is delegated to the `num` crate through trusted wrappers whose
//! contracts state the exact mathematical value of each result; everything
//! else about the representation is verified here.

use vstd::prelude::*;
use vstd::arithmetic::power::pow;
use vstd::arithmetic::power2::{
    lemma_pow2_unfold,
    pow2, lemma_pow2, lemma_pow2_adds, lemma_pow2_pos, lemma_pow2_strictly_increases,
};
use vstd::arithmetic::mul::{lemma_mul_inequality, lemma_mul_is_distributive_sub};
use vstd::arithmetic::div_mod::{
    lemma_fundamental_div_mod, lemma_mod_multiples_vanish,
};
use num::Integer;

verus! {

/// The natural number denoted by a sequence of base 2^32 digits, least
/// significant digit first.
pub open spec fn limbs_value(s: Seq<u32>) -> nat
    decreases s.len(),
{
    if s.len() == 0 {
        0
    } else {
        (s[0] as nat) + 0x1_0000_0000 * limbs_value(s.skip(1))
    }
}

/// A digit sequence is canonical when it carries no useless high zero digit,
/// so that each natural number has exactly one canonical representation.
pub open spec fn canonical(s: Seq<u32>) -> bool {
    s.len() == 0 || s[s.len() - 1] != 0
}

/// The number of binary digits needed to write `n`; zero needs none.
pub open spec fn bit_len(n: nat) -> nat
    decreases n,
{
    if n == 0 {
        0
    } else {
        1 + bit_len(n / 2)
    }
}

/// Greatest common divisor by the Euclidean recurrence.
pub open spec fn gcd_spec(a: nat, b: nat) -> nat
    decreases b,
{
    if b == 0 {
        a
    } else {
        gcd_spec(b, a % b)
    }
}

/// The empty digit sequence denotes zero.
pub proof fn lemma_limbs_value_empty()
    ensures
        limbs_value(Seq::<u32>::empty()) == 0,
{
}

/// A single digit denotes itself.
pub proof fn lemma_limbs_value_singleton(x: u32)
    ensures
        limbs_value(seq![x]) == x,
{
    assert(seq![x].skip(1) =~= Seq::<u32>::empty());
    lemma_limbs_value_empty();
}

/// A digit sequence denotes less than one more than its digit capacity.
pub proof fn lemma_limbs_value_bound(s: Seq<u32>)
    ensures
        limbs_value(s) < pow2(32 * s.len()),
    decreases s.len(),
{
    if s.len() == 0 {
        lemma_pow2_pos(0);
        assert(pow2(0) == 1) by {
            lemma_pow2(0);
            reveal(pow);
        }
    } else {
        let rest = s.skip(1);
        lemma_limbs_value_bound(rest);
        lemma_pow2_adds(32, 32 * rest.len());
        assert(pow2(32) == 0x1_0000_0000) by {
            vstd::arithmetic::power2::lemma2_to64();
        }
        // limbs_value(s) == s[0] + 2^32 * limbs_value(rest)
        //               <= (2^32 - 1) + 2^32 * (pow2(32 * rest.len()) - 1)
        //               == 2^32 * pow2(32 * rest.len()) - 1
        lemma_mul_inequality(
            limbs_value(rest) as int,
            pow2(32 * rest.len()) as int - 1,
            0x1_0000_0000,
        );
        lemma_mul_is_distributive_sub(0x1_0000_0000, pow2(32 * rest.len()) as int, 1);
        assert(32 * s.len() == 32 + 32 * rest.len());
    }
}

/// Splitting a digit sequence at position `i` splits its value: the low part
/// keeps its value and the high part is scaled by 2^(32 i).
pub proof fn lemma_limbs_value_split(s: Seq<u32>, i: int)
    requires
        0 <= i <= s.len(),
    ensures
        limbs_value(s) == limbs_value(s.take(i)) + pow2(32 * i as nat) * limbs_value(s.skip(i)),
    decreases i,
{
    if i == 0 {
        assert(s.take(0) =~= Seq::<u32>::empty());
        assert(s.skip(0) =~= s);
        lemma_limbs_value_empty();
        assert(pow2(0) == 1) by {
            lemma_pow2(0);
            reveal(pow);
        }
        assert(limbs_value(s.take(i)) == 0);
        assert(pow2(32 * i as nat) == 1);
        assert(limbs_value(s.skip(i)) == limbs_value(s));
        assert(pow2(32 * i as nat) * limbs_value(s.skip(i)) == limbs_value(s)) by (nonlinear_arith)
            requires
                pow2(32 * i as nat) == 1,
                limbs_value(s.skip(i)) == limbs_value(s),
        ;
    } else {
        let rest = s.skip(1);
        lemma_limbs_value_split(rest, i - 1);
        assert(rest.take(i - 1) =~= s.take(i).skip(1));
        assert(rest.skip(i - 1) =~= s.skip(i));
        assert(s.take(i)[0] == s[0]);
        assert(s.take(i).len() == i);
        // limbs_value(s.take(i)) == s[0] + 2^32 * limbs_value(rest.take(i - 1))
        let a = limbs_value(rest.take(i - 1));
        let b = limbs_value(s.skip(i));
        lemma_pow2_adds(32, 32 * (i - 1) as nat);
        assert(32 * i as nat == 32 + 32 * (i - 1) as nat);
        // s[0] + 2^32 * (a + pow2(32(i-1)) * b) == (s[0] + 2^32 * a) + pow2(32 i) * b
        assert((s[0] as nat) + 0x1_0000_0000 * (a + pow2(32 * (i - 1) as nat) * b) == ((
        s[0] as nat) + 0x1_0000_0000 * a) + (0x1_0000_0000 * pow2(32 * (i - 1) as nat)) * b)
            by (nonlinear_arith);
        assert(pow2(32) == 0x1_0000_0000) by {
            vstd::arithmetic::power2::lemma2_to64();
        }
    }
}

/// A canonical, nonempty digit sequence reaches at least the weight of its
/// highest digit position.
pub proof fn lemma_canonical_lower_bound(s: Seq<u32>)
    requires
        canonical(s),
        s.len() > 0,
    ensures
        limbs_value(s) >= pow2(32 * (s.len() - 1) as nat),
{
    let i = s.len() - 1;
    lemma_limbs_value_split(s, i as int);
    assert(s.skip(i as int) =~= seq![s[i as int]]);
    lemma_limbs_value_singleton(s[i as int]);
    lemma_mul_inequality(1, s[i as int] as int, pow2(32 * i as nat) as int);
    lemma_pow2_pos(32 * i as nat);
}

/// The parity of a digit sequence's value is the parity of its lowest digit.
pub proof fn lemma_limbs_value_parity(s: Seq<u32>)
    requires
        s.len() > 0,
    ensures
        limbs_value(s) % 2 == s[0] % 2,
{
    let rest = limbs_value(s.skip(1));
    assert(0x1_0000_0000 * rest == 2 * (0x8000_0000 * rest)) by (nonlinear_arith);
    lemma_mod_multiples_vanish(0x8000_0000 * rest as int, s[0] as int, 2);
}

/// Dropping a high zero digit does not change the value.
pub proof fn lemma_drop_high_zero(s: Seq<u32>)
    requires
        s.len() > 0,
        s[s.len() - 1] == 0,
    ensures
        limbs_value(s) == limbs_value(s.take(s.len() - 1)),
{
    let i = s.len() - 1;
    lemma_limbs_value_split(s, i as int);
    assert(s.skip(i as int) =~= seq![0u32]);
    lemma_limbs_value_singleton(0u32);
    assert(pow2(32 * i as nat) * 0 == 0);
}

/// A sequence of zero digits denotes zero.
pub proof fn lemma_all_zero_value(s: Seq<u32>)
    requires
        forall|j: int| 0 <= j < s.len() ==> s[j] == 0,
    ensures
        limbs_value(s) == 0,
    decreases s.len(),
{
    if s.len() > 0 {
        lemma_all_zero_value(s.skip(1));
    }
}

/// `bit_len` places a positive number between two adjacent powers of two.
pub proof fn lemma_bit_len_bounds(n: nat)
    ensures
        n > 0 ==> pow2((bit_len(n) - 1) as nat) <= n < pow2(bit_len(n)),
        n == 0 ==> bit_len(n) == 0,
    decreases n,
{
    if n > 0 {
        lemma_bit_len_bounds(n / 2);
        if n / 2 == 0 {
            assert(n == 1);
            assert(bit_len(1nat) == 1 + bit_len(0nat));
            assert(pow2(0) == 1 && pow2(1) == 2) by {
                vstd::arithmetic::power2::lemma2_to64();
            }
        } else {
            let b = bit_len(n / 2);
            assert(bit_len(n) == b + 1);
            lemma_pow2_unfold(b + 1);
            assert(pow2(b + 1) == 2 * pow2(b));
            if b > 0 {
                lemma_pow2_unfold(b);
            } else {
                assert(n / 2 < pow2(0));
                assert(pow2(0) == 1) by {
                    vstd::arithmetic::power2::lemma2_to64();
                }
            }
            // n == 2 * (n / 2) + n % 2, with pow2(b - 1) <= n / 2 < pow2(b)
            lemma_fundamental_div_mod(n as int, 2);
        }
    }
}

/// A number between two adjacent powers of two has the upper exponent as its
/// bit length.
pub proof fn lemma_bit_len_from_bounds(n: nat, k: nat)
    requires
        pow2(k) <= n < pow2(k + 1),
    ensures
        bit_len(n) == k + 1,
{
    lemma_pow2_pos(k);
    lemma_bit_len_bounds(n);
    let b = bit_len(n);
    if b < k + 1 {
        lemma_pow2_strictly_increases((b) as nat, k);
        assert(false);
    }
    if b > k + 1 {
        lemma_pow2_strictly_increases(k + 1, (b - 1) as nat);
        assert(false);
    }
}

/// A number below `2^k` needs at most `k` binary digits.
pub proof fn lemma_bit_len_le(n: nat, k: nat)
    requires
        n < pow2(k),
    ensures
        bit_len(n) <= k,
{
    lemma_bit_len_bounds(n);
    if n > 0 && bit_len(n) > k {
        if k < bit_len(n) - 1 {
            lemma_pow2_strictly_increases(k, (bit_len(n) - 1) as nat);
        }
        assert(false);
    }
}

/// Bit length never decreases when the number grows.
pub proof fn lemma_bit_len_monotone(a: nat, b: nat)
    requires
        a <= b,
    ensures
        bit_len(a) <= bit_len(b),
{
    lemma_bit_len_bounds(a);
    lemma_bit_len_bounds(b);
    if a > 0 && bit_len(a) > bit_len(b) {
        lemma_pow2_strictly_increases(bit_len(b), (bit_len(a) - 1) as nat);
        assert(false);
    }
}

/// The bit length of a canonical digit sequence's value decomposes into
/// 32 bits for each full digit plus the bit length of the top digit.
pub proof fn lemma_limbs_bit_len(s: Seq<u32>)
    requires
        canonical(s),
        s.len() > 0,
    ensures
        bit_len(limbs_value(s)) == 32 * (s.len() - 1) + bit_len(s[s.len() - 1] as nat),
{
    let i = s.len() - 1;
    let d = s[i as int] as nat;
    let low = limbs_value(s.take(i as int));
    let w = pow2(32 * i as nat);
    lemma_limbs_value_split(s, i as int);
    assert(s.skip(i as int) =~= seq![s[i as int]]);
    lemma_limbs_value_singleton(s[i as int]);
    assert(limbs_value(s) == low + w * d);
    assert(s.take(i as int).len() == i);
    lemma_limbs_value_bound(s.take(i as int));
    assert(low < w);
    lemma_bit_len_bounds(d);
    let bd = bit_len(d);
    assert(d >= 1);
    assert(bd >= 1);
    lemma_pow2_pos(32 * i as nat);
    // lower bound: value >= w * d >= w * pow2(bd - 1) == pow2(32 i + bd - 1)
    assert(w * d >= w * pow2((bd - 1) as nat)) by (nonlinear_arith)
        requires
            pow2((bd - 1) as nat) <= d,
            w > 0,
    ;
    lemma_pow2_adds(32 * i as nat, (bd - 1) as nat);
    assert(pow2(32 * i as nat + (bd - 1) as nat) == w * pow2((bd - 1) as nat));
    // upper bound: value < w + w * d == w * (1 + d) <= w * pow2(bd) == pow2(32 i + bd)
    assert(w * (d + 1) == w * d + w) by (nonlinear_arith);
    assert(w * (d + 1) <= w * pow2(bd)) by (nonlinear_arith)
        requires
            d + 1 <= pow2(bd),
            w > 0,
    ;
    lemma_pow2_adds(32 * i as nat, bd);
    assert(pow2(32 * i as nat + bd) == w * pow2(bd));
    let k = (32 * i as nat + bd - 1) as nat;
    assert(k + 1 == 32 * i as nat + bd);
    assert(pow2(k) <= limbs_value(s) < pow2(k + 1));
    lemma_bit_len_from_bounds(limbs_value(s), k);
}

/// Arbitrary-precision natural number: little-endian base 2^32 digits with no
/// high zero digit. Its mathematical view is the natural number it denotes.
#[derive(Debug)]
pub struct Big {
    limbs: Vec<u32>,
}

impl View for Big {
    type V = nat;

    closed spec fn view(&self) -> nat {
        limbs_value(self.limbs@)
    }
}

impl Big {
    /// The representation invariant: digits are canonical.
    pub closed spec fn wf(&self) -> bool {
        canonical(self.limbs@)
    }

    /// The digit sequence of this number, for specifications.
    pub closed spec fn limb_seq(&self) -> Seq<u32> {
        self.limbs@
    }

    /// Build a number from little-endian base 2^32 digits, discarding high
    /// zero digits.
    pub fn from_limbs(limbs: Vec<u32>) -> (r: Big)
        ensures
            r.wf(),
            r@ == limbs_value(limbs@),
    {
        let mut v = limbs;
        let ghost orig = v@;
        while v.len() > 0 && v[v.len() - 1] == 0
            invariant
                limbs_value(v@) == limbs_value(orig),
            decreases v.len(),
        {
            proof {
                lemma_drop_high_zero(v@);
            }
            let ghost before = v@;
            v.pop();
            proof {
                assert(v@ =~= before.take(before.len() - 1));
            }
        }
        Big { limbs: v }
    }

    /// The number zero.
    pub fn zero() -> (r: Big)
        ensures
            r.wf(),
            r@ == 0,
    {
        Big { limbs: Vec::new() }
    }

    /// Build a number from a machine word.
    pub fn from_u64(x: u64) -> (r: Big)
        ensures
            r.wf(),
            r@ == x as nat,
    {
        let lo: u32 = (x % 0x1_0000_0000) as u32;
        let hi: u32 = (x / 0x1_0000_0000) as u32;
        let mut v: Vec<u32> = Vec::new();
        v.push(lo);
        v.push(hi);
        proof {
            assert(v@ =~= seq![lo, hi]);
            assert(v@.skip(1) =~= seq![hi]);
            lemma_limbs_value_singleton(hi);
            assert(limbs_value(v@) == lo + 0x1_0000_0000 * (hi as nat));
        }
        Big::from_limbs(v)
    }

    /// Build a number from a 128-bit machine word.
    pub fn from_u128(x: u128) -> (r: Big)
        ensures
            r.wf(),
            r@ == x as nat,
    {
        let lo: u64 = (x % 0x1_0000_0000_0000_0000) as u64;
        let hi: u64 = (x / 0x1_0000_0000_0000_0000) as u64;
        let big_lo = Big::from_u64(lo);
        let big_hi = Big::from_u64(hi);
        let shift = Big::pow2_big(64);
        let scaled = big_hi.times(&shift);
        let r = big_lo.plus(&scaled);
        proof {
            assert(pow2(64) == 0x1_0000_0000_0000_0000) by {
                vstd::arithmetic::power2::lemma2_to64_rest();
            }
            lemma_fundamental_div_mod(x as int, 0x1_0000_0000_0000_0000);
        }
        r
    }

    /// An exact copy.
    pub fn clone_big(&self) -> (r: Big)
        ensures
            r.limb_seq() == self.limb_seq(),
            r@ == self@,
            r.wf() == self.wf(),
    {
        let mut v: Vec<u32> = Vec::new();
        let mut i: usize = 0;
        while i < self.limbs.len()
            invariant
                i <= self.limbs@.len(),
                v@ == self.limbs@.take(i as int),
            decreases self.limbs@.len() - i,
        {
            v.push(self.limbs[i]);
            proof {
                assert(v@ =~= self.limbs@.take(i + 1));
            }
            i = i + 1;
        }
        proof {
            assert(v@ =~= self.limbs@);
        }
        Big { limbs: v }
    }

    /// The digits as a plain vector, lowest digit first.
    pub fn to_limbs(&self) -> (r: Vec<u32>)
        ensures
            r@ == self.limb_seq(),
    {
        self.clone_big().limbs
    }

    /// Whether this number is zero.
    pub fn is_zero(&self) -> (r: bool)
        requires
            self.wf(),
        ensures
            r == (self@ == 0),
    {
        proof {
            if self.limbs@.len() > 0 {
                lemma_canonical_lower_bound(self.limbs@);
                lemma_pow2_pos(32 * (self.limbs@.len() - 1) as nat);
            }
        }
        self.limbs.len() == 0
    }

    /// Whether this number is odd.
    pub fn is_odd(&self) -> (r: bool)
        ensures
            r == (self@ % 2 == 1),
    {
        if self.limbs.len() == 0 {
            false
        } else {
            proof {
                lemma_limbs_value_parity(self.limbs@);
            }
            self.limbs[0] % 2 == 1
        }
    }

    /// Three-way comparison of canonical digit vectors.
    fn cmp_limbs(&self, other: &Big) -> (r: i8)
        requires
            self.wf(),
            other.wf(),
        ensures
            r == -1 || r == 0 || r == 1,
            (r == -1) == (self@ < other@),
            (r == 0) == (self@ == other@),
            (r == 1) == (self@ > other@),
    {
        let a = &self.limbs;
        let b = &other.limbs;
        if a.len() < b.len() {
            proof {
                lemma_shorter_canonical_smaller(a@, b@);
            }
            return -1;
        }
        if b.len() < a.len() {
            proof {
                lemma_shorter_canonical_smaller(b@, a@);
            }
            return 1;
        }
        let mut i: usize = a.len();
        while i > 0
            invariant
                a@ == self.limb_seq(),
                b@ == other.limb_seq(),
                a@.len() == b@.len(),
                i <= a@.len(),
                forall|j: int| i <= j < a@.len() ==> a@[j] == b@[j],
            decreases i,
        {
            i = i - 1;
            if a[i] < b[i] {
                proof {
                    lemma_limbs_cmp_at(a@, b@, i as int);
                }
                return -1;
            }
            if b[i] < a[i] {
                proof {
                    lemma_limbs_cmp_at(b@, a@, i as int);
                }
                return 1;
            }
        }
        proof {
            assert(a@ =~= b@);
        }
        0
    }

    /// Whether this number equals another.
    pub fn equals(&self, other: &Big) -> (r: bool)
        requires
            self.wf(),
            other.wf(),
        ensures
            r == (self@ == other@),
    {
        self.cmp_limbs(other) == 0
    }

    /// Whether this number is strictly below another.
    pub fn lt(&self, other: &Big) -> (r: bool)
        requires
            self.wf(),
            other.wf(),
        ensures
            r == (self@ < other@),
    {
        self.cmp_limbs(other) == -1
    }

    /// The number 2^k.
    pub fn pow2_big(k: u64) -> (r: Big)
        requires
            k <= 0x8000_0000,
        ensures
            r.wf(),
            r@ == pow2(k as nat),
    {
        let q: usize = (k / 32) as usize;
        let rem: u64 = k % 32;
        let mut d: u32 = 1;
        let mut j: u64 = 0;
        proof {
            vstd::arithmetic::power2::lemma2_to64();
        }
        while j < rem
            invariant
                j <= rem,
                rem < 32,
                d == pow2(j as nat),
            decreases rem - j,
        {
            proof {
                lemma_pow2_strictly_increases(j as nat, 31);
                assert(pow2(31) == 0x8000_0000) by {
                    vstd::arithmetic::power2::lemma2_to64();
                }
                lemma_pow2_unfold(j as nat + 1);
            }
            d = d * 2;
            j = j + 1;
        }
        let mut v: Vec<u32> = Vec::new();
        let mut z: usize = 0;
        while z < q
            invariant
                z <= q,
                v@.len() == z,
                forall|t: int| 0 <= t < z ==> v@[t] == 0,
            decreases q - z,
        {
            v.push(0);
            z = z + 1;
        }
        v.push(d);
        proof {
            let s = v@;
            assert(s.len() == q + 1);
            assert(s[q as int] == d);
            lemma_limbs_value_split(s, q as int);
            lemma_all_zero_value(s.take(q as int));
            assert(s.skip(q as int) =~= seq![d]);
            lemma_limbs_value_singleton(d);
            lemma_pow2_adds(32 * q as nat, rem as nat);
            assert(32 * q as nat + rem as nat == k) by (nonlinear_arith)
                requires
                    q == k / 32,
                    rem == k % 32,
            ;
            assert(canonical(s)) by {
                lemma_pow2_pos(rem as nat);
            }
        }
        Big { limbs: v }
    }

    /// The number of binary digits of this number.
    pub fn bit_length(&self) -> (r: u128)
        requires
            self.wf(),
        ensures
            r == bit_len(self@),
    {
        if self.limbs.len() == 0 {
            return 0;
        }
        let top: u32 = self.limbs[self.limbs.len() - 1];
        let mut y: u32 = top;
        let mut c: u32 = 0;
        proof {
            lemma_u32_bit_len_le_32(top);
        }
        while y > 0
            invariant
                bit_len(top as nat) == c + bit_len(y as nat),
                bit_len(top as nat) <= 32,
                c <= 32,
            decreases y,
        {
            y = y / 2;
            c = c + 1;
        }
        proof {
            lemma_limbs_bit_len(self.limbs@);
        }
        32u128 * ((self.limbs.len() - 1) as u128) + (c as u128)
    }
}

/// A machine word of 32 bits never needs more than 32 binary digits.
pub proof fn lemma_u32_bit_len_le_32(x: u32)
    ensures
        bit_len(x as nat) <= 32,
{
    assert(pow2(32) == 0x1_0000_0000) by {
        vstd::arithmetic::power2::lemma2_to64();
    }
    lemma_bit_len_le(x as nat, 32);
}

/// A digit sequence shorter than a canonical one denotes a smaller value.
pub proof fn lemma_shorter_canonical_smaller(a: Seq<u32>, b: Seq<u32>)
    requires
        a.len() < b.len(),
        canonical(b),
    ensures
        limbs_value(a) < limbs_value(b),
{
    lemma_limbs_value_bound(a);
    lemma_canonical_lower_bound(b);
    if 32 * a.len() < 32 * (b.len() - 1) as nat {
        lemma_pow2_strictly_increases(32 * a.len(), 32 * (b.len() - 1) as nat);
    }
}

/// Digit-by-digit comparison: with equal lengths, equal digits above `i`, and
/// a smaller digit at `i`, the whole value is smaller.
pub proof fn lemma_limbs_cmp_at(a: Seq<u32>, b: Seq<u32>, i: int)
    requires
        a.len() == b.len(),
        0 <= i < a.len(),
        a[i] < b[i],
        forall|j: int| i < j < a.len() ==> a[j] == b[j],
    ensures
        limbs_value(a) < limbs_value(b),
{
    lemma_limbs_value_split(a, i + 1);
    lemma_limbs_value_split(b, i + 1);
    assert(a.skip(i + 1) =~= b.skip(i + 1));
    lemma_limbs_value_split(a.take(i + 1), i);
    lemma_limbs_value_split(b.take(i + 1), i);
    assert(a.take(i + 1).take(i) =~= a.take(i));
    assert(b.take(i + 1).take(i) =~= b.take(i));
    assert(a.take(i + 1).skip(i) =~= seq![a[i]]);
    assert(b.take(i + 1).skip(i) =~= seq![b[i]]);
    lemma_limbs_value_singleton(a[i]);
    lemma_limbs_value_singleton(b[i]);
    let w = pow2(32 * i as nat);
    lemma_limbs_value_bound(a.take(i));
    assert(a.take(i).len() == i);
    // value(a.take(i+1)) == value(a.take(i)) + w * a[i] < w * (a[i] + 1) <= w * b[i]
    assert(w * (a[i] as int + 1) <= w * (b[i] as int)) by {
        lemma_mul_inequality(a[i] as int + 1, b[i] as int, w as int);
        assert(w * (a[i] as int + 1) == (a[i] as int + 1) * w) by (nonlinear_arith);
        assert(w * (b[i] as int) == (b[i] as int) * w) by (nonlinear_arith);
    }
    assert(w * (a[i] as int + 1) == w * (a[i] as int) + w) by (nonlinear_arith);
}


impl Big {
    /// Sum of two numbers.
    pub fn plus(&self, other: &Big) -> (r: Big)
        ensures
            r.wf(),
            r@ == self@ + other@,
    {
        Big::from_limbs(raw_plus(self, other))
    }

    /// Difference of two numbers; the subtrahend may not exceed the minuend.
    pub fn minus(&self, other: &Big) -> (r: Big)
        requires
            other@ <= self@,
        ensures
            r.wf(),
            r@ == self@ - other@,
    {
        Big::from_limbs(raw_minus(self, other))
    }

    /// Product of two numbers.
    pub fn times(&self, other: &Big) -> (r: Big)
        ensures
            r.wf(),
            r@ == self@ * other@,
    {
        Big::from_limbs(raw_times(self, other))
    }

    /// Remainder of this number modulo a positive modulus.
    pub fn rem_of(&self, modulus: &Big) -> (r: Big)
        requires
            modulus@ > 0,
        ensures
            r.wf(),
            r@ == self@ % modulus@,
    {
        Big::from_limbs(raw_rem(self, modulus))
    }

    /// Modular exponentiation: this number raised to `exponent`, modulo a
    /// positive `modulus`.
    pub fn modpow_of(&self, exponent: &Big, modulus: &Big) -> (r: Big)
        requires
            modulus@ > 0,
        ensures
            r.wf(),
            r@ == pow(self@ as int, exponent@) % (modulus@ as int),
    {
        Big::from_limbs(raw_modpow(self, exponent, modulus))
    }

    /// Greatest common divisor with another number.
    pub fn gcd_of(&self, other: &Big) -> (r: Big)
        ensures
            r.wf(),
            r@ == gcd_spec(self@, other@),
    {
        Big::from_limbs(raw_gcd(self, other))
    }

    /// Half of this number, rounded down.
    pub fn half(&self) -> (r: Big)
        ensures
            r.wf(),
            r@ == self@ / 2,
    {
        Big::from_limbs(raw_half(self))
    }
}

/// Relies on `num`'s `BigUint` addition; `BigUint::new` reads little-endian
/// base 2^32 digits and `to_u32_digits` writes the sum's digits back.
#[verifier::external_body]
fn raw_plus(a: &Big, b: &Big) -> (r: Vec<u32>)
    ensures
        limbs_value(r@) == a@ + b@,
{
    (num::BigUint::new(a.limbs.clone()) + num::BigUint::new(b.limbs.clone())).to_u32_digits()
}

/// Relies on `num`'s `BigUint` subtraction, which requires the subtrahend not
/// to exceed the minuend (it panics otherwise).
#[verifier::external_body]
fn raw_minus(a: &Big, b: &Big) -> (r: Vec<u32>)
    requires
        b@ <= a@,
    ensures
        limbs_value(r@) == a@ - b@,
{
    (num::BigUint::new(a.limbs.clone()) - num::BigUint::new(b.limbs.clone())).to_u32_digits()
}

/// Relies on `num`'s `BigUint` multiplication.
#[verifier::external_body]
fn raw_times(a: &Big, b: &Big) -> (r: Vec<u32>)
    ensures
        limbs_value(r@) == a@ * b@,
{
    (num::BigUint::new(a.limbs.clone()) * num::BigUint::new(b.limbs.clone())).to_u32_digits()
}

/// Relies on `num`'s `BigUint` remainder, the Euclidean remainder for
/// unsigned values; division by zero panics, so the modulus must be positive.
#[verifier::external_body]
fn raw_rem(a: &Big, m: &Big) -> (r: Vec<u32>)
    requires
        m@ > 0,
    ensures
        limbs_value(r@) == a@ % m@,
{
    (num::BigUint::new(a.limbs.clone()) % num::BigUint::new(m.limbs.clone())).to_u32_digits()
}

/// Relies on `BigUint::modpow`, documented as `(self ^ exponent) % modulus`,
/// panicking when the modulus is zero.
#[verifier::external_body]
fn raw_modpow(a: &Big, e: &Big, m: &Big) -> (r: Vec<u32>)
    requires
        m@ > 0,
    ensures
        limbs_value(r@) == pow(a@ as int, e@) % (m@ as int),
{
    num::BigUint::new(a.limbs.clone()).modpow(
        &num::BigUint::new(e.limbs.clone()),
        &num::BigUint::new(m.limbs.clone()),
    ).to_u32_digits()
}

/// Relies on `num`'s `Integer::gcd` for `BigUint`, which returns the greatest
/// common divisor, the value of the Euclidean recurrence.
#[verifier::external_body]
fn raw_gcd(a: &Big, b: &Big) -> (r: Vec<u32>)
    ensures
        limbs_value(r@) == gcd_spec(a@, b@),
{
    num::BigUint::new(a.limbs.clone()).gcd(&num::BigUint::new(b.limbs.clone())).to_u32_digits()
}

/// Relies on `num`'s `BigUint` right shift by one bit, which halves the value
/// rounding down.
#[verifier::external_body]
fn raw_half(a: &Big) -> (r: Vec<u32>)
    ensures
        limbs_value(r@) == a@ / 2,
{
    (num::BigUint::new(a.limbs.clone()) >> 1u32).to_u32_digits()
}


} // verus!

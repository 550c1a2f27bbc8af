//! Restart thresholds following the Luby sequence 1, 1, 2, 1, 1, 2, 4, 1, ...
use vstd::arithmetic::power2::{lemma_pow2_pos, lemma_pow2_unfold, pow2};
use vstd::prelude::*;

verus! {

/// Term `i` of the Luby sequence, searched among levels below `k`
/// (`i < 2^k`): the term `2^k - 1` is `2^(k-1)`, and the terms from `2^(k-1)`
/// up to `2^k - 2` repeat the sequence from its start.
pub open spec fn luby_at(i: nat, k: nat) -> nat
    decreases k,
{
    if k == 0 {
        0
    } else if i + 1 == pow2(k) {
        pow2((k - 1) as nat)
    } else if i >= pow2((k - 1) as nat) {
        luby_at((i + 1 - pow2((k - 1) as nat)) as nat, (k - 1) as nat)
    } else {
        luby_at(i, (k - 1) as nat)
    }
}

/// Term `i` (counting from 1) of the Luby sequence.
pub open spec fn luby(i: nat) -> nat {
    luby_at(i, i)
}

/// Every index lies below the power of two of itself.
pub proof fn lemma_lt_pow2(i: nat)
    ensures
        i < pow2(i),
    decreases i,
{
    if i > 0 {
        lemma_lt_pow2((i - 1) as nat);
        lemma_pow2_pos((i - 1) as nat);
        lemma_pow2_unfold(i);
    } else {
        vstd::arithmetic::power2::lemma2_to64();
    }
}

/// Powers of two grow with the exponent.
pub proof fn lemma_pow2_mono(a: nat, b: nat)
    requires
        a <= b,
    ensures
        pow2(a) <= pow2(b),
    decreases b - a,
{
    if a < b {
        lemma_pow2_mono(a, (b - 1) as nat);
        lemma_pow2_unfold(b);
        lemma_pow2_pos((b - 1) as nat);
    }
}

/// The search level does not matter once it is high enough.
pub proof fn lemma_luby_at_level(i: nat, k: nat, m: nat)
    requires
        i < pow2(k),
        k <= m,
    ensures
        luby_at(i, k) == luby_at(i, m),
    decreases m - k,
{
    if k < m {
        lemma_luby_at_level(i, k, (m - 1) as nat);
        lemma_pow2_mono(k, (m - 1) as nat);
        lemma_pow2_unfold(m);
        lemma_pow2_pos((m - 1) as nat);
    }
}

/// `luby(i)` can be computed at any level `k` with `i < 2^k`.
pub proof fn lemma_luby_level(i: nat, k: nat)
    requires
        i < pow2(k),
    ensures
        luby(i) == luby_at(i, k),
{
    lemma_lt_pow2(i);
    if k <= i {
        lemma_luby_at_level(i, k, i);
    } else {
        lemma_luby_at_level(i, i, k);
    }
}

/// One step of the sequence at level `k`, for an index `i` with
/// `2^(k-1) <= i < 2^k`.
pub proof fn lemma_luby_step(i: nat, k: nat)
    requires
        k >= 1,
        pow2((k - 1) as nat) <= i,
        i < pow2(k),
    ensures
        i + 1 == pow2(k) ==> luby(i) == pow2((k - 1) as nat),
        i + 1 != pow2(k) ==> luby(i) == luby((i + 1 - pow2((k - 1) as nat)) as nat),
{
    lemma_luby_level(i, k);
    lemma_pow2_unfold(k);
    if i + 1 != pow2(k) {
        lemma_luby_level((i + 1 - pow2((k - 1) as nat)) as nat, (k - 1) as nat);
    }
}

proof fn lemma_luby_at_power(i: nat, k: nat)
    requires
        1 <= i < pow2(k),
    ensures
        exists|e: nat| luby_at(i, k) == #[trigger] pow2(e),
    decreases k,
{
    if k == 0 {
        vstd::arithmetic::power2::lemma2_to64();
    } else {
        lemma_pow2_unfold(k);
        lemma_pow2_pos((k - 1) as nat);
        if i + 1 == pow2(k) {
            assert(luby_at(i, k) == pow2((k - 1) as nat));
        } else if i >= pow2((k - 1) as nat) {
            lemma_luby_at_power((i + 1 - pow2((k - 1) as nat)) as nat, (k - 1) as nat);
        } else {
            lemma_luby_at_power(i, (k - 1) as nat);
        }
    }
}

/// Every term of the Luby sequence (counting from 1) is a power of two.
pub proof fn law_luby_terms_are_powers_of_two(i: nat)
    requires
        i >= 1,
    ensures
        exists|e: nat| luby(i) == #[trigger] pow2(e),
{
    lemma_lt_pow2(i);
    lemma_luby_at_power(i, i);
}

/// Restart thresholds: the `i`-th call of `next_threshold` returns the `i`-th
/// term of the Luby sequence.
pub struct Restarter {
    pub threshold_sequence: Vec<usize>,
    pub i: usize,
    pub exp: usize,
}

impl Restarter {
    /// The sequence holds the first `i` terms and `exp` is the level of term `i + 1`.
    pub open spec fn wf(&self) -> bool {
        &&& self.threshold_sequence@.len() == self.i
        &&& 1 <= self.exp
        &&& pow2((self.exp - 1) as nat) <= self.i + 1 < pow2(self.exp as nat)
        &&& forall|j: int|
            0 <= j < self.i ==> #[trigger] self.threshold_sequence@[j] == luby((j + 1) as nat)
    }

    pub fn new() -> (r: Restarter)
        ensures
            r.wf(),
            r.i == 0,
            r.exp == 1,
            r.threshold_sequence@.len() == 0,
    {
        proof {
            vstd::arithmetic::power2::lemma2_to64();
        }
        Restarter { threshold_sequence: Vec::new(), i: 0, exp: 1 }
    }

    /// Advances to the next term of the Luby sequence and returns it.
    pub fn next_threshold(&mut self) -> (r: usize)
        requires
            old(self).wf(),
            old(self).i + 1 < 0x4000_0000,
        ensures
            final(self).wf(),
            final(self).i == old(self).i + 1,
            r == luby((old(self).i + 1) as nat),
            final(self).threshold_sequence@ == old(self).threshold_sequence@.push(r),
    {
        let ghost k = self.exp as nat;
        proof {
            vstd::arithmetic::power2::lemma2_to64();
            if k >= 31 {
                lemma_pow2_mono(30, (k - 1) as nat);
            }
            assert(k <= 30);
            lemma_pow2_unfold(k);
            lemma_pow2_pos((k - 1) as nat);
            vstd::bits::lemma_usize_pow2_no_overflow(k);
            vstd::bits::lemma_usize_shl_is_mul(1, self.exp);
            vstd::bits::lemma_usize_shl_is_mul(1, (self.exp - 1) as usize);
        }
        self.i += 1;
        proof {
            lemma_luby_step(self.i as nat, k);
        }
        if self.i == (1 << self.exp) - 1 {
            self.threshold_sequence.push(1 << (self.exp - 1));
            self.exp += 1;
            proof {
                lemma_pow2_unfold((k + 1) as nat);
            }
        } else {
            let val = self.threshold_sequence[(self.i - (1 << (self.exp - 1)))];
            self.threshold_sequence.push(val);
        }
        let r = self.threshold_sequence[self.threshold_sequence.len() - 1];
        r
    }
}

} // verus!

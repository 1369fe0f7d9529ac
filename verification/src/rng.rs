//! Samplers: uniform integers below a bound.
//!
//! [`BasicRng`] draws from a counter-based generator and reduces each draw
//! to the bound without modulo bias. [`FakeRng`] returns a fixed value and
//! serves to make evaluations predictable.

use vstd::prelude::*;

verus! {

/// A source of integers below a bound.
///
/// What a sampler returns is a function of its state: `drawn` names the
/// value of the next call of `range` and `advanced` the state it leaves.
/// A sampler with proofs defines the two; one without need only provide
/// `range`, and nothing is then known of what it returns but the bound.
pub trait Rng: Sized {
    /// The value that `range(max)` returns in this state.
    open spec fn drawn(&self, max: u64) -> u64 {
        arbitrary()
    }

    /// The state in which `range(max)` leaves the sampler.
    open spec fn advanced(&self, max: u64) -> Self {
        arbitrary()
    }

    /// Returns a value in the range `0..max`.
    fn range(&mut self, max: u64) -> (value: u64)
        requires
            max > 0,
        ensures
            value < max,
            value == old(self).drawn(max),
            *final(self) == old(self).advanced(max),
    ;
}

/// A sampler that always answers alike, for tests.
pub struct FakeRng {
    /// When set, the sampler always returns `min(value, max - 1)`,
    /// otherwise it returns the center of the range.
    pub value: Option<u64>,
}

/// A sampler fixed at `value`, or at the center of each range.
pub fn fake(value: Option<u64>) -> (rng: FakeRng)
    ensures
        rng.value == value,
{
    FakeRng { value }
}

impl Rng for FakeRng {
    open spec fn drawn(&self, max: u64) -> u64 {
        match self.value {
            Some(v) => if v < max {
                v
            } else {
                (max - 1) as u64
            },
            None => max / 2,
        }
    }

    open spec fn advanced(&self, max: u64) -> Self {
        *self
    }

    fn range(&mut self, max: u64) -> (value: u64) {
        match self.value {
            Some(v) => if v < max {
                v
            } else {
                max - 1
            },
            None => max / 2,
        }
    }
}

/// Two to the power 64: the number of values of a `u64`.
pub open spec fn word() -> int {
    0x1_0000_0000_0000_0000
}

/// What the generator's counter grows by with every draw.
pub const INCREMENT: u64 = 0xA076_1D64_78BD_642F;

/// What the counter is combined with before the two are multiplied.
pub const MIXER: u64 = 0xE703_7ED1_A0B4_28DB;

/// The counter after one more draw.
pub open spec fn stepped(state: u64) -> u64 {
    ((state + INCREMENT) % word()) as u64
}

/// The raw value drawn at counter `state`: the two halves of the 128-bit
/// product of the counter and its mix, folded together.
pub open spec fn mixed(state: u64) -> u64 {
    let product = state as int * (state ^ MIXER) as int;
    ((product % word()) as u64) ^ ((product / word()) as u64)
}

/// The upper 64 bits of the product `a * b`.
pub open spec fn high_half(a: u64, b: u64) -> int {
    (a as int * b as int) / word()
}

/// The lower 64 bits of the product `a * b`.
pub open spec fn low_half(a: u64, b: u64) -> int {
    (a as int * b as int) % word()
}

/// A raw draw `raw` gives an unbiased value below `max` when the lower half
/// of `raw * max` is at least `2^64 mod max`.
pub open spec fn unbiased(raw: u64, max: u64) -> bool {
    low_half(raw, max) >= word() % (max as int)
}

/// The value below `max` and the counter that a sampler at counter `state`
/// arrives at: it draws until a draw is unbiased, and at most `redraws`
/// times after the first draw.
pub open spec fn reduced(state: u64, max: u64, redraws: nat) -> (u64, u64)
    decreases redraws,
{
    let next = stepped(state);
    let raw = mixed(next);
    if unbiased(raw, max) || redraws == 0 {
        (high_half(raw, max) as u64, next)
    } else {
        reduced(next, max, (redraws - 1) as nat)
    }
}

/// A seeded sampler: the same seed gives the same values, always.
pub struct BasicRng {
    pub state: u64,
}

impl Rng for BasicRng {
    /// The value of the first draw that is unbiased. After `2^64` draws
    /// the counter has taken every value, so a value that none of them
    /// settles is settled by the last.
    open spec fn drawn(&self, max: u64) -> u64 {
        reduced(self.state, max, u64::MAX as nat).0
    }

    open spec fn advanced(&self, max: u64) -> Self {
        BasicRng { state: reduced(self.state, max, u64::MAX as nat).1 }
    }

    fn range(&mut self, max: u64) -> (value: u64) {
        let ghost start = self.state;
        let ghost target = reduced(start, max, u64::MAX as nat);
        let mut raw = self.u64();
        let mut hi = mul_high_u64(raw, max);
        let mut lo = raw.wrapping_mul(max);
        proof {
            lemma_high_half_below(raw, max);
        }
        if lo < max {
            let t = (u64::MAX - max + 1) % max;
            proof {
                lemma_threshold(max);
            }
            let mut redraws = u64::MAX;
            while lo < t && redraws > 0
                invariant
                    max > 0,
                    t == word() % (max as int),
                    hi == high_half(raw, max),
                    lo == low_half(raw, max),
                    hi < max,
                    target == if unbiased(raw, max) || redraws == 0 {
                        (hi, self.state)
                    } else {
                        reduced(self.state, max, (redraws - 1) as nat)
                    },
                decreases redraws,
            {
                redraws -= 1;
                raw = self.u64();
                hi = mul_high_u64(raw, max);
                lo = raw.wrapping_mul(max);
                proof {
                    lemma_high_half_below(raw, max);
                }
            }
        }
        hi
    }
}

impl BasicRng {
    /// A sampler whose counter starts at `seed`.
    pub fn new(seed: u64) -> (rng: BasicRng)
        ensures
            rng.state == seed,
    {
        BasicRng { state: seed }
    }

    /// Advances the counter and returns the raw value drawn at it.
    fn u64(&mut self) -> (raw: u64)
        ensures
            final(self).state == stepped(old(self).state),
            raw == mixed(final(self).state),
    {
        let s = self.state.wrapping_add(INCREMENT);
        self.state = s;
        let m = s ^ MIXER;
        assert(s as int * m as int <= 0xffff_ffff_ffff_ffff * 0xffff_ffff_ffff_ffff)
            by (nonlinear_arith)
            requires
                0 <= s <= 0xffff_ffff_ffff_ffff,
                0 <= m <= 0xffff_ffff_ffff_ffff,
        ;
        let t: u128 = (s as u128) * (m as u128);
        assert(t >> 64 == t / 0x1_0000_0000_0000_0000) by (bit_vector);
        assert(t as u64 == t % 0x1_0000_0000_0000_0000) by (bit_vector);
        assert(t / 0x1_0000_0000_0000_0000 <= 0xffff_ffff_ffff_ffff);
        #[verifier::truncate]
        let low = t as u64;
        let high = (t >> 64) as u64;
        low ^ high
    }
}

/// The upper 64 bits of the 128-bit product of `a` and `b`.
fn mul_high_u64(a: u64, b: u64) -> (hi: u64)
    ensures
        hi == high_half(a, b),
{
    assert(a as int * b as int <= 0xffff_ffff_ffff_ffff * 0xffff_ffff_ffff_ffff)
        by (nonlinear_arith)
        requires
            0 <= a <= 0xffff_ffff_ffff_ffff,
            0 <= b <= 0xffff_ffff_ffff_ffff,
    ;
    let p: u128 = (a as u128) * (b as u128);
    assert(p >> 64 == p / 0x1_0000_0000_0000_0000) by (bit_vector);
    assert(p / 0x1_0000_0000_0000_0000 <= 0xffff_ffff_ffff_ffff);
    (p >> 64) as u64
}

/// The upper half of `raw * max` lies below `max`.
pub proof fn lemma_high_half_below(raw: u64, max: u64)
    requires
        max > 0,
    ensures
        0 <= high_half(raw, max) < max,
{
    let product = raw as int * max as int;
    assert(0 <= product < word() * max) by (nonlinear_arith)
        requires
            product == raw as int * max as int,
            0 <= raw < word(),
            max > 0,
    ;
    assert(0 <= product / word() < max) by (nonlinear_arith)
        requires
            0 <= product < word() * max,
            word() > 0,
    ;
}

/// What a sampler arrives at lies below the bound, however often it draws.
pub proof fn lemma_reduced_below(state: u64, max: u64, redraws: nat)
    requires
        max > 0,
    ensures
        reduced(state, max, redraws).0 < max,
    decreases redraws,
{
    lemma_high_half_below(mixed(stepped(state)), max);
    if !unbiased(mixed(stepped(state)), max) && redraws != 0 {
        lemma_reduced_below(stepped(state), max, (redraws - 1) as nat);
    }
}

/// The least raw draw that gives `value` below `max` without bias.
pub open spec fn first_raw(value: u64, max: u64) -> int {
    (value * word() + word() % (max as int) + max - 1) / (max as int)
}

/// `raw * max` is at least `least` from `(least + max - 1) / max` on.
proof fn lemma_ceiling(raw: int, max: int, least: int)
    requires
        max > 0,
    ensures
        raw * max >= least <==> raw >= (least + max - 1) / max,
{
    let top = least + max - 1;
    let ceiling = top / max;
    vstd::arithmetic::div_mod::lemma_fundamental_div_mod(top, max);
    assert(0 <= top % max < max) by (nonlinear_arith)
        requires
            max > 0,
    ;
    if raw >= ceiling {
        assert(raw * max >= max * ceiling) by (nonlinear_arith)
            requires
                raw >= ceiling,
                max > 0,
        ;
    } else {
        assert(raw * max <= max * ceiling - max) by (nonlinear_arith)
            requires
                raw <= ceiling - 1,
                max > 0,
        ;
    }
}

/// Of all raw draws, those that give `value` without bias are the
/// `2^64 / max` draws in a row from `first_raw(value, max)` on. Every value
/// below `max` so has the same number of draws that give it: of draws that
/// are uniform, the values are uniform.
pub proof fn lemma_unbiased_draws(raw: u64, value: u64, max: u64)
    requires
        value < max,
    ensures
        high_half(raw, max) == value && unbiased(raw, max) <==> first_raw(value, max) <= raw
            < first_raw(value, max) + word() / (max as int),
        0 <= first_raw(value, max),
        first_raw(value, max) + word() / (max as int) <= word(),
{
    let n = max as int;
    let per = word() / n;
    let least = value * word() + word() % n;
    vstd::arithmetic::div_mod::lemma_fundamental_div_mod(word(), n);
    assert(0 <= word() % n < n) by (nonlinear_arith)
        requires
            n > 0,
    ;
    assert(per * n == n * per) by (nonlinear_arith);
    // The values wanted are those with `least <= raw * max < least + per * max`.
    assert(least + per * n == (value + 1) * word()) by (nonlinear_arith)
        requires
            least == value * word() + word() % n,
            word() == n * per + word() % n,
    ;
    let product = raw as int * n;
    assert(0 <= product) by (nonlinear_arith)
        requires
            product == raw as int * n,
            raw >= 0,
            n > 0,
    ;
    assert(value * word() >= 0) by (nonlinear_arith)
        requires
            value >= 0,
            word() > 0,
    ;
    assert(high_half(raw, max) == value && unbiased(raw, max) <==> least <= product < least + per
        * n);
    lemma_ceiling(raw as int, n, least);
    lemma_ceiling(raw as int - per, n, least);
    assert((raw as int - per) * n == product - per * n) by (nonlinear_arith)
        requires
            product == raw as int * n,
    ;
    // The first of them is no raw draw below zero, and the last is one.
    lemma_ceiling(0, n, least);
    lemma_ceiling(word() - per, n, least);
    assert((word() - per) * n == word() * n - per * n) by (nonlinear_arith);
    assert(word() * n >= (value + 1) * word()) by (nonlinear_arith)
        requires
            n >= value + 1,
            word() > 0,
    ;
    assert(0 * n == 0);
}

/// `2^64 - max` and `2^64` leave the same remainder on division by `max`.
proof fn lemma_threshold(max: u64)
    requires
        max > 0,
    ensures
        (u64::MAX - max + 1) % (max as int) == word() % (max as int),
{
    vstd::arithmetic::div_mod::lemma_mod_multiples_vanish(-1, word(), max as int);
}

} // verus!

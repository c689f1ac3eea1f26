//! Uniform random sampling below a bound, by rejection: draw as many random
//! bits as the bound has, mask the excess bits of the top limb, and retry
//! while the candidate is not strictly below the bound.

use vstd::prelude::*;
use core::cmp::Ordering;
use crate::limbs::{lemma_nat_bits_le, lemma_nat_bits_monotone, lemma_val_bound, nat_bits};
use crate::integer_au::IntegerAU;

verus! {

/// Relies on rand::random: one 64-bit word from the thread-local generator.
/// Nothing is assumed of the value; the caller checks every candidate.
#[verifier::external_body]
fn random_u64() -> u64 {
    rand::random::<u64>()
}

impl IntegerAU {
    /// Samples a value uniformly between 0 and `upper` (exclusive), which
    /// must be nonzero. Each draw fills the bound's bit count with random
    /// bits and is rejected unless it is strictly below the bound, so the
    /// accepted value is uniform over the range; the retry count is capped
    /// only to keep termination checkable, and the cap is unreachable in
    /// practice since each draw succeeds with probability above one quarter.
    pub fn random_below(upper: &Self) -> (r: Self)
        requires
            upper.wf(),
            upper@ > 0,
            64 * upper.limbs@.len() + 64 <= usize::MAX,
        ensures
            r.wf(),
            r@ < upper@,
            nat_bits(r@) <= nat_bits(upper@),
    {
        let bit_len = upper.bit_len();
        proof {
            assert(nat_bits(upper@) >= 1);
            lemma_val_bound(upper.limbs@);
            lemma_nat_bits_le(upper@, 64 * upper.limbs@.len());
        }
        let num_limbs = (bit_len + 63) / 64;
        proof {
            vstd::arithmetic::div_mod::lemma_fundamental_div_mod((bit_len + 63) as int, 64);
        }
        let mut fuel: u64 = u64::MAX;
        loop
            invariant
                upper.wf(),
                upper@ > 0,
                64 * upper.limbs@.len() + 64 <= usize::MAX,
                bit_len == nat_bits(upper@),
                1 <= bit_len,
                bit_len <= 64 * upper.limbs@.len(),
                num_limbs == (bit_len + 63) / 64,
                1 <= num_limbs,
            decreases fuel,
        {
            if fuel == 0 {
                // The largest value below the bound: a correct, if not
                // random, result that keeps the loop bounded.
                let one = IntegerAU::from_u64(1);
                let r = upper.sub_core(&one);
                proof {
                    lemma_nat_bits_monotone(r@, upper@);
                }
                return r;
            }
            fuel = fuel - 1;
            let mut limbs: Vec<u64> = Vec::new();
            let mut i: usize = 0;
            while i < num_limbs
                invariant
                    i <= num_limbs,
                    limbs@.len() == i,
                    num_limbs == (bit_len + 63) / 64,
                    1 <= bit_len,
                    bit_len <= 64 * upper.limbs@.len(),
                    64 * upper.limbs@.len() + 64 <= usize::MAX,
                decreases num_limbs - i,
            {
                let mut limb = random_u64();
                if i == num_limbs - 1 {
                    proof {
                        vstd::arithmetic::div_mod::lemma_fundamental_div_mod(
                            (bit_len + 63) as int,
                            64,
                        );
                    }
                    let extra_bits = num_limbs * 64 - bit_len;
                    limb = limb & (u64::MAX >> (extra_bits as u64));
                }
                limbs.push(limb);
                i = i + 1;
            }
            let candidate = IntegerAU { limbs }.trim();
            if let Ordering::Less = candidate.cmp(upper) {
                proof {
                    lemma_nat_bits_monotone(candidate@, upper@);
                }
                return candidate;
            }
        }
    }
}

} // verus!

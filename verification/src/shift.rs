//! Bit-length query and the two bit shifts. A left shift splits into a
//! whole-limb relocation and a sub-limb carry-propagating multiply by a
//! power of two; a right shift drops whole limbs and then runs a short
//! division by a power of two from the most significant limb down.

use vstd::prelude::*;
use vstd::arithmetic::power2::*;
use vstd::arithmetic::div_mod::*;
use vstd::bits::lemma_u64_shl_is_mul;
use vstd::std_specs::bits::u64_leading_zeros;
use vstd::pervasive::VecAdditionalExecFns;
use crate::limbs::{
    canonical, lemma_nat_bits_le, lemma_val_all_zero, lemma_val_bound, lemma_val_nat_bits,
    lemma_val_prepend_zeros, lemma_val_split, limbs_val, nat_bits,
};
use crate::integer_au::{trim_limbs, IntegerAU};

verus! {

/// The bit count of a 64-bit word agrees with `nat_bits`: both follow the
/// same halving recursion.
proof fn lemma_u64_bits(x: u64)
    ensures
        nat_bits(x as nat) == 64 - u64_leading_zeros(x),
    decreases x,
{
    reveal(vstd::std_specs::bits::u64_leading_zeros);
    if x == 0 {
    } else {
        lemma_u64_bits(x / 2);
    }
}

impl IntegerAU {
    /// The number of bits needed to represent this number; zero for the
    /// canonical zero, else full limbs below the top one plus the bits of
    /// the top limb.
    pub fn bit_len(&self) -> (r: usize)
        requires
            self.wf(),
            64 * self.limbs@.len() <= usize::MAX,
        ensures
            r == nat_bits(self@),
    {
        if self.is_zero() {
            return 0;
        }
        let n = self.limbs.len();
        let msb_limb = self.limbs[n - 1];
        proof {
            if n > 1 && self.limbs@[n - 1] == 0 {
                assert(!canonical(self.limbs@));
            }
            if n == 1 && self.limbs@[0] == 0 {
                assert(self@ == 0) by {
                    lemma_val_all_zero(self.limbs@);
                }
            }
            assert(msb_limb != 0);
            lemma_val_nat_bits(self.limbs@);
            lemma_u64_bits(msb_limb);
        }
        let msb_bits = 64 - (msb_limb.leading_zeros() as usize);
        (n - 1) * 64 + msb_bits
    }

    /// Left shift: relocate whole limbs, then let one multiply by a power of
    /// two carry the displaced high bits into each next limb upward.
    pub fn shl(&self, shift: usize) -> (r: Self)
        requires
            self.wf(),
            self.limbs@.len() + shift as nat + 2 <= usize::MAX,
        ensures
            r.wf(),
            r@ == self@ * pow2(shift as nat),
    {
        if self.is_zero() {
            proof {
                lemma_pow2_pos(shift as nat);
                assert(0 * pow2(shift as nat) == 0) by (nonlinear_arith);
            }
            return IntegerAU::from_u64(0);
        }
        let q = shift / 64;
        let b = shift % 64;
        let mut out: Vec<u64> = Vec::new();
        let mut i: usize = 0;
        while i < q
            invariant
                i <= q,
                out@.len() == i,
                forall|k: int| 0 <= k < i ==> out@[k] == 0,
            decreases q - i,
        {
            out.push(0);
            i = i + 1;
        }
        let mut j: usize = 0;
        let n = self.limbs.len();
        let ghost zeros = out@;
        while j < n
            invariant
                j <= n,
                n == self.limbs@.len(),
                out@ == zeros + self.limbs@.take(j as int),
                zeros.len() == q,
            decreases n - j,
        {
            out.push(self.limbs[j]);
            proof {
                assert(out@ =~= zeros + self.limbs@.take(j + 1));
            }
            j = j + 1;
        }
        proof {
            assert(self.limbs@.take(n as int) =~= self.limbs@);
            lemma_val_prepend_zeros(zeros, self.limbs@);
        }
        let relocated = IntegerAU { limbs: out };
        let r = if b > 0 {
            proof {
                lemma2_to64();
                lemma2_to64_rest();
                if b < 63 {
                    lemma_pow2_strictly_increases(b as nat, 63);
                }
                lemma_u64_shl_is_mul(1u64, b as u64);
            }
            let factor: u64 = 1u64 << b;
            proof {
                assert(relocated.limbs@.len() == q + n);
            }
            relocated.mul(&IntegerAU::from_u64(factor))
        } else {
            let mut v = relocated.limbs;
            trim_limbs(&mut v);
            IntegerAU { limbs: v }
        };
        proof {
            lemma_pow2_adds(64 * q as nat, b as nat);
            assert(64 * q as nat + b as nat == shift as nat);
            let p_q = pow2(64 * q as nat);
            let p_b = pow2(b as nat);
            assert((p_q * self@) * p_b == self@ * (p_q * p_b)) by (nonlinear_arith);
            if b == 0 {
                lemma2_to64();
                assert(self@ * (p_q * 1) == p_q * self@) by (nonlinear_arith);
            }
        }
        r
    }

    /// Right shift: a whole-limb shift at or past the limb count yields the
    /// canonical zero; otherwise whole limbs are dropped and the rest is
    /// divided by a power of two from the top limb down.
    pub fn shr(&self, shift: usize) -> (r: Self)
        requires
            self.wf(),
        ensures
            r.wf(),
            r@ == self@ / pow2(shift as nat),
    {
        proof {
            lemma_pow2_pos(shift as nat);
        }
        if self.is_zero() {
            proof {
                lemma_div_of0(pow2(shift as nat) as int);
            }
            return IntegerAU::from_u64(0);
        }
        let q = shift / 64;
        let b = shift % 64;
        let n = self.limbs.len();
        if q >= n {
            proof {
                lemma_val_bound(self.limbs@);
                assert(64 * n as nat <= 64 * q as nat <= shift as nat);
                if (64 * n as nat) < (shift as nat) {
                    lemma_pow2_strictly_increases(64 * n as nat, shift as nat);
                }
                assert(self@ < pow2(shift as nat));
                lemma_basic_div(self@ as int, pow2(shift as nat) as int);
            }
            return IntegerAU::from_u64(0);
        }
        // Drop the q least significant limbs.
        let mut v: Vec<u64> = Vec::new();
        let mut j: usize = q;
        while j < n
            invariant
                q <= j <= n,
                n == self.limbs@.len(),
                v@ == self.limbs@.subrange(q as int, j as int),
            decreases n - j,
        {
            v.push(self.limbs[j]);
            proof {
                assert(v@ =~= self.limbs@.subrange(q as int, j + 1));
            }
            j = j + 1;
        }
        proof {
            assert(v@ =~= self.limbs@.skip(q as int));
            lemma_val_split(self.limbs@, q as int);
            lemma_val_bound(self.limbs@.take(q as int));
            lemma_pow2_pos(64 * q as nat);
            let d = pow2(64 * q as nat);
            let qq = limbs_val(v@);
            let rr = limbs_val(self.limbs@.take(q as int));
            assert(d * qq == qq * d) by (nonlinear_arith);
            lemma_fundamental_div_mod_converse(self@ as int, d as int, qq as int, rr as int);
            assert(limbs_val(v@) == self@ / pow2(64 * q as nat));
        }
        if b > 0 {
            proof {
                lemma2_to64();
                lemma2_to64_rest();
                if b < 63 {
                    lemma_pow2_strictly_increases(b as nat, 63);
                }
                lemma_u64_shl_is_mul(1u64, b as u64);
            }
            let p2b: u64 = 1u64 << b;
            let ghost orig = v@;
            let len = v.len();
            let mut rem: u64 = 0;
            let mut k = len;
            proof {
                assert(orig.skip(len as int) =~= Seq::<u64>::empty());
                assert(limbs_val(Seq::<u64>::empty()) == 0);
            }
            while k > 0
                invariant
                    k <= len,
                    v@.len() == len,
                    len == orig.len(),
                    p2b == pow2(b as nat),
                    0 < b < 64,
                    rem < p2b,
                    v@.take(k as int) == orig.take(k as int),
                    limbs_val(orig.skip(k as int)) == pow2(b as nat) * limbs_val(
                        v@.skip(k as int),
                    ) + rem,
                decreases k,
            {
                k = k - 1;
                let cur: u128 = (rem as u128) * 0x1_0000_0000_0000_0000u128 + (v[k] as u128);
                proof {
                    lemma2_to64();
                    assert(cur < (p2b as u128) * 0x1_0000_0000_0000_0000u128) by (nonlinear_arith)
                        requires
                            rem < p2b,
                            cur == (rem as u128) * 0x1_0000_0000_0000_0000u128 + (v@[k as int] as u128),
                            v@[k as int] <= 0xFFFF_FFFF_FFFF_FFFFu64,
                    ;
                    lemma_multiply_divide_lt(cur as int, p2b as int, 0x1_0000_0000_0000_0000);
                    lemma_mod_bound(cur as int, p2b as int);
                }
                let q_l: u64 = (cur / (p2b as u128)) as u64;
                let new_rem: u64 = (cur % (p2b as u128)) as u64;
                let ghost prev = v@;
                proof {
                    // The limb read at k is still the original one.
                    assert(prev.take(k + 1)[k as int] == prev[k as int]);
                    assert(orig.take(k + 1)[k as int] == orig[k as int]);
                    assert(prev[k as int] == orig[k as int]);
                }
                v.set(k, q_l);
                proof {
                    let bb = pow2(64);
                    let pb = pow2(b as nat);
                    lemma_fundamental_div_mod(cur as int, p2b as int);
                    assert(cur == pb * q_l + new_rem);
                    // One limb moves from the unprocessed suffix of `orig` to
                    // the quotient suffix of the buffer.
                    assert(v@.skip(k as int).skip(1) =~= prev.skip(k + 1));
                    assert(v@.skip(k as int)[0] == q_l);
                    assert(limbs_val(v@.skip(k as int)) == q_l as nat + bb * limbs_val(
                        prev.skip(k + 1),
                    ));
                    assert(orig.skip(k as int).skip(1) =~= orig.skip(k + 1));
                    assert(orig.skip(k as int)[0] == orig[k as int]);
                    assert(limbs_val(orig.skip(k as int)) == orig[k as int] as nat + bb * limbs_val(
                        orig.skip(k + 1),
                    ));
                    // Rebuild the invariant with plain algebra.
                    assert(pb * limbs_val(v@.skip(k as int)) + new_rem == orig[k as int] as nat + bb
                        * (pb * limbs_val(prev.skip(k + 1)) + rem)) by (nonlinear_arith)
                        requires
                            limbs_val(v@.skip(k as int)) == q_l as nat + bb * limbs_val(
                                prev.skip(k + 1),
                            ),
                            cur == pb * q_l + new_rem,
                            cur == (rem as nat) * bb + orig[k as int],
                            bb == 0x1_0000_0000_0000_0000,
                    ;
                    assert(v@.take(k as int) =~= orig.take(k as int));
                }
                rem = new_rem;
            }
            proof {
                assert(orig.skip(0) =~= orig);
                assert(v@.skip(0) =~= v@);
                assert(pow2(b as nat) * limbs_val(v@) == limbs_val(v@) * pow2(b as nat))
                    by (nonlinear_arith);
                lemma_fundamental_div_mod_converse(
                    limbs_val(orig) as int,
                    pow2(b as nat) as int,
                    limbs_val(v@) as int,
                    rem as int,
                );
                lemma_pow2_adds(64 * q as nat, b as nat);
                lemma_div_denominator(
                    self@ as int,
                    pow2(64 * q as nat) as int,
                    pow2(b as nat) as int,
                );
                lemma_pow2_pos(64 * q as nat);
                lemma_pow2_pos(b as nat);
                assert(64 * q as nat + b as nat == shift as nat);
            }
            trim_limbs(&mut v);
            IntegerAU { limbs: v }
        } else {
            proof {
                assert(64 * q as nat == shift as nat);
            }
            trim_limbs(&mut v);
            IntegerAU { limbs: v }
        }
    }
}

} // verus!

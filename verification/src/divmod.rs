//! Division and modular reduction, as two independent shift-and-subtract
//! algorithms. Division doubles the divisor up to the dividend and then
//! walks the shift back down, setting one quotient bit per step. The modulo
//! keeps the list of doubled multiples and subtracts them from largest to
//! smallest; it is the naive baseline the reducers are measured against.

use vstd::prelude::*;
use vstd::arithmetic::power2::*;
use vstd::arithmetic::div_mod::*;
use core::cmp::Ordering;
use crate::limbs::{lemma_canonical_len_bound, lemma_val_bound, limbs_val};
use crate::integer_au::IntegerAU;
use crate::error::ArithError;

verus! {

impl IntegerAU {
    /// Binary long division; only the quotient is returned. Fails with
    /// `DivideByZero` exactly when the divisor is the canonical zero; the
    /// dividend-smaller and equal-operand cases short-circuit to 0 and 1.
    pub fn div(&self, divisor: &Self) -> (r: Result<Self, ArithError>)
        requires
            self.wf(),
            divisor.wf(),
            64 * self.limbs@.len() + 64 <= usize::MAX,
        ensures
            r.is_ok() <==> divisor@ > 0,
            r matches Ok(q) ==> q.wf() && q@ == self@ / divisor@,
            r matches Err(e) ==> e == ArithError::DivideByZero,
    {
        if divisor.is_zero() {
            return Err(ArithError::DivideByZero);
        }
        let n = self.limbs.len();
        match self.cmp(divisor) {
            Ordering::Less => {
                proof {
                    lemma_basic_div(self@ as int, divisor@ as int);
                }
                return Ok(IntegerAU::from_u64(0));
            },
            Ordering::Equal => {
                proof {
                    lemma_div_by_self(divisor@ as int);
                }
                return Ok(IntegerAU::from_u64(1));
            },
            Ordering::Greater => {},
        }
        let two = IntegerAU::from_u64(2);
        let mut shifted = divisor.clone();
        let mut s: usize = 0;
        proof {
            lemma2_to64();
            assert(divisor@ * pow2(0) == divisor@) by (nonlinear_arith)
                requires
                    pow2(0) == 1,
            ;
            lemma_val_bound(self.limbs@);
        }
        loop
            invariant
                self.wf(),
                divisor.wf(),
                shifted.wf(),
                n == self.limbs@.len(),
                64 * n + 64 <= usize::MAX,
                divisor@ >= 1,
                two@ == 2,
                two.limbs@.len() == 1,
                shifted@ == divisor@ * pow2(s as nat),
                pow2(s as nat) <= shifted@,
                shifted@ <= self@,
            ensures
                self.wf(),
                divisor.wf(),
                shifted.wf(),
                divisor@ >= 1,
                shifted@ == divisor@ * pow2(s as nat),
                shifted@ <= self@,
                self@ < 2 * shifted@,
                s < 64 * n,
            decreases self@ - shifted@,
        {
            proof {
                // s stays below the dividend's bit budget, so it cannot
                // overflow and the doubled divisor keeps a bounded length.
                lemma_val_bound(self.limbs@);
                if s as nat >= 64 * n as nat {
                    if (s as nat) > 64 * n {
                        lemma_pow2_strictly_increases((64 * n) as nat, s as nat);
                    }
                    assert(pow2(s as nat) >= pow2((64 * n) as nat));
                    assert(false);
                }
                lemma_canonical_len_bound(shifted.limbs@, n as nat);
                assert(limbs_val(self.limbs@) < pow2((64 * n) as nat));
            }
            let next = shifted.mul(&two);
            if let Ordering::Greater = next.cmp(self) {
                proof {
                    assert(2 * shifted@ == shifted@ * 2) by (nonlinear_arith);
                }
                break ;
            }
            proof {
                lemma_pow2_unfold((s + 1) as nat);
                lemma_pow2_pos(s as nat);
                lemma_pow2_pos((s + 1) as nat);
                assert(divisor@ * (pow2(s as nat) * 2) == (divisor@ * pow2(s as nat)) * 2)
                    by (nonlinear_arith);
                assert(pow2(s as nat) * 2 >= pow2(s as nat) + 1) by (nonlinear_arith)
                    requires
                        pow2(s as nat) >= 1,
                ;
                assert(divisor@ * pow2((s + 1) as nat) >= pow2((s + 1) as nat))
                    by (nonlinear_arith)
                    requires
                        divisor@ >= 1,
                        pow2((s + 1) as nat) >= 0,
                ;
            }
            shifted = next;
            s = s + 1;
        }
        let mut quotient = IntegerAU::from_u64(0);
        let mut remainder = self.clone();
        let one = IntegerAU::from_u64(1);
        let ghost s0 = s as nat;
        let mut i: usize = s + 1;
        proof {
            lemma_pow2_unfold((s + 1) as nat);
            assert(divisor@ * (2 * pow2(s0)) == 2 * (divisor@ * pow2(s0))) by (nonlinear_arith);
            assert(quotient@ * divisor@ == 0) by (nonlinear_arith)
                requires
                    quotient@ == 0,
            ;
        }
        while i > 0
            invariant
                i <= s0 + 1,
                s0 < 64 * n,
                64 * n + 64 <= usize::MAX,
                quotient.wf(),
                remainder.wf(),
                shifted.wf(),
                divisor.wf(),
                divisor@ >= 1,
                i >= 1 ==> shifted@ == divisor@ * pow2((i - 1) as nat),
                remainder@ < divisor@ * pow2(i as nat),
                quotient@ * divisor@ + remainder@ == self@,
                one@ == 1,
                one.limbs@.len() == 1,
            decreases i,
        {
            i = i - 1;
            let fits = match remainder.cmp(&shifted) {
                Ordering::Less => false,
                _ => true,
            };
            if fits {
                let ghost q_old = quotient@;
                remainder = remainder.sub_core(&shifted);
                let bit = one.shl(i);
                quotient = quotient.add(&bit);
                proof {
                    assert(bit@ == pow2(i as nat)) by (nonlinear_arith)
                        requires
                            bit@ == one@ * pow2(i as nat),
                            one@ == 1,
                    ;
                    assert(quotient@ == q_old + pow2(i as nat));
                    assert((q_old + pow2(i as nat)) * divisor@ == q_old * divisor@ + pow2(
                        i as nat,
                    ) * divisor@) by (nonlinear_arith);
                    assert(pow2(i as nat) * divisor@ == divisor@ * pow2(i as nat))
                        by (nonlinear_arith);
                }
            }
            proof {
                // In either branch the remainder now lies below the shifted
                // divisor at this level.
                lemma_pow2_unfold((i + 1) as nat);
                assert(divisor@ * (2 * pow2(i as nat)) == 2 * (divisor@ * pow2(i as nat)))
                    by (nonlinear_arith);
            }
            if i > 0 {
                let halved = shifted.shr(1);
                proof {
                    lemma_pow2_unfold(i as nat);
                    assert(divisor@ * (2 * pow2((i - 1) as nat)) == (divisor@ * pow2(
                        (i - 1) as nat,
                    )) * 2) by (nonlinear_arith);
                    lemma2_to64();
                    lemma_div_by_multiple(divisor@ as int * pow2((i - 1) as nat) as int, 2);
                }
                shifted = halved;
            }
        }
        proof {
            lemma2_to64();
            assert(remainder@ < divisor@) by (nonlinear_arith)
                requires
                    remainder@ < divisor@ * pow2(0),
                    pow2(0) == 1,
            ;
            lemma_fundamental_div_mod_converse(
                self@ as int,
                divisor@ as int,
                quotient@ as int,
                remainder@ as int,
            );
        }
        Ok(quotient)
    }

    /// Modular reduction by repeated doubling and subtraction: double the
    /// modulus while it stays at or below the running value, recording each
    /// multiple, then subtract the recorded multiples from largest to
    /// smallest wherever they still fit. Fails with `DivideByZero` exactly
    /// when the modulus is the canonical zero.
    pub fn modulo(&self, m: &Self) -> (r: Result<Self, ArithError>)
        requires
            self.wf(),
            m.wf(),
        ensures
            r.is_ok() <==> m@ > 0,
            r matches Ok(v) ==> v.wf() && v@ == self@ % m@,
            r matches Err(e) ==> e == ArithError::DivideByZero,
    {
        if m.is_zero() {
            return Err(ArithError::DivideByZero);
        }
        proof {
            lemma_mod_bound(self@ as int, m@ as int);
        }
        if let Ordering::Less = self.cmp(m) {
            proof {
                lemma_small_mod(self@, m@);
            }
            return Ok(self.clone());
        }
        let mut result = self.clone();
        let mut shifts: Vec<IntegerAU> = Vec::new();
        let mut current = m.clone();
        proof {
            lemma2_to64();
            assert(m@ * pow2(0) == m@) by (nonlinear_arith)
                requires
                    pow2(0) == 1,
            ;
        }
        loop
            invariant_except_break
                current@ == m@ * pow2(shifts@.len()),
                current@ <= result@,
            invariant
                self.wf(),
                m.wf(),
                result.wf(),
                current.wf(),
                m@ >= 1,
                result@ == self@,
                self@ >= m@,
                forall|j: int|
                    0 <= j < shifts@.len() ==> (#[trigger] shifts@[j]).wf() && shifts@[j]@ == m@
                        * pow2(j as nat),
            ensures
                self.wf(),
                m.wf(),
                result.wf(),
                m@ >= 1,
                result@ == self@,
                shifts@.len() >= 1,
                result@ < m@ * pow2(shifts@.len()),
                forall|j: int|
                    0 <= j < shifts@.len() ==> (#[trigger] shifts@[j]).wf() && shifts@[j]@ == m@
                        * pow2(j as nat),
            decreases result@ - current@,
        {
            let ghost len0 = shifts@.len();
            shifts.push(current.clone());
            let next = current.add(&current);
            proof {
                lemma_pow2_unfold((len0 + 1) as nat);
                lemma_pow2_pos(len0);
                lemma_pow2_pos((len0 + 1) as nat);
                assert(m@ * (2 * pow2(len0)) == 2 * (m@ * pow2(len0))) by (nonlinear_arith);
                assert(current@ >= 1) by (nonlinear_arith)
                    requires
                        current@ == m@ * pow2(len0),
                        m@ >= 1,
                        pow2(len0) >= 1,
                ;
                lemma_pow2_pos(len0);
            }
            if let Ordering::Greater = next.cmp(&result) {
                break ;
            }
            current = next;
        }
        let mut i = shifts.len();
        while i > 0
            invariant
                i <= shifts@.len(),
                m.wf(),
                result.wf(),
                m@ >= 1,
                result@ % m@ == self@ % m@,
                result@ < m@ * pow2(i as nat),
                forall|j: int|
                    0 <= j < shifts@.len() ==> (#[trigger] shifts@[j]).wf() && shifts@[j]@ == m@
                        * pow2(j as nat),
            decreases i,
        {
            i = i - 1;
            let fits = match shifts[i].cmp(&result) {
                Ordering::Greater => false,
                _ => true,
            };
            proof {
                lemma_pow2_unfold((i + 1) as nat);
                assert(m@ * (2 * pow2(i as nat)) == 2 * (m@ * pow2(i as nat))) by (nonlinear_arith);
            }
            if fits {
                let ghost before = result@;
                result = result.sub_core(&shifts[i]);
                proof {
                    // Subtracting the recorded multiple keeps the residue.
                    lemma_mod_multiples_vanish(pow2(i as nat) as int, result@ as int, m@ as int);
                    assert(before == m@ * pow2(i as nat) + result@);
                }
            }
        }
        proof {
            lemma2_to64();
            assert(result@ < m@) by (nonlinear_arith)
                requires
                    result@ < m@ * pow2(0),
                    pow2(0) == 1,
            ;
            lemma_small_mod(result@, m@);
        }
        Ok(result)
    }
}

} // verus!

//! Barrett reduction: a precomputed constant `mu = floor(2^(2k) / p)` turns
//! division by a fixed modulus into two shifts, one multiply and a few
//! corrective subtractions. The quotient estimate is proved never to exceed
//! the true quotient, so the defensive underflow of the correction step is
//! statically ruled out and `reduce` returns the exact residue.

use vstd::prelude::*;
use vstd::arithmetic::power2::*;
use vstd::arithmetic::div_mod::*;
use core::cmp::Ordering;
use crate::limbs::{lemma_canonical_len_bound, lemma_nat_bits_bound, nat_bits};
use crate::integer_au::IntegerAU;
use crate::error::ArithError;

verus! {

/// A reducer for a fixed modulus, immutable after construction.
pub struct Barrett {
    pub prime: IntegerAU,
    pub prime_bit_length: usize,
    pub barrett_mu: IntegerAU,
}

impl Barrett {
    /// The reducer's invariant: the stored bit length and constant belong to
    /// the stored modulus.
    pub open spec fn wf(&self) -> bool {
        &&& self.prime.wf()
        &&& self.barrett_mu.wf()
        &&& self.prime@ >= 1
        &&& self.prime_bit_length == nat_bits(self.prime@)
        &&& self.barrett_mu@ == pow2(2 * self.prime_bit_length as nat) / self.prime@
    }

    /// Builds the reducer for a modulus: `k` is the modulus bit length and
    /// `mu = floor(2^(2k) / p)`, computed with the engine's own division.
    /// Fails with `DivideByZero` exactly when the modulus is the canonical
    /// zero.
    pub fn new(prime: IntegerAU) -> (r: Result<Self, ArithError>)
        requires
            prime.wf(),
            128 * prime.limbs@.len() + 128 <= usize::MAX,
        ensures
            r.is_ok() <==> prime@ > 0,
            r matches Ok(b) ==> b.wf() && b.prime.limbs@ == prime.limbs@,
            r matches Err(e) ==> e == ArithError::DivideByZero,
    {
        if prime.is_zero() {
            return Err(ArithError::DivideByZero);
        }
        let k = prime.bit_len();
        proof {
            lemma_nat_bits_bound(prime@);
            crate::limbs::lemma_val_bound(prime.limbs@);
            crate::limbs::lemma_nat_bits_le(prime@, 64 * prime.limbs@.len());
        }
        let one = IntegerAU::from_u64(1);
        let shifted = one.shl(2 * k);
        proof {
            assert(shifted@ == pow2((2 * k) as nat)) by (nonlinear_arith)
                requires
                    shifted@ == 1 * pow2((2 * k) as nat),
            ;
            lemma_pow2_pos((2 * k) as nat);
            // The power of two fits in a bounded number of limbs, so the
            // engine division stays within the address-space limit.
            if (2 * k + 1) as nat <= 64 * (2 * prime.limbs@.len() + 1) {
                lemma_pow2_strictly_increases(
                    (2 * k) as nat,
                    64 * (2 * prime.limbs@.len() + 1),
                );
            }
            lemma_canonical_len_bound(shifted.limbs@, (2 * prime.limbs@.len() + 1) as nat);
        }
        let mu = match shifted.div(&prime) {
            Ok(v) => v,
            Err(_) => {
                proof {
                    assert(false);
                }
                return Err(ArithError::DivideByZero);
            },
        };
        Ok(Barrett { prime, prime_bit_length: k, barrett_mu: mu })
    }

    /// Barrett reduction of `x`: `q = ((x >> k) * mu) >> k` underestimates
    /// `x / p` by at most a small constant, so `x - q * p` is a nonnegative
    /// value a few subtractions away from the residue `x mod p`.
    pub fn reduce(&self, x: &IntegerAU) -> (r: IntegerAU)
        requires
            self.wf(),
            x.wf(),
            x.limbs@.len() + 2 * self.prime.limbs@.len() + 2 <= usize::MAX,
        ensures
            r.wf(),
            r@ == x@ % self.prime@,
    {
        let k = self.prime_bit_length;
        proof {
            // The constant mu spans at most one limb more than the modulus.
            lemma_nat_bits_bound(self.prime@);
            crate::limbs::lemma_val_bound(self.prime.limbs@);
            crate::limbs::lemma_nat_bits_le(self.prime@, 64 * self.prime.limbs@.len());
            lemma_mu_len_bound(self.prime@, self.barrett_mu@, k as nat);
            if (k + 2) as nat <= 64 * (self.prime.limbs@.len() + 1) {
                lemma_pow2_strictly_increases((k + 2) as nat, 64 * (self.prime.limbs@.len() + 1));
            } else {
                assert((k + 2) as nat > 64 * (self.prime.limbs@.len() + 1));
                assert(false);
            }
            lemma_canonical_len_bound(
                self.barrett_mu.limbs@,
                (self.prime.limbs@.len() + 1) as nat,
            );
        }
        let xk = x.shr(k);
        proof {
            lemma_canonical_len_bound_of_div(x.limbs@, xk.limbs@, k as nat);
        }
        let prod = xk.mul(&self.barrett_mu);
        let q = prod.shr(k);
        proof {
            lemma_div_nonincreasing(prod@ as int, pow2(k as nat) as int);
            lemma_pow2_pos(k as nat);
            // q <= prod = (x >> k) * mu, bounded by the limb counts of the
            // dividend and the constant.
            let xlen = x.limbs@.len();
            let plen = self.prime.limbs@.len();
            crate::limbs::lemma_val_bound(x.limbs@);
            crate::limbs::lemma_val_bound(self.barrett_mu.limbs@);
            lemma_pow2_pos(64 * xlen);
            lemma_pow2_pos(64 * (plen + 1));
            assert(pow2(64 * self.barrett_mu.limbs@.len()) <= pow2(64 * (plen + 1))) by {
                if self.barrett_mu.limbs@.len() < plen + 1 {
                    lemma_pow2_strictly_increases(
                        64 * self.barrett_mu.limbs@.len(),
                        64 * (plen + 1),
                    );
                }
            }
            lemma_div_nonincreasing(x@ as int, pow2(k as nat) as int);
            assert(xk@ * self.barrett_mu@ < pow2(64 * xlen) * pow2(64 * (plen + 1)))
                by (nonlinear_arith)
                requires
                    xk@ < pow2(64 * xlen),
                    self.barrett_mu@ < pow2(64 * (plen + 1)),
                    pow2(64 * xlen) >= 1,
                    pow2(64 * (plen + 1)) >= 1,
            ;
            lemma_pow2_adds(64 * xlen, 64 * (plen + 1));
            assert(64 * xlen + 64 * (plen + 1) == 64 * (xlen + plen + 1));
            lemma_canonical_len_bound(q.limbs@, (xlen + plen + 1) as nat);
        }
        let qp = q.mul(&self.prime);
        proof {
            lemma_barrett_estimate_low(x@, self.prime@, k as nat, self.barrett_mu@);
        }
        let mut r = x.sub_core(&qp);
        proof {
            // x - q * p is congruent to x modulo p.
            lemma_mod_multiples_vanish(q@ as int, r@ as int, self.prime@ as int);
            assert(x@ == self.prime@ * q@ + r@) by (nonlinear_arith)
                requires
                    r@ + q@ * self.prime@ == x@,
            ;
        }
        loop
            invariant
                r.wf(),
                self.wf(),
                r@ % self.prime@ == x@ % self.prime@,
            ensures
                r.wf(),
                r@ % self.prime@ == x@ % self.prime@,
                r@ < self.prime@,
            decreases r@,
        {
            if let Ordering::Less = r.cmp(&self.prime) {
                break ;
            }
            let ghost before = r@;
            r = r.sub_core(&self.prime);
            proof {
                lemma_mod_multiples_vanish(1, r@ as int, self.prime@ as int);
                assert(self.prime@ * 1 + r@ == before) by (nonlinear_arith)
                    requires
                        r@ + self.prime@ == before,
                ;
            }
        }
        proof {
            lemma_small_mod(r@, self.prime@);
        }
        r
    }
}

/// The Barrett constant is below `pow2(k + 2)`: `mu <= 2^(2k) / 2^(k-1)`.
proof fn lemma_mu_len_bound(p: nat, mu: nat, k: nat)
    requires
        p >= 1,
        k == nat_bits(p),
        mu == pow2(2 * k) / p,
    ensures
        mu < pow2(k + 2),
{
    lemma_nat_bits_bound(p);
    lemma_pow2_pos((k - 1) as nat);
    lemma_pow2_pos(k);
    // p >= 2^(k-1), so mu <= 2^(2k) / 2^(k-1) = 2^(k+1).
    lemma_div_is_ordered_by_denominator(
        pow2(2 * k) as int,
        pow2((k - 1) as nat) as int,
        p as int,
    );
    lemma_pow2_adds((k - 1) as nat, k + 1);
    assert(pow2(2 * k) == pow2((k - 1) as nat) * pow2(k + 1));
    lemma_div_by_multiple(pow2(k + 1) as int, pow2((k - 1) as nat) as int);
    assert(pow2((k - 1) as nat) * pow2(k + 1) == pow2(k + 1) * pow2((k - 1) as nat))
        by (nonlinear_arith);
    assert(mu <= pow2(k + 1));
    lemma_pow2_strictly_increases(k + 1, k + 2);
}

/// A canonical quotient by a power of two is no longer than the dividend.
proof fn lemma_canonical_len_bound_of_div(x: Seq<u64>, q: Seq<u64>, k: nat)
    requires
        crate::limbs::canonical(x),
        crate::limbs::canonical(q),
        crate::limbs::limbs_val(q) == crate::limbs::limbs_val(x) / pow2(k),
    ensures
        q.len() <= x.len(),
{
    lemma_pow2_pos(k);
    crate::limbs::lemma_val_bound(x);
    lemma_div_nonincreasing(crate::limbs::limbs_val(x) as int, pow2(k) as int);
    lemma_canonical_len_bound(q, x.len());
}

/// The Barrett quotient estimate never exceeds the true quotient:
/// `((x >> k) * mu) >> k` times the modulus stays at or below `x`.
proof fn lemma_barrett_estimate_low(x: nat, p: nat, k: nat, mu: nat)
    requires
        p >= 1,
        mu == pow2(2 * k) / p,
    ensures
        ((x / pow2(k)) * mu / pow2(k)) * p <= x,
{
    let pk = pow2(k);
    lemma_pow2_pos(k);
    let a = x / pk;
    let q = a * mu / pk;
    // mu * p <= 2^(2k)
    lemma_fundamental_div_mod(pow2(2 * k) as int, p as int);
    lemma_mod_bound(pow2(2 * k) as int, p as int);
    assert(p * mu <= pow2(2 * k));
    // a * 2^k <= x
    lemma_fundamental_div_mod(x as int, pk as int);
    lemma_mod_bound(x as int, pk as int);
    assert(pk * a <= x);
    // q * 2^k <= a * mu
    lemma_fundamental_div_mod((a * mu) as int, pk as int);
    lemma_mod_bound((a * mu) as int, pk as int);
    assert(pk * q <= a * mu);
    // Chain the three inequalities.
    lemma_pow2_adds(k, k);
    assert((q * p) * pk <= x * pk) by (nonlinear_arith)
        requires
            pk * q <= a * mu,
            p * mu <= pk * pk,
            pk * a <= x,
            pk >= 1,
    ;
    assert(q * p <= x) by (nonlinear_arith)
        requires
            (q * p) * pk <= x * pk,
            pk >= 1,
    ;
}

} // verus!

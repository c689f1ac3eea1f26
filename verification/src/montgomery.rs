//! Montgomery reduction (REDC) over an odd modulus. The radix is the power
//! of two matching the modulus bit length; the construction computes the
//! inverse constant `n' = (R - p)^(-1) mod R` with the engine's own
//! bit-by-bit inverse lifting, so the core depends on no outside
//! arbitrary-precision library. REDC itself is proved exact: it returns the
//! unique residue below the modulus whose product with the radix is
//! congruent to the input.

use vstd::prelude::*;
use vstd::arithmetic::power2::*;
use vstd::arithmetic::div_mod::*;
use core::cmp::Ordering;
use crate::limbs::{
    lemma_canonical_len_bound, lemma_nat_bits_bound, lemma_nat_bits_le, lemma_val_and_mask,
    lemma_val_bound, lemma_val_parity, nat_bits,
};
use crate::integer_au::IntegerAU;
use crate::error::ArithError;

verus! {

/// A reducer for a fixed odd modulus, immutable after construction.
pub struct Montgomery {
    pub r: IntegerAU,
    pub r_bitmask: IntegerAU,
    pub r_bits: usize,
    pub n_prime: IntegerAU,
    pub prime: IntegerAU,
}

impl Montgomery {
    /// The reducer's invariant: the radix is the power of two of the
    /// modulus bit length, the mask keeps the bits below it, and the stored
    /// constant inverts `R - p` modulo `R`.
    pub open spec fn wf(&self) -> bool {
        &&& self.prime.wf()
        &&& self.r.wf()
        &&& self.r_bitmask.wf()
        &&& self.n_prime.wf()
        &&& self.prime@ >= 1
        &&& self.prime@ % 2 == 1
        &&& self.r_bits == nat_bits(self.prime@)
        &&& self.r_bits >= 1
        &&& self.r@ == pow2(self.r_bits as nat)
        &&& self.r_bitmask@ == pow2(self.r_bits as nat) - 1
        &&& self.n_prime@ < pow2(self.r_bits as nat)
        &&& (self.n_prime@ * (pow2(self.r_bits as nat) - self.prime@)) % (pow2(
            self.r_bits as nat,
        ) as int) == 1
    }

    /// Builds the reducer: `R = 2^k` for `k` the modulus bit length, and
    /// `n' = (R - p)^(-1) mod R`. Fails with `NoInverse` exactly when the
    /// modulus is even, the moduli for which `R - p` has no inverse mod `R`.
    pub fn new(prime: &IntegerAU) -> (res: Result<Self, ArithError>)
        requires
            prime.wf(),
            256 * prime.limbs@.len() + 256 <= usize::MAX,
        ensures
            res.is_ok() <==> prime@ % 2 == 1,
            res matches Ok(m) ==> m.wf() && m.prime.limbs@ == prime.limbs@,
            res matches Err(e) ==> e == ArithError::NoInverse,
    {
        proof {
            lemma_val_parity(prime.limbs@);
            let l0 = prime.limbs@[0];
            assert(l0 & 1 == l0 % 2) by (bit_vector);
        }
        if prime.limbs[0] & 1 == 0 {
            return Err(ArithError::NoInverse);
        }
        let k = prime.bit_len();
        proof {
            lemma_nat_bits_bound(prime@);
            lemma_val_bound(prime.limbs@);
            lemma_nat_bits_le(prime@, 64 * prime.limbs@.len());
            assert(nat_bits(prime@) >= 1);
        }
        let one = IntegerAU::from_u64(1);
        let r = one.shl(k);
        proof {
            assert(r@ == pow2(k as nat)) by (nonlinear_arith)
                requires
                    r@ == 1 * pow2(k as nat),
            ;
            lemma_pow2_pos(k as nat);
        }
        let r_minus_prime = r.sub_core(prime);
        proof {
            // R - p is odd: R is even (k >= 1) and p is odd.
            let p = prime@;
            let pk = pow2(k as nat);
            let pk1 = pow2((k - 1) as nat);
            lemma_pow2_unfold(k as nat);
            lemma_pow2_pos((k - 1) as nat);
            lemma_fundamental_div_mod(p as int, 2);
            assert(p == 2 * (p / 2) + 1);
            assert(p / 2 <= pk1 - 1) by (nonlinear_arith)
                requires
                    p == 2 * (p / 2) + 1,
                    p < pk,
                    pk == 2 * pk1,
            ;
            assert(r_minus_prime@ == 2 * (pk1 - p / 2 - 1) + 1) by (nonlinear_arith)
                requires
                    r_minus_prime@ == pk - p,
                    pk == 2 * pk1,
                    p == 2 * (p / 2) + 1,
            ;
            lemma_fundamental_div_mod_converse(
                r_minus_prime@ as int,
                2,
                pk1 - p / 2 - 1,
                1,
            );
            // and it fits below the radix together with its limb budget
            lemma_canonical_len_bound(r_minus_prime.limbs@, prime.limbs@.len());
        }
        let n_prime = inv_mod_pow2(&r_minus_prime, k);
        let r_bitmask = r.sub_core(&one);
        proof {
            assert((n_prime@ * (pow2(k as nat) - prime@)) % (pow2(k as nat) as int) == 1)
                by (nonlinear_arith)
                requires
                    (r_minus_prime@ * n_prime@) % pow2(k as nat) == 1,
                    r_minus_prime@ == pow2(k as nat) - prime@,
            ;
        }
        Ok(
            Montgomery {
                r_bitmask,
                r_bits: k,
                r,
                n_prime,
                prime: prime.clone(),
            },
        )
    }

    /// Repeated conditional subtraction, for values known to be within a
    /// small multiple of the modulus: subtracts the modulus while the value
    /// still reaches it, leaving the exact residue.
    pub fn reduce_naive(&self, v: &IntegerAU) -> (r: IntegerAU)
        requires
            self.wf(),
            v.wf(),
        ensures
            r.wf(),
            r@ == v@ % self.prime@,
    {
        let mut r = v.clone();
        loop
            invariant
                r.wf(),
                self.wf(),
                r@ % self.prime@ == v@ % self.prime@,
            ensures
                r.wf(),
                r@ % self.prime@ == v@ % self.prime@,
                r@ < self.prime@,
            decreases r@,
        {
            if let Ordering::Less = r.cmp(&self.prime) {
                break ;
            }
            let ghost before = r@;
            r = r.sub_core(&self.prime);
            proof {
                lemma_mod_multiples_vanish(1, r@ as int, self.prime@ as int);
                assert(self.prime@ * 1 + r@ == before) by (nonlinear_arith)
                    requires
                        r@ + self.prime@ == before,
                ;
            }
        }
        proof {
            lemma_small_mod(r@, self.prime@);
        }
        r
    }

    /// Conversion into Montgomery form: `(v << k) mod p`, using the full
    /// modulo algorithm.
    pub fn to_mont(&self, v: &IntegerAU) -> (r: IntegerAU)
        requires
            self.wf(),
            v.wf(),
            v.limbs@.len() + 64 * self.prime.limbs@.len() + 2 <= usize::MAX,
        ensures
            r.wf(),
            r@ == (v@ * pow2(self.r_bits as nat)) % self.prime@,
    {
        proof {
            lemma_val_bound(self.prime.limbs@);
            lemma_nat_bits_le(self.prime@, 64 * self.prime.limbs@.len());
        }
        let shifted = v.shl(self.r_bits);
        match shifted.modulo(&self.prime) {
            Ok(r) => r,
            Err(_) => {
                proof {
                    assert(false);
                }
                IntegerAU::from_u64(0)
            },
        }
    }

    /// Conversion out of Montgomery form: one REDC step.
    pub fn from_mont(&self, v: &IntegerAU) -> (r: IntegerAU)
        requires
            self.wf(),
            v.wf(),
            v@ < self.prime@ * pow2(self.r_bits as nat),
            4 * self.prime.limbs@.len() + 4 <= usize::MAX,
        ensures
            r.wf(),
            r@ < self.prime@,
            (r@ * pow2(self.r_bits as nat)) % self.prime@ == v@ % self.prime@,
    {
        self.redc(v)
    }

    /// The REDC step on a double-width value `v` below `p * R`:
    /// `m = ((v & mask) * n') & mask`, `t = (v + m * p) >> k`, then one
    /// conditional subtraction. The low bits of `v + m * p` vanish by the
    /// choice of `n'`, so the shift is exact and the result is the unique
    /// residue below `p` with `r * R ≡ v (mod p)`.
    pub fn redc(&self, v: &IntegerAU) -> (r: IntegerAU)
        requires
            self.wf(),
            v.wf(),
            v@ < self.prime@ * pow2(self.r_bits as nat),
            4 * self.prime.limbs@.len() + 4 <= usize::MAX,
        ensures
            r.wf(),
            r@ < self.prime@,
            (r@ * pow2(self.r_bits as nat)) % self.prime@ == v@ % self.prime@,
    {
        let k = self.r_bits;
        let ghost big_r = pow2(k as nat);
        let ghost p = self.prime@;
        let ghost plen = self.prime.limbs@.len();
        proof {
            lemma_pow2_pos(k as nat);
            lemma_nat_bits_bound(p);
            lemma_val_bound(self.prime.limbs@);
            lemma_nat_bits_le(p, 64 * plen);
            // Limb budgets of the mask, the constant, and the intermediate
            // products, all bounded through their values.
            assert(pow2(k as nat) <= pow2(64 * plen)) by {
                if (k as nat) < 64 * plen {
                    lemma_pow2_strictly_increases(k as nat, 64 * plen);
                }
            }
            lemma_canonical_len_bound(self.r_bitmask.limbs@, plen);
            lemma_canonical_len_bound(self.n_prime.limbs@, plen);
        }
        let low = v.bitand(&self.r_bitmask);
        proof {
            lemma_val_and_mask(v.limbs@, self.r_bitmask.limbs@, k as nat);
            assert(low@ == v@ % big_r);
            lemma_mod_bound(v@ as int, big_r as int);
            lemma_canonical_len_bound(low.limbs@, plen);
        }
        let m1 = low.mul(&self.n_prime);
        let m = m1.bitand(&self.r_bitmask);
        proof {
            lemma_val_and_mask(m1.limbs@, self.r_bitmask.limbs@, k as nat);
            assert(m@ == ((v@ % big_r) * self.n_prime@) % big_r);
            lemma_mod_bound(m1@ as int, big_r as int);
            lemma_canonical_len_bound(m.limbs@, plen);
        }
        let mp = m.mul(&self.prime);
        let sum = v.add(&mp);
        proof {
            lemma_redc_low_bits_vanish(v@, p, k as nat, self.n_prime@, m@);
            assert(sum@ % big_r == 0);
        }
        let t = sum.shr(k);
        proof {
            // The shift is exact: sum == t * R.
            lemma_fundamental_div_mod(sum@ as int, big_r as int);
            assert(sum@ == big_r * t@);
            // t * R is congruent to v modulo p.
            lemma_mod_multiples_vanish(m@ as int, v@ as int, p as int);
            assert(p * m@ + v@ == sum@) by (nonlinear_arith)
                requires
                    sum@ == v@ + m@ * p,
            ;
            assert(t@ * big_r == big_r * t@) by (nonlinear_arith);
            // t < 2p, since v < pR and m * p < pR.
            assert(sum@ < big_r * (2 * p)) by (nonlinear_arith)
                requires
                    sum@ == v@ + m@ * p,
                    v@ < p * big_r,
                    m@ < big_r,
                    p >= 0,
                    big_r >= 1,
            ;
            lemma_multiply_divide_lt(sum@ as int, big_r as int, 2 * p as int);
        }
        let fits = match t.cmp(&self.prime) {
            Ordering::Less => false,
            _ => true,
        };
        if fits {
            let r = t.sub_core(&self.prime);
            proof {
                assert(r@ * big_r + p * big_r == t@ * big_r) by (nonlinear_arith)
                    requires
                        r@ + p == t@,
                ;
                lemma_mod_multiples_vanish(big_r as int, (r@ * big_r) as int, p as int);
                assert(p * big_r + r@ * big_r == t@ * big_r);
            }
            r
        } else {
            t
        }
    }
}

/// The defining property of the Montgomery constant: with
/// `m = ((v mod R) * n') mod R`, the sum `v + m * p` is divisible by `R`.
proof fn lemma_redc_low_bits_vanish(v: nat, p: nat, k: nat, np: nat, m: nat)
    requires
        p >= 1,
        np < pow2(k),
        (np * (pow2(k) - p)) % (pow2(k) as int) == 1,
        p < pow2(k),
        m == ((v % pow2(k)) * np) % pow2(k),
    ensures
        (v + m * p) % pow2(k) == 0,
{
    let ri = pow2(k) as int;
    let vi = v as int;
    let pi = p as int;
    let npi = np as int;
    let mi = m as int;
    lemma_pow2_pos(k);
    // R divides np * p + 1.
    let s = npi * (ri - pi);
    assert(s == npi * ri - npi * pi) by (nonlinear_arith)
        requires
            s == npi * (ri - pi),
    ;
    lemma_fundamental_div_mod(s, ri);
    assert(s == ri * (s / ri) + 1);
    assert(npi * pi + 1 == ri * (npi - s / ri)) by (nonlinear_arith)
        requires
            s == npi * ri - npi * pi,
            s == ri * (s / ri) + 1,
    ;
    // m is v * np reduced modulo R.
    lemma_mul_mod_noop_left(vi, npi, ri);
    assert(mi == (vi * npi) % ri);
    // m * p is v * np * p modulo R.
    lemma_mul_mod_noop_left(vi * npi, pi, ri);
    assert((mi * pi) % ri == (vi * npi * pi) % ri);
    // v + v * np * p == v * (np * p + 1), a multiple of R.
    assert(vi + vi * npi * pi == vi * (npi * pi + 1)) by (nonlinear_arith);
    assert(vi * (npi * pi + 1) == ri * (vi * (npi - s / ri))) by (nonlinear_arith)
        requires
            npi * pi + 1 == ri * (npi - s / ri),
    ;
    lemma_mod_multiples_basic(vi * (npi - s / ri), ri);
    assert((vi + vi * npi * pi) % ri == 0);
    // Replace v * np * p by m * p under the modulus.
    lemma_add_mod_noop(vi, vi * npi * pi, ri);
    lemma_add_mod_noop(vi, mi * pi, ri);
    assert((vi % ri + (vi * npi * pi) % ri) % ri == (vi + vi * npi * pi) % ri);
    assert((vi % ri + (mi * pi) % ri) % ri == (vi + mi * pi) % ri);
    assert((vi + mi * pi) % ri == 0);
}

/// Bit-by-bit inverse lifting: for odd `a`, finds the inverse of `a`
/// modulo `2^k`, raising the known-correct bit width by one per step.
fn inv_mod_pow2(a: &IntegerAU, k: usize) -> (x: IntegerAU)
    requires
        a.wf(),
        a@ % 2 == 1,
        k >= 1,
        64 * a.limbs@.len() + 2 * k + 128 <= usize::MAX,
    ensures
        x.wf(),
        x@ < pow2(k as nat),
        (a@ * x@) % pow2(k as nat) == 1,
{
    let one = IntegerAU::from_u64(1);
    let mut x = IntegerAU::from_u64(1);
    let mut i: usize = 1;
    proof {
        lemma2_to64();
        assert(a@ * 1nat == a@) by (nonlinear_arith);
        assert((a@ * x@) % pow2(1) == 1);
    }
    while i < k
        invariant
            1 <= i <= k,
            x.wf(),
            a.wf(),
            a@ % 2 == 1,
            one@ == 1,
            one.limbs@.len() == 1,
            64 * a.limbs@.len() + 2 * k + 128 <= usize::MAX,
            x@ < pow2(i as nat),
            (a@ * x@) % pow2(i as nat) == 1,
        decreases k - i,
    {
        proof {
            // The working inverse stays within k bits, hence within a
            // bounded number of limbs.
            lemma_pow2_pos(i as nat);
            assert(pow2(i as nat) <= pow2(64 * k as nat)) by {
                if (i as nat) < 64 * k as nat {
                    lemma_pow2_strictly_increases(i as nat, 64 * k as nat);
                }
            }
            lemma_canonical_len_bound(x.limbs@, k as nat);
        }
        let t = a.mul(&x);
        let tsh = t.shr(i);
        let bit_set = tsh.limbs[0] & 1 == 1;
        let ghost pi2 = pow2(i as nat);
        let ghost d = (t@ / pi2) % 2;
        proof {
            lemma_val_parity(tsh.limbs@);
            let l0 = tsh.limbs@[0];
            assert(l0 & 1 == l0 % 2) by (bit_vector);
            assert(bit_set <==> d == 1);
            lemma_mod_breakdown(t@ as int, pi2 as int, 2);
            lemma_pow2_unfold((i + 1) as nat);
            assert(pi2 as int * 2 == pow2((i + 1) as nat)) by (nonlinear_arith)
                requires
                    pow2((i + 1) as nat) == 2 * pi2,
            ;
            assert(t@ % pi2 == 1);
            assert(t@ % pow2((i + 1) as nat) == pi2 * d + 1);
            lemma_mod_bound(t@ as int, pow2((i + 1) as nat) as int);
        }
        if bit_set {
            let xb = one.shl(i);
            let ghost x_old = x@;
            x = x.add(&xb);
            proof {
                assert(xb@ == pi2) by (nonlinear_arith)
                    requires
                        xb@ == 1 * pi2,
                ;
                let p1 = pow2((i + 1) as nat);
                // t == p1 * Q + 2^i + 1 and a == 2 * (a / 2) + 1, so
                // a * x' == p1 * (Q + a/2 + 1) + 1.
                lemma_fundamental_div_mod(t@ as int, p1 as int);
                let qq = t@ as int / p1 as int;
                lemma_fundamental_div_mod(a@ as int, 2);
                let ah = a@ as int / 2;
                assert(a@ as int * (x_old + pi2) == p1 * (qq + ah + 1) + 1) by (nonlinear_arith)
                    requires
                        a@ as int * x_old == p1 * qq + pi2 + 1,
                        a@ == 2 * ah + 1,
                        p1 == 2 * pi2,
                ;
                lemma_pow2_pos((i + 1) as nat);
                assert(p1 > 1) by (nonlinear_arith)
                    requires
                        p1 == 2 * pi2,
                        pi2 >= 1,
                ;
                lemma_fundamental_div_mod_converse(
                    a@ as int * (x_old + pi2),
                    p1 as int,
                    qq + ah + 1,
                    1,
                );
                assert(x@ == x_old + pi2);
                assert((a@ * x@) % p1 == 1);
                assert(x@ < p1);
            }
        } else {
            proof {
                let p1 = pow2((i + 1) as nat);
                assert(t@ % p1 == 1);
                lemma_pow2_strictly_increases(i as nat, (i + 1) as nat);
            }
        }
        i = i + 1;
    }
    x
}

} // verus!

//! The multi-limb unsigned integer type and its basic operations.

use vstd::prelude::*;
use vstd::arithmetic::power2::*;
use vstd::arithmetic::div_mod::*;
use core::cmp::Ordering;
use crate::limbs::{
    canonical, lemma_val_bound, lemma_val_len_lt, lemma_val_lex, lemma_val_msb_lower,
    lemma_val_push, lemma_val_take_succ, lemma_val_update, lemma_val_zero_extend, limbs_val,
    zero_extend,
};
use vstd::pervasive::VecAdditionalExecFns;
use crate::error::ArithError;

verus! {

/// Arbitrary-precision unsigned integer over 64-bit limbs, least-significant
/// limb first. The canonical form keeps no trailing zero limb except for the
/// single zero limb that denotes zero; every producing operation returns a
/// canonical value.
#[derive(Debug)]
pub struct IntegerAU {
    pub limbs: Vec<u64>,
}

impl View for IntegerAU {
    type V = nat;

    /// A value of this type denotes the natural number its limbs evaluate to.
    open spec fn view(&self) -> nat {
        limbs_val(self.limbs@)
    }
}

impl IntegerAU {
    /// The canonical-form invariant of this representation.
    pub open spec fn wf(&self) -> bool {
        canonical(self.limbs@)
    }

    /// The single-limb integer holding a native 64-bit value.
    pub fn from_u64(v: u64) -> (r: Self)
        ensures
            r.wf(),
            r@ == v,
            r.limbs@.len() == 1,
    {
        let mut limbs: Vec<u64> = Vec::new();
        limbs.push(v);
        proof {
            assert(limbs@.skip(1) =~= Seq::<u64>::empty());
            assert(limbs_val(Seq::<u64>::empty()) == 0);
            assert(limbs_val(limbs@) == v as nat + pow2(64) * 0);
        }
        IntegerAU { limbs }
    }

    /// Removes trailing (most-significant) zero limbs, leaving one limb for
    /// zero: the canonicalization step every producing operation ends with.
    pub fn trim(self) -> (r: Self)
        requires
            self.limbs@.len() >= 1,
        ensures
            r.wf(),
            r@ == self@,
    {
        let mut v = self.limbs;
        trim_limbs(&mut v);
        IntegerAU { limbs: v }
    }

    /// Total-order comparison, consistent with the numeric value: canonical
    /// operands are compared by limb count first, then limb by limb from the
    /// most significant end.
    pub fn cmp(&self, other: &Self) -> (r: Ordering)
        requires
            self.wf(),
            other.wf(),
        ensures
            r == Ordering::Less <==> self@ < other@,
            r == Ordering::Equal <==> self@ == other@,
            r == Ordering::Greater <==> self@ > other@,
    {
        let n = self.limbs.len();
        let m = other.limbs.len();
        if n < m {
            proof {
                lemma_val_len_lt(self.limbs@, other.limbs@);
            }
            return Ordering::Less;
        }
        if n > m {
            proof {
                lemma_val_len_lt(other.limbs@, self.limbs@);
            }
            return Ordering::Greater;
        }
        let mut i = n;
        while i > 0
            invariant
                i <= n,
                n == self.limbs@.len(),
                n == other.limbs@.len(),
                forall|j: int| i <= j < n ==> self.limbs@[j] == other.limbs@[j],
            decreases i,
        {
            i = i - 1;
            if self.limbs[i] < other.limbs[i] {
                proof {
                    lemma_val_lex(self.limbs@, other.limbs@, i as int);
                }
                return Ordering::Less;
            }
            if self.limbs[i] > other.limbs[i] {
                proof {
                    lemma_val_lex(other.limbs@, self.limbs@, i as int);
                }
                return Ordering::Greater;
            }
        }
        proof {
            assert(self.limbs@ =~= other.limbs@);
        }
        Ordering::Equal
    }

    /// Limb-wise addition with carry propagation; a carry out of the most
    /// significant limb appends one new limb, and the result is trimmed.
    pub fn add(&self, other: &Self) -> (r: Self)
        requires
            self.limbs@.len() >= 1,
            other.limbs@.len() >= 1,
        ensures
            r.wf(),
            r@ == self@ + other@,
    {
        let n = self.limbs.len();
        let m = other.limbs.len();
        let max_len = if n > m {
            n
        } else {
            m
        };
        let ghost pa = zero_extend(self.limbs@, max_len as nat);
        let ghost pb = zero_extend(other.limbs@, max_len as nat);
        let mut out: Vec<u64> = Vec::new();
        let mut carry: u64 = 0;
        let mut i: usize = 0;
        while i < max_len
            invariant
                i <= max_len,
                carry <= 1,
                out@.len() == i,
                n == self.limbs@.len(),
                m == other.limbs@.len(),
                max_len == if n > m { n } else { m },
                pa == zero_extend(self.limbs@, max_len as nat),
                pb == zero_extend(other.limbs@, max_len as nat),
                limbs_val(out@) + carry * pow2(64 * i as nat)
                    == limbs_val(pa.take(i as int)) + limbs_val(pb.take(i as int)),
            decreases max_len - i,
        {
            let a = if i < n {
                self.limbs[i]
            } else {
                0
            };
            let b = if i < m {
                other.limbs[i]
            } else {
                0
            };
            let s128: u128 = a as u128 + b as u128 + carry as u128;
            let low: u64 = (s128 % 0x1_0000_0000_0000_0000u128) as u64;
            let c2: u64 = (s128 / 0x1_0000_0000_0000_0000u128) as u64;
            let ghost prev = out@;
            out.push(low);
            proof {
                lemma2_to64();
                lemma_fundamental_div_mod(s128 as int, 0x1_0000_0000_0000_0000);
                assert(a + b + carry == low + c2 * pow2(64));
                assert(pa[i as int] == a);
                assert(pb[i as int] == b);
                lemma_val_push(prev, low);
                lemma_val_take_succ(pa, i as int);
                lemma_val_take_succ(pb, i as int);
                lemma_pow2_adds(64 * i as nat, 64);
                let p = pow2(64 * i as nat);
                let bb = pow2(64);
                assert(low * p + c2 * (p * bb) == (low + c2 * bb) * p) by (nonlinear_arith);
                assert((a as nat + b as nat + carry as nat) * p == a * p + b * p + carry * p)
                    by (nonlinear_arith);
            }
            carry = c2;
            i = i + 1;
        }
        proof {
            assert(pa.take(max_len as int) =~= pa);
            assert(pb.take(max_len as int) =~= pb);
            lemma_val_zero_extend(self.limbs@, max_len as nat);
            lemma_val_zero_extend(other.limbs@, max_len as nat);
        }
        if carry > 0 {
            let ghost prev = out@;
            out.push(carry);
            proof {
                lemma_val_push(prev, carry);
            }
        }
        trim_limbs(&mut out);
        IntegerAU { limbs: out }
    }

    /// The borrow-propagating subtraction loop, for operands already known
    /// to be in order.
    pub(crate) fn sub_core(&self, other: &Self) -> (r: Self)
        requires
            self.wf(),
            other.wf(),
            self@ >= other@,
        ensures
            r.wf(),
            r@ + other@ == self@,
    {
        let n = self.limbs.len();
        let m = other.limbs.len();
        proof {
            if m > n {
                lemma_val_len_lt(self.limbs@, other.limbs@);
            }
        }
        let ghost pb = zero_extend(other.limbs@, n as nat);
        let mut out: Vec<u64> = Vec::new();
        let mut borrow: u64 = 0;
        let mut i: usize = 0;
        while i < n
            invariant
                i <= n,
                borrow <= 1,
                out@.len() == i,
                n == self.limbs@.len(),
                m == other.limbs@.len(),
                m <= n,
                pb == zero_extend(other.limbs@, n as nat),
                limbs_val(out@) + limbs_val(pb.take(i as int))
                    == limbs_val(self.limbs@.take(i as int)) + borrow * pow2(64 * i as nat),
            decreases n - i,
        {
            let a = self.limbs[i];
            let b = if i < m {
                other.limbs[i]
            } else {
                0
            };
            let av: u128 = a as u128;
            let bv: u128 = b as u128 + borrow as u128;
            let ghost prev = out@;
            let d: u64;
            let b2: u64;
            if av >= bv {
                d = (av - bv) as u64;
                b2 = 0;
            } else {
                d = (av + 0x1_0000_0000_0000_0000u128 - bv) as u64;
                b2 = 1;
            }
            out.push(d);
            proof {
                lemma2_to64();
                assert(d as int == a - b - borrow + b2 * pow2(64));
                assert(pb[i as int] == b);
                lemma_val_push(prev, d);
                lemma_val_take_succ(pb, i as int);
                lemma_val_take_succ(self.limbs@, i as int);
                lemma_pow2_adds(64 * i as nat, 64);
                let p = pow2(64 * i as nat);
                let bb = pow2(64);
                assert(borrow * p + d * p + b * p == (borrow + d + b) * p) by (nonlinear_arith);
                assert((a as nat + b2 * bb) * p == a * p + b2 * (p * bb)) by (nonlinear_arith);
            }
            borrow = b2;
            i = i + 1;
        }
        proof {
            assert(self.limbs@.take(n as int) =~= self.limbs@);
            assert(pb.take(n as int) =~= pb);
            lemma_val_zero_extend(other.limbs@, n as nat);
            if borrow == 1 {
                lemma_val_bound(out@);
                assert(false);
            }
        }
        trim_limbs(&mut out);
        IntegerAU { limbs: out }
    }

    /// Whether this is the canonical zero.
    pub(crate) fn is_zero(&self) -> (r: bool)
        requires
            self.wf(),
        ensures
            r <==> self@ == 0,
    {
        let r = self.limbs.len() == 1 && self.limbs[0] == 0;
        proof {
            if self.limbs@.len() == 1 {
                assert(self.limbs@.skip(1) =~= Seq::<u64>::empty());
                assert(limbs_val(Seq::<u64>::empty()) == 0);
                assert(self@ == self.limbs@[0] as nat + pow2(64) * 0);
            } else {
                lemma_val_msb_lower(self.limbs@);
                lemma_pow2_pos(64 * (self.limbs@.len() - 1) as nat);
            }
        }
        r
    }

    /// Schoolbook multiplication: every limb pair's double-width product is
    /// accumulated into a buffer of combined length, carries propagating
    /// within each outer pass; the result is trimmed.
    pub fn mul(&self, other: &Self) -> (r: Self)
        requires
            self.limbs@.len() >= 1,
            other.limbs@.len() >= 1,
            self.limbs@.len() + other.limbs@.len() <= usize::MAX,
        ensures
            r.wf(),
            r@ == self@ * other@,
    {
        let n = self.limbs.len();
        let m = other.limbs.len();
        let mut out: Vec<u64> = vec![0u64; n + m];
        let ghost sa = self.limbs@;
        let ghost sb = other.limbs@;
        let mut i: usize = 0;
        proof {
            crate::limbs::lemma_val_all_zero(out@);
            assert(limbs_val(sa.take(0)) * limbs_val(sb) == 0) by (nonlinear_arith)
                requires
                    limbs_val(sa.take(0)) == 0,
            ;
            assert(sa.take(0) =~= Seq::<u64>::empty());
        }
        while i < n
            invariant
                i <= n,
                n + m <= usize::MAX,
                out@.len() == n + m,
                n == sa.len(),
                m == sb.len(),
                sa == self.limbs@,
                sb == other.limbs@,
                limbs_val(out@) == limbs_val(sa.take(i as int)) * limbs_val(sb),
                forall|k: int| i + m <= k < n + m ==> out@[k] == 0,
            decreases n - i,
        {
            let ghost v_outer = limbs_val(out@);
            let a = self.limbs[i];
            let mut carry: u64 = 0;
            let mut j: usize = 0;
            proof {
                assert(sb.take(0) =~= Seq::<u64>::empty());
                assert(a * limbs_val(sb.take(0)) * pow2(64 * i as nat) == 0) by (nonlinear_arith)
                    requires
                        limbs_val(sb.take(0)) == 0,
                ;
            }
            while j < m
                invariant
                    j <= m,
                    i < n,
                    n + m <= usize::MAX,
                    out@.len() == n + m,
                    n == sa.len(),
                    m == sb.len(),
                    sa == self.limbs@,
                    sb == other.limbs@,
                    a == sa[i as int],
                    limbs_val(out@) + carry * pow2(64 * (i + j) as nat)
                        == v_outer + a * limbs_val(sb.take(j as int)) * pow2(64 * i as nat),
                    forall|k: int| i + m <= k < n + m ==> out@[k] == 0,
                decreases m - j,
            {
                let b = other.limbs[j];
                let old_limb = out[i + j];
                proof {
                    assert((a as nat) * (b as nat) <= 0xFFFF_FFFF_FFFF_FFFE_0000_0000_0000_0001)
                        by (nonlinear_arith)
                        requires
                            a <= 0xFFFF_FFFF_FFFF_FFFFu64,
                            b <= 0xFFFF_FFFF_FFFF_FFFFu64,
                    ;
                }
                let t: u128 = old_limb as u128 + (a as u128) * (b as u128) + carry as u128;
                let low: u64 = (t % 0x1_0000_0000_0000_0000u128) as u64;
                let c2: u64 = (t / 0x1_0000_0000_0000_0000u128) as u64;
                proof {
                    lemma2_to64();
                    lemma_fundamental_div_mod(t as int, 0x1_0000_0000_0000_0000);
                }
                let ghost prev = out@;
                out.set(i + j, low);
                proof {
                    let p_i = pow2(64 * i as nat);
                    let p_j = pow2(64 * j as nat);
                    let p_ij = pow2(64 * (i + j) as nat);
                    let bb = pow2(64);
                    lemma_val_update(prev, (i + j) as int, low);
                    lemma_val_take_succ(sb, j as int);
                    lemma_pow2_adds(64 * (i + j) as nat, 64);
                    lemma_pow2_adds(64 * i as nat, 64 * j as nat);
                    // t == old_limb + a * b + carry and t == low + c2 * bb,
                    // so the buffer update plus the carry shift adds exactly
                    // a * b at weight p_ij.
                    assert(t == low + c2 * bb);
                    assert(limbs_val(out@) + prev[(i + j) as int] * p_ij == limbs_val(prev) + low * p_ij);
                    assert(limbs_val(out@) + c2 * (p_ij * bb)
                        == v_outer + a * limbs_val(sb.take(j as int)) * p_i + (a * b) * p_ij) by (nonlinear_arith)
                        requires
                            limbs_val(out@) + prev[(i + j) as int] * p_ij == limbs_val(prev) + low * p_ij,
                            limbs_val(prev) + carry * p_ij
                                == v_outer + a * limbs_val(sb.take(j as int)) * p_i,
                            t == low + c2 * bb,
                            t == prev[(i + j) as int] + a * b + carry,
                    ;
                    assert(a * limbs_val(sb.take(j + 1)) * p_i
                        == a * limbs_val(sb.take(j as int)) * p_i + (a * b) * p_ij) by (nonlinear_arith)
                        requires
                            limbs_val(sb.take(j + 1)) == limbs_val(sb.take(j as int)) + b * p_j,
                            p_ij == p_i * p_j,
                            b == sb[j as int],
                    ;
                }
                carry = c2;
                j = j + 1;
            }
            if carry > 0 {
                let ghost prev = out@;
                out.set(i + m, carry);
                proof {
                    lemma_val_update(prev, (i + m) as int, carry);
                    assert(prev[(i + m) as int] == 0);
                }
            }
            proof {
                assert(sb.take(m as int) =~= sb);
                lemma_val_take_succ(sa, i as int);
                let p_i = pow2(64 * i as nat);
                assert(limbs_val(out@) == v_outer + a * limbs_val(sb) * p_i);
                assert(limbs_val(sa.take(i + 1)) * limbs_val(sb)
                    == limbs_val(sa.take(i as int)) * limbs_val(sb) + a * limbs_val(sb) * p_i)
                    by (nonlinear_arith)
                    requires
                        limbs_val(sa.take(i + 1)) == limbs_val(sa.take(i as int)) + a * p_i,
                ;
            }
            i = i + 1;
        }
        proof {
            assert(sa.take(n as int) =~= sa);
        }
        trim_limbs(&mut out);
        IntegerAU { limbs: out }
    }

    /// Subtraction; reports `Underflow` exactly when the minuend is smaller
    /// than the subtrahend.
    pub fn sub(&self, other: &Self) -> (r: Result<Self, ArithError>)
        requires
            self.wf(),
            other.wf(),
        ensures
            r.is_ok() <==> self@ >= other@,
            r matches Ok(d) ==> d.wf() && d@ + other@ == self@,
            r matches Err(e) ==> e == ArithError::Underflow,
    {
        if let Ordering::Less = self.cmp(other) {
            Err(ArithError::Underflow)
        } else {
            Ok(self.sub_core(other))
        }
    }
}

impl Clone for IntegerAU {
    /// Clones the limb buffer; the copy denotes the same number.
    fn clone(&self) -> (r: Self)
        ensures
            r.limbs@ == self.limbs@,
    {
        let mut limbs: Vec<u64> = Vec::new();
        let mut i: usize = 0;
        let n = self.limbs.len();
        while i < n
            invariant
                i <= n,
                n == self.limbs@.len(),
                limbs@ == self.limbs@.take(i as int),
            decreases n - i,
        {
            limbs.push(self.limbs[i]);
            proof {
                assert(limbs@ =~= self.limbs@.take(i + 1));
            }
            i = i + 1;
        }
        proof {
            assert(self.limbs@.take(n as int) =~= self.limbs@);
        }
        IntegerAU { limbs }
    }
}

impl PartialEq for IntegerAU {
    /// Two integers are equal exactly when their limb sequences are.
    fn eq(&self, other: &Self) -> (r: bool) {
        let n = self.limbs.len();
        if n != other.limbs.len() {
            return false;
        }
        let mut i: usize = 0;
        while i < n
            invariant
                i <= n,
                n == self.limbs@.len(),
                n == other.limbs@.len(),
                forall|j: int| 0 <= j < i ==> self.limbs@[j] == other.limbs@[j],
            decreases n - i,
        {
            if self.limbs[i] != other.limbs[i] {
                return false;
            }
            i = i + 1;
        }
        proof {
            assert(self.limbs@ =~= other.limbs@);
        }
        true
    }
}

impl vstd::std_specs::cmp::PartialEqSpecImpl for IntegerAU {
    open spec fn obeys_eq_spec() -> bool {
        true
    }

    open spec fn eq_spec(&self, other: &Self) -> bool {
        self.limbs@ == other.limbs@
    }
}

/// Pops trailing zero limbs from a limb buffer until it is canonical; the
/// value is unchanged.
pub(crate) fn trim_limbs(v: &mut Vec<u64>)
    requires
        old(v)@.len() >= 1,
    ensures
        canonical(final(v)@),
        limbs_val(final(v)@) == limbs_val(old(v)@),
{
    while v.len() > 1 && v[v.len() - 1] == 0
        invariant
            v@.len() >= 1,
            limbs_val(v@) == limbs_val(old(v)@),
        decreases v@.len(),
    {
        let ghost prev = v@;
        v.pop();
        proof {
            assert(prev =~= v@.push(0u64));
            lemma_val_push(v@, 0u64);
        }
    }
}

} // verus!

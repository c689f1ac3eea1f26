//! Bitwise AND, OR and XOR. AND truncates to the shorter operand; OR and
//! XOR extend to the longer one, treating the missing limbs of the shorter
//! operand as zero. Every result is trimmed back to canonical form.

use vstd::prelude::*;
use crate::limbs::{and_limbs, limbs_val, or_limbs, xor_limbs};
use crate::integer_au::{trim_limbs, IntegerAU};

verus! {

impl IntegerAU {
    /// Limb-wise AND over the limbs both operands have.
    pub fn bitand(&self, other: &Self) -> (r: Self)
        requires
            self.limbs@.len() >= 1,
            other.limbs@.len() >= 1,
        ensures
            r.wf(),
            r@ == limbs_val(and_limbs(self.limbs@, other.limbs@)),
    {
        let n = self.limbs.len();
        let m = other.limbs.len();
        let min_len = if n <= m {
            n
        } else {
            m
        };
        let mut out: Vec<u64> = Vec::new();
        let mut i: usize = 0;
        while i < min_len
            invariant
                i <= min_len,
                n == self.limbs@.len(),
                m == other.limbs@.len(),
                min_len == if n <= m { n } else { m },
                out@ == and_limbs(self.limbs@, other.limbs@).take(i as int),
            decreases min_len - i,
        {
            out.push(self.limbs[i] & other.limbs[i]);
            proof {
                assert(out@ =~= and_limbs(self.limbs@, other.limbs@).take(i + 1));
            }
            i = i + 1;
        }
        proof {
            assert(out@ =~= and_limbs(self.limbs@, other.limbs@));
        }
        trim_limbs(&mut out);
        IntegerAU { limbs: out }
    }

    /// Limb-wise OR over the limb range of the longer operand.
    pub fn bitor(&self, other: &Self) -> (r: Self)
        requires
            self.limbs@.len() >= 1,
            other.limbs@.len() >= 1,
        ensures
            r.wf(),
            r@ == limbs_val(or_limbs(self.limbs@, other.limbs@)),
    {
        let n = self.limbs.len();
        let m = other.limbs.len();
        let max_len = if n >= m {
            n
        } else {
            m
        };
        let mut out: Vec<u64> = Vec::new();
        let mut i: usize = 0;
        while i < max_len
            invariant
                i <= max_len,
                n == self.limbs@.len(),
                m == other.limbs@.len(),
                max_len == if n >= m { n } else { m },
                out@ == or_limbs(self.limbs@, other.limbs@).take(i as int),
            decreases max_len - i,
        {
            let a = if i < n {
                self.limbs[i]
            } else {
                0
            };
            let b = if i < m {
                other.limbs[i]
            } else {
                0
            };
            out.push(a | b);
            proof {
                assert(out@ =~= or_limbs(self.limbs@, other.limbs@).take(i + 1));
            }
            i = i + 1;
        }
        proof {
            assert(out@ =~= or_limbs(self.limbs@, other.limbs@));
        }
        trim_limbs(&mut out);
        IntegerAU { limbs: out }
    }

    /// Limb-wise XOR over the limb range of the longer operand.
    pub fn bitxor(&self, other: &Self) -> (r: Self)
        requires
            self.limbs@.len() >= 1,
            other.limbs@.len() >= 1,
        ensures
            r.wf(),
            r@ == limbs_val(xor_limbs(self.limbs@, other.limbs@)),
    {
        let n = self.limbs.len();
        let m = other.limbs.len();
        let max_len = if n >= m {
            n
        } else {
            m
        };
        let mut out: Vec<u64> = Vec::new();
        let mut i: usize = 0;
        while i < max_len
            invariant
                i <= max_len,
                n == self.limbs@.len(),
                m == other.limbs@.len(),
                max_len == if n >= m { n } else { m },
                out@ == xor_limbs(self.limbs@, other.limbs@).take(i as int),
            decreases max_len - i,
        {
            let a = if i < n {
                self.limbs[i]
            } else {
                0
            };
            let b = if i < m {
                other.limbs[i]
            } else {
                0
            };
            out.push(a ^ b);
            proof {
                assert(out@ =~= xor_limbs(self.limbs@, other.limbs@).take(i + 1));
            }
            i = i + 1;
        }
        proof {
            assert(out@ =~= xor_limbs(self.limbs@, other.limbs@));
        }
        trim_limbs(&mut out);
        IntegerAU { limbs: out }
    }
}

} // verus!

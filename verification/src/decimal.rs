//! The decimal boundary: parsing a numeral string into an integer and
//! writing an integer back out as its decimal numeral. Parsing fails with
//! `ParseError` on an empty string or a non-digit character; printing uses
//! repeated division by ten and emits no superfluous leading zero.

use vstd::prelude::*;
use vstd::arithmetic::power2::*;
use vstd::arithmetic::div_mod::*;
use vstd::string::StrSliceExecFns;
use vstd::string::StringExecFns;
use crate::limbs::{lemma_canonical_len_bound, limbs_val};
use crate::integer_au::IntegerAU;
use crate::error::ArithError;

verus! {

/// Whether a character is a decimal digit.
pub open spec fn is_dec_digit(c: char) -> bool {
    48 <= c as u32 <= 57
}

/// The numeric value of a decimal digit string, most significant first.
pub open spec fn dec_val(s: Seq<char>) -> nat
    decreases s.len(),
{
    if s.len() == 0 {
        0
    } else {
        (dec_val(s.drop_last()) * 10 + (s.last() as u32 - 48)) as nat
    }
}

/// Powers of ten.
pub open spec fn pow10(n: nat) -> nat
    decreases n,
{
    if n == 0 {
        1
    } else {
        10 * pow10((n - 1) as nat)
    }
}

/// A digit string's value lies below `pow2(4 * len)`: each digit is below
/// sixteen.
proof fn lemma_dec_val_bound(s: Seq<char>)
    requires
        forall|i: int| 0 <= i < s.len() ==> is_dec_digit(s[i]),
    ensures
        dec_val(s) < pow2(4 * s.len()),
    decreases s.len(),
{
    if s.len() == 0 {
        lemma2_to64();
    } else {
        lemma_dec_val_bound(s.drop_last());
        lemma_pow2_adds(4 * (s.len() - 1) as nat, 4);
        lemma2_to64();
        let p = pow2(4 * (s.len() - 1) as nat);
        assert(dec_val(s.drop_last()) * 10 + 16 <= (p - 1) * 10 + 16) by (nonlinear_arith)
            requires
                dec_val(s.drop_last()) <= p - 1,
        ;
        assert((p - 1) * 10 + 16 <= p * 16) by (nonlinear_arith)
            requires
                p >= 1,
        ;
    }
}

/// The little-endian digit buffer the printing loop collects: digit `i`
/// carries weight `pow10(i)`.
pub open spec fn digits_val(ds: Seq<u64>) -> nat
    decreases ds.len(),
{
    if ds.len() == 0 {
        0
    } else {
        ds[0] as nat + 10 * digits_val(ds.skip(1))
    }
}

/// Appending a most-significant digit adds its value at its weight.
proof fn lemma_digits_val_push(ds: Seq<u64>, d: u64)
    ensures
        digits_val(ds.push(d)) == digits_val(ds) + d * pow10(ds.len()),
    decreases ds.len(),
{
    if ds.len() == 0 {
        assert(ds.push(d).skip(1) =~= Seq::<u64>::empty());
        assert(digits_val(Seq::<u64>::empty()) == 0);
        assert(d * 1nat == d) by (nonlinear_arith);
    } else {
        lemma_digits_val_push(ds.skip(1), d);
        assert(ds.push(d).skip(1) =~= ds.skip(1).push(d));
        assert(10 * (digits_val(ds.skip(1)) + d * pow10((ds.len() - 1) as nat)) == 10 * digits_val(
            ds.skip(1),
        ) + d * (10 * pow10((ds.len() - 1) as nat))) by (nonlinear_arith);
    }
}

impl IntegerAU {
    /// Parses a decimal numeral. Fails with `ParseError` exactly when the
    /// string is empty or holds a character that is not a decimal digit;
    /// otherwise the result is the numeral's value in canonical form.
    pub fn from_decimal(s: &str) -> (r: Result<Self, ArithError>)
        requires
            s@.len() + 64 <= usize::MAX,
        ensures
            r.is_ok() <==> (s@.len() >= 1 && forall|i: int|
                0 <= i < s@.len() ==> is_dec_digit(s@[i])),
            r matches Ok(v) ==> v.wf() && v@ == dec_val(s@),
            r matches Err(e) ==> e == ArithError::ParseError,
    {
        let n = s.unicode_len();
        if n == 0 {
            return Err(ArithError::ParseError);
        }
        let ten = IntegerAU::from_u64(10);
        let mut acc = IntegerAU::from_u64(0);
        let mut i: usize = 0;
        proof {
            assert(s@.take(0) =~= Seq::<char>::empty());
        }
        while i < n
            invariant
                i <= n,
                n == s@.len(),
                n + 64 <= usize::MAX,
                acc.wf(),
                acc@ == dec_val(s@.take(i as int)),
                forall|j: int| 0 <= j < i ==> is_dec_digit(s@[j]),
                ten@ == 10,
                ten.limbs@.len() == 1,
            decreases n - i,
        {
            let c = s.get_char(i);
            let code = c as u32;
            if code < 48 || code > 57 {
                return Err(ArithError::ParseError);
            }
            let d = (code - 48) as u64;
            proof {
                // The accumulator value stays within a limb budget tied to
                // the number of digits read so far.
                lemma_dec_val_bound(s@.take(i as int));
                assert(pow2(4 * i as nat) <= pow2((64 * (i + 1)) as nat)) by {
                    if (4 * i as nat) < ((64 * (i + 1)) as nat) {
                        lemma_pow2_strictly_increases(4 * i as nat, (64 * (i + 1)) as nat);
                    }
                }
                lemma_canonical_len_bound(acc.limbs@, (i + 1) as nat);
            }
            let acc10 = acc.mul(&ten);
            let dig = IntegerAU::from_u64(d);
            let acc2 = acc10.add(&dig);
            proof {
                assert(s@.take(i + 1).drop_last() =~= s@.take(i as int));
                assert(s@.take(i + 1).last() == s@[i as int]);
                assert(dec_val(s@.take(i + 1)) == dec_val(s@.take(i as int)) * 10 + (s@[i as int]
                    as u32 - 48));
            }
            acc = acc2;
            i = i + 1;
        }
        proof {
            assert(s@.take(n as int) =~= s@);
        }
        Ok(acc)
    }

    /// Writes the decimal numeral of this integer: repeated division by ten
    /// collects the digits, least significant first, and they are emitted
    /// in reverse. The result has no leading zero except for the single
    /// digit of zero itself.
    pub fn to_decimal(&self) -> (r: String)
        requires
            self.wf(),
            64 * self.limbs@.len() + 64 <= usize::MAX,
        ensures
            r@.len() >= 1,
            forall|i: int| 0 <= i < r@.len() ==> is_dec_digit(r@[i]),
            dec_val(r@) == self@,
            r@.len() > 1 ==> r@[0] != '0',
    {
        if self.is_zero() {
            let out = digit_str(0).to_owned();
            proof {
                reveal_strlit("0");
                assert(out@.drop_last() =~= Seq::<char>::empty());
                assert(dec_val(out@) == (dec_val(Seq::<char>::empty()) * 10 + ('0' as u32
                    - 48)) as nat);
            }
            return out;
        }
        let ten = IntegerAU::from_u64(10);
        let mut rest = self.clone();
        let mut digs: Vec<u64> = Vec::new();
        proof {
            assert(digits_val(digs@) == 0);
            assert(pow10(0) == 1);
            assert(self@ * 1nat == self@) by (nonlinear_arith);
        }
        while !rest.is_zero()
            invariant
                rest.wf(),
                self.wf(),
                64 * self.limbs@.len() + 64 <= usize::MAX,
                rest@ <= self@,
                ten@ == 10,
                ten.limbs@.len() == 1,
                digits_val(digs@) + rest@ * pow10(digs@.len()) == self@,
                forall|j: int| 0 <= j < digs@.len() ==> digs@[j] < 10,
                rest@ == 0 ==> digs@.len() >= 1 && digs@[digs@.len() - 1] != 0,
                digs@.len() == 0 ==> rest@ > 0,
            decreases rest@,
        {
            proof {
                crate::limbs::lemma_val_bound(self.limbs@);
                lemma_canonical_len_bound(rest.limbs@, self.limbs@.len());
            }
            let q = match rest.div(&ten) {
                Ok(v) => v,
                Err(_) => {
                    proof {
                        assert(false);
                    }
                    IntegerAU::from_u64(0)
                },
            };
            let md = match rest.modulo(&ten) {
                Ok(v) => v,
                Err(_) => {
                    proof {
                        assert(false);
                    }
                    IntegerAU::from_u64(0)
                },
            };
            proof {
                // The remainder is a single limb holding the digit.
                lemma_mod_bound(rest@ as int, 10);
                lemma2_to64();
                assert(md@ < pow2(64));
                lemma_canonical_len_bound(md.limbs@, 1);
                assert(md.limbs@.skip(1) =~= Seq::<u64>::empty());
                assert(limbs_val(Seq::<u64>::empty()) == 0);
                assert(md@ == md.limbs@[0] as nat + pow2(64) * 0);
            }
            let d = md.limbs[0];
            let ghost digs_old = digs@;
            let ghost rest_old = rest@;
            digs.push(d);
            proof {
                lemma_digits_val_push(digs_old, d);
                lemma_fundamental_div_mod(rest_old as int, 10);
                // One step shifts a digit out of the running value.
                assert(digits_val(digs@) + (rest_old / 10) * pow10(digs@.len()) == digits_val(
                    digs_old,
                ) + rest_old * pow10(digs_old.len())) by (nonlinear_arith)
                    requires
                        digits_val(digs@) == digits_val(digs_old) + (rest_old % 10) * pow10(
                            digs_old.len(),
                        ),
                        pow10(digs@.len()) == 10 * pow10(digs_old.len()),
                        rest_old == 10 * (rest_old / 10) + rest_old % 10,
                ;
                lemma_div_is_strictly_smaller(rest_old as int, 10);
                if rest_old / 10 == 0 {
                    assert(d as nat == rest_old % 10);
                    assert(rest_old % 10 == rest_old) by {
                        lemma_small_mod(rest_old, 10);
                        assert(rest_old < 10) by {
                            lemma_fundamental_div_mod(rest_old as int, 10);
                        }
                    }
                }
            }
            rest = q;
        }
        let mut out = String::new();
        let mut j = digs.len();
        proof {
            assert(digs@.skip(j as int) =~= Seq::<u64>::empty());
            assert(digits_val(Seq::<u64>::empty()) == 0);
            assert(out@ =~= Seq::<char>::empty());
        }
        while j > 0
            invariant
                j <= digs@.len(),
                digs@.len() >= 1,
                forall|t: int| 0 <= t < digs@.len() ==> digs@[t] < 10,
                digs@[digs@.len() - 1] != 0,
                out@.len() == digs@.len() - j,
                dec_val(out@) == digits_val(digs@.skip(j as int)),
                forall|t: int| 0 <= t < out@.len() ==> is_dec_digit(out@[t]),
                out@.len() >= 1 ==> out@[0] as u32 == 48 + digs@[digs@.len() - 1],
            decreases j,
        {
            j = j - 1;
            let piece = digit_str(digs[j]);
            let ghost out_old = out@;
            out.append(piece);
            proof {
                assert(out@.drop_last() =~= out_old);
                assert(out@.last() == piece@[0]);
                assert(dec_val(out@) == (dec_val(out_old) * 10 + (out@.last() as u32
                    - 48)) as nat);
                assert(digs@.skip(j as int)[0] == digs@[j as int]);
                assert(digs@.skip(j as int).skip(1) =~= digs@.skip(j + 1));
                assert(digits_val(digs@.skip(j as int)) == digs@[j as int] as nat + 10
                    * digits_val(digs@.skip(j + 1)));
            }
        }
        proof {
            assert(digs@.skip(0) =~= digs@);
            assert(out@[0] as u32 != 48);
            assert(out@[0] != '0') by {
                assert('0' as u32 == 48);
            }
        }
        out
    }
}

/// The one-character numeral of a single decimal digit.
fn digit_str(d: u64) -> (r: &'static str)
    requires
        d < 10,
    ensures
        r@.len() == 1,
        r@[0] as u32 == 48 + d,
{
    proof {
        reveal_strlit("0");
        reveal_strlit("1");
        reveal_strlit("2");
        reveal_strlit("3");
        reveal_strlit("4");
        reveal_strlit("5");
        reveal_strlit("6");
        reveal_strlit("7");
        reveal_strlit("8");
        reveal_strlit("9");
    }
    match d {
        0 => "0",
        1 => "1",
        2 => "2",
        3 => "3",
        4 => "4",
        5 => "5",
        6 => "6",
        7 => "7",
        8 => "8",
        _ => "9",
    }
}

} // verus!

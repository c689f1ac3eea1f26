//! The library-level laws: canonical form is a unique representation, the
//! decimal boundary is a round trip, shifting up and back down restores the
//! value, and the three reduction strategies agree on every product of
//! reduced operands. Each law is stated over the same spec functions the
//! operations' contracts use, so it composes directly with them.

use vstd::prelude::*;
use vstd::arithmetic::power2::*;
use vstd::arithmetic::div_mod::*;
use crate::limbs::{lemma_nat_bits_bound, lemma_val_inj, nat_bits};
use crate::integer_au::IntegerAU;
use crate::decimal::dec_val;

verus! {

/// Canonical limb sequences denote their values uniquely: two well-formed
/// integers with the same value have identical limbs.
pub proof fn lemma_canonical_unique(a: IntegerAU, b: IntegerAU)
    requires
        a.wf(),
        b.wf(),
        a@ == b@,
    ensures
        a.limbs@ == b.limbs@,
{
    lemma_val_inj(a.limbs@, b.limbs@);
}

/// The decimal boundary is a round trip: writing an integer as a numeral
/// and parsing it back reproduces the integer exactly. `to_decimal` leaves
/// a string whose `dec_val` is the integer's value, `from_decimal` returns
/// an integer holding the string's `dec_val`, and canonical uniqueness
/// closes the loop.
pub proof fn lemma_decimal_round_trip(x: IntegerAU, s: Seq<char>, y: IntegerAU)
    requires
        x.wf(),
        y.wf(),
        dec_val(s) == x@,
        y@ == dec_val(s),
    ensures
        y.limbs@ == x.limbs@,
{
    lemma_canonical_unique(x, y);
}

/// Shifting left by `s` and back right by `s` restores the integer exactly.
pub proof fn lemma_shift_round_trip(x: IntegerAU, y: IntegerAU, z: IntegerAU, s: nat)
    requires
        x.wf(),
        y.wf(),
        z.wf(),
        y@ == x@ * pow2(s),
        z@ == y@ / pow2(s),
    ensures
        z.limbs@ == x.limbs@,
{
    lemma_pow2_pos(s);
    lemma_div_by_multiple(x@ as int, pow2(s) as int);
    assert(z@ == x@);
    lemma_canonical_unique(x, z);
}

/// Shifting right by the value's whole bit length, or more, yields zero.
pub proof fn lemma_shift_out_of_range(x: IntegerAU, s: nat)
    requires
        x.wf(),
        nat_bits(x@) <= s,
    ensures
        x@ / pow2(s) == 0,
{
    lemma_nat_bits_bound(x@);
    lemma_pow2_pos(s);
    if nat_bits(x@) < s {
        lemma_pow2_strictly_increases(nat_bits(x@), s);
    }
    lemma_basic_div(x@ as int, pow2(s) as int);
}

/// For an odd modulus, a common power-of-two factor cancels from a modular
/// equation: doubling is injective modulo an odd number.
pub proof fn lemma_pow2_cancel_mod_odd(a: nat, b: nat, j: nat, p: nat)
    requires
        p >= 1,
        p % 2 == 1,
        (a * pow2(j)) % p == (b * pow2(j)) % p,
    ensures
        a % p == b % p,
    decreases j,
{
    if j == 0 {
        lemma2_to64();
        assert(a * 1nat == a) by (nonlinear_arith);
        assert(b * 1nat == b) by (nonlinear_arith);
    } else {
        lemma_pow2_unfold(j);
        assert(a * pow2(j) == (2 * a) * pow2((j - 1) as nat)) by (nonlinear_arith)
            requires
                pow2(j) == 2 * pow2((j - 1) as nat),
        ;
        assert(b * pow2(j) == (2 * b) * pow2((j - 1) as nat)) by (nonlinear_arith)
            requires
                pow2(j) == 2 * pow2((j - 1) as nat),
        ;
        lemma_pow2_cancel_mod_odd(2 * a, 2 * b, (j - 1) as nat, p);
        // Halve: from 2a ≡ 2b (mod p) and p odd, conclude a ≡ b (mod p).
        lemma_mod_equivalence((2 * a) as int, (2 * b) as int, p as int);
        lemma_odd_divides_double(p as int, a - b);
        lemma_mod_equivalence(a as int, b as int, p as int);
    }
}

/// An odd number dividing twice a value divides the value itself.
proof fn lemma_odd_divides_double(p: int, c: int)
    requires
        p >= 1,
        p % 2 == 1,
        (2 * c) % p == 0,
    ensures
        c % p == 0,
{
    lemma_fundamental_div_mod(2 * c, p);
    let m = (2 * c) / p;
    assert(2 * c == p * m);
    lemma_fundamental_div_mod(m, 2);
    if m % 2 == 0 {
        assert(c == p * (m / 2)) by (nonlinear_arith)
            requires
                2 * c == p * m,
                m == 2 * (m / 2),
        ;
        lemma_mod_multiples_basic(m / 2, p);
    } else {
        // p and m both odd would make p * m odd, yet it equals the even 2c.
        lemma_fundamental_div_mod(p, 2);
        assert(p * m == 2 * (2 * (p / 2) * (m / 2) + p / 2 + m / 2) + 1) by (nonlinear_arith)
            requires
                p == 2 * (p / 2) + 1,
                m == 2 * (m / 2) + 1,
        ;
        lemma_fundamental_div_mod_converse(p * m, 2, 2 * (p / 2) * (m / 2) + p / 2 + m / 2, 1);
        assert((p * m) % 2 == 1);
        lemma_mod_multiples_basic(c, 2);
        assert((2 * c) % 2 == 0) by {
            assert(2 * c == c * 2) by (nonlinear_arith);
        }
        assert(false);
    }
}

/// Agreement of the three reduction strategies. For operands `x, y` below an
/// odd modulus `p` with radix exponent `k`:
/// - the naive path computes `rn = (x * y) mod p`;
/// - Barrett reduction of the product computes `rb = (x * y) mod p`;
/// - the Montgomery path converts the operands (`xm`, `ym`), applies REDC to
///   their product (`t`), and converts back (`rm`).
/// The requires clauses are exactly what `modulo`, `Barrett::reduce`,
/// `Montgomery::to_mont`, `redc` and `from_mont` ensure; the conclusion is
/// that all three residues are the same value.
pub proof fn lemma_reduction_agreement(
    p: nat,
    k: nat,
    x: nat,
    y: nat,
    xm: nat,
    ym: nat,
    t: nat,
    rm: nat,
    rb: nat,
    rn: nat,
)
    requires
        p >= 1,
        p % 2 == 1,
        x < p,
        y < p,
        rn == (x * y) % p,
        rb == (x * y) % p,
        xm == (x * pow2(k)) % p,
        ym == (y * pow2(k)) % p,
        t < p,
        (t * pow2(k)) % p == (xm * ym) % p,
        rm < p,
        (rm * pow2(k)) % p == t % p,
    ensures
        rb == rn,
        rm == rn,
{
    let pk = pow2(k);
    lemma_pow2_pos(k);
    // rm * 2^(2k) ≡ t * 2^k ≡ xm * ym ≡ (x * y) * 2^(2k)  (mod p)
    lemma_mul_mod_noop_left((rm * pk) as int, pk as int, p as int);
    lemma_mul_mod_noop_left((t % p) as int, pk as int, p as int);
    lemma_mul_mod_noop_left(t as int, pk as int, p as int);
    assert(((rm * pk) * pk) % p == ((t % p) * pk) % p) by {
        assert((rm * pk) % p == t % p);
        assert(((rm * pk) * pk) % p == (((rm * pk) % p) * pk) % p);
        assert((((t % p)) * pk) % p == ((t % p) * pk) % p);
    }
    assert(((rm * pk) * pk) % p == (t * pk) % p) by {
        assert(((t % p) * pk) % p == (t * pk) % p);
    }
    // xm * ym ≡ (x * 2^k) * (y * 2^k) (mod p)
    lemma_mul_mod_noop_general((x * pk) as int, (y * pk) as int, p as int);
    assert((xm * ym) % p == ((x * pk) * (y * pk)) % p);
    // (x * 2^k) * (y * 2^k) == (x * y) * 2^(2k), and (rm*pk)*pk == rm * 2^(2k)
    lemma_pow2_adds(k, k);
    assert((x * pk) * (y * pk) == (x * y) * (pk * pk)) by (nonlinear_arith);
    assert((rm * pk) * pk == rm * (pk * pk)) by (nonlinear_arith);
    assert((rm * pow2(k + k)) % p == ((x * y) * pow2(k + k)) % p);
    lemma_pow2_cancel_mod_odd(rm, x * y, k + k, p);
    // rm is already reduced, so it equals the common residue.
    lemma_small_mod(rm, p);
}

} // verus!

//! The mathematical model of a multi-limb integer: a little-endian sequence
//! of 64-bit limbs denotes the natural number obtained by radix-2^64
//! positional evaluation. Everything the executable code proves is stated
//! over `limbs_val` and the canonical-form predicate below.

use vstd::prelude::*;
use vstd::arithmetic::power2::*;
use vstd::arithmetic::div_mod::*;

verus! {

/// The natural number denoted by a little-endian limb sequence.
pub open spec fn limbs_val(s: Seq<u64>) -> nat
    decreases s.len(),
{
    if s.len() == 0 {
        0
    } else {
        s[0] as nat + pow2(64) * limbs_val(s.skip(1))
    }
}

/// Canonical form: at least one limb, and no trailing (most-significant)
/// zero limb except for the single-limb representation of zero.
pub open spec fn canonical(s: Seq<u64>) -> bool {
    s.len() >= 1 && (s.len() == 1 || s[s.len() - 1] != 0)
}

/// Appending a most-significant limb adds its value at the next radix weight.
pub proof fn lemma_val_push(s: Seq<u64>, x: u64)
    ensures
        limbs_val(s.push(x)) == limbs_val(s) + x * pow2(64 * s.len()),
    decreases s.len(),
{
    if s.len() == 0 {
        assert(s.push(x).skip(1) =~= Seq::<u64>::empty());
        lemma2_to64();
        assert(limbs_val(Seq::<u64>::empty()) == 0);
        assert(limbs_val(s.push(x)) == x as nat + pow2(64) * 0);
        assert(x * pow2(0) == x * 1 == x) by (nonlinear_arith)
            requires
                pow2(0) == 1,
        ;
    } else {
        let b = pow2(64);
        let p = pow2(64 * (s.len() - 1) as nat);
        let a = limbs_val(s.skip(1));
        lemma_val_push(s.skip(1), x);
        assert(s.push(x).skip(1) =~= s.skip(1).push(x));
        lemma_pow2_adds(64, 64 * (s.len() - 1) as nat);
        assert(limbs_val(s.push(x)) == s[0] as nat + b * (a + x * p));
        assert(b * (a + x * p) == b * a + x * (b * p)) by (nonlinear_arith);
    }
}

/// A sequence of zero limbs denotes zero.
pub proof fn lemma_val_all_zero(s: Seq<u64>)
    requires
        forall|i: int| 0 <= i < s.len() ==> s[i] == 0,
    ensures
        limbs_val(s) == 0,
    decreases s.len(),
{
    if s.len() > 0 {
        lemma_val_all_zero(s.skip(1));
        assert(limbs_val(s) == s[0] as nat + pow2(64) * 0);
    } else {
        assert(limbs_val(s) == 0);
    }
}

/// The value of a prefix one longer: positional evaluation limb by limb.
pub proof fn lemma_val_take_succ(s: Seq<u64>, i: int)
    requires
        0 <= i < s.len(),
    ensures
        limbs_val(s.take(i + 1)) == limbs_val(s.take(i)) + s[i] * pow2(64 * i as nat),
{
    assert(s.take(i + 1) =~= s.take(i).push(s[i]));
    lemma_val_push(s.take(i), s[i]);
}

/// A limb sequence is bounded by the radix power of its length.
pub proof fn lemma_val_bound(s: Seq<u64>)
    ensures
        limbs_val(s) < pow2(64 * s.len()),
    decreases s.len(),
{
    if s.len() == 0 {
        lemma2_to64();
    } else {
        let b = pow2(64);
        let p = pow2(64 * (s.len() - 1) as nat);
        let a = limbs_val(s.skip(1));
        lemma_val_bound(s.skip(1));
        lemma_pow2_adds(64, 64 * (s.len() - 1) as nat);
        lemma2_to64();
        // a + 1 <= p, so b * a + b <= b * p; and s[0] < b closes the bound.
        assert(b * (a + 1) <= b * p) by (nonlinear_arith)
            requires
                a + 1 <= p,
                b >= 1,
        ;
        assert(b * (a + 1) == b * a + b) by (nonlinear_arith);
        assert(limbs_val(s) == s[0] as nat + b * a);
        assert(s[0] < b);
    }
}

/// A sequence whose most-significant limb is nonzero reaches the radix power
/// of the limbs below it.
pub proof fn lemma_val_msb_lower(s: Seq<u64>)
    requires
        s.len() >= 1,
        s[s.len() - 1] != 0,
    ensures
        limbs_val(s) >= pow2(64 * (s.len() - 1) as nat),
    decreases s.len(),
{
    if s.len() == 1 {
        lemma2_to64();
        assert(limbs_val(s.skip(1)) == 0);
        assert(limbs_val(s) == s[0] as nat + pow2(64) * 0);
    } else {
        let b = pow2(64);
        let p = pow2(64 * (s.len() - 2) as nat);
        let a = limbs_val(s.skip(1));
        lemma_val_msb_lower(s.skip(1));
        lemma_pow2_adds(64, 64 * (s.len() - 2) as nat);
        assert(b * a >= b * p) by (nonlinear_arith)
            requires
                a >= p,
                b >= 0,
        ;
        assert(limbs_val(s) == s[0] as nat + b * a);
    }
}

/// Two canonical limb sequences with the same value are identical: the
/// canonical form of a natural number is unique.
pub proof fn lemma_val_inj(a: Seq<u64>, b: Seq<u64>)
    requires
        canonical(a),
        canonical(b),
        limbs_val(a) == limbs_val(b),
    ensures
        a == b,
    decreases a.len(),
{
    lemma2_to64();
    let bb = pow2(64);
    if a.len() == 1 && b.len() == 1 {
        assert(limbs_val(a.skip(1)) == 0);
        assert(limbs_val(b.skip(1)) == 0);
        assert(limbs_val(a) == a[0] as nat + bb * 0);
        assert(limbs_val(b) == b[0] as nat + bb * 0);
        assert(a =~= b);
    } else if a.len() >= 2 && b.len() >= 2 {
        // Equal values force equal least-significant limbs and equal tails,
        // by uniqueness of division and remainder by the radix.
        let ra = limbs_val(a.skip(1));
        let rb = limbs_val(b.skip(1));
        assert(a[0] as nat + bb * ra == b[0] as nat + bb * rb);
        lemma_fundamental_div_mod_converse(a[0] + bb * ra, bb as int, ra as int, a[0] as int);
        lemma_fundamental_div_mod_converse(b[0] + bb * rb, bb as int, rb as int, b[0] as int);
        assert(a[0] == b[0]);
        assert(ra == rb);
        assert(canonical(a.skip(1)));
        assert(canonical(b.skip(1)));
        lemma_val_inj(a.skip(1), b.skip(1));
        assert(a.len() == b.len());
        assert forall|i: int| 0 <= i < a.len() implies a[i] == b[i] by {
            if i >= 1 {
                assert(a[i] == a.skip(1)[i - 1]);
                assert(b[i] == b.skip(1)[i - 1]);
            }
        }
        assert(a =~= b);
    } else {
        // One sequence is a single limb and the other has at least two: the
        // longer one reaches pow2(64) while the shorter stays below it.
        let longer = if a.len() == 1 { b } else { a };
        let shorter = if a.len() == 1 { a } else { b };
        lemma_val_msb_lower(longer);
        lemma_pow2_adds(64, 64 * (longer.len() - 2) as nat);
        lemma_pow2_pos(64 * (longer.len() - 2) as nat);
        let p = pow2(64 * (longer.len() - 2) as nat);
        assert(bb * p >= bb * 1) by (nonlinear_arith)
            requires
                p >= 1,
                bb >= 0,
        ;
        assert(limbs_val(longer) >= bb);
        assert(limbs_val(shorter.skip(1)) == 0);
        assert(limbs_val(shorter) == shorter[0] as nat + bb * 0);
        assert(false);
    }
}

/// Splitting a sequence: the whole value is the prefix plus the suffix at
/// its radix weight.
pub proof fn lemma_val_split(s: Seq<u64>, i: int)
    requires
        0 <= i <= s.len(),
    ensures
        limbs_val(s) == limbs_val(s.take(i)) + pow2(64 * i as nat) * limbs_val(s.skip(i)),
    decreases i,
{
    if i == 0 {
        assert(s.take(0) =~= Seq::<u64>::empty());
        assert(s.skip(0) =~= s);
        lemma2_to64();
        assert(pow2(0) * limbs_val(s) == 1 * limbs_val(s) == limbs_val(s)) by (nonlinear_arith)
            requires
                pow2(0) == 1,
        ;
    } else {
        let b = pow2(64);
        let p = pow2(64 * (i - 1) as nat);
        lemma_val_split(s, i - 1);
        lemma_val_take_succ(s, i - 1);
        assert(s.skip(i - 1).skip(1) =~= s.skip(i));
        assert(s.skip(i - 1).len() == s.len() - i + 1);
        assert(limbs_val(s.skip(i - 1)) == s[i - 1] as nat + b * limbs_val(s.skip(i)));
        lemma_pow2_adds(64 * (i - 1) as nat, 64);
        assert(p * (s[i - 1] as nat + b * limbs_val(s.skip(i))) == p * (s[i - 1] as nat) + (p * b)
            * limbs_val(s.skip(i))) by (nonlinear_arith);
        assert(limbs_val(s) == limbs_val(s.take(i - 1)) + p * (s[i - 1] as nat) + (p * b)
            * limbs_val(s.skip(i)));
    }
}

/// Replacing one limb changes the value by the difference at that weight.
pub proof fn lemma_val_update(s: Seq<u64>, i: int, x: u64)
    requires
        0 <= i < s.len(),
    ensures
        limbs_val(s.update(i, x)) + s[i] * pow2(64 * i as nat) == limbs_val(s) + x * pow2(
            64 * i as nat,
        ),
{
    let t = s.update(i, x);
    lemma_val_split(s, i + 1);
    lemma_val_split(t, i + 1);
    lemma_val_take_succ(s, i);
    lemma_val_take_succ(t, i);
    assert(t.take(i) =~= s.take(i));
    assert(t.skip(i + 1) =~= s.skip(i + 1));
    assert(t[i] == x);
}

/// Prefixing zero limbs multiplies the value by their radix weight.
pub proof fn lemma_val_prepend_zeros(z: Seq<u64>, s: Seq<u64>)
    requires
        forall|i: int| 0 <= i < z.len() ==> z[i] == 0,
    ensures
        limbs_val(z + s) == pow2(64 * z.len()) * limbs_val(s),
{
    let c = z + s;
    lemma_val_split(c, z.len() as int);
    assert(c.take(z.len() as int) =~= z);
    assert(c.skip(z.len() as int) =~= s);
    lemma_val_all_zero(z);
}

/// The given sequence extended with zero limbs up to length `l`.
pub open spec fn zero_extend(s: Seq<u64>, l: nat) -> Seq<u64> {
    Seq::new(l, |i: int| if i < s.len() { s[i] } else { 0 })
}

/// Zero extension does not change the value.
pub proof fn lemma_val_zero_extend(s: Seq<u64>, l: nat)
    requires
        l >= s.len(),
    ensures
        limbs_val(zero_extend(s, l)) == limbs_val(s),
    decreases l,
{
    if l == s.len() {
        assert(zero_extend(s, l) =~= s);
    } else {
        lemma_val_zero_extend(s, (l - 1) as nat);
        assert(zero_extend(s, l) =~= zero_extend(s, (l - 1) as nat).push(0u64));
        lemma_val_push(zero_extend(s, (l - 1) as nat), 0u64);
    }
}

/// Among canonical sequences, more limbs means a strictly larger value.
pub proof fn lemma_val_len_lt(s: Seq<u64>, t: Seq<u64>)
    requires
        canonical(s),
        canonical(t),
        s.len() < t.len(),
    ensures
        limbs_val(s) < limbs_val(t),
{
    lemma_val_bound(s);
    lemma_val_msb_lower(t);
    if 64 * s.len() < 64 * (t.len() - 1) {
        lemma_pow2_strictly_increases(64 * s.len(), 64 * (t.len() - 1) as nat);
    }
}

/// Equal-length sequences that agree above index `i` and differ there are
/// ordered by the limbs at `i`.
pub proof fn lemma_val_lex(s: Seq<u64>, t: Seq<u64>, i: int)
    requires
        s.len() == t.len(),
        0 <= i < s.len(),
        s[i] < t[i],
        forall|j: int| i < j < s.len() ==> s[j] == t[j],
    ensures
        limbs_val(s) < limbs_val(t),
{
    let p = pow2(64 * i as nat);
    let b = pow2(64);
    lemma_val_split(s, i);
    lemma_val_split(t, i);
    assert(s.skip(i).skip(1) =~= t.skip(i).skip(1));
    assert(limbs_val(s.skip(i)) == s[i] as nat + b * limbs_val(s.skip(i).skip(1)));
    assert(limbs_val(t.skip(i)) == t[i] as nat + b * limbs_val(t.skip(i).skip(1)));
    assert(limbs_val(s.skip(i)) + 1 <= limbs_val(t.skip(i)));
    lemma_val_bound(s.take(i));
    assert(s.take(i).len() == i);
    // val(s) < p * (1 + val(s.skip(i))) <= p * val(t.skip(i)) <= val(t)
    assert(p * (limbs_val(s.skip(i)) + 1) <= p * limbs_val(t.skip(i))) by (nonlinear_arith)
        requires
            limbs_val(s.skip(i)) + 1 <= limbs_val(t.skip(i)),
            p >= 0,
    ;
    assert(p * (limbs_val(s.skip(i)) + 1) == p * limbs_val(s.skip(i)) + p) by (nonlinear_arith);
}

/// A canonical sequence denoting a value below `pow2(64 * l)` has at most
/// `l` limbs, for positive `l`.
pub proof fn lemma_canonical_len_bound(s: Seq<u64>, l: nat)
    requires
        canonical(s),
        l >= 1,
        limbs_val(s) < pow2(64 * l),
    ensures
        s.len() <= l,
{
    if s.len() > l {
        lemma_val_msb_lower(s);
        if 64 * l < 64 * (s.len() - 1) {
            lemma_pow2_strictly_increases(64 * l, 64 * (s.len() - 1) as nat);
        }
        assert(limbs_val(s) >= pow2(64 * l));
        assert(false);
    }
}

/// The parity of the value is the parity of the least-significant limb.
pub proof fn lemma_val_parity(s: Seq<u64>)
    requires
        s.len() >= 1,
    ensures
        limbs_val(s) % 2 == s[0] % 2,
{
    lemma_pow2_unfold(64);
    let t = limbs_val(s.skip(1));
    assert(limbs_val(s) == s[0] as nat + (2 * pow2(63)) * t);
    assert((2 * pow2(63)) * t == 2 * (pow2(63) * t)) by (nonlinear_arith);
    lemma_mod_multiples_vanish(pow2(63) as int * t as int, s[0] as int, 2);
}

/// Limb-wise AND, truncated to the shorter operand.
pub open spec fn and_limbs(a: Seq<u64>, b: Seq<u64>) -> Seq<u64> {
    Seq::new(if a.len() <= b.len() { a.len() } else { b.len() }, |i: int| a[i] & b[i])
}

/// Limb-wise OR, extended to the longer operand with missing limbs as zero.
pub open spec fn or_limbs(a: Seq<u64>, b: Seq<u64>) -> Seq<u64> {
    Seq::new(
        if a.len() >= b.len() { a.len() } else { b.len() },
        |i: int|
            (if i < a.len() { a[i] } else { 0 }) | (if i < b.len() { b[i] } else { 0 }),
    )
}

/// Limb-wise XOR, extended to the longer operand with missing limbs as zero.
pub open spec fn xor_limbs(a: Seq<u64>, b: Seq<u64>) -> Seq<u64> {
    Seq::new(
        if a.len() >= b.len() { a.len() } else { b.len() },
        |i: int|
            (if i < a.len() { a[i] } else { 0 }) ^ (if i < b.len() { b[i] } else { 0 }),
    )
}

/// The first limb and the remaining limbs are the remainder and quotient of
/// the value by the radix.
pub proof fn lemma_val_head_tail(s: Seq<u64>)
    requires
        s.len() >= 1,
    ensures
        s[0] == limbs_val(s) % pow2(64),
        limbs_val(s.skip(1)) == limbs_val(s) / pow2(64),
{
    lemma2_to64();
    let b = pow2(64);
    let t = limbs_val(s.skip(1));
    assert(b * t == t * b) by (nonlinear_arith);
    lemma_fundamental_div_mod_converse(limbs_val(s) as int, b as int, t as int, s[0] as int);
}

/// AND with the canonical representation of `pow2(k) - 1` keeps exactly the
/// low `k` bits: it computes the value modulo `pow2(k)`.
#[verifier::rlimit(30)]
pub proof fn lemma_val_and_mask(x: Seq<u64>, m: Seq<u64>, k: nat)
    requires
        canonical(m),
        limbs_val(m) == pow2(k) - 1,
        k >= 1,
    ensures
        limbs_val(and_limbs(x, m)) == limbs_val(x) % pow2(k),
    decreases m.len(),
{
    lemma2_to64();
    lemma_pow2_pos(k);
    let b = pow2(64);
    let pk = pow2(k);
    if x.len() == 0 {
        assert(and_limbs(x, m) =~= Seq::<u64>::empty());
        assert(limbs_val(Seq::<u64>::empty()) == 0);
        assert(limbs_val(x) == 0);
        lemma_small_mod(0, pk);
    } else if m.len() == 1 {
        assert(m.skip(1) =~= Seq::<u64>::empty());
        assert(limbs_val(Seq::<u64>::empty()) == 0);
        assert(limbs_val(m) == m[0] as nat + b * 0);
        // A one-limb mask means k is at most the limb width.
        if k > 64 {
            lemma_pow2_strictly_increases(64, k);
            assert(false);
        }
        let a0 = x[0];
        let a = and_limbs(x, m);
        assert(a =~= seq![a0 & m[0]]);
        assert(a.skip(1) =~= Seq::<u64>::empty());
        assert(limbs_val(a) == (a0 & m[0]) as nat + b * 0);
        lemma_val_head_tail(x);
        if k == 64 {
            assert(m[0] == 0xFFFF_FFFF_FFFF_FFFFu64);
            assert(a0 & 0xFFFF_FFFF_FFFF_FFFFu64 == a0) by (bit_vector);
        } else {
            assert(m[0] == vstd::bits::low_bits_mask(k));
            vstd::bits::lemma_u64_low_bits_mask_is_mod(a0, k);
            // val(x) and x[0] agree modulo pow2(k) since the radix is a
            // multiple of pow2(k).
            lemma_pow2_adds(k, (64 - k) as nat);
            let t = limbs_val(x.skip(1));
            assert(b * t == pk * (pow2((64 - k) as nat) * t)) by (nonlinear_arith)
                requires
                    b == pk * pow2((64 - k) as nat),
            ;
            lemma_mod_multiples_vanish(
                (pow2((64 - k) as nat) * t) as int,
                a0 as int,
                pk as int,
            );
        }
    } else {
        // A mask of several limbs: the low limb is all ones and the rest is
        // the mask of k - 64 bits.
        lemma_val_head_tail(m);
        if k <= 64 {
            lemma_val_msb_lower(m);
            lemma_pow2_adds(64, 64 * (m.len() - 2) as nat);
            lemma_pow2_pos(64 * (m.len() - 2) as nat);
            assert(b * pow2(64 * (m.len() - 2) as nat) >= b * 1) by (nonlinear_arith)
                requires
                    pow2(64 * (m.len() - 2) as nat) >= 1,
                    b >= 0,
            ;
            if k < 64 {
                lemma_pow2_strictly_increases(k, 64);
            }
            assert(false);
        }
        lemma_pow2_adds(64, (k - 64) as nat);
        let pk2 = pow2((k - 64) as nat);
        lemma_pow2_pos((k - 64) as nat);
        // pow2(k) - 1 == b * (pk2 - 1) + (b - 1)
        assert(b * pk2 - 1 == b * (pk2 - 1) + (b - 1)) by (nonlinear_arith);
        assert((pk2 - 1) * b == b * (pk2 - 1)) by (nonlinear_arith);
        lemma_fundamental_div_mod_converse(
            limbs_val(m) as int,
            b as int,
            pk2 - 1,
            b - 1,
        );
        assert(m[0] == 0xFFFF_FFFF_FFFF_FFFFu64);
        assert(limbs_val(m.skip(1)) == pk2 - 1);
        assert(canonical(m.skip(1)));
        lemma_val_and_mask(x.skip(1), m.skip(1), (k - 64) as nat);
        let a = and_limbs(x, m);
        let a0 = x[0];
        assert(a0 & 0xFFFF_FFFF_FFFF_FFFFu64 == a0) by (bit_vector);
        assert(a.skip(1) =~= and_limbs(x.skip(1), m.skip(1)));
        assert(a.len() >= 1);
        assert(a[0] == a0);
        assert(limbs_val(a) == a0 as nat + b * (limbs_val(x.skip(1)) % pk2));
        lemma_val_head_tail(x);
        lemma_mod_breakdown(limbs_val(x) as int, b as int, pk2 as int);
        assert(limbs_val(x) as int % (b as int * pk2 as int) == b * ((limbs_val(x) / b) % pk2)
            + limbs_val(x) % b);
        assert(limbs_val(a) == limbs_val(x) % pow2(k));
    }
}

/// The number of bits needed to write a natural number in binary; zero for
/// zero.
pub open spec fn nat_bits(n: nat) -> nat
    decreases n,
{
    if n == 0 {
        0
    } else {
        1 + nat_bits(n / 2)
    }
}

/// A number lies below the power of two of its bit count, and a nonzero one
/// reaches the power of two just under it.
pub proof fn lemma_nat_bits_bound(n: nat)
    ensures
        n < pow2(nat_bits(n)),
        n >= 1 ==> n >= pow2((nat_bits(n) - 1) as nat),
    decreases n,
{
    if n == 0 {
        lemma2_to64();
    } else {
        lemma_nat_bits_bound(n / 2);
        lemma_pow2_unfold(nat_bits(n));
        assert(pow2(nat_bits(n)) == 2 * pow2(nat_bits(n / 2)));
        if n / 2 >= 1 {
            lemma_pow2_unfold((nat_bits(n) - 1) as nat);
        } else {
            assert(nat_bits(n) == 1);
            lemma2_to64();
        }
    }
}

/// Any number strictly below a power of two needs no more bits than the
/// exponent.
pub proof fn lemma_nat_bits_le(n: nat, k: nat)
    requires
        n < pow2(k),
    ensures
        nat_bits(n) <= k,
{
    if nat_bits(n) > k {
        lemma_nat_bits_bound(n);
        lemma_pow2_pos(k);
        if k < (nat_bits(n) - 1) as nat {
            lemma_pow2_strictly_increases(k, (nat_bits(n) - 1) as nat);
        }
        assert(n >= pow2(k));
        assert(false);
    }
}

/// The bit count is monotone.
pub proof fn lemma_nat_bits_monotone(m: nat, n: nat)
    requires
        m <= n,
    ensures
        nat_bits(m) <= nat_bits(n),
{
    lemma_nat_bits_bound(n);
    lemma_nat_bits_le(m, nat_bits(n));
}

/// The bit count is determined by the enclosing powers of two.
pub proof fn lemma_nat_bits_unique(n: nat, k: nat)
    requires
        k >= 1,
        pow2((k - 1) as nat) <= n < pow2(k),
    ensures
        nat_bits(n) == k,
{
    lemma_nat_bits_le(n, k);
    lemma_pow2_pos((k - 1) as nat);
    assert(n >= 1);
    lemma_nat_bits_bound(n);
    if nat_bits(n) <= (k - 1) as nat {
        lemma_pow2_pos(nat_bits(n));
        if nat_bits(n) < (k - 1) as nat {
            lemma_pow2_strictly_increases(nat_bits(n), (k - 1) as nat);
        }
        assert(n < pow2((k - 1) as nat));
        assert(false);
    }
}

/// The bit count of a canonical limb sequence with a nonzero top limb: full
/// limbs below the top one plus the bits of the top limb.
pub proof fn lemma_val_nat_bits(s: Seq<u64>)
    requires
        canonical(s),
        s[s.len() - 1] != 0,
    ensures
        nat_bits(limbs_val(s)) == 64 * (s.len() - 1) + nat_bits(s[s.len() - 1] as nat),
    decreases s.len(),
{
    let b = pow2(64);
    if s.len() == 1 {
        assert(limbs_val(s.skip(1)) == 0);
        assert(limbs_val(s) == s[0] as nat + b * 0);
    } else {
        let tail = s.skip(1);
        assert(canonical(tail));
        assert(tail[tail.len() - 1] != 0);
        lemma_val_nat_bits(tail);
        let vt = limbs_val(tail);
        let m = nat_bits(vt);
        lemma_nat_bits_bound(vt);
        assert(vt >= 1) by {
            lemma_val_msb_lower(tail);
            lemma_pow2_pos(64 * (tail.len() - 1) as nat);
        }
        lemma_pow2_adds(64, (m - 1) as nat);
        lemma_pow2_adds(64, m);
        lemma2_to64();
        // Lower bound: 2^64 * vt >= 2^64 * 2^(m-1).
        assert(b * vt >= b * pow2((m - 1) as nat)) by (nonlinear_arith)
            requires
                vt >= pow2((m - 1) as nat),
                b >= 0,
        ;
        assert(limbs_val(s) == s[0] as nat + b * vt);
        // Upper bound: s[0] + 2^64 * vt < 2^64 * (vt + 1) <= 2^64 * 2^m.
        assert(b * (vt + 1) <= b * pow2(m)) by (nonlinear_arith)
            requires
                vt + 1 <= pow2(m),
                b >= 1,
        ;
        assert(b * (vt + 1) == b * vt + b) by (nonlinear_arith);
        assert(s[0] < b);
        lemma_nat_bits_unique(limbs_val(s), 64 + m);
    }
}

} // verus!

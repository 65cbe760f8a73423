use vstd::prelude::*;
use vstd::arithmetic::power2::{pow2, lemma_pow2_unfold, lemma_pow2_pos};
use vstd::arithmetic::div_mod::{lemma_fundamental_div_mod_converse, lemma_breakdown};
use vstd::bits::lemma_u32_shr_is_div;

verus! {

/// `1` for `true`, `0` for `false`.
pub open spec fn b2i(b: bool) -> int {
    if b {
        1
    } else {
        0
    }
}

/// The unsigned value of the little-endian bit string `s`.
pub open spec fn bits_value(s: Seq<bool>) -> int
    decreases s.len(),
{
    if s.len() == 0 {
        0
    } else {
        bits_value(s.drop_last()) + b2i(s.last()) * pow2((s.len() - 1) as nat)
    }
}

/// Bit `i` of the non-negative integer `x`.
pub open spec fn int_bit(x: int, i: nat) -> bool {
    (x / (pow2(i) as int)) % 2 == 1
}

/// The carry into position `i` of a ripple-carry adder adding `x`, `y` and
/// the carry-in `cin`.
pub open spec fn carry(x: Seq<bool>, y: Seq<bool>, cin: bool, i: nat) -> bool
    decreases i,
{
    if i == 0 {
        cin
    } else {
        let k = (i - 1) as int;
        let c = carry(x, y, cin, (i - 1) as nat);
        (x[k] && y[k]) || ((x[k] != y[k]) && c)
    }
}

/// Sum bit `i` of a ripple-carry adder.
pub open spec fn sum_bit(x: Seq<bool>, y: Seq<bool>, cin: bool, i: nat) -> bool {
    (x[i as int] != y[i as int]) != carry(x, y, cin, i)
}

/// The first `n` sum bits of a ripple-carry adder.
pub open spec fn sum_bits(x: Seq<bool>, y: Seq<bool>, cin: bool, n: nat) -> Seq<bool> {
    Seq::new(n, |k: int| sum_bit(x, y, cin, k as nat))
}

pub proof fn lemma_bits_value_bounds(s: Seq<bool>)
    ensures
        0 <= bits_value(s) < pow2(s.len()),
    decreases s.len(),
{
    lemma_pow2_pos(s.len());
    if s.len() > 0 {
        lemma_bits_value_bounds(s.drop_last());
        lemma_pow2_unfold(s.len());
        lemma_pow2_pos((s.len() - 1) as nat);
    }
}

/// A ripple-carry adder computes `x + y + cin`: its sum bits and final carry
/// together hold that value.
pub proof fn lemma_ripple(x: Seq<bool>, y: Seq<bool>, cin: bool, n: nat)
    requires
        n <= x.len(),
        n <= y.len(),
    ensures
        bits_value(sum_bits(x, y, cin, n)) + b2i(carry(x, y, cin, n)) * pow2(n) == bits_value(
            x.take(n as int),
        ) + bits_value(y.take(n as int)) + b2i(cin),
    decreases n,
{
    if n == 0 {
        assert(sum_bits(x, y, cin, 0) =~= Seq::<bool>::empty());
        assert(x.take(0) =~= Seq::<bool>::empty());
        assert(y.take(0) =~= Seq::<bool>::empty());
        vstd::arithmetic::power2::lemma2_to64();
    } else {
        let m = (n - 1) as nat;
        lemma_ripple(x, y, cin, m);
        assert(sum_bits(x, y, cin, n).drop_last() =~= sum_bits(x, y, cin, m));
        assert(x.take(n as int).drop_last() =~= x.take(m as int));
        assert(y.take(n as int).drop_last() =~= y.take(m as int));
        lemma_pow2_unfold(n);
        let p = pow2(m);
        let xm = x[m as int];
        let ym = y[m as int];
        let cm = carry(x, y, cin, m);
        let s = sum_bit(x, y, cin, m);
        let cn = carry(x, y, cin, n);
        assert(b2i(s) + 2 * b2i(cn) == b2i(xm) + b2i(ym) + b2i(cm));
        assert(b2i(s) * p + b2i(cn) * (2 * p) == b2i(xm) * p + b2i(ym) * p + b2i(cm) * p) by (
        nonlinear_arith)
            requires
                b2i(s) + 2 * b2i(cn) == b2i(xm) + b2i(ym) + b2i(cm),
        ;
    }
}

/// The sum bits of a ripple-carry adder are `x + y + cin` modulo `2^n`.
pub proof fn lemma_ripple_mod(x: Seq<bool>, y: Seq<bool>, cin: bool, n: nat)
    requires
        n <= x.len(),
        n <= y.len(),
    ensures
        bits_value(sum_bits(x, y, cin, n)) == (bits_value(x.take(n as int)) + bits_value(
            y.take(n as int),
        ) + b2i(cin)) % (pow2(n) as int),
{
    lemma_ripple(x, y, cin, n);
    lemma_bits_value_bounds(sum_bits(x, y, cin, n));
    lemma_pow2_pos(n);
    lemma_fundamental_div_mod_converse(
        bits_value(x.take(n as int)) + bits_value(y.take(n as int)) + b2i(cin),
        pow2(n) as int,
        b2i(carry(x, y, cin, n)),
        bits_value(sum_bits(x, y, cin, n)),
    );
}

/// The bitwise complement of `s`.
pub open spec fn not_bits(s: Seq<bool>) -> Seq<bool> {
    Seq::new(s.len(), |k: int| !s[k])
}

pub proof fn lemma_not_bits_value(s: Seq<bool>)
    ensures
        bits_value(not_bits(s)) == pow2(s.len()) - 1 - bits_value(s),
    decreases s.len(),
{
    if s.len() == 0 {
        vstd::arithmetic::power2::lemma2_to64();
    } else {
        assert(not_bits(s).drop_last() =~= not_bits(s.drop_last()));
        lemma_not_bits_value(s.drop_last());
        lemma_pow2_unfold(s.len());
    }
}

/// Adding the complement of `y` and one subtracts `y` modulo `2^n`.
pub proof fn lemma_complement_sub(x: int, y: Seq<bool>)
    ensures
        (x + bits_value(not_bits(y)) + 1) % (pow2(y.len()) as int) == (x - bits_value(y)) % (pow2(
            y.len(),
        ) as int),
{
    lemma_not_bits_value(y);
    lemma_pow2_pos(y.len());
    vstd::arithmetic::div_mod::lemma_mod_add_multiples_vanish(x - bits_value(y), pow2(y.len()) as int);
}

/// The value of the bits of `s` from position `i` on.
pub open spec fn high_value(s: Seq<bool>, i: int) -> int {
    bits_value(s.subrange(i, s.len() as int))
}

/// The two's complement value of the bit string `s`.
pub open spec fn signed_value(s: Seq<bool>) -> int {
    if s.len() == 0 {
        0
    } else {
        bits_value(s) - b2i(s.last()) * pow2(s.len())
    }
}

/// `s` with its most significant bit flipped.
pub open spec fn flip_msb(s: Seq<bool>) -> Seq<bool> {
    s.update(s.len() - 1, !s.last())
}

pub proof fn lemma_bits_value_first(s: Seq<bool>)
    requires
        s.len() > 0,
    ensures
        bits_value(s) == b2i(s[0]) + 2 * bits_value(s.drop_first()),
    decreases s.len(),
{
    if s.len() == 1 {
        assert(s.drop_last() =~= Seq::<bool>::empty());
        assert(s.drop_first() =~= Seq::<bool>::empty());
        vstd::arithmetic::power2::lemma2_to64();
    } else {
        lemma_bits_value_first(s.drop_last());
        assert(s.drop_last().drop_first() =~= s.drop_first().drop_last());
        lemma_pow2_unfold((s.len() - 1) as nat);
        assert(s.drop_first().last() == s.last());
        assert(s.drop_last()[0] == s[0]);
        let p = pow2((s.len() - 2) as nat);
        assert(b2i(s.last()) * (2 * p) == 2 * (b2i(s.last()) * p)) by (nonlinear_arith);
    }
}

pub proof fn lemma_high_value_step(s: Seq<bool>, i: int)
    requires
        0 <= i < s.len(),
    ensures
        high_value(s, i) == b2i(s[i]) + 2 * high_value(s, i + 1),
{
    lemma_bits_value_first(s.subrange(i, s.len() as int));
    assert(s.subrange(i, s.len() as int).drop_first() =~= s.subrange(i + 1, s.len() as int));
}

pub proof fn lemma_high_value_ends(s: Seq<bool>)
    ensures
        high_value(s, 0) == bits_value(s),
        high_value(s, s.len() as int) == 0,
{
    assert(s.subrange(0, s.len() as int) =~= s);
    assert(s.subrange(s.len() as int, s.len() as int) =~= Seq::<bool>::empty());
}

pub proof fn lemma_flip_msb_value(s: Seq<bool>)
    requires
        s.len() > 0,
    ensures
        bits_value(flip_msb(s)) == signed_value(s) + pow2((s.len() - 1) as nat),
{
    let f = flip_msb(s);
    assert(f.drop_last() =~= s.drop_last());
    assert(f.last() == !s.last());
    assert(f.len() == s.len());
    lemma_pow2_unfold(s.len());
    let p = pow2((s.len() - 1) as nat);
    assert(bits_value(f) == bits_value(s.drop_last()) + b2i(!s.last()) * p);
    assert(bits_value(s) == bits_value(s.drop_last()) + b2i(s.last()) * p);
    if s.last() {
        assert(signed_value(s) == bits_value(s) - 2 * p);
    } else {
        assert(signed_value(s) == bits_value(s));
    }
}

/// The first `n` bits of the non-negative integer `x`.
pub open spec fn int_bits(x: int, n: nat) -> Seq<bool> {
    Seq::new(n, |i: int| int_bit(x, i as nat))
}

pub proof fn lemma_bits_value_append(s1: Seq<bool>, s2: Seq<bool>)
    ensures
        bits_value(s1 + s2) == bits_value(s1) + pow2(s1.len()) * bits_value(s2),
    decreases s2.len(),
{
    if s2.len() == 0 {
        assert(s1 + s2 =~= s1);
    } else {
        lemma_bits_value_append(s1, s2.drop_last());
        assert((s1 + s2).drop_last() =~= s1 + s2.drop_last());
        vstd::arithmetic::power2::lemma_pow2_adds(s1.len(), (s2.len() - 1) as nat);
        let a = pow2(s1.len()) as int;
        let b = pow2((s2.len() - 1) as nat) as int;
        let l = b2i(s2.last());
        assert(a * (bits_value(s2.drop_last()) + l * b) == a * bits_value(s2.drop_last()) + l * (a * b))
            by (nonlinear_arith);
    }
}

pub proof fn lemma_int_bits_value(x: int, n: nat)
    requires
        x >= 0,
    ensures
        bits_value(int_bits(x, n)) == x % (pow2(n) as int),
    decreases n,
{
    if n == 0 {
        assert(int_bits(x, 0) =~= Seq::<bool>::empty());
        vstd::arithmetic::power2::lemma2_to64();
    } else {
        let m = (n - 1) as nat;
        lemma_int_bits_value(x, m);
        assert(int_bits(x, n).drop_last() =~= int_bits(x, m));
        lemma_pow2_unfold(n);
        lemma_pow2_pos(m);
        lemma_breakdown(x, pow2(m) as int, 2);
        assert(pow2(n) == pow2(m) * 2);
        let q = (x / (pow2(m) as int)) % 2;
        assert(b2i(int_bit(x, m)) == q);
        assert(pow2(m) * q == q * pow2(m)) by (nonlinear_arith);
    }
}

/// Bits of a value below `2^k` are clear from position `k` on.
pub proof fn lemma_int_bit_high(x: int, k: nat)
    requires
        0 <= x < pow2(k),
    ensures
        !int_bit(x, k),
{
    lemma_pow2_pos(k);
    vstd::arithmetic::div_mod::lemma_basic_div(x, pow2(k) as int);
}

/// Bit `i` of `x`, computed by shifting.
pub fn u32_bit(x: u32, i: u32) -> (r: bool)
    requires
        i < 32,
    ensures
        r == int_bit(x as int, i as nat),
{
    let y = x >> i;
    proof {
        lemma_u32_shr_is_div(x, i);
        assert((y & 1u32 == 1u32) == (y % 2 == 1)) by (bit_vector);
    }
    y & 1 == 1
}

/// For `0 <= lo < m`: `lo + m ((h + i) mod k)` is `(lo + m h + m i) mod (m k)`.
pub proof fn lemma_mod_shifted_sum(lo: int, m: int, h: int, i: int, k: int)
    requires
        0 <= lo < m,
        k > 0,
    ensures
        lo + m * ((h + i) % k) == (lo + m * h + m * i) % (m * k),
{
    let t = h + i;
    let q = t / k;
    let r = t % k;
    vstd::arithmetic::div_mod::lemma_fundamental_div_mod(t, k);
    assert(0 <= r < k);
    assert(lo + m * r < m * k) by (nonlinear_arith)
        requires
            0 <= lo < m,
            0 <= r < k,
    ;
    assert(0 <= m * r) by (nonlinear_arith)
        requires
            0 <= lo < m,
            0 <= r,
    ;
    assert(lo + m * h + m * i == q * (m * k) + (lo + m * r)) by (nonlinear_arith)
        requires
            t == h + i,
            t == k * q + r,
    ;
    lemma_fundamental_div_mod_converse(lo + m * h + m * i, m * k, q, lo + m * r);
}

/// Equal-length bit strings with equal values are equal.
pub proof fn lemma_bits_value_injective(x: Seq<bool>, y: Seq<bool>)
    requires
        x.len() == y.len(),
        bits_value(x) == bits_value(y),
    ensures
        x == y,
    decreases x.len(),
{
    if x.len() == 0 {
        assert(x =~= y);
    } else {
        let n = (x.len() - 1) as nat;
        lemma_bits_value_bounds(x.drop_last());
        lemma_bits_value_bounds(y.drop_last());
        lemma_pow2_pos(n);
        if x.last() != y.last() {
            assert(false);
        }
        lemma_bits_value_injective(x.drop_last(), y.drop_last());
        assert(x =~= x.drop_last().push(x.last()));
        assert(y =~= y.drop_last().push(y.last()));
    }
}

/// Clearing bit 0 of a bit string rounds its value down to an even number.
pub proof fn lemma_clear_bit0(s: Seq<bool>)
    requires
        s.len() > 0,
    ensures
        bits_value(s.update(0, false)) == bits_value(s) - bits_value(s) % 2,
{
    lemma_bits_value_first(s);
    lemma_bits_value_first(s.update(0, false));
    assert(s.update(0, false).drop_first() =~= s.drop_first());
    lemma_bits_value_bounds(s.drop_first());
}

} // verus!

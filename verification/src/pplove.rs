use vstd::prelude::*;
use vstd::arithmetic::power2::pow2;

verus! {

/// Bit `i` of `x`, as a boolean.
pub open spec fn bit_of(x: usize, i: usize) -> bool {
    (x >> i) & 1usize == 1usize
}

proof fn lemma_shift_in_bit(r: usize, b: usize, j: usize)
    requires
        b <= 1,
        j + 1 < usize::BITS,
    ensures
        (((r << 1usize) | b) >> 0usize) & 1usize == b,
        (((r << 1usize) | b) >> ((j + 1) as usize)) & 1usize == (r >> j) & 1usize,
{
    assert((((r << 1usize) | b) >> 0usize) & 1usize == b) by (bit_vector)
        requires
            b <= 1,
    ;
    assert((((r << 1usize) | b) >> ((j + 1) as usize)) & 1usize == (r >> j) & 1usize)
        by (bit_vector)
        requires
            b <= 1,
            j + 1 < usize::BITS,
    ;
}

/// `r` holds the lowest `bits` bits of `v` in reverse order: bit `j` of `r`
/// is bit `bits - 1 - j` of `v`.
pub open spec fn reversed_bits(r: usize, v: usize, bits: u32) -> bool {
    forall|j: usize| j < bits ==> #[trigger] bit_of(r, j) == bit_of(v, (bits - 1 - j) as usize)
}

/// `v` has no set bit from position `bits` on.
pub open spec fn fits_bits(v: usize, bits: u32) -> bool {
    bits < usize::BITS ==> v >> (bits as usize) == 0
}

/// `r` is the reversal of the lowest `bits` bits of `v`, with no other bit
/// set.
pub open spec fn is_reversal(r: usize, v: usize, bits: u32) -> bool {
    fits_bits(r, bits) && reversed_bits(r, v, bits)
}

/// The reversal of the lowest `bits` bits of `v` (the only value that
/// `is_reversal` admits).
pub open spec fn bit_reverse(v: usize, bits: u32) -> usize {
    choose|r: usize| is_reversal(r, v, bits)
}

/// The value after shifting the lowest `i` bits of `v` in, lowest first.
spec fn shifted_in(v: usize, i: nat) -> usize
    decreases i,
{
    if i == 0 {
        0
    } else {
        let b = ((v >> ((i - 1) as usize)) & 1usize) as usize;
        ((shifted_in(v, (i - 1) as nat) << 1usize) | b) as usize
    }
}

proof fn lemma_shifted_in(v: usize, i: u32)
    requires
        i <= usize::BITS,
    ensures
        fits_bits(shifted_in(v, i as nat), i),
        forall|j: usize| j < i ==> #[trigger] bit_of(shifted_in(v, i as nat), j) == bit_of(v, (i - 1 - j) as usize),
    decreases i,
{
    if i == 0 {
        assert(0usize >> 0usize == 0) by (bit_vector);
    } else {
        let k = (i - 1) as u32;
        lemma_shifted_in(v, k);
        let r = shifted_in(v, k as nat);
        let kk = k as usize;
        let b: usize = (v >> kk) & 1usize;
        assert(b <= 1) by (bit_vector)
            requires
                b == (v >> kk) & 1usize,
        ;
        let r2 = shifted_in(v, i as nat);
        assert(r2 == (r << 1usize) | b);
        assert forall|j: usize| j < i implies #[trigger] bit_of(r2, j) == bit_of(v, (i - 1 - j) as usize) by {
            if j == 0 {
                lemma_shift_in_bit(r, b, 0);
            } else {
                let jj = (j - 1) as usize;
                lemma_shift_in_bit(r, b, jj);
                assert(bit_of(r, jj) == bit_of(v, (k - 1 - jj) as usize));
            }
        }
        if i < usize::BITS {
            assert(r2 >> ((kk + 1) as usize) == 0) by (bit_vector)
                requires
                    r2 == (r << 1usize) | b,
                    b <= 1,
                    kk + 1 < usize::BITS,
                    r >> kk == 0,
            ;
        }
    }
}

/// Two values that agree on their lowest `b` bits and have no other bit set
/// are equal.
proof fn lemma_low_bits_determine(r1: usize, r2: usize, b: u32)
    requires
        b <= usize::BITS,
        fits_bits(r1, b),
        fits_bits(r2, b),
        forall|j: usize| j < b ==> #[trigger] bit_of(r1, j) == bit_of(r2, j),
    ensures
        r1 == r2,
    decreases b,
{
    if b == 0 {
        assert(r1 >> 0usize == r1) by (bit_vector);
        assert(r2 >> 0usize == r2) by (bit_vector);
    } else {
        let s1 = r1 >> 1usize;
        let s2 = r2 >> 1usize;
        let bb = b as usize;
        let k = (b - 1) as u32;
        let kk = k as usize;
        if b < usize::BITS {
            assert((r1 >> 1usize) >> kk == r1 >> bb) by (bit_vector)
                requires
                    1 <= bb < usize::BITS,
                    kk == bb - 1,
            ;
            assert((r2 >> 1usize) >> kk == r2 >> bb) by (bit_vector)
                requires
                    1 <= bb < usize::BITS,
                    kk == bb - 1,
            ;
        } else {
            assert((r1 >> 1usize) >> kk == 0) by (bit_vector)
                requires
                    kk == usize::BITS - 1,
            ;
            assert((r2 >> 1usize) >> kk == 0) by (bit_vector)
                requires
                    kk == usize::BITS - 1,
            ;
        }
        assert forall|j: usize| j < k implies #[trigger] bit_of(s1, j) == bit_of(s2, j) by {
            assert(j + 1 < usize::BITS);
            assert(bit_of(r1, (j + 1) as usize) == bit_of(r2, (j + 1) as usize));
            assert((r1 >> 1usize) >> j == r1 >> ((j + 1) as usize)) by (bit_vector)
                requires
                    j + 1 < usize::BITS,
            ;
            assert((r2 >> 1usize) >> j == r2 >> ((j + 1) as usize)) by (bit_vector)
                requires
                    j + 1 < usize::BITS,
            ;
        }
        lemma_low_bits_determine(s1, s2, k);
        assert(bit_of(r1, 0) == bit_of(r2, 0));
        assert(r1 == r2) by (bit_vector)
            requires
                r1 >> 1usize == r2 >> 1usize,
                ((r1 >> 0usize) & 1usize == 1usize) == ((r2 >> 0usize) & 1usize == 1usize),
        ;
    }
}

/// Every value has exactly one reversal of its lowest `bits` bits.
pub proof fn lemma_bit_reverse(v: usize, bits: u32)
    requires
        bits <= usize::BITS,
    ensures
        is_reversal(bit_reverse(v, bits), v, bits),
        forall|r: usize| #[trigger] is_reversal(r, v, bits) ==> r == bit_reverse(v, bits),
{
    lemma_shifted_in(v, bits);
    assert(is_reversal(shifted_in(v, bits as nat), v, bits));
    let c = bit_reverse(v, bits);
    assert forall|r: usize| #[trigger] is_reversal(r, v, bits) implies r == c by {
        assert forall|j: usize| j < bits implies #[trigger] bit_of(r, j) == bit_of(c, j) by {
            assert(bit_of(r, j) == bit_of(v, (bits - 1 - j) as usize));
            assert(bit_of(c, j) == bit_of(v, (bits - 1 - j) as usize));
        }
        lemma_low_bits_determine(r, c, bits);
    }
}

/// Reverses the order of the lowest `bits` bits of `v`: bit `j` of the
/// result is bit `bits - 1 - j` of `v`, and all higher bits are zero.
pub fn reverse_bits(v: usize, bits: u32) -> (r: usize)
    requires
        1 <= bits <= usize::BITS,
    ensures
        r == bit_reverse(v, bits),
        is_reversal(r, v, bits),
{
    let mut r: usize = 0;
    let mut i: u32 = 0;
    while i < bits
        invariant
            i <= bits <= usize::BITS,
            r == shifted_in(v, i as nat),
        decreases bits - i,
    {
        let b: usize = (v >> (i as usize)) & 1;
        r = (r << 1) | b;
        i = i + 1;
    }
    proof {
        lemma_shifted_in(v, bits);
        lemma_bit_reverse(v, bits);
        assert(is_reversal(r, v, bits));
    }
    r
}

/// The representative of `v mod modulus` centred on zero: values in the
/// upper half `[modulus / 2, modulus)` become negative.
pub open spec fn centred(v: u64, modulus: u64) -> int {
    if v % modulus >= modulus / 2 {
        (v % modulus) - modulus
    } else {
        (v % modulus) as int
    }
}

/// Maps `v mod modulus` to the centred representative: values in the upper
/// half `[modulus / 2, modulus)` become negative.
pub fn uint_to_i64(v: u64, modulus: u64) -> (r: i64)
    requires
        modulus > 0,
        v % modulus >= modulus / 2 ==> modulus - v % modulus <= i64::MAX,
    ensures
        r == centred(v, modulus),
{
    let v = v % modulus;
    if v >= modulus / 2 {
        return -((modulus - v) as i64);
    } else {
        return v as i64;
    }
}

/// Centres each of the random draws `samples` modulo `2^k_pt`: entry `i`
/// of the result is `uint_to_i64(samples[i], 2^k_pt)`.
pub fn random_data_in_mod(samples: &[u64], k_pt: usize) -> (r: Vec<i64>)
    requires
        k_pt < 64,
    ensures
        r@.len() == samples@.len(),
        forall|i: int| 0 <= i < samples@.len() ==> #[trigger] r@[i] == centred(
            samples@[i],
            pow2(k_pt as nat) as u64,
        ),
{
    let modulus: u64 = 1u64 << (k_pt as u64);
    proof {
        vstd::bits::lemma_u64_pow2_no_overflow(k_pt as nat);
        vstd::bits::lemma_u64_shl_is_mul(1u64, k_pt as u64);
        if k_pt < 63 {
            vstd::arithmetic::power2::lemma_pow2_strictly_increases(k_pt as nat, 63);
        }
        vstd::arithmetic::power2::lemma2_to64_rest();
    }
    assert(modulus == pow2(k_pt as nat));
    let mut r: Vec<i64> = Vec::new();
    let mut i: usize = 0;
    while i < samples.len()
        invariant
            i <= samples@.len(),
            modulus == pow2(k_pt as nat),
            0 < modulus <= pow2(63),
            pow2(63) == 0x8000000000000000,
            r@.len() == i,
            forall|j: int| 0 <= j < i ==> #[trigger] r@[j] == centred(samples@[j], modulus),
        decreases samples@.len() - i,
    {
        let v = samples[i];
        proof {
            assert(v % modulus < modulus);
        }
        r.push(uint_to_i64(v, modulus));
        i = i + 1;
    }
    r
}

/// The residue in `[0, modulus)` of the centred representative `v`.
pub open spec fn uncentred(v: int, modulus: u64) -> int {
    if v < 0 {
        modulus + v
    } else {
        v
    }
}

/// Maps a centred representative back to `[0, modulus)`: a negative `v`
/// becomes `modulus + v`.
pub fn i64_to_u64(v: i64, modulus: u64) -> (r: u64)
    requires
        v != i64::MIN,
        v < 0 ==> -v <= modulus,
    ensures
        r == uncentred(v as int, modulus),
{
    if v < 0 {
        modulus - ((-v) as u64)
    } else {
        v as u64
    }
}

/// The `k_pt`-bit wrap-around sum of `a` and `b`, sign-extended: both are
/// shifted up to the top `k_pt` bits of an `i64`, added with wrap-around and
/// shifted back down arithmetically.
pub open spec fn k_bit_sum(a: i64, b: i64, k_pt: nat) -> i64 {
    let s = (64 - k_pt) as u32;
    a.wrapping_shl(s).wrapping_add(b.wrapping_shl(s)).wrapping_shr(s)
}

/// Adds `a` and `b` element-wise as `k_pt`-bit signed numbers, into `o`.
pub fn add_vec_i64(o: &mut [i64], a: &[i64], b: &[i64], k_pt: usize)
    requires
        old(o)@.len() == a@.len(),
        b@.len() == a@.len(),
        k_pt <= 64,
    ensures
        final(o)@.len() == old(o)@.len(),
        forall|i: int| 0 <= i < a@.len() ==> #[trigger] final(o)@[i] == k_bit_sum(a@[i], b@[i], k_pt as nat),
{
    let s: u32 = 64 - k_pt as u32;
    let n = o.len();
    let mut i: usize = 0;
    while i < n
        invariant
            i <= n,
            n == o@.len(),
            o@.len() == a@.len(),
            b@.len() == a@.len(),
            s == 64 - k_pt,
            forall|j: int| 0 <= j < i ==> #[trigger] o@[j] == k_bit_sum(a@[j], b@[j], k_pt as nat),
        decreases n - i,
    {
        o[i] = a[i].wrapping_shl(s).wrapping_add(b[i].wrapping_shl(s)).wrapping_shr(s);
        i = i + 1;
    }
}

/// The distance between neighbouring slots of one ciphertext when
/// `2^log_batch` ciphertexts share `2^logn` coefficients:
/// `2^(logn - log_batch)`.
pub open spec fn slot_step(logn: u32, log_batch: u32) -> nat {
    pow2((logn - log_batch) as nat)
}

/// The sizes of a packing layout: `2^log_batch` groups of `slot_step`
/// coefficients make up the `2^logn` coefficients.
proof fn lemma_layout(logn: u32, log_batch: u32)
    requires
        log_batch <= logn < usize::BITS,
    ensures
        pow2(log_batch as nat) * slot_step(logn, log_batch) == pow2(logn as nat),
        pow2(logn as nat) < usize::MAX,
        slot_step(logn, log_batch) > 0,
        pow2(log_batch as nat) > 0,
        slot_step(logn, log_batch) <= pow2(logn as nat),
        pow2(log_batch as nat) <= pow2(logn as nat),
{
    vstd::arithmetic::power2::lemma_pow2_adds(log_batch as nat, (logn - log_batch) as nat);
    vstd::bits::lemma_usize_pow2_no_overflow(logn as nat);
    vstd::arithmetic::power2::lemma_pow2_pos(log_batch as nat);
    vstd::arithmetic::power2::lemma_pow2_pos((logn - log_batch) as nat);
    let a = pow2(log_batch as nat) as int;
    let b = slot_step(logn, log_batch) as int;
    assert(a * b >= b && a * b >= a) by (nonlinear_arith)
        requires
            a > 0,
            b > 0,
    ;
}

/// Position `c * step + q` (with `q < step`) is slot `q` of group `c`.
proof fn lemma_slot_position(p: int, step: int, c: int, q: int)
    requires
        step > 0,
        0 <= q < step,
        p == c * step + q,
    ensures
        p % step == q,
        p / step == c,
{
    vstd::arithmetic::div_mod::lemma_fundamental_div_mod_converse(p, step, c, q);
}

/// A position below `count * step` lies in a group below `count`.
proof fn lemma_group_bound(p: int, step: int, count: int)
    requires
        step > 0,
        0 <= p < count * step,
    ensures
        0 <= p / step < count,
        0 <= p % step < step,
        p == (p / step) * step + p % step,
{
    vstd::arithmetic::div_mod::lemma_fundamental_div_mod(p, step);
    let g = p / step;
    let r = p % step;
    assert(0 <= r < step);
    assert(0 <= g < count) by (nonlinear_arith)
        requires
            step > 0,
            0 <= p < count * step,
            p == step * g + r,
            0 <= r < step,
    ;
    assert(p == g * step + r) by (nonlinear_arith)
        requires
            p == step * g + r,
    ;
}

/// `2^logn`, `2^(logn - log_batch)` and `2^log_batch`.
fn layout_sizes(logn: u32, log_batch: u32) -> (res: (usize, usize, usize))
    requires
        log_batch <= logn < usize::BITS,
    ensures
        res.0 == pow2(logn as nat),
        res.1 == slot_step(logn, log_batch),
        res.2 == pow2(log_batch as nat),
{
    proof {
        lemma_layout(logn, log_batch);
        vstd::bits::lemma_usize_shl_is_mul(1usize, logn as usize);
        vstd::bits::lemma_usize_shl_is_mul(1usize, (logn - log_batch) as usize);
        vstd::bits::lemma_usize_shl_is_mul(1usize, log_batch as usize);
    }
    let n: usize = 1usize << (logn as usize);
    let step: usize = 1usize << ((logn - log_batch) as usize);
    let count: usize = 1usize << (log_batch as usize);
    (n, step, count)
}

/// `n` zeros.
fn zeros(n: usize) -> (r: Vec<i64>)
    ensures
        r@ == Seq::new(n as nat, |p: int| 0i64),
{
    let mut r: Vec<i64> = Vec::new();
    while r.len() < n
        invariant
            r.len() <= n,
            r@ == Seq::new(r.len() as nat, |p: int| 0i64),
        decreases n - r.len(),
    {
        r.push(0);
    }
    r
}

/// `2^k_pt` as a modulus.
fn modulus_of(k_pt: usize) -> (m: u64)
    requires
        k_pt < 64,
    ensures
        m == pow2(k_pt as nat),
        0 < m <= 0x8000000000000000u64,
{
    proof {
        vstd::bits::lemma_u64_pow2_no_overflow(k_pt as nat);
        vstd::bits::lemma_u64_shl_is_mul(1u64, k_pt as u64);
        if k_pt < 63 {
            vstd::arithmetic::power2::lemma_pow2_strictly_increases(k_pt as nat, 63);
        }
        vstd::arithmetic::power2::lemma2_to64_rest();
    }
    1u64 << (k_pt as u64)
}

/// The plaintext of ciphertext `i` in a packing of `2^log_batch`
/// ciphertexts into `2^logn` coefficients: `uint_to_i64(i, 2^k_pt)` at every
/// multiple of `2^(logn - log_batch)`, zero elsewhere.
pub fn batch_data(logn: u32, log_batch: u32, k_pt: usize, i: usize) -> (r: Vec<i64>)
    requires
        log_batch <= logn < usize::BITS,
        k_pt < 64,
    ensures
        r@.len() == pow2(logn as nat),
        forall|p: int|
            0 <= p < r@.len() ==> #[trigger] r@[p] == if p % (slot_step(logn, log_batch) as int) == 0 {
                centred(i as u64, pow2(k_pt as nat) as u64)
            } else {
                0
            },
{
    let (n, step, count) = layout_sizes(logn, log_batch);
    proof {
        lemma_layout(logn, log_batch);
    }
    let modulus = modulus_of(k_pt);
    let value = uint_to_i64(i as u64, modulus);
    let mut data = zeros(n);
    let mut c: usize = 0;
    while c < count
        invariant
            c <= count,
            n == pow2(logn as nat),
            step == slot_step(logn, log_batch),
            step > 0,
            count * step == n,
            value == centred(i as u64, modulus),
            data@.len() == n,
            forall|p: int|
                0 <= p < n ==> #[trigger] data@[p] == if p % (step as int) == 0 && p / (step as int) < c {
                    value
                } else {
                    0
                },
        decreases count - c,
    {
        let ghost t = c * step;
        assert(c * step + step <= count * step) by (nonlinear_arith)
            requires
                c < count,
        ;
        proof {
            lemma_slot_position(t, step as int, c as int, 0);
        }
        let ghost before = data@;
        data.set(c * step, value);
        assert forall|p: int| 0 <= p < n implies #[trigger] data@[p] == if p % (step as int) == 0 && p / (
        step as int) < c + 1 {
            value
        } else {
            0
        } by {
            if p != t {
                assert(data@[p] == before[p]);
                lemma_group_bound(p, step as int, count as int);
                if p % (step as int) == 0 && p / (step as int) == c {
                    assert(p == t);
                }
            }
        }
        c = c + 1;
    }
    proof {
        assert forall|p: int| 0 <= p < n implies #[trigger] data@[p] == if p % (step as int) == 0 {
            value
        } else {
            0
        } by {
            lemma_group_bound(p, step as int, count as int);
        }
    }
    data
}

/// The plaintext that packing the ciphertexts of `batch_data` gives: at
/// position `p`, the value of the ciphertext whose index is the bit reversal
/// of `p mod 2^(logn - log_batch)` over `logn - log_batch` bits.
pub fn packed_data(logn: u32, log_batch: u32, k_pt: usize) -> (r: Vec<i64>)
    requires
        log_batch < logn < usize::BITS,
        k_pt < 64,
    ensures
        r@.len() == pow2(logn as nat),
        forall|p: int|
            0 <= p < r@.len() ==> #[trigger] r@[p] == centred(
                bit_reverse((p % (slot_step(logn, log_batch) as int)) as usize, (logn - log_batch) as u32)
                    as u64,
                pow2(k_pt as nat) as u64,
            ),
{
    let (n, step, count) = layout_sizes(logn, log_batch);
    proof {
        lemma_layout(logn, log_batch);
    }
    let bits: u32 = logn - log_batch;
    let modulus = modulus_of(k_pt);
    let mut want = zeros(n);
    let ghost rev = |x: int| bit_reverse(x as usize, bits) as int;
    let mut i: usize = 0;
    while i < step
        invariant
            i <= step,
            1 <= bits < usize::BITS,
            bits == logn - log_batch,
            n == pow2(logn as nat),
            step == pow2(bits as nat),
            step > 0,
            count * step == n,
            modulus == pow2(k_pt as nat),
            0 < modulus <= 0x8000000000000000u64,
            rev == (|x: int| bit_reverse(x as usize, bits) as int),
            want@.len() == n,
            forall|p: int|
                0 <= p < n ==> #[trigger] want@[p] == if rev(p % (step as int)) < i {
                    centred(rev(p % (step as int)) as u64, modulus)
                } else {
                    0
                },
        decreases step - i,
    {
        let q = reverse_bits(i, bits);
        let value = uint_to_i64(i as u64, modulus);
        proof {
            vstd::bits::lemma_usize_shr_is_div(i, bits as usize);
            vstd::arithmetic::div_mod::lemma_basic_div(i as int, step as int);
            vstd::bits::lemma_usize_shr_is_div(q, bits as usize);
            vstd::arithmetic::div_mod::lemma_fundamental_div_mod(q as int, step as int);
            assert(q < step);
            lemma_bit_reverse_involution(i, bits);
            assert(rev(q as int) == i);
        }
        let mut c: usize = 0;
        while c < count
            invariant
                c <= count,
                i < step,
                q < step,
                1 <= bits < usize::BITS,
                n == pow2(logn as nat),
                step == pow2(bits as nat),
                step > 0,
                count * step == n,
                q == bit_reverse(i, bits),
                rev == (|x: int| bit_reverse(x as usize, bits) as int),
                rev(q as int) == i,
                value == centred(i as u64, modulus),
                want@.len() == n,
                forall|p: int|
                    0 <= p < n ==> #[trigger] want@[p] == if rev(p % (step as int)) < i || (rev(
                        p % (step as int),
                    ) == i && p / (step as int) < c) {
                        centred(rev(p % (step as int)) as u64, modulus)
                    } else {
                        0
                    },
            decreases count - c,
        {
            let ghost t = c * step + q;
            assert(c * step + step <= count * step) by (nonlinear_arith)
                requires
                    c < count,
            ;
            proof {
                lemma_slot_position(t, step as int, c as int, q as int);
            }
            let ghost before = want@;
            want.set(c * step + q, value);
            assert forall|p: int| 0 <= p < n implies #[trigger] want@[p] == if rev(p % (step as int)) < i
                || (rev(p % (step as int)) == i && p / (step as int) < c + 1) {
                centred(rev(p % (step as int)) as u64, modulus)
            } else {
                0
            } by {
                if p != t {
                    assert(want@[p] == before[p]);
                    lemma_group_bound(p, step as int, count as int);
                    let x = p % (step as int);
                    if rev(x) == i && p / (step as int) == c {
                        let xu = x as usize;
                        vstd::bits::lemma_usize_shr_is_div(xu, bits as usize);
                        vstd::arithmetic::div_mod::lemma_basic_div(x, step as int);
                        lemma_bit_reverse_involution(xu, bits);
                        assert(x == q);
                        assert(p == t);
                    }
                }
            }
            c = c + 1;
        }
        proof {
            assert forall|p: int| 0 <= p < n implies #[trigger] want@[p] == if rev(p % (step as int)) < i + 1 {
                centred(rev(p % (step as int)) as u64, modulus)
            } else {
                0
            } by {
                lemma_group_bound(p, step as int, count as int);
            }
        }
        i = i + 1;
    }
    proof {
        assert forall|p: int| 0 <= p < n implies #[trigger] want@[p] == centred(
            rev(p % (step as int)) as u64,
            modulus,
        ) by {
            lemma_group_bound(p, step as int, count as int);
            let xu = (p % (step as int)) as usize;
            lemma_bit_reverse(xu, bits);
            let rr = bit_reverse(xu, bits);
            vstd::bits::lemma_usize_shr_is_div(rr, bits as usize);
            vstd::arithmetic::div_mod::lemma_fundamental_div_mod(rr as int, step as int);
            assert(rr / step == 0);
            assert(rr < step);
            assert(rev(p % (step as int)) == rr);
        }
    }
    want
}

/// Reversing the lowest `bits` bits twice gives a value without higher
/// bits back: `reverse_bits(reverse_bits(v, bits), bits) == v`.
pub proof fn lemma_bit_reverse_involution(v: usize, bits: u32)
    requires
        1 <= bits <= usize::BITS,
        fits_bits(v, bits),
    ensures
        bit_reverse(bit_reverse(v, bits), bits) == v,
{
    let r1 = bit_reverse(v, bits);
    lemma_bit_reverse(v, bits);
    let r2 = bit_reverse(r1, bits);
    lemma_bit_reverse(r1, bits);
    assert forall|j: usize| j < bits implies #[trigger] bit_of(r2, j) == bit_of(v, j) by {
        let k = (bits - 1 - j) as usize;
        assert(bit_of(r2, j) == bit_of(r1, k));
        assert(bit_of(r1, k) == bit_of(v, (bits - 1 - k) as usize));
    }
    lemma_low_bits_determine(r2, v, bits);
}

/// Centring a residue and mapping it back gives the residue:
/// `i64_to_u64(uint_to_i64(v, m), m) == v % m`, and the centred value is
/// always one `i64_to_u64` accepts.
pub proof fn lemma_centre_round_trip(v: u64, modulus: u64)
    requires
        modulus > 0,
        v % modulus >= modulus / 2 ==> modulus - v % modulus <= i64::MAX,
    ensures
        uncentred(centred(v, modulus), modulus) == v % modulus,
        centred(v, modulus) != i64::MIN,
        centred(v, modulus) < 0 ==> -centred(v, modulus) <= modulus,
{
}

} // verus!

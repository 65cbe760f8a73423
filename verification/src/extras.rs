use vstd::prelude::*;
use vstd::arithmetic::power2::{pow2, lemma_pow2_strictly_increases, lemma2_to64};
use biodivine_lib_bdd::{Bdd, BddVariableSet};
use crate::bdd::{
    bdd_nodes, bdd_wf, bdd_eval, num_vars, var_set_names, var_set_new, bdd_and, bdd_or, bdd_xor, bdd_not, bdd_clone,
};
use crate::bits::{
    b2i, bits_value, carry, sum_bit, sum_bits, lemma_ripple_mod, int_bit, int_bits,
    lemma_int_bits_value, lemma_int_bit_high, lemma_bits_value_append,
};
use crate::circuit::{
    eval_all, all_wf, numbered, two_words, name_prefix, lemma_numbered_valid, numbered_names,
    mk_named_var, mk_false,
};
use crate::names::{indexed, indexed_name};
use crate::arithmetic::{even_bits, odd_bits, interleaved_operands, operand_read, ripple_adder};
use crate::circuit::{interleaved, lemma_indexed_names_valid};
use crate::bits::u32_bit;
use crate::bdd::strings_view;
use crate::circuit::lemma_two_words_valid;
use crate::updown::lemma_levelled_count_bound;
use crate::codegen::{codegen_circuits, convertible, generates, layout_fails, lemma_generates_mapped, lemma_names_in_order};
use crate::updown::alias_view;

verus! {

pub proof fn lemma_extras_prefixes()
    ensures
        name_prefix("rs"@),
        name_prefix("imm"@),
        name_prefix("pc"@),
        name_prefix("x_"@),
        "rs"@ != "imm"@,
        "pc"@ != "imm"@,
{
    reveal_strlit("rs");
    reveal_strlit("imm");
    reveal_strlit("pc");
    reveal_strlit("x_");
    assert("rs"@[0] != "imm"@[0]);
    assert("pc"@[0] != "imm"@[0]);
}

/// The first `n` entries of the assignment `v`.
pub open spec fn low_word(v: Seq<bool>, n: nat) -> Seq<bool> {
    Seq::new(n, |k: int| v[k])
}

/// `n` numbered variables `p0, ..., p{n-1}`, and the diagrams of the
/// first `m` of them.
fn numbered_operand(p: &str, n: usize, m: usize) -> (r: (Vec<Bdd>, BddVariableSet))
    requires
        m <= n < u16::MAX - 1,
        name_prefix(p@),
    ensures
        var_set_names(r.1) == numbered(p@, n as nat),
        r.0.len() == m,
        all_wf(r.0@, n as nat),
        forall|k: int, v: Seq<bool>| 0 <= k < m ==> #[trigger] bdd_eval(r.0@[k], v) == v[k],
        forall|k: int| 0 <= k < m ==> #[trigger] bdd_nodes(r.0@[k]).len() == 3,
{
    let vars_arr = numbered_names(p, n);
    proof {
        lemma_numbered_valid(p@, n as nat);
        assert(vars_arr@.map_values(|s: String| s@).len() == vars_arr.len());
    }
    let vars = var_set_new(&vars_arr);
    let mut out: Vec<Bdd> = Vec::new();
    let mut i: usize = 0;
    while i < m
        invariant
            i <= m <= n < u16::MAX - 1,
            name_prefix(p@),
            var_set_names(vars) == numbered(p@, n as nat),
            out.len() == i,
            all_wf(out@, n as nat),
            forall|k: int, v: Seq<bool>| 0 <= k < i ==> #[trigger] bdd_eval(out@[k], v) == v[k],
            forall|k: int| 0 <= k < i ==> #[trigger] bdd_nodes(out@[k]).len() == 3,
        decreases m - i,
    {
        proof {
            lemma_numbered_valid(p@, n as nat);
        }
        let name = indexed_name(p, i);
        out.push(mk_named_var(&vars, name.as_str(), Ghost(i as int)));
        i = i + 1;
    }
    (out, vars)
}

/// The evaluation order of the identity circuit's inputs: `x_0, ..., x_{bits-1}`.
pub fn identity_input_order(bits: usize) -> (r: Vec<String>)
    ensures
        r@.map_values(|s: String| s@) == numbered("x_"@, bits as nat),
{
    numbered_names("x_", bits)
}

/// The identity on a 32-bit word over the variables `x_0, ..., x_{bits-1}`:
/// output `k` is `x_k`.
pub fn identity(bits: usize) -> (res: (Vec<Bdd>, BddVariableSet))
    requires
        32 <= bits < u16::MAX - 1,
    ensures
        var_set_names(res.1) == numbered("x_"@, bits as nat),
        res.0.len() == 32,
        all_wf(res.0@, bits as nat),
        forall|k: int, v: Seq<bool>| 0 <= k < 32 ==> #[trigger] bdd_eval(res.0@[k], v) == v[k],
        forall|v: Seq<bool>| #[trigger] bits_value(eval_all(res.0@, v)) == bits_value(low_word(v, 32)),
        forall|k: int| 0 <= k < 32 ==> #[trigger] bdd_nodes(res.0@[k]).len() == 3,
{
    proof {
        lemma_extras_prefixes();
    }
    let (out, vars) = numbered_operand("x_", bits, 32);
    proof {
        assert forall|v: Seq<bool>| #[trigger] bits_value(eval_all(out@, v)) == bits_value(
            low_word(v, 32),
        ) by {
            assert(eval_all(out@, v) =~= low_word(v, 32));
        }
    }
    (out, vars)
}

/// The evaluation order of the program-counter increment's inputs:
/// `pc0, ..., pc31`.
pub fn jalr_input_order() -> (r: Vec<String>)
    ensures
        r@.map_values(|s: String| s@) == numbered("pc"@, 32),
{
    numbered_names("pc", 32)
}

pub proof fn lemma_bits_of_four(k: nat)
    requires
        k < 32,
    ensures
        int_bit(4, k) == (k == 2),
{
    lemma2_to64();
    if k == 0 {
        assert(int_bit(4, 0) == ((4int / 1) % 2 == 1));
    } else if k == 1 {
        assert(int_bit(4, 1) == ((4int / 2) % 2 == 1));
    } else if k == 2 {
        assert(int_bit(4, 2) == ((4int / 4) % 2 == 1));
    } else {
        if k > 3 {
            lemma_pow2_strictly_increases(3, k);
        }
        assert(4 < pow2(k));
        lemma_int_bit_high(4, k);
    }
}

/// The increment `pc + 4` of a 32-bit program counter over the variables
/// `pc0, ..., pc31`.
pub fn jalr() -> (res: (Vec<Bdd>, BddVariableSet))
    ensures
        var_set_names(res.1) == numbered("pc"@, 32),
        res.0.len() == 32,
        all_wf(res.0@, 32),
        forall|v: Seq<bool>|
            #[trigger] bits_value(eval_all(res.0@, v)) == (bits_value(low_word(v, 32)) + 4) % (pow2(
                32,
            ) as int),
{
    proof {
        lemma_extras_prefixes();
    }
    let (pc, vars) = numbered_operand("pc", 32, 32);
    let ghost four = int_bits(4, 32);
    let ghost pcs = |v: Seq<bool>| low_word(v, 32);
    proof {
        assert forall|k: int| 0 <= k < 32 implies #[trigger] four[k] == (k == 2) by {
            lemma_bits_of_four(k as nat);
        }
    }

    // PC + 4
    let mut out: Vec<Bdd> = Vec::new();
    out.push(bdd_clone(&pc[0]));
    out.push(bdd_clone(&pc[1]));
    out.push(bdd_not(&pc[2]));
    let mut c = bdd_clone(&pc[2]);
    proof {
        assert(!four[0] && !four[1] && four[2]);
        assert forall|v: Seq<bool>| #[trigger] bdd_eval(c, v) == carry(pcs(v), four, false, 3) by {
            assert(pcs(v)[0] == v[0] && pcs(v)[1] == v[1] && pcs(v)[2] == v[2]);
            assert(bdd_eval(pc@[2], v) == v[2]);
            assert(carry(pcs(v), four, false, 0) == false);
            assert(carry(pcs(v), four, false, 1) == false);
            assert(carry(pcs(v), four, false, 2) == false);
        }
        assert forall|k: int, v: Seq<bool>| 0 <= k < 3 implies #[trigger] bdd_eval(out@[k], v)
            == sum_bit(pcs(v), four, false, k as nat) by {
            assert(pcs(v)[0] == v[0] && pcs(v)[1] == v[1] && pcs(v)[2] == v[2]);
            assert(bdd_eval(pc@[0], v) == v[0]);
            assert(bdd_eval(pc@[1], v) == v[1]);
            assert(bdd_eval(pc@[2], v) == v[2]);
            assert(carry(pcs(v), four, false, 0) == false);
            assert(carry(pcs(v), four, false, 1) == false);
            assert(carry(pcs(v), four, false, 2) == false);
        }
    }
    let mut i: usize = 3;
    while i < 32
        invariant
            3 <= i <= 32,
            pc.len() == 32,
            all_wf(pc@, 32),
            forall|k: int, v: Seq<bool>| 0 <= k < 32 ==> #[trigger] bdd_eval(pc@[k], v) == v[k],
            pcs == (|v: Seq<bool>| low_word(v, 32)),
            four == int_bits(4, 32),
            forall|k: int| 0 <= k < 32 ==> #[trigger] four[k] == (k == 2),
            out.len() == i,
            all_wf(out@, 32),
            bdd_wf(c),
            num_vars(c) == 32,
            forall|k: int, v: Seq<bool>|
                0 <= k < i ==> #[trigger] bdd_eval(out@[k], v) == sum_bit(pcs(v), four, false, k as nat),
            forall|v: Seq<bool>| #[trigger] bdd_eval(c, v) == carry(pcs(v), four, false, i as nat),
        decreases 32 - i,
    {
        // full adder with a zero bit
        let s = bdd_xor(&pc[i], &c);
        let c2 = bdd_and(&pc[i], &c);
        let ghost old_out = out@;
        out.push(s);
        proof {
            assert(!four[i as int]);
            assert forall|k: int, v: Seq<bool>| 0 <= k < i + 1 implies #[trigger] bdd_eval(out@[k], v)
                == sum_bit(pcs(v), four, false, k as nat) by {
                if k < i {
                    assert(out@[k] == old_out[k]);
                }
            }
        }
        c = c2;
        i = i + 1;
    }
    proof {
        assert forall|v: Seq<bool>| #[trigger] bits_value(eval_all(out@, v)) == (bits_value(
            low_word(v, 32),
        ) + 4) % (pow2(32) as int) by {
            let x = pcs(v);
            assert(eval_all(out@, v) =~= sum_bits(x, four, false, 32));
            lemma_ripple_mod(x, four, false, 32);
            assert(x.take(32) =~= x);
            assert(four.take(32) =~= four);
            lemma_int_bits_value(4, 32);
            lemma2_to64();
        }
    }
    (out, vars)
}

/// The evaluation order of the upper-immediate load's inputs:
/// `imm0, ..., imm31`.
pub fn lui_input_order() -> (r: Vec<String>)
    ensures
        r@.map_values(|s: String| s@) == numbered("imm"@, 32),
{
    numbered_names("imm", 32)
}

proof fn lemma_zeros_value(n: nat)
    ensures
        bits_value(Seq::new(n, |k: int| false)) == 0,
    decreases n,
{
    if n > 0 {
        assert(Seq::new(n, |k: int| false).drop_last() =~= Seq::new((n - 1) as nat, |k: int| false));
        lemma_zeros_value((n - 1) as nat);
    }
}

/// The upper-immediate load `imm << 12` of a 20-bit immediate over the
/// variables `imm0, ..., imm19`.
pub fn lui() -> (res: (Vec<Bdd>, BddVariableSet))
    ensures
        var_set_names(res.1) == numbered("imm"@, 20),
        res.0.len() == 32,
        all_wf(res.0@, 20),
        forall|v: Seq<bool>|
            #[trigger] bits_value(eval_all(res.0@, v)) == pow2(12) * bits_value(low_word(v, 20)),
        forall|k: int| 0 <= k < 32 ==> #[trigger] bdd_nodes(res.0@[k]).len() == if k < 12 {
            1nat
        } else {
            3nat
        },
{
    proof {
        lemma_extras_prefixes();
    }
    let (imm, vars) = numbered_operand("imm", 20, 20);

    // first 12 bits are zero
    let mut out: Vec<Bdd> = Vec::new();
    let mut i: usize = 0;
    while i < 12
        invariant
            i <= 12,
            var_set_names(vars) == numbered("imm"@, 20),
            out.len() == i,
            all_wf(out@, 20),
            forall|k: int, v: Seq<bool>| 0 <= k < i ==> !#[trigger] bdd_eval(out@[k], v),
            forall|k: int| 0 <= k < i ==> #[trigger] bdd_nodes(out@[k]).len() == 1,
        decreases 12 - i,
    {
        out.push(mk_false(&vars));
        i = i + 1;
    }
    // copy over imm[0..20]
    while i < 32
        invariant
            12 <= i <= 32,
            imm.len() == 20,
            all_wf(imm@, 20),
            forall|k: int, v: Seq<bool>| 0 <= k < 20 ==> #[trigger] bdd_eval(imm@[k], v) == v[k],
            out.len() == i,
            all_wf(out@, 20),
            forall|k: int, v: Seq<bool>| 0 <= k < 12 ==> !#[trigger] bdd_eval(out@[k], v),
            forall|k: int, v: Seq<bool>| 12 <= k < i ==> #[trigger] bdd_eval(out@[k], v) == v[k - 12],
            forall|k: int| 0 <= k < 20 ==> #[trigger] bdd_nodes(imm@[k]).len() == 3,
            forall|k: int| 0 <= k < i ==> #[trigger] bdd_nodes(out@[k]).len() == if k < 12 {
                1nat
            } else {
                3nat
            },
        decreases 32 - i,
    {
        let ghost old_out = out@;
        out.push(bdd_clone(&imm[i - 12]));
        proof {
            assert forall|k: int, v: Seq<bool>| 12 <= k < i + 1 implies #[trigger] bdd_eval(out@[k], v) == v[k - 12] by {
                if k < i {
                    assert(out@[k] == old_out[k]);
                } else {
                    assert(bdd_eval(imm@[k - 12], v) == v[k - 12]);
                }
            }
            assert forall|k: int, v: Seq<bool>| 0 <= k < 12 implies !#[trigger] bdd_eval(out@[k], v) by {
                assert(out@[k] == old_out[k]);
            }
        }
        i = i + 1;
    }
    proof {
        assert forall|v: Seq<bool>| #[trigger] bits_value(eval_all(out@, v)) == pow2(12)
            * bits_value(low_word(v, 20)) by {
            let zeros = Seq::new(12, |k: int| false);
            assert(eval_all(out@, v) =~= zeros + low_word(v, 20));
            lemma_bits_value_append(zeros, low_word(v, 20));
            lemma_zeros_value(12);
        }
    }
    (out, vars)
}

/// The evaluation order of the address-offset circuit's inputs:
/// `rs0, ..., rs31, imm0, ..., imm31`.
pub fn ram_offset_input_order() -> (r: Vec<String>)
    ensures
        r@.map_values(|s: String| s@) == two_words("rs"@, "imm"@, 32),
{
    let bits: usize = 32;
    let mut r = numbered_names("rs", bits);
    let mut ri = numbered_names("imm", bits);
    let ghost r0 = r@;
    let ghost ri0 = ri@;
    r.append(&mut ri);
    proof {
        assert(r@ == r0 + ri0);
        assert(r@.map_values(|s: String| s@) =~= r0.map_values(|s: String| s@) + ri0.map_values(
            |s: String| s@,
        ));
    }
    r
}

/// The address `rs + imm - ram_offset` (wrapping) of two 32-bit words over the
/// interleaved variables `rs0, imm0, ..., rs31, imm31`, for a constant
/// offset.
pub fn ram_address_offset(ram_offset: u32) -> (res: (Vec<Bdd>, BddVariableSet))
    ensures
        var_set_names(res.1) == interleaved("rs"@, "imm"@, 32),
        res.0.len() == 32,
        all_wf(res.0@, 64),
        forall|v: Seq<bool>|
            #[trigger] bits_value(eval_all(res.0@, v)) == (bits_value(even_bits(v, 32)) + bits_value(
                odd_bits(v, 32),
            ) - ram_offset) % (pow2(32) as int),
{
    let neg: u32 = if ram_offset == 0 {
        0
    } else {
        u32::MAX - ram_offset + 1
    };
    let mut neg_ram_offset: Vec<bool> = Vec::new();
    let mut i: u32 = 0;
    while i < 32
        invariant
            i <= 32,
            neg_ram_offset@ =~= int_bits(neg as int, i as nat),
        decreases 32 - i,
    {
        neg_ram_offset.push(u32_bit(neg, i));
        i = i + 1;
    }
    proof {
        lemma_extras_prefixes();
    }
    let (a, b, vars) = interleaved_operands("rs", "imm", 32);

    // rs + imm
    let mut out = ripple_adder(&a, &b, 32);
    let ghost first = out@;
    let ghost ks = int_bits(neg as int, 32);
    let ghost ss = |v: Seq<bool>| eval_all(first, v);

    // (rs + imm) - ram_offset, as the addition of the constant -ram_offset
    let mut c = mk_false(&vars);
    if neg_ram_offset[0] {
        c = bdd_clone(&out[0]);
        let n0 = bdd_not(&out[0]);
        out.set(0, n0);
    }
    proof {
        assert(carry(ss(v0()), ks, false, 0) == false);
        assert forall|v: Seq<bool>| #[trigger] bdd_eval(c, v) == carry(ss(v), ks, false, 1) by {
            assert(carry(ss(v), ks, false, 0) == false);
            assert(ss(v)[0] == bdd_eval(first[0], v));
        }
        assert forall|k: int, v: Seq<bool>| 0 <= k < 1 implies #[trigger] bdd_eval(out@[k], v)
            == sum_bit(ss(v), ks, false, k as nat) by {
            assert(carry(ss(v), ks, false, 0) == false);
            assert(ss(v)[0] == bdd_eval(first[0], v));
        }
    }
    let mut i: usize = 1;
    while i < 32
        invariant
            1 <= i <= 32,
            out.len() == 32,
            first.len() == 32,
            neg_ram_offset@ == ks,
            ks == int_bits(neg as int, 32),
            ss == (|v: Seq<bool>| eval_all(first, v)),
            all_wf(first, 64),
            all_wf(out@, 64),
            forall|k: int| i <= k < 32 ==> #[trigger] out@[k] == first[k],
            bdd_wf(c),
            num_vars(c) == 64,
            forall|k: int, v: Seq<bool>|
                0 <= k < i ==> #[trigger] bdd_eval(out@[k], v) == sum_bit(ss(v), ks, false, k as nat),
            forall|v: Seq<bool>| #[trigger] bdd_eval(c, v) == carry(ss(v), ks, false, i as nat),
        decreases 32 - i,
    {
        let ghost old_out = out@;
        let tmp = bdd_clone(&out[i]);
        let (s, c2) = if neg_ram_offset[i] {
            // full adder with a one bit
            let s = bdd_xor(&bdd_not(&tmp), &c);
            let c2 = bdd_or(&tmp, &bdd_and(&bdd_not(&tmp), &c));
            (s, c2)
        } else {
            // full adder with a zero bit
            let s = bdd_xor(&tmp, &c);
            let c2 = bdd_and(&tmp, &c);
            (s, c2)
        };
        out.set(i, s);
        proof {
            assert forall|v: Seq<bool>| #[trigger] bdd_eval(c2, v) == carry(ss(v), ks, false, (i + 1) as nat) by {
                assert(ss(v)[i as int] == bdd_eval(first[i as int], v));
            }
            assert forall|k: int, v: Seq<bool>| 0 <= k < i + 1 implies #[trigger] bdd_eval(out@[k], v)
                == sum_bit(ss(v), ks, false, k as nat) by {
                if k < i {
                    assert(out@[k] == old_out[k]);
                } else {
                    assert(ss(v)[i as int] == bdd_eval(first[i as int], v));
                }
            }
            assert forall|k: int| i + 1 <= k < 32 implies #[trigger] out@[k] == first[k] by {
                assert(out@[k] == old_out[k]);
            }
            assert forall|k: int| 0 <= k < out@.len() implies bdd_wf(#[trigger] out@[k]) && num_vars(out@[k]) == 64 by {
                if k != i {
                    assert(out@[k] == old_out[k]);
                }
            }
        }
        c = c2;
        i = i + 1;
    }
    proof {
        lemma_int_bits_value(neg as int, 32);
        lemma2_to64();
        assert forall|v: Seq<bool>| #[trigger] bits_value(eval_all(out@, v)) == (bits_value(
            even_bits(v, 32),
        ) + bits_value(odd_bits(v, 32)) - ram_offset) % (pow2(32) as int) by {
            let x = ss(v);
            let m = pow2(32) as int;
            assert(eval_all(out@, v) =~= sum_bits(x, ks, false, 32));
            lemma_ripple_mod(x, ks, false, 32);
            assert(x.take(32) =~= x);
            assert(ks.take(32) =~= ks);
            assert(eval_all(a@.take(32), v) =~= even_bits(v, 32));
            assert(eval_all(b@.take(32), v) =~= odd_bits(v, 32));
            let t = bits_value(even_bits(v, 32)) + bits_value(odd_bits(v, 32));
            assert(bits_value(x) == t % m);
            assert(bits_value(ks) == neg);
            vstd::arithmetic::div_mod::lemma_add_mod_noop(t, neg as int, m);
            assert(neg as int % m == neg);
            if ram_offset == 0 {
                assert(t + neg == t - ram_offset);
            } else {
                assert(t + neg == m + (t - ram_offset));
                vstd::arithmetic::div_mod::lemma_mod_add_multiples_vanish(t - ram_offset, m);
            }
        }
    }
    (out, vars)
}

spec fn v0() -> Seq<bool> {
    Seq::empty()
}

/// The variable names of the upper-immediate add: `pc12, imm0, pc13, imm1,
/// ..., pc31, imm19`, then `pc0, ..., pc11`.
pub open spec fn aiupc_var_names() -> Seq<Seq<char>> {
    Seq::new(
        40,
        |j: int|
            if j % 2 == 0 {
                indexed("pc"@, (12 + j / 2) as nat)
            } else {
                indexed("imm"@, (j / 2) as nat)
            },
    ) + numbered("pc"@, 12)
}

/// The variable holding bit `i` of the program counter in the
/// upper-immediate add.
pub open spec fn aiupc_pc_index(i: int) -> int {
    if i < 12 {
        40 + i
    } else {
        2 * (i - 12)
    }
}

/// The program counter read from an assignment of the upper-immediate add.
pub open spec fn aiupc_pc_bits(v: Seq<bool>) -> Seq<bool> {
    Seq::new(32, |i: int| v[aiupc_pc_index(i)])
}

/// The 20-bit immediate read from an assignment of the upper-immediate add.
pub open spec fn aiupc_imm_bits(v: Seq<bool>) -> Seq<bool> {
    Seq::new(20, |k: int| v[2 * k + 1])
}

/// The evaluation order of the upper-immediate add's inputs:
/// `pc0, ..., pc31, imm0, ..., imm31`.
pub fn aiupc_input_order() -> (r: Vec<String>)
    ensures
        r@.map_values(|s: String| s@) == two_words("pc"@, "imm"@, 32),
{
    let bits: usize = 32;
    let mut r = numbered_names("pc", bits);
    let mut ri = numbered_names("imm", bits);
    let ghost r0 = r@;
    let ghost ri0 = ri@;
    r.append(&mut ri);
    proof {
        assert(r@ == r0 + ri0);
        assert(r@.map_values(|s: String| s@) =~= r0.map_values(|s: String| s@) + ri0.map_values(
            |s: String| s@,
        ));
    }
    r
}

fn aiupc_names() -> (r: Vec<String>)
    ensures
        r@.map_values(|s: String| s@) == aiupc_var_names(),
{
    let mut r: Vec<String> = Vec::new();
    let mut i: usize = 12;
    while i < 32
        invariant
            12 <= i <= 32,
            r@.len() == 2 * (i - 12),
            forall|j: int| 0 <= j < r@.len() ==> #[trigger] r@[j]@ == aiupc_var_names()[j],
        decreases 32 - i,
    {
        let ghost old_r = r@;
        r.push(indexed_name("pc", i));
        r.push(indexed_name("imm", i - 12));
        proof {
            assert forall|j: int| 0 <= j < r@.len() implies #[trigger] r@[j]@ == aiupc_var_names()[j] by {
                if j < old_r.len() {
                    assert(r@[j] == old_r[j]);
                } else if j == old_r.len() {
                    assert(j % 2 == 0 && j / 2 == i - 12);
                } else {
                    assert(j % 2 == 1 && j / 2 == i - 12);
                }
            }
        }
        i = i + 1;
    }
    let mut i: usize = 0;
    while i < 12
        invariant
            0 <= i <= 12,
            r@.len() == 40 + i,
            forall|j: int| 0 <= j < r@.len() ==> #[trigger] r@[j]@ == aiupc_var_names()[j],
        decreases 12 - i,
    {
        let ghost old_r = r@;
        r.push(indexed_name("pc", i));
        proof {
            assert forall|j: int| 0 <= j < r@.len() implies #[trigger] r@[j]@ == aiupc_var_names()[j] by {
                if j < old_r.len() {
                    assert(r@[j] == old_r[j]);
                }
            }
        }
        i = i + 1;
    }
    proof {
        assert(r@.map_values(|s: String| s@) =~= aiupc_var_names());
    }
    r
}

proof fn lemma_aiupc_names_valid()
    ensures
        crate::names::valid_var_names(aiupc_var_names()),
{
    lemma_extras_prefixes();
    let names = aiupc_var_names();
    let pf = |j: int| if j < 40 && j % 2 == 1 { "imm"@ } else { "pc"@ };
    let ix = |j: int|
        if j < 40 {
            if j % 2 == 0 {
                (12 + j / 2) as nat
            } else {
                (j / 2) as nat
            }
        } else {
            (j - 40) as nat
        };
    assert forall|j: int|
        #![trigger names[j]]
        0 <= j < names.len() implies names[j] == indexed(pf(j), ix(j)) && name_prefix(pf(j)) by {
        if j >= 40 {
            assert(names[j] == numbered("pc"@, 12)[j - 40]);
        }
    }
    lemma_indexed_names_valid(names, pf, ix);
}

/// The upper-immediate add `pc + (imm << 12)` (wrapping) of a 32-bit program
/// counter and a 20-bit immediate over the variables of `aiupc_var_names`.
pub fn aiupc() -> (res: (Vec<Bdd>, BddVariableSet))
    ensures
        var_set_names(res.1) == aiupc_var_names(),
        res.0.len() == 32,
        all_wf(res.0@, 52),
        forall|v: Seq<bool>|
            #[trigger] bits_value(eval_all(res.0@, v)) == (bits_value(aiupc_pc_bits(v)) + pow2(12)
                * bits_value(aiupc_imm_bits(v))) % (pow2(32) as int),
{
    let vars_arr = aiupc_names();
    proof {
        lemma_aiupc_names_valid();
        assert(vars_arr@.map_values(|s: String| s@).len() == vars_arr.len());
    }
    let vars = var_set_new(&vars_arr);
    let mut pc: Vec<Bdd> = Vec::new();
    let mut imm: Vec<Bdd> = Vec::new();
    let mut i: usize = 0;
    while i < 32
        invariant
            i <= 32,
            var_set_names(vars) == aiupc_var_names(),
            pc.len() == i,
            imm.len() == if i < 20 { i } else { 20 },
            all_wf(pc@, 52),
            all_wf(imm@, 52),
            forall|k: int, v: Seq<bool>|
                0 <= k < i ==> #[trigger] bdd_eval(pc@[k], v) == v[aiupc_pc_index(k)],
            forall|k: int, v: Seq<bool>|
                0 <= k < imm.len() ==> #[trigger] bdd_eval(imm@[k], v) == v[2 * k + 1],
        decreases 32 - i,
    {
        proof {
            lemma_aiupc_names_valid();
            if i >= 12 {
                let j = 2 * (i - 12);
                assert(j % 2 == 0 && j / 2 == i - 12);
            } else {
                assert(aiupc_var_names()[40 + i] == numbered("pc"@, 12)[i as int]);
            }
            if i < 20 {
                let j = 2 * i + 1;
                assert(j % 2 == 1 && j / 2 == i);
            }
        }
        let name = indexed_name("pc", i);
        pc.push(mk_named_var(&vars, name.as_str(), Ghost(aiupc_pc_index(i as int))));
        if i < 20 {
            let name = indexed_name("imm", i);
            imm.push(mk_named_var(&vars, name.as_str(), Ghost((2 * i + 1) as int)));
        }
        i = i + 1;
    }

    // Copy over LSB 12 bits of PC
    let mut out: Vec<Bdd> = Vec::new();
    let mut i: usize = 0;
    while i < 12
        invariant
            i <= 12,
            pc.len() == 32,
            all_wf(pc@, 52),
            out.len() == i,
            all_wf(out@, 52),
            forall|k: int| 0 <= k < i ==> #[trigger] crate::bdd::bdd_nodes(out@[k]) == crate::bdd::bdd_nodes(pc@[k]),
            imm.len() == 20,
            all_wf(imm@, 52),
            forall|k: int, v: Seq<bool>|
                0 <= k < 32 ==> #[trigger] bdd_eval(pc@[k], v) == v[aiupc_pc_index(k)],
            forall|k: int, v: Seq<bool>|
                0 <= k < 20 ==> #[trigger] bdd_eval(imm@[k], v) == v[2 * k + 1],
        decreases 12 - i,
    {
        out.push(bdd_clone(&pc[i]));
        i = i + 1;
    }
    let mut pc_hi: Vec<Bdd> = Vec::new();
    let mut i: usize = 12;
    while i < 32
        invariant
            12 <= i <= 32,
            pc.len() == 32,
            all_wf(pc@, 52),
            pc_hi.len() == i - 12,
            all_wf(pc_hi@, 52),
            forall|k: int| 0 <= k < i - 12 ==> #[trigger] crate::bdd::bdd_nodes(pc_hi@[k]) == crate::bdd::bdd_nodes(pc@[k + 12]),
            imm.len() == 20,
            all_wf(imm@, 52),
            forall|k: int, v: Seq<bool>|
                0 <= k < 32 ==> #[trigger] bdd_eval(pc@[k], v) == v[aiupc_pc_index(k)],
            forall|k: int, v: Seq<bool>|
                0 <= k < 20 ==> #[trigger] bdd_eval(imm@[k], v) == v[2 * k + 1],
        decreases 32 - i,
    {
        pc_hi.push(bdd_clone(&pc[i]));
        i = i + 1;
    }

    // pc[12..32] + imm, starting with a half adder at position 12
    let mut hi = ripple_adder(&pc_hi, &imm, 20);
    let ghost lo_part = out@;
    let ghost hi_part = hi@;
    out.append(&mut hi);
    proof {
        lemma2_to64();
        assert forall|v: Seq<bool>| #[trigger] bits_value(eval_all(out@, v)) == (bits_value(
            aiupc_pc_bits(v),
        ) + pow2(12) * bits_value(aiupc_imm_bits(v))) % (pow2(32) as int) by {
            let p = aiupc_pc_bits(v);
            let lo = p.subrange(0, 12);
            let hp = p.subrange(12, 32);
            let im = aiupc_imm_bits(v);
            assert(out@ == lo_part + hi_part);
            assert(eval_all(out@, v) =~= eval_all(lo_part, v) + eval_all(hi_part, v));
            assert forall|k: int| 0 <= k < 12 implies eval_all(lo_part, v)[k] == lo[k] by {
                assert(bdd_eval(lo_part[k], v) == bdd_eval(pc@[k], v));
            }
            assert(eval_all(lo_part, v) =~= lo);
            assert forall|k: int| 0 <= k < 20 implies eval_all(pc_hi@.take(20), v)[k] == hp[k] by {
                assert(bdd_eval(pc_hi@[k], v) == bdd_eval(pc@[k + 12], v));
            }
            assert(eval_all(pc_hi@.take(20), v) =~= hp);
            assert(eval_all(imm@.take(20), v) =~= im);
            assert(p =~= lo + hp);
            lemma_bits_value_append(lo, hp);
            lemma_bits_value_append(eval_all(lo_part, v), eval_all(hi_part, v));
            crate::bits::lemma_bits_value_bounds(lo);
            vstd::arithmetic::power2::lemma_pow2_adds(12, 20);
            crate::bits::lemma_mod_shifted_sum(
                bits_value(lo),
                pow2(12) as int,
                bits_value(hp),
                bits_value(im),
                pow2(20) as int,
            );
        }
    }
    (out, vars)
}

/// Variable `i` of the first `k` variables reads input `i`.
pub open spec fn direct_read(k: nat) -> Seq<int> {
    Seq::new(k, |i: int| i)
}

/// How the variables of the upper-immediate add read the inputs
/// `pc0, ..., pc31, imm0, ..., imm31`: the 40 interleaved variables
/// `pc12, imm0, pc13, imm1, ...` read inputs `12 + j / 2` and `32 + j / 2`,
/// and the last 12 variables `pc0, ..., pc11` read inputs 0 to 11.
pub open spec fn aiupc_read() -> Seq<int> {
    Seq::new(52, |j: int| if j < 40 { if j % 2 == 0 { 12 + j / 2 } else { 32 + j / 2 } } else { j - 40 })
}

/// What the generated identity circuit computes: the first 32 inputs.
pub open spec fn identity_of_inputs() -> spec_fn(Seq<bool>) -> int {
    |inputs: Seq<bool>| bits_value(inputs.take(32))
}

/// The source of the identity on the first 32 of `bits` inputs
/// `x_0, ..., x_{bits-1}`; `None` when one of its diagrams is too large to
/// lay out.
pub fn codegen_identity(bits: usize) -> (r: Option<String>)
    requires
        32 <= bits < u16::MAX - 1,
    ensures
        r matches Some(t) ==> generates(t@, bits as nat, 32, identity_of_inputs()),
        r is None ==> layout_fails(direct_read(bits as nat), bits as nat, 32, identity_of_inputs()),
        r is Some,
{
    let (bdds, vars) = identity(bits);
    let input_order = identity_input_order(bits);
    let ghost names = var_set_names(vars);
    let ghost order = strings_view(input_order@);
    let ghost map = |i: int| i;
    proof {
        lemma_extras_prefixes();
        lemma_numbered_valid("x_"@, bits as nat);
        lemma_names_in_order(names, order, map);
        assert(alias_view(None) == Seq::<(Seq<char>, Seq<char>)>::empty());
    }
    proof {
        assert forall|k: int| 0 <= k < bdds@.len() implies convertible(#[trigger] bdds@[k]) by {
            assert(bdd_nodes(bdds@[k]).len() <= 3);
            assert(bdd_wf(bdds@[k]));
            lemma_levelled_count_bound(bdd_nodes(bdds@[k]));
            let s = bdd_nodes(bdds@[k]).len();
            assert(s * s <= 9) by (nonlinear_arith)
                requires
                    s <= 3,
            ;
        }
    }
    let r = codegen_circuits(&bdds, &vars, &input_order, None);
    proof {
        {
            let g = |v: Seq<bool>| bits_value(low_word(v, 32));
            assert forall|inputs: Seq<bool>| inputs.len() == order.len() implies #[trigger] identity_of_inputs()(inputs)
                == g(Seq::new(names.len(), |i: int| inputs[map(i)])) by {
                assert(low_word(Seq::new(names.len(), |i: int| inputs[map(i)]), 32) =~= inputs.take(32));
            }
            lemma_generates_mapped(r, bdds@, names, order, map, g, identity_of_inputs());
            assert(Seq::new(names.len(), map) =~= direct_read(bits as nat));
        }
    }
    r
}

/// What the generated `pc + 4` circuit computes from `pc0, ..., pc31`.
pub open spec fn jalr_of_inputs() -> spec_fn(Seq<bool>) -> int {
    |inputs: Seq<bool>| (bits_value(inputs.take(32)) + 4) % (pow2(32) as int)
}

/// The source of `pc + 4` on the inputs `pc0, ..., pc31`; `None` when one
/// of its diagrams is too large to lay out.
pub fn codegen_jalr() -> (r: Option<String>)
    ensures
        r matches Some(t) ==> generates(t@, 32, 32, jalr_of_inputs()),
        r is None ==> layout_fails(direct_read(32), 32, 32, jalr_of_inputs()),
{
    let (bdds, vars) = jalr();
    let input_order = jalr_input_order();
    let ghost names = var_set_names(vars);
    let ghost order = strings_view(input_order@);
    let ghost map = |i: int| i;
    proof {
        lemma_extras_prefixes();
        lemma_numbered_valid("pc"@, 32);
        lemma_names_in_order(names, order, map);
        assert(alias_view(None) == Seq::<(Seq<char>, Seq<char>)>::empty());
    }
    let r = codegen_circuits(&bdds, &vars, &input_order, None);
    proof {
        {
            let g = |v: Seq<bool>| (bits_value(low_word(v, 32)) + 4) % (pow2(32) as int);
            assert forall|inputs: Seq<bool>| inputs.len() == order.len() implies #[trigger] jalr_of_inputs()(inputs)
                == g(Seq::new(names.len(), |i: int| inputs[map(i)])) by {
                assert(low_word(Seq::new(names.len(), |i: int| inputs[map(i)]), 32) =~= inputs.take(32));
            }
            lemma_generates_mapped(r, bdds@, names, order, map, g, jalr_of_inputs());
            assert(Seq::new(names.len(), map) =~= direct_read(32));
        }
    }
    r
}

/// What the generated `imm << 12` circuit computes from the inputs
/// `imm0, ..., imm31`, of which the first 20 are read.
pub open spec fn lui_of_inputs() -> spec_fn(Seq<bool>) -> int {
    |inputs: Seq<bool>| pow2(12) * bits_value(inputs.take(20))
}

/// The source of `imm << 12` (32 bits) on the inputs `imm0, ..., imm31`;
/// `None` when one of its diagrams is too large to lay out.
pub fn codegen_lui() -> (r: Option<String>)
    ensures
        r matches Some(t) ==> generates(t@, 32, 32, lui_of_inputs()),
        r is None ==> layout_fails(direct_read(20), 32, 32, lui_of_inputs()),
        r is Some,
{
    let (bdds, vars) = lui();
    let input_order = lui_input_order();
    let ghost names = var_set_names(vars);
    let ghost order = strings_view(input_order@);
    let ghost map = |i: int| i;
    proof {
        lemma_extras_prefixes();
        lemma_numbered_valid("imm"@, 32);
        lemma_names_in_order(names, order, map);
        assert(alias_view(None) == Seq::<(Seq<char>, Seq<char>)>::empty());
    }
    proof {
        assert forall|k: int| 0 <= k < bdds@.len() implies convertible(#[trigger] bdds@[k]) by {
            assert(bdd_nodes(bdds@[k]).len() <= 3);
            assert(bdd_wf(bdds@[k]));
            lemma_levelled_count_bound(bdd_nodes(bdds@[k]));
            let s = bdd_nodes(bdds@[k]).len();
            assert(s * s <= 9) by (nonlinear_arith)
                requires
                    s <= 3,
            ;
        }
    }
    let r = codegen_circuits(&bdds, &vars, &input_order, None);
    proof {
        {
            let g = |v: Seq<bool>| pow2(12) * bits_value(low_word(v, 20));
            assert forall|inputs: Seq<bool>| inputs.len() == order.len() implies #[trigger] lui_of_inputs()(inputs)
                == g(Seq::new(names.len(), |i: int| inputs[map(i)])) by {
                assert(low_word(Seq::new(names.len(), |i: int| inputs[map(i)]), 20) =~= inputs.take(20));
            }
            lemma_generates_mapped(r, bdds@, names, order, map, g, lui_of_inputs());
            assert(Seq::new(names.len(), map) =~= direct_read(20));
        }
    }
    r
}

/// What the generated address circuit computes from the inputs
/// `rs0, ..., rs31, imm0, ..., imm31`: `(rs + imm - ram_offset) mod 2^32`.
pub open spec fn ram_offset_of_inputs(ram_offset: u32) -> spec_fn(Seq<bool>) -> int {
    |inputs: Seq<bool>|
        (bits_value(inputs.take(32)) + bits_value(inputs.subrange(32, 64)) - ram_offset) % (pow2(32) as int)
}

/// The source of `rs + imm - ram_offset` (32 bits) on the inputs
/// `rs0, ..., rs31, imm0, ..., imm31`; `None` when one of its diagrams is
/// too large to lay out.
pub fn codegen_ram_address_offset(ram_offset: u32) -> (r: Option<String>)
    ensures
        r matches Some(t) ==> generates(t@, 64, 32, ram_offset_of_inputs(ram_offset)),
        r is None ==> layout_fails(operand_read(32), 64, 32, ram_offset_of_inputs(ram_offset)),
{
    let (bdds, vars) = ram_address_offset(ram_offset);
    let input_order = ram_offset_input_order();
    let ghost names = var_set_names(vars);
    let ghost order = strings_view(input_order@);
    let ghost map = |i: int| if i % 2 == 0 { i / 2 } else { 32 + i / 2 };
    proof {
        lemma_extras_prefixes();
        lemma_two_words_valid("rs"@, "imm"@, 32);
        assert forall|i: int| 0 <= i < names.len() implies 0 <= #[trigger] map(i) < order.len() && order[map(i)] == names[i] by {
            if i % 2 == 0 {
                assert(order[map(i)] == numbered("rs"@, 32)[i / 2]);
            } else {
                assert(order[map(i)] == numbered("imm"@, 32)[i / 2]);
            }
        }
        lemma_names_in_order(names, order, map);
        assert(alias_view(None) == Seq::<(Seq<char>, Seq<char>)>::empty());
    }
    let r = codegen_circuits(&bdds, &vars, &input_order, None);
    proof {
        {
            let g = |v: Seq<bool>|
                (bits_value(even_bits(v, 32)) + bits_value(odd_bits(v, 32)) - ram_offset) % (pow2(32) as int);
            assert forall|inputs: Seq<bool>| inputs.len() == order.len() implies #[trigger] ram_offset_of_inputs(ram_offset)(inputs)
                == g(Seq::new(names.len(), |i: int| inputs[map(i)])) by {
                let v = Seq::new(names.len(), |i: int| inputs[map(i)]);
                assert(even_bits(v, 32) =~= inputs.take(32));
                assert(odd_bits(v, 32) =~= inputs.subrange(32, 64));
            }
            lemma_generates_mapped(r, bdds@, names, order, map, g, ram_offset_of_inputs(ram_offset));
            assert(Seq::new(names.len(), map) =~= operand_read(32));
        }
    }
    r
}

/// What the generated upper-immediate add computes from the inputs
/// `pc0, ..., pc31, imm0, ..., imm31`, of which the first 20 immediate bits
/// are read: `(pc + (imm << 12)) mod 2^32`.
pub open spec fn aiupc_of_inputs() -> spec_fn(Seq<bool>) -> int {
    |inputs: Seq<bool>| (bits_value(inputs.take(32)) + pow2(12) * bits_value(inputs.subrange(32, 52))) % (pow2(32) as int)
}

/// The source of `pc + (imm << 12)` (32 bits) on the inputs
/// `pc0, ..., pc31, imm0, ..., imm31`; `None` when one of its diagrams is
/// too large to lay out.
pub fn codegen_aiupc() -> (r: Option<String>)
    ensures
        r matches Some(t) ==> generates(t@, 64, 32, aiupc_of_inputs()),
        r is None ==> layout_fails(aiupc_read(), 64, 32, aiupc_of_inputs()),
{
    let (bdds, vars) = aiupc();
    let input_order = aiupc_input_order();
    let ghost names = var_set_names(vars);
    let ghost order = strings_view(input_order@);
    let ghost map = |j: int| if j < 40 { if j % 2 == 0 { 12 + j / 2 } else { 32 + j / 2 } } else { j - 40 };
    proof {
        lemma_extras_prefixes();
        lemma_two_words_valid("pc"@, "imm"@, 32);
        assert forall|i: int| 0 <= i < names.len() implies 0 <= #[trigger] map(i) < order.len() && order[map(i)] == names[i] by {
            if i < 40 {
                if i % 2 == 0 {
                    assert(order[map(i)] == numbered("pc"@, 32)[12 + i / 2]);
                } else {
                    assert(order[map(i)] == numbered("imm"@, 32)[i / 2]);
                }
            } else {
                assert(names[i] == numbered("pc"@, 12)[i - 40]);
                assert(order[map(i)] == numbered("pc"@, 32)[i - 40]);
            }
        }
        lemma_names_in_order(names, order, map);
        assert(alias_view(None) == Seq::<(Seq<char>, Seq<char>)>::empty());
    }
    let r = codegen_circuits(&bdds, &vars, &input_order, None);
    proof {
        {
            let g = |v: Seq<bool>|
                (bits_value(aiupc_pc_bits(v)) + pow2(12) * bits_value(aiupc_imm_bits(v))) % (pow2(32) as int);
            assert forall|inputs: Seq<bool>| inputs.len() == order.len() implies #[trigger] aiupc_of_inputs()(inputs)
                == g(Seq::new(names.len(), |i: int| inputs[map(i)])) by {
                let v = Seq::new(names.len(), |i: int| inputs[map(i)]);
                assert(aiupc_pc_bits(v) =~= inputs.take(32));
                assert(aiupc_imm_bits(v) =~= inputs.subrange(32, 52));
            }
            lemma_generates_mapped(r, bdds@, names, order, map, g, aiupc_of_inputs());
            assert(Seq::new(names.len(), map) =~= aiupc_read());
        }
    }
    r
}

} // verus!

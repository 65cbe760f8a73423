use vstd::prelude::*;
use biodivine_lib_bdd::{Bdd, BddVariableSet};
use crate::bdd::{
    bdd_wf, bdd_eval, num_vars, var_set_names, var_set_new, bdd_and, bdd_or, bdd_xor, bdd_not,
};
use crate::bits::{
    b2i, bits_value, high_value, signed_value, flip_msb, lemma_high_value_step,
    lemma_high_value_ends, lemma_flip_msb_value,
};
use crate::circuit::{
    eval_all, all_wf, two_words, name_prefix, numbered_names, mk_named_var,
};
use crate::arithmetic::lemma_prefix_a_b;
use crate::bdd::strings_view;
use crate::circuit::lemma_two_words_valid;
use crate::codegen::{codegen_circuits, generates, layout_fails, lemma_read_of_map_plain, lemma_generates, lemma_inputs_map};
use crate::updown::{alias_view, bdd_inputs, dealias, first_key};
use crate::names::{
    indexed, indexed_name, valid_var_name, valid_var_names, lemma_indexed_injective,
    lemma_indexed_valid, lemma_indexed_first,
};
use crate::bdd::bdd_if_then_else;

verus! {

/// `p{n-1}, q{n-1}, ..., p0, q0`: the most significant positions first.
pub open spec fn rev_interleaved(p: Seq<char>, q: Seq<char>, n: nat) -> Seq<Seq<char>> {
    Seq::new(
        2 * n,
        |j: int|
            if j % 2 == 0 {
                indexed(p, (n - 1 - j / 2) as nat)
            } else {
                indexed(q, (n - 1 - j / 2) as nat)
            },
    )
}

/// The first operand of a comparator over `rev_interleaved` variables:
/// bit `k` is variable `2 (n - 1 - k)`.
pub open spec fn rev_even_bits(v: Seq<bool>, n: nat) -> Seq<bool> {
    Seq::new(n, |k: int| v[2 * (n - 1 - k)])
}

/// The second operand of a comparator over `rev_interleaved` variables:
/// bit `k` is variable `2 (n - 1 - k) + 1`.
pub open spec fn rev_odd_bits(v: Seq<bool>, n: nat) -> Seq<bool> {
    Seq::new(n, |k: int| v[2 * (n - 1 - k) + 1])
}

pub proof fn lemma_rev_interleaved_valid(p: Seq<char>, q: Seq<char>, n: nat)
    requires
        name_prefix(p),
        name_prefix(q),
        p != q,
    ensures
        valid_var_names(rev_interleaved(p, q, n)),
{
    let s = rev_interleaved(p, q, n);
    assert forall|i: int| 0 <= i < s.len() implies valid_var_name(#[trigger] s[i]) by {
        lemma_indexed_valid(p, (n - 1 - i / 2) as nat);
        lemma_indexed_valid(q, (n - 1 - i / 2) as nat);
    }
    assert forall|i: int, j: int|
        0 <= i < s.len() && 0 <= j < s.len() && i != j implies #[trigger] s[i] != #[trigger] s[j] by {
        let pi = if i % 2 == 0 { p } else { q };
        let pj = if j % 2 == 0 { p } else { q };
        if s[i] == s[j] {
            lemma_indexed_injective(pi, (n - 1 - i / 2) as nat, pj, (n - 1 - j / 2) as nat);
        }
    }
}

/// The names `p{n-1}, q{n-1}, ..., p0, q0`.
pub fn rev_interleaved_names(p: &str, q: &str, n: usize) -> (r: Vec<String>)
    requires
        2 * n <= usize::MAX,
    ensures
        r@.map_values(|s: String| s@) == rev_interleaved(p@, q@, n as nat),
{
    let mut r: Vec<String> = Vec::new();
    let mut i: usize = n;
    while i > 0
        invariant
            i <= n,
            2 * n <= usize::MAX,
            r@.len() == 2 * (n - i),
            forall|j: int|
                0 <= j < r@.len() ==> #[trigger] r@[j]@ == rev_interleaved(p@, q@, n as nat)[j],
        decreases i,
    {
        i = i - 1;
        let ghost old_r = r@;
        r.push(indexed_name(p, i));
        r.push(indexed_name(q, i));
        proof {
            assert forall|j: int| 0 <= j < r@.len() implies #[trigger] r@[j]@ == rev_interleaved(
                p@,
                q@,
                n as nat,
            )[j] by {
                if j < old_r.len() {
                    assert(r@[j] == old_r[j]);
                } else if j == old_r.len() {
                    assert(j % 2 == 0 && j / 2 == n - 1 - i);
                } else {
                    assert(j % 2 == 1 && j / 2 == n - 1 - i);
                }
            }
        }
    }
    proof {
        assert(r@.map_values(|s: String| s@) =~= rev_interleaved(p@, q@, n as nat));
    }
    r
}

/// The comparator `a < b` on the first `bits` diagrams of `a` and `b`, read
/// as unsigned little-endian words.
pub fn comparitor_circuit(a: &[Bdd], b: &[Bdd], bits: usize) -> (comp: Bdd)
    requires
        1 <= bits <= a@.len(),
        bits <= b@.len(),
        all_wf(a@, num_vars(a@[0])),
        all_wf(b@, num_vars(a@[0])),
    ensures
        bdd_wf(comp),
        num_vars(comp) == num_vars(a@[0]),
        forall|v: Seq<bool>| #[trigger] bdd_eval(comp, v) == (bits_value(eval_all(a@.take(bits as int), v))
            < bits_value(eval_all(b@.take(bits as int), v))),
{
    let ghost nv = num_vars(a@[0]);
    let ghost n = bits as int;
    let ghost av = |v: Seq<bool>| eval_all(a@.take(n), v);
    let ghost bv = |v: Seq<bool>| eval_all(b@.take(n), v);
    let mut comp = bdd_and(&b[bits - 1], &bdd_not(&a[bits - 1]));
    let mut not_casc = bdd_not(&bdd_xor(&b[bits - 1], &a[bits - 1]));
    proof {
        assert forall|v: Seq<bool>|
            #[trigger] bdd_eval(comp, v) == (high_value(av(v), n - 1) < high_value(bv(v), n - 1))
            && bdd_eval(not_casc, v) == (high_value(av(v), n - 1) == high_value(bv(v), n - 1)) by {
            lemma_high_value_step(av(v), n - 1);
            lemma_high_value_step(bv(v), n - 1);
            lemma_high_value_ends(av(v));
            lemma_high_value_ends(bv(v));
        }
    }
    let mut i: usize = bits - 1;
    while i > 0
        invariant
            1 <= bits <= a@.len(),
            bits <= b@.len(),
            n == bits,
            i < bits,
            all_wf(a@, nv),
            all_wf(b@, nv),
            nv == num_vars(a@[0]),
            av == (|v: Seq<bool>| eval_all(a@.take(n), v)),
            bv == (|v: Seq<bool>| eval_all(b@.take(n), v)),
            bdd_wf(comp),
            bdd_wf(not_casc),
            num_vars(comp) == nv,
            num_vars(not_casc) == nv,
            forall|v: Seq<bool>|
                #[trigger] bdd_eval(comp, v) == (high_value(av(v), i as int) < high_value(
                    bv(v),
                    i as int,
                )) && bdd_eval(not_casc, v) == (high_value(av(v), i as int) == high_value(
                    bv(v),
                    i as int,
                )),
        decreases i,
    {
        i = i - 1;
        let lower = bdd_and(&bdd_and(&b[i], &bdd_not(&a[i])), &not_casc);
        let comp2 = bdd_or(&comp, &lower);
        let not_casc2 = bdd_and(&not_casc, &bdd_not(&bdd_xor(&b[i], &a[i])));
        proof {
            assert forall|v: Seq<bool>|
                #[trigger] bdd_eval(comp2, v) == (high_value(av(v), i as int) < high_value(
                    bv(v),
                    i as int,
                )) && bdd_eval(not_casc2, v) == (high_value(av(v), i as int) == high_value(
                    bv(v),
                    i as int,
                )) by {
                assert(bdd_eval(comp, v) == (high_value(av(v), i + 1) < high_value(bv(v), i + 1)));
                lemma_high_value_step(av(v), i as int);
                lemma_high_value_step(bv(v), i as int);
                assert(av(v)[i as int] == bdd_eval(a@[i as int], v));
                assert(bv(v)[i as int] == bdd_eval(b@[i as int], v));
            }
        }
        comp = comp2;
        not_casc = not_casc2;
    }
    proof {
        assert forall|v: Seq<bool>| #[trigger] bdd_eval(comp, v) == (bits_value(
            eval_all(a@.take(bits as int), v),
        ) < bits_value(eval_all(b@.take(bits as int), v))) by {
            assert(bdd_eval(comp, v) == (high_value(av(v), 0) < high_value(bv(v), 0)));
            lemma_high_value_ends(av(v));
            lemma_high_value_ends(bv(v));
        }
    }
    comp
}

/// The variables `a{bits-1}, b{bits-1}, ..., a0, b0` and the diagrams of
/// `a0, ..., a{bits-1}` and of `b0, ..., b{bits-1}`.
fn rev_interleaved_operands(bits: usize) -> (r: (Vec<Bdd>, Vec<Bdd>, BddVariableSet))
    requires
        1 <= bits,
        2 * bits < u16::MAX - 1,
    ensures
        var_set_names(r.2) == rev_interleaved("a"@, "b"@, bits as nat),
        r.0.len() == bits,
        r.1.len() == bits,
        all_wf(r.0@, 2 * bits as nat),
        all_wf(r.1@, 2 * bits as nat),
        forall|k: int, v: Seq<bool>|
            0 <= k < bits ==> #[trigger] bdd_eval(r.0@[k], v) == v[2 * (bits - 1 - k)],
        forall|k: int, v: Seq<bool>|
            0 <= k < bits ==> #[trigger] bdd_eval(r.1@[k], v) == v[2 * (bits - 1 - k) + 1],
{
    let vars_arr = rev_interleaved_names("a", "b", bits);
    proof {
        lemma_prefix_a_b();
        lemma_rev_interleaved_valid("a"@, "b"@, bits as nat);
        assert(vars_arr@.map_values(|s: String| s@).len() == vars_arr.len());
    }
    let vars = var_set_new(&vars_arr);
    let mut a: Vec<Bdd> = Vec::new();
    let mut b: Vec<Bdd> = Vec::new();
    let mut i: usize = 0;
    while i < bits
        invariant
            i <= bits,
            2 * bits < u16::MAX - 1,
            var_set_names(vars) == rev_interleaved("a"@, "b"@, bits as nat),
            a.len() == i,
            b.len() == i,
            all_wf(a@, 2 * bits as nat),
            all_wf(b@, 2 * bits as nat),
            forall|k: int, v: Seq<bool>|
                0 <= k < i ==> #[trigger] bdd_eval(a@[k], v) == v[2 * (bits - 1 - k)],
            forall|k: int, v: Seq<bool>|
                0 <= k < i ==> #[trigger] bdd_eval(b@[k], v) == v[2 * (bits - 1 - k) + 1],
        decreases bits - i,
    {
        proof {
            lemma_prefix_a_b();
            lemma_rev_interleaved_valid("a"@, "b"@, bits as nat);
            let j = 2 * (bits - 1 - i);
            assert(j % 2 == 0 && j / 2 == bits - 1 - i);
            assert((j + 1) % 2 == 1 && (j + 1) / 2 == bits - 1 - i);
        }
        let na = indexed_name("a", i);
        let nb = indexed_name("b", i);
        let va = mk_named_var(&vars, na.as_str(), Ghost(2 * (bits - 1 - i)));
        let vb = mk_named_var(&vars, nb.as_str(), Ghost(2 * (bits - 1 - i) + 1));
        a.push(va);
        b.push(vb);
        i = i + 1;
    }
    (a, b, vars)
}

/// The unsigned comparator `a < b` on `bits`-bit words over the variables
/// `a{bits-1}, b{bits-1}, ..., a0, b0`.
pub fn unsigned_comparitor(bits: usize) -> (res: (Bdd, BddVariableSet))
    requires
        1 <= bits,
        2 * bits < u16::MAX - 1,
    ensures
        var_set_names(res.1) == rev_interleaved("a"@, "b"@, bits as nat),
        bdd_wf(res.0),
        num_vars(res.0) == 2 * bits,
        forall|v: Seq<bool>| #[trigger] bdd_eval(res.0, v) == (bits_value(rev_even_bits(v, bits as nat))
            < bits_value(rev_odd_bits(v, bits as nat))),
{
    let (a, b, vars) = rev_interleaved_operands(bits);
    let comp = comparitor_circuit(a.as_slice(), b.as_slice(), bits);
    proof {
        assert forall|v: Seq<bool>| #[trigger] bdd_eval(comp, v) == (bits_value(
            rev_even_bits(v, bits as nat),
        ) < bits_value(rev_odd_bits(v, bits as nat))) by {
            assert(eval_all(a@.take(bits as int), v) =~= rev_even_bits(v, bits as nat));
            assert(eval_all(b@.take(bits as int), v) =~= rev_odd_bits(v, bits as nat));
        }
    }
    (comp, vars)
}

/// The signed (two's complement) comparator `a < b` on `bits`-bit words
/// over the variables `a{bits-1}, b{bits-1}, ..., a0, b0`: the unsigned
/// comparator with both sign bits flipped.
pub fn signed_comparitor(bits: usize) -> (res: (Bdd, BddVariableSet))
    requires
        1 <= bits,
        2 * bits < u16::MAX - 1,
    ensures
        var_set_names(res.1) == rev_interleaved("a"@, "b"@, bits as nat),
        bdd_wf(res.0),
        num_vars(res.0) == 2 * bits,
        forall|v: Seq<bool>| #[trigger] bdd_eval(res.0, v) == (signed_value(
            rev_even_bits(v, bits as nat),
        ) < signed_value(rev_odd_bits(v, bits as nat))),
{
    let (mut a, mut b, vars) = rev_interleaved_operands(bits);
    let ghost a0 = a@;
    let ghost b0 = b@;
    let na = bdd_not(&a[bits - 1]);
    a.set(bits - 1, na);
    let nb = bdd_not(&b[bits - 1]);
    b.set(bits - 1, nb);
    proof {
        assert forall|k: int| 0 <= k < a@.len() implies bdd_wf(#[trigger] a@[k]) && num_vars(a@[k])
            == 2 * bits by {
            if k != bits - 1 {
                assert(a@[k] == a0[k]);
            }
        }
        assert forall|k: int| 0 <= k < b@.len() implies bdd_wf(#[trigger] b@[k]) && num_vars(b@[k])
            == 2 * bits by {
            if k != bits - 1 {
                assert(b@[k] == b0[k]);
            }
        }
    }
    let comp = comparitor_circuit(a.as_slice(), b.as_slice(), bits);
    proof {
        assert forall|v: Seq<bool>| #[trigger] bdd_eval(comp, v) == (signed_value(
            rev_even_bits(v, bits as nat),
        ) < signed_value(rev_odd_bits(v, bits as nat))) by {
            let x = rev_even_bits(v, bits as nat);
            let y = rev_odd_bits(v, bits as nat);
            assert forall|k: int| 0 <= k < bits implies eval_all(a@.take(bits as int), v)[k]
                == flip_msb(x)[k] by {
                if k != bits - 1 {
                    assert(a@[k] == a0[k]);
                }
            }
            assert forall|k: int| 0 <= k < bits implies eval_all(b@.take(bits as int), v)[k]
                == flip_msb(y)[k] by {
                if k != bits - 1 {
                    assert(b@[k] == b0[k]);
                }
            }
            assert(eval_all(a@.take(bits as int), v) =~= flip_msb(x));
            assert(eval_all(b@.take(bits as int), v) =~= flip_msb(y));
            lemma_flip_msb_value(x);
            lemma_flip_msb_value(y);
        }
    }
    (comp, vars)
}

/// The evaluation order of a comparator's inputs:
/// `a0, ..., a{bits-1}, b0, ..., b{bits-1}`.
pub fn unsigned_comparitor_input_order(bits: usize) -> (r: Vec<String>)
    ensures
        r@.map_values(|s: String| s@) == two_words("a"@, "b"@, bits as nat),
{
    crate::arithmetic::add_sub_input_order(bits)
}

/// A word of one bit is the value of that bit.
pub proof fn lemma_one_bit_value(s: Seq<bool>)
    requires
        s.len() == 1,
    ensures
        bits_value(s) == b2i(s[0]),
{
    assert(s.drop_last().len() == 0);
    assert(bits_value(s.drop_last()) == 0);
    assert(vstd::arithmetic::power2::pow2(0) == 1) by {
        vstd::arithmetic::power2::lemma2_to64();
    }
    assert(bits_value(s) == bits_value(s.drop_last()) + b2i(s.last()) * vstd::arithmetic::power2::pow2(0));
}

/// The comparisons of the comparator circuits.
pub enum CompOp {
    Unsigned,
    Signed,
}

/// How the comparator's variables `a{n-1}, b{n-1}, ..., a0, b0` read the
/// inputs `a0, ..., a{n-1}, b0, ..., b{n-1}`: variable `2j` reads input
/// `n - 1 - j` and variable `2j + 1` reads input `2n - 1 - j`.
pub open spec fn comparator_read(n: nat) -> Seq<int> {
    Seq::new(2 * n, |i: int| if i % 2 == 0 { n - 1 - i / 2 } else { 2 * n - 1 - i / 2 })
}

/// What the generated comparator computes from the inputs
/// `a0, ..., a{n-1}, b0, ..., b{n-1}`: 1 where `a < b` (as unsigned or as
/// two's complement words), else 0.
pub open spec fn comp_of_inputs(op: CompOp, n: nat) -> spec_fn(Seq<bool>) -> int {
    |inputs: Seq<bool>|
        match op {
            CompOp::Unsigned => b2i(bits_value(inputs.take(n as int)) < bits_value(inputs.subrange(n as int, 2 * n as int))),
            CompOp::Signed => b2i(signed_value(inputs.take(n as int)) < signed_value(inputs.subrange(n as int, 2 * n as int))),
        }
}

/// Generates the source of the unsigned or signed comparator of
/// `word_size`-bit words; `None` when its diagram is too large to lay out.
pub fn codegen_comp_op(word_size: usize, op: CompOp) -> (r: Option<String>)
    requires
        1 <= word_size,
        2 * word_size < u16::MAX - 1,
    ensures
        r matches Some(t) ==> generates(t@, 2 * word_size as nat, 1, comp_of_inputs(op, word_size as nat)),
        r is None ==> layout_fails(comparator_read(word_size as nat), 2 * word_size as nat, 1, comp_of_inputs(op, word_size as nat)),
{
    let ghost n = word_size as nat;
    proof {
        lemma_prefix_a_b();
    }
    let (bdd, vars) = match op {
        CompOp::Unsigned => unsigned_comparitor(word_size),
        CompOp::Signed => signed_comparitor(word_size),
    };
    let input_order = unsigned_comparitor_input_order(word_size);
    let bdds = vec![bdd];
    let ghost names = var_set_names(vars);
    let ghost order = strings_view(input_order@);
    let ghost empty = Seq::<(Seq<char>, Seq<char>)>::empty();
    let ghost map = |i: int| if i % 2 == 0 { n - 1 - i / 2 } else { 2 * n - 1 - i / 2 };
    proof {
        lemma_two_words_valid("a"@, "b"@, n);
        assert(alias_view(None) == empty);
        assert forall|i: int| 0 <= i < names.len() implies 0 <= #[trigger] map(i) < order.len() && order[map(i)] == names[i] by {
            if i % 2 == 0 {
                assert(order[map(i)] == two_words("a"@, "b"@, n)[map(i)]);
            } else {
                assert(order[map(i)] == two_words("a"@, "b"@, n)[map(i)]);
            }
        }
        assert forall|i: int| 0 <= i < names.len() implies order.contains(dealias(empty, #[trigger] names[i])) by {
            assert(!exists|j: int| first_key(empty, names[i], j));
            assert(order[map(i)] == names[i]);
        }
        assert(all_wf(bdds@, names.len())) by {
            assert(bdds@[0] == bdd);
        }
    }
    let r = codegen_circuits(&bdds, &vars, &input_order, None);
    proof {
        {
            let f = comp_of_inputs(op, n);
            let g = |v: Seq<bool>|
                match op {
                    CompOp::Unsigned => b2i(bits_value(rev_even_bits(v, n)) < bits_value(rev_odd_bits(v, n))),
                    CompOp::Signed => b2i(signed_value(rev_even_bits(v, n)) < signed_value(rev_odd_bits(v, n))),
                };
            assert forall|v: Seq<bool>| #[trigger] bits_value(eval_all(bdds@, v)) == g(v) by {
                lemma_one_bit_value(eval_all(bdds@, v));
                assert(bdds@[0] == bdd);
            }
            assert forall|inputs: Seq<bool>| inputs.len() == order.len() implies #[trigger] f(inputs) == g(
                bdd_inputs(names, order, empty, inputs),
            ) by {
                lemma_inputs_map(names, order, inputs, map);
                let v = bdd_inputs(names, order, empty, inputs);
                assert(rev_even_bits(v, n) =~= inputs.take(n as int)) by {
                    assert forall|k: int| 0 <= k < n implies #[trigger] rev_even_bits(v, n)[k] == inputs[k] by {
                        assert(v[2 * (n - 1 - k)] == inputs[map(2 * (n - 1 - k))]);
                    }
                }
                assert(rev_odd_bits(v, n) =~= inputs.subrange(n as int, 2 * n as int)) by {
                    assert forall|k: int| 0 <= k < n implies #[trigger] rev_odd_bits(v, n)[k] == inputs[n + k] by {
                        assert(v[2 * (n - 1 - k) + 1] == inputs[map(2 * (n - 1 - k) + 1)]);
                    }
                }
            }
            lemma_generates(r, bdds@, names, order, empty, g, f);
            lemma_read_of_map_plain(names, order, map);
            assert(Seq::new(names.len(), map) =~= comparator_read(n));
        }
    }
    r
}

/// The source of the unsigned comparator of `word_size`-bit words: inputs
/// `a0, ..., b0, ...`, output 1 where `a < b`; `None` when its diagram is
/// too large to lay out.
pub fn codegen_unsigned_comparitor(word_size: usize) -> (r: Option<String>)
    requires
        1 <= word_size,
        2 * word_size < u16::MAX - 1,
    ensures
        r matches Some(t) ==> generates(t@, 2 * word_size as nat, 1, comp_of_inputs(CompOp::Unsigned, word_size as nat)),
        r is None ==> layout_fails(comparator_read(word_size as nat), 2 * word_size as nat, 1, comp_of_inputs(CompOp::Unsigned, word_size as nat)),
{
    codegen_comp_op(word_size, CompOp::Unsigned)
}

/// The source of the signed comparator of `word_size`-bit words: inputs
/// `a0, ..., b0, ...`, output 1 where `a < b` as two's complement words;
/// `None` when its diagram is too large to lay out.
pub fn codegen_signed_comparitor(word_size: usize) -> (r: Option<String>)
    requires
        1 <= word_size,
        2 * word_size < u16::MAX - 1,
    ensures
        r matches Some(t) ==> generates(t@, 2 * word_size as nat, 1, comp_of_inputs(CompOp::Signed, word_size as nat)),
        r is None ==> layout_fails(comparator_read(word_size as nat), 2 * word_size as nat, 1, comp_of_inputs(CompOp::Signed, word_size as nat)),
{
    codegen_comp_op(word_size, CompOp::Signed)
}

/// The variables of the combined comparator: the signal `s`, then
/// `a{bits-1}, b{bits-1}, ..., a0, b0`.
pub open spec fn combined_comparitor_names(bits: nat) -> Seq<Seq<char>> {
    seq!["s"@] + rev_interleaved("a"@, "b"@, bits)
}

/// The first operand of the combined comparator: bit `k` is variable
/// `1 + 2 (n - 1 - k)`.
pub open spec fn combined_a(v: Seq<bool>, n: nat) -> Seq<bool> {
    Seq::new(n, |k: int| v[1 + 2 * (n - 1 - k)])
}

/// The second operand of the combined comparator: bit `k` is variable
/// `2 + 2 (n - 1 - k)`.
pub open spec fn combined_b(v: Seq<bool>, n: nat) -> Seq<bool> {
    Seq::new(n, |k: int| v[2 + 2 * (n - 1 - k)])
}

proof fn lemma_combined_names_valid(bits: nat)
    ensures
        valid_var_names(combined_comparitor_names(bits)),
{
    lemma_prefix_a_b();
    lemma_rev_interleaved_valid("a"@, "b"@, bits);
    reveal_strlit("s");
    reveal_strlit("a");
    reveal_strlit("b");
    let names = combined_comparitor_names(bits);
    let r = rev_interleaved("a"@, "b"@, bits);
    assert forall|i: int| 0 <= i < names.len() implies valid_var_name(#[trigger] names[i]) by {
        if i > 0 {
            assert(names[i] == r[i - 1]);
        }
    }
    assert forall|i: int, j: int|
        0 <= i < names.len() && 0 <= j < names.len() && i != j implies #[trigger] names[i] != #[trigger] names[j] by {
        if i > 0 && j > 0 {
            assert(names[i] == r[i - 1] && names[j] == r[j - 1]);
        } else {
            let k = if i == 0 { j } else { i };
            let p = if (k - 1) % 2 == 0 { "a"@ } else { "b"@ };
            assert(names[k] == r[k - 1]);
            lemma_indexed_first(p, (bits - 1 - (k - 1) / 2) as nat);
            assert(names[k][0] != names[0][0]);
        }
    }
}

/// The comparator `a < b` on `bits`-bit words that compares signed words
/// where the signal `s` is set and unsigned ones elsewhere, over the
/// variables `s, a{bits-1}, b{bits-1}, ..., a0, b0`: the unsigned comparator
/// with both sign bits flipped where `s` is set.
pub fn combined_comparitor_circuit(bits: usize) -> (res: (Bdd, BddVariableSet))
    requires
        1 <= bits,
        2 * bits + 1 < u16::MAX - 1,
    ensures
        var_set_names(res.1) == combined_comparitor_names(bits as nat),
        bdd_wf(res.0),
        num_vars(res.0) == 2 * bits + 1,
        forall|v: Seq<bool>| #[trigger] bdd_eval(res.0, v) == if v[0] {
            signed_value(combined_a(v, bits as nat)) < signed_value(combined_b(v, bits as nat))
        } else {
            bits_value(combined_a(v, bits as nat)) < bits_value(combined_b(v, bits as nat))
        },
{
    let ghost n = bits as nat;
    let ghost nv = 2 * n + 1;
    let mut vars_arr: Vec<String> = Vec::new();
    vars_arr.push("s".to_owned());
    let mut rest = rev_interleaved_names("a", "b", bits);
    let ghost rest0 = rest@;
    vars_arr.append(&mut rest);
    proof {
        reveal_strlit("s");
        assert(vars_arr@.map_values(|x: String| x@) =~= combined_comparitor_names(n)) by {
            assert(rest0.map_values(|x: String| x@) == rev_interleaved("a"@, "b"@, n));
        }
        lemma_combined_names_valid(n);
    }
    let vars = var_set_new(&vars_arr);
    let ghost names = var_set_names(vars);
    proof {
        assert(names[0] == "s"@);
    }
    let s = mk_named_var(&vars, "s", Ghost(0));
    let mut a: Vec<Bdd> = Vec::new();
    let mut b: Vec<Bdd> = Vec::new();
    let mut i: usize = 0;
    while i < bits
        invariant
            i <= bits,
            n == bits,
            nv == 2 * n + 1,
            2 * bits + 1 < u16::MAX - 1,
            names == var_set_names(vars),
            names == combined_comparitor_names(n),
            valid_var_names(names),
            a.len() == i,
            b.len() == i,
            all_wf(a@, nv),
            all_wf(b@, nv),
            forall|k: int, v: Seq<bool>| 0 <= k < i ==> #[trigger] bdd_eval(a@[k], v) == v[1 + 2 * (n - 1 - k)],
            forall|k: int, v: Seq<bool>| 0 <= k < i ==> #[trigger] bdd_eval(b@[k], v) == v[2 + 2 * (n - 1 - k)],
        decreases bits - i,
    {
        proof {
            lemma_prefix_a_b();
            let j = 2 * (bits - 1 - i);
            assert(j % 2 == 0 && j / 2 == bits - 1 - i);
            assert((j + 1) % 2 == 1 && (j + 1) / 2 == bits - 1 - i);
            assert(names[j + 1] == rev_interleaved("a"@, "b"@, n)[j]);
            assert(names[j + 2] == rev_interleaved("a"@, "b"@, n)[j + 1]);
        }
        let na = indexed_name("a", i);
        let nb = indexed_name("b", i);
        let va = mk_named_var(&vars, na.as_str(), Ghost(1 + 2 * (bits - 1 - i)));
        let vb = mk_named_var(&vars, nb.as_str(), Ghost(2 + 2 * (bits - 1 - i)));
        a.push(va);
        b.push(vb);
        i = i + 1;
    }
    let ghost a0 = a@;
    let ghost b0 = b@;
    // where `s` is set the sign bits count negatively: flip them
    let not_a = bdd_not(&a[bits - 1]);
    let not_b = bdd_not(&b[bits - 1]);
    let sa = bdd_if_then_else(&s, &not_a, &a[bits - 1]);
    let sb = bdd_if_then_else(&s, &not_b, &b[bits - 1]);
    a.set(bits - 1, sa);
    b.set(bits - 1, sb);
    proof {
        assert forall|k: int| 0 <= k < a@.len() implies bdd_wf(#[trigger] a@[k]) && num_vars(a@[k]) == nv by {
            if k != bits - 1 {
                assert(a@[k] == a0[k]);
            }
        }
        assert forall|k: int| 0 <= k < b@.len() implies bdd_wf(#[trigger] b@[k]) && num_vars(b@[k]) == nv by {
            if k != bits - 1 {
                assert(b@[k] == b0[k]);
            }
        }
    }
    let comp = comparitor_circuit(a.as_slice(), b.as_slice(), bits);
    proof {
        assert forall|v: Seq<bool>| #[trigger] bdd_eval(comp, v) == if v[0] {
            signed_value(combined_a(v, n)) < signed_value(combined_b(v, n))
        } else {
            bits_value(combined_a(v, n)) < bits_value(combined_b(v, n))
        } by {
            let x = combined_a(v, n);
            let y = combined_b(v, n);
            let ea = eval_all(a@.take(bits as int), v);
            let eb = eval_all(b@.take(bits as int), v);
            if v[0] {
                assert forall|k: int| 0 <= k < bits implies ea[k] == flip_msb(x)[k] by {
                    if k != bits - 1 {
                        assert(a@[k] == a0[k]);
                    }
                }
                assert forall|k: int| 0 <= k < bits implies eb[k] == flip_msb(y)[k] by {
                    if k != bits - 1 {
                        assert(b@[k] == b0[k]);
                    }
                }
                assert(ea =~= flip_msb(x));
                assert(eb =~= flip_msb(y));
                lemma_flip_msb_value(x);
                lemma_flip_msb_value(y);
            } else {
                assert forall|k: int| 0 <= k < bits implies ea[k] == x[k] by {
                    if k != bits - 1 {
                        assert(a@[k] == a0[k]);
                    }
                }
                assert forall|k: int| 0 <= k < bits implies eb[k] == y[k] by {
                    if k != bits - 1 {
                        assert(b@[k] == b0[k]);
                    }
                }
                assert(ea =~= x);
                assert(eb =~= y);
            }
        }
    }
    (comp, vars)
}

/// After the signal, the combined comparator reads its operands as the
/// separate comparators read theirs: on an assignment `v`, it compares what
/// the unsigned comparator (signal unset) or the signed comparator (signal
/// set) compares on `v` without its first entry.
pub proof fn lemma_combined_matches_separate(v: Seq<bool>, n: nat)
    requires
        v.len() >= 2 * n + 1,
    ensures
        combined_a(v, n) == rev_even_bits(v.skip(1), n),
        combined_b(v, n) == rev_odd_bits(v.skip(1), n),
{
    assert(combined_a(v, n) =~= rev_even_bits(v.skip(1), n));
    assert(combined_b(v, n) =~= rev_odd_bits(v.skip(1), n));
}

} // verus!

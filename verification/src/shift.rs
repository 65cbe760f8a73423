use vstd::prelude::*;
use vstd::arithmetic::power2::{pow2, lemma_pow2_pos, lemma_pow2_unfold, lemma_pow2_strictly_increases, lemma2_to64};
use vstd::bits::{lemma_usize_shl_is_mul, lemma_usize_pow2_no_overflow};
use biodivine_lib_bdd::{Bdd, BddVariableSet};
use crate::bdd::{
    bdd_wf, bdd_eval, num_vars, var_set_names, var_set_new_anonymous, var_set_mk_var,
    bdd_if_then_else,
};
use crate::bits::{b2i, bits_value};
use crate::circuit::{all_wf, eval_all, lemma_var_nodes, mk_false, lemma_indexed_names_valid, name_prefix};
use crate::arithmetic::is_power_of_two;
use crate::bdd::strings_view;
use crate::codegen::{codegen_circuits, generates, layout_fails, lemma_read_of_map_plain, lemma_generates, lemma_inputs_map};
use crate::extras::lemma_extras_prefixes;
use crate::updown::{alias_view, bdd_inputs, dealias, first_key};
use crate::names::{indexed, indexed_name};

verus! {

/// The three shifts of a 32-bit RISC-V core.
#[derive(Clone, Copy, Debug, PartialEq, Eq, Structural)]
pub enum ShiftOp {
    SLL,
    SRL,
    SRA,
}

impl ShiftOp {
    /// The mnemonic of the shift: `sll`, `srl` or `sra`.
    pub fn to_string(&self) -> (r: String)
        ensures
            r@ == shift_op_name(*self),
    {
        match self {
            ShiftOp::SRA => "sra".to_owned(),
            ShiftOp::SRL => "srl".to_owned(),
            ShiftOp::SLL => "sll".to_owned(),
        }
    }
}

/// The mnemonic of a shift.
pub open spec fn shift_op_name(op: ShiftOp) -> Seq<char> {
    match op {
        ShiftOp::SRA => "sra"@,
        ShiftOp::SRL => "srl"@,
        ShiftOp::SLL => "sll"@,
    }
}

/// Bit `k` of the word `x` shifted by `s` positions with `op`: left shifts
/// fill with zeros, logical right shifts with zeros, arithmetic right
/// shifts with the sign bit.
pub open spec fn shifted_bit(op: ShiftOp, x: Seq<bool>, s: int, k: int) -> bool {
    match op {
        ShiftOp::SLL => if s <= k {
            x[k - s]
        } else {
            false
        },
        ShiftOp::SRL => if k + s < x.len() {
            x[k + s]
        } else {
            false
        },
        ShiftOp::SRA => if k + s < x.len() {
            x[k + s]
        } else {
            x[x.len() - 1]
        },
    }
}

/// The shifted word read from an assignment of a shift circuit: bit `j` is
/// variable `shift_bits + j`.
pub open spec fn shift_input(v: Seq<bool>, shift_bits: nat, input_bits: nat) -> Seq<bool> {
    Seq::new(input_bits, |j: int| v[shift_bits + j])
}

/// The shift amount read from an assignment of a shift circuit: its bits
/// are variables `0, ..., shift_bits - 1`.
pub open spec fn shift_amount(v: Seq<bool>, shift_bits: nat) -> Seq<bool> {
    Seq::new(shift_bits, |i: int| v[i])
}

/// The evaluation order of a shift circuit's inputs: the word's variables
/// `x_{shift_bits}, ..., x_{shift_bits + input_bits - 1}`, then the shift
/// amount's `x_0, ..., x_{shift_bits - 1}`.
pub open spec fn shift_input_order(input_bits: nat, shift_bits: nat) -> Seq<Seq<char>> {
    Seq::new(input_bits, |i: int| indexed(seq!['x', '_'], (i + shift_bits) as nat)) + Seq::new(
        shift_bits,
        |i: int| indexed(seq!['x', '_'], i as nat),
    )
}

/// The evaluation order of a shift circuit's inputs (see
/// `shift_input_order`).
pub fn input_order(input_bits: usize, shift_bits: usize) -> (r: Vec<String>)
    requires
        input_bits + shift_bits <= usize::MAX,
    ensures
        r@.map_values(|s: String| s@) == shift_input_order(input_bits as nat, shift_bits as nat),
{
    let mut r: Vec<String> = Vec::new();
    let mut i: usize = 0;
    while i < input_bits
        invariant
            i <= input_bits,
            input_bits + shift_bits <= usize::MAX,
            r@.len() == i,
            forall|j: int| 0 <= j < i ==> #[trigger] r@[j]@ == shift_input_order(input_bits as nat, shift_bits as nat)[j],
        decreases input_bits - i,
    {
        let ghost old_r = r@;
        r.push(indexed_name("x_", i + shift_bits));
        proof {
            reveal_strlit("x_");
            assert("x_"@ =~= seq!['x', '_']);
            assert forall|j: int| 0 <= j < i + 1 implies #[trigger] r@[j]@ == shift_input_order(input_bits as nat, shift_bits as nat)[j] by {
                if j < i {
                    assert(r@[j] == old_r[j]);
                }
            }
        }
        i = i + 1;
    }
    let mut i: usize = 0;
    while i < shift_bits
        invariant
            i <= shift_bits,
            input_bits + shift_bits <= usize::MAX,
            r@.len() == input_bits + i,
            forall|j: int| 0 <= j < input_bits + i ==> #[trigger] r@[j]@ == shift_input_order(input_bits as nat, shift_bits as nat)[j],
        decreases shift_bits - i,
    {
        let ghost old_r = r@;
        r.push(indexed_name("x_", i));
        proof {
            reveal_strlit("x_");
            assert("x_"@ =~= seq!['x', '_']);
            assert forall|j: int| 0 <= j < input_bits + i + 1 implies #[trigger] r@[j]@ == shift_input_order(input_bits as nat, shift_bits as nat)[j] by {
                if j < input_bits + i {
                    assert(r@[j] == old_r[j]);
                }
            }
        }
        i = i + 1;
    }
    proof {
        assert(r@.map_values(|s: String| s@) =~= shift_input_order(input_bits as nat, shift_bits as nat));
    }
    r
}

proof fn lemma_jump_fits(i: nat)
    requires
        i < usize::BITS,
    ensures
        pow2(i) + 65536 <= usize::MAX,
{
    vstd::arithmetic::power2::lemma2_to64();
    vstd::arithmetic::power2::lemma2_to64_rest();
    if usize::BITS == 32 {
        if i < 31 {
            vstd::arithmetic::power2::lemma_pow2_strictly_increases(i, 31);
        }
    } else {
        if i < 63 {
            vstd::arithmetic::power2::lemma_pow2_strictly_increases(i, 63);
        }
    }
}

/// A barrel shifter: the word is shifted by `op`, one stage per bit of the
/// shift amount; stage `i` shifts by `2^i` where shift bit `i` is set.
pub fn shift_circuit(input_bits: usize, shift_bits: usize, shift_op: ShiftOp) -> (res: (
    Vec<Bdd>,
    BddVariableSet,
))
    requires
        input_bits + shift_bits < u16::MAX - 1,
        shift_bits <= usize::BITS,
    ensures
        var_set_names(res.1).len() == input_bits + shift_bits,
        forall|i: int|
            0 <= i < input_bits + shift_bits ==> #[trigger] var_set_names(res.1)[i] == indexed(
                seq!['x', '_'],
                i as nat,
            ),
        res.0.len() == input_bits,
        all_wf(res.0@, (input_bits + shift_bits) as nat),
        forall|k: int, v: Seq<bool>|
            0 <= k < input_bits ==> #[trigger] bdd_eval(res.0@[k], v) == shifted_bit(
                shift_op,
                shift_input(v, shift_bits as nat, input_bits as nat),
                bits_value(shift_amount(v, shift_bits as nat)),
                k,
            ),
{
    let variables = var_set_new_anonymous((input_bits + shift_bits) as u16);
    let ghost nv = (input_bits + shift_bits) as nat;
    let ghost n = input_bits as int;
    let ghost xs = |v: Seq<bool>| shift_input(v, shift_bits as nat, input_bits as nat);
    let ghost ts = |v: Seq<bool>, i: int| bits_value(shift_amount(v, shift_bits as nat).take(i));

    let mut a: Vec<Bdd> = Vec::new();
    let mut b: Vec<Bdd> = Vec::new();
    let mut i: usize = 0;
    while i < shift_bits
        invariant
            i <= shift_bits,
            input_bits + shift_bits < u16::MAX - 1,
            nv == input_bits + shift_bits,
            var_set_names(variables).len() == nv,
            b.len() == i,
            all_wf(b@, nv),
            forall|k: int, v: Seq<bool>| 0 <= k < i ==> #[trigger] bdd_eval(b@[k], v) == v[k],
        decreases shift_bits - i,
    {
        let x = var_set_mk_var(&variables, i);
        proof {
            lemma_var_nodes(x, nv, i as int);
        }
        b.push(x);
        i = i + 1;
    }
    let mut i: usize = 0;
    while i < input_bits
        invariant
            i <= input_bits,
            input_bits + shift_bits < u16::MAX - 1,
            nv == input_bits + shift_bits,
            var_set_names(variables).len() == nv,
            a.len() == i,
            all_wf(a@, nv),
            forall|k: int, v: Seq<bool>|
                0 <= k < i ==> #[trigger] bdd_eval(a@[k], v) == v[shift_bits + k],
        decreases input_bits - i,
    {
        let x = var_set_mk_var(&variables, shift_bits + i);
        proof {
            lemma_var_nodes(x, nv, (shift_bits + i) as int);
        }
        a.push(x);
        i = i + 1;
    }
    proof {
        assert forall|k: int, v: Seq<bool>| 0 <= k < input_bits implies #[trigger] bdd_eval(a@[k], v)
            == shifted_bit(shift_op, xs(v), ts(v, 0), k) by {
            assert(shift_amount(v, shift_bits as nat).take(0) =~= Seq::<bool>::empty());
        }
    }

    let mk_false = mk_false(&variables);
    let mut i: usize = 0;
    while i < shift_bits
        invariant
            i <= shift_bits <= usize::BITS,
            input_bits + shift_bits < u16::MAX - 1,
            nv == input_bits + shift_bits,
            n == input_bits,
            xs == (|v: Seq<bool>| shift_input(v, shift_bits as nat, input_bits as nat)),
            ts == (|v: Seq<bool>, i: int| bits_value(shift_amount(v, shift_bits as nat).take(i))),
            bdd_wf(mk_false),
            num_vars(mk_false) == nv,
            forall|v: Seq<bool>| !#[trigger] bdd_eval(mk_false, v),
            b.len() == shift_bits,
            all_wf(b@, nv),
            forall|k: int, v: Seq<bool>| 0 <= k < shift_bits ==> #[trigger] bdd_eval(b@[k], v) == v[k],
            a.len() == input_bits,
            all_wf(a@, nv),
            forall|k: int, v: Seq<bool>|
                0 <= k < input_bits ==> #[trigger] bdd_eval(a@[k], v) == shifted_bit(
                    shift_op,
                    xs(v),
                    ts(v, i as int),
                    k,
                ),
        decreases shift_bits - i,
    {
        proof {
            lemma_usize_pow2_no_overflow(i as nat);
            lemma_usize_shl_is_mul(1, i);
            lemma_jump_fits(i as nat);
        }
        let jump: usize = 1 << i;
        proof {
            assert forall|v: Seq<bool>| #[trigger] ts(v, i + 1) == ts(v, i as int) + b2i(v[i as int]) * jump by {
                let sa = shift_amount(v, shift_bits as nat);
                assert(sa.take(i + 1).drop_last() =~= sa.take(i as int));
            }
            assert forall|v: Seq<bool>| 0 <= #[trigger] ts(v, i as int) by {
                crate::bits::lemma_bits_value_bounds(shift_amount(v, shift_bits as nat).take(i as int));
            }
        }

        let mut next: Vec<Bdd> = Vec::new();
        let mut j: usize = 0;
        while j < input_bits
            invariant
                i < shift_bits <= usize::BITS,
                j <= input_bits,
                jump == pow2(i as nat),
                jump + 65536 <= usize::MAX,
                input_bits + shift_bits < u16::MAX - 1,
                nv == input_bits + shift_bits,
                n == input_bits,
                xs == (|v: Seq<bool>| shift_input(v, shift_bits as nat, input_bits as nat)),
                ts == (|v: Seq<bool>, i: int| bits_value(shift_amount(v, shift_bits as nat).take(i))),
                forall|v: Seq<bool>| #[trigger] ts(v, i + 1) == ts(v, i as int) + b2i(v[i as int]) * jump,
                forall|v: Seq<bool>| 0 <= #[trigger] ts(v, i as int),
                bdd_wf(mk_false),
                num_vars(mk_false) == nv,
                forall|v: Seq<bool>| !#[trigger] bdd_eval(mk_false, v),
                b.len() == shift_bits,
                all_wf(b@, nv),
                forall|k: int, v: Seq<bool>| 0 <= k < shift_bits ==> #[trigger] bdd_eval(b@[k], v) == v[k],
                a.len() == input_bits,
                all_wf(a@, nv),
                forall|k: int, v: Seq<bool>|
                    0 <= k < input_bits ==> #[trigger] bdd_eval(a@[k], v) == shifted_bit(
                        shift_op,
                        xs(v),
                        ts(v, i as int),
                        k,
                    ),
                next.len() == j,
                all_wf(next@, nv),
                forall|k: int, v: Seq<bool>|
                    0 <= k < j ==> #[trigger] bdd_eval(next@[k], v) == shifted_bit(
                        shift_op,
                        xs(v),
                        ts(v, i + 1),
                        k,
                    ),
            decreases input_bits - j,
        {
            let if_true_var: &Bdd = match shift_op {
                ShiftOp::SLL => if jump > j {
                    &mk_false
                } else {
                    &a[j - jump]
                },
                ShiftOp::SRL => if jump + j >= input_bits {
                    &mk_false
                } else {
                    &a[j + jump]
                },
                ShiftOp::SRA => if jump + j >= input_bits {
                    &a[input_bits - 1]
                } else {
                    &a[j + jump]
                },
            };
            let if_false_var = &a[j];
            let o = bdd_if_then_else(&b[i], if_true_var, if_false_var);
            let ghost old_next = next@;
            next.push(o);
            proof {
                assert forall|k: int, v: Seq<bool>| 0 <= k < j + 1 implies #[trigger] bdd_eval(next@[k], v)
                    == shifted_bit(shift_op, xs(v), ts(v, i + 1), k) by {
                    if k < j {
                        assert(next@[k] == old_next[k]);
                    } else {
                        let t = ts(v, i as int);
                        assert(bdd_eval(a@[j as int], v) == shifted_bit(shift_op, xs(v), t, j as int));
                        assert(bdd_eval(b@[i as int], v) == v[i as int]);
                        if v[i as int] {
                            assert(ts(v, i + 1) == t + jump);
                            match shift_op {
                                ShiftOp::SLL => {
                                    if jump <= j {
                                        assert(bdd_eval(a@[j - jump], v) == shifted_bit(shift_op, xs(v), t, j - jump));
                                    }
                                },
                                ShiftOp::SRL => {
                                    if jump + j < input_bits {
                                        assert(bdd_eval(a@[j + jump], v) == shifted_bit(shift_op, xs(v), t, j + jump));
                                    }
                                },
                                ShiftOp::SRA => {
                                    if jump + j < input_bits {
                                        assert(bdd_eval(a@[j + jump], v) == shifted_bit(shift_op, xs(v), t, j + jump));
                                    } else {
                                        assert(bdd_eval(a@[input_bits - 1], v) == shifted_bit(shift_op, xs(v), t, input_bits - 1));
                                    }
                                },
                            }
                        } else {
                            assert(ts(v, i + 1) == t);
                        }
                    }
                }
            }
            j = j + 1;
        }
        a = next;
        i = i + 1;
    }
    proof {
        assert forall|k: int, v: Seq<bool>| 0 <= k < input_bits implies #[trigger] bdd_eval(a@[k], v)
            == shifted_bit(
            shift_op,
            shift_input(v, shift_bits as nat, input_bits as nat),
            bits_value(shift_amount(v, shift_bits as nat)),
            k,
        ) by {
            assert(shift_amount(v, shift_bits as nat).take(shift_bits as int) =~= shift_amount(v, shift_bits as nat));
        }
    }
    (a, variables)
}

/// The exponent of the power of two `n`.
pub open spec fn log2_of(n: nat) -> nat {
    choose|k: nat| pow2(k) == n
}

/// Powers of two tell their exponents apart.
pub proof fn lemma_pow2_injective(a: nat, b: nat)
    requires
        pow2(a) == pow2(b),
    ensures
        a == b,
{
    if a < b {
        lemma_pow2_strictly_increases(a, b);
    } else if b < a {
        lemma_pow2_strictly_increases(b, a);
    }
}

/// How the shift circuit's variables `x_0, ..., x_{s + n - 1}` (amount, then
/// word) read the inputs (word, then amount): variable `i` reads input
/// `n + i` where `i < s`, input `i - s` elsewhere.
pub open spec fn shift_read(n: nat, s: nat) -> Seq<int> {
    Seq::new(n + s, |i: int| if i < s { n + i } else { i - s })
}

/// What the generated shift circuit computes from the inputs: the word
/// `w0, ..., w{n-1}` shifted with `op` by the amount `s0, ..., s{k-1}` that
/// follows it.
pub open spec fn shift_of_inputs(op: ShiftOp, n: nat, k: nat) -> spec_fn(Seq<bool>) -> int {
    |inputs: Seq<bool>|
        bits_value(
            Seq::new(
                n,
                |j: int|
                    shifted_bit(op, inputs.take(n as int), bits_value(inputs.subrange(n as int, (n + k) as int)), j),
            ),
        )
}

/// Generates the source of the shift `shift_op` of `word_size`-bit words by
/// a `log2(word_size)`-bit amount; `None` when one of its diagrams is too
/// large to lay out.
pub fn codegen_shift(word_size: usize, shift_op: ShiftOp) -> (r: Option<String>)
    requires
        is_power_of_two(word_size as nat),
        word_size + log2_of(word_size as nat) < u16::MAX - 1,
    ensures
        r matches Some(t) ==> generates(
            t@,
            word_size as nat + log2_of(word_size as nat),
            word_size as nat,
            shift_of_inputs(shift_op, word_size as nat, log2_of(word_size as nat)),
        ),
        r is None ==> layout_fails(
            shift_read(word_size as nat, log2_of(word_size as nat)),
            word_size as nat + log2_of(word_size as nat),
            word_size as nat,
            shift_of_inputs(shift_op, word_size as nat, log2_of(word_size as nat)),
        ),
{
    let ghost kk = log2_of(word_size as nat);
    proof {
        assert(pow2(kk) == word_size);
        lemma2_to64();
        if kk >= 16 {
            if kk > 16 {
                lemma_pow2_strictly_increases(16, kk);
            }
        }
    }
    let mut shift_bits: usize = 0;
    let mut p: usize = 1;
    while p < word_size
        invariant
            p == pow2(shift_bits as nat),
            1 <= p <= word_size,
            pow2(kk) == word_size,
            kk < 16,
            shift_bits <= kk,
        decreases word_size - p,
    {
        proof {
            if shift_bits == kk {
                assert(false);
            }
            lemma_pow2_unfold((shift_bits + 1) as nat);
            if shift_bits + 1 < kk {
                lemma_pow2_strictly_increases((shift_bits + 1) as nat, kk);
            }
        }
        p = p * 2;
        shift_bits = shift_bits + 1;
    }
    proof {
        lemma_pow2_injective(shift_bits as nat, kk);
    }
    let (bdds, vars) = shift_circuit(word_size, shift_bits, shift_op);
    let input_order = input_order(word_size, shift_bits);
    let ghost n = word_size as nat;
    let ghost s = shift_bits as nat;
    let ghost names = var_set_names(vars);
    let ghost order = strings_view(input_order@);
    let ghost empty = Seq::<(Seq<char>, Seq<char>)>::empty();
    let ghost x = seq!['x', '_'];
    let ghost map = |i: int| if i < s { n + i } else { i - s };
    proof {
        lemma_extras_prefixes();
        reveal_strlit("x_");
        assert("x_"@ =~= x);
        let pf = |j: int| x;
        let ix = |j: int| if j < n { (j + s) as nat } else { (j - n) as nat };
        assert forall|j: int|
            #![trigger order[j]]
            0 <= j < order.len() implies order[j] == indexed(pf(j), ix(j)) && name_prefix(pf(j)) by {}
        lemma_indexed_names_valid(order, pf, ix);
        assert(alias_view(None) == empty);
        assert forall|i: int| 0 <= i < names.len() implies 0 <= #[trigger] map(i) < order.len() && order[map(i)] == names[i] by {}
        assert forall|i: int| 0 <= i < names.len() implies order.contains(dealias(empty, #[trigger] names[i])) by {
            assert(!exists|j: int| first_key(empty, names[i], j));
            assert(order[map(i)] == names[i]);
        }
    }
    let r = codegen_circuits(&bdds, &vars, &input_order, None);
    proof {
        {
            let f = shift_of_inputs(shift_op, n, s);
            let g = |v: Seq<bool>|
                bits_value(
                    Seq::new(n, |j: int| shifted_bit(shift_op, shift_input(v, s, n), bits_value(shift_amount(v, s)), j)),
                );
            assert forall|v: Seq<bool>| #[trigger] bits_value(eval_all(bdds@, v)) == g(v) by {
                assert(eval_all(bdds@, v) =~= Seq::new(
                    n,
                    |j: int| shifted_bit(shift_op, shift_input(v, s, n), bits_value(shift_amount(v, s)), j),
                ));
            }
            assert forall|inputs: Seq<bool>| inputs.len() == order.len() implies #[trigger] f(inputs) == g(
                bdd_inputs(names, order, empty, inputs),
            ) by {
                lemma_inputs_map(names, order, inputs, map);
                let v = bdd_inputs(names, order, empty, inputs);
                assert(shift_input(v, s, n) =~= inputs.take(n as int)) by {
                    assert forall|j: int| 0 <= j < n implies #[trigger] shift_input(v, s, n)[j] == inputs[j] by {
                        assert(v[s + j] == inputs[map(s + j)]);
                    }
                }
                assert(shift_amount(v, s) =~= inputs.subrange(n as int, (n + s) as int)) by {
                    assert forall|i: int| 0 <= i < s implies #[trigger] shift_amount(v, s)[i] == inputs[n + i] by {
                        assert(v[i] == inputs[map(i)]);
                    }
                }
            }
            lemma_generates(r, bdds@, names, order, empty, g, f);
            lemma_read_of_map_plain(names, order, map);
            assert(Seq::new(names.len(), map) =~= shift_read(n, s));
        }
    }
    r
}

/// The source of the left shift of `word_size`-bit words: inputs the word,
/// then the `log2(word_size)` bits of the amount; `None` when one of its
/// diagrams is too large to lay out.
pub fn codegen_sll(word_size: usize) -> (r: Option<String>)
    requires
        is_power_of_two(word_size as nat),
        word_size + log2_of(word_size as nat) < u16::MAX - 1,
    ensures
        r matches Some(t) ==> generates(
            t@,
            word_size as nat + log2_of(word_size as nat),
            word_size as nat,
            shift_of_inputs(ShiftOp::SLL, word_size as nat, log2_of(word_size as nat)),
        ),
        r is None ==> layout_fails(
            shift_read(word_size as nat, log2_of(word_size as nat)),
            word_size as nat + log2_of(word_size as nat),
            word_size as nat,
            shift_of_inputs(ShiftOp::SLL, word_size as nat, log2_of(word_size as nat)),
        ),
{
    codegen_shift(word_size, ShiftOp::SLL)
}

/// The source of the logical right shift of `word_size`-bit words: inputs
/// the word, then the `log2(word_size)` bits of the amount; `None` when one
/// of its diagrams is too large to lay out.
pub fn codegen_srl(word_size: usize) -> (r: Option<String>)
    requires
        is_power_of_two(word_size as nat),
        word_size + log2_of(word_size as nat) < u16::MAX - 1,
    ensures
        r matches Some(t) ==> generates(
            t@,
            word_size as nat + log2_of(word_size as nat),
            word_size as nat,
            shift_of_inputs(ShiftOp::SRL, word_size as nat, log2_of(word_size as nat)),
        ),
        r is None ==> layout_fails(
            shift_read(word_size as nat, log2_of(word_size as nat)),
            word_size as nat + log2_of(word_size as nat),
            word_size as nat,
            shift_of_inputs(ShiftOp::SRL, word_size as nat, log2_of(word_size as nat)),
        ),
{
    codegen_shift(word_size, ShiftOp::SRL)
}

/// The source of the arithmetic right shift of `word_size`-bit words:
/// inputs the word, then the `log2(word_size)` bits of the amount; `None`
/// when one of its diagrams is too large to lay out.
pub fn codegen_sra(word_size: usize) -> (r: Option<String>)
    requires
        is_power_of_two(word_size as nat),
        word_size + log2_of(word_size as nat) < u16::MAX - 1,
    ensures
        r matches Some(t) ==> generates(
            t@,
            word_size as nat + log2_of(word_size as nat),
            word_size as nat,
            shift_of_inputs(ShiftOp::SRA, word_size as nat, log2_of(word_size as nat)),
        ),
        r is None ==> layout_fails(
            shift_read(word_size as nat, log2_of(word_size as nat)),
            word_size as nat + log2_of(word_size as nat),
            word_size as nat,
            shift_of_inputs(ShiftOp::SRA, word_size as nat, log2_of(word_size as nat)),
        ),
{
    codegen_shift(word_size, ShiftOp::SRA)
}

/// The input order listed for the combined shift: `x_{shift_bits}`,
/// `x_{shift_bits + 1}`, then `x_0, ..., x_{shift_bits - 1}`, then
/// `x_{shift_bits}, ..., x_{shift_bits + input_bits - 1}`.
pub open spec fn combined_input_order(input_bits: nat, shift_bits: nat) -> Seq<Seq<char>> {
    seq![indexed(seq!['x', '_'], shift_bits), indexed(seq!['x', '_'], shift_bits + 1)] + Seq::new(
        shift_bits,
        |i: int| indexed(seq!['x', '_'], i as nat),
    ) + Seq::new(input_bits, |i: int| indexed(seq!['x', '_'], (i + shift_bits) as nat))
}

/// The input order listed for the combined shift (see
/// `combined_input_order`).
pub fn shift_circuit_combined_input_order(input_bits: usize, shift_bits: usize) -> (r: Vec<String>)
    requires
        input_bits + shift_bits + 2 <= usize::MAX,
    ensures
        r@.map_values(|s: String| s@) == combined_input_order(input_bits as nat, shift_bits as nat),
{
    let ghost x = seq!['x', '_'];
    let ghost target = combined_input_order(input_bits as nat, shift_bits as nat);
    proof {
        reveal_strlit("x_");
        assert("x_"@ =~= x);
    }
    let mut r: Vec<String> = Vec::new();
    r.push(indexed_name("x_", shift_bits));
    r.push(indexed_name("x_", shift_bits + 1));
    let mut i: usize = 0;
    while i < shift_bits
        invariant
            i <= shift_bits,
            input_bits + shift_bits + 2 <= usize::MAX,
            x == "x_"@,
            x == seq!['x', '_'],
            target == combined_input_order(input_bits as nat, shift_bits as nat),
            r@.len() == 2 + i,
            forall|j: int| 0 <= j < 2 + i ==> #[trigger] r@[j]@ == target[j],
        decreases shift_bits - i,
    {
        let ghost old_r = r@;
        r.push(indexed_name("x_", i));
        proof {
            assert forall|j: int| 0 <= j < 2 + i + 1 implies #[trigger] r@[j]@ == target[j] by {
                if j < 2 + i {
                    assert(r@[j] == old_r[j]);
                } else {
                    let first = seq![indexed(x, shift_bits as nat), indexed(x, (shift_bits + 1) as nat)] + Seq::new(
                        shift_bits as nat,
                        |k: int| indexed(x, k as nat),
                    );
                    assert(target[j] == first[j]);
                    assert(first[j] == indexed(x, i as nat));
                }
            }
        }
        i = i + 1;
    }
    let mut i: usize = 0;
    while i < input_bits
        invariant
            i <= input_bits,
            input_bits + shift_bits + 2 <= usize::MAX,
            x == "x_"@,
            x == seq!['x', '_'],
            target == combined_input_order(input_bits as nat, shift_bits as nat),
            r@.len() == 2 + shift_bits + i,
            forall|j: int| 0 <= j < 2 + shift_bits + i ==> #[trigger] r@[j]@ == target[j],
        decreases input_bits - i,
    {
        let ghost old_r = r@;
        r.push(indexed_name("x_", i + shift_bits));
        proof {
            assert forall|j: int| 0 <= j < 2 + shift_bits + i + 1 implies #[trigger] r@[j]@ == target[j] by {
                if j < 2 + shift_bits + i {
                    assert(r@[j] == old_r[j]);
                } else {
                    assert(target[j] == indexed(x, (i + shift_bits) as nat));
                }
            }
        }
        i = i + 1;
    }
    proof {
        assert(r@.map_values(|s: String| s@) =~= target);
    }
    r
}

/// The shift that the signals of the combined shift select: `s1` (variable
/// `shift_bits + 1`) unset selects the left shift; set, `s0` (variable
/// `shift_bits`) selects the arithmetic over the logical right shift.
pub open spec fn combined_op(v: Seq<bool>, shift_bits: nat) -> ShiftOp {
    if !v[shift_bits + 1 as int] {
        ShiftOp::SLL
    } else if !v[shift_bits as int] {
        ShiftOp::SRL
    } else {
        ShiftOp::SRA
    }
}

/// The shifted word of the combined shift: bit `j` is variable
/// `shift_bits + 2 + j`.
pub open spec fn combined_input(v: Seq<bool>, shift_bits: nat, input_bits: nat) -> Seq<bool> {
    Seq::new(input_bits, |j: int| v[shift_bits + 2 + j])
}

/// A barrel shifter for all three shifts over the variables
/// `x_0, ..., x_{2 + shift_bits + input_bits - 1}`: the shift amount, then
/// the two signals `s0, s1` that select the shift, then the word.
pub fn shift_circuit_combined(input_bits: usize, shift_bits: usize) -> (res: (Vec<Bdd>, BddVariableSet))
    requires
        2 + input_bits + shift_bits < u16::MAX - 1,
        shift_bits <= usize::BITS,
    ensures
        var_set_names(res.1).len() == 2 + input_bits + shift_bits,
        forall|i: int|
            0 <= i < 2 + input_bits + shift_bits ==> #[trigger] var_set_names(res.1)[i] == indexed(
                seq!['x', '_'],
                i as nat,
            ),
        res.0.len() == input_bits,
        all_wf(res.0@, (2 + input_bits + shift_bits) as nat),
        forall|k: int, v: Seq<bool>|
            0 <= k < input_bits ==> #[trigger] bdd_eval(res.0@[k], v) == shifted_bit(
                combined_op(v, shift_bits as nat),
                combined_input(v, shift_bits as nat, input_bits as nat),
                bits_value(shift_amount(v, shift_bits as nat)),
                k,
            ),
{
    let variables = var_set_new_anonymous((2 + input_bits + shift_bits) as u16);
    let ghost nv = (2 + input_bits + shift_bits) as nat;
    let ghost n = input_bits as int;
    let ghost sb = shift_bits as nat;
    let ghost xs = |v: Seq<bool>| combined_input(v, shift_bits as nat, input_bits as nat);
    let ghost ts = |v: Seq<bool>, i: int| bits_value(shift_amount(v, shift_bits as nat).take(i));
    let ghost op = |v: Seq<bool>| combined_op(v, shift_bits as nat);

    let mut a: Vec<Bdd> = Vec::new();
    let mut b: Vec<Bdd> = Vec::new();
    let s0 = var_set_mk_var(&variables, shift_bits);
    let s1 = var_set_mk_var(&variables, shift_bits + 1);
    proof {
        lemma_var_nodes(s0, nv, shift_bits as int);
        lemma_var_nodes(s1, nv, shift_bits + 1 as int);
    }
    let mut i: usize = 0;
    while i < shift_bits
        invariant
            i <= shift_bits,
            2 + input_bits + shift_bits < u16::MAX - 1,
            nv == 2 + input_bits + shift_bits,
            var_set_names(variables).len() == nv,
            b.len() == i,
            all_wf(b@, nv),
            forall|k: int, v: Seq<bool>| 0 <= k < i ==> #[trigger] bdd_eval(b@[k], v) == v[k],
        decreases shift_bits - i,
    {
        let x = var_set_mk_var(&variables, i);
        proof {
            lemma_var_nodes(x, nv, i as int);
        }
        b.push(x);
        i = i + 1;
    }
    let mut i: usize = 0;
    while i < input_bits
        invariant
            i <= input_bits,
            2 + input_bits + shift_bits < u16::MAX - 1,
            nv == 2 + input_bits + shift_bits,
            var_set_names(variables).len() == nv,
            a.len() == i,
            all_wf(a@, nv),
            forall|k: int, v: Seq<bool>|
                0 <= k < i ==> #[trigger] bdd_eval(a@[k], v) == v[shift_bits + 2 + k],
        decreases input_bits - i,
    {
        let x = var_set_mk_var(&variables, shift_bits + i + 2);
        proof {
            lemma_var_nodes(x, nv, (shift_bits + i + 2) as int);
        }
        a.push(x);
        i = i + 1;
    }
    proof {
        assert forall|k: int, v: Seq<bool>| 0 <= k < input_bits implies #[trigger] bdd_eval(a@[k], v)
            == shifted_bit(op(v), xs(v), ts(v, 0), k) by {
            assert(shift_amount(v, shift_bits as nat).take(0) =~= Seq::<bool>::empty());
        }
    }

    let mk_false = mk_false(&variables);
    let mut i: usize = 0;
    while i < shift_bits
        invariant
            i <= shift_bits <= usize::BITS,
            2 + input_bits + shift_bits < u16::MAX - 1,
            nv == 2 + input_bits + shift_bits,
            n == input_bits,
            xs == (|v: Seq<bool>| combined_input(v, shift_bits as nat, input_bits as nat)),
            ts == (|v: Seq<bool>, i: int| bits_value(shift_amount(v, shift_bits as nat).take(i))),
            op == (|v: Seq<bool>| combined_op(v, shift_bits as nat)),
            bdd_wf(mk_false),
            num_vars(mk_false) == nv,
            forall|v: Seq<bool>| !#[trigger] bdd_eval(mk_false, v),
            bdd_wf(s0),
            num_vars(s0) == nv,
            forall|v: Seq<bool>| #[trigger] bdd_eval(s0, v) == v[shift_bits as int],
            bdd_wf(s1),
            num_vars(s1) == nv,
            forall|v: Seq<bool>| #[trigger] bdd_eval(s1, v) == v[shift_bits + 1],
            b.len() == shift_bits,
            all_wf(b@, nv),
            forall|k: int, v: Seq<bool>| 0 <= k < shift_bits ==> #[trigger] bdd_eval(b@[k], v) == v[k],
            a.len() == input_bits,
            all_wf(a@, nv),
            forall|k: int, v: Seq<bool>|
                0 <= k < input_bits ==> #[trigger] bdd_eval(a@[k], v) == shifted_bit(op(v), xs(v), ts(v, i as int), k),
        decreases shift_bits - i,
    {
        proof {
            lemma_usize_pow2_no_overflow(i as nat);
            lemma_usize_shl_is_mul(1, i);
            lemma_jump_fits(i as nat);
        }
        let jump: usize = 1 << i;
        proof {
            assert forall|v: Seq<bool>| #[trigger] ts(v, i + 1) == ts(v, i as int) + b2i(v[i as int]) * jump by {
                let sa = shift_amount(v, shift_bits as nat);
                assert(sa.take(i + 1).drop_last() =~= sa.take(i as int));
            }
            assert forall|v: Seq<bool>| 0 <= #[trigger] ts(v, i as int) by {
                crate::bits::lemma_bits_value_bounds(shift_amount(v, shift_bits as nat).take(i as int));
            }
        }

        let mut next: Vec<Bdd> = Vec::new();
        let mut j: usize = 0;
        while j < input_bits
            invariant
                i < shift_bits <= usize::BITS,
                j <= input_bits,
                jump == pow2(i as nat),
                jump + 65536 <= usize::MAX,
                2 + input_bits + shift_bits < u16::MAX - 1,
                nv == 2 + input_bits + shift_bits,
                n == input_bits,
                xs == (|v: Seq<bool>| combined_input(v, shift_bits as nat, input_bits as nat)),
                ts == (|v: Seq<bool>, i: int| bits_value(shift_amount(v, shift_bits as nat).take(i))),
                op == (|v: Seq<bool>| combined_op(v, shift_bits as nat)),
                forall|v: Seq<bool>| #[trigger] ts(v, i + 1) == ts(v, i as int) + b2i(v[i as int]) * jump,
                forall|v: Seq<bool>| 0 <= #[trigger] ts(v, i as int),
                bdd_wf(mk_false),
                num_vars(mk_false) == nv,
                forall|v: Seq<bool>| !#[trigger] bdd_eval(mk_false, v),
                bdd_wf(s0),
                num_vars(s0) == nv,
                forall|v: Seq<bool>| #[trigger] bdd_eval(s0, v) == v[shift_bits as int],
                bdd_wf(s1),
                num_vars(s1) == nv,
                forall|v: Seq<bool>| #[trigger] bdd_eval(s1, v) == v[shift_bits + 1],
                b.len() == shift_bits,
                all_wf(b@, nv),
                forall|k: int, v: Seq<bool>| 0 <= k < shift_bits ==> #[trigger] bdd_eval(b@[k], v) == v[k],
                a.len() == input_bits,
                all_wf(a@, nv),
                forall|k: int, v: Seq<bool>|
                    0 <= k < input_bits ==> #[trigger] bdd_eval(a@[k], v) == shifted_bit(op(v), xs(v), ts(v, i as int), k),
                next.len() == j,
                all_wf(next@, nv),
                forall|k: int, v: Seq<bool>|
                    0 <= k < j ==> #[trigger] bdd_eval(next@[k], v) == shifted_bit(op(v), xs(v), ts(v, i + 1), k),
            decreases input_bits - j,
        {
            // 00 | 10 => SLL
            // 01      => SRL
            // 11      => SRA
            let sll_if_true: &Bdd = if jump > j {
                &mk_false
            } else {
                &a[j - jump]
            };
            let sign_or_false;
            let sr_if_true: &Bdd = if jump + j >= input_bits {
                sign_or_false = bdd_if_then_else(&s0, &a[input_bits - 1], &mk_false);
                &sign_or_false
            } else {
                &a[j + jump]
            };
            let if_true_var = bdd_if_then_else(&s1, sr_if_true, sll_if_true);
            let o = bdd_if_then_else(&b[i], &if_true_var, &a[j]);
            let ghost old_next = next@;
            next.push(o);
            proof {
                assert forall|k: int, v: Seq<bool>| 0 <= k < j + 1 implies #[trigger] bdd_eval(next@[k], v)
                    == shifted_bit(op(v), xs(v), ts(v, i + 1), k) by {
                    if k < j {
                        assert(next@[k] == old_next[k]);
                    } else {
                        let t = ts(v, i as int);
                        let o2 = op(v);
                        assert(bdd_eval(a@[j as int], v) == shifted_bit(o2, xs(v), t, j as int));
                        assert(bdd_eval(b@[i as int], v) == v[i as int]);
                        if v[i as int] {
                            assert(ts(v, i + 1) == t + jump);
                            if jump <= j {
                                assert(bdd_eval(a@[j - jump], v) == shifted_bit(o2, xs(v), t, j - jump));
                            }
                            if jump + j < input_bits {
                                assert(bdd_eval(a@[j + jump], v) == shifted_bit(o2, xs(v), t, j + jump));
                            } else {
                                assert(bdd_eval(a@[input_bits - 1], v) == shifted_bit(o2, xs(v), t, input_bits - 1));
                            }
                        } else {
                            assert(ts(v, i + 1) == t);
                        }
                    }
                }
            }
            j = j + 1;
        }
        a = next;
        i = i + 1;
    }
    proof {
        assert forall|k: int, v: Seq<bool>| 0 <= k < input_bits implies #[trigger] bdd_eval(a@[k], v)
            == shifted_bit(
            combined_op(v, shift_bits as nat),
            combined_input(v, shift_bits as nat, input_bits as nat),
            bits_value(shift_amount(v, shift_bits as nat)),
            k,
        ) by {
            assert(shift_amount(v, shift_bits as nat).take(shift_bits as int) =~= shift_amount(v, shift_bits as nat));
        }
    }
    (a, variables)
}

} // verus!

use vstd::prelude::*;
use biodivine_lib_bdd::{Bdd, BddVariableSet};
use crate::bdd::{
    bdd_eval, var_set_names, var_set_new_anonymous, var_set_mk_var, bdd_and, bdd_or, bdd_xor,
};
use crate::arithmetic::operand_read;
use crate::bdd::strings_view;
use crate::bits::bits_value;
use crate::circuit::{all_wf, eval_all, lemma_var_nodes, lemma_indexed_names_valid, name_prefix};
use crate::codegen::{codegen_circuits, generates, layout_fails, lemma_read_of_map_plain, lemma_generates, lemma_inputs_map};
use crate::extras::lemma_extras_prefixes;
use crate::names::{indexed, indexed_name};
use crate::updown::{alias_view, bdd_inputs, dealias, first_key};

verus! {

/// The bitwise operation a bitwise circuit applies to each pair of bits.
#[allow(non_camel_case_types)]
#[derive(Clone, Copy, PartialEq, Eq, Structural)]
pub enum BIT_OP {
    AND,
    OR,
    XOR,
}

/// The operation `op` on one pair of bits.
pub open spec fn apply_bit_op(op: BIT_OP, a: bool, b: bool) -> bool {
    match op {
        BIT_OP::AND => a && b,
        BIT_OP::OR => a || b,
        BIT_OP::XOR => a != b,
    }
}

/// The circuit applying `bit_op` to the bits of two `bits`-bit words over
/// the anonymous variables `x_0, ..., x_{2 bits - 1}`, where `x_{2k}` is
/// bit `k` of the first word and `x_{2k+1}` bit `k` of the second.
pub fn bitwise_circuit(bits: usize, bit_op: BIT_OP) -> (res: (Vec<Bdd>, BddVariableSet))
    requires
        2 * bits < u16::MAX - 1,
    ensures
        var_set_names(res.1).len() == 2 * bits,
        forall|i: int|
            0 <= i < 2 * bits ==> #[trigger] var_set_names(res.1)[i] == indexed(seq!['x', '_'], i as nat),
        res.0.len() == bits,
        all_wf(res.0@, 2 * bits as nat),
        forall|k: int, v: Seq<bool>|
            0 <= k < bits ==> #[trigger] bdd_eval(res.0@[k], v) == apply_bit_op(
                bit_op,
                v[2 * k],
                v[2 * k + 1],
            ),
{
    let variables = var_set_new_anonymous((bits * 2) as u16);
    let mut out: Vec<Bdd> = Vec::new();
    let mut i: usize = 0;
    while i < bits
        invariant
            i <= bits,
            2 * bits < u16::MAX - 1,
            var_set_names(variables).len() == 2 * bits,
            out.len() == i,
            all_wf(out@, 2 * bits as nat),
            forall|k: int, v: Seq<bool>|
                0 <= k < i ==> #[trigger] bdd_eval(out@[k], v) == apply_bit_op(
                    bit_op,
                    v[2 * k],
                    v[2 * k + 1],
                ),
        decreases bits - i,
    {
        let a = var_set_mk_var(&variables, 2 * i);
        let b = var_set_mk_var(&variables, 2 * i + 1);
        proof {
            lemma_var_nodes(a, 2 * bits as nat, 2 * i as int);
            lemma_var_nodes(b, 2 * bits as nat, 2 * i + 1 as int);
        }
        let o = match bit_op {
            BIT_OP::AND => bdd_and(&a, &b),
            BIT_OP::XOR => bdd_xor(&a, &b),
            BIT_OP::OR => bdd_or(&a, &b),
        };
        out.push(o);
        i = i + 1;
    }
    (out, variables)
}

/// The evaluation order of a bitwise circuit's inputs: the variables of the
/// first word, `x_0, x_2, ...`, then those of the second, `x_1, x_3, ...`.
pub open spec fn bitwise_input_order(bits: nat) -> Seq<Seq<char>> {
    Seq::new(bits, |k: int| indexed(seq!['x', '_'], (2 * k) as nat)) + Seq::new(
        bits,
        |k: int| indexed(seq!['x', '_'], (2 * k + 1) as nat),
    )
}

/// The evaluation order of a bitwise circuit's inputs (see
/// `bitwise_input_order`).
pub fn input_order(bits: usize) -> (out: Vec<String>)
    requires
        2 * bits <= usize::MAX,
    ensures
        out@.map_values(|s: String| s@) == bitwise_input_order(bits as nat),
{
    let mut out: Vec<String> = Vec::new();
    let mut i: usize = 0;
    while i < bits * 2
        invariant
            2 * bits <= usize::MAX,
            i <= 2 * bits,
            i % 2 == 0,
            out@.map_values(|s: String| s@) =~= Seq::new(
                (i / 2) as nat,
                |k: int| indexed(seq!['x', '_'], (2 * k) as nat),
            ),
        decreases 2 * bits - i,
    {
        let ghost old_out = out@;
        out.push(indexed_name("x_", i));
        proof {
            reveal_strlit("x_");
            assert("x_"@ =~= seq!['x', '_']);
            let lhs = out@.map_values(|s: String| s@);
            let rhs = Seq::new(((i + 2) / 2) as nat, |k: int| indexed(seq!['x', '_'], (2 * k) as nat));
            assert(old_out.map_values(|s: String| s@).len() == i / 2);
            assert forall|j: int| 0 <= j < lhs.len() implies lhs[j] == rhs[j] by {
                if j < i / 2 {
                    assert(out@[j] == old_out[j]);
                    assert(old_out.map_values(|s: String| s@)[j] == indexed(seq!['x', '_'], (2 * j) as nat));
                }
            }
            assert(lhs =~= rhs);
        }
        i = i + 2;
    }
    let ghost first = out@;
    let mut i: usize = 1;
    while i < bits * 2
        invariant
            2 * bits <= usize::MAX,
            1 <= i <= 2 * bits + 1,
            i % 2 == 1,
            first.map_values(|s: String| s@) == Seq::new(
                bits as nat,
                |k: int| indexed(seq!['x', '_'], (2 * k) as nat),
            ),
            out@ =~= first + out@.subrange(bits as int, out@.len() as int),
            out@.len() == bits + i / 2,
            out@.subrange(bits as int, out@.len() as int).map_values(|s: String| s@) =~= Seq::new(
                (i / 2) as nat,
                |k: int| indexed(seq!['x', '_'], (2 * k + 1) as nat),
            ),
        decreases 2 * bits + 1 - i,
    {
        let ghost old_out = out@;
        out.push(indexed_name("x_", i));
        proof {
            reveal_strlit("x_");
            assert("x_"@ =~= seq!['x', '_']);
            let tail = out@.subrange(bits as int, out@.len() as int);
            let old_tail = old_out.subrange(bits as int, old_out.len() as int);
            let lhs = tail.map_values(|s: String| s@);
            let rhs = Seq::new(((i + 2) / 2) as nat, |k: int| indexed(seq!['x', '_'], (2 * k + 1) as nat));
            assert(lhs.len() == rhs.len());
            assert forall|j: int| 0 <= j < lhs.len() implies lhs[j] == rhs[j] by {
                if j < i / 2 {
                    assert(tail[j] == old_tail[j]);
                    assert(old_tail.map_values(|s: String| s@)[j] == indexed(seq!['x', '_'], (2 * j + 1) as nat));
                } else {
                    assert(j == i / 2);
                    assert(2 * j + 1 == i);
                }
            }
            assert(lhs =~= rhs);
            assert(out@ =~= first + tail);
        }
        i = i + 2;
    }
    proof {
        let tail = out@.subrange(bits as int, out@.len() as int);
        assert(out@.map_values(|s: String| s@) =~= first.map_values(|s: String| s@) + tail.map_values(|s: String| s@));
    }
    out
}

/// What the generated bitwise circuit computes from the inputs
/// `a0, ..., a{n-1}, b0, ..., b{n-1}`: the word whose bit `k` is `op` of
/// `ak` and `bk`.
pub open spec fn bitwise_of_inputs(op: BIT_OP, n: nat) -> spec_fn(Seq<bool>) -> int {
    |inputs: Seq<bool>| bits_value(Seq::new(n, |k: int| apply_bit_op(op, inputs[k], inputs[n + k])))
}

/// Generates the source of the circuit applying `bit_op` to two
/// `word_size`-bit words; `None` when one of its diagrams is too large to
/// lay out.
pub fn codegen_bitwise_op(word_size: usize, bit_op: BIT_OP) -> (r: Option<String>)
    requires
        1 <= word_size,
        2 * word_size < u16::MAX - 1,
    ensures
        r matches Some(t) ==> generates(t@, 2 * word_size as nat, word_size as nat, bitwise_of_inputs(bit_op, word_size as nat)),
        r is None ==> layout_fails(operand_read(word_size as nat), 2 * word_size as nat, word_size as nat, bitwise_of_inputs(bit_op, word_size as nat)),
{
    let ghost n = word_size as nat;
    let (bdds, vars) = bitwise_circuit(word_size, bit_op);
    let input_order = input_order(word_size);
    let ghost names = var_set_names(vars);
    let ghost order = strings_view(input_order@);
    let ghost empty = Seq::<(Seq<char>, Seq<char>)>::empty();
    let ghost x = seq!['x', '_'];
    let ghost map = |i: int| if i % 2 == 0 { i / 2 } else { n + i / 2 };
    proof {
        lemma_extras_prefixes();
        reveal_strlit("x_");
        assert("x_"@ =~= x);
        let pf = |j: int| x;
        let ix = |j: int| if j < n { (2 * j) as nat } else { (2 * (j - n) + 1) as nat };
        assert forall|j: int|
            #![trigger order[j]]
            0 <= j < order.len() implies order[j] == indexed(pf(j), ix(j)) && name_prefix(pf(j)) by {}
        lemma_indexed_names_valid(order, pf, ix);
        assert(alias_view(None) == empty);
        assert forall|i: int| 0 <= i < names.len() implies 0 <= #[trigger] map(i) < order.len() && order[map(i)] == names[i] by {}
        assert forall|i: int| 0 <= i < names.len() implies order.contains(dealias(empty, #[trigger] names[i])) by {
            assert(!exists|j: int| first_key(empty, names[i], j));
            assert(order[map(i)] == names[i]);
        }
    }
    let r = codegen_circuits(&bdds, &vars, &input_order, None);
    proof {
        {
            let f = bitwise_of_inputs(bit_op, n);
            let g = |v: Seq<bool>| bits_value(Seq::new(n, |k: int| apply_bit_op(bit_op, v[2 * k], v[2 * k + 1])));
            assert forall|v: Seq<bool>| #[trigger] bits_value(eval_all(bdds@, v)) == g(v) by {
                assert(eval_all(bdds@, v) =~= Seq::new(n, |k: int| apply_bit_op(bit_op, v[2 * k], v[2 * k + 1])));
            }
            assert forall|inputs: Seq<bool>| inputs.len() == order.len() implies #[trigger] f(inputs) == g(
                bdd_inputs(names, order, empty, inputs),
            ) by {
                lemma_inputs_map(names, order, inputs, map);
                let v = bdd_inputs(names, order, empty, inputs);
                assert(Seq::new(n, |k: int| apply_bit_op(bit_op, inputs[k], inputs[n + k])) =~= Seq::new(
                    n,
                    |k: int| apply_bit_op(bit_op, v[2 * k], v[2 * k + 1]),
                )) by {
                    assert forall|k: int| 0 <= k < n implies v[2 * k] == #[trigger] inputs[k] && v[2 * k + 1] == inputs[n + k] by {
                        assert(v[2 * k] == inputs[map(2 * k)]);
                        assert(v[2 * k + 1] == inputs[map(2 * k + 1)]);
                    }
                }
            }
            lemma_generates(r, bdds@, names, order, empty, g, f);
            lemma_read_of_map_plain(names, order, map);
            assert(Seq::new(names.len(), map) =~= operand_read(n));
        }
    }
    r
}

/// The source of the bitwise `and` of two `word_size`-bit words: inputs
/// `a0, ..., b0, ...`; `None` when one of its diagrams is too large to lay
/// out.
pub fn codegen_and(word_size: usize) -> (r: Option<String>)
    requires
        1 <= word_size,
        2 * word_size < u16::MAX - 1,
    ensures
        r matches Some(t) ==> generates(t@, 2 * word_size as nat, word_size as nat, bitwise_of_inputs(BIT_OP::AND, word_size as nat)),
        r is None ==> layout_fails(operand_read(word_size as nat), 2 * word_size as nat, word_size as nat, bitwise_of_inputs(BIT_OP::AND, word_size as nat)),
{
    codegen_bitwise_op(word_size, BIT_OP::AND)
}

/// The source of the bitwise `or` of two `word_size`-bit words: inputs
/// `a0, ..., b0, ...`; `None` when one of its diagrams is too large to lay
/// out.
pub fn codegen_or(word_size: usize) -> (r: Option<String>)
    requires
        1 <= word_size,
        2 * word_size < u16::MAX - 1,
    ensures
        r matches Some(t) ==> generates(t@, 2 * word_size as nat, word_size as nat, bitwise_of_inputs(BIT_OP::OR, word_size as nat)),
        r is None ==> layout_fails(operand_read(word_size as nat), 2 * word_size as nat, word_size as nat, bitwise_of_inputs(BIT_OP::OR, word_size as nat)),
{
    codegen_bitwise_op(word_size, BIT_OP::OR)
}

/// The source of the bitwise `xor` of two `word_size`-bit words: inputs
/// `a0, ..., b0, ...`; `None` when one of its diagrams is too large to lay
/// out.
pub fn codegen_xor(word_size: usize) -> (r: Option<String>)
    requires
        1 <= word_size,
        2 * word_size < u16::MAX - 1,
    ensures
        r matches Some(t) ==> generates(t@, 2 * word_size as nat, word_size as nat, bitwise_of_inputs(BIT_OP::XOR, word_size as nat)),
        r is None ==> layout_fails(operand_read(word_size as nat), 2 * word_size as nat, word_size as nat, bitwise_of_inputs(BIT_OP::XOR, word_size as nat)),
{
    codegen_bitwise_op(word_size, BIT_OP::XOR)
}

} // verus!

use vstd::prelude::*;
use vstd::arithmetic::power2::pow2;
use biodivine_lib_bdd::{Bdd, BddVariableSet};
use crate::bdd::{
    bdd_wf, bdd_eval, num_vars, var_set_names, var_set_new, bdd_and, bdd_or, bdd_xor, bdd_not,
};
use crate::bits::{bits_value, carry, sum_bit, sum_bits, lemma_ripple_mod, not_bits, lemma_complement_sub};
use crate::circuit::{
    eval_all, all_wf, interleaved, two_words, numbered, name_prefix, lemma_interleaved_valid,
    interleaved_names, numbered_names, mk_named_var, mk_true, lemma_two_words_valid,
};
use crate::names::indexed_name;
use crate::codegen::{
    codegen_circuits, generates, layout_fails, lemma_generates, lemma_inputs_map, lemma_read_of_map_plain, read_of,
};
use crate::updown::{alias_view, bdd_inputs, dealias, first_key};
use crate::bdd::strings_view;

verus! {

/// Bits `v[0], v[2], v[4], ...` of the assignment `v`: the first operand of
/// an interleaved two-operand circuit.
pub open spec fn even_bits(v: Seq<bool>, n: nat) -> Seq<bool> {
    Seq::new(n, |k: int| v[2 * k])
}

/// Bits `v[1], v[3], v[5], ...` of the assignment `v`: the second operand of
/// an interleaved two-operand circuit.
pub open spec fn odd_bits(v: Seq<bool>, n: nat) -> Seq<bool> {
    Seq::new(n, |k: int| v[2 * k + 1])
}

pub proof fn lemma_prefix_a_b()
    ensures
        name_prefix("a"@),
        name_prefix("b"@),
        "a"@ != "b"@,
{
    reveal_strlit("a");
    reveal_strlit("b");
    assert("a"@[0] != "b"@[0]);
}

/// One full adder: the sum bit `x ^ y ^ c` and the carry out
/// `(x & y) | ((x ^ y) & c)`.
pub fn full_adder(x: &Bdd, y: &Bdd, c: &Bdd) -> (r: (Bdd, Bdd))
    requires
        bdd_wf(*x),
        bdd_wf(*y),
        bdd_wf(*c),
        num_vars(*x) == num_vars(*y),
        num_vars(*y) == num_vars(*c),
    ensures
        bdd_wf(r.0),
        bdd_wf(r.1),
        num_vars(r.0) == num_vars(*x),
        num_vars(r.1) == num_vars(*x),
        forall|v: Seq<bool>|
            #[trigger] bdd_eval(r.0, v) == ((bdd_eval(*x, v) != bdd_eval(*y, v)) != bdd_eval(*c, v)),
        forall|v: Seq<bool>|
            #[trigger] bdd_eval(r.1, v) == ((bdd_eval(*x, v) && bdd_eval(*y, v)) || ((bdd_eval(*x, v)
                != bdd_eval(*y, v)) && bdd_eval(*c, v))),
{
    let s = bdd_xor(&bdd_xor(x, y), c);
    let c2 = bdd_or(&bdd_and(x, y), &bdd_and(&bdd_xor(x, y), c));
    (s, c2)
}

/// The variables `p0, q0, ..., p{bits-1}, q{bits-1}` and, for each, its
/// diagram: `a[k]` is variable `2k`, `b[k]` is variable `2k + 1`.
pub fn interleaved_operands(p: &str, q: &str, bits: usize) -> (r: (Vec<Bdd>, Vec<Bdd>, BddVariableSet))
    requires
        2 * bits < u16::MAX - 1,
        name_prefix(p@),
        name_prefix(q@),
        p@ != q@,
    ensures
        var_set_names(r.2) == interleaved(p@, q@, bits as nat),
        r.0.len() == bits,
        r.1.len() == bits,
        all_wf(r.0@, 2 * bits as nat),
        all_wf(r.1@, 2 * bits as nat),
        forall|k: int, v: Seq<bool>| 0 <= k < bits ==> #[trigger] bdd_eval(r.0@[k], v) == v[2 * k],
        forall|k: int, v: Seq<bool>|
            0 <= k < bits ==> #[trigger] bdd_eval(r.1@[k], v) == v[2 * k + 1],
{
    let vars_arr = interleaved_names(p, q, bits);
    proof {
        lemma_interleaved_valid(p@, q@, bits as nat);
        assert(vars_arr@.map_values(|s: String| s@).len() == vars_arr.len());
    }
    let vars = var_set_new(&vars_arr);
    let mut a: Vec<Bdd> = Vec::new();
    let mut b: Vec<Bdd> = Vec::new();
    let mut i: usize = 0;
    while i < bits
        invariant
            i <= bits,
            2 * bits < u16::MAX - 1,
            name_prefix(p@),
            name_prefix(q@),
            p@ != q@,
            var_set_names(vars) == interleaved(p@, q@, bits as nat),
            a.len() == i,
            b.len() == i,
            all_wf(a@, 2 * bits as nat),
            all_wf(b@, 2 * bits as nat),
            forall|k: int, v: Seq<bool>| 0 <= k < i ==> #[trigger] bdd_eval(a@[k], v) == v[2 * k],
            forall|k: int, v: Seq<bool>|
                0 <= k < i ==> #[trigger] bdd_eval(b@[k], v) == v[2 * k + 1],
        decreases bits - i,
    {
        proof {
            lemma_interleaved_valid(p@, q@, bits as nat);
            assert((2 * i) as int % 2 == 0 && (2 * i) as int / 2 == i);
            assert((2 * i + 1) as int % 2 == 1 && (2 * i + 1) as int / 2 == i);
        }
        let na = indexed_name(p, i);
        let nb = indexed_name(q, i);
        let va = mk_named_var(&vars, na.as_str(), Ghost((2 * i) as int));
        let vb = mk_named_var(&vars, nb.as_str(), Ghost((2 * i + 1) as int));
        a.push(va);
        b.push(vb);
        i = i + 1;
    }
    (a, b, vars)
}

/// A ripple-carry adder over the first `bits` diagrams of `a` and `b`: a
/// half adder on position 0, then full adders.
pub fn ripple_adder(a: &Vec<Bdd>, b: &Vec<Bdd>, bits: usize) -> (out: Vec<Bdd>)
    requires
        1 <= bits <= a.len(),
        bits <= b.len(),
        all_wf(a@, num_vars(a@[0])),
        all_wf(b@, num_vars(a@[0])),
    ensures
        out.len() == bits,
        all_wf(out@, num_vars(a@[0])),
        forall|k: int, v: Seq<bool>|
            0 <= k < bits ==> #[trigger] bdd_eval(out@[k], v) == sum_bit(
                eval_all(a@.take(bits as int), v),
                eval_all(b@.take(bits as int), v),
                false,
                k as nat,
            ),
        forall|v: Seq<bool>|
            #[trigger] bits_value(eval_all(out@, v)) == (bits_value(
                eval_all(a@.take(bits as int), v),
            ) + bits_value(eval_all(b@.take(bits as int), v))) % (pow2(bits as nat) as int),
{
    let ghost nv = num_vars(a@[0]);
    let ghost n = bits as int;
    let ghost xs = |v: Seq<bool>| eval_all(a@.take(n), v);
    let ghost ys = |v: Seq<bool>| eval_all(b@.take(n), v);

    // Half adder, carry in 0.
    let mut out: Vec<Bdd> = Vec::new();
    out.push(bdd_xor(&a[0], &b[0]));
    let mut c = bdd_and(&a[0], &b[0]);
    proof {
        assert forall|v: Seq<bool>| #[trigger] bdd_eval(c, v) == carry(xs(v), ys(v), false, 1) by {
            assert(carry(xs(v), ys(v), false, 0) == false);
        }
    }

    let mut i: usize = 1;
    while i < bits
        invariant
            1 <= i <= bits,
            n == bits,
            bits <= a.len(),
            bits <= b.len(),
            nv == num_vars(a@[0]),
            all_wf(a@, nv),
            all_wf(b@, nv),
            xs == (|v: Seq<bool>| eval_all(a@.take(n), v)),
            ys == (|v: Seq<bool>| eval_all(b@.take(n), v)),
            out.len() == i,
            all_wf(out@, nv),
            bdd_wf(c),
            num_vars(c) == nv,
            forall|k: int, v: Seq<bool>|
                0 <= k < i ==> #[trigger] bdd_eval(out@[k], v) == sum_bit(xs(v), ys(v), false, k as nat),
            forall|v: Seq<bool>| #[trigger] bdd_eval(c, v) == carry(xs(v), ys(v), false, i as nat),
        decreases bits - i,
    {
        // Full adder.
        let (s, c2) = full_adder(&a[i], &b[i], &c);
        let ghost old_out = out@;
        out.push(s);
        proof {
            assert forall|k: int, v: Seq<bool>| 0 <= k < i + 1 implies #[trigger] bdd_eval(out@[k], v)
                == sum_bit(xs(v), ys(v), false, k as nat) by {
                if k < i {
                    assert(out@[k] == old_out[k]);
                }
            }
        }
        c = c2;
        i = i + 1;
    }
    proof {
        assert forall|v: Seq<bool>| #[trigger] bits_value(eval_all(out@, v)) == (bits_value(xs(v))
            + bits_value(ys(v))) % (pow2(bits as nat) as int) by {
            let x = xs(v);
            let y = ys(v);
            assert(eval_all(out@, v) =~= sum_bits(x, y, false, bits as nat));
            lemma_ripple_mod(x, y, false, bits as nat);
            assert(x.take(n) =~= x);
            assert(y.take(n) =~= y);
        }
    }
    out
}

/// The `bits`-bit adder over the interleaved variables
/// `a0, b0, a1, b1, ...`: output `k` is bit `k` of `a + b`.
pub fn add(bits: usize) -> (res: (Vec<Bdd>, BddVariableSet))
    requires
        1 <= bits,
        2 * bits < u16::MAX - 1,
    ensures
        var_set_names(res.1) == interleaved("a"@, "b"@, bits as nat),
        res.0.len() == bits,
        all_wf(res.0@, 2 * bits as nat),
        forall|v: Seq<bool>|
            #[trigger] bits_value(eval_all(res.0@, v)) == (bits_value(even_bits(v, bits as nat))
                + bits_value(odd_bits(v, bits as nat))) % (pow2(bits as nat) as int),
{
    proof {
        lemma_prefix_a_b();
    }
    let (a, b, vars) = interleaved_operands("a", "b", bits);
    let out = ripple_adder(&a, &b, bits);
    proof {
        assert forall|v: Seq<bool>| #[trigger] bits_value(eval_all(out@, v)) == (bits_value(
            even_bits(v, bits as nat),
        ) + bits_value(odd_bits(v, bits as nat))) % (pow2(bits as nat) as int) by {
            assert(eval_all(a@.take(bits as int), v) =~= even_bits(v, bits as nat));
            assert(eval_all(b@.take(bits as int), v) =~= odd_bits(v, bits as nat));
        }
    }
    (out, vars)
}

/// The `bits`-bit subtractor over the interleaved variables
/// `a0, b0, a1, b1, ...`: output `k` is bit `k` of `a - b` (wrapping).
pub fn sub(bits: usize) -> (res: (Vec<Bdd>, BddVariableSet))
    requires
        1 <= bits,
        2 * bits < u16::MAX - 1,
    ensures
        var_set_names(res.1) == interleaved("a"@, "b"@, bits as nat),
        res.0.len() == bits,
        all_wf(res.0@, 2 * bits as nat),
        forall|v: Seq<bool>|
            #[trigger] bits_value(eval_all(res.0@, v)) == (bits_value(even_bits(v, bits as nat))
                - bits_value(odd_bits(v, bits as nat))) % (pow2(bits as nat) as int),
{
    proof {
        lemma_prefix_a_b();
    }
    let (a, b0, vars) = interleaved_operands("a", "b", bits);
    let ghost n = bits as nat;

    // Negate every bit of b.
    let mut b: Vec<Bdd> = Vec::new();
    let mut j: usize = 0;
    while j < bits
        invariant
            j <= bits,
            b0.len() == bits,
            all_wf(b0@, 2 * bits as nat),
            forall|k: int, v: Seq<bool>|
                0 <= k < bits ==> #[trigger] bdd_eval(b0@[k], v) == v[2 * k + 1],
            b.len() == j,
            all_wf(b@, 2 * bits as nat),
            forall|k: int, v: Seq<bool>|
                0 <= k < j ==> #[trigger] bdd_eval(b@[k], v) == !v[2 * k + 1],
        decreases bits - j,
    {
        b.push(bdd_not(&b0[j]));
        j = j + 1;
    }

    let mut out: Vec<Bdd> = Vec::new();
    let mut c = mk_true(&vars);
    let mut i: usize = 0;
    while i < bits
        invariant
            i <= bits,
            n == bits,
            a.len() == bits,
            b.len() == bits,
            all_wf(a@, 2 * bits as nat),
            all_wf(b@, 2 * bits as nat),
            forall|k: int, v: Seq<bool>| 0 <= k < bits ==> #[trigger] bdd_eval(a@[k], v) == v[2 * k],
            forall|k: int, v: Seq<bool>|
                0 <= k < bits ==> #[trigger] bdd_eval(b@[k], v) == !v[2 * k + 1],
            out.len() == i,
            all_wf(out@, 2 * bits as nat),
            bdd_wf(c),
            num_vars(c) == 2 * bits,
            forall|k: int, v: Seq<bool>|
                0 <= k < i ==> #[trigger] bdd_eval(out@[k], v) == sum_bit(
                    even_bits(v, n),
                    not_bits(odd_bits(v, n)),
                    true,
                    k as nat,
                ),
            forall|v: Seq<bool>|
                #[trigger] bdd_eval(c, v) == carry(
                    even_bits(v, n),
                    not_bits(odd_bits(v, n)),
                    true,
                    i as nat,
                ),
        decreases bits - i,
    {
        let (s, c2) = full_adder(&a[i], &b[i], &c);
        let ghost old_out = out@;
        out.push(s);
        proof {
            assert forall|v: Seq<bool>| #[trigger] bdd_eval(c2, v) == carry(
                even_bits(v, n),
                not_bits(odd_bits(v, n)),
                true,
                (i + 1) as nat,
            ) by {
                assert(even_bits(v, n)[i as int] == v[2 * i]);
                assert(not_bits(odd_bits(v, n))[i as int] == !v[2 * i + 1]);
                assert(bdd_eval(a@[i as int], v) == v[2 * i]);
                assert(bdd_eval(b@[i as int], v) == !v[2 * i + 1]);
            }
            assert forall|k: int, v: Seq<bool>| 0 <= k < i + 1 implies #[trigger] bdd_eval(
                out@[k],
                v,
            ) == sum_bit(even_bits(v, n), not_bits(odd_bits(v, n)), true, k as nat) by {
                if k < i {
                    assert(out@[k] == old_out[k]);
                } else {
                    assert(even_bits(v, n)[i as int] == v[2 * i]);
                    assert(not_bits(odd_bits(v, n))[i as int] == !v[2 * i + 1]);
                    assert(bdd_eval(a@[i as int], v) == v[2 * i]);
                    assert(bdd_eval(b@[i as int], v) == !v[2 * i + 1]);
                }
            }
        }
        c = c2;
        i = i + 1;
    }
    proof {
        assert forall|v: Seq<bool>| #[trigger] bits_value(eval_all(out@, v)) == (bits_value(
            even_bits(v, n),
        ) - bits_value(odd_bits(v, n))) % (pow2(n) as int) by {
            let x = even_bits(v, n);
            let y = not_bits(odd_bits(v, n));
            assert(eval_all(out@, v) =~= sum_bits(x, y, true, n));
            lemma_ripple_mod(x, y, true, n);
            assert(x.take(n as int) =~= x);
            assert(y.take(n as int) =~= y);
            lemma_complement_sub(bits_value(x), odd_bits(v, n));
        }
    }
    (out, vars)
}

/// The evaluation order of the adder's and the subtractor's inputs:
/// `a0, ..., a{bits-1}, b0, ..., b{bits-1}`.
pub fn add_sub_input_order(bits: usize) -> (r: Vec<String>)
    ensures
        r@.map_values(|s: String| s@) == two_words("a"@, "b"@, bits as nat),
{
    let mut r = numbered_names("a", bits);
    let mut rb = numbered_names("b", bits);
    let ghost ra = r@;
    let ghost rbv = rb@;
    r.append(&mut rb);
    proof {
        assert(r@ == ra + rbv);
        assert(r@.map_values(|s: String| s@) =~= ra.map_values(|s: String| s@) + rbv.map_values(
            |s: String| s@,
        ));
    }
    r
}

/// How the variables `p0, q0, p1, q1, ...` of a two-operand circuit read
/// the inputs `p0, ..., p{n-1}, q0, ..., q{n-1}`: variable `2k` reads input
/// `k` and variable `2k + 1` reads input `n + k`.
pub open spec fn operand_read(n: nat) -> Seq<int> {
    Seq::new(2 * n, |j: int| if j % 2 == 0 { j / 2 } else { n + j / 2 })
}

/// The variables `p0, q0, p1, q1, ...` read the inputs
/// `p0, ..., p{n-1}, q0, ..., q{n-1}` as `operand_read` says.
pub proof fn lemma_operand_read(p: Seq<char>, q: Seq<char>, n: nat)
    requires
        name_prefix(p),
        name_prefix(q),
        p != q,
    ensures
        read_of(interleaved(p, q, n), two_words(p, q, n), Seq::empty()) == operand_read(n),
{
    let names = interleaved(p, q, n);
    let order = two_words(p, q, n);
    lemma_two_words_valid(p, q, n);
    let map = |i: int| if i % 2 == 0 { i / 2 } else { n + i / 2 };
    assert forall|i: int| 0 <= i < names.len() implies 0 <= #[trigger] map(i) < order.len() && order[map(i)] == names[i] by {
        if i % 2 == 0 {
            assert(order[map(i)] == numbered(p, n)[i / 2]);
        } else {
            assert(order[map(i)] == numbered(q, n)[i / 2]);
        }
    }
    lemma_read_of_map_plain(names, order, map);
    assert(Seq::new(names.len(), map) =~= operand_read(n));
}

/// With the variables `p0, q0, p1, q1, ...` fed from the inputs
/// `p0, ..., p{n-1}, q0, ..., q{n-1}`, the first operand is the first half of
/// the inputs and the second operand the second half.
pub proof fn lemma_split_operands(p: Seq<char>, q: Seq<char>, n: nat, inputs: Seq<bool>)
    requires
        name_prefix(p),
        name_prefix(q),
        p != q,
        inputs.len() == 2 * n,
    ensures
        even_bits(bdd_inputs(interleaved(p, q, n), two_words(p, q, n), Seq::empty(), inputs), n)
            == inputs.take(n as int),
        odd_bits(bdd_inputs(interleaved(p, q, n), two_words(p, q, n), Seq::empty(), inputs), n)
            == inputs.subrange(n as int, 2 * n as int),
{
    let names = interleaved(p, q, n);
    let order = two_words(p, q, n);
    lemma_two_words_valid(p, q, n);
    let map = |i: int| if i % 2 == 0 { i / 2 } else { n + i / 2 };
    assert forall|i: int| 0 <= i < names.len() implies 0 <= #[trigger] map(i) < order.len() && order[map(i)] == names[i] by {
        if i % 2 == 0 {
            assert(order[map(i)] == numbered(p, n)[i / 2]);
        } else {
            assert(order[map(i)] == numbered(q, n)[i / 2]);
        }
    }
    lemma_inputs_map(names, order, inputs, map);
    let v = bdd_inputs(names, order, Seq::empty(), inputs);
    assert(even_bits(v, n) =~= inputs.take(n as int)) by {
        assert forall|k: int| 0 <= k < n implies even_bits(v, n)[k] == inputs[k] by {
            assert(v[2 * k] == inputs[map(2 * k)]);
        }
    }
    assert(odd_bits(v, n) =~= inputs.subrange(n as int, 2 * n as int)) by {
        assert forall|k: int| 0 <= k < n implies odd_bits(v, n)[k] == inputs[n + k] by {
            assert(v[2 * k + 1] == inputs[map(2 * k + 1)]);
        }
    }
}

/// `n` is a power of two.
pub open spec fn is_power_of_two(n: nat) -> bool {
    exists|k: nat| pow2(k) == n
}

/// The word operations of the arithmetic circuits.
pub enum ArithOp {
    Add,
    Sub,
}

/// What the generated arithmetic circuit computes from the inputs
/// `a0, ..., a{n-1}, b0, ..., b{n-1}`: `(a + b) mod 2^n` or `(a - b) mod 2^n`.
pub open spec fn arith_of_inputs(op: ArithOp, n: nat) -> spec_fn(Seq<bool>) -> int {
    |inputs: Seq<bool>|
        match op {
            ArithOp::Add => (bits_value(inputs.take(n as int)) + bits_value(inputs.subrange(n as int, 2 * n as int)))
                % (pow2(n) as int),
            ArithOp::Sub => (bits_value(inputs.take(n as int)) - bits_value(inputs.subrange(n as int, 2 * n as int)))
                % (pow2(n) as int),
        }
}

/// Generates the source of the adder or the subtractor of `word_size`-bit
/// words, with inputs `a0, ..., b0, ...`; `None` when one of its diagrams
/// is too large to lay out.
pub fn codegen_arith_op(word_size: usize, op: ArithOp) -> (r: Option<String>)
    requires
        1 <= word_size,
        2 * word_size < u16::MAX - 1,
    ensures
        r matches Some(t) ==> generates(t@, 2 * word_size as nat, word_size as nat, arith_of_inputs(op, word_size as nat)),
        r is None ==> layout_fails(operand_read(word_size as nat), 2 * word_size as nat, word_size as nat, arith_of_inputs(op, word_size as nat)),
{
    let ghost n = word_size as nat;
    proof {
        lemma_prefix_a_b();
    }
    let (bdds, vars) = match op {
        ArithOp::Add => self::add(word_size),
        ArithOp::Sub => self::sub(word_size),
    };
    let input_order = add_sub_input_order(word_size);
    let ghost names = var_set_names(vars);
    let ghost order = strings_view(input_order@);
    let ghost empty = Seq::<(Seq<char>, Seq<char>)>::empty();
    proof {
        assert(alias_view(None) == empty);
        assert forall|i: int| 0 <= i < names.len() implies order.contains(dealias(empty, #[trigger] names[i])) by {
            assert(!exists|j: int| first_key(empty, names[i], j));
            if i % 2 == 0 {
                assert(order[i / 2] == numbered("a"@, n)[i / 2]);
            } else {
                assert(order[n + i / 2] == numbered("b"@, n)[i / 2]);
            }
        }
    }
    let r = codegen_circuits(&bdds, &vars, &input_order, None);
    proof {
        {
            let f = arith_of_inputs(op, n);
            let g = |v: Seq<bool>|
                match op {
                    ArithOp::Add => (bits_value(even_bits(v, n)) + bits_value(odd_bits(v, n))) % (pow2(n) as int),
                    ArithOp::Sub => (bits_value(even_bits(v, n)) - bits_value(odd_bits(v, n))) % (pow2(n) as int),
                };
            assert forall|v: Seq<bool>| #[trigger] bits_value(eval_all(bdds@, v)) == g(v) by {}
            assert forall|inputs: Seq<bool>| inputs.len() == order.len() implies #[trigger] f(inputs) == g(
                bdd_inputs(names, order, empty, inputs),
            ) by {
                lemma_split_operands("a"@, "b"@, n, inputs);
            }
            lemma_generates(r, bdds@, names, order, empty, g, f);
            lemma_operand_read("a"@, "b"@, n);
        }
    }
    r
}

/// The source of the `word_size`-bit adder: inputs `a0, ..., b0, ...`,
/// outputs the bits of `(a + b) mod 2^word_size`; `None` when one of its
/// diagrams is too large to lay out.
pub fn codegen_add(word_size: usize) -> (r: Option<String>)
    requires
        1 <= word_size,
        2 * word_size < u16::MAX - 1,
    ensures
        r matches Some(t) ==> generates(t@, 2 * word_size as nat, word_size as nat, arith_of_inputs(ArithOp::Add, word_size as nat)),
        r is None ==> layout_fails(operand_read(word_size as nat), 2 * word_size as nat, word_size as nat, arith_of_inputs(ArithOp::Add, word_size as nat)),
{
    codegen_arith_op(word_size, ArithOp::Add)
}

/// The source of the `word_size`-bit subtractor: inputs `a0, ..., b0, ...`,
/// outputs the bits of `(a - b) mod 2^word_size`; `None` when one of its
/// diagrams is too large to lay out.
pub fn codegen_sub(word_size: usize) -> (r: Option<String>)
    requires
        1 <= word_size,
        2 * word_size < u16::MAX - 1,
    ensures
        r matches Some(t) ==> generates(t@, 2 * word_size as nat, word_size as nat, arith_of_inputs(ArithOp::Sub, word_size as nat)),
        r is None ==> layout_fails(operand_read(word_size as nat), 2 * word_size as nat, word_size as nat, arith_of_inputs(ArithOp::Sub, word_size as nat)),
{
    codegen_arith_op(word_size, ArithOp::Sub)
}

} // verus!

use vstd::prelude::*;
use biodivine_lib_bdd::{Bdd, BddVariableSet};
use crate::bdd::{
    bdd_nodes, bdd_wf, bdd_eval, num_vars, eval_node, var_set_names, var_set_mk_var_by_name,
    var_set_mk_false, var_set_mk_true,
};
use crate::names::{
    indexed, valid_var_name, valid_var_names, ends_in_non_digit, lemma_indexed_injective,
    lemma_indexed_valid, indexed_name,
};

verus! {

/// The values of the diagrams `outs` under the assignment `v`, in order.
pub open spec fn eval_all(outs: Seq<Bdd>, v: Seq<bool>) -> Seq<bool> {
    Seq::new(outs.len(), |k: int| bdd_eval(outs[k], v))
}

/// All of `outs` are well formed and built over `nv` variables.
pub open spec fn all_wf(outs: Seq<Bdd>, nv: nat) -> bool {
    forall|k: int| 0 <= k < outs.len() ==> bdd_wf(#[trigger] outs[k]) && num_vars(outs[k]) == nv
}

/// `p0, q0, p1, q1, ..., p{n-1}, q{n-1}`.
pub open spec fn interleaved(p: Seq<char>, q: Seq<char>, n: nat) -> Seq<Seq<char>> {
    Seq::new(2 * n, |j: int| if j % 2 == 0 { indexed(p, (j / 2) as nat) } else { indexed(q, (j / 2) as nat) })
}

/// `p0, ..., p{n-1}`.
pub open spec fn numbered(p: Seq<char>, n: nat) -> Seq<Seq<char>> {
    Seq::new(n, |j: int| indexed(p, j as nat))
}

/// `p0, ..., p{n-1}, q0, ..., q{n-1}`.
pub open spec fn two_words(p: Seq<char>, q: Seq<char>, n: nat) -> Seq<Seq<char>> {
    numbered(p, n) + numbered(q, n)
}

/// Whether `p` can prefix numbered variable names.
pub open spec fn name_prefix(p: Seq<char>) -> bool {
    ends_in_non_digit(p) && valid_var_name(p)
}

pub proof fn lemma_interleaved_valid(p: Seq<char>, q: Seq<char>, n: nat)
    requires
        name_prefix(p),
        name_prefix(q),
        p != q,
    ensures
        valid_var_names(interleaved(p, q, n)),
{
    let s = interleaved(p, q, n);
    assert forall|i: int| 0 <= i < s.len() implies valid_var_name(#[trigger] s[i]) by {
        lemma_indexed_valid(p, (i / 2) as nat);
        lemma_indexed_valid(q, (i / 2) as nat);
    }
    assert forall|i: int, j: int|
        0 <= i < s.len() && 0 <= j < s.len() && i != j implies #[trigger] s[i] != #[trigger] s[j] by {
        let pi = if i % 2 == 0 { p } else { q };
        let pj = if j % 2 == 0 { p } else { q };
        if s[i] == s[j] {
            lemma_indexed_injective(pi, (i / 2) as nat, pj, (j / 2) as nat);
        }
    }
}

/// Names that are each a usable prefix followed by an index are valid
/// variable names when no two positions share both prefix and index.
pub proof fn lemma_indexed_names_valid(
    names: Seq<Seq<char>>,
    pf: spec_fn(int) -> Seq<char>,
    ix: spec_fn(int) -> nat,
)
    requires
        forall|j: int|
            #![trigger names[j]]
            0 <= j < names.len() ==> names[j] == indexed(pf(j), ix(j)) && name_prefix(pf(j)),
        forall|i: int, j: int|
            #![trigger names[i], names[j]]
            0 <= i < names.len() && 0 <= j < names.len() && i != j && pf(i) == pf(j) ==> ix(i) != ix(j),
    ensures
        valid_var_names(names),
{
    assert forall|i: int| 0 <= i < names.len() implies valid_var_name(#[trigger] names[i]) by {
        assert(0 <= i < names.len());
        assert(names[i] == indexed(pf(i), ix(i)));
        assert(name_prefix(pf(i)));
        lemma_indexed_valid(pf(i), ix(i));
    }
    assert forall|i: int, j: int|
        0 <= i < names.len() && 0 <= j < names.len() && i != j implies #[trigger] names[i]
            != #[trigger] names[j] by {
        if names[i] == names[j] {
            assert(names[i] == indexed(pf(i), ix(i)) && name_prefix(pf(i)));
            assert(names[j] == indexed(pf(j), ix(j)) && name_prefix(pf(j)));
            lemma_indexed_injective(pf(i), ix(i), pf(j), ix(j));
        }
    }
}

pub proof fn lemma_numbered_valid(p: Seq<char>, n: nat)
    requires
        name_prefix(p),
    ensures
        valid_var_names(numbered(p, n)),
{
    let s = numbered(p, n);
    assert forall|i: int| 0 <= i < s.len() implies valid_var_name(#[trigger] s[i]) by {
        lemma_indexed_valid(p, i as nat);
    }
    assert forall|i: int, j: int|
        0 <= i < s.len() && 0 <= j < s.len() && i != j implies #[trigger] s[i] != #[trigger] s[j] by {
        if s[i] == s[j] {
            lemma_indexed_injective(p, i as nat, p, j as nat);
        }
    }
}

/// The names `p0, q0, p1, q1, ...` for `n` positions.
pub fn interleaved_names(p: &str, q: &str, n: usize) -> (r: Vec<String>)
    requires
        2 * n <= usize::MAX,
    ensures
        r@.map_values(|s: String| s@) == interleaved(p@, q@, n as nat),
{
    let mut r: Vec<String> = Vec::new();
    let mut i: usize = 0;
    while i < n
        invariant
            i <= n,
            2 * n <= usize::MAX,
            r@.map_values(|s: String| s@) =~= interleaved(p@, q@, i as nat),
        decreases n - i,
    {
        let ghost old_r = r@;
        r.push(indexed_name(p, i));
        r.push(indexed_name(q, i));
        proof {
            let lhs = r@.map_values(|s: String| s@);
            let rhs = interleaved(p@, q@, (i + 1) as nat);
            assert(old_r.map_values(|s: String| s@).len() == 2 * i);
            assert(old_r.len() == 2 * i);
            assert(lhs.len() == rhs.len());
            assert forall|j: int| 0 <= j < lhs.len() implies lhs[j] == rhs[j] by {
                if j < 2 * i {
                    assert(r@[j] == old_r[j]);
                    assert(old_r.map_values(|s: String| s@)[j] == interleaved(p@, q@, i as nat)[j]);
                } else if j == 2 * i {
                    assert(j / 2 == i && j % 2 == 0);
                } else {
                    assert(j / 2 == i && j % 2 == 1);
                }
            }
            assert(lhs =~= rhs);
        }
        i = i + 1;
    }
    r
}

/// The names `p0, ..., p{n-1}`.
pub fn numbered_names(p: &str, n: usize) -> (r: Vec<String>)
    ensures
        r@.map_values(|s: String| s@) == numbered(p@, n as nat),
{
    let mut r: Vec<String> = Vec::new();
    let mut i: usize = 0;
    while i < n
        invariant
            i <= n,
            r@.map_values(|s: String| s@) =~= numbered(p@, i as nat),
        decreases n - i,
    {
        let ghost old_r = r@;
        r.push(indexed_name(p, i));
        proof {
            let lhs = r@.map_values(|s: String| s@);
            let rhs = numbered(p@, (i + 1) as nat);
            assert(old_r.map_values(|s: String| s@).len() == i);
            assert(old_r.len() == i);
            assert(lhs.len() == rhs.len());
            assert forall|j: int| 0 <= j < lhs.len() implies lhs[j] == rhs[j] by {
                if j < i {
                    assert(r@[j] == old_r[j]);
                    assert(old_r.map_values(|s: String| s@)[j] == numbered(p@, i as nat)[j]);
                }
            }
            assert(lhs =~= rhs);
        }
        i = i + 1;
    }
    r
}

pub proof fn lemma_var_nodes(b: Bdd, nv: nat, k: int)
    requires
        nv < u16::MAX,
        0 <= k < nv,
        bdd_nodes(b) == seq![(nv as u16, 0u32, 0u32), (nv as u16, 1u32, 1u32), (k as u16, 0u32, 1u32)],
    ensures
        bdd_wf(b),
        num_vars(b) == nv,
        forall|v: Seq<bool>| #[trigger] bdd_eval(b, v) == v[k],
{
    let n = bdd_nodes(b);
    assert forall|v: Seq<bool>| #[trigger] bdd_eval(b, v) == v[k] by {
        assert(eval_node(n, 2, v) == (if v[k] { eval_node(n, 1, v) } else { eval_node(n, 0, v) }));
    }
}

/// The diagram of the variable called `name`, which is variable `k` of `s`.
pub fn mk_named_var(s: &BddVariableSet, name: &str, Ghost(k): Ghost<int>) -> (b: Bdd)
    requires
        valid_var_names(var_set_names(*s)),
        var_set_names(*s).len() < u16::MAX,
        0 <= k < var_set_names(*s).len(),
        var_set_names(*s)[k] == name@,
    ensures
        bdd_wf(b),
        num_vars(b) == var_set_names(*s).len(),
        forall|v: Seq<bool>| #[trigger] bdd_eval(b, v) == v[k],
        bdd_nodes(b).len() == 3,
{
    let b = var_set_mk_var_by_name(s, name);
    proof {
        let names = var_set_names(*s);
        let j = bdd_nodes(b)[2].0 as int;
        assert(names[j] == names[k]);
        assert(j == k);
        assert(bdd_nodes(b) =~= seq![
            (names.len() as u16, 0u32, 0u32),
            (names.len() as u16, 1u32, 1u32),
            (k as u16, 0u32, 1u32),
        ]);
        lemma_var_nodes(b, names.len(), k);
    }
    b
}

/// The constant `false` diagram over the variables of `s`.
pub fn mk_false(s: &BddVariableSet) -> (b: Bdd)
    requires
        var_set_names(*s).len() < u16::MAX,
    ensures
        bdd_wf(b),
        num_vars(b) == var_set_names(*s).len(),
        forall|v: Seq<bool>| !#[trigger] bdd_eval(b, v),
        bdd_nodes(b).len() == 1,
{
    var_set_mk_false(s)
}

/// The constant `true` diagram over the variables of `s`.
pub fn mk_true(s: &BddVariableSet) -> (b: Bdd)
    requires
        var_set_names(*s).len() < u16::MAX,
    ensures
        bdd_wf(b),
        num_vars(b) == var_set_names(*s).len(),
        forall|v: Seq<bool>| #[trigger] bdd_eval(b, v),
{
    var_set_mk_true(s)
}

/// The names `p0, ..., p{n-1}, q0, ..., q{n-1}` are valid and distinct.
pub proof fn lemma_two_words_valid(p: Seq<char>, q: Seq<char>, n: nat)
    requires
        name_prefix(p),
        name_prefix(q),
        p != q,
    ensures
        valid_var_names(two_words(p, q, n)),
{
    let names = two_words(p, q, n);
    let pf = |j: int| if j < n { p } else { q };
    let ix = |j: int| if j < n { j as nat } else { (j - n) as nat };
    assert forall|j: int|
        #![trigger names[j]]
        0 <= j < names.len() implies names[j] == indexed(pf(j), ix(j)) && name_prefix(pf(j)) by {
        if j < n {
            assert(names[j] == numbered(p, n)[j]);
        } else {
            assert(names[j] == numbered(q, n)[j - n]);
        }
    }
    lemma_indexed_names_valid(names, pf, ix);
}

} // verus!

use vstd::prelude::*;
use biodivine_lib_bdd::{Bdd, BddPointer, BddVariable, BddVariableSet};
use crate::names::{indexed, valid_var_names};

verus! {

#[verifier::external_type_specification]
#[verifier::external_body]
pub struct ExBdd(Bdd);

#[verifier::external_type_specification]
#[verifier::external_body]
pub struct ExBddVariableSet(BddVariableSet);

/// The node array of a diagram. Each node is `(variable, low link, high link)`;
/// node 0 is the `false` terminal, node 1 (when present) the `true` terminal,
/// the terminals hold the number of variables in place of a variable, and the
/// root is the last node.
pub uninterp spec fn bdd_nodes(b: Bdd) -> Seq<(u16, u32, u32)>;

/// The variable names of a variable set, in the order of the variables.
pub uninterp spec fn var_set_names(s: BddVariableSet) -> Seq<Seq<char>>;

/// The number of variables a diagram is built over.
pub open spec fn num_vars(b: Bdd) -> nat {
    bdd_nodes(b)[0].0 as nat
}

/// Node `i` is a child of some node stored after it.
pub open spec fn has_parent(n: Seq<(u16, u32, u32)>, i: int) -> bool {
    exists|j: int| i < j < n.len() && ((#[trigger] n[j]).1 == i || n[j].2 == i)
}

/// The children of decision node `i` test later variables than it does
/// (the terminals count as testing variable `n[0].0`, past all others).
pub open spec fn ordered_at(n: Seq<(u16, u32, u32)>, i: int) -> bool {
    n[n[i].1 as int].0 > n[i].0 && n[n[i].2 as int].0 > n[i].0
}

/// Decision nodes `i` and `j` differ in their variable or in a child.
pub open spec fn distinct_at(n: Seq<(u16, u32, u32)>, i: int, j: int) -> bool {
    n[i] != n[j]
}

/// A node array is well formed: terminals first, every decision node refers
/// only to nodes stored before it, on a variable below the variable count,
/// with distinct children, and every decision node but the root (the last
/// one) is reachable, that is a child of a later node. It is also reduced
/// and ordered: variables grow along every path, and no two decision nodes
/// are equal.
pub open spec fn nodes_wf(n: Seq<(u16, u32, u32)>) -> bool {
    &&& 1 <= n.len() <= u32::MAX
    &&& n[0].1 == 0 && n[0].2 == 0
    &&& n.len() >= 2 ==> n[1] == (n[0].0, 1u32, 1u32)
    &&& forall|i: int|
        2 <= i < n.len() ==> {
            &&& (#[trigger] n[i]).0 < n[0].0
            &&& n[i].1 < i
            &&& n[i].2 < i
            &&& n[i].1 != n[i].2
        }
    &&& forall|i: int| 2 <= i < n.len() - 1 ==> #[trigger] has_parent(n, i)
    &&& forall|i: int| 2 <= i < n.len() ==> #[trigger] ordered_at(n, i)
    &&& forall|i: int, j: int| 2 <= i < j < n.len() ==> #[trigger] distinct_at(n, i, j)
}

pub open spec fn bdd_wf(b: Bdd) -> bool {
    nodes_wf(bdd_nodes(b))
}

/// The value of node `p` of the array `n` under the assignment `v`: follow
/// the high link where the node's variable is true, the low link elsewhere,
/// until a terminal is reached.
pub open spec fn eval_node(n: Seq<(u16, u32, u32)>, p: int, v: Seq<bool>) -> bool
    decreases p,
{
    if p < 2 {
        p == 1
    } else if p >= n.len() {
        false
    } else {
        let lo = n[p].1 as int;
        let hi = n[p].2 as int;
        if lo < p && hi < p {
            if v[n[p].0 as int] {
                eval_node(n, hi, v)
            } else {
                eval_node(n, lo, v)
            }
        } else {
            false
        }
    }
}

/// The value of the Boolean function of `b` under the assignment `v`
/// (entry `i` of `v` is the value of variable `i`).
pub open spec fn bdd_eval(b: Bdd, v: Seq<bool>) -> bool {
    eval_node(bdd_nodes(b), bdd_nodes(b).len() - 1, v)
}

/// The view of a vector of strings as a sequence of character sequences.
pub open spec fn strings_view(v: Seq<String>) -> Seq<Seq<char>> {
    v.map_values(|s: String| s@)
}

/// Creates a variable set with the given names
/// (`BddVariableSet::new`). The names are kept in order; the crate panics
/// on duplicates, on reserved characters and on `u16::MAX - 1` names or more.
#[verifier::external_body]
pub(crate) fn var_set_new(names: &Vec<String>) -> (s: BddVariableSet)
    requires
        names.len() < u16::MAX - 1,
        valid_var_names(strings_view(names@)),
    ensures
        var_set_names(s) == strings_view(names@),
{
    let refs: Vec<&str> = names.iter().map(|a| a.as_str()).collect();
    BddVariableSet::new(&refs)
}

/// Creates a variable set with the `n` names `x_0`, ..., `x_{n-1}`
/// (`BddVariableSet::new_anonymous`, which panics from `u16::MAX - 1` on).
#[verifier::external_body]
pub(crate) fn var_set_new_anonymous(n: u16) -> (s: BddVariableSet)
    requires
        n < u16::MAX - 1,
    ensures
        var_set_names(s).len() == n,
        forall|i: int| 0 <= i < n ==> #[trigger] var_set_names(s)[i] == indexed(seq!['x', '_'], i as nat),
{
    BddVariableSet::new_anonymous(n)
}

/// The names of the variables of `s` (`BddVariableSet::variable_names`).
#[verifier::external_body]
pub(crate) fn var_set_variable_names(s: &BddVariableSet) -> (r: Vec<String>)
    ensures
        strings_view(r@) == var_set_names(*s),
{
    s.variable_names()
}

/// The diagram of the single variable with index `index`
/// (`BddVariableSet::mk_var`): terminals, then one node on that variable with
/// low link `false` and high link `true`.
#[verifier::external_body]
pub(crate) fn var_set_mk_var(s: &BddVariableSet, index: usize) -> (b: Bdd)
    requires
        index < var_set_names(*s).len(),
    ensures
        bdd_nodes(b) == seq![
            (var_set_names(*s).len() as u16, 0u32, 0u32),
            (var_set_names(*s).len() as u16, 1u32, 1u32),
            (index as u16, 0u32, 1u32),
        ],
{
    s.mk_var(BddVariable::from_index(index))
}

/// The diagram of the variable called `name` (`BddVariableSet::mk_var_by_name`,
/// which panics on an unknown name).
#[verifier::external_body]
pub(crate) fn var_set_mk_var_by_name(s: &BddVariableSet, name: &str) -> (b: Bdd)
    requires
        var_set_names(*s).contains(name@),
    ensures
        bdd_nodes(b).len() == 3,
        bdd_nodes(b)[0] == (var_set_names(*s).len() as u16, 0u32, 0u32),
        bdd_nodes(b)[1] == (var_set_names(*s).len() as u16, 1u32, 1u32),
        bdd_nodes(b)[2].0 < var_set_names(*s).len(),
        var_set_names(*s)[bdd_nodes(b)[2].0 as int] == name@,
        bdd_nodes(b)[2].1 == 0,
        bdd_nodes(b)[2].2 == 1,
{
    s.mk_var_by_name(name)
}

/// The constant `false` diagram over the variables of `s`.
#[verifier::external_body]
pub(crate) fn var_set_mk_false(s: &BddVariableSet) -> (b: Bdd)
    ensures
        bdd_nodes(b) == seq![(var_set_names(*s).len() as u16, 0u32, 0u32)],
{
    s.mk_false()
}

/// The constant `true` diagram over the variables of `s`.
#[verifier::external_body]
pub(crate) fn var_set_mk_true(s: &BddVariableSet) -> (b: Bdd)
    ensures
        bdd_nodes(b) == seq![
            (var_set_names(*s).len() as u16, 0u32, 0u32),
            (var_set_names(*s).len() as u16, 1u32, 1u32),
        ],
{
    s.mk_true()
}

/// A copy of `a` (`Bdd::clone`).
#[verifier::external_body]
pub(crate) fn bdd_clone(a: &Bdd) -> (r: Bdd)
    ensures
        bdd_nodes(r) == bdd_nodes(*a),
{
    a.clone()
}

/// The negation of `a` (`Bdd::not`).
/// Only the links to the terminals are swapped, so the result stays reduced
/// and ordered.
#[verifier::external_body]
pub(crate) fn bdd_not(a: &Bdd) -> (r: Bdd)
    requires
        bdd_wf(*a),
    ensures
        bdd_wf(r),
        num_vars(r) == num_vars(*a),
        forall|v: Seq<bool>| #[trigger] bdd_eval(r, v) == !bdd_eval(*a, v),
{
    a.not()
}

/// The conjunction of `a` and `b` (`Bdd::and`, which panics when the
/// variable counts differ).
/// The result is reduced and ordered (`bdd_wf`): the crate's `apply` splits
/// on the smallest variable of its operands first and keeps a table of the
/// nodes it made, so no node is made twice.
#[verifier::external_body]
pub(crate) fn bdd_and(a: &Bdd, b: &Bdd) -> (r: Bdd)
    requires
        bdd_wf(*a),
        bdd_wf(*b),
        num_vars(*a) == num_vars(*b),
    ensures
        bdd_wf(r),
        num_vars(r) == num_vars(*a),
        forall|v: Seq<bool>| #[trigger] bdd_eval(r, v) == (bdd_eval(*a, v) && bdd_eval(*b, v)),
{
    a.and(b)
}

/// The disjunction of `a` and `b` (`Bdd::or`, which panics when the
/// variable counts differ).
/// The result is reduced and ordered (`bdd_wf`): the crate's `apply` splits
/// on the smallest variable of its operands first and keeps a table of the
/// nodes it made, so no node is made twice.
#[verifier::external_body]
pub(crate) fn bdd_or(a: &Bdd, b: &Bdd) -> (r: Bdd)
    requires
        bdd_wf(*a),
        bdd_wf(*b),
        num_vars(*a) == num_vars(*b),
    ensures
        bdd_wf(r),
        num_vars(r) == num_vars(*a),
        forall|v: Seq<bool>| #[trigger] bdd_eval(r, v) == (bdd_eval(*a, v) || bdd_eval(*b, v)),
{
    a.or(b)
}

/// The exclusive or of `a` and `b` (`Bdd::xor`, which panics when the
/// variable counts differ).
/// The result is reduced and ordered (`bdd_wf`): the crate's `apply` splits
/// on the smallest variable of its operands first and keeps a table of the
/// nodes it made, so no node is made twice.
#[verifier::external_body]
pub(crate) fn bdd_xor(a: &Bdd, b: &Bdd) -> (r: Bdd)
    requires
        bdd_wf(*a),
        bdd_wf(*b),
        num_vars(*a) == num_vars(*b),
    ensures
        bdd_wf(r),
        num_vars(r) == num_vars(*a),
        forall|v: Seq<bool>| #[trigger] bdd_eval(r, v) == (bdd_eval(*a, v) != bdd_eval(*b, v)),
{
    a.xor(b)
}

/// If `c` then `t` else `e` (`Bdd::if_then_else`, which panics when the
/// variable counts differ).
/// The result is reduced and ordered (`bdd_wf`): the crate's `apply` splits
/// on the smallest variable of its operands first and keeps a table of the
/// nodes it made, so no node is made twice.
#[verifier::external_body]
pub(crate) fn bdd_if_then_else(c: &Bdd, t: &Bdd, e: &Bdd) -> (r: Bdd)
    requires
        bdd_wf(*c),
        bdd_wf(*t),
        bdd_wf(*e),
        num_vars(*c) == num_vars(*t),
        num_vars(*t) == num_vars(*e),
    ensures
        bdd_wf(r),
        num_vars(r) == num_vars(*c),
        forall|v: Seq<bool>| #[trigger] bdd_eval(r, v) == (if bdd_eval(*c, v) {
            bdd_eval(*t, v)
        } else {
            bdd_eval(*e, v)
        }),
{
    Bdd::if_then_else(c, t, e)
}

/// The number of nodes of `b` (`Bdd::size`).
#[verifier::external_body]
pub(crate) fn bdd_size(b: &Bdd) -> (r: usize)
    ensures
        r == bdd_nodes(*b).len(),
{
    b.size()
}

/// The number of variables of `b` (`Bdd::num_vars`).
#[verifier::external_body]
pub(crate) fn bdd_num_vars(b: &Bdd) -> (r: u16)
    requires
        bdd_nodes(*b).len() >= 1,
    ensures
        r == num_vars(*b),
{
    b.num_vars()
}

/// The variable of node `p` of `b` (`Bdd::var_of`, which panics out of range).
#[verifier::external_body]
pub(crate) fn bdd_var_of(b: &Bdd, p: usize) -> (r: usize)
    requires
        p < bdd_nodes(*b).len(),
    ensures
        r == bdd_nodes(*b)[p as int].0,
{
    b.var_of(BddPointer::from_index(p)).to_index()
}

/// The low link of node `p` of `b` (`Bdd::low_link_of`).
#[verifier::external_body]
pub(crate) fn bdd_low_link_of(b: &Bdd, p: usize) -> (r: usize)
    requires
        p < bdd_nodes(*b).len(),
    ensures
        r == bdd_nodes(*b)[p as int].1,
{
    b.low_link_of(BddPointer::from_index(p)).to_index()
}

/// The high link of node `p` of `b` (`Bdd::high_link_of`).
#[verifier::external_body]
pub(crate) fn bdd_high_link_of(b: &Bdd, p: usize) -> (r: usize)
    requires
        p < bdd_nodes(*b).len(),
    ensures
        r == bdd_nodes(*b)[p as int].2,
{
    b.high_link_of(BddPointer::from_index(p)).to_index()
}

} // verus!

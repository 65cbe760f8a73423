use vstd::prelude::*;
use biodivine_lib_bdd::{Bdd, BddVariableSet};
use crate::bdd::{bdd_nodes, bdd_eval, bdd_size, strings_view, var_set_names};
use crate::bits::bits_value;
use crate::circuit::{all_wf, eval_all};
use crate::names::valid_var_names;
use crate::graph::{Node, CopyNode, OpNode, UpdownBDD, levels_of, width_of, updown_wf, updown_eval};
use crate::names::{dec, usize_to_decimal};
use crate::updown::{
    alias_view, bdd_inputs, dealias, updown_bdd_from_bdd, first_index, first_key, input_position,
    lemma_first_index_exists, levelled_fits, levelled_node_count,
};

verus! {

/// The part of a node the generated source depends on: its kind and, for a
/// decision node, its input, high and low indices.
pub open spec fn node_shape(n: Node) -> (int, int, int, int) {
    match n {
        Node::OpNode(o) => (0, o.input_index as int, o.high_index as int, o.low_index as int),
        Node::Copy(_) => (1, 0, 0, 0),
        Node::Vacant => (2, 0, 0, 0),
    }
}

/// A copy of `n`.
pub fn clone_node(n: &Node) -> (r: Node)
    ensures
        r == *n,
        node_shape(r) == node_shape(*n),
{
    match n {
        Node::OpNode(o) => Node::OpNode(
            OpNode::new(
                o.tag.clone(),
                o.node_index,
                o.high_node,
                o.low_node,
                o.output_pos,
                o.high_index,
                o.low_index,
                o.input_index,
            ),
        ),
        Node::Copy(c) => Node::Copy(
            CopyNode::new(c.tag.clone(), c.parent_node, c.node_index, c.output_pos),
        ),
        Node::Vacant => Node::Vacant,
    }
}

/// An up-down circuit flattened for source generation.
pub struct CodegenUpDownBDD {
    pub nodes: Vec<Node>,
    pub _lvl_bounds: Vec<usize>,
    pub max_inter_state: usize,
}

impl CodegenUpDownBDD {
    pub fn new(nodes: Vec<Node>, lvl_bounds: Vec<usize>, max_inter_state: usize) -> (r: Self)
        ensures
            r.nodes == nodes,
            r._lvl_bounds == lvl_bounds,
            r.max_inter_state == max_inter_state,
    {
        CodegenUpDownBDD { nodes, _lvl_bounds: lvl_bounds, max_inter_state }
    }
}

/// The shapes of the nodes of all levels, level after level.
pub open spec fn flat_shapes(levels: Seq<Seq<Node>>) -> Seq<(int, int, int, int)>
    decreases levels.len(),
{
    if levels.len() == 0 {
        Seq::empty()
    } else {
        flat_shapes(levels.drop_last()) + levels.last().map_values(|n: Node| node_shape(n))
    }
}

/// The nodes of all levels, level after level.
pub open spec fn flat_nodes(levels: Seq<Seq<Node>>) -> Seq<Node>
    decreases levels.len(),
{
    if levels.len() == 0 {
        Seq::empty()
    } else {
        flat_nodes(levels.drop_last()) + levels.last()
    }
}

/// The start of each level in the flattened node list.
pub open spec fn level_starts(levels: Seq<Seq<Node>>) -> Seq<int>
    decreases levels.len(),
{
    if levels.len() == 0 {
        Seq::empty()
    } else {
        level_starts(levels.drop_last()).push(flat_shapes(levels.drop_last()).len() as int)
    }
}

impl UpdownBDD {
    /// The levels flattened into one node list, the start of each level in
    /// it, and the width of the state vector.
    pub fn to_codegen(&self) -> (r: CodegenUpDownBDD)
        ensures
            r.nodes@ == flat_nodes(levels_of(*self)),
            r.nodes@.map_values(|n: Node| node_shape(n)) == flat_shapes(levels_of(*self)),
            r._lvl_bounds@.map_values(|b: usize| b as int) == level_starts(levels_of(*self)),
            r.max_inter_state == width_of(*self),
    {
        // Flatten 2d vector level_nodes into 1d vector
        let mut nodes: Vec<Node> = Vec::new();
        let mut lvl_bounds: Vec<usize> = Vec::new();
        let ghost levels = levels_of(*self);
        let mut l: usize = 0;
        while l < self.level_nodes.len()
            invariant
                l <= self.level_nodes@.len(),
                levels == levels_of(*self),
                nodes@ =~= flat_nodes(levels.take(l as int)),
                nodes@.map_values(|n: Node| node_shape(n)) =~= flat_shapes(levels.take(l as int)),
                lvl_bounds@.map_values(|b: usize| b as int) =~= level_starts(levels.take(l as int)),
            decreases self.level_nodes@.len() - l,
        {
            let level = &self.level_nodes[l];
            // Record the starting index of this level
            proof {
                assert(nodes@.map_values(|n: Node| node_shape(n)).len() == nodes@.len());
            }
            lvl_bounds.push(nodes.len());
            let ghost before = nodes@;
            let mut p: usize = 0;
            while p < level.len()
                invariant
                    p <= level@.len(),
                    nodes@.len() == before.len() + p,
                    forall|q: int| 0 <= q < before.len() ==> #[trigger] nodes@[q] == before[q],
                    forall|q: int| 0 <= q < p ==> #[trigger] nodes@[before.len() + q] == level@[q],
                decreases level@.len() - p,
            {
                nodes.push(clone_node(&level[p]));
                p = p + 1;
            }
            proof {
                let t = levels.take(l + 1);
                assert(t.drop_last() =~= levels.take(l as int));
                assert(t.last() == level@);
                let lhs = nodes@.map_values(|n: Node| node_shape(n));
                let rhs = before.map_values(|n: Node| node_shape(n)) + level@.map_values(|n: Node| node_shape(n));
                assert(lhs.len() == rhs.len());
                assert forall|q: int| 0 <= q < lhs.len() implies lhs[q] == rhs[q] by {
                    if q < before.len() {
                        assert(nodes@[q] == before[q]);
                    } else {
                        assert(node_shape(nodes@[before.len() + (q - before.len())]) == node_shape(level@[q - before.len()]));
                    }
                }
                assert(nodes@.map_values(|n: Node| node_shape(n)) =~= before.map_values(|n: Node| node_shape(n)) + level@.map_values(|n: Node| node_shape(n)));
                assert(lvl_bounds@.map_values(|b: usize| b as int) =~= level_starts(t));
                assert forall|q: int| 0 <= q < nodes@.len() implies nodes@[q] == (before + level@)[q] by {
                    if q >= before.len() {
                        assert(nodes@[before.len() + (q - before.len())] == level@[q - before.len()]);
                    }
                }
                assert(nodes@ =~= before + level@);
            }
            l = l + 1;
        }
        proof {
            assert(levels.take(self.level_nodes@.len() as int) =~= levels);
        }
        let max_inter_state = self.width();
        CodegenUpDownBDD::new(nodes, lvl_bounds, max_inter_state)
    }
}

/// The source of one node.
pub open spec fn shape_text(s: (int, int, int, int)) -> Seq<char> {
    if s.0 == 0 {
        "Node::Op("@ + dec(s.1 as nat) + ","@ + dec(s.2 as nat) + ","@ + dec(s.3 as nat) + "),"@
    } else if s.0 == 1 {
        "Node::Copy,"@
    } else {
        "Node::None,"@
    }
}

/// The source of a node list.
pub open spec fn shapes_text(ss: Seq<(int, int, int, int)>) -> Seq<char>
    decreases ss.len(),
{
    if ss.len() == 0 {
        Seq::empty()
    } else {
        shapes_text(ss.drop_last()) + shape_text(ss.last())
    }
}

/// The enum variant of circuit `i` with `n` nodes.
pub open spec fn variant_text(i: nat, n: nat) -> Seq<char> {
    "B"@ + dec(i) + "(BitCircuit<"@ + dec(n) + ">),"@
}

/// The match arm of circuit `i`.
pub open spec fn arm_text(i: nat) -> Seq<char> {
    "AnyBitCircuit::B"@ + dec(i)
        + "(bit_circuit) => (bit_circuit.nodes.as_ref(), bit_circuit.lvl_bounds.as_ref(), bit_circuit.max_inter_state),"@
}

/// The value of circuit `i`, built from the node list of `u` and its width.
pub open spec fn value_text(i: nat, u: UpdownBDD) -> Seq<char> {
    "AnyBitCircuit::B"@ + dec(i) + "(BitCircuit::new(["@ + shapes_text(flat_shapes(levels_of(u)))
        + "], "@ + dec(width_of(u)) + ")),"@
}

pub open spec fn variants_text(us: Seq<UpdownBDD>) -> Seq<char>
    decreases us.len(),
{
    if us.len() == 0 {
        Seq::empty()
    } else {
        variants_text(us.drop_last()) + variant_text(
            (us.len() - 1) as nat,
            flat_shapes(levels_of(us.last())).len(),
        )
    }
}

pub open spec fn arms_text(k: nat) -> Seq<char>
    decreases k,
{
    if k == 0 {
        Seq::empty()
    } else {
        arms_text((k - 1) as nat) + arm_text((k - 1) as nat)
    }
}

pub open spec fn values_text(us: Seq<UpdownBDD>) -> Seq<char>
    decreases us.len(),
{
    if us.len() == 0 {
        Seq::empty()
    } else {
        values_text(us.drop_last()) + value_text((us.len() - 1) as nat, us.last())
    }
}

/// The generated source for the output circuits `us`: an enum with one
/// variant per circuit, its `BitCircuitInfo` impl, and the static table of
/// the circuits.
pub open spec fn codegen_text(us: Seq<UpdownBDD>) -> Seq<char> {
    "use crate::tfhe::bdd_arithmetic::{BitCircuit, BitCircuitInfo, Circuit, Node};\n"@
        + "pub(crate) enum AnyBitCircuit {"@ + variants_text(us) + "}\n"@
        + "impl BitCircuitInfo for AnyBitCircuit { fn info(&self) -> (&[Node], &[usize], usize) { match self {"@
        + arms_text(us.len()) + "} } }\n"@
        + "pub(crate) static OUTPUT_CIRCUITS: Circuit<AnyBitCircuit, "@ + dec(us.len()) + "usize> = Circuit(["@
        + values_text(us) + "]);\n"@
}

/// Entry `k` of the generated table: circuit `B{k}` built from the node
/// list of `u`, level after level, and the width of its state vector (the
/// width that `updown_eval` runs it with, the length of each of its levels).
pub open spec fn table_entry(k: nat, u: UpdownBDD) -> Seq<char> {
    "AnyBitCircuit::B"@ + dec(k) + "(BitCircuit::new(["@ + shapes_text(flat_shapes(levels_of(u))) + "], "@
        + dec(width_of(u)) + ")),"@
}

/// The table entries of circuits `i`, `i + 1`, ... of `us`, in that order.
pub open spec fn table_from(us: Seq<UpdownBDD>, i: int) -> Seq<char>
    decreases us.len() - i,
{
    if i < 0 || i >= us.len() {
        Seq::empty()
    } else {
        table_entry(i as nat, us[i]) + table_from(us, i + 1)
    }
}

proof fn lemma_values_forward(us: Seq<UpdownBDD>, k: int)
    requires
        0 <= k <= us.len(),
    ensures
        values_text(us.take(k)) + table_from(us, k) == values_text(us),
    decreases us.len() - k,
{
    if k < us.len() {
        lemma_values_forward(us, k + 1);
        assert(us.take(k + 1).drop_last() =~= us.take(k));
        assert(us.take(k + 1).last() == us[k]);
        assert(values_text(us.take(k)) + table_from(us, k) =~= values_text(us.take(k + 1)) + table_from(us, k + 1));
    } else {
        assert(us.take(k) =~= us);
        assert(values_text(us.take(k)) + table_from(us, k) =~= values_text(us));
    }
}

/// The generated table lists the circuits in output order: its entry `k`
/// is circuit `B{k}` made of the nodes of `us[k]` and of the width of the
/// state vector of `us[k]`, so reading the table's outputs in order reads
/// the outputs of `us` in order.
pub proof fn lemma_table_in_output_order(us: Seq<UpdownBDD>)
    ensures
        exists|head: Seq<char>|
            codegen_text(us) == head + "pub(crate) static OUTPUT_CIRCUITS: Circuit<AnyBitCircuit, "@ + dec(us.len())
                + "usize> = Circuit(["@ + table_from(us, 0) + "]);\n"@,
{
    lemma_values_forward(us, 0);
    assert(us.take(0) =~= Seq::<UpdownBDD>::empty());
    assert(values_text(us.take(0)) == Seq::<char>::empty());
    let head = "use crate::tfhe::bdd_arithmetic::{BitCircuit, BitCircuitInfo, Circuit, Node};\n"@
        + "pub(crate) enum AnyBitCircuit {"@ + variants_text(us) + "}\n"@
        + "impl BitCircuitInfo for AnyBitCircuit { fn info(&self) -> (&[Node], &[usize], usize) { match self {"@
        + arms_text(us.len()) + "} } }\n"@;
    assert(codegen_text(us) =~= head + "pub(crate) static OUTPUT_CIRCUITS: Circuit<AnyBitCircuit, "@ + dec(us.len())
        + "usize> = Circuit(["@ + table_from(us, 0) + "]);\n"@);
}

/// Entry `k` of the table (`table_from(us, k)` starts with it) is circuit
/// `B{k}` of `us[k]`'s nodes and the width of `us[k]`'s state vector, which
/// is at least 2 and, for a well-formed circuit, the length of each of its
/// levels.
pub proof fn lemma_table_entry(us: Seq<UpdownBDD>, k: int, n_inputs: nat)
    requires
        0 <= k < us.len(),
        updown_wf(us[k], n_inputs),
    ensures
        table_from(us, k) == table_entry(k as nat, us[k]) + table_from(us, k + 1),
        width_of(us[k]) >= 2,
        forall|l: int| 0 <= l < levels_of(us[k]).len() ==> (#[trigger] levels_of(us[k])[l]).len() == width_of(us[k]),
{
    assert forall|l: int| 0 <= l < levels_of(us[k]).len() implies (#[trigger] levels_of(us[k])[l]).len() == width_of(us[k]) by {
        assert(levels_of(us[k])[l] == us[k].level_nodes@[l]@);
    }
}

fn push_shape(buf: &mut String, n: &Node)
    ensures
        final(buf)@ == old(buf)@ + shape_text(node_shape(*n)),
{
    match n {
        Node::OpNode(node) => {
            buf.append("Node::Op(");
            buf.append(usize_to_decimal(node.input_index()).as_str());
            buf.append(",");
            buf.append(usize_to_decimal(node.high_index()).as_str());
            buf.append(",");
            buf.append(usize_to_decimal(node.low_index()).as_str());
            buf.append("),");
        },
        Node::Copy(_) => buf.append("Node::Copy,"),
        Node::Vacant => buf.append("Node::None,"),
    }
}

/// The source of the node list `nodes`.
fn shapes_source(nodes: &Vec<Node>) -> (r: String)
    ensures
        r@ == shapes_text(nodes@.map_values(|n: Node| node_shape(n))),
{
    let mut node_buffer = String::new();
    let ghost shapes = nodes@.map_values(|n: Node| node_shape(n));
    let mut p: usize = 0;
    while p < nodes.len()
        invariant
            p <= nodes@.len(),
            shapes == nodes@.map_values(|n: Node| node_shape(n)),
            node_buffer@ == shapes_text(shapes.take(p as int)),
        decreases nodes@.len() - p,
    {
        push_shape(&mut node_buffer, &nodes[p]);
        proof {
            assert(shapes.take(p + 1).drop_last() =~= shapes.take(p as int));
        }
        p = p + 1;
    }
    proof {
        assert(shapes.take(nodes@.len() as int) =~= shapes);
    }
    node_buffer
}

/// The generated source for the output circuits `udbdds` (one circuit per
/// output bit, in order).
#[verifier::rlimit(40)]
pub fn codegen_multibit_output(udbdds: &[UpdownBDD]) -> (r: String)
    ensures
        r@ == codegen_text(udbdds@),
        exists|head: Seq<char>|
            r@ == head + "pub(crate) static OUTPUT_CIRCUITS: Circuit<AnyBitCircuit, "@ + dec(udbdds@.len())
                + "usize> = Circuit(["@ + table_from(udbdds@, 0) + "]);\n"@,
{
    let ghost us = udbdds@;
    let mut variants = String::new();
    let mut arms = String::new();
    let mut values = String::new();
    let mut k: usize = 0;
    while k < udbdds.len()
        invariant
            k <= us.len(),
            us == udbdds@,
            variants@ == variants_text(us.take(k as int)),
            arms@ == arms_text(k as nat),
            values@ == values_text(us.take(k as int)),
        decreases us.len() - k,
    {
        let ubdd = udbdds[k].to_codegen();
        let n = ubdd.nodes.len();
        proof {
            assert(us.take(k + 1).drop_last() =~= us.take(k as int));
            assert(us.take(k + 1).last() == us[k as int]);
            assert(ubdd.nodes@.map_values(|n: Node| node_shape(n)).len() == n);
        }
        variants.append("B");
        variants.append(usize_to_decimal(k).as_str());
        variants.append("(BitCircuit<");
        variants.append(usize_to_decimal(n).as_str());
        variants.append(">),");

        arms.append("AnyBitCircuit::B");
        arms.append(usize_to_decimal(k).as_str());
        arms.append(
            "(bit_circuit) => (bit_circuit.nodes.as_ref(), bit_circuit.lvl_bounds.as_ref(), bit_circuit.max_inter_state),",
        );

        let node_buffer = shapes_source(&ubdd.nodes);
        values.append("AnyBitCircuit::B");
        values.append(usize_to_decimal(k).as_str());
        values.append("(BitCircuit::new([");
        values.append(node_buffer.as_str());
        values.append("], ");
        values.append(usize_to_decimal(ubdd.max_inter_state).as_str());
        values.append(")),");
        k = k + 1;
    }
    proof {
        assert(us.take(us.len() as int) =~= us);
    }
    let bdd_count = udbdds.len();
    let mut output = String::new();
    output.append("use crate::tfhe::bdd_arithmetic::{BitCircuit, BitCircuitInfo, Circuit, Node};\n");
    output.append("pub(crate) enum AnyBitCircuit {");
    output.append(variants.as_str());
    output.append("}\n");
    output.append("impl BitCircuitInfo for AnyBitCircuit { fn info(&self) -> (&[Node], &[usize], usize) { match self {");
    output.append(arms.as_str());
    output.append("} } }\n");
    output.append("pub(crate) static OUTPUT_CIRCUITS: Circuit<AnyBitCircuit, ");
    output.append(usize_to_decimal(bdd_count).as_str());
    output.append("usize> = Circuit([");
    output.append(values.as_str());
    output.append("]);\n");
    proof {
        lemma_table_in_output_order(us);
    }
    output
}

/// Diagram `b` can be turned into an up-down circuit: it is not the
/// constant `true`, and its levelised graph stays within `u32` indices.
pub open spec fn convertible(b: Bdd) -> bool {
    let s = bdd_nodes(b).len();
    s != 2 && levelled_node_count(bdd_nodes(b)) + s < u32::MAX
}

/// `us` are up-down circuits with inputs in `order` that compute the
/// diagrams `bdds`, one each, every variable reading the input its name
/// resolves to through `pairs`.
pub open spec fn circuits_for(
    us: Seq<UpdownBDD>,
    bdds: Seq<Bdd>,
    names: Seq<Seq<char>>,
    order: Seq<Seq<char>>,
    pairs: Seq<(Seq<char>, Seq<char>)>,
) -> bool {
    &&& us.len() == bdds.len()
    &&& forall|k: int| 0 <= k < us.len() ==> updown_wf(#[trigger] us[k], order.len())
    &&& forall|k: int, inputs: Seq<bool>|
        0 <= k < us.len() && inputs.len() == order.len() ==> #[trigger] updown_eval(us[k], inputs)
            == bdd_eval(bdds[k], bdd_inputs(names, order, pairs, inputs))
}

/// Turns each of `bdds` into an up-down circuit over `input_order` and
/// generates the source of the multi-bit circuit; `None` when one of them
/// cannot be turned into one.
pub fn codegen_circuits(
    bdds: &Vec<Bdd>,
    vars: &BddVariableSet,
    input_order: &Vec<String>,
    alias_map: Option<&Vec<(String, String)>>,
) -> (r: Option<String>)
    requires
        all_wf(bdds@, var_set_names(*vars).len()),
        forall|i: int|
            0 <= i < var_set_names(*vars).len() ==> strings_view(input_order@).contains(
                dealias(alias_view(alias_map), #[trigger] var_set_names(*vars)[i]),
            ),
    ensures
        r is Some <==> forall|k: int| 0 <= k < bdds@.len() ==> convertible(#[trigger] bdds@[k]),
        r matches Some(t) ==> exists|us: Seq<UpdownBDD>|
            #![trigger codegen_text(us)]
            circuits_for(
                us,
                bdds@,
                var_set_names(*vars),
                strings_view(input_order@),
                alias_view(alias_map),
            ) && t@ == codegen_text(us),
{
    let ghost names = var_set_names(*vars);
    let ghost order = strings_view(input_order@);
    let ghost pairs = alias_view(alias_map);
    let mut udbdds: Vec<UpdownBDD> = Vec::new();
    let mut k: usize = 0;
    while k < bdds.len()
        invariant
            k <= bdds@.len(),
            names == var_set_names(*vars),
            order == strings_view(input_order@),
            pairs == alias_view(alias_map),
            all_wf(bdds@, names.len()),
            forall|i: int| 0 <= i < names.len() ==> order.contains(dealias(pairs, #[trigger] names[i])),
            forall|j: int| 0 <= j < k ==> convertible(#[trigger] bdds@[j]),
            circuits_for(udbdds@, bdds@.take(k as int), names, order, pairs),
        decreases bdds@.len() - k,
    {
        let size = bdd_size(&bdds[k]);
        if size == 2 {
            return None;
        }
        if !levelled_fits(&bdds[k]) {
            return None;
        }
        proof {
            let n = bdd_nodes(bdds@[k as int]);
            assert(bdds@[k as int] == bdds@[k as int]);
            assert forall|t: int| 2 <= t < n.len() implies order.contains(dealias(pairs, names[(#[trigger] n[t]).0 as int])) by {
                assert(n[t].0 < n[0].0);
            }
        }
        let u = updown_bdd_from_bdd(&bdds[k], vars, input_order.as_slice(), alias_map);
        let ghost before = udbdds@;
        udbdds.push(u);
        proof {
            let bk = bdds@.take(k + 1);
            assert(bk.len() == k + 1);
            assert forall|j: int, inputs: Seq<bool>|
                0 <= j < udbdds@.len() && inputs.len() == order.len() implies #[trigger] updown_eval(udbdds@[j], inputs)
                    == bdd_eval(bk[j], bdd_inputs(names, order, pairs, inputs)) by {
                if j < k {
                    assert(udbdds@[j] == before[j]);
                    assert(bk[j] == bdds@.take(k as int)[j]);
                }
            }
            assert forall|j: int| 0 <= j < udbdds@.len() implies updown_wf(#[trigger] udbdds@[j], order.len()) by {
                if j < k {
                    assert(udbdds@[j] == before[j]);
                }
            }
        }
        k = k + 1;
    }
    let text = codegen_multibit_output(udbdds.as_slice());
    proof {
        assert(bdds@.take(bdds@.len() as int) =~= bdds@);
        assert(circuits_for(udbdds@, bdds@, names, order, pairs) && text@ == codegen_text(udbdds@));
    }
    Some(text)
}

/// The outputs of the circuits `us` on `inputs`, one bit each.
pub open spec fn circuit_outputs(us: Seq<UpdownBDD>, inputs: Seq<bool>) -> Seq<bool> {
    Seq::new(us.len(), |k: int| updown_eval(us[k], inputs))
}

/// `t` is the generated source of `n_outputs` circuits over `n_inputs`
/// inputs whose outputs, read as a little-endian number, are `f` of the
/// inputs.
pub open spec fn generates(t: Seq<char>, n_inputs: nat, n_outputs: nat, f: spec_fn(Seq<bool>) -> int) -> bool {
    exists|us: Seq<UpdownBDD>|
        #![trigger codegen_text(us)]
        {
            &&& t == codegen_text(us)
            &&& us.len() == n_outputs
            &&& forall|k: int| 0 <= k < us.len() ==> updown_wf(#[trigger] us[k], n_inputs)
            &&& forall|inputs: Seq<bool>|
                inputs.len() == n_inputs ==> #[trigger] bits_value(circuit_outputs(us, inputs)) == f(inputs)
        }
}

/// The values of the variables where variable `i` reads input `read[i]`.
pub open spec fn read_inputs(inputs: Seq<bool>, read: Seq<int>) -> Seq<bool> {
    Seq::new(read.len(), |i: int| inputs[read[i]])
}

/// `bdds` are well-formed diagrams over `read.len()` variables, variable `i`
/// reading input `read[i]` of `n_inputs`, whose outputs, read as a
/// little-endian number, are `f` of the inputs.
pub open spec fn diagrams_for(bdds: Seq<Bdd>, read: Seq<int>, n_inputs: nat, f: spec_fn(Seq<bool>) -> int) -> bool {
    &&& all_wf(bdds, read.len())
    &&& forall|i: int| 0 <= i < read.len() ==> 0 <= #[trigger] read[i] < n_inputs
    &&& forall|inputs: Seq<bool>|
        inputs.len() == n_inputs ==> #[trigger] bits_value(eval_all(bdds, read_inputs(inputs, read))) == f(
            inputs,
        )
}

/// The circuits of `f` cannot be laid out: the reduced, ordered diagrams
/// over the variables that `read` wires to the `n_inputs` inputs (variable
/// `i` reads input `read[i]`) and that compute the `n_outputs` bits of `f`
/// include one that cannot be turned into a levelled circuit (it has too
/// many nodes, or it is the constant `true`).
pub open spec fn layout_fails(read: Seq<int>, n_inputs: nat, n_outputs: nat, f: spec_fn(Seq<bool>) -> int) -> bool {
    exists|bdds: Seq<Bdd>|
        #![trigger diagrams_for(bdds, read, n_inputs, f)]
        {
            &&& bdds.len() == n_outputs
            &&& diagrams_for(bdds, read, n_inputs, f)
            &&& exists|k: int| 0 <= k < bdds.len() && !convertible(#[trigger] bdds[k])
        }
}

/// The input that each variable reads: the first position in `order` of its
/// name resolved through `pairs`.
pub open spec fn read_of(names: Seq<Seq<char>>, order: Seq<Seq<char>>, pairs: Seq<(Seq<char>, Seq<char>)>) -> Seq<int> {
    Seq::new(names.len(), |i: int| input_position(order, dealias(pairs, names[i])))
}

/// Where each variable's name resolves through `pairs` to the name at
/// position `map(i)` of an order without repeats, variable `i` reads input
/// `map(i)`.
pub proof fn lemma_read_of_map(
    names: Seq<Seq<char>>,
    order: Seq<Seq<char>>,
    pairs: Seq<(Seq<char>, Seq<char>)>,
    map: spec_fn(int) -> int,
)
    requires
        valid_var_names(order),
        forall|i: int|
            0 <= i < names.len() ==> 0 <= #[trigger] map(i) < order.len() && order[map(i)] == dealias(pairs, names[i]),
    ensures
        read_of(names, order, pairs) == Seq::new(names.len(), map),
{
    assert forall|i: int| 0 <= i < names.len() implies #[trigger] read_of(names, order, pairs)[i] == map(i) by {
        let x = dealias(pairs, names[i]);
        let m = map(i);
        assert(first_index(order, x, m)) by {
            assert forall|j: int| 0 <= j < m implies #[trigger] order[j] != x by {
                assert(order[j] != order[m]);
            }
        }
        let c = input_position(order, x);
        assert(first_index(order, x, c));
        if c != m {
            assert(order[c] == order[m]);
        }
    }
    assert(read_of(names, order, pairs) =~= Seq::new(names.len(), map));
}

/// As `lemma_read_of_map`, without aliases.
pub proof fn lemma_read_of_map_plain(names: Seq<Seq<char>>, order: Seq<Seq<char>>, map: spec_fn(int) -> int)
    requires
        valid_var_names(order),
        forall|i: int| 0 <= i < names.len() ==> 0 <= #[trigger] map(i) < order.len() && order[map(i)] == names[i],
    ensures
        read_of(names, order, Seq::empty()) == Seq::new(names.len(), map),
{
    assert forall|i: int| 0 <= i < names.len() implies 0 <= #[trigger] map(i) < order.len() && order[map(i)]
        == dealias(Seq::empty(), names[i]) by {
        assert(!exists|j: int| first_key(Seq::<(Seq<char>, Seq<char>)>::empty(), names[i], j));
    }
    lemma_read_of_map(names, order, Seq::empty(), map);
}

/// Where each variable's name sits at position `map(i)` of an order without
/// repeats, with no aliases, variable `i` reads input `map(i)`.
pub proof fn lemma_inputs_map(
    names: Seq<Seq<char>>,
    order: Seq<Seq<char>>,
    inputs: Seq<bool>,
    map: spec_fn(int) -> int,
)
    requires
        valid_var_names(order),
        forall|i: int| 0 <= i < names.len() ==> 0 <= #[trigger] map(i) < order.len() && order[map(i)] == names[i],
    ensures
        forall|i: int|
            0 <= i < names.len() ==> #[trigger] bdd_inputs(names, order, Seq::empty(), inputs)[i] == inputs[map(i)],
{
    assert forall|i: int| 0 <= i < names.len() implies #[trigger] bdd_inputs(names, order, Seq::empty(), inputs)[i]
        == inputs[map(i)] by {
        let x = names[i];
        assert(!exists|j: int| first_key(Seq::<(Seq<char>, Seq<char>)>::empty(), x, j));
        assert(dealias(Seq::empty(), x) == x);
        let m = map(i);
        assert(first_index(order, x, m)) by {
            assert forall|j: int| 0 <= j < m implies #[trigger] order[j] != x by {
                assert(order[j] != order[m]);
            }
        }
        let c = input_position(order, x);
        assert(first_index(order, x, c));
        if c != m {
            assert(order[c] == order[m]);
        }
    }
}

/// What `codegen_circuits` returns for diagrams `bdds` that compute `f`
/// of the inputs: the source of circuits that compute `f`, or `None` where
/// the circuits of `f` cannot be laid out.
pub proof fn lemma_generates(
    r: Option<String>,
    bdds: Seq<Bdd>,
    names: Seq<Seq<char>>,
    order: Seq<Seq<char>>,
    pairs: Seq<(Seq<char>, Seq<char>)>,
    g: spec_fn(Seq<bool>) -> int,
    f: spec_fn(Seq<bool>) -> int,
)
    requires
        r is Some <==> forall|k: int| 0 <= k < bdds.len() ==> convertible(#[trigger] bdds[k]),
        r matches Some(t) ==> exists|us: Seq<UpdownBDD>|
            #![trigger codegen_text(us)]
            circuits_for(us, bdds, names, order, pairs) && t@ == codegen_text(us),
        all_wf(bdds, names.len()),
        forall|i: int| 0 <= i < names.len() ==> order.contains(dealias(pairs, #[trigger] names[i])),
        forall|v: Seq<bool>| #[trigger] bits_value(eval_all(bdds, v)) == g(v),
        forall|inputs: Seq<bool>| inputs.len() == order.len() ==> #[trigger] f(inputs) == g(
            bdd_inputs(names, order, pairs, inputs),
        ),
    ensures
        r matches Some(t) ==> generates(t@, order.len(), bdds.len(), f),
        r is None ==> layout_fails(read_of(names, order, pairs), order.len(), bdds.len(), f),
{
    if r is Some {
        let t = r->0@;
        let us = choose|us: Seq<UpdownBDD>| circuits_for(us, bdds, names, order, pairs) && t == codegen_text(us);
        assert forall|inputs: Seq<bool>| inputs.len() == order.len() implies #[trigger] bits_value(
            circuit_outputs(us, inputs),
        ) == f(inputs) by {
            let v = bdd_inputs(names, order, pairs, inputs);
            assert(circuit_outputs(us, inputs) =~= eval_all(bdds, v)) by {
                assert forall|k: int| 0 <= k < us.len() implies circuit_outputs(us, inputs)[k] == eval_all(bdds, v)[k] by {
                    assert(updown_eval(us[k], inputs) == bdd_eval(bdds[k], v));
                }
            }
            assert(bits_value(eval_all(bdds, v)) == g(v));
        }
    } else {
        let read = read_of(names, order, pairs);
        assert forall|i: int| 0 <= i < read.len() implies 0 <= #[trigger] read[i] < order.len() by {
            lemma_first_index_exists(order, dealias(pairs, names[i]));
        }
        assert forall|inputs: Seq<bool>| inputs.len() == order.len() implies #[trigger] bits_value(
            eval_all(bdds, read_inputs(inputs, read)),
        ) == f(inputs) by {
            assert(read_inputs(inputs, read) =~= bdd_inputs(names, order, pairs, inputs));
        }
        assert(diagrams_for(bdds, read, order.len(), f));
        let k = choose|k: int| 0 <= k < bdds.len() && !convertible(#[trigger] bdds[k]);
        assert(bdds.len() == bdds.len() && diagrams_for(bdds, read, order.len(), f) && 0 <= k < bdds.len()
            && !convertible(bdds[k]));
    }
}

/// Each variable's name, at position `map(i)` of the order, needs no alias
/// to be found there.
pub proof fn lemma_names_in_order(names: Seq<Seq<char>>, order: Seq<Seq<char>>, map: spec_fn(int) -> int)
    requires
        forall|i: int| 0 <= i < names.len() ==> 0 <= #[trigger] map(i) < order.len() && order[map(i)] == names[i],
    ensures
        forall|i: int| 0 <= i < names.len() ==> order.contains(dealias(Seq::empty(), #[trigger] names[i])),
{
    assert forall|i: int| 0 <= i < names.len() implies order.contains(dealias(Seq::empty(), #[trigger] names[i])) by {
        assert(!exists|j: int| first_key(Seq::<(Seq<char>, Seq<char>)>::empty(), names[i], j));
        assert(order[map(i)] == names[i]);
    }
}

/// The source generated, without aliases, for circuits that compute the
/// diagrams `bdds` computes what the diagrams compute on the assignment
/// that gives variable `i` the input at `map(i)`.
pub proof fn lemma_generates_mapped(
    r: Option<String>,
    bdds: Seq<Bdd>,
    names: Seq<Seq<char>>,
    order: Seq<Seq<char>>,
    map: spec_fn(int) -> int,
    g: spec_fn(Seq<bool>) -> int,
    f: spec_fn(Seq<bool>) -> int,
)
    requires
        r is Some <==> forall|k: int| 0 <= k < bdds.len() ==> convertible(#[trigger] bdds[k]),
        r matches Some(t) ==> exists|us: Seq<UpdownBDD>|
            #![trigger codegen_text(us)]
            circuits_for(us, bdds, names, order, Seq::empty()) && t@ == codegen_text(us),
        all_wf(bdds, names.len()),
        valid_var_names(order),
        forall|i: int| 0 <= i < names.len() ==> 0 <= #[trigger] map(i) < order.len() && order[map(i)] == names[i],
        forall|v: Seq<bool>| #[trigger] bits_value(eval_all(bdds, v)) == g(v),
        forall|inputs: Seq<bool>| inputs.len() == order.len() ==> #[trigger] f(inputs) == g(
            Seq::new(names.len(), |i: int| inputs[map(i)]),
        ),
    ensures
        r matches Some(t) ==> generates(t@, order.len(), bdds.len(), f),
        r is None ==> layout_fails(Seq::new(names.len(), map), order.len(), bdds.len(), f),
{
    assert forall|inputs: Seq<bool>| inputs.len() == order.len() implies #[trigger] f(inputs) == g(
        bdd_inputs(names, order, Seq::empty(), inputs),
    ) by {
        lemma_inputs_map(names, order, inputs, map);
        assert(bdd_inputs(names, order, Seq::empty(), inputs) =~= Seq::new(names.len(), |i: int| inputs[map(i)]));
    }
    lemma_names_in_order(names, order, map);
    lemma_generates(r, bdds, names, order, Seq::empty(), g, f);
    lemma_read_of_map_plain(names, order, map);
}

/// Where each variable's name resolves through `pairs` to the name at
/// position `map(i)` of an order without repeats, variable `i` reads input
/// `map(i)`.
pub proof fn lemma_inputs_map_aliased(
    names: Seq<Seq<char>>,
    order: Seq<Seq<char>>,
    pairs: Seq<(Seq<char>, Seq<char>)>,
    inputs: Seq<bool>,
    map: spec_fn(int) -> int,
)
    requires
        valid_var_names(order),
        forall|i: int|
            0 <= i < names.len() ==> 0 <= #[trigger] map(i) < order.len() && order[map(i)] == dealias(pairs, names[i]),
    ensures
        forall|i: int| 0 <= i < names.len() ==> #[trigger] bdd_inputs(names, order, pairs, inputs)[i] == inputs[map(i)],
{
    assert forall|i: int| 0 <= i < names.len() implies #[trigger] bdd_inputs(names, order, pairs, inputs)[i]
        == inputs[map(i)] by {
        let x = dealias(pairs, names[i]);
        let m = map(i);
        assert(first_index(order, x, m)) by {
            assert forall|j: int| 0 <= j < m implies #[trigger] order[j] != x by {
                assert(order[j] != order[m]);
            }
        }
        let c = input_position(order, x);
        assert(first_index(order, x, c));
        if c != m {
            assert(order[c] == order[m]);
        }
    }
}

/// As `lemma_generates_mapped`, with the names resolved through `pairs`.
pub proof fn lemma_generates_mapped_aliased(
    r: Option<String>,
    bdds: Seq<Bdd>,
    names: Seq<Seq<char>>,
    order: Seq<Seq<char>>,
    pairs: Seq<(Seq<char>, Seq<char>)>,
    map: spec_fn(int) -> int,
    g: spec_fn(Seq<bool>) -> int,
    f: spec_fn(Seq<bool>) -> int,
)
    requires
        r is Some <==> forall|k: int| 0 <= k < bdds.len() ==> convertible(#[trigger] bdds[k]),
        r matches Some(t) ==> exists|us: Seq<UpdownBDD>|
            #![trigger codegen_text(us)]
            circuits_for(us, bdds, names, order, pairs) && t@ == codegen_text(us),
        all_wf(bdds, names.len()),
        valid_var_names(order),
        forall|i: int|
            0 <= i < names.len() ==> 0 <= #[trigger] map(i) < order.len() && order[map(i)] == dealias(pairs, names[i]),
        forall|v: Seq<bool>| #[trigger] bits_value(eval_all(bdds, v)) == g(v),
        forall|inputs: Seq<bool>| inputs.len() == order.len() ==> #[trigger] f(inputs) == g(
            Seq::new(names.len(), |i: int| inputs[map(i)]),
        ),
    ensures
        r matches Some(t) ==> generates(t@, order.len(), bdds.len(), f),
        r is None ==> layout_fails(Seq::new(names.len(), map), order.len(), bdds.len(), f),
{
    assert forall|inputs: Seq<bool>| inputs.len() == order.len() implies #[trigger] f(inputs) == g(
        bdd_inputs(names, order, pairs, inputs),
    ) by {
        lemma_inputs_map_aliased(names, order, pairs, inputs, map);
        assert(bdd_inputs(names, order, pairs, inputs) =~= Seq::new(names.len(), |i: int| inputs[map(i)]));
    }
    assert forall|i: int| 0 <= i < names.len() implies order.contains(dealias(pairs, #[trigger] names[i])) by {
        assert(order[map(i)] == dealias(pairs, names[i]));
    }
    lemma_generates(r, bdds, names, order, pairs, g, f);
    lemma_read_of_map(names, order, pairs, map);
}

} // verus!

use arith_bdd::arithmetic::{add, add_sub_input_order, codegen_add, codegen_sub, sub};
use arith_bdd::bitwise::{codegen_and, codegen_or, codegen_xor};
use arith_bdd::codegen::{codegen_multibit_output, CodegenUpDownBDD};
use arith_bdd::comparitor::{codegen_signed_comparitor, codegen_unsigned_comparitor};
use arith_bdd::extras::{
    codegen_aiupc, codegen_identity, codegen_jalr, codegen_lui, codegen_ram_address_offset,
};
use arith_bdd::graph::{execute, CopyNode, Node, OpNode, UpdownBDD};
use arith_bdd::pc_update::codegen_pc_update;
use arith_bdd::shift::{codegen_sll, codegen_sra, codegen_srl};
use arith_bdd::updown::{
    levelled_fits, levels_for_graph, translate_node_tag_to_input_index, updown_bdd_from_bdd,
};
use biodivine_lib_bdd::{BddValuation, BddVariableSet};
use petgraph::Graph;
use proc_macro2::TokenStream;

fn names(v: &[&str]) -> Vec<String> {
    v.iter().map(|s| s.to_string()).collect()
}

fn op(input_index: usize, high_index: usize, low_index: usize) -> Node {
    Node::OpNode(OpNode::new("t".to_string(), 0, 0, 0, 0, high_index, low_index, input_index))
}

fn copy(pos: usize) -> Node {
    Node::Copy(CopyNode::new("t".to_string(), 0, 0, pos))
}

#[test]
fn updown_of_xor_matches_the_diagram() {
    let vars = BddVariableSet::new(&["a", "b"]);
    let a = vars.mk_var_by_name("a");
    let b = vars.mk_var_by_name("b");
    let x = a.xor(&b);
    let order = names(&["a", "b"]);
    let u = updown_bdd_from_bdd(&x, &vars, &order, None);
    for bits in 0..4u32 {
        let inputs = vec![bits & 1 == 1, bits & 2 == 2];
        let want = x.eval_in(&BddValuation::new(inputs.clone()));
        assert_eq!(execute(&u, &inputs), want);
        assert_eq!(want, inputs[0] != inputs[1]);
    }
    // the root sits alone on the top level, at position 0
    let top = u.level_nodes().last().unwrap();
    assert!(matches!(top[0], Node::OpNode(_)));
    assert!(top[1..].iter().all(|n| matches!(n, Node::Vacant)));
}

#[test]
fn updown_layout_of_a_conjunction() {
    let vars = BddVariableSet::new(&["x0", "x1"]);
    let d = vars.mk_var_by_name("x0").and(&vars.mk_var_by_name("x1"));
    let u = updown_bdd_from_bdd(&d, &vars, &names(&["x0", "x1"]), None);
    assert_eq!(u.width(), 2);
    let lv = u.level_nodes();
    assert_eq!(lv.len(), 2);
    assert!(matches!(lv[0][0], Node::Copy(_)));
    match &lv[0][1] {
        Node::OpNode(o) => {
            assert_eq!((o.input_index(), o.high_index(), o.low_index()), (1, 1, 0));
        }
        _ => panic!("level 0, position 1 should test x1"),
    }
    match &lv[1][0] {
        Node::OpNode(o) => {
            assert_eq!((o.input_index(), o.high_index(), o.low_index(), o.output_pos), (0, 1, 0, 0));
        }
        _ => panic!("level 1, position 0 should test x0"),
    }
    assert!(matches!(lv[1][1], Node::Vacant));
    assert!(levelled_fits(&d));
}

#[test]
fn updown_follows_the_input_order() {
    // the variables of the diagram are ordered `a, b`, the inputs `b, a`
    let vars = BddVariableSet::new(&["a", "b"]);
    let a = vars.mk_var_by_name("a");
    let b = vars.mk_var_by_name("b");
    let d = a.and(&b.not());
    let order = names(&["b", "a"]);
    let u = updown_bdd_from_bdd(&d, &vars, &order, None);
    // inputs: b = false, a = true
    assert!(execute(&u, &[false, true]));
    assert!(!execute(&u, &[true, true]));
    assert!(!execute(&u, &[false, false]));
    assert!(!execute(&u, &[true, false]));
}

#[test]
fn updown_of_constant_false_has_no_level() {
    let vars = BddVariableSet::new(&["a"]);
    let f = vars.mk_false();
    let u = updown_bdd_from_bdd(&f, &vars, &names(&["a"]), None);
    assert_eq!(u.level_nodes().len(), 0);
    assert_eq!(u.width(), 2);
    assert!(!execute(&u, &[false]));
    assert!(!execute(&u, &[true]));
}

#[test]
fn updown_reads_aliased_inputs() {
    let vars = BddVariableSet::new(&["x", "x_c", "y"]);
    let x = vars.mk_var_by_name("x");
    let xc = vars.mk_var_by_name("x_c");
    let y = vars.mk_var_by_name("y");
    // x & !x_c is constant false where both read the same input; use x ^ x_c ^ y
    let d = x.xor(&xc).xor(&y);
    let order = names(&["x", "y"]);
    let aliases = vec![("x_c".to_string(), "x".to_string())];
    let u = updown_bdd_from_bdd(&d, &vars, &order, Some(&aliases));
    for bits in 0..4u32 {
        let inputs = vec![bits & 1 == 1, bits & 2 == 2];
        // x ^ x ^ y == y
        assert_eq!(execute(&u, &inputs), inputs[1]);
    }
}

#[test]
fn updown_levels_have_one_width() {
    let (bdds, vars) = add(8);
    let order = add_sub_input_order(8);
    for b in bdds.iter() {
        let u = updown_bdd_from_bdd(b, &vars, &order, None);
        let w = u.width();
        assert!(w >= 2);
        assert!(u.level_nodes().iter().all(|l| l.len() == w));
        for l in u.level_nodes() {
            for n in l {
                if let Node::OpNode(o) = n {
                    assert!(o.input_index() < order.len());
                    assert!(o.high_index() < w && o.low_index() < w);
                }
            }
        }
    }
}

#[test]
fn eight_bit_adder_and_subtractor_values() {
    let (adds, avars) = add(8);
    let (subs, svars) = sub(8);
    let order = add_sub_input_order(8);
    let ua: Vec<UpdownBDD> = adds.iter().map(|b| updown_bdd_from_bdd(b, &avars, &order, None)).collect();
    let us: Vec<UpdownBDD> = subs.iter().map(|b| updown_bdd_from_bdd(b, &svars, &order, None)).collect();
    for (a, b) in [(200u32, 100u32), (0, 0), (255, 1), (3, 250), (17, 17)] {
        let inputs: Vec<bool> = (0..8).map(|i| (a >> i) & 1 == 1).chain((0..8).map(|i| (b >> i) & 1 == 1)).collect();
        let sum: u32 = ua.iter().enumerate().map(|(i, u)| (execute(u, &inputs) as u32) << i).sum();
        let diff: u32 = us.iter().enumerate().map(|(i, u)| (execute(u, &inputs) as u32) << i).sum();
        assert_eq!(sum, (a + b) % 256);
        assert_eq!(diff, (a + 256 - b) % 256);
    }
}

#[test]
fn execute_runs_the_levels() {
    // level 1: position 0 = input 0 ? 1 : 0, position 1 keeps 1
    // level 2: position 0 = input 1 ? position 1 : position 0
    let u = UpdownBDD::new(vec![vec![op(0, 1, 0), copy(1)], vec![op(1, 1, 0), Node::Vacant]]);
    assert_eq!(u.width(), 2);
    assert!(!execute(&u, &[false, false]));
    assert!(execute(&u, &[true, false]));
    assert!(execute(&u, &[false, true]));
    assert!(execute(&u, &[true, true]));
}

#[test]
fn stats_of_a_small_circuit() {
    let u = UpdownBDD::new(vec![vec![op(0, 1, 0), copy(1), Node::Vacant], vec![op(1, 1, 0), Node::Vacant, Node::Vacant]]);
    let want = "UpdownBDD Statistics:\n===================\nDepth: 2\n\n\
Level 0: CopyNode: 1, OpNode: 1, None: 1, Total: 3\n\
Level 1: CopyNode: 0, OpNode: 1, None: 2, Total: 3\n\
Width: 3\n";
    assert_eq!(u.stats(), want);
}

#[test]
fn to_codegen_flattens_the_levels() {
    let u = UpdownBDD::new(vec![vec![op(0, 1, 0), copy(1)], vec![op(1, 1, 0), Node::Vacant]]);
    let c: CodegenUpDownBDD = u.to_codegen();
    assert_eq!(c.nodes.len(), 4);
    assert!(matches!(c.nodes[0], Node::OpNode(_)));
    assert!(matches!(c.nodes[1], Node::Copy(_)));
    assert!(matches!(c.nodes[2], Node::OpNode(_)));
    assert!(matches!(c.nodes[3], Node::Vacant));
    assert_eq!(c._lvl_bounds, vec![0, 2]);
    assert_eq!(c.max_inter_state, 2);
}

#[test]
fn codegen_text_of_one_circuit() {
    let u = UpdownBDD::new(vec![vec![op(0, 1, 0), copy(1)], vec![op(1, 1, 0), Node::Vacant]]);
    let text = codegen_multibit_output(&[u]);
    let want = "use crate::tfhe::bdd_arithmetic::{BitCircuit, BitCircuitInfo, Circuit, Node};\n\
pub(crate) enum AnyBitCircuit {B0(BitCircuit<4>),}\n\
impl BitCircuitInfo for AnyBitCircuit { fn info(&self) -> (&[Node], &[usize], usize) { match self {\
AnyBitCircuit::B0(bit_circuit) => (bit_circuit.nodes.as_ref(), bit_circuit.lvl_bounds.as_ref(), bit_circuit.max_inter_state),} } }\n\
pub(crate) static OUTPUT_CIRCUITS: Circuit<AnyBitCircuit, 1usize> = Circuit([\
AnyBitCircuit::B0(BitCircuit::new([Node::Op(0,1,0),Node::Copy,Node::Op(1,1,0),Node::None,], 2)),]);\n";
    assert_eq!(text, want);
    assert!(text.parse::<TokenStream>().is_ok());
}

#[test]
fn levels_of_a_small_graph() {
    let mut g: Graph<String, i32> = Graph::new();
    let n0 = g.add_node("0".to_string());
    let n1 = g.add_node("1".to_string());
    let n2 = g.add_node("2".to_string());
    let n3 = g.add_node("3".to_string());
    g.add_edge(n0, n2, 0);
    g.add_edge(n1, n2, 1);
    g.add_edge(n2, n3, 0);
    g.add_edge(n0, n3, 1);
    assert_eq!(levels_for_graph(&g), vec![0, 0, 1, 2]);
}

#[test]
fn translate_resolves_aliases_first() {
    let order = names(&["s0", "s1", "s2", "s2"]);
    let aliases = vec![("s2_c".to_string(), "s2".to_string()), ("s2_c".to_string(), "s0".to_string())];
    assert_eq!(translate_node_tag_to_input_index(&"s2_c".to_string(), &order, Some(&aliases)), 2);
    assert_eq!(translate_node_tag_to_input_index(&"s1".to_string(), &order, Some(&aliases)), 1);
    assert_eq!(translate_node_tag_to_input_index(&"s0".to_string(), &order, None), 0);
}

fn check_source(source: Option<String>, outputs: usize) {
    let text = source.expect("the circuit fits");
    assert!(text.starts_with("use crate::tfhe::bdd_arithmetic::{BitCircuit, BitCircuitInfo, Circuit, Node};\n"));
    assert!(text.contains(&format!("Circuit<AnyBitCircuit, {}usize>", outputs)));
    assert!(text.contains(&format!("AnyBitCircuit::B{}(BitCircuit::new([", outputs - 1)));
    assert!(!text.contains(&format!("AnyBitCircuit::B{}(BitCircuit::new([", outputs)));
    assert!(text.parse::<TokenStream>().is_ok());
}

#[test]
fn codegen_word_circuits() {
    check_source(codegen_add(32), 32);
    check_source(codegen_sub(32), 32);
    check_source(codegen_and(32), 32);
    check_source(codegen_or(32), 32);
    check_source(codegen_xor(32), 32);
    check_source(codegen_unsigned_comparitor(32), 1);
    check_source(codegen_signed_comparitor(32), 1);
}

#[test]
fn codegen_shift_circuits() {
    check_source(codegen_sll(32), 32);
    check_source(codegen_srl(32), 32);
    check_source(codegen_sra(32), 32);
}

#[test]
fn codegen_riscv_circuits() {
    check_source(codegen_aiupc(), 32);
    check_source(codegen_jalr(), 32);
    check_source(codegen_lui(), 32);
    check_source(codegen_ram_address_offset(1 << 18), 32);
    check_source(codegen_identity(32), 32);
    check_source(codegen_identity(40), 32);
    check_source(codegen_pc_update(), 32);
}

#[test]
fn codegen_small_words() {
    check_source(codegen_add(1), 1);
    check_source(codegen_add(4), 4);
    check_source(codegen_sll(1), 1);
    check_source(codegen_srl(8), 8);
    check_source(codegen_unsigned_comparitor(2), 1);
    // widths need not be powers of two
    check_source(codegen_add(3), 3);
    check_source(codegen_sub(5), 5);
    check_source(codegen_xor(6), 6);
    check_source(codegen_signed_comparitor(3), 1);
}

use arith_bdd::comparitor::combined_comparitor_circuit;
use arith_bdd::graph::{CopyNode, Node, OpNode, UpdownBDD};
use arith_bdd::pplove::{
    add_vec_i64, batch_data, i64_to_u64, packed_data, random_data_in_mod, reverse_bits, uint_to_i64,
};
use arith_bdd::shift::{shift_circuit_combined, shift_circuit_combined_input_order, ShiftOp};
use biodivine_lib_bdd::BddValuation;

fn bits_of(v: u32, n: usize) -> Vec<bool> {
    (0..n).map(|i| (v >> i) & 1 == 1).collect()
}

fn signed(v: u32, n: usize) -> i64 {
    let v = v as i64;
    if (v >> (n - 1)) & 1 == 1 {
        v - (1i64 << n)
    } else {
        v
    }
}

#[test]
fn reverse_bits_examples() {
    assert_eq!(reverse_bits(0b1101, 4), 0b1011);
    assert_eq!(reverse_bits(0b0001, 4), 0b1000);
    assert_eq!(reverse_bits(0b1, 1), 0b1);
    // bits above the reversed ones are dropped
    assert_eq!(reverse_bits(0b1111_0110, 4), 0b0110);
    assert_eq!(reverse_bits(1, usize::BITS), 1usize << (usize::BITS - 1));
}

#[test]
fn reverse_bits_twice_gives_the_low_bits_back() {
    for v in 0..256usize {
        for bits in 1..=10u32 {
            let r = reverse_bits(reverse_bits(v, bits), bits);
            assert_eq!(r, v & ((1usize << bits) - 1));
        }
    }
}

#[test]
fn centring_examples() {
    assert_eq!(uint_to_i64(13, 16), -3);
    assert_eq!(uint_to_i64(5, 16), 5);
    assert_eq!(uint_to_i64(8, 16), -8);
    assert_eq!(uint_to_i64(29, 16), -3);
    assert_eq!(i64_to_u64(-3, 16), 13);
    assert_eq!(i64_to_u64(5, 16), 5);
    assert_eq!(i64_to_u64(-16, 16), 0);
}

#[test]
fn data_in_mod_centres_each_draw() {
    assert_eq!(random_data_in_mod(&[13, 5, 8, 29, 0, 15], 4), vec![-3, 5, -8, -3, 0, -1]);
    assert_eq!(random_data_in_mod(&[], 4), Vec::<i64>::new());
    assert_eq!(random_data_in_mod(&[u64::MAX, 1 << 62], 63), vec![-1, -(1i64 << 62)]);
}

#[test]
fn centring_round_trip() {
    for m in 1..40u64 {
        for v in 0..100u64 {
            assert_eq!(i64_to_u64(uint_to_i64(v, m), m), v % m);
        }
    }
}

#[test]
fn add_vec_wraps_at_k_bits() {
    let a = [7i64, 3, -8, -1, 100];
    let b = [1i64, 2, -1, -1, 27];
    let mut o = [0i64; 5];
    add_vec_i64(&mut o, &a, &b, 4);
    // 4-bit signed: 7 + 1 wraps to -8, -8 - 1 wraps to 7
    assert_eq!(o, [-8, 5, 7, -2, -1]);
    let mut full = [0i64; 2];
    add_vec_i64(&mut full, &[i64::MAX, 5], &[1, -7], 64);
    assert_eq!(full, [i64::MIN, -2]);
}

#[test]
fn shift_op_names() {
    assert_eq!(ShiftOp::SLL.to_string(), "sll");
    assert_eq!(ShiftOp::SRL.to_string(), "srl");
    assert_eq!(ShiftOp::SRA.to_string(), "sra");
}

#[test]
fn node_texts() {
    let o = OpNode::new("n3".to_string(), 3, 1, 2, 0, 1, 0, 2);
    assert_eq!(
        o.to_string(),
        "OpNode{ tag: n3, node_index: NodeIndex(3), high_node: NodeIndex(1), low_node: NodeIndex(2), output_pos: 0, high_index: 1, low_index: 0, input_index: 2 }"
    );
    let c = CopyNode::new("n7".to_string(), 7, 12, 4);
    assert_eq!(
        c.to_string(),
        "CopyNode{ tag: n7, parent_node: NodeIndex(7), node_index: NodeIndex(12), output_pos: 4 }"
    );
    assert_eq!(Node::Vacant.to_string(), "None");
    assert_eq!(Node::Copy(c.clone()).to_string(), c.to_string());
    assert_eq!(Node::OpNode(o.clone()).to_string(), o.to_string());
}

#[test]
fn circuit_text() {
    let c = CopyNode::new("c".to_string(), 1, 2, 1);
    let o = OpNode::new("o".to_string(), 4, 2, 3, 0, 1, 0, 0);
    let u = UpdownBDD::new(vec![
        vec![Node::Vacant, Node::Copy(c)],
        vec![Node::OpNode(o), Node::Vacant],
    ]);
    let want = "UpdownBDD {\n    Level 0: None, CopyNode{ tag: c, parent_node: NodeIndex(1), node_index: NodeIndex(2), output_pos: 1 }\n    Level 1: OpNode{ tag: o, node_index: NodeIndex(4), high_node: NodeIndex(2), low_node: NodeIndex(3), output_pos: 0, high_index: 1, low_index: 0, input_index: 0 }, None\n}\n";
    assert_eq!(u.to_string(), want);
    assert_eq!(UpdownBDD::new(vec![]).to_string(), "UpdownBDD {\n}\n");
}

#[test]
fn combined_comparitor_selects_signedness() {
    let n = 3usize;
    let (comp, vars) = combined_comparitor_circuit(n);
    let names = vars.variable_names();
    assert_eq!(names, vec!["s", "a2", "b2", "a1", "b1", "a0", "b0"]);
    for s in [false, true] {
        for a in 0..8u32 {
            for b in 0..8u32 {
                let mut v = vec![false; 2 * n + 1];
                v[0] = s;
                for k in 0..n {
                    v[1 + 2 * (n - 1 - k)] = (a >> k) & 1 == 1;
                    v[2 + 2 * (n - 1 - k)] = (b >> k) & 1 == 1;
                }
                let want = if s { signed(a, n) < signed(b, n) } else { a < b };
                assert_eq!(comp.eval_in(&BddValuation::new(v)), want, "s={} a={} b={}", s, a, b);
            }
        }
    }
}

#[test]
fn combined_shift_selects_the_shift() {
    let (input_bits, shift_bits) = (4usize, 2usize);
    let (outs, vars) = shift_circuit_combined(input_bits, shift_bits);
    assert_eq!(outs.len(), input_bits);
    assert_eq!(vars.num_vars() as usize, 2 + input_bits + shift_bits);
    for s1 in [false, true] {
        for s0 in [false, true] {
            for amount in 0..4u32 {
                for x in 0..16u32 {
                    let mut v = bits_of(amount, shift_bits);
                    v.push(s0);
                    v.push(s1);
                    v.extend(bits_of(x, input_bits));
                    let want = if !s1 {
                        (x << amount) & 0xf
                    } else if !s0 {
                        x >> amount
                    } else {
                        ((signed(x, 4) >> amount) as u32) & 0xf
                    };
                    let val = BddValuation::new(v);
                    let got: u32 = outs
                        .iter()
                        .enumerate()
                        .map(|(k, b)| (b.eval_in(&val) as u32) << k)
                        .sum();
                    assert_eq!(got, want, "s0={} s1={} amount={} x={}", s0, s1, amount, x);
                }
            }
        }
    }
}

#[test]
fn combined_shift_input_order_lists_signals_first() {
    let order = shift_circuit_combined_input_order(3, 2);
    assert_eq!(order, vec!["x_2", "x_3", "x_0", "x_1", "x_2", "x_3", "x_4"]);
}

#[test]
fn batch_data_fills_every_slot_of_its_ciphertext() {
    let d = batch_data(5, 4, 5, 3);
    assert_eq!(d.len(), 32);
    for (p, x) in d.iter().enumerate() {
        assert_eq!(*x, if p % 2 == 0 { 3 } else { 0 });
    }
    // 20 is in the upper half modulo 2^5
    let d = batch_data(4, 2, 5, 20);
    assert_eq!(d, vec![-12, 0, 0, 0, -12, 0, 0, 0, -12, 0, 0, 0, -12, 0, 0, 0]);
}

#[test]
fn packed_data_follows_the_bit_reversal() {
    let d = packed_data(4, 2, 2);
    assert_eq!(d, vec![0, -2, 1, -1, 0, -2, 1, -1, 0, -2, 1, -1, 0, -2, 1, -1]);
    // the layout the packing demo expects
    let (logn, log_batch, k_pt) = (5usize, 4usize, 5usize);
    let n = 1usize << logn;
    let step = n >> log_batch;
    let mut want = vec![0i64; n];
    for i in 0..step {
        for c in 0..(1usize << log_batch) {
            want[c * step + reverse_bits(i, (logn - log_batch) as u32)] = uint_to_i64(i as u64, 1 << k_pt);
        }
    }
    assert_eq!(packed_data(logn as u32, log_batch as u32, k_pt), want);
}

use arith_bdd::arithmetic::{add, add_sub_input_order, sub};
use arith_bdd::bitwise::{bitwise_circuit, input_order as bitwise_input_order, BIT_OP};
use arith_bdd::comparitor::{signed_comparitor, unsigned_comparitor, unsigned_comparitor_input_order};
use arith_bdd::extras::{
    aiupc, aiupc_input_order, identity, identity_input_order, jalr, jalr_input_order, lui,
    lui_input_order, ram_address_offset, ram_offset_input_order,
};
use arith_bdd::graph::{Node, UpdownBDD};
use arith_bdd::pc_update::{input_order as pc_update_input_order, pc_update};
use arith_bdd::shift::{input_order as shift_input_order, shift_circuit, ShiftOp};
use arith_bdd::updown::updown_bdd_from_bdd;
use biodivine_lib_bdd::BddValuation;
use itertools::Itertools;
use rand::distr::Uniform;
use rand::{rng, Rng, RngCore};
use std::ops::{BitAnd, BitOr, BitXor};

fn input_bits_to_bdd_var_input(
    input_order: &[String],
    bdd_input_order: &[String],
    bdd_input_alias: Option<&Vec<(String, String)>>,
    input_bits: &[u8],
) -> Vec<bool> {
    assert!(input_order.len() == input_bits.len());

    let mut bdd_input = vec![false; bdd_input_order.len()];
    bdd_input_order
        .iter()
        .enumerate()
        .for_each(|(bdd_idx, bdd_var)| {
            let dealias = bdd_input_alias
                .and_then(|m| m.iter().find(|(k, _)| k == bdd_var).map(|(_, v)| v.clone()))
                .unwrap_or(bdd_var.clone());
            let pos = input_order.iter().position(|var| var == &dealias).unwrap();
            assert!(input_bits[pos] <= 1);
            bdd_input[bdd_idx] = input_bits[pos] == 1;
        });
    bdd_input
}

fn u32_to_bits(v: u32) -> Vec<u8> {
    (0..u32::BITS).map(|i| ((v >> i) & 1) as u8).collect()
}

fn bits_to_u32(bits: &[u8]) -> u32 {
    assert!(bits.len() <= 32);
    bits.iter().enumerate().fold(0u32, |acc, (i, b)| {
        assert!(*b == 0 || *b == 1);
        acc + ((*b as u32) << i)
    })
}

fn sign_extend(value: u32, bitlen: usize) -> u32 {
    assert!((value >> bitlen) == 0);
    let msb = (value >> (bitlen - 1)) & 1;
    let mut out_v = value;
    for i in bitlen..32 {
        out_v += msb << i;
    }
    out_v
}

struct GGSW {
    bit: bool,
}

impl From<usize> for GGSW {
    fn from(value: usize) -> Self {
        assert!(value <= 1);
        GGSW { bit: value != 0 }
    }
}

impl From<u8> for GGSW {
    fn from(value: u8) -> Self {
        assert!(value <= 1);
        GGSW { bit: value == 1 }
    }
}

#[derive(Clone, Debug, Default)]
struct GLWECt {
    value: usize,
}

impl GLWECt {
    fn new(value: usize) -> GLWECt {
        GLWECt { value }
    }

    fn value(&self) -> usize {
        self.value
    }
}

fn cmux(selector: &GGSW, if_true: &GLWECt, if_false: &GLWECt) -> GLWECt {
    if selector.bit {
        if_true.clone()
    } else {
        if_false.clone()
    }
}

fn execute(bdd: &UpdownBDD, inputs: &[GGSW]) -> GLWECt {
    let mut out = vec![GLWECt::default(); bdd.width()];

    out[0] = GLWECt::new(0);
    out[1] = GLWECt::new(1);

    for lvl_nodes in bdd.level_nodes().iter() {
        let out_old = out.clone();
        for (out_pos, node) in lvl_nodes.iter().enumerate() {
            let out_ct = match node {
                Node::OpNode(node) => cmux(
                    &inputs[node.input_index()],
                    &out_old[node.high_index()],
                    &out_old[node.low_index()],
                ),
                Node::Copy(_node) => out_old[out_pos].clone(),
                Node::Vacant => GLWECt::default(),
            };
            out[out_pos] = out_ct;
        }
    }
    out[0].clone()
}

fn uint_to_int(v: u32, bits: usize) -> i32 {
    if bits == 32 {
        v as i32
    } else if v < (1 << (bits - 1)) {
        v as i32
    } else {
        -(((1 << bits) - v) as i32)
    }
}

fn bit_mask(bits: usize) -> u32 {
    if bits == 32 {
        u32::MAX
    } else {
        (1u32 << bits) - 1
    }
}

#[test]
fn test_add_and_sub() {
    let bits = 32;

    let (add_bdds, add_vars) = add(bits);
    let add_input_order = add_sub_input_order(bits);
    let add_udbdds = add_bdds
        .iter()
        .map(|b| updown_bdd_from_bdd(b, &add_vars, &add_input_order, None))
        .collect_vec();

    let (sub_bdds, sub_vars) = sub(bits);
    let sub_input_order = add_input_order.clone();
    let sub_udbdds = sub_bdds
        .iter()
        .map(|b| updown_bdd_from_bdd(b, &sub_vars, &sub_input_order, None))
        .collect_vec();

    let bit_mask = bit_mask(bits);

    for _ in 0..1000 {
        let a = rng().next_u32() & bit_mask;
        let b = rng().next_u32() & bit_mask;

        let input_bitstring = u32_to_bits(a).into_iter().chain(u32_to_bits(b)).collect_vec();
        let input_ggsw = input_bitstring.iter().map(|b| GGSW::from(*b)).collect_vec();

        let add_out_ggsw = add_udbdds
            .iter()
            .map(|udb| execute(udb, &input_ggsw).value() as u8)
            .collect_vec();
        let sub_out_ggsw = sub_udbdds
            .iter()
            .map(|udb| execute(udb, &input_ggsw).value() as u8)
            .collect_vec();

        let add_have_ggsw = bits_to_u32(&add_out_ggsw);
        let sub_have_ggsw = bits_to_u32(&sub_out_ggsw);
        let add_want = a.wrapping_add(b);
        let sub_want = a.wrapping_sub(b);

        assert_eq!(add_want, add_have_ggsw, "want={:b}, have{:b}", add_want, add_have_ggsw);
        assert_eq!(sub_want, sub_have_ggsw);
    }
}

#[test]
fn test_bitwise_ops() {
    let bits = 32;
    let (and_bdd, and_vars) = bitwise_circuit(bits, BIT_OP::AND);
    let (or_bdd, or_vars) = bitwise_circuit(bits, BIT_OP::OR);
    let (xor_bdd, xor_vars) = bitwise_circuit(bits, BIT_OP::XOR);
    let bitwise_input_order = bitwise_input_order(bits);

    let and_udbdds = and_bdd
        .iter()
        .map(|bdd| updown_bdd_from_bdd(bdd, &and_vars, &bitwise_input_order, None))
        .collect_vec();
    let or_udbdds = or_bdd
        .iter()
        .map(|bdd| updown_bdd_from_bdd(bdd, &or_vars, &bitwise_input_order, None))
        .collect_vec();
    let xor_udbdds = xor_bdd
        .iter()
        .map(|bdd| updown_bdd_from_bdd(bdd, &xor_vars, &bitwise_input_order, None))
        .collect_vec();

    let iterations = 100;
    let mut max = u32::MAX;
    if bits < 32 {
        max = 1u32 << bits;
    }

    let dist = Uniform::new_inclusive(0, max).unwrap();
    for a in rng().sample_iter(&dist).take(iterations) {
        for b in rng().sample_iter(&dist).take(iterations) {
            let input_bits: Vec<u8> = [a, b]
                .iter()
                .flat_map(|v| (0..bits).map(|e| ((*v >> e) & 1) as u8))
                .collect();
            let inputs = input_bits.iter().map(|&bit| GGSW::from((bit == 1) as u8)).collect_vec();

            let or_c = a.bitor(b);
            let and_c = a.bitand(b);
            let xor_c = a.bitxor(b);

            let and_outs = and_udbdds.iter().map(|bdd| execute(bdd, &inputs).value() as u8).collect_vec();
            let or_outs = or_udbdds.iter().map(|bdd| execute(bdd, &inputs).value() as u8).collect_vec();
            let xor_outs = xor_udbdds.iter().map(|bdd| execute(bdd, &inputs).value() as u8).collect_vec();

            let and_have = bits_to_u32(&and_outs);
            let or_have = bits_to_u32(&or_outs);
            let xor_have = bits_to_u32(&xor_outs);

            assert_eq!(and_have, and_c);
            assert_eq!(or_have, or_c);
            assert_eq!(xor_have, xor_c);
        }
    }
}

fn unsigned_comparitor_bdd_variable_order(bits: usize) -> Vec<String> {
    (0..bits)
        .rev()
        .flat_map(|i| [format!("a{}", i), format!("b{}", i)])
        .collect()
}

#[test]
fn test_comparitors() {
    let bits = 32;
    let (unsigned_bdd, unsigned_vars) = unsigned_comparitor(bits);
    let (signed_bdd, signed_vars) = signed_comparitor(bits);

    let unsigned_udbdd = updown_bdd_from_bdd(
        &unsigned_bdd,
        &unsigned_vars,
        &unsigned_comparitor_input_order(bits),
        None,
    );
    let signed_udbdd = updown_bdd_from_bdd(
        &signed_bdd,
        &signed_vars,
        &unsigned_comparitor_input_order(bits),
        None,
    );

    println!("Unsigned UpDownBDD stats: {}", unsigned_udbdd.stats());
    println!("Signed UpDownBDD stats: {}", signed_udbdd.stats());

    let input_order = unsigned_comparitor_input_order(bits);
    let bdd_var_order = unsigned_comparitor_bdd_variable_order(bits);

    let bit_mask = bit_mask(bits);
    for _ in 0..1000 {
        let a = rng().next_u32() & bit_mask;
        let b = rng().next_u32() & bit_mask;

        let input_bits: Vec<u8> = [a, b]
            .iter()
            .flat_map(|v| (0..bits).map(|e| ((*v >> e) & 1) as u8))
            .collect();
        let input_bools = input_bits_to_bdd_var_input(&input_order, &bdd_var_order, None, &input_bits);
        let inputs = input_bits.iter().map(|b| GGSW::from(*b as usize)).collect_vec();

        let uc = a < b;
        let ic = uint_to_int(a, bits) < uint_to_int(b, bits);

        let unsigned_bdd_out = unsigned_bdd.eval_in(&BddValuation::new(input_bools.clone()));
        let signed_bdd_out = signed_bdd.eval_in(&BddValuation::new(input_bools));
        let unsigned_out = execute(&unsigned_udbdd, &inputs);
        let signed_out = execute(&signed_udbdd, &inputs);

        assert_eq!(unsigned_out.value() == 1, unsigned_bdd_out);
        assert_eq!(signed_out.value() == 1, signed_bdd_out);
        assert_eq!(
            uc,
            unsigned_out.value() == 1,
            "expected {uc} but got {} for a={a} > b={b}",
            unsigned_out.value() == 1
        );
        assert_eq!(
            ic,
            signed_out.value() == 1,
            "expected {ic} but got {} for a={a} > b={b}",
            signed_out.value() == 1
        )
    }
}

#[test]
fn test_shift_ops() {
    let bits = 32;
    let shift_bits = 5;

    for op_type in [ShiftOp::SLL, ShiftOp::SRL, ShiftOp::SRA] {
        let (bdds, vars) = shift_circuit(bits, shift_bits, op_type);

        let udbdds = bdds
            .iter()
            .map(|bdd| updown_bdd_from_bdd(bdd, &vars, &shift_input_order(bits, shift_bits), None))
            .collect_vec();

        for value in rng().random_iter::<u32>().take(1000) {
            for shift in 0..1 << shift_bits {
                let inputs_bool: Vec<bool> = (0..shift_bits)
                    .map(|i| (shift >> i) & 1 == 1)
                    .chain((0..bits).map(|i| (value >> i) & 1 == 1))
                    .collect();
                let out_bdd: Vec<bool> = bdds
                    .iter()
                    .map(|bdd| bdd.eval_in(&BddValuation::new(inputs_bool.clone())))
                    .collect();

                let inputs_bool_ubdds: Vec<GGSW> = (0..bits)
                    .map(|i| (value >> i) & 1)
                    .chain((0..shift_bits).map(|i| (shift >> i) & 1))
                    .map(|b| GGSW::from(b as u8))
                    .collect();
                let out_ubdds = udbdds
                    .iter()
                    .map(|ubdd| execute(ubdd, &inputs_bool_ubdds).value() == 1)
                    .collect_vec();

                let have_out_bdds = out_bdd
                    .iter()
                    .enumerate()
                    .fold(0u32, |res, (index, b)| res + ((*b as u32) << index));
                let have_out_ubdds = out_ubdds
                    .iter()
                    .enumerate()
                    .fold(0u32, |res, (index, b)| res + ((*b as u32) << index));

                let want_out = match op_type {
                    ShiftOp::SLL => value << shift,
                    ShiftOp::SRL => value >> shift,
                    ShiftOp::SRA => ((value as i32) >> (shift)) as u32,
                };

                assert_eq!(have_out_bdds, have_out_ubdds);

                assert_eq!(
                    have_out_ubdds, want_out,
                    "Failed at {:#b} {:?} {shift}. have_out={:#b}, want_out={:#b}",
                    value, op_type, have_out_bdds, want_out
                );
            }
        }
    }
}

#[test]
fn test_aiupc() {
    let (bdds, vars) = aiupc();
    let input_order = aiupc_input_order();
    let udbdds = bdds
        .iter()
        .map(|b| updown_bdd_from_bdd(b, &vars, &input_order, None))
        .collect_vec();

    for _ in 0..1000 {
        let pc = rng().next_u32();
        let imm = rng().next_u32();

        let input_bitstring = u32_to_bits(pc).into_iter().chain(u32_to_bits(imm)).collect_vec();
        let input_ggsw = input_bitstring.iter().map(|b| GGSW::from(*b)).collect_vec();

        let out_ggsw = udbdds
            .iter()
            .map(|ud| execute(ud, &input_ggsw).value() as u8)
            .collect_vec();
        let have = bits_to_u32(&out_ggsw);
        let want = pc.wrapping_add(imm << 12);
        assert_eq!(have, want);
    }
}

#[test]
fn test_jalr() {
    let (bdds, vars) = jalr();
    let input_order = jalr_input_order();
    let udbdds = bdds
        .iter()
        .map(|b| updown_bdd_from_bdd(b, &vars, &input_order, None))
        .collect_vec();

    for _ in 0..1000 {
        let pc = rng().next_u32();

        let input_bitstring = u32_to_bits(pc).into_iter().collect_vec();
        let input_ggsw = input_bitstring.iter().map(|b| GGSW::from(*b)).collect_vec();

        let out_ggsw = udbdds
            .iter()
            .map(|ud| execute(ud, &input_ggsw).value() as u8)
            .collect_vec();
        let have = bits_to_u32(&out_ggsw);
        let want = pc.wrapping_add(4);
        assert_eq!(have, want);
    }
}

#[test]
fn test_lui() {
    let (bdds, vars) = lui();
    let input_order = lui_input_order();
    let udbdds = bdds
        .iter()
        .map(|b| updown_bdd_from_bdd(b, &vars, &input_order, None))
        .collect_vec();

    for _ in 0..1000 {
        let imm = rng().next_u32();

        let input_bitstring = u32_to_bits(imm).into_iter().collect_vec();
        let input_ggsw = input_bitstring.iter().map(|b| GGSW::from(*b)).collect_vec();

        let out_ggsw = udbdds
            .iter()
            .map(|ud| execute(ud, &input_ggsw).value() as u8)
            .collect_vec();
        let have = bits_to_u32(&out_ggsw);
        let want = imm.wrapping_shl(12);
        assert_eq!(have, want, "have={:#32b}, want={:#32b}; imm={:#b}", have, want, imm);
    }
}

#[test]
fn test_ram_address_offset() {
    let ram_offset = 1 << 18;
    let (bdds, vars) = ram_address_offset(ram_offset);
    let input_order = ram_offset_input_order();
    let udbdds = bdds
        .iter()
        .map(|b| updown_bdd_from_bdd(b, &vars, &input_order, None))
        .collect_vec();

    for _ in 0..1000 {
        let rs = rng().next_u32();
        let imm = rng().next_u32();

        let input_bitstring = u32_to_bits(rs).into_iter().chain(u32_to_bits(imm)).collect_vec();
        let input_ggsw = input_bitstring.iter().map(|b| GGSW::from(*b)).collect_vec();

        let out_ggsw = udbdds
            .iter()
            .map(|udb| execute(udb, &input_ggsw).value() as u8)
            .collect_vec();

        let have_ggsw = bits_to_u32(&out_ggsw);
        let want = rs.wrapping_add(imm).wrapping_sub(ram_offset);

        assert_eq!(want, have_ggsw, "want={:b}, have={:b}", want, have_ggsw);
    }
}

#[test]
fn test_identity() {
    let bits = 32;
    let (bdds, vars) = identity(bits);
    let input_order = identity_input_order(bits);
    let udbdds = bdds
        .iter()
        .map(|b| updown_bdd_from_bdd(b, &vars, &input_order, None))
        .collect_vec();

    for _ in 0..1000 {
        let x = rng().next_u32();

        let input_bitstring = u32_to_bits(x);
        let input_ggsw = input_bitstring.iter().map(|b| GGSW::from(*b)).collect_vec();

        let out_ggsw = udbdds
            .iter()
            .map(|udb| execute(udb, &input_ggsw).value() as u8)
            .collect_vec();

        let have_ggsw = bits_to_u32(&out_ggsw);
        let want = x;

        assert_eq!(want, have_ggsw, "want={:b}, have={:b}", want, have_ggsw);
    }
}

#[allow(non_camel_case_types)]
#[derive(Debug)]
enum PCU_T {
    NONE,
    BEQ,
    BNE,
    BLT,
    BGE,
    BLTU,
    BGEU,
    JAL,
    JALR,
}

struct PCU {
    op_type: PCU_T,
    // registers
    rs1: u32,
    rs2: u32,
    // program counter
    pc: u32,
    // 20 bit immediate
    imm: u32,
}

impl PCU {
    const NONE: PCU = PCU::new(PCU_T::NONE);

    const BEQ: PCU = PCU::new(PCU_T::BEQ);
    const BNE: PCU = PCU::new(PCU_T::BNE);

    const BLT: PCU = PCU::new(PCU_T::BLT);
    const BGE: PCU = PCU::new(PCU_T::BGE);

    const BLTU: PCU = PCU::new(PCU_T::BLTU);
    const BGEU: PCU = PCU::new(PCU_T::BGEU);

    const JAL: PCU = PCU::new(PCU_T::JAL);
    const JALR: PCU = PCU::new(PCU_T::JALR);

    const fn new(op_type: PCU_T) -> Self {
        Self { op_type, rs1: 0, rs2: 0, pc: 0, imm: 0 }
    }

    fn u_rs1(mut self, rs1: u32) -> Self {
        self.rs1 = rs1;
        self
    }

    fn u_rs2(mut self, rs2: u32) -> Self {
        self.rs2 = rs2;
        self
    }

    fn u_pc(mut self, pc: u32) -> Self {
        self.pc = pc;
        self
    }

    fn u_imm(mut self, imm: u32) -> Self {
        let imm = imm & ((1 << 20) - 1);
        self.imm = imm;
        self
    }

    fn set_rs2_equal_rs1(mut self) -> Self {
        self.rs2 = self.rs1;
        self
    }

    fn set_rs1_lt_rs2(mut self) -> Self {
        if self.rs1 == self.rs2 {
            self.rs1 += 1;
        }
        let tmp = self.rs2;
        self.rs2 = std::cmp::max(self.rs1, self.rs2);
        self.rs1 = std::cmp::min(tmp, self.rs1);
        self
    }

    fn set_rs1_gte_rs2(mut self) -> Self {
        let tmp = self.rs2;
        self.rs2 = std::cmp::min(self.rs1, self.rs2);
        self.rs1 = std::cmp::max(tmp, self.rs1);
        self
    }

    fn set_rs1_lt_rs2_signed(mut self) -> Self {
        if self.rs1 == self.rs2 {
            self.rs1 += 1;
        }
        let tmp = self.rs2 as i32;
        self.rs2 = std::cmp::max(self.rs1 as i32, self.rs2 as i32) as u32;
        self.rs1 = std::cmp::min(tmp, self.rs1 as i32) as u32;
        self
    }

    fn set_rs1_gte_rs2_signed(mut self) -> Self {
        let tmp = self.rs2 as i32;
        self.rs2 = std::cmp::min(self.rs1 as i32, self.rs2 as i32) as u32;
        self.rs1 = std::cmp::max(tmp, self.rs1 as i32) as u32;
        self
    }

    fn bdd_encoded_input(&self) -> Vec<u8> {
        // NOOP :   1000
        //
        // JAL  :   1100
        // JALR :   1110
        //
        // BNE  :   0010
        // BEQ  :   0000
        //
        // BLT  :   0110
        // BGE  :   0111
        //
        // BLTU :   0100
        // BGEU :   0101

        let (s0, s1, s2, s3) = match self.op_type {
            PCU_T::NONE => (1, 0, 0, 0),
            PCU_T::JAL => (1, 1, 0, 0),
            PCU_T::JALR => (1, 1, 1, 0),
            PCU_T::BNE => (0, 0, 1, 0),
            PCU_T::BEQ => (0, 0, 0, 0),
            PCU_T::BLT => (0, 1, 1, 0),
            PCU_T::BGE => (0, 1, 1, 1),
            PCU_T::BLTU => (0, 1, 0, 0),
            PCU_T::BGEU => (0, 1, 0, 1),
        };

        let mut input = vec![];
        input.push(s0);
        input.push(s1);
        input.push(s2);
        input.push(s3);

        input.extend(u32_to_bits(self.rs1).iter());
        input.extend(u32_to_bits(self.rs2).iter());

        input.extend(u32_to_bits(self.pc).iter());
        input.extend(u32_to_bits(self.imm).iter().take(20));

        input
    }

    fn expected_update(&self) -> u32 {
        let se_imm = sign_extend(self.imm, 20);
        let default_case = self.pc + 4;
        match self.op_type {
            PCU_T::NONE => default_case,
            PCU_T::BEQ => {
                if self.rs1 == self.rs2 {
                    self.pc.wrapping_add(se_imm)
                } else {
                    default_case
                }
            }
            PCU_T::BNE => {
                if self.rs1 != self.rs2 {
                    self.pc.wrapping_add(se_imm)
                } else {
                    default_case
                }
            }
            PCU_T::BLT => {
                if (self.rs1 as i32) < self.rs2 as i32 {
                    self.pc.wrapping_add(se_imm)
                } else {
                    default_case
                }
            }
            PCU_T::BLTU => {
                if self.rs1 < self.rs2 {
                    self.pc.wrapping_add(se_imm)
                } else {
                    default_case
                }
            }
            PCU_T::BGE => {
                if (self.rs1 as i32) >= (self.rs2 as i32) {
                    self.pc.wrapping_add(se_imm)
                } else {
                    default_case
                }
            }
            PCU_T::BGEU => {
                if self.rs1 >= self.rs2 {
                    self.pc.wrapping_add(se_imm)
                } else {
                    default_case
                }
            }
            PCU_T::JAL => self.pc.wrapping_add(se_imm),
            PCU_T::JALR => (self.pc.wrapping_add(se_imm).wrapping_shr(1)).wrapping_shl(1),
        }
    }
}

#[test]
fn test_pc_update() {
    let (bdd, vars) = pc_update();
    let bdd_input_order = vars.variable_names();
    let (input_order, input_alias_map) = pc_update_input_order();
    let udbdds = bdd
        .iter()
        .map(|b| updown_bdd_from_bdd(b, &vars, &input_order, Some(&input_alias_map)))
        .collect_vec();

    for _ in 0..1000 {
        [
            PCU::BEQ.u_pc(rng().next_u32()).u_imm(rng().next_u32()).u_rs1(rng().next_u32()).u_rs2(rng().next_u32()).set_rs2_equal_rs1(),
            PCU::BEQ.u_pc(rng().next_u32()).u_imm(rng().next_u32()).u_rs1(rng().next_u32()).u_rs2(rng().next_u32()).set_rs1_lt_rs2(),

            PCU::BNE.u_pc(rng().next_u32()).u_imm(rng().next_u32()).u_rs1(rng().next_u32()).u_rs2(rng().next_u32()).set_rs1_lt_rs2(),
            PCU::BNE.u_pc(rng().next_u32()).u_imm(rng().next_u32()).u_rs1(rng().next_u32()).u_rs2(rng().next_u32()).set_rs2_equal_rs1(),

            PCU::BLTU.u_pc(rng().next_u32()).u_imm(rng().next_u32()).u_rs1(rng().next_u32()).u_rs2(rng().next_u32()).set_rs1_lt_rs2(),
            PCU::BLTU.u_pc(rng().next_u32()).u_imm(rng().next_u32()).u_rs1(rng().next_u32()).u_rs2(rng().next_u32()).set_rs1_gte_rs2(),

            PCU::BGEU.u_pc(rng().next_u32()).u_imm(rng().next_u32()).u_rs1(rng().next_u32()).u_rs2(rng().next_u32()).set_rs1_gte_rs2(),
            PCU::BGEU.u_pc(rng().next_u32()).u_imm(rng().next_u32()).u_rs1(rng().next_u32()).u_rs2(rng().next_u32()).set_rs1_lt_rs2(),

            PCU::BLT.u_pc(rng().next_u32()).u_imm(rng().next_u32()).u_rs1(rng().next_u32()).u_rs2(rng().next_u32()).set_rs1_lt_rs2_signed(),
            PCU::BLT.u_pc(rng().next_u32()).u_imm(rng().next_u32()).u_rs1(rng().next_u32()).u_rs2(rng().next_u32()).set_rs1_gte_rs2_signed(),

            PCU::BGE.u_pc(rng().next_u32()).u_imm(rng().next_u32()).u_rs1(rng().next_u32()).u_rs2(rng().next_u32()).set_rs1_gte_rs2_signed(),
            PCU::BGE.u_pc(rng().next_u32()).u_imm(rng().next_u32()).u_rs1(rng().next_u32()).u_rs2(rng().next_u32()).set_rs1_lt_rs2_signed(),

            PCU::JAL.u_pc(rng().next_u32()).u_imm(rng().next_u32()).u_rs1(rng().next_u32()).u_rs2(rng().next_u32()),
            PCU::JALR.u_pc(rng().next_u32()).u_imm(rng().next_u32()).u_rs1(rng().next_u32()).u_rs2(rng().next_u32()),

            PCU::NONE.u_pc(rng().next_u32()).u_imm(rng().next_u32()).u_rs1(rng().next_u32()).u_rs2(rng().next_u32()),
        ]
        .iter_mut()
        .for_each(|pcu| {
            let input_bitstring = pcu.bdd_encoded_input();

            let bdd_input = input_bits_to_bdd_var_input(
                &input_order,
                &bdd_input_order,
                Some(&input_alias_map),
                &input_bitstring,
            );
            let bdd_out: Vec<u8> = bdd
                .iter()
                .map(|bdd| bdd.eval_in(&BddValuation::new(bdd_input.clone())) as u8)
                .collect();

            let input_ggsw = input_bitstring.iter().map(|bit| GGSW::from(*bit)).collect_vec();
            let output_ggsw = udbdds.iter().map(|udb| execute(udb, &input_ggsw).value() as u8).collect_vec();

            let have_ggsw = bits_to_u32(&output_ggsw);
            let have_bdd = bits_to_u32(&bdd_out);
            let want = pcu.expected_update();

            assert_eq!(have_bdd, have_ggsw, "Udbdd output {:#b} != bdd output {:#b}", have_ggsw, have_bdd);

            assert_eq!(
                have_bdd, want,
                "Failed for Op={:?}, have={:#32b}, want={:#32b}, pc={:#32b}, imm={:#32b}, rs1={:#32b}, rs2={:#32b}",
                pcu.op_type, have_bdd, want, pcu.pc, sign_extend(pcu.imm, 20), pcu.rs1, pcu.rs2
            );
        });
    }
}

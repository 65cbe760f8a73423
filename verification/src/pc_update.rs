use vstd::prelude::*;
use vstd::arithmetic::power2::{pow2, lemma2_to64};
use biodivine_lib_bdd::{Bdd, BddVariableSet};
use crate::bdd::{
    bdd_wf, bdd_eval, num_vars, var_set_names, var_set_new, bdd_and, bdd_or, bdd_xor, bdd_not,
    bdd_if_then_else,
};
use crate::bits::{
    b2i, bits_value, carry, sum_bit, sum_bits, lemma_ripple_mod, int_bits, high_value,
    signed_value, flip_msb, lemma_high_value_step, lemma_high_value_ends, lemma_flip_msb_value,
    lemma_bits_value_injective, lemma_clear_bit0,
};
use crate::circuit::{eval_all, all_wf, name_prefix, mk_named_var, mk_false, mk_true};
use crate::names::{
    indexed, indexed_name, dec, is_digit, valid_var_name, valid_var_names, ends_in_non_digit,
    lemma_indexed_injective, lemma_indexed_valid, lemma_dec_digits, digit_char, lemma_digit_char,
};
use crate::arithmetic::full_adder;
use crate::bdd::strings_view;
use crate::circuit::{numbered, numbered_names, lemma_indexed_names_valid};
use crate::codegen::{codegen_circuits, generates, layout_fails, lemma_generates_mapped_aliased};
use crate::updown::{alias_view, dealias, distinct_keys, first_key};

verus! {

/// Variable `j` of the program-counter update: `s2`, then
/// `rs1_31, rs2_31, ..., rs1_0, rs2_0`, then `s3, s2_c, s1, s0, s2_2c, s1_c,
/// s0_c`, then `imm0, pc0, ..., imm19, pc19`, then `pc20, ..., pc31`.
pub open spec fn pc_update_name(j: int) -> Seq<char> {
    if j == 0 {
        "s2"@
    } else if j <= 64 {
        if (j - 1) % 2 == 0 {
            indexed("rs1_"@, (31 - (j - 1) / 2) as nat)
        } else {
            indexed("rs2_"@, (31 - (j - 1) / 2) as nat)
        }
    } else if j == 65 {
        "s3"@
    } else if j == 66 {
        "s2_c"@
    } else if j == 67 {
        "s1"@
    } else if j == 68 {
        "s0"@
    } else if j == 69 {
        "s2_2c"@
    } else if j == 70 {
        "s1_c"@
    } else if j == 71 {
        "s0_c"@
    } else if j < 112 {
        if (j - 72) % 2 == 0 {
            indexed("imm"@, ((j - 72) / 2) as nat)
        } else {
            indexed("pc"@, ((j - 72) / 2) as nat)
        }
    } else {
        indexed("pc"@, (20 + (j - 112)) as nat)
    }
}

/// The variable names of the program-counter update, in variable order.
pub open spec fn pc_update_var_names() -> Seq<Seq<char>> {
    Seq::new(124, |j: int| pc_update_name(j))
}

/// The variable of bit `i` of the first register.
pub open spec fn rs1_index(i: int) -> int {
    1 + 2 * (31 - i)
}

/// The variable of bit `i` of the second register.
pub open spec fn rs2_index(i: int) -> int {
    2 + 2 * (31 - i)
}

/// The variable of bit `i` of the program counter.
pub open spec fn pc_index(i: int) -> int {
    if i < 20 {
        73 + 2 * i
    } else {
        92 + i
    }
}

/// The variable of bit `i` of the immediate.
pub open spec fn imm_index(i: int) -> int {
    72 + 2 * i
}

/// The first register read from an assignment.
pub open spec fn pcu_rs1(v: Seq<bool>) -> Seq<bool> {
    Seq::new(32, |i: int| v[rs1_index(i)])
}

/// The second register read from an assignment.
pub open spec fn pcu_rs2(v: Seq<bool>) -> Seq<bool> {
    Seq::new(32, |i: int| v[rs2_index(i)])
}

/// The program counter read from an assignment.
pub open spec fn pcu_pc(v: Seq<bool>) -> Seq<bool> {
    Seq::new(32, |i: int| v[pc_index(i)])
}

/// The 20-bit immediate read from an assignment.
pub open spec fn pcu_imm(v: Seq<bool>) -> Seq<bool> {
    Seq::new(20, |i: int| v[imm_index(i)])
}

/// `imm` sign-extended to `n` bits.
pub open spec fn sext_bits(imm: Seq<bool>, n: nat) -> Seq<bool> {
    Seq::new(n, |k: int| if k < imm.len() { imm[k] } else { imm.last() })
}

/// `rs1 < rs2`, signed where `s2` (variable 0) is set, unsigned elsewhere.
pub open spec fn pcu_lt(v: Seq<bool>) -> bool {
    if v[0] {
        signed_value(pcu_rs1(v)) < signed_value(pcu_rs2(v))
    } else {
        bits_value(pcu_rs1(v)) < bits_value(pcu_rs2(v))
    }
}

/// Whether the update adds the immediate: `s0` (variable 68) selects `s1`
/// (variable 67); elsewhere `s1` selects between `lt`, inverted by `s3`
/// (variable 65), and `rs1 == rs2`, inverted by `s2_c` (variable 66).
pub open spec fn pcu_taken(v: Seq<bool>) -> bool {
    let eq = pcu_rs1(v) == pcu_rs2(v);
    let lt = pcu_lt(v);
    let choose_lt_ge = if v[65] {
        !lt
    } else {
        lt
    };
    let choose_ne_eq = if v[66] {
        !eq
    } else {
        eq
    };
    let left_root = if v[67] {
        choose_lt_ge
    } else {
        choose_ne_eq
    };
    if v[68] {
        v[67]
    } else {
        left_root
    }
}

/// The new program counter: `pc + sext(imm)` where the update adds the
/// immediate, `pc + 4` elsewhere (both wrapping), with bit 0 cleared where
/// `s0_c`, `s1_c` and `s2_2c` (variables 71, 70, 69) are all set.
pub open spec fn pcu_target(v: Seq<bool>) -> int {
    let m = pow2(32) as int;
    let t = if pcu_taken(v) {
        (bits_value(pcu_pc(v)) + bits_value(sext_bits(pcu_imm(v), 32))) % m
    } else {
        (bits_value(pcu_pc(v)) + 4) % m
    };
    if v[71] && v[70] && v[69] {
        t - t % 2
    } else {
        t
    }
}

/// The branch decision of the program-counter update follows RISC-V on
/// whole registers. With `s0` and `s1` unset (variables 68, 67) it is
/// `BEQ`/`BNE`: taken exactly when the two registers are equal as 32-bit
/// numbers, or, with `s2_c` (variable 66) set, when they differ. With `s0`
/// unset and `s1` set it is `BLT`/`BGE`/`BLTU`/`BGEU`: taken exactly when
/// `rs1 < rs2` as two's complement numbers where `s2` (variable 0) is set and
/// as unsigned numbers elsewhere, the answer inverted where `s3` (variable 65)
/// is set. With `s0` set (`JAL`/`JALR` or no jump) the immediate is added
/// exactly when `s1` is set. The new program counter is `pc + imm` (the
/// immediate sign-extended) for a taken branch and `pc + 4` otherwise,
/// modulo `2^32`; where `s0_c`, `s1_c` and `s2_2c` (variables 71, 70, 69) are
/// all set (`JALR`) that sum has its lowest bit cleared.
pub proof fn lemma_pc_update_branches(v: Seq<bool>)
    requires
        v.len() >= 124,
    ensures
        !v[68] && !v[67] ==> (pcu_taken(v) <==> if v[66] {
            bits_value(pcu_rs1(v)) != bits_value(pcu_rs2(v))
        } else {
            bits_value(pcu_rs1(v)) == bits_value(pcu_rs2(v))
        }),
        !v[68] && v[67] ==> (pcu_taken(v) <==> (v[65] != if v[0] {
            signed_value(pcu_rs1(v)) < signed_value(pcu_rs2(v))
        } else {
            bits_value(pcu_rs1(v)) < bits_value(pcu_rs2(v))
        })),
        v[68] ==> (pcu_taken(v) <==> v[67]),
        !(v[71] && v[70] && v[69]) ==> pcu_target(v) == if pcu_taken(v) {
            (bits_value(pcu_pc(v)) + bits_value(sext_bits(pcu_imm(v), 32))) % (pow2(32) as int)
        } else {
            (bits_value(pcu_pc(v)) + 4) % (pow2(32) as int)
        },
        v[71] && v[70] && v[69] ==> pcu_target(v) % 2 == 0 && {
            let t = if pcu_taken(v) {
                (bits_value(pcu_pc(v)) + bits_value(sext_bits(pcu_imm(v), 32))) % (pow2(32) as int)
            } else {
                (bits_value(pcu_pc(v)) + 4) % (pow2(32) as int)
            };
            pcu_target(v) == t || pcu_target(v) + 1 == t
        },
{
    if bits_value(pcu_rs1(v)) == bits_value(pcu_rs2(v)) {
        lemma_bits_value_injective(pcu_rs1(v), pcu_rs2(v));
    }
}

/// The second operand of the program-counter adder.
pub open spec fn pcu_rhs(v: Seq<bool>) -> Seq<bool> {
    if pcu_taken(v) {
        sext_bits(pcu_imm(v), 32)
    } else {
        int_bits(4, 32)
    }
}

proof fn lemma_pc_update_literals()
    ensures
        "s2"@ == indexed("s"@, 2),
        "s3"@ == indexed("s"@, 3),
        "s1"@ == indexed("s"@, 1),
        "s0"@ == indexed("s"@, 0),
        name_prefix("s"@),
        name_prefix("rs1_"@),
        name_prefix("rs2_"@),
        name_prefix("imm"@),
        name_prefix("pc"@),
        valid_var_name("s2_c"@) && ends_in_non_digit("s2_c"@),
        valid_var_name("s2_2c"@) && ends_in_non_digit("s2_2c"@),
        valid_var_name("s1_c"@) && ends_in_non_digit("s1_c"@),
        valid_var_name("s0_c"@) && ends_in_non_digit("s0_c"@),
        "s2_c"@ != "s2_2c"@,
        "s2_c"@ != "s1_c"@,
        "s2_c"@ != "s0_c"@,
        "s2_2c"@ != "s1_c"@,
        "s2_2c"@ != "s0_c"@,
        "s1_c"@ != "s0_c"@,
        "s"@ != "rs1_"@,
        "s"@ != "rs2_"@,
        "s"@ != "imm"@,
        "s"@ != "pc"@,
        "rs1_"@ != "rs2_"@,
        "rs1_"@ != "imm"@,
        "rs1_"@ != "pc"@,
        "rs2_"@ != "imm"@,
        "rs2_"@ != "pc"@,
        "imm"@ != "pc"@,
{
    reveal_strlit("s2");
    reveal_strlit("s3");
    reveal_strlit("s1");
    reveal_strlit("s0");
    reveal_strlit("s");
    reveal_strlit("rs1_");
    reveal_strlit("rs2_");
    reveal_strlit("imm");
    reveal_strlit("pc");
    reveal_strlit("s2_c");
    reveal_strlit("s2_2c");
    reveal_strlit("s1_c");
    reveal_strlit("s0_c");
    assert(dec(2) == seq![digit_char(2)]);
    assert(dec(3) == seq![digit_char(3)]);
    assert(dec(1) == seq![digit_char(1)]);
    assert(dec(0) == seq![digit_char(0)]);
    assert("s2"@ =~= indexed("s"@, 2));
    assert("s3"@ =~= indexed("s"@, 3));
    assert("s1"@ =~= indexed("s"@, 1));
    assert("s0"@ =~= indexed("s"@, 0));
    assert("s2_c"@[1] != "s1_c"@[1]);
    assert("s2_c"@[1] != "s0_c"@[1]);
    assert("s1_c"@[1] != "s0_c"@[1]);
    assert("s2_2c"@[1] != "s1_c"@[1]);
    assert("s2_2c"@[1] != "s0_c"@[1]);
    assert("s"@[0] != "rs1_"@[0]);
    assert("s"@[0] != "rs2_"@[0]);
    assert("s"@[0] != "imm"@[0]);
    assert("s"@[0] != "pc"@[0]);
    assert("rs1_"@[2] != "rs2_"@[2]);
    assert("rs1_"@[0] != "imm"@[0]);
    assert("rs1_"@[0] != "pc"@[0]);
    assert("rs2_"@[0] != "imm"@[0]);
    assert("rs2_"@[0] != "pc"@[0]);
    assert("imm"@[0] != "pc"@[0]);
}

/// Whether variable `j` has a name without a numeric suffix.
spec fn plain_name(j: int) -> bool {
    j == 66 || j == 69 || j == 70 || j == 71
}

spec fn name_prefix_of(j: int) -> Seq<char> {
    if j == 0 || j == 65 || j == 67 || j == 68 {
        "s"@
    } else if j <= 64 {
        if (j - 1) % 2 == 0 {
            "rs1_"@
        } else {
            "rs2_"@
        }
    } else if 72 <= j < 112 && (j - 72) % 2 == 0 {
        "imm"@
    } else {
        "pc"@
    }
}

spec fn name_index_of(j: int) -> nat {
    if j == 0 {
        2
    } else if j <= 64 {
        (31 - (j - 1) / 2) as nat
    } else if j == 65 {
        3
    } else if j == 67 {
        1
    } else if j == 68 {
        0
    } else if j < 112 {
        ((j - 72) / 2) as nat
    } else {
        (20 + (j - 112)) as nat
    }
}

proof fn lemma_pc_update_names_valid()
    ensures
        valid_var_names(pc_update_var_names()),
{
    lemma_pc_update_literals();
    let names = pc_update_var_names();
    assert forall|j: int| 0 <= j < 124 && !plain_name(j) implies #[trigger] pc_update_name(j)
        == indexed(name_prefix_of(j), name_index_of(j)) && name_prefix(name_prefix_of(j)) by {
    }
    assert forall|i: int| 0 <= i < names.len() implies valid_var_name(#[trigger] names[i]) by {
        assert(names[i] == pc_update_name(i));
        if !plain_name(i) {
            lemma_indexed_valid(name_prefix_of(i), name_index_of(i));
        }
    }
    assert forall|i: int, j: int|
        0 <= i < names.len() && 0 <= j < names.len() && i != j implies #[trigger] names[i]
            != #[trigger] names[j] by {
        assert(names[i] == pc_update_name(i));
        assert(names[j] == pc_update_name(j));
        if names[i] == names[j] {
            if plain_name(i) && plain_name(j) {
            } else if plain_name(i) {
                lemma_dec_digits(name_index_of(j));
                let s = pc_update_name(j);
                assert(s.last() == dec(name_index_of(j)).last());
            } else if plain_name(j) {
                lemma_dec_digits(name_index_of(i));
                let s = pc_update_name(i);
                assert(s.last() == dec(name_index_of(i)).last());
            } else {
                lemma_indexed_injective(
                    name_prefix_of(i),
                    name_index_of(i),
                    name_prefix_of(j),
                    name_index_of(j),
                );
            }
        }
    }
}

fn pc_update_names() -> (r: Vec<String>)
    ensures
        r@.map_values(|s: String| s@) == pc_update_var_names(),
{
    let mut r: Vec<String> = Vec::new();
    r.push("s2".to_owned());
    let mut i: usize = 32;
    while i > 0
        invariant
            i <= 32,
            r@.len() == 1 + 2 * (32 - i),
            forall|j: int| 0 <= j < r@.len() ==> #[trigger] r@[j]@ == pc_update_name(j),
        decreases i,
    {
        i = i - 1;
        let ghost old_r = r@;
        r.push(indexed_name("rs1_", i));
        r.push(indexed_name("rs2_", i));
        proof {
            assert forall|j: int| 0 <= j < r@.len() implies #[trigger] r@[j]@ == pc_update_name(j) by {
                if j < old_r.len() {
                    assert(r@[j] == old_r[j]);
                }
            }
        }
    }
    let ghost old_r = r@;
    r.push("s3".to_owned());
    r.push("s2_c".to_owned());
    r.push("s1".to_owned());
    r.push("s0".to_owned());
    r.push("s2_2c".to_owned());
    r.push("s1_c".to_owned());
    r.push("s0_c".to_owned());
    proof {
        assert forall|j: int| 0 <= j < r@.len() implies #[trigger] r@[j]@ == pc_update_name(j) by {
            if j < old_r.len() {
                assert(r@[j] == old_r[j]);
            }
        }
    }
    let mut i: usize = 0;
    while i < 20
        invariant
            i <= 20,
            r@.len() == 72 + 2 * i,
            forall|j: int| 0 <= j < r@.len() ==> #[trigger] r@[j]@ == pc_update_name(j),
        decreases 20 - i,
    {
        let ghost old_r = r@;
        r.push(indexed_name("imm", i));
        r.push(indexed_name("pc", i));
        proof {
            assert forall|j: int| 0 <= j < r@.len() implies #[trigger] r@[j]@ == pc_update_name(j) by {
                if j < old_r.len() {
                    assert(r@[j] == old_r[j]);
                }
            }
        }
        i = i + 1;
    }
    let mut i: usize = 20;
    while i < 32
        invariant
            20 <= i <= 32,
            r@.len() == 112 + (i - 20),
            forall|j: int| 0 <= j < r@.len() ==> #[trigger] r@[j]@ == pc_update_name(j),
        decreases 32 - i,
    {
        let ghost old_r = r@;
        r.push(indexed_name("pc", i));
        proof {
            assert forall|j: int| 0 <= j < r@.len() implies #[trigger] r@[j]@ == pc_update_name(j) by {
                if j < old_r.len() {
                    assert(r@[j] == old_r[j]);
                }
            }
        }
        i = i + 1;
    }
    proof {
        assert(r@.map_values(|s: String| s@) =~= pc_update_var_names());
    }
    r
}

proof fn lemma_flip_msb_involutive(x: Seq<bool>)
    requires
        x.len() > 0,
    ensures
        flip_msb(flip_msb(x)) == x,
{
    assert(flip_msb(flip_msb(x)) =~= x);
}

/// The register operand as seen by the comparator: the sign bit flipped
/// where the comparison is signed.
pub open spec fn compared_operand(r: Seq<bool>, signed: bool) -> Seq<bool> {
    if signed {
        flip_msb(r)
    } else {
        r
    }
}

/// The program-counter update of a RISC-V core as a 32-output circuit over
/// the variables of `pc_update_var_names`: branch comparison of `rs1` and
/// `rs2`, selection of the taken branch, and the addition of either the
/// sign-extended immediate or 4 to the program counter.
#[verifier::spinoff_prover]
#[verifier::rlimit(40)]
pub fn pc_update() -> (res: (Vec<Bdd>, BddVariableSet))
    ensures
        var_set_names(res.1) == pc_update_var_names(),
        res.0.len() == 32,
        all_wf(res.0@, 124),
        forall|v: Seq<bool>| #[trigger] bits_value(eval_all(res.0@, v)) == pcu_target(v),
{
    let bits: usize = 32;
    let vars_arr = pc_update_names();
    proof {
        lemma_pc_update_names_valid();
        lemma_pc_update_literals();
        assert(vars_arr@.map_values(|s: String| s@).len() == vars_arr.len());
        assert(pc_update_var_names()[68] == pc_update_name(68));
        assert(pc_update_var_names()[67] == pc_update_name(67));
        assert(pc_update_var_names()[0] == pc_update_name(0));
        assert(pc_update_var_names()[65] == pc_update_name(65));
        assert(pc_update_var_names()[71] == pc_update_name(71));
        assert(pc_update_var_names()[70] == pc_update_name(70));
        assert(pc_update_var_names()[66] == pc_update_name(66));
        assert(pc_update_var_names()[69] == pc_update_name(69));
    }
    let vars = var_set_new(&vars_arr);
    let s0 = mk_named_var(&vars, "s0", Ghost(68));  // <u | <s
    let s1 = mk_named_var(&vars, "s1", Ghost(67));  // == | (<u | <s)
    let s2 = mk_named_var(&vars, "s2", Ghost(0));  // set for ne ops
    let s3 = mk_named_var(&vars, "s3", Ghost(65));  // set for JALR | JAL
    // aliases, `c` stands for copy
    let s0_c = mk_named_var(&vars, "s0_c", Ghost(71));
    let s1_c = mk_named_var(&vars, "s1_c", Ghost(70));
    let s2_c = mk_named_var(&vars, "s2_c", Ghost(66));
    let s2_2c = mk_named_var(&vars, "s2_2c", Ghost(69));

    let mut rs1: Vec<Bdd> = Vec::new();
    let mut rs2: Vec<Bdd> = Vec::new();
    let mut i: usize = 0;
    while i < bits
        invariant
            bits == 32,
            i <= 32,
            var_set_names(vars) == pc_update_var_names(),
            rs1.len() == i,
            rs2.len() == i,
            all_wf(rs1@, 124),
            all_wf(rs2@, 124),
            forall|k: int, v: Seq<bool>| 0 <= k < i ==> #[trigger] bdd_eval(rs1@[k], v) == v[rs1_index(k)],
            forall|k: int, v: Seq<bool>| 0 <= k < i ==> #[trigger] bdd_eval(rs2@[k], v) == v[rs2_index(k)],
        decreases 32 - i,
    {
        proof {
            lemma_pc_update_names_valid();
            let j1 = rs1_index(i as int);
            let j2 = rs2_index(i as int);
            assert((j1 - 1) % 2 == 0 && (j1 - 1) / 2 == 31 - i);
            assert((j2 - 1) % 2 == 1 && (j2 - 1) / 2 == 31 - i);
            assert(pc_update_var_names()[j1] == pc_update_name(j1));
            assert(pc_update_var_names()[j2] == pc_update_name(j2));
        }
        let n1 = indexed_name("rs1_", i);
        let n2 = indexed_name("rs2_", i);
        rs1.push(mk_named_var(&vars, n1.as_str(), Ghost(rs1_index(i as int))));
        rs2.push(mk_named_var(&vars, n2.as_str(), Ghost(rs2_index(i as int))));
        i = i + 1;
    }

    let mut pc: Vec<Bdd> = Vec::new();
    let mut imm: Vec<Bdd> = Vec::new();
    let mut i: usize = 0;
    while i < 32
        invariant
            i <= 32,
            var_set_names(vars) == pc_update_var_names(),
            pc.len() == i,
            imm.len() == if i < 20 { i } else { 20 },
            all_wf(pc@, 124),
            all_wf(imm@, 124),
            forall|k: int, v: Seq<bool>| 0 <= k < i ==> #[trigger] bdd_eval(pc@[k], v) == v[pc_index(k)],
            forall|k: int, v: Seq<bool>|
                0 <= k < imm.len() ==> #[trigger] bdd_eval(imm@[k], v) == v[imm_index(k)],
        decreases 32 - i,
    {
        proof {
            lemma_pc_update_names_valid();
            let jp = pc_index(i as int);
            let ji = imm_index(i as int);
            if i < 20 {
                assert((jp - 72) % 2 == 1 && (jp - 72) / 2 == i);
                assert((ji - 72) % 2 == 0 && (ji - 72) / 2 == i);
                assert(pc_update_var_names()[ji] == pc_update_name(ji));
            }
            assert(pc_update_var_names()[jp] == pc_update_name(jp));
        }
        let np = indexed_name("pc", i);
        pc.push(mk_named_var(&vars, np.as_str(), Ghost(pc_index(i as int))));
        if i < 20 {
            let ni = indexed_name("imm", i);
            imm.push(mk_named_var(&vars, ni.as_str(), Ghost(imm_index(i as int))));
        }
        i = i + 1;
    }

    // ==== Circuit begins ====
    let ghost ap = |v: Seq<bool>| compared_operand(pcu_rs1(v), v[0]);
    let ghost bp = |v: Seq<bool>| compared_operand(pcu_rs2(v), v[0]);
    let msb2 = bdd_if_then_else(&s2, &bdd_not(&rs2[bits - 1]), &rs2[bits - 1]);
    let mut comp = bdd_and(&msb2, &bdd_if_then_else(&s2, &rs1[bits - 1], &bdd_not(&rs1[bits - 1])));
    let mut not_casc = bdd_not(
        &bdd_xor(&msb2, &bdd_if_then_else(&s2, &bdd_not(&rs1[bits - 1]), &rs1[bits - 1])),
    );
    proof {
        assert forall|v: Seq<bool>|
            #[trigger] bdd_eval(comp, v) == (high_value(ap(v), 31) < high_value(bp(v), 31))
            && bdd_eval(not_casc, v) == (high_value(ap(v), 31) == high_value(bp(v), 31)) by {
            lemma_high_value_step(ap(v), 31);
            lemma_high_value_step(bp(v), 31);
            lemma_high_value_ends(ap(v));
            lemma_high_value_ends(bp(v));
            assert(bdd_eval(rs1@[31], v) == pcu_rs1(v)[31]);
            assert(bdd_eval(rs2@[31], v) == pcu_rs2(v)[31]);
        }
    }
    let mut i: usize = bits - 1;
    while i > 0
        invariant
            bits == 32,
            i < 32,
            rs1.len() == 32,
            rs2.len() == 32,
            all_wf(rs1@, 124),
            all_wf(rs2@, 124),
            forall|k: int, v: Seq<bool>| 0 <= k < 32 ==> #[trigger] bdd_eval(rs1@[k], v) == v[rs1_index(k)],
            forall|k: int, v: Seq<bool>| 0 <= k < 32 ==> #[trigger] bdd_eval(rs2@[k], v) == v[rs2_index(k)],
            ap == (|v: Seq<bool>| compared_operand(pcu_rs1(v), v[0])),
            bp == (|v: Seq<bool>| compared_operand(pcu_rs2(v), v[0])),
            bdd_wf(comp),
            bdd_wf(not_casc),
            num_vars(comp) == 124,
            num_vars(not_casc) == 124,
            forall|v: Seq<bool>|
                #[trigger] bdd_eval(comp, v) == (high_value(ap(v), i as int) < high_value(bp(v), i as int))
                && bdd_eval(not_casc, v) == (high_value(ap(v), i as int) == high_value(bp(v), i as int)),
        decreases i,
    {
        i = i - 1;
        let lower = bdd_and(&bdd_and(&rs2[i], &bdd_not(&rs1[i])), &not_casc);
        let comp2 = bdd_or(&comp, &lower);
        let not_casc2 = bdd_and(&not_casc, &bdd_not(&bdd_xor(&rs2[i], &rs1[i])));
        proof {
            assert forall|v: Seq<bool>|
                #[trigger] bdd_eval(comp2, v) == (high_value(ap(v), i as int) < high_value(bp(v), i as int))
                && bdd_eval(not_casc2, v) == (high_value(ap(v), i as int) == high_value(bp(v), i as int)) by {
                assert(bdd_eval(comp, v) == (high_value(ap(v), i + 1) < high_value(bp(v), i + 1)));
                lemma_high_value_step(ap(v), i as int);
                lemma_high_value_step(bp(v), i as int);
                assert(ap(v)[i as int] == bdd_eval(rs1@[i as int], v));
                assert(bp(v)[i as int] == bdd_eval(rs2@[i as int], v));
            }
        }
        comp = comp2;
        not_casc = not_casc2;
    }
    proof {
        assert forall|v: Seq<bool>|
            #[trigger] bdd_eval(comp, v) == pcu_lt(v) && bdd_eval(not_casc, v) == (pcu_rs1(v) == pcu_rs2(v)) by {
            lemma_high_value_ends(ap(v));
            lemma_high_value_ends(bp(v));
            let r1 = pcu_rs1(v);
            let r2 = pcu_rs2(v);
            if v[0] {
                lemma_flip_msb_value(r1);
                lemma_flip_msb_value(r2);
                lemma_flip_msb_involutive(r1);
                lemma_flip_msb_involutive(r2);
            }
            if bits_value(ap(v)) == bits_value(bp(v)) {
                lemma_bits_value_injective(ap(v), bp(v));
            }
        }
    }

    // if not_casc == 1, then rs1==rs2, else rs1!=rs2
    // if comp == 1, then rs1<rs2, else rs1>=rs2
    let choose_lt_ge = bdd_if_then_else(&s3, &bdd_not(&comp), &comp);
    let choose_ne_eq = bdd_if_then_else(&s2_c, &bdd_not(&not_casc), &not_casc);
    let left_root = bdd_if_then_else(&s1, &choose_lt_ge, &choose_ne_eq);
    // right_root = s1
    let is_op = bdd_if_then_else(&s0, &s1, &left_root);
    let ghost rhs_bits = |v: Seq<bool>| pcu_rhs(v);
    let ghost pcs = |v: Seq<bool>| pcu_pc(v);
    proof {
        assert forall|v: Seq<bool>| #[trigger] bdd_eval(is_op, v) == pcu_taken(v) by {
            assert(bdd_eval(comp, v) == pcu_lt(v));
        }
        assert forall|k: int| 0 <= k < 32 implies #[trigger] int_bits(4, 32)[k] == (k == 2) by {
            crate::extras::lemma_bits_of_four(k as nat);
        }
    }

    let f = mk_false(&vars);
    let t = mk_true(&vars);

    // 0th bit
    let mut out: Vec<Bdd> = Vec::new();
    let rhs = bdd_if_then_else(&is_op, &imm[0], &f);
    let mut c = bdd_and(&pc[0], &rhs);
    let is_jalr = bdd_and(&s0_c, &bdd_and(&s1_c, &s2_2c));
    out.push(bdd_if_then_else(&is_jalr, &f, &bdd_xor(&pc[0], &rhs)));
    proof {
        assert forall|v: Seq<bool>| #[trigger] bdd_eval(c, v) == carry(pcs(v), rhs_bits(v), false, 1) by {
            assert(carry(pcs(v), rhs_bits(v), false, 0) == false);
            assert(bdd_eval(pc@[0], v) == pcs(v)[0]);
            assert(bdd_eval(imm@[0], v) == pcu_imm(v)[0]);
        }
        assert forall|v: Seq<bool>| #[trigger] bdd_eval(out@[0], v) == if v[71] && v[70] && v[69] {
            false
        } else {
            sum_bit(pcs(v), rhs_bits(v), false, 0)
        } by {
            assert(carry(pcs(v), rhs_bits(v), false, 0) == false);
            assert(bdd_eval(pc@[0], v) == pcs(v)[0]);
            assert(bdd_eval(imm@[0], v) == pcu_imm(v)[0]);
        }
    }

    // 1st bit
    let rhs = bdd_if_then_else(&is_op, &imm[1], &f);
    let (s, c2) = full_adder(&pc[1], &rhs, &c);
    out.push(s);
    c = c2;

    // 2nd bit
    let rhs = bdd_if_then_else(&is_op, &imm[2], &t);
    let (s, c2) = full_adder(&pc[2], &rhs, &c);
    out.push(s);
    c = c2;
    proof {
        assert forall|k: int, v: Seq<bool>| 1 <= k < 3 implies #[trigger] bdd_eval(out@[k], v)
            == sum_bit(pcs(v), rhs_bits(v), false, k as nat) by {
            assert(bdd_eval(pc@[1], v) == pcs(v)[1]);
            assert(bdd_eval(imm@[1], v) == pcu_imm(v)[1]);
            assert(bdd_eval(pc@[2], v) == pcs(v)[2]);
            assert(bdd_eval(imm@[2], v) == pcu_imm(v)[2]);
            assert(carry(pcs(v), rhs_bits(v), false, 2) == ((pcs(v)[1] && rhs_bits(v)[1]) || ((pcs(v)[1] != rhs_bits(v)[1]) && carry(pcs(v), rhs_bits(v), false, 1))));
        }
        assert forall|v: Seq<bool>| #[trigger] bdd_eval(c, v) == carry(pcs(v), rhs_bits(v), false, 3) by {
            assert(bdd_eval(pc@[1], v) == pcs(v)[1]);
            assert(bdd_eval(imm@[1], v) == pcu_imm(v)[1]);
            assert(bdd_eval(pc@[2], v) == pcs(v)[2]);
            assert(bdd_eval(imm@[2], v) == pcu_imm(v)[2]);
            assert(carry(pcs(v), rhs_bits(v), false, 2) == ((pcs(v)[1] && rhs_bits(v)[1]) || ((pcs(v)[1] != rhs_bits(v)[1]) && carry(pcs(v), rhs_bits(v), false, 1))));
        }
    }

    // [3:19] bit
    let mut i: usize = 3;
    while i < 32
        invariant
            3 <= i <= 32,
            pc.len() == 32,
            imm.len() == 20,
            all_wf(pc@, 124),
            all_wf(imm@, 124),
            forall|k: int, v: Seq<bool>| 0 <= k < 32 ==> #[trigger] bdd_eval(pc@[k], v) == v[pc_index(k)],
            forall|k: int, v: Seq<bool>| 0 <= k < 20 ==> #[trigger] bdd_eval(imm@[k], v) == v[imm_index(k)],
            forall|k: int| 0 <= k < 32 ==> #[trigger] int_bits(4, 32)[k] == (k == 2),
            rhs_bits == (|v: Seq<bool>| pcu_rhs(v)),
            pcs == (|v: Seq<bool>| pcu_pc(v)),
            bdd_wf(is_op),
            num_vars(is_op) == 124,
            forall|v: Seq<bool>| #[trigger] bdd_eval(is_op, v) == pcu_taken(v),
            bdd_wf(f),
            num_vars(f) == 124,
            forall|v: Seq<bool>| !#[trigger] bdd_eval(f, v),
            out.len() == i,
            all_wf(out@, 124),
            forall|v: Seq<bool>| #[trigger] bdd_eval(out@[0], v) == if v[71] && v[70] && v[69] {
                false
            } else {
                sum_bit(pcs(v), rhs_bits(v), false, 0)
            },
            forall|k: int, v: Seq<bool>|
                1 <= k < i ==> #[trigger] bdd_eval(out@[k], v) == sum_bit(pcs(v), rhs_bits(v), false, k as nat),
            bdd_wf(c),
            num_vars(c) == 124,
            forall|v: Seq<bool>| #[trigger] bdd_eval(c, v) == carry(pcs(v), rhs_bits(v), false, i as nat),
        decreases 32 - i,
    {
        // bits above 19 take the sign of the immediate
        let sel: usize = if i < 20 { i } else { 19 };
        let rhs = bdd_if_then_else(&is_op, &imm[sel], &f);
        let (s, c2) = full_adder(&pc[i], &rhs, &c);
        let ghost old_out = out@;
        out.push(s);
        proof {
            assert forall|v: Seq<bool>| #[trigger] bdd_eval(rhs, v) == rhs_bits(v)[i as int] by {
                assert(bdd_eval(imm@[sel as int], v) == pcu_imm(v)[sel as int]);
            }
            assert forall|k: int, v: Seq<bool>| 1 <= k < i + 1 implies #[trigger] bdd_eval(out@[k], v)
                == sum_bit(pcs(v), rhs_bits(v), false, k as nat) by {
                if k < i {
                    assert(out@[k] == old_out[k]);
                } else {
                    assert(bdd_eval(pc@[i as int], v) == pcs(v)[i as int]);
                    assert(bdd_eval(rhs, v) == rhs_bits(v)[i as int]);
                }
            }
            assert forall|v: Seq<bool>| #[trigger] bdd_eval(c2, v) == carry(pcs(v), rhs_bits(v), false, (i + 1) as nat) by {
                assert(bdd_eval(pc@[i as int], v) == pcs(v)[i as int]);
                assert(bdd_eval(rhs, v) == rhs_bits(v)[i as int]);
            }
            assert(out@[0] == old_out[0]);
        }
        c = c2;
        i = i + 1;
    }
    proof {
        lemma2_to64();
        crate::bits::lemma_int_bits_value(4, 32);
        assert forall|v: Seq<bool>| #[trigger] bits_value(eval_all(out@, v)) == pcu_target(v) by {
            let p = pcs(v);
            let r = rhs_bits(v);
            let sb = sum_bits(p, r, false, 32);
            lemma_ripple_mod(p, r, false, 32);
            assert(p.take(32) =~= p);
            assert(r.take(32) =~= r);
            if v[71] && v[70] && v[69] {
                assert(eval_all(out@, v) =~= sb.update(0, false));
                lemma_clear_bit0(sb);
            } else {
                assert(eval_all(out@, v) =~= sb);
            }
        }
    }
    (out, vars)
}

/// The inputs of the program-counter update in evaluation order:
/// `s0, s1, s2, s3`, then `rs1_0, ..., rs1_31`, `rs2_0, ..., rs2_31`,
/// `pc0, ..., pc31` and `imm0, ..., imm19`.
pub open spec fn pc_update_input_order() -> Seq<Seq<char>> {
    seq!["s0"@, "s1"@, "s2"@, "s3"@] + numbered("rs1_"@, 32) + numbered("rs2_"@, 32) + numbered("pc"@, 32)
        + numbered("imm"@, 20)
}

/// The variables that read another's input: `s2_c` and `s2_2c` read `s2`,
/// `s0_c` reads `s0`, `s1_c` reads `s1`.
pub open spec fn pc_update_aliases() -> Seq<(Seq<char>, Seq<char>)> {
    seq![("s2_c"@, "s2"@), ("s2_2c"@, "s2"@), ("s0_c"@, "s0"@), ("s1_c"@, "s1"@)]
}

/// The input that variable `j` of the program-counter update reads.
pub open spec fn pc_update_input_of(j: int) -> int {
    if j == 0 || j == 66 || j == 69 {
        2
    } else if j <= 64 {
        if (j - 1) % 2 == 0 {
            4 + 31 - (j - 1) / 2
        } else {
            36 + 31 - (j - 1) / 2
        }
    } else if j == 65 {
        3
    } else if j == 67 || j == 70 {
        1
    } else if j == 68 || j == 71 {
        0
    } else if j < 112 {
        if (j - 72) % 2 == 0 {
            100 + (j - 72) / 2
        } else {
            68 + (j - 72) / 2
        }
    } else {
        68 + 20 + (j - 112)
    }
}

/// The input order of the program-counter update and its aliases.
pub fn input_order() -> (r: (Vec<String>, Vec<(String, String)>))
    ensures
        strings_view(r.0@) == pc_update_input_order(),
        r.1@.map_values(|p: (String, String)| (p.0@, p.1@)) == pc_update_aliases(),
        distinct_keys(pc_update_aliases()),
{
    proof {
        reveal_strlit("s2_c");
        reveal_strlit("s2_2c");
        reveal_strlit("s0_c");
        reveal_strlit("s1_c");
        let a = pc_update_aliases();
        assert(a[0].0 != a[1].0) by {
            assert(a[0].0.len() != a[1].0.len());
        }
        assert(a[0].0 != a[2].0) by {
            assert(a[0].0[1] != a[2].0[1]);
        }
        assert(a[0].0 != a[3].0) by {
            assert(a[0].0[1] != a[3].0[1]);
        }
        assert(a[1].0 != a[2].0) by {
            assert(a[1].0.len() != a[2].0.len());
        }
        assert(a[1].0 != a[3].0) by {
            assert(a[1].0.len() != a[3].0.len());
        }
        assert(a[2].0 != a[3].0) by {
            assert(a[2].0[1] != a[3].0[1]);
        }
    }
    let bits: usize = 32;
    let mut out: Vec<String> = Vec::new();
    out.push("s0".to_owned());
    out.push("s1".to_owned());
    out.push("s2".to_owned());
    out.push("s3".to_owned());
    let ghost head = out@;
    let mut rs1 = numbered_names("rs1_", bits);
    let mut rs2 = numbered_names("rs2_", bits);
    let mut pc = numbered_names("pc", bits);
    let mut imm = numbered_names("imm", 20);
    let ghost (a, b, c, d) = (rs1@, rs2@, pc@, imm@);
    out.append(&mut rs1);
    out.append(&mut rs2);
    out.append(&mut pc);
    out.append(&mut imm);
    proof {
        assert(out@ == head + a + b + c + d);
        assert(strings_view(out@) =~= strings_view(head) + strings_view(a) + strings_view(b) + strings_view(c)
            + strings_view(d));
        assert(strings_view(head) =~= seq!["s0"@, "s1"@, "s2"@, "s3"@]);
    }
    let mut alias_map: Vec<(String, String)> = Vec::new();
    alias_map.push(("s2_c".to_owned(), "s2".to_owned()));
    alias_map.push(("s2_2c".to_owned(), "s2".to_owned()));
    alias_map.push(("s0_c".to_owned(), "s0".to_owned()));
    alias_map.push(("s1_c".to_owned(), "s1".to_owned()));
    proof {
        assert(alias_map@.map_values(|p: (String, String)| (p.0@, p.1@)) =~= pc_update_aliases());
    }
    (out, alias_map)
}

/// The first pair with a given key is unique.
proof fn lemma_first_key_unique(pairs: Seq<(Seq<char>, Seq<char>)>, x: Seq<char>, k: int)
    requires
        first_key(pairs, x, k),
    ensures
        dealias(pairs, x) == pairs[k].1,
{
    let c = choose|i: int| first_key(pairs, x, i);
    if c < k {
        assert(pairs[c].0 != x);
    } else if k < c {
        assert(pairs[k].0 != x);
    }
}

/// How the variables of the program-counter update read the inputs: each
/// name, resolved through the aliases, sits at `pc_update_input_of` in an
/// input order without repeats.
proof fn lemma_pc_update_wiring()
    ensures
        valid_var_names(pc_update_input_order()),
        forall|j: int|
            0 <= j < 124 ==> 0 <= #[trigger] pc_update_input_of(j) < 120 && pc_update_input_order()[pc_update_input_of(j)]
                == dealias(pc_update_aliases(), pc_update_var_names()[j]),
{
    lemma_pc_update_literals();
    lemma_pc_update_names_valid();
    let order = pc_update_input_order();
    let names = pc_update_var_names();
    let pairs = pc_update_aliases();
    let pf = |j: int|
        if j < 4 {
            "s"@
        } else if j < 36 {
            "rs1_"@
        } else if j < 68 {
            "rs2_"@
        } else if j < 100 {
            "pc"@
        } else {
            "imm"@
        };
    let ix = |j: int|
        if j < 4 {
            j as nat
        } else if j < 36 {
            (j - 4) as nat
        } else if j < 68 {
            (j - 36) as nat
        } else if j < 100 {
            (j - 68) as nat
        } else {
            (j - 100) as nat
        };
    assert forall|j: int|
        #![trigger order[j]]
        0 <= j < order.len() implies order[j] == indexed(pf(j), ix(j)) && name_prefix(pf(j)) by {
        if j == 0 {
        } else if j == 1 {
        } else if j == 2 {
        } else if j == 3 {
        } else if j < 36 {
            assert(order[j] == numbered("rs1_"@, 32)[j - 4]);
        } else if j < 68 {
            assert(order[j] == numbered("rs2_"@, 32)[j - 36]);
        } else if j < 100 {
            assert(order[j] == numbered("pc"@, 32)[j - 68]);
        } else {
            assert(order[j] == numbered("imm"@, 20)[j - 100]);
        }
    }
    lemma_indexed_names_valid(order, pf, ix);
    assert(pairs[0].0 == names[66] && pairs[1].0 == names[69] && pairs[2].0 == names[71] && pairs[3].0 == names[70]);
    assert forall|j: int|
        0 <= j < 124 implies 0 <= #[trigger] pc_update_input_of(j) < 120 && order[pc_update_input_of(j)] == dealias(
            pairs,
            names[j],
        ) by {
        let m = pc_update_input_of(j);
        assert(names[j] == pc_update_name(j));
        if j == 66 {
            assert(first_key(pairs, names[j], 0));
            lemma_first_key_unique(pairs, names[j], 0);
        } else if j == 69 {
            assert(names[66] != names[69]);
            assert(first_key(pairs, names[j], 1));
            lemma_first_key_unique(pairs, names[j], 1);
        } else if j == 71 {
            assert(names[66] != names[71] && names[69] != names[71]);
            assert(first_key(pairs, names[j], 2));
            lemma_first_key_unique(pairs, names[j], 2);
        } else if j == 70 {
            assert(names[66] != names[70] && names[69] != names[70] && names[71] != names[70]);
            assert(first_key(pairs, names[j], 3));
            lemma_first_key_unique(pairs, names[j], 3);
        } else {
            assert(names[66] != names[j] && names[69] != names[j] && names[71] != names[j] && names[70] != names[j]);
            assert(!exists|i: int| first_key(pairs, names[j], i));
            if j == 0 || j == 65 || j == 67 || j == 68 {
            } else if j <= 64 {
                if (j - 1) % 2 == 0 {
                    assert(order[m] == numbered("rs1_"@, 32)[m - 4]);
                } else {
                    assert(order[m] == numbered("rs2_"@, 32)[m - 36]);
                }
            } else if j < 112 {
                if (j - 72) % 2 == 0 {
                    assert(order[m] == numbered("imm"@, 20)[m - 100]);
                } else {
                    assert(order[m] == numbered("pc"@, 32)[m - 68]);
                }
            } else {
                assert(order[m] == numbered("pc"@, 32)[m - 68]);
            }
        }
    }
}

/// How the variables of the program-counter update read its inputs:
/// variable `j` reads input `pc_update_input_of(j)`.
pub open spec fn pc_update_read() -> Seq<int> {
    Seq::new(124, |j: int| pc_update_input_of(j))
}

/// What the generated program-counter update computes from its inputs:
/// the target of `pcu_target` with each variable reading its input.
pub open spec fn pc_update_of_inputs() -> spec_fn(Seq<bool>) -> int {
    |inputs: Seq<bool>| pcu_target(Seq::new(124, |j: int| inputs[pc_update_input_of(j)]))
}

/// The source of the program-counter update over the inputs of
/// `pc_update_input_order`; `None` when one of its diagrams is too large to
/// lay out.
pub fn codegen_pc_update() -> (r: Option<String>)
    ensures
        r matches Some(t) ==> generates(t@, 120, 32, pc_update_of_inputs()),
        r is None ==> layout_fails(pc_update_read(), 120, 32, pc_update_of_inputs()),
{
    let (bdds, vars) = pc_update();
    let (input_order, input_alias_map) = input_order();
    let ghost names = var_set_names(vars);
    let ghost order = strings_view(input_order@);
    let ghost pairs = alias_view(Some(&input_alias_map));
    proof {
        lemma_pc_update_wiring();
        assert forall|i: int| 0 <= i < names.len() implies order.contains(dealias(pairs, #[trigger] names[i])) by {
            assert(order[pc_update_input_of(i)] == dealias(pairs, names[i]));
        }
    }
    let r = codegen_circuits(&bdds, &vars, &input_order, Some(&input_alias_map));
    proof {
        {
            let g = |v: Seq<bool>| pcu_target(v);
            let map = |j: int| pc_update_input_of(j);
            assert forall|i: int|
                0 <= i < names.len() implies 0 <= #[trigger] map(i) < order.len() && order[map(i)] == dealias(pairs, names[i]) by {
                assert(0 <= pc_update_input_of(i) < 120);
            }
            assert forall|inputs: Seq<bool>| inputs.len() == order.len() implies #[trigger] pc_update_of_inputs()(inputs)
                == g(Seq::new(names.len(), |i: int| inputs[map(i)])) by {
                assert(Seq::new(names.len(), |i: int| inputs[map(i)]) =~= Seq::new(124, |j: int| inputs[pc_update_input_of(j)]));
            }
            lemma_generates_mapped_aliased(r, bdds@, names, order, pairs, map, g, pc_update_of_inputs());
            assert(Seq::new(names.len(), map) =~= pc_update_read());
        }
    }
    r
}

} // verus!

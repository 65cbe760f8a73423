use vstd::prelude::*;
use crate::names::{dec, usize_to_decimal};

verus! {

/// A node that carries the value at its position one level further down.
#[derive(Debug, Clone)]
pub struct CopyNode {
    pub tag: String,
    pub parent_node: u32,
    pub node_index: u32,
    // output_pos == input_pos
    pub output_pos: usize,
}

impl CopyNode {
    pub fn new(tag: String, parent_node: u32, node_index: u32, output_pos: usize) -> (r: Self)
        ensures
            r.tag == tag,
            r.parent_node == parent_node,
            r.node_index == node_index,
            r.output_pos == output_pos,
    {
        Self { tag, parent_node, node_index, output_pos }
    }
}

/// A decision node: selects between the values at positions `high_index`
/// and `low_index` of the previous level by input `input_index`.
#[derive(Debug, Clone)]
pub struct OpNode {
    pub tag: String,
    // Store the graph node for debugging purposes
    pub node_index: u32,
    // Debugging purposes
    pub high_node: u32,
    // Debugging purposes
    pub low_node: u32,
    pub output_pos: usize,
    pub high_index: usize,
    pub low_index: usize,
    pub input_index: usize,
}

impl OpNode {
    pub fn new(
        tag: String,
        node_index: u32,
        high_node: u32,
        low_node: u32,
        output_pos: usize,
        high_index: usize,
        low_index: usize,
        input_index: usize,
    ) -> (r: Self)
        ensures
            r.tag == tag,
            r.node_index == node_index,
            r.high_node == high_node,
            r.low_node == low_node,
            r.output_pos == output_pos,
            r.high_index == high_index,
            r.low_index == low_index,
            r.input_index == input_index,
    {
        Self {
            tag,
            node_index,
            high_node,
            low_node,
            high_index,
            output_pos,
            low_index,
            input_index,
        }
    }

    pub fn input_index(&self) -> (r: usize)
        ensures
            r == self.input_index,
    {
        self.input_index
    }

    pub fn low_index(&self) -> (r: usize)
        ensures
            r == self.low_index,
    {
        self.low_index
    }

    pub fn high_index(&self) -> (r: usize)
        ensures
            r == self.high_index,
    {
        self.high_index
    }
}

/// One position of one level of an up-down circuit.
#[derive(Debug, Clone)]
pub enum Node {
    Copy(CopyNode),
    OpNode(OpNode),
    Vacant,
}

/// A levelled circuit: a state vector of fixed width starts as
/// `[0, 1, 0, ...]` and each level computes the next state from the
/// previous one; the output is position 0 of the last state.
#[derive(Clone)]
pub struct UpdownBDD {
    pub level_nodes: Vec<Vec<Node>>,
}

/// The levels of `u`, as sequences.
pub open spec fn levels_of(u: UpdownBDD) -> Seq<Seq<Node>> {
    u.level_nodes@.map_values(|l: Vec<Node>| l@)
}

/// The width of the state vector of `u`: at least 2, and the length of its
/// first level if there is one.
pub open spec fn width_of(u: UpdownBDD) -> nat {
    if u.level_nodes@.len() == 0 || u.level_nodes@[0]@.len() < 2 {
        2
    } else {
        u.level_nodes@[0]@.len()
    }
}

/// `u` can be run on `n_inputs` inputs: every level spans the state vector
/// and every decision node reads an existing input and existing positions.
pub open spec fn updown_wf(u: UpdownBDD, n_inputs: nat) -> bool {
    &&& forall|l: int| 0 <= l < u.level_nodes@.len() ==> #[trigger] u.level_nodes@[l]@.len() == width_of(u)
    &&& forall|l: int, p: int|
        0 <= l < u.level_nodes@.len() && 0 <= p < width_of(u) ==> match #[trigger] u.level_nodes@[l]@[p] {
            Node::OpNode(n) => n.input_index < n_inputs && n.high_index < width_of(u) && n.low_index
                < width_of(u),
            _ => true,
        }
}

/// The state after one level: a decision node takes the previous value at
/// its high position where its input is set and at its low position
/// elsewhere, a copy node keeps the previous value at its own position, an
/// empty position holds `false`.
pub open spec fn step_level(level: Seq<Node>, prev: Seq<bool>, inputs: Seq<bool>) -> Seq<bool> {
    Seq::new(
        level.len(),
        |p: int|
            match level[p] {
                Node::OpNode(n) => if inputs[n.input_index as int] {
                    prev[n.high_index as int]
                } else {
                    prev[n.low_index as int]
                },
                Node::Copy(_) => prev[p],
                Node::Vacant => false,
            },
    )
}

/// The state after the first `k` levels.
pub open spec fn run_levels(levels: Seq<Seq<Node>>, k: nat, init: Seq<bool>, inputs: Seq<bool>) -> Seq<
    bool,
>
    decreases k,
{
    if k == 0 {
        init
    } else {
        step_level(levels[k - 1], run_levels(levels, (k - 1) as nat, init, inputs), inputs)
    }
}

/// The initial state of width `w`: the constants `0` and `1` at positions
/// 0 and 1.
pub open spec fn initial_state(w: nat) -> Seq<bool> {
    Seq::new(w, |p: int| p == 1)
}

/// The output of `u` on `inputs`.
pub open spec fn updown_eval(u: UpdownBDD, inputs: Seq<bool>) -> bool {
    run_levels(levels_of(u), levels_of(u).len(), initial_state(width_of(u)), inputs)[0]
}

impl UpdownBDD {
    pub fn new(level_nodes: Vec<Vec<Node>>) -> (r: UpdownBDD)
        ensures
            r.level_nodes == level_nodes,
    {
        UpdownBDD { level_nodes }
    }

    pub fn level_nodes(&self) -> (r: &[Vec<Node>])
        ensures
            r@ == self.level_nodes@,
    {
        self.level_nodes.as_slice()
    }

    /// Width of the state vector
    pub fn width(&self) -> (r: usize)
        ensures
            r == width_of(*self),
    {
        // all levels have the same width
        //
        // minimum width is 2 to at-least account for terminal nodes
        if self.level_nodes.len() == 0 || self.level_nodes[0].len() < 2 {
            2
        } else {
            self.level_nodes[0].len()
        }
    }
}

/// Runs `bdd` on the given input bits: the state starts as `[0, 1, 0, ...]`,
/// each level replaces it, and the result is position 0 of the last state.
pub fn execute(bdd: &UpdownBDD, inputs: &[bool]) -> (r: bool)
    requires
        updown_wf(*bdd, inputs@.len()),
    ensures
        r == updown_eval(*bdd, inputs@),
{
    let w = bdd.width();
    let mut out: Vec<bool> = Vec::new();
    let mut p: usize = 0;
    while p < w
        invariant
            p <= w,
            out@ =~= Seq::new(p as nat, |q: int| q == 1),
        decreases w - p,
    {
        out.push(p == 1);
        p = p + 1;
    }
    let ghost levels = levels_of(*bdd);
    let mut l: usize = 0;
    while l < bdd.level_nodes.len()
        invariant
            l <= bdd.level_nodes@.len(),
            w == width_of(*bdd),
            updown_wf(*bdd, inputs@.len()),
            levels == levels_of(*bdd),
            out@ == run_levels(levels, l as nat, initial_state(w as nat), inputs@),
            out@.len() == w,
        decreases bdd.level_nodes@.len() - l,
    {
        let lvl_nodes = &bdd.level_nodes[l];
        let ghost lvl = lvl_nodes@;
        assert(levels[l as int] == lvl);
        let mut next: Vec<bool> = Vec::new();
        let mut p: usize = 0;
        while p < w
            invariant
                p <= w,
                w == width_of(*bdd),
                lvl.len() == w,
                lvl == lvl_nodes@,
                out@.len() == w,
                forall|q: int|
                    0 <= q < w ==> match #[trigger] lvl[q] {
                        Node::OpNode(n) => n.input_index < inputs@.len() && n.high_index < w
                            && n.low_index < w,
                        _ => true,
                    },
                next@ =~= step_level(lvl, out@, inputs@).take(p as int),
            decreases w - p,
        {
            let v = match &lvl_nodes[p] {
                Node::OpNode(node) => {
                    if inputs[node.input_index] {
                        out[node.high_index]
                    } else {
                        out[node.low_index]
                    }
                },
                Node::Copy(_node) => out[p],
                Node::Vacant => false,
            };
            next.push(v);
            p = p + 1;
        }
        assert(next@ =~= step_level(lvl, out@, inputs@));
        out = next;
        l = l + 1;
    }
    out[0]
}

/// The kind of a node: 0 for a copy, 1 for a decision node, 2 for an empty
/// position.
pub open spec fn node_kind(n: Node) -> int {
    match n {
        Node::Copy(_) => 0,
        Node::OpNode(_) => 1,
        Node::Vacant => 2,
    }
}

/// The number of nodes of kind `kind` in `level`.
pub open spec fn count_kind(level: Seq<Node>, kind: int) -> nat
    decreases level.len(),
{
    if level.len() == 0 {
        0
    } else {
        count_kind(level.drop_last(), kind) + if node_kind(level.last()) == kind {
            1nat
        } else {
            0nat
        }
    }
}

/// The statistics line of level `l`.
pub open spec fn level_stats_text(l: nat, level: Seq<Node>) -> Seq<char> {
    "Level "@ + dec(l) + ": CopyNode: "@ + dec(count_kind(level, 0)) + ", OpNode: "@ + dec(count_kind(level, 1))
        + ", None: "@ + dec(count_kind(level, 2)) + ", Total: "@ + dec(
        count_kind(level, 0) + count_kind(level, 1) + count_kind(level, 2),
    ) + "\n"@
}

/// The statistics lines of all levels.
pub open spec fn levels_stats_text(levels: Seq<Seq<Node>>) -> Seq<char>
    decreases levels.len(),
{
    if levels.len() == 0 {
        Seq::empty()
    } else {
        levels_stats_text(levels.drop_last()) + level_stats_text((levels.len() - 1) as nat, levels.last())
    }
}

/// The statistics of `u`: its depth, the kinds of nodes on each level, and
/// its width.
pub open spec fn stats_text(u: UpdownBDD) -> Seq<char> {
    "UpdownBDD Statistics:\n"@ + "===================\n"@ + "Depth: "@ + dec(levels_of(u).len()) + "\n"@ + "\n"@
        + levels_stats_text(levels_of(u)) + "Width: "@ + dec(width_of(u)) + "\n"@
}

/// Each kind counts at most the nodes of the level, all kinds together
/// exactly them.
pub proof fn lemma_count_kinds(level: Seq<Node>)
    ensures
        count_kind(level, 0) + count_kind(level, 1) + count_kind(level, 2) == level.len(),
    decreases level.len(),
{
    if level.len() > 0 {
        lemma_count_kinds(level.drop_last());
    }
}

/// The statistics line of level `level_num`.
fn level_stats(level_num: usize, level: &Vec<Node>) -> (r: String)
    ensures
        r@ == level_stats_text(level_num as nat, level@),
{
    let ghost lv = level@;
    let mut copy_count: usize = 0;
    let mut op_count: usize = 0;
    let mut none_count: usize = 0;
    let mut p: usize = 0;
    while p < level.len()
        invariant
            p <= lv.len(),
            lv == level@,
            copy_count == count_kind(lv.take(p as int), 0),
            op_count == count_kind(lv.take(p as int), 1),
            none_count == count_kind(lv.take(p as int), 2),
            copy_count + op_count + none_count == p,
        decreases lv.len() - p,
    {
        proof {
            assert(lv.take(p + 1).drop_last() =~= lv.take(p as int));
            assert(lv.take(p + 1).last() == lv[p as int]);
            lemma_count_kinds(lv.take(p as int));
        }
        match &level[p] {
            Node::Copy(_) => copy_count = copy_count + 1,
            Node::OpNode(_) => op_count = op_count + 1,
            Node::Vacant => none_count = none_count + 1,
        }
        p = p + 1;
    }
    proof {
        assert(lv.take(lv.len() as int) =~= lv);
    }
    let total = copy_count + op_count + none_count;
    let mut out = String::new();
    out.append("Level ");
    out.append(usize_to_decimal(level_num).as_str());
    out.append(": CopyNode: ");
    out.append(usize_to_decimal(copy_count).as_str());
    out.append(", OpNode: ");
    out.append(usize_to_decimal(op_count).as_str());
    out.append(", None: ");
    out.append(usize_to_decimal(none_count).as_str());
    out.append(", Total: ");
    out.append(usize_to_decimal(total).as_str());
    out.append("\n");
    out
}

impl UpdownBDD {
    /// The depth, the kinds of nodes on each level and the width, as text.
    pub fn stats(&self) -> (r: String)
        ensures
            r@ == stats_text(*self),
    {
        let ghost levels = levels_of(*self);
        let depth = self.level_nodes.len();
        let mut output = String::new();
        output.append("UpdownBDD Statistics:\n");
        output.append("===================\n");
        output.append("Depth: ");
        output.append(usize_to_decimal(depth).as_str());
        output.append("\n");
        output.append("\n");
        let ghost head = output@;
        let mut level_num: usize = 0;
        while level_num < self.level_nodes.len()
            invariant
                level_num <= self.level_nodes@.len(),
                levels == levels_of(*self),
                output@ == head + levels_stats_text(levels.take(level_num as int)),
            decreases self.level_nodes@.len() - level_num,
        {
            let line = level_stats(level_num, &self.level_nodes[level_num]);
            let ghost before = output@;
            output.append(line.as_str());
            proof {
                assert(levels.take(level_num + 1).drop_last() =~= levels.take(level_num as int));
                assert(levels.take(level_num + 1).last() == self.level_nodes@[level_num as int]@);
                assert(output@ =~= head + levels_stats_text(levels.take(level_num + 1)));
            }
            level_num = level_num + 1;
        }
        proof {
            assert(levels.take(levels.len() as int) =~= levels);
        }
        output.append("Width: ");
        output.append(usize_to_decimal(self.width()).as_str());
        output.append("\n");
        output
    }
}


/// The text of a graph node index, as its debug form shows it.
pub open spec fn node_index_text(i: u32) -> Seq<char> {
    "NodeIndex("@ + dec(i as nat) + ")"@
}

/// The text of a decision node.
pub open spec fn op_node_text(n: OpNode) -> Seq<char> {
    "OpNode{ tag: "@ + n.tag@ + ", node_index: "@ + node_index_text(n.node_index) + ", high_node: "@
        + node_index_text(n.high_node) + ", low_node: "@ + node_index_text(n.low_node)
        + ", output_pos: "@ + dec(n.output_pos as nat) + ", high_index: "@ + dec(n.high_index as nat)
        + ", low_index: "@ + dec(n.low_index as nat) + ", input_index: "@ + dec(n.input_index as nat)
        + " }"@
}

/// The text of a copy node.
pub open spec fn copy_node_text(n: CopyNode) -> Seq<char> {
    "CopyNode{ tag: "@ + n.tag@ + ", parent_node: "@ + node_index_text(n.parent_node) + ", node_index: "@
        + node_index_text(n.node_index) + ", output_pos: "@ + dec(n.output_pos as nat) + " }"@
}

/// The text of a position of a level.
pub open spec fn node_text(n: Node) -> Seq<char> {
    match n {
        Node::Copy(c) => copy_node_text(c),
        Node::OpNode(o) => op_node_text(o),
        Node::Vacant => "None"@,
    }
}

/// The texts of the nodes of `level`, separated by `", "`.
pub open spec fn nodes_text(level: Seq<Node>) -> Seq<char>
    decreases level.len(),
{
    if level.len() == 0 {
        Seq::empty()
    } else if level.len() == 1 {
        node_text(level[0])
    } else {
        nodes_text(level.drop_last()) + ", "@ + node_text(level.last())
    }
}

/// The line of level `l` in the text of a circuit.
pub open spec fn level_line_text(l: nat, level: Seq<Node>) -> Seq<char> {
    "    Level "@ + dec(l) + ": "@ + nodes_text(level) + "\n"@
}

/// The lines of all levels.
pub open spec fn levels_text(levels: Seq<Seq<Node>>) -> Seq<char>
    decreases levels.len(),
{
    if levels.len() == 0 {
        Seq::empty()
    } else {
        levels_text(levels.drop_last()) + level_line_text((levels.len() - 1) as nat, levels.last())
    }
}

/// The text of a circuit: one line per level, listing its nodes.
pub open spec fn updown_text(u: UpdownBDD) -> Seq<char> {
    "UpdownBDD {\n"@ + levels_text(levels_of(u)) + "}\n"@
}

/// Appends the text of graph node index `i` to `out`.
fn append_node_index(out: &mut String, i: u32)
    ensures
        final(out)@ == old(out)@ + node_index_text(i),
{
    let ghost start = out@;
    out.append("NodeIndex(");
    out.append(usize_to_decimal(i as usize).as_str());
    out.append(")");
    assert(out@ =~= start + node_index_text(i));
}

impl OpNode {
    /// The node as text: its tag, graph nodes and positions.
    pub fn to_string(&self) -> (r: String)
        ensures
            r@ == op_node_text(*self),
    {
        let mut out = String::new();
        out.append("OpNode{ tag: ");
        out.append(self.tag.as_str());
        out.append(", node_index: ");
        append_node_index(&mut out, self.node_index);
        out.append(", high_node: ");
        append_node_index(&mut out, self.high_node);
        out.append(", low_node: ");
        append_node_index(&mut out, self.low_node);
        out.append(", output_pos: ");
        out.append(usize_to_decimal(self.output_pos).as_str());
        out.append(", high_index: ");
        out.append(usize_to_decimal(self.high_index).as_str());
        out.append(", low_index: ");
        out.append(usize_to_decimal(self.low_index).as_str());
        out.append(", input_index: ");
        out.append(usize_to_decimal(self.input_index).as_str());
        out.append(" }");
        assert(out@ =~= op_node_text(*self));
        out
    }
}

impl CopyNode {
    /// The node as text: its tag, graph nodes and position.
    pub fn to_string(&self) -> (r: String)
        ensures
            r@ == copy_node_text(*self),
    {
        let mut out = String::new();
        out.append("CopyNode{ tag: ");
        out.append(self.tag.as_str());
        out.append(", parent_node: ");
        append_node_index(&mut out, self.parent_node);
        out.append(", node_index: ");
        append_node_index(&mut out, self.node_index);
        out.append(", output_pos: ");
        out.append(usize_to_decimal(self.output_pos).as_str());
        out.append(" }");
        assert(out@ =~= copy_node_text(*self));
        out
    }
}

impl Node {
    /// The node as text; an empty position reads `None`.
    pub fn to_string(&self) -> (r: String)
        ensures
            r@ == node_text(*self),
    {
        match self {
            Node::Copy(c) => c.to_string(),
            Node::OpNode(o) => o.to_string(),
            Node::Vacant => {
                let mut out = String::new();
                out.append("None");
                out
            },
        }
    }
}

impl UpdownBDD {
    /// The circuit as text, one line per level.
    pub fn to_string(&self) -> (r: String)
        ensures
            r@ == updown_text(*self),
    {
        let ghost levels = levels_of(*self);
        let mut out = String::new();
        out.append("UpdownBDD {\n");
        let ghost head = out@;
        let mut l: usize = 0;
        while l < self.level_nodes.len()
            invariant
                l <= self.level_nodes@.len(),
                levels == levels_of(*self),
                out@ == head + levels_text(levels.take(l as int)),
            decreases self.level_nodes@.len() - l,
        {
            let level = &self.level_nodes[l];
            let ghost lv = level@;
            let mut line = String::new();
            line.append("    Level ");
            line.append(usize_to_decimal(l).as_str());
            line.append(": ");
            let ghost start = line@;
            let mut i: usize = 0;
            while i < level.len()
                invariant
                    i <= lv.len(),
                    lv == level@,
                    line@ == start + nodes_text(lv.take(i as int)),
                decreases lv.len() - i,
            {
                proof {
                    assert(lv.take(i + 1).drop_last() =~= lv.take(i as int));
                    assert(lv.take(i + 1).last() == lv[i as int]);
                    if i == 0 {
                        assert(lv.take(0) =~= Seq::<Node>::empty());
                    }
                }
                if i > 0 {
                    line.append(", ");
                }
                let t = level[i].to_string();
                line.append(t.as_str());
                proof {
                    if i == 0 {
                        assert(line@ =~= start + nodes_text(lv.take(1)));
                    } else {
                        assert(line@ =~= start + nodes_text(lv.take(i + 1)));
                    }
                }
                i = i + 1;
            }
            proof {
                assert(lv.take(lv.len() as int) =~= lv);
            }
            line.append("\n");
            out.append(line.as_str());
            proof {
                assert(levels.take(l + 1).drop_last() =~= levels.take(l as int));
                assert(levels.take(l + 1).last() == lv);
                assert(out@ =~= head + levels_text(levels.take(l + 1)));
            }
            l = l + 1;
        }
        proof {
            assert(levels.take(levels.len() as int) =~= levels);
        }
        out.append("}\n");
        out
    }
}

} // verus!

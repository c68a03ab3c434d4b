//! Decision nodes, and the builder of the single-pattern trie: one rule's
//! left-hand side expanded into an ordered chain of nodes, held in an
//! arena and linked by id.
use crate::chain::{
    arg_label, args_labels, bare_label, chain_nodes, counter_after, extend_chain, header_labels,
    infer_position, inst_labels, is_counted_shape, is_immediate_shape_name, lemma_args_counter_grows,
    lemma_args_length_any_counter, lemma_chain_extended, lemma_counter_bounded, lemma_counter_grows,
    lemma_extend_suffix, lemma_extend_twice, linked_to, node_of, operand_form, rule_fits, rule_labels,
    rule_root, selector_label, shape_arg_name, shape_label, value_label, Expansion, NodeLabel,
};
use crate::cliftinstbuilder::{
    clone_insts, cond_name, get_clift_cond_name, get_clift_instdata_name, get_clift_opcode_name,
    get_clift_valdef_name, inst_views, instdata_name, opcode_is_compare, opcode_name, valdef_name, CtonInst,
    CtonInstKind, CtonInstView, CtonOpcode, CtonOperand, CtonValueDef,
};
use crate::text::{decimal_digits, decimal_string, signed_decimal, signed_decimal_string, str_is};
use vstd::prelude::*;
use vstd::string::*;

verus! {

/// The vocabulary of decision nodes: a selector names the field to look
/// at, the node after it holds the value expected there.
#[derive(Clone, Copy, Debug, PartialEq, Eq, Structural)]
pub enum NodeType {
    MatchInstData,
    InstType,
    MatchOpcode,
    Opcode,
    MatchArgs,
    MatchValDef,
    MatchConst,
    MatchPlainConst,
    MatchRoot,
    MatchCond,
    Cond,
    MatchNone,
}

/// A forward link: the id of a following node.
#[derive(Clone, Copy, Debug, PartialEq, Eq, Structural)]
pub struct NodeID {
    pub index: usize,
}

/// One decision node. Nodes refer to each other by id only.
#[derive(Debug, PartialEq, Eq)]
pub struct Node {
    pub node_type: NodeType,
    pub node_value: String,
    pub width: u32,
    pub id: usize,
    pub var_id: Option<u32>,
    pub arg_flag: bool,
    pub level: usize,
    pub next: Option<Vec<NodeID>>,
    pub idx_num: Option<usize>,
    pub arg_name: String,
}

/// The mathematical value of a decision node.
pub struct NodeView {
    pub node_type: NodeType,
    pub node_value: Seq<char>,
    pub width: u32,
    pub id: usize,
    pub var_id: Option<u32>,
    pub arg_flag: bool,
    pub level: usize,
    pub next: Option<Seq<NodeID>>,
    pub idx_num: Option<usize>,
    pub arg_name: Seq<char>,
}

impl View for Node {
    type V = NodeView;

    open spec fn view(&self) -> NodeView {
        NodeView {
            node_type: self.node_type,
            node_value: self.node_value@,
            width: self.width,
            id: self.id,
            var_id: self.var_id,
            arg_flag: self.arg_flag,
            level: self.level,
            next: match self.next {
                Some(ids) => Some(ids@),
                None => None,
            },
            idx_num: self.idx_num,
            arg_name: self.arg_name@,
        }
    }
}

/// A copy of a list of forward links.
pub fn clone_links(ids: &Vec<NodeID>) -> (res: Vec<NodeID>)
    ensures
        res@ == ids@,
{
    let mut res: Vec<NodeID> = Vec::new();
    let mut i: usize = 0;
    while i < ids.len()
        invariant
            i <= ids.len(),
            res@ == ids@.subrange(0, i as int),
        decreases ids.len() - i,
    {
        res.push(ids[i]);
        proof {
            assert(res@ =~= ids@.subrange(0, i + 1));
        }
        i += 1;
    }
    proof {
        assert(res@ =~= ids@);
    }
    res
}

impl Clone for Node {
    fn clone(&self) -> (res: Self)
        ensures
            res@ == self@,
    {
        let next = match &self.next {
            Some(ids) => Some(clone_links(ids)),
            None => None,
        };
        Node {
            node_type: self.node_type,
            node_value: self.node_value.clone(),
            width: self.width,
            id: self.id,
            var_id: self.var_id,
            arg_flag: self.arg_flag,
            level: self.level,
            next,
            idx_num: self.idx_num,
            arg_name: self.arg_name.clone(),
        }
    }
}

/// The views of a list of nodes.
pub open spec fn node_views(nodes: Seq<Node>) -> Seq<NodeView> {
    nodes.map_values(|n: Node| n@)
}

/// A copy of a node list.
pub fn clone_nodes(nodes: &Vec<Node>) -> (res: Vec<Node>)
    ensures
        node_views(res@) == node_views(nodes@),
{
    let mut res: Vec<Node> = Vec::new();
    let mut i: usize = 0;
    while i < nodes.len()
        invariant
            i <= nodes.len(),
            res@.len() == i,
            forall|j: int| 0 <= j < i ==> (#[trigger] res@[j])@ == nodes@[j]@,
        decreases nodes.len() - i,
    {
        res.push(nodes[i].clone());
        i += 1;
    }
    proof {
        assert(node_views(res@) =~= node_views(nodes@));
    }
    res
}

/// A node of the arena together with its position there.
#[derive(Debug, PartialEq, Eq)]
pub struct NodeIndex {
    pub node: Node,
    pub index: usize,
}

impl Clone for NodeIndex {
    fn clone(&self) -> (res: Self)
        ensures
            res.node@ == self.node@,
            res.index == self.index,
    {
        NodeIndex { node: self.node.clone(), index: self.index }
    }
}

/// The position of the first node with the id `id` at or after `from`.
pub open spec fn first_with_id_from(nodes: Seq<NodeView>, id: usize, from: nat) -> Option<nat>
    decreases nodes.len() - from,
{
    if from >= nodes.len() {
        None
    } else if nodes[from as int].id == id {
        Some(from)
    } else {
        first_with_id_from(nodes, id, from + 1)
    }
}

/// The position of the first node with the id `id`.
pub open spec fn first_with_id(nodes: Seq<NodeView>, id: usize) -> Option<nat> {
    first_with_id_from(nodes, id, 0)
}

/// A first position is a position of a node with that id, and no earlier
/// node has the id.
pub proof fn lemma_first_with_id(nodes: Seq<NodeView>, id: usize, from: nat)
    requires
        first_with_id_from(nodes, id, from) is Some,
    ensures
        from <= first_with_id_from(nodes, id, from)->0 < nodes.len(),
        nodes[first_with_id_from(nodes, id, from)->0 as int].id == id,
    decreases nodes.len() - from,
{
    if from < nodes.len() && nodes[from as int].id != id {
        lemma_first_with_id(nodes, id, from + 1);
    }
}

/// Where a node at or after `from` has the id, a first such position
/// exists.
pub proof fn lemma_first_with_id_finds(nodes: Seq<NodeView>, id: usize, from: nat, at: int)
    requires
        from <= at < nodes.len(),
        nodes[at].id == id,
    ensures
        first_with_id_from(nodes, id, from) is Some,
    decreases nodes.len() - from,
{
    if nodes[from as int].id != id {
        lemma_first_with_id_finds(nodes, id, from + 1, at);
    }
}

/// The position of the first node with the id `id`, if there is one.
pub fn find_position(nodes: &Vec<Node>, id: usize) -> (found: Option<usize>)
    ensures
        match found {
            Some(at) => first_with_id(node_views(nodes@), id) == Some(at as nat) && at < nodes@.len(),
            None => first_with_id(node_views(nodes@), id) is None,
        },
{
    let mut i: usize = 0;
    while i < nodes.len()
        invariant
            i <= nodes@.len(),
            first_with_id(node_views(nodes@), id) == first_with_id_from(node_views(nodes@), id, i as nat),
        decreases nodes@.len() - i,
    {
        if nodes[i].id == id {
            return Some(i);
        }
        i += 1;
    }
    None
}

/// Whether no two nodes of the list have the same id.
pub open spec fn ids_distinct(nodes: Seq<NodeView>) -> bool {
    forall|i: int, j: int| 0 <= i < j < nodes.len() ==> (#[trigger] nodes[i]).id != (#[trigger] nodes[j]).id
}

/// The root of a tree of nodes: id 0, level 0, and no link yet.
pub open spec fn root_node() -> NodeView {
    NodeView {
        node_type: NodeType::MatchRoot,
        node_value: "root"@,
        width: 0,
        id: 0,
        var_id: None,
        arg_flag: false,
        level: 0,
        next: Some(Seq::empty()),
        idx_num: None,
        arg_name: ""@,
    }
}

/// The name of a node kind.
pub open spec fn node_type_name(ty: NodeType) -> Seq<char> {
    match ty {
        NodeType::MatchInstData => "MatchInstData"@,
        NodeType::InstType => "InstType"@,
        NodeType::MatchOpcode => "MatchOpcode"@,
        NodeType::Opcode => "Opcode"@,
        NodeType::MatchArgs => "MatchArgs"@,
        NodeType::MatchConst => "MatchConst"@,
        NodeType::MatchPlainConst => "MatchPlainConst"@,
        NodeType::MatchRoot => "MatchRoot"@,
        NodeType::MatchValDef => "MatchValDef"@,
        NodeType::MatchCond => "MatchCond"@,
        NodeType::Cond => "Cond"@,
        NodeType::MatchNone => ""@,
    }
}

/// The name of a node kind. The empty kind has no name.
pub fn get_node_type(ty: NodeType) -> (name: String)
    requires
        ty != NodeType::MatchNone,
    ensures
        name@ == node_type_name(ty),
{
    match ty {
        NodeType::MatchInstData => String::from_str("MatchInstData"),
        NodeType::InstType => String::from_str("InstType"),
        NodeType::MatchOpcode => String::from_str("MatchOpcode"),
        NodeType::Opcode => String::from_str("Opcode"),
        NodeType::MatchArgs => String::from_str("MatchArgs"),
        NodeType::MatchConst => String::from_str("MatchConst"),
        NodeType::MatchPlainConst => String::from_str("MatchPlainConst"),
        NodeType::MatchRoot => String::from_str("MatchRoot"),
        NodeType::MatchValDef => String::from_str("MatchValDef"),
        NodeType::MatchCond => String::from_str("MatchCond"),
        NodeType::Cond => String::from_str("Cond"),
        NodeType::MatchNone => String::from_str(""),
    }
}

/// The selector text of an operand of an immediate-form instruction: the
/// register operand is `arg`, the embedded constant is `imm`.
pub open spec fn immediate_arg_name(argtype: Seq<char>) -> Seq<char> {
    if argtype == "index"@ {
        "arg"@
    } else {
        "imm"@
    }
}

/// The selector text of an operand of an immediate-form instruction.
/// `argtype` is "index" for the register operand and "const" for the
/// embedded constant.
pub fn get_arg_name_for_binary_imm(_index: usize, argtype: &str) -> (name: String)
    requires
        argtype@ == "index"@ || argtype@ == "const"@,
    ensures
        name@ == immediate_arg_name(argtype@),
{
    if str_is(argtype, "index") {
        String::from_str("arg")
    } else {
        String::from_str("imm")
    }
}

/// The selector text of an operand addressed by position: `args[i]`.
pub open spec fn positional_arg_name(index: nat) -> Seq<char> {
    "args"@ + "["@ + decimal_digits(index) + "]"@
}

/// The selector text of an operand addressed by position.
pub fn get_arg_name(index: usize) -> (name: String)
    ensures
        name@ == positional_arg_name(index as nat),
{
    let mut arg = String::from_str("args");
    arg.append("[");
    arg.append(decimal_string(index as u128).as_str());
    arg.append("]");
    arg
}

/// The instruction that stands in when a sequence has no `Infer`.
pub open spec fn placeholder_inst() -> CtonInstView {
    CtonInstView {
        valuedef: CtonValueDef::NoneType,
        kind: CtonInstKind::NoneType,
        opcode: CtonOpcode::NoneType,
        cond: None,
        width: 0,
        var_num: Some(0u32),
        cops: None,
    }
}

/// Whether `i` is the position of the first `Infer` of the sequence.
pub open spec fn is_first_infer(insts: Seq<CtonInstView>, i: int) -> bool {
    &&& 0 <= i < insts.len()
    &&& insts[i].opcode == CtonOpcode::Infer
    &&& forall|j: int| 0 <= j < i ==> (#[trigger] insts[j]).opcode != CtonOpcode::Infer
}

/// Whether the sequence holds no `Infer`.
pub open spec fn has_no_infer(insts: Seq<CtonInstView>) -> bool {
    forall|j: int| 0 <= j < insts.len() ==> (#[trigger] insts[j]).opcode != CtonOpcode::Infer
}

/// The first `Infer` instruction of a sequence, or the placeholder when
/// there is none.
pub fn get_infer_clift_inst(clift_insts: Vec<CtonInst>) -> (infer_inst: CtonInst)
    ensures
        forall|i: int|
            is_first_infer(inst_views(clift_insts@), i) ==> infer_inst@ == inst_views(clift_insts@)[i],
        has_no_infer(inst_views(clift_insts@)) ==> infer_inst@ == placeholder_inst(),
{
    let mut i: usize = 0;
    while i < clift_insts.len()
        invariant
            i <= clift_insts.len(),
            forall|j: int| 0 <= j < i ==> (#[trigger] inst_views(clift_insts@)[j]).opcode != CtonOpcode::Infer,
        decreases clift_insts.len() - i,
    {
        match clift_insts[i].opcode {
            CtonOpcode::Infer => {
                proof {
                    assert(inst_views(clift_insts@)[i as int] == clift_insts@[i as int]@);
                    assert(is_first_infer(inst_views(clift_insts@), i as int));
                    assert forall|k: int| is_first_infer(inst_views(clift_insts@), k) implies k == i by {
                        if k < i {
                            assert(inst_views(clift_insts@)[k].opcode != CtonOpcode::Infer);
                        } else if k > i {
                            assert(inst_views(clift_insts@)[i as int].opcode != CtonOpcode::Infer);
                        }
                    }
                }
                return clift_insts[i].clone();
            },
            _ => {},
        }
        proof {
            assert(inst_views(clift_insts@)[i as int] == clift_insts@[i as int]@);
        }
        i += 1;
    }
    proof {
        assert forall|k: int| !is_first_infer(inst_views(clift_insts@), k) by {}
    }
    CtonInst {
        valuedef: CtonValueDef::NoneType,
        kind: CtonInstKind::NoneType,
        opcode: CtonOpcode::NoneType,
        cond: None,
        width: 0,
        var_num: Some(0),
        cops: None,
    }
}

/// The operand list of the `Infer` instruction, which must hold exactly
/// one operand.
pub fn get_infer_clift_op(infer_inst: CtonInst) -> (ops: Vec<CtonOperand>)
    requires
        infer_inst.cops is Some,
        infer_inst.cops->0@.len() == 1,
    ensures
        ops@ == infer_inst.cops->0@,
{
    infer_inst.cops.unwrap()
}

/// Whether every operand of the list is a reference and none a constant.
pub open spec fn all_references(ops: Seq<CtonOperand>) -> bool {
    forall|i: int| 0 <= i < ops.len() ==> (#[trigger] ops[i]).const_val is None && ops[i].idx_val is Some
}

/// The position that the operand of `Infer` refers to: that of the last
/// operand of the list, and 0 for an empty list. Every operand must be a
/// reference.
pub fn get_index_from_infer_clift_op(infer_ops: Vec<CtonOperand>) -> (idx: usize)
    requires
        all_references(infer_ops@),
    ensures
        idx == if infer_ops@.len() == 0 {
            0
        } else {
            infer_ops@.last().idx_val->0
        },
{
    let n = infer_ops.len();
    if n == 0 {
        0
    } else {
        infer_ops[n - 1].idx_val.unwrap()
    }
}

/// The number of operands of an instruction; none without an operand
/// list.
pub open spec fn operand_count(inst: CtonInstView) -> nat {
    match inst.cops {
        Some(ops) => ops.len(),
        None => 0,
    }
}

/// The number of operands of an instruction.
pub fn get_total_number_of_args(inst: &CtonInst) -> (n: usize)
    ensures
        n == operand_count(inst@),
{
    match &inst.cops {
        Some(ops_list) => ops_list.len(),
        None => 0,
    }
}

/// The arena of one rule: the nodes made so far, the rule's instructions,
/// the id that the next node gets, and the number of counted shapes seen.
pub struct Arena {
    pub nodes: Vec<Node>,
    pub clift_insts: Vec<CtonInst>,
    pub count: usize,
    pub instdata_count: usize,
}

fn label_node(node_type: NodeType, node_value: String, width: u32, id: usize, var_id: Option<u32>) -> (node: Node)
    ensures
        node@ == node_of(
            NodeLabel { width, var_id, ..bare_label(node_type, node_value@) },
            id,
            None,
        ),
{
    Node {
        node_type,
        node_value,
        width,
        id,
        var_id,
        arg_flag: false,
        level: 0,
        next: None,
        idx_num: None,
        arg_name: String::from_str(""),
    }
}

impl Arena {
    /// An empty arena whose first node will get the id `global_counter`.
    pub fn new(global_counter: usize) -> (arena: Arena)
        ensures
            arena.nodes@.len() == 0,
            arena.clift_insts@.len() == 0,
            arena.count == global_counter,
            arena.instdata_count == 0,
    {
        Arena { nodes: Vec::new(), clift_insts: Vec::new(), count: global_counter, instdata_count: 0 }
    }

    /// Moves on to the next id.
    pub fn update_count(&mut self)
        requires
            old(self).count < usize::MAX,
        ensures
            *final(self) == (Arena { count: (old(self).count + 1) as usize, ..*old(self) }),
    {
        self.count += 1;
    }

    /// A node of no kind under the current id.
    pub fn build_default_node(&mut self) -> (node: Node)
        ensures
            *final(self) == *old(self),
            node@ == node_of(bare_label(NodeType::MatchNone, ""@), old(self).count, None),
    {
        label_node(NodeType::MatchNone, String::from_str(""), 0, self.count, None)
    }

    /// The selector of the instruction data, under the current id.
    pub fn build_instdata_node(&mut self, clift_inst: &CtonInst) -> (node: Node)
        ensures
            *final(self) == *old(self),
            node@ == node_of(
                selector_label(NodeType::MatchInstData, "instdata"@, clift_inst@),
                old(self).count,
                None,
            ),
    {
        label_node(NodeType::MatchInstData, String::from_str("instdata"), 0, self.count, clift_inst.var_num)
    }

    /// The name under which a shape binds its operands; a counted shape
    /// takes the next number.
    pub fn get_arg_name_for_instdata_node(&mut self, kind: CtonInstKind) -> (arg_name: String)
        requires
            is_counted_shape(kind) ==> old(self).instdata_count < usize::MAX,
        ensures
            arg_name@ == shape_arg_name(kind, old(self).instdata_count as nat),
            *final(self) == (Arena {
                instdata_count: counter_after(kind, old(self).instdata_count as nat) as usize,
                ..*old(self)
            }),
    {
        let mut arg_name = String::from_str("");
        match kind {
            CtonInstKind::Unary
            | CtonInstKind::UnaryImm
            | CtonInstKind::Binary
            | CtonInstKind::BinaryImm
            | CtonInstKind::IntCompare
            | CtonInstKind::IntCompareImm => {
                arg_name.append("arg_");
                arg_name.append(decimal_string(self.instdata_count as u128).as_str());
                self.instdata_count += 1;
                proof {
                    reveal_strlit("");
                    assert(arg_name@ =~= "arg_"@ + decimal_digits(old(self).instdata_count as nat));
                }
            },
            _ => {},
        }
        arg_name
    }

    /// The node that expects the shape of `clift_inst`, under the current
    /// id.
    pub fn build_specific_instdata_node(&mut self, clift_inst: &CtonInst) -> (node: Node)
        requires
            is_counted_shape(clift_inst.kind) ==> old(self).instdata_count < usize::MAX,
        ensures
            node@ == node_of(shape_label(clift_inst@, old(self).instdata_count as nat), old(self).count, None),
            *final(self) == (Arena {
                instdata_count: counter_after(clift_inst.kind, old(self).instdata_count as nat) as usize,
                ..*old(self)
            }),
    {
        let mut node = label_node(
            NodeType::InstType,
            get_clift_instdata_name(clift_inst.kind),
            clift_inst.width,
            self.count,
            clift_inst.var_num,
        );
        node.arg_name = self.get_arg_name_for_instdata_node(clift_inst.kind);
        node
    }

    /// The selector of the opcode, under the current id.
    pub fn build_opcode_node(&mut self, clift_inst: &CtonInst) -> (node: Node)
        ensures
            *final(self) == *old(self),
            node@ == node_of(selector_label(NodeType::MatchOpcode, "opcode"@, clift_inst@), old(self).count, None),
    {
        label_node(NodeType::MatchOpcode, String::from_str("opcode"), 0, self.count, clift_inst.var_num)
    }

    /// The node that expects the opcode of `clift_inst`, under the current
    /// id.
    pub fn build_specific_opcode_node(&mut self, clift_inst: &CtonInst) -> (node: Node)
        ensures
            *final(self) == *old(self),
            node@ == node_of(
                value_label(NodeType::Opcode, opcode_name(clift_inst.opcode), clift_inst@),
                old(self).count,
                None,
            ),
    {
        label_node(
            NodeType::Opcode,
            get_clift_opcode_name(clift_inst.opcode),
            clift_inst.width,
            self.count,
            clift_inst.var_num,
        )
    }

    /// The selector of the condition code, under the current id.
    pub fn build_cond_node(&mut self, clift_inst: &CtonInst) -> (node: Node)
        ensures
            *final(self) == *old(self),
            node@ == node_of(selector_label(NodeType::MatchCond, "cond"@, clift_inst@), old(self).count, None),
    {
        label_node(NodeType::MatchCond, String::from_str("cond"), 0, self.count, clift_inst.var_num)
    }

    /// The node that expects the condition code of `clift_inst`, under the
    /// current id.
    pub fn build_specific_cond_node(&mut self, clift_inst: &CtonInst) -> (node: Node)
        ensures
            *final(self) == *old(self),
            node@ == node_of(
                value_label(NodeType::Cond, cond_name(clift_inst.cond), clift_inst@),
                old(self).count,
                None,
            ),
    {
        label_node(
            NodeType::Cond,
            get_clift_cond_name(clift_inst.cond),
            clift_inst.width,
            self.count,
            clift_inst.var_num,
        )
    }

    /// `previous` with `current` as its only successor.
    pub fn set_next_of_prev_node(&mut self, current: Node, previous: Node) -> (linked: Node)
        ensures
            *final(self) == *old(self),
            linked@ == (NodeView { next: Some(seq![NodeID { index: current.id }]), ..previous@ }),
    {
        let mut previous = previous;
        let mut next_ids: Vec<NodeID> = Vec::new();
        next_ids.push(NodeID { index: current.id });
        previous.next = Some(next_ids);
        previous
    }

    /// `current` with the node of the current id as its only successor.
    pub fn set_next_of_current_node_by_default(&mut self, current: Node) -> (linked: Node)
        ensures
            *final(self) == *old(self),
            linked@ == (NodeView { next: Some(seq![NodeID { index: old(self).count }]), ..current@ }),
    {
        let mut current = current;
        let mut next_ids: Vec<NodeID> = Vec::new();
        next_ids.push(NodeID { index: self.count });
        current.next = Some(next_ids);
        current
    }

    /// The selector of operand `arg` of an instruction of shape
    /// `parent_instdata`, under the current id. In an immediate form
    /// `argtype` must be "index" or "const".
    pub fn build_separate_arg_node(
        &mut self,
        argtype: String,
        arg: usize,
        parent_instdata: String,
        idx_num: Option<usize>,
    ) -> (node: Node)
        requires
            is_immediate_shape_name(parent_instdata@) ==> argtype@ == "index"@ || argtype@ == "const"@,
        ensures
            *final(self) == *old(self),
            node@ == node_of(arg_label(argtype@, arg as nat, parent_instdata@, idx_num), old(self).count, None),
    {
        let immediate = str_is(parent_instdata.as_str(), "BinaryImm") || str_is(
            parent_instdata.as_str(),
            "IntCompareImm",
        ) || str_is(parent_instdata.as_str(), "UnaryImm");
        let node_val = if immediate {
            get_arg_name_for_binary_imm(arg, argtype.as_str())
        } else {
            get_arg_name(arg)
        };
        let mut node = label_node(NodeType::MatchArgs, node_val, 0, self.count, None);
        node.idx_num = idx_num;
        node
    }

    /// The node that expects how the value of `clift_inst` is defined,
    /// under the current id.
    pub fn build_valdef_node(&mut self, clift_inst: &CtonInst) -> (node: Node)
        ensures
            *final(self) == *old(self),
            node@ == node_of(
                value_label(NodeType::MatchValDef, valdef_name(clift_inst.valuedef), clift_inst@),
                old(self).count,
                None,
            ),
    {
        label_node(
            NodeType::MatchValDef,
            get_clift_valdef_name(clift_inst.valuedef),
            clift_inst.width,
            self.count,
            clift_inst.var_num,
        )
    }

    /// The leaf that expects the constant `constant`, under the current
    /// id.
    pub fn build_constant_node(&mut self, constant: i128) -> (node: Node)
        ensures
            *final(self) == *old(self),
            node@ == node_of(bare_label(NodeType::MatchConst, signed_decimal(constant as int)), old(self).count, None),
    {
        label_node(NodeType::MatchConst, signed_decimal_string(constant), 0, self.count, None)
    }

    /// The node that says that an operand is an inline constant, under the
    /// current id.
    pub fn build_plain_constant_node(&mut self) -> (node: Node)
        ensures
            *final(self) == *old(self),
            node@ == node_of(bare_label(NodeType::MatchPlainConst, "constant"@), old(self).count, None),
    {
        label_node(NodeType::MatchPlainConst, String::from_str("constant"), 0, self.count, None)
    }
}

fn push_node(nodes: &mut Vec<Node>, node: Node)
    ensures
        node_views(final(nodes)@) == node_views(old(nodes)@).push(node@),
{
    nodes.push(node);
    proof {
        assert(node_views(nodes@) =~= node_views(old(nodes)@).push(node@));
    }
}

fn link_node(nodes: &mut Vec<Node>, index: usize, target: usize)
    requires
        index < old(nodes)@.len(),
    ensures
        node_views(final(nodes)@) == node_views(old(nodes)@).update(
            index as int,
            linked_to(old(nodes)@[index as int]@, target),
        ),
{
    let mut node = nodes[index].clone();
    let mut next_ids: Vec<NodeID> = Vec::new();
    next_ids.push(NodeID { index: target });
    node.next = Some(next_ids);
    nodes.set(index, node);
    proof {
        assert(node_views(nodes@) =~= node_views(old(nodes)@).update(
            index as int,
            linked_to(old(nodes)@[index as int]@, target),
        ));
    }
}

/// `nodes` with its last node linked to the node of id `target`.
pub open spec fn linked_to_last(nodes: Seq<NodeView>, target: usize) -> Seq<NodeView> {
    nodes.update(nodes.len() - 1, linked_to(nodes.last(), target))
}

impl Arena {
    /// The views of the rule's instructions.
    pub open spec fn insts(&self) -> Seq<CtonInstView> {
        inst_views(self.clift_insts@)
    }

    /// The views of the nodes made so far.
    pub open spec fn node_seq(&self) -> Seq<NodeView> {
        node_views(self.nodes@)
    }

    /// Whether the labels of `inst` exist and the ids and the count of
    /// counted shapes that they take fit the machine's numbers.
    pub open spec fn chain_fits(&self, inst: CtonInstView, fuel: nat) -> bool {
        match inst_labels(self.insts(), inst, self.instdata_count as nat, fuel) {
            Some(all) => self.count + all.labels.len() <= usize::MAX && all.counter <= usize::MAX,
            None => false,
        }
    }

    /// Whether the labels of the operands of `inst` exist and fit, and
    /// the arena ends in the node made last, to which they are linked.
    pub open spec fn args_fit(&self, inst: CtonInstView, parent_instdata: Seq<char>, fuel: nat) -> bool {
        &&& match args_labels(self.insts(), inst, parent_instdata, 0, self.instdata_count as nat, fuel) {
            Some(all) => self.count + all.labels.len() <= usize::MAX && all.counter <= usize::MAX,
            None => false,
        }
        &&& operand_count(inst) > 0 ==> self.node_seq().len() > 0 && self.node_seq().last().id + 1 == self.count
    }

    /// The node with the id `idx` that was made last, with its position.
    pub fn get_node_with_id(&mut self, idx: usize) -> (found: Option<NodeIndex>)
        ensures
            *final(self) == *old(self),
            match found {
                Some(at) => {
                    &&& at.index < old(self).nodes@.len()
                    &&& at.node@ == old(self).nodes@[at.index as int]@
                    &&& at.node.id == idx
                    &&& forall|j: int|
                        at.index < j < old(self).nodes@.len() ==> (#[trigger] old(self).nodes@[j]).id != idx
                },
                None => forall|j: int|
                    0 <= j < old(self).nodes@.len() ==> (#[trigger] old(self).nodes@[j]).id != idx,
            },
    {
        let mut n: usize = self.nodes.len();
        while n > 0
            invariant
                n <= self.nodes@.len(),
                *self == *old(self),
                forall|j: int| n <= j < self.nodes@.len() ==> (#[trigger] self.nodes@[j]).id != idx,
            decreases n,
        {
            n -= 1;
            if self.nodes[n].id == idx {
                return Some(NodeIndex { node: self.nodes[n].clone(), index: n });
            }
        }
        None
    }

    /// The forms of the operands as text, in order: "index" for an operand
    /// with a reference, "const" for one with a constant (both for an
    /// operand with both, nothing for one with neither).
    pub open spec fn operand_forms(ops: Seq<CtonOperand>) -> Seq<Seq<char>>
        decreases ops.len(),
    {
        if ops.len() == 0 {
            Seq::empty()
        } else {
            let last = ops.last();
            Self::operand_forms(ops.drop_last()) + (if last.idx_val is Some {
                seq!["index"@]
            } else {
                Seq::empty()
            }) + (if last.const_val is Some {
                seq!["const"@]
            } else {
                Seq::empty()
            })
        }
    }

    /// Entry `arg_num` of the forms of the operands of `clift_inst`.
    pub fn get_clift_op_type_from_arg_num(&mut self, clift_inst: &CtonInst, arg_num: usize) -> (form: String)
        requires
            arg_num < Self::operand_forms(
                match clift_inst@.cops {
                    Some(ops) => ops,
                    None => Seq::empty(),
                },
            ).len(),
        ensures
            *final(self) == *old(self),
            form@ == Self::operand_forms(
                match clift_inst@.cops {
                    Some(ops) => ops,
                    None => Seq::empty(),
                },
            )[arg_num as int],
    {
        let mut list_ops: Vec<&str> = Vec::new();
        let ghost all: Seq<CtonOperand> = match clift_inst@.cops {
            Some(ops) => ops,
            None => Seq::empty(),
        };
        proof {
            assert(all.subrange(0, 0) =~= Seq::<CtonOperand>::empty());
            assert(all.subrange(0, all.len() as int) =~= all);
        }
        if let Some(ops) = &clift_inst.cops {
            let mut i: usize = 0;
            while i < ops.len()
                invariant
                    i <= ops.len(),
                    ops@ == all,
                    list_ops@.len() == Self::operand_forms(all.subrange(0, i as int)).len(),
                    forall|j: int|
                        0 <= j < list_ops@.len() ==> (#[trigger] list_ops@[j])@ == Self::operand_forms(
                            all.subrange(0, i as int),
                        )[j],
                decreases ops.len() - i,
            {
                proof {
                    assert(all.subrange(0, i + 1).drop_last() =~= all.subrange(0, i as int));
                    assert(all.subrange(0, i + 1).last() == all[i as int]);
                }
                if ops[i].idx_val.is_some() {
                    list_ops.push("index");
                }
                if ops[i].const_val.is_some() {
                    list_ops.push("const");
                }
                i += 1;
            }
        }
        String::from_str(list_ops[arg_num])
    }

    /// The position that operand `arg_num` of `clift_inst` refers to, if
    /// there is such an operand and it is a reference.
    pub fn get_clift_op_index_num_from_arg_num(&mut self, clift_inst: &CtonInst, arg_num: usize) -> (idx: Option<
        usize,
    >)
        ensures
            *final(self) == *old(self),
            idx == if arg_num < operand_count(clift_inst@) {
                clift_inst@.cops->0[arg_num as int].idx_val
            } else {
                None
            },
    {
        match &clift_inst.cops {
            Some(ops) => {
                if arg_num < ops.len() {
                    ops[arg_num].idx_val
                } else {
                    None
                }
            },
            None => None,
        }
    }

    fn grow_args(&mut self, clift_inst: &CtonInst, parent_instdata: &String, fuel: usize)
        requires
            old(self).args_fit(clift_inst@, parent_instdata@, fuel as nat),
        ensures
            final(self).clift_insts == old(self).clift_insts,
            final(self).node_seq() == extend_chain(
                old(self).node_seq(),
                args_labels(
                    old(self).insts(),
                    clift_inst@,
                    parent_instdata@,
                    0,
                    old(self).instdata_count as nat,
                    fuel as nat,
                ).unwrap().labels,
                old(self).count as nat,
            ),
            final(self).count == old(self).count + args_labels(
                old(self).insts(),
                clift_inst@,
                parent_instdata@,
                0,
                old(self).instdata_count as nat,
                fuel as nat,
            ).unwrap().labels.len(),
            final(self).instdata_count == args_labels(
                old(self).insts(),
                clift_inst@,
                parent_instdata@,
                0,
                old(self).instdata_count as nat,
                fuel as nat,
            ).unwrap().counter,
        decreases fuel, 0nat,
    {
        let ghost insts = self.insts();
        let ghost inst = clift_inst@;
        let ghost parent = parent_instdata@;
        let ghost start_nodes = self.node_seq();
        let ghost start = self.count as nat;
        let ghost all = args_labels(insts, inst, parent, 0, self.instdata_count as nat, fuel as nat).unwrap();
        let ghost mut done: Seq<NodeLabel> = Seq::empty();
        let total_args = get_total_number_of_args(clift_inst);
        if let Some(ops) = &clift_inst.cops {
            let mut op: usize = 0;
            proof {
                assert(done + all.labels =~= all.labels);
            }
            while op < total_args
                invariant
                    op <= total_args,
                    total_args == operand_count(inst),
                    inst == clift_inst@,
                    parent == parent_instdata@,
                    inst.cops == Some(ops@),
                    self.clift_insts == old(self).clift_insts,
                    insts == self.insts(),
                    match args_labels(insts, inst, parent, op as nat, self.instdata_count as nat, fuel as nat) {
                        Some(rest) => done + rest.labels == all.labels && rest.counter == all.counter,
                        None => false,
                    },
                    self.node_seq() == extend_chain(start_nodes, done, start),
                    self.count == start + done.len(),
                    start + all.labels.len() <= usize::MAX,
                    all.counter <= usize::MAX,
                    total_args > 0 ==> start_nodes.len() > 0 && self.node_seq().len() > 0
                        && self.node_seq().last().id + 1 == self.count,
                decreases total_args - op,
            {
                let ghost counter = self.instdata_count as nat;
                let ghost rest = args_labels(insts, inst, parent, op as nat, counter, fuel as nat).unwrap();
                let ghost before = self.node_seq();
                let ghost first = self.count as nat;
                let arg = ops[op];
                let ghost selector = arg_label(operand_form(arg), op as nat, parent, arg.idx_val);
                let last = self.nodes.len() - 1;
                link_node(&mut self.nodes, last, self.count);
                let ghost relinked = self.node_seq();
                let form = if arg.idx_val.is_some() {
                    String::from_str("index")
                } else {
                    String::from_str("const")
                };
                let named = self.build_separate_arg_node(form, op, parent_instdata.clone(), arg.idx_val);
                self.update_count();
                let mut named = named;
                let mut link: Vec<NodeID> = Vec::new();
                link.push(NodeID { index: self.count });
                named.next = Some(link);
                let ghost step: Seq<NodeLabel>;
                match arg.idx_val {
                    Some(idx) => {
                        let target = self.clift_insts[idx].clone();
                        proof {
                            assert(insts[idx as int] == target@);
                        }
                        let classifier = self.build_valdef_node(&target);
                        self.update_count();
                        let classifier = self.set_next_of_current_node_by_default(classifier);
                        push_node(&mut self.nodes, named);
                        push_node(&mut self.nodes, classifier);
                        let ghost sub = inst_labels(insts, target@, counter, (fuel - 1) as nat).unwrap();
                        let ghost pair = seq![
                            selector,
                            value_label(NodeType::MatchValDef, valdef_name(target@.valuedef), target@),
                        ];
                        proof {
                            lemma_counter_grows(insts, target@, counter, (fuel - 1) as nat);
                            lemma_args_counter_grows(insts, inst, parent, (op + 1) as nat, sub.counter, fuel as nat);
                            step = pair + sub.labels;
                            assert(rest.labels.len() >= step.len());
                            assert(all.labels.len() == done.len() + rest.labels.len());
                            assert(self.node_seq() =~= relinked + linked_to_last(chain_nodes(pair, first), (first + 2) as usize));
                        }
                        self.grow_chain(&target, fuel - 1);
                        proof {
                            lemma_chain_extended(pair, sub.labels, first);
                            assert(header_labels(target@, counter).len() > 0);
                            assert(self.node_seq() =~= relinked + chain_nodes(step, first));
                        }
                    },
                    None => {
                        let constant = arg.const_val.unwrap();
                        let classifier = self.build_plain_constant_node();
                        self.update_count();
                        let classifier = self.set_next_of_current_node_by_default(classifier);
                        push_node(&mut self.nodes, named);
                        push_node(&mut self.nodes, classifier);
                        let leaf = self.build_constant_node(constant as i128);
                        self.update_count();
                        push_node(&mut self.nodes, leaf);
                        proof {
                            step = seq![
                                selector,
                                bare_label(NodeType::MatchPlainConst, "constant"@),
                                bare_label(NodeType::MatchConst, signed_decimal(constant as int)),
                            ];
                            assert(all.labels.len() == done.len() + rest.labels.len());
                            assert(self.node_seq() =~= relinked + chain_nodes(step, first));
                        }
                    },
                }
                proof {
                    assert(self.node_seq() == extend_chain(before, step, first));
                    lemma_extend_twice(start_nodes, done, step, start);
                    let after = args_labels(insts, inst, parent, (op + 1) as nat, self.instdata_count as nat, fuel as nat).unwrap();
                    assert(rest.labels == step + after.labels);
                    assert((done + step) + after.labels =~= done + (step + after.labels));
                    done = done + step;
                }
                op += 1;
            }
            proof {
                let rest = args_labels(insts, inst, parent, op as nat, self.instdata_count as nat, fuel as nat).unwrap();
                assert(done + rest.labels =~= done);
            }
        }
    }

    fn grow_chain(&mut self, clift_inst: &CtonInst, fuel: usize)
        requires
            old(self).chain_fits(clift_inst@, fuel as nat),
        ensures
            final(self).clift_insts == old(self).clift_insts,
            final(self).node_seq() == old(self).node_seq() + chain_nodes(
                inst_labels(old(self).insts(), clift_inst@, old(self).instdata_count as nat, fuel as nat).unwrap().labels,
                old(self).count as nat,
            ),
            final(self).count == old(self).count + inst_labels(
                old(self).insts(),
                clift_inst@,
                old(self).instdata_count as nat,
                fuel as nat,
            ).unwrap().labels.len(),
            final(self).instdata_count == inst_labels(
                old(self).insts(),
                clift_inst@,
                old(self).instdata_count as nat,
                fuel as nat,
            ).unwrap().counter,
        decreases fuel, 1nat,
    {
        let ghost insts = self.insts();
        let ghost inst = clift_inst@;
        let ghost counter = self.instdata_count as nat;
        let ghost start_nodes = self.node_seq();
        let ghost start = self.count as nat;
        let ghost all = inst_labels(insts, inst, counter, fuel as nat).unwrap();
        let ghost header = header_labels(inst, counter);
        let ghost rest = args_labels(
            insts,
            inst,
            instdata_name(inst.kind),
            0,
            counter_after(inst.kind, counter),
            fuel as nat,
        ).unwrap();
        proof {
            lemma_args_counter_grows(
                insts,
                inst,
                instdata_name(inst.kind),
                0,
                counter_after(inst.kind, counter),
                fuel as nat,
            );
            assert(all.labels.len() == header.len() + rest.labels.len());
        }
        let node_instdata = self.build_instdata_node(clift_inst);
        self.update_count();
        let node_specific_inst = self.build_specific_instdata_node(clift_inst);
        self.update_count();
        let parent_instdata = node_specific_inst.node_value.clone();
        let updated_instdata = self.set_next_of_prev_node(node_specific_inst.clone(), node_instdata);
        let node_opcode = self.build_opcode_node(clift_inst);
        self.update_count();
        let updated_spec_inst = self.set_next_of_prev_node(node_opcode.clone(), node_specific_inst);
        let node_specific_opcode = self.build_specific_opcode_node(clift_inst);
        self.update_count();
        let updated_opcode = self.set_next_of_prev_node(node_specific_opcode.clone(), node_opcode);
        push_node(&mut self.nodes, updated_instdata);
        push_node(&mut self.nodes, updated_spec_inst);
        push_node(&mut self.nodes, updated_opcode);
        if opcode_is_compare(clift_inst.opcode) {
            let node_cond = self.build_cond_node(clift_inst);
            self.update_count();
            let updated_spec_opcode = self.set_next_of_prev_node(node_cond.clone(), node_specific_opcode);
            let node_specific_cond = self.build_specific_cond_node(clift_inst);
            self.update_count();
            let updated_cond = self.set_next_of_prev_node(node_specific_cond.clone(), node_cond);
            push_node(&mut self.nodes, updated_spec_opcode);
            push_node(&mut self.nodes, updated_cond);
            push_node(&mut self.nodes, node_specific_cond);
        } else {
            push_node(&mut self.nodes, node_specific_opcode);
        }
        proof {
            assert(self.node_seq() =~= start_nodes + chain_nodes(header, start));
        }
        self.grow_args(clift_inst, &parent_instdata, fuel);
        proof {
            lemma_extend_suffix(start_nodes, chain_nodes(header, start), rest.labels, start + header.len());
            lemma_chain_extended(header, rest.labels, start);
        }
    }
}

impl Arena {
    /// The labels of the match of `inst` in this arena, where references
    /// may nest as deep as the rule has instructions, and the count of
    /// counted shapes after them.
    pub open spec fn chain_labels(&self, inst: CtonInstView) -> Expansion {
        inst_labels(self.insts(), inst, self.instdata_count as nat, self.clift_insts@.len() as nat).unwrap()
    }

    /// The labels for the operands of `inst` in this arena, and the count
    /// of counted shapes after them.
    pub open spec fn operand_labels(&self, inst: CtonInstView, parent_instdata: Seq<char>) -> Expansion {
        args_labels(
            self.insts(),
            inst,
            parent_instdata,
            0,
            self.instdata_count as nat,
            self.clift_insts@.len() as nat,
        ).unwrap()
    }

    /// Appends the nodes for the operands of `clift_inst`, an instruction
    /// of shape `parent_instdata`, and links the node made last to the
    /// first of them.
    ///
    /// The operands must be well formed and the references among the
    /// rule's instructions free of cycles, the new ids must fit, and the
    /// arena must end in the node made last.
    pub fn build_args_node(&mut self, clift_inst: &CtonInst, parent_instdata: String)
        requires
            old(self).args_fit(clift_inst@, parent_instdata@, old(self).clift_insts@.len() as nat),
        ensures
            final(self).clift_insts == old(self).clift_insts,
            final(self).node_seq() == extend_chain(
                old(self).node_seq(),
                old(self).operand_labels(clift_inst@, parent_instdata@).labels,
                old(self).count as nat,
            ),
            final(self).count == old(self).count + old(self).operand_labels(
                clift_inst@,
                parent_instdata@,
            ).labels.len(),
            final(self).instdata_count == old(self).operand_labels(clift_inst@, parent_instdata@).counter,
    {
        let fuel = self.clift_insts.len();
        self.grow_args(clift_inst, &parent_instdata, fuel);
    }

    /// Appends the chain of nodes that matches `clift_inst`, and returns a
    /// copy of all the nodes of the arena.
    ///
    /// The new nodes take consecutive ids from the current one on, each
    /// is linked to the one after it, and the last has no link. The
    /// operands must be well formed and the references among the rule's
    /// instructions free of cycles, and the new ids must fit.
    pub fn build_sequence_of_nodes(&mut self, clift_inst: &CtonInst) -> (all_nodes: Vec<Node>)
        requires
            old(self).chain_fits(clift_inst@, old(self).clift_insts@.len() as nat),
        ensures
            final(self).clift_insts == old(self).clift_insts,
            final(self).node_seq() == old(self).node_seq() + chain_nodes(
                old(self).chain_labels(clift_inst@).labels,
                old(self).count as nat,
            ),
            final(self).count == old(self).count + old(self).chain_labels(clift_inst@).labels.len(),
            final(self).instdata_count == old(self).chain_labels(clift_inst@).counter,
            node_views(all_nodes@) == final(self).node_seq(),
    {
        let fuel = self.clift_insts.len();
        self.grow_chain(clift_inst, fuel);
        clone_nodes(&self.nodes)
    }
}

/// Expands one rule into its chain of decision nodes.
///
/// The chain matches the instruction that the rule's `Infer` refers to.
/// Its nodes take the ids from `global_count` on, each is linked to the
/// one after it, and the last, where the rule's match is complete, has no
/// link.
pub fn generate_single_tree_patterns(clift_insts: Vec<CtonInst>, global_count: usize) -> (all_nodes: Vec<Node>)
    requires
        rule_fits(inst_views(clift_insts@), global_count),
    ensures
        node_views(all_nodes@) == chain_nodes(
            rule_labels(inst_views(clift_insts@)).unwrap(),
            global_count as nat,
        ),
{
    let ghost insts = inst_views(clift_insts@);
    let ghost at = infer_position(insts).unwrap();
    let infer_clift_inst = get_infer_clift_inst(clone_insts(&clift_insts));
    let infer_clift_ops = get_infer_clift_op(infer_clift_inst);
    let index_from_infer_clift_op = get_index_from_infer_clift_op(infer_clift_ops);
    let inst_at_infer_op_idx = clift_insts[index_from_infer_clift_op].clone();
    proof {
        assert(insts[index_from_infer_clift_op as int] == inst_at_infer_op_idx@);
        lemma_counter_bounded(insts, inst_at_infer_op_idx@, 0, insts.len());
    }
    let mut arena = Arena::new(global_count);
    arena.clift_insts = clift_insts;
    let all_nodes = arena.build_sequence_of_nodes(&inst_at_infer_op_idx);
    proof {
        let chain = chain_nodes(rule_labels(insts).unwrap(), global_count as nat);
        assert(Seq::<NodeView>::empty() + chain =~= chain);
        assert(node_views(Seq::<Node>::empty()) =~= Seq::<NodeView>::empty());
    }
    all_nodes
}

/// The number of labels of the match of `inst`, if it has a chain.
pub open spec fn chain_length(insts: Seq<CtonInstView>, inst: CtonInstView, fuel: nat) -> Option<nat> {
    match inst_labels(insts, inst, 0, fuel) {
        Some(all) => Some(all.labels.len()),
        None => None,
    }
}

/// The number of labels for the operands of `inst` from `from` on, if
/// they have labels.
pub open spec fn args_length(insts: Seq<CtonInstView>, inst: CtonInstView, from: nat, fuel: nat) -> Option<nat> {
    match args_labels(insts, inst, Seq::empty(), from, 0, fuel) {
        Some(all) => Some(all.labels.len()),
        None => None,
    }
}

fn measure_args(insts: &Vec<CtonInst>, inst: &CtonInst, fuel: usize, room: usize) -> (res: Option<usize>)
    ensures
        match args_length(inst_views(insts@), inst@, 0, fuel as nat) {
            Some(len) => if len <= room {
                res == Some(len as usize)
            } else {
                res is None
            },
            None => res is None,
        },
    decreases fuel, 0nat,
{
    let ghost views = inst_views(insts@);
    let ghost none = Seq::<char>::empty();
    let mut used: usize = 0;
    if let Some(ops) = &inst.cops {
        let mut op: usize = 0;
        while op < ops.len()
            invariant
                op <= ops@.len(),
                inst@.cops == Some(ops@),
                views == inst_views(insts@),
                none == Seq::<char>::empty(),
                used <= room,
                match args_length(views, inst@, op as nat, fuel as nat) {
                    Some(rest) => args_length(views, inst@, 0, fuel as nat) == Some((used + rest) as nat),
                    None => args_length(views, inst@, 0, fuel as nat) is None,
                },
            decreases ops@.len() - op,
        {
            let arg = ops[op];
            let left = room - used;
            let ghost after_const = args_labels(views, inst@, none, (op + 1) as nat, 0, fuel as nat);
            let step = match arg.idx_val {
                Some(idx) => {
                    if arg.const_val.is_some() || idx >= insts.len() || fuel == 0 || left < 2 {
                        proof {
                            if arg.const_val is None && idx < insts.len() && fuel > 0 {
                                let sub = inst_labels(views, views[idx as int], 0, (fuel - 1) as nat);
                                if sub is Some {
                                    lemma_args_length_any_counter(
                                        views,
                                        inst@,
                                        none,
                                        none,
                                        (op + 1) as nat,
                                        sub.unwrap().counter,
                                        0,
                                        fuel as nat,
                                    );
                                }
                            }
                        }
                        None
                    } else {
                        proof {
                            assert(views[idx as int] == insts@[idx as int]@);
                            let sub = inst_labels(views, views[idx as int], 0, (fuel - 1) as nat);
                            if sub is Some {
                                lemma_args_length_any_counter(
                                    views,
                                    inst@,
                                    none,
                                    none,
                                    (op + 1) as nat,
                                    sub.unwrap().counter,
                                    0,
                                    fuel as nat,
                                );
                            }
                        }
                        match measure_inst(insts, &insts[idx], fuel - 1, left - 2) {
                            Some(sub) => Some(sub + 2),
                            None => None,
                        }
                    }
                },
                None => {
                    if arg.const_val.is_some() && left >= 3 {
                        Some(3)
                    } else {
                        None
                    }
                },
            };
            match step {
                Some(len) => {
                    used += len;
                },
                None => {
                    return None;
                },
            }
            op += 1;
        }
    }
    Some(used)
}

fn measure_inst(insts: &Vec<CtonInst>, inst: &CtonInst, fuel: usize, room: usize) -> (res: Option<usize>)
    ensures
        match chain_length(inst_views(insts@), inst@, fuel as nat) {
            Some(len) => if len <= room {
                res == Some(len as usize)
            } else {
                res is None
            },
            None => res is None,
        },
    decreases fuel, 1nat,
{
    let header: usize = if opcode_is_compare(inst.opcode) {
        6
    } else {
        4
    };
    proof {
        lemma_args_length_any_counter(
            inst_views(insts@),
            inst@,
            instdata_name(inst.kind),
            Seq::empty(),
            0,
            counter_after(inst.kind, 0),
            0,
            fuel as nat,
        );
        assert(header_labels(inst@, 0).len() == header);
    }
    match measure_args(insts, inst, fuel, usize::MAX) {
        Some(rest) => {
            if rest <= usize::MAX - header && header + rest <= room {
                Some(header + rest)
            } else {
                None
            }
        },
        None => {
            proof {
                assert(chain_length(inst_views(insts@), inst@, fuel as nat) matches Some(len) ==> len > room) by {
                    if args_length(inst_views(insts@), inst@, 0, fuel as nat) is Some {
                        assert(args_length(inst_views(insts@), inst@, 0, fuel as nat).unwrap() > usize::MAX);
                    }
                }
            }
            None
        },
    }
}

/// The position of the first `Infer` of a sequence, if it has one.
pub fn find_infer(clift_insts: &Vec<CtonInst>) -> (found: Option<usize>)
    ensures
        match found {
            Some(at) => infer_position(inst_views(clift_insts@)) == Some(at as int) && at < clift_insts@.len(),
            None => infer_position(inst_views(clift_insts@)) is None,
        },
{
    let ghost views = inst_views(clift_insts@);
    let mut i: usize = 0;
    while i < clift_insts.len()
        invariant
            i <= clift_insts@.len(),
            views == inst_views(clift_insts@),
            forall|j: int| 0 <= j < i ==> (#[trigger] views[j]).opcode != CtonOpcode::Infer,
        decreases clift_insts@.len() - i,
    {
        proof {
            assert(views[i as int] == clift_insts@[i as int]@);
        }
        match clift_insts[i].opcode {
            CtonOpcode::Infer => {
                proof {
                    assert(is_first_infer(views, i as int));
                    let chosen = choose|k: int| is_first_infer(views, k);
                    if chosen < i {
                        assert(views[chosen].opcode != CtonOpcode::Infer);
                    } else if chosen > i {
                        assert(views[i as int].opcode != CtonOpcode::Infer);
                    }
                }
                return Some(i);
            },
            _ => {},
        }
        i += 1;
    }
    proof {
        assert forall|k: int| !is_first_infer(views, k) by {
            if 0 <= k < views.len() {
                assert(views[k].opcode != CtonOpcode::Infer);
            }
        }
    }
    None
}

/// The position of the instruction that a rule matches, if the rule has
/// one.
pub fn find_rule_root(clift_insts: &Vec<CtonInst>) -> (found: Option<usize>)
    ensures
        match found {
            Some(at) => rule_root(inst_views(clift_insts@)) == Some(at as int) && at < clift_insts@.len(),
            None => rule_root(inst_views(clift_insts@)) is None,
        },
{
    match find_infer(clift_insts) {
        Some(at) => {
            proof {
                assert(inst_views(clift_insts@)[at as int] == clift_insts@[at as int]@);
            }
            match &clift_insts[at].cops {
                Some(ops) => {
                    if ops.len() == 1 && ops[0].const_val.is_none() {
                        match ops[0].idx_val {
                            Some(idx) => if idx < clift_insts.len() {
                                Some(idx)
                            } else {
                                None
                            },
                            None => None,
                        }
                    } else {
                        None
                    }
                },
                None => None,
            }
        },
        None => None,
    }
}

/// Whether a rule has a chain whose ids, from `global_count` on, fit the
/// machine's numbers.
pub fn rule_is_buildable(clift_insts: &Vec<CtonInst>, global_count: usize) -> (fits: bool)
    ensures
        fits == rule_fits(inst_views(clift_insts@), global_count),
{
    match find_rule_root(clift_insts) {
        Some(root) => {
            proof {
                assert(inst_views(clift_insts@)[root as int] == clift_insts@[root as int]@);
            }
            measure_inst(clift_insts, &clift_insts[root], clift_insts.len(), usize::MAX - global_count).is_some()
        },
        None => false,
    }
}

/// Expands one rule into its chain of decision nodes, if it has one.
pub fn try_generate_single_tree_patterns(clift_insts: Vec<CtonInst>, global_count: usize) -> (res: Option<
    Vec<Node>,
>)
    ensures
        res is Some <==> rule_fits(inst_views(clift_insts@), global_count),
        match res {
            Some(all_nodes) => node_views(all_nodes@) == chain_nodes(
                rule_labels(inst_views(clift_insts@)).unwrap(),
                global_count as nat,
            ),
            None => true,
        },
{
    if rule_is_buildable(&clift_insts, global_count) {
        Some(generate_single_tree_patterns(clift_insts, global_count))
    } else {
        None
    }
}

} // verus!

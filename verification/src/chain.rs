//! What the chain of a rule is: the labels of its nodes in the order of
//! the match, the chain that carries them under consecutive ids, and what
//! holds of such chains.
use crate::cliftinstbuilder::{
    cond_name, instdata_name, is_compare_opcode, opcode_name, valdef_name, CtonInstKind, CtonInstView,
    CtonOperand,
};
use crate::lhspatternmatcher::{
    ids_distinct, immediate_arg_name, is_first_infer, operand_count, positional_arg_name, NodeID, NodeType,
    NodeView,
};
use crate::braces::plain;
use crate::text::{decimal_digits, lemma_digits_plain, lemma_signed_plain, signed_decimal};
use vstd::prelude::*;

verus! {

/// What a decision node says, apart from its place in a chain: its kind
/// and text, and what it carries over from the instruction it was made
/// for.
pub struct NodeLabel {
    pub node_type: NodeType,
    pub node_value: Seq<char>,
    pub width: u32,
    pub var_id: Option<u32>,
    pub idx_num: Option<usize>,
    pub arg_name: Seq<char>,
}

/// The node that carries `label` under the id `id` with the forward links
/// `next`. A fresh node has level 0.
pub open spec fn node_of(label: NodeLabel, id: usize, next: Option<Seq<NodeID>>) -> NodeView {
    NodeView {
        node_type: label.node_type,
        node_value: label.node_value,
        width: label.width,
        id,
        var_id: label.var_id,
        arg_flag: false,
        level: 0,
        next,
        idx_num: label.idx_num,
        arg_name: label.arg_name,
    }
}

/// What a node says, apart from its place.
pub open spec fn label_of(node: NodeView) -> NodeLabel {
    NodeLabel {
        node_type: node.node_type,
        node_value: node.node_value,
        width: node.width,
        var_id: node.var_id,
        idx_num: node.idx_num,
        arg_name: node.arg_name,
    }
}

/// A label that carries nothing but kind and text.
pub open spec fn bare_label(node_type: NodeType, node_value: Seq<char>) -> NodeLabel {
    NodeLabel { node_type, node_value, width: 0, var_id: None, idx_num: None, arg_name: ""@ }
}

/// The label of the selector named `field` in the match of `inst`.
pub open spec fn selector_label(node_type: NodeType, field: Seq<char>, inst: CtonInstView) -> NodeLabel {
    NodeLabel { var_id: inst.var_num, ..bare_label(node_type, field) }
}

/// The label of a value expected of `inst`.
pub open spec fn value_label(node_type: NodeType, value: Seq<char>, inst: CtonInstView) -> NodeLabel {
    NodeLabel { width: inst.width, var_id: inst.var_num, ..bare_label(node_type, value) }
}

/// Whether instructions of this shape bind their operands to a numbered
/// name.
pub open spec fn is_counted_shape(kind: CtonInstKind) -> bool {
    kind != CtonInstKind::Var && kind != CtonInstKind::NoneType
}

/// The name under which a shape binds its operands: `arg_` and the number
/// of counted shapes seen before it, or nothing for an uncounted shape.
pub open spec fn shape_arg_name(kind: CtonInstKind, counter: nat) -> Seq<char> {
    if is_counted_shape(kind) {
        "arg_"@ + decimal_digits(counter)
    } else {
        ""@
    }
}

/// The count of counted shapes after one more shape.
pub open spec fn counter_after(kind: CtonInstKind, counter: nat) -> nat {
    if is_counted_shape(kind) {
        counter + 1
    } else {
        counter
    }
}

/// The label of the node that expects the shape of `inst`.
pub open spec fn shape_label(inst: CtonInstView, counter: nat) -> NodeLabel {
    NodeLabel {
        arg_name: shape_arg_name(inst.kind, counter),
        ..value_label(NodeType::InstType, instdata_name(inst.kind), inst)
    }
}

/// Whether a shape name is that of an immediate form.
pub open spec fn is_immediate_shape_name(shape: Seq<char>) -> bool {
    shape == "BinaryImm"@ || shape == "IntCompareImm"@ || shape == "UnaryImm"@
}

/// The form of an operand as text: "index" for a reference, "const"
/// otherwise.
pub open spec fn operand_form(op: CtonOperand) -> Seq<char> {
    if op.idx_val is Some {
        "index"@
    } else {
        "const"@
    }
}

/// The selector text that reaches operand `arg` of an instruction of shape
/// `parent_instdata`: by role in an immediate form, by position otherwise.
pub open spec fn arg_selector_name(argtype: Seq<char>, arg: nat, parent_instdata: Seq<char>) -> Seq<char> {
    if is_immediate_shape_name(parent_instdata) {
        immediate_arg_name(argtype)
    } else {
        positional_arg_name(arg)
    }
}

/// The label of the selector of an operand.
pub open spec fn arg_label(argtype: Seq<char>, arg: nat, parent_instdata: Seq<char>, idx_num: Option<usize>) -> NodeLabel {
    NodeLabel { idx_num, ..bare_label(NodeType::MatchArgs, arg_selector_name(argtype, arg, parent_instdata)) }
}

/// The labels of a piece of a chain, and the count of counted shapes after
/// it.
pub struct Expansion {
    pub labels: Seq<NodeLabel>,
    pub counter: nat,
}

/// The labels that open the match of one instruction: the selector of
/// the instruction data and the expected shape, the selector of the opcode
/// and the expected opcode, and for a comparison the selector of the
/// condition code and the expected code.
pub open spec fn header_labels(inst: CtonInstView, counter: nat) -> Seq<NodeLabel> {
    let base = seq![
        selector_label(NodeType::MatchInstData, "instdata"@, inst),
        shape_label(inst, counter),
        selector_label(NodeType::MatchOpcode, "opcode"@, inst),
        value_label(NodeType::Opcode, opcode_name(inst.opcode), inst),
    ];
    if is_compare_opcode(inst.opcode) {
        base + seq![
            selector_label(NodeType::MatchCond, "cond"@, inst),
            value_label(NodeType::Cond, cond_name(inst.cond), inst),
        ]
    } else {
        base
    }
}

/// The labels of the match of one instruction, in chain order, and the
/// count of counted shapes after it.
///
/// After the instruction's header comes, for each operand in order, the
/// selector that reaches it and the node that classifies it; a reference
/// is followed by the labels of the instruction it refers to, a constant
/// by the leaf that expects its value. `insts` is the sequence that
/// references index into, and `fuel` the number of references that may be
/// followed one inside the other. There is no result where an operand is
/// not exactly one of reference and constant, where a reference points
/// outside the sequence, or where references nest deeper than `fuel`.
pub open spec fn inst_labels(insts: Seq<CtonInstView>, inst: CtonInstView, counter: nat, fuel: nat) -> Option<
    Expansion,
>
    decreases fuel, operand_count(inst) + 1,
{
    match args_labels(insts, inst, instdata_name(inst.kind), 0, counter_after(inst.kind, counter), fuel) {
        Some(rest) => Some(Expansion { labels: header_labels(inst, counter) + rest.labels, counter: rest.counter }),
        None => None,
    }
}

/// The labels for the operands of `inst` from position `from` on, and the
/// count of counted shapes after them. `parent_instdata` is the name of
/// the shape of `inst`.
pub open spec fn args_labels(
    insts: Seq<CtonInstView>,
    inst: CtonInstView,
    parent_instdata: Seq<char>,
    from: nat,
    counter: nat,
    fuel: nat,
) -> Option<Expansion>
    decreases fuel, operand_count(inst) - from,
{
    if from >= operand_count(inst) {
        Some(Expansion { labels: Seq::empty(), counter })
    } else {
        let op = inst.cops->0[from as int];
        let selector = arg_label(operand_form(op), from, parent_instdata, op.idx_val);
        let this = if op.idx_val is Some && op.const_val is None {
            if op.idx_val->0 < insts.len() && fuel > 0 {
                let target = insts[op.idx_val->0 as int];
                let classifier = value_label(NodeType::MatchValDef, valdef_name(target.valuedef), target);
                match inst_labels(insts, target, counter, (fuel - 1) as nat) {
                    Some(sub) => Some(
                        Expansion { labels: seq![selector, classifier] + sub.labels, counter: sub.counter },
                    ),
                    None => None,
                }
            } else {
                None
            }
        } else if op.idx_val is None && op.const_val is Some {
            Some(
                Expansion {
                    labels: seq![
                        selector,
                        bare_label(NodeType::MatchPlainConst, "constant"@),
                        bare_label(NodeType::MatchConst, signed_decimal(op.const_val->0 as int)),
                    ],
                    counter,
                },
            )
        } else {
            None
        };
        match this {
            Some(done) => match args_labels(insts, inst, parent_instdata, from + 1, done.counter, fuel) {
                Some(rest) => Some(Expansion { labels: done.labels + rest.labels, counter: rest.counter }),
                None => None,
            },
            None => None,
        }
    }
}

/// Node `k` of the chain that carries `labels` from the id `first` on.
pub open spec fn chain_node(labels: Seq<NodeLabel>, first: nat, k: int) -> NodeView {
    node_of(
        labels[k],
        (first + k) as usize,
        if k + 1 < labels.len() {
            Some(seq![NodeID { index: (first + k + 1) as usize }])
        } else {
            None
        },
    )
}

/// The chain that carries `labels`: consecutive ids from `first` on, each
/// node linked to the one after it and the last to none.
pub open spec fn chain_nodes(labels: Seq<NodeLabel>, first: nat) -> Seq<NodeView> {
    Seq::new(labels.len(), |k: int| chain_node(labels, first, k))
}

/// `node` with the node of id `target` as its only successor.
pub open spec fn linked_to(node: NodeView, target: usize) -> NodeView {
    NodeView { next: Some(seq![NodeID { index: target }]), ..node }
}

/// `nodes` continued by the chain of `labels` from the id `first` on: the
/// last node of `nodes` is linked to the first node of the chain. Without
/// labels nothing changes.
pub open spec fn extend_chain(nodes: Seq<NodeView>, labels: Seq<NodeLabel>, first: nat) -> Seq<NodeView> {
    if labels.len() == 0 {
        nodes
    } else {
        nodes.update(nodes.len() - 1, linked_to(nodes.last(), first as usize)) + chain_nodes(labels, first)
    }
}

/// Whether the node at position `i` has the one link to the node after
/// it.
pub open spec fn links_to_next(nodes: Seq<NodeView>, i: int) -> bool {
    nodes[i].next == Some(seq![NodeID { index: nodes[i + 1].id }])
}

/// Whether a list of nodes is a chain: each node has the one link to the
/// node after it, and the last has none.
pub open spec fn is_chain(nodes: Seq<NodeView>) -> bool {
    &&& forall|i: int| 0 <= i < nodes.len() - 1 ==> #[trigger] links_to_next(nodes, i)
    &&& nodes.len() > 0 ==> nodes.last().next is None
}

/// The position of the first `Infer` of a sequence, if it has one.
pub open spec fn infer_position(insts: Seq<CtonInstView>) -> Option<int> {
    if exists|i: int| is_first_infer(insts, i) {
        Some(choose|i: int| is_first_infer(insts, i))
    } else {
        None
    }
}

/// The position of the instruction that a rule matches: the one that the
/// single operand of the rule's first `Infer` refers to. There is none
/// where the rule has no `Infer`, or its `Infer` has not exactly one
/// operand, or that operand is not a reference into the rule.
pub open spec fn rule_root(insts: Seq<CtonInstView>) -> Option<int> {
    match infer_position(insts) {
        Some(at) => match insts[at].cops {
            Some(ops) => if ops.len() == 1 && ops[0].const_val is None && ops[0].idx_val is Some
                && ops[0].idx_val->0 < insts.len() {
                Some(ops[0].idx_val->0 as int)
            } else {
                None
            },
            None => None,
        },
        None => None,
    }
}

/// The labels of a rule's chain: those of the match of its root, with the
/// count of counted shapes starting at 0.
pub open spec fn rule_labels(insts: Seq<CtonInstView>) -> Option<Seq<NodeLabel>> {
    match rule_root(insts) {
        Some(root) => match inst_labels(insts, insts[root], 0, insts.len()) {
            Some(all) => Some(all.labels),
            None => None,
        },
        None => None,
    }
}

/// Whether a rule has a chain whose ids, from `global_count` on, fit the
/// machine's numbers.
pub open spec fn rule_fits(insts: Seq<CtonInstView>, global_count: usize) -> bool {
    match rule_labels(insts) {
        Some(labels) => global_count + labels.len() <= usize::MAX,
        None => false,
    }
}

/// A chain continued by more labels is the chain of all the labels.
pub proof fn lemma_chain_extended(head: Seq<NodeLabel>, tail: Seq<NodeLabel>, first: nat)
    requires
        head.len() > 0,
    ensures
        extend_chain(chain_nodes(head, first), tail, first + head.len()) == chain_nodes(head + tail, first),
{
    if tail.len() == 0 {
        assert(head + tail =~= head);
    } else {
        let lhs = extend_chain(chain_nodes(head, first), tail, first + head.len());
        let rhs = chain_nodes(head + tail, first);
        assert(lhs.len() == rhs.len());
        assert forall|k: int| 0 <= k < lhs.len() implies lhs[k] == rhs[k] by {
            if k < head.len() {
                assert((head + tail)[k] == head[k]);
            } else {
                assert((head + tail)[k] == tail[k - head.len()]);
                assert(lhs[k] == chain_nodes(tail, first + head.len())[k - head.len()]);
            }
        }
        assert(lhs =~= rhs);
    }
}

/// Continuing twice is continuing once by all the labels.
pub proof fn lemma_extend_twice(nodes: Seq<NodeView>, head: Seq<NodeLabel>, tail: Seq<NodeLabel>, first: nat)
    requires
        nodes.len() > 0,
    ensures
        extend_chain(extend_chain(nodes, head, first), tail, first + head.len()) == extend_chain(
            nodes,
            head + tail,
            first,
        ),
{
    if head.len() == 0 {
        assert(head + tail =~= tail);
    } else if tail.len() == 0 {
        assert(head + tail =~= head);
    } else {
        let base = nodes.update(nodes.len() - 1, linked_to(nodes.last(), first as usize));
        lemma_chain_extended(head, tail, first);
        let mid = chain_nodes(head, first);
        let lhs = extend_chain(base + mid, tail, first + head.len());
        assert(lhs =~= base + extend_chain(mid, tail, first + head.len()));
    }
}

/// Continuing a list continues its last part.
pub proof fn lemma_extend_suffix(front: Seq<NodeView>, back: Seq<NodeView>, labels: Seq<NodeLabel>, first: nat)
    requires
        back.len() > 0,
    ensures
        extend_chain(front + back, labels, first) == front + extend_chain(back, labels, first),
{
    if labels.len() > 0 {
        assert(extend_chain(front + back, labels, first) =~= front + extend_chain(back, labels, first));
    }
}

/// The list that carries labels under consecutive ids is a chain.
pub proof fn lemma_chain_is_chain(labels: Seq<NodeLabel>, first: nat)
    ensures
        is_chain(chain_nodes(labels, first)),
{
}

/// The nodes of a chain whose ids fit the machine's numbers have ids of
/// their own.
pub proof fn lemma_chain_ids_distinct(labels: Seq<NodeLabel>, first: nat)
    requires
        first + labels.len() <= usize::MAX + 1,
    ensures
        ids_distinct(chain_nodes(labels, first)),
{
}

/// The count of counted shapes never goes down.
pub proof fn lemma_counter_grows(insts: Seq<CtonInstView>, inst: CtonInstView, counter: nat, fuel: nat)
    requires
        inst_labels(insts, inst, counter, fuel) is Some,
    ensures
        inst_labels(insts, inst, counter, fuel).unwrap().counter >= counter,
    decreases fuel, operand_count(inst) + 1,
{
    lemma_args_counter_grows(insts, inst, instdata_name(inst.kind), 0, counter_after(inst.kind, counter), fuel);
}

/// The count of counted shapes never goes down over the operands.
pub proof fn lemma_args_counter_grows(
    insts: Seq<CtonInstView>,
    inst: CtonInstView,
    parent_instdata: Seq<char>,
    from: nat,
    counter: nat,
    fuel: nat,
)
    requires
        args_labels(insts, inst, parent_instdata, from, counter, fuel) is Some,
    ensures
        args_labels(insts, inst, parent_instdata, from, counter, fuel).unwrap().counter >= counter,
    decreases fuel, operand_count(inst) - from,
{
    if from < operand_count(inst) {
        let op = inst.cops->0[from as int];
        if op.idx_val is Some && op.const_val is None {
            let target = insts[op.idx_val->0 as int];
            lemma_counter_grows(insts, target, counter, (fuel - 1) as nat);
            let after = inst_labels(insts, target, counter, (fuel - 1) as nat).unwrap().counter;
            lemma_args_counter_grows(insts, inst, parent_instdata, from + 1, after, fuel);
        } else {
            lemma_args_counter_grows(insts, inst, parent_instdata, from + 1, counter, fuel);
        }
    }
}

/// The count of counted shapes grows by no more than there are labels.
pub proof fn lemma_counter_bounded(insts: Seq<CtonInstView>, inst: CtonInstView, counter: nat, fuel: nat)
    requires
        inst_labels(insts, inst, counter, fuel) is Some,
    ensures
        inst_labels(insts, inst, counter, fuel).unwrap().counter <= counter + inst_labels(
            insts,
            inst,
            counter,
            fuel,
        ).unwrap().labels.len(),
    decreases fuel, operand_count(inst) + 1,
{
    lemma_args_counter_bounded(insts, inst, instdata_name(inst.kind), 0, counter_after(inst.kind, counter), fuel);
}

/// The count of counted shapes grows by no more than there are labels,
/// over the operands.
pub proof fn lemma_args_counter_bounded(
    insts: Seq<CtonInstView>,
    inst: CtonInstView,
    parent_instdata: Seq<char>,
    from: nat,
    counter: nat,
    fuel: nat,
)
    requires
        args_labels(insts, inst, parent_instdata, from, counter, fuel) is Some,
    ensures
        args_labels(insts, inst, parent_instdata, from, counter, fuel).unwrap().counter <= counter + args_labels(
            insts,
            inst,
            parent_instdata,
            from,
            counter,
            fuel,
        ).unwrap().labels.len(),
    decreases fuel, operand_count(inst) - from,
{
    if from < operand_count(inst) {
        let op = inst.cops->0[from as int];
        if op.idx_val is Some && op.const_val is None {
            let target = insts[op.idx_val->0 as int];
            lemma_counter_bounded(insts, target, counter, (fuel - 1) as nat);
            let after = inst_labels(insts, target, counter, (fuel - 1) as nat).unwrap().counter;
            lemma_args_counter_bounded(insts, inst, parent_instdata, from + 1, after, fuel);
        } else {
            lemma_args_counter_bounded(insts, inst, parent_instdata, from + 1, counter, fuel);
        }
    }
}

/// Whether a chain exists, and how long it is, depends neither on the
/// count of counted shapes that it starts from nor on the kinds of
/// selector.
pub proof fn lemma_length_any_counter(
    insts: Seq<CtonInstView>,
    inst: CtonInstView,
    counter: nat,
    other: nat,
    fuel: nat,
)
    ensures
        inst_labels(insts, inst, counter, fuel) is Some == inst_labels(insts, inst, other, fuel) is Some,
        inst_labels(insts, inst, counter, fuel) is Some ==> inst_labels(
            insts,
            inst,
            counter,
            fuel,
        ).unwrap().labels.len() == inst_labels(insts, inst, other, fuel).unwrap().labels.len(),
    decreases fuel, operand_count(inst) + 1,
{
    lemma_args_length_any_counter(
        insts,
        inst,
        instdata_name(inst.kind),
        instdata_name(inst.kind),
        0,
        counter_after(inst.kind, counter),
        counter_after(inst.kind, other),
        fuel,
    );
}

/// Whether the labels of the operands exist, and how many they are,
/// depends neither on the count of counted shapes nor on the name of the
/// shape.
pub proof fn lemma_args_length_any_counter(
    insts: Seq<CtonInstView>,
    inst: CtonInstView,
    parent_instdata: Seq<char>,
    other_instdata: Seq<char>,
    from: nat,
    counter: nat,
    other: nat,
    fuel: nat,
)
    ensures
        args_labels(insts, inst, parent_instdata, from, counter, fuel) is Some == args_labels(
            insts,
            inst,
            other_instdata,
            from,
            other,
            fuel,
        ) is Some,
        args_labels(insts, inst, parent_instdata, from, counter, fuel) is Some ==> args_labels(
            insts,
            inst,
            parent_instdata,
            from,
            counter,
            fuel,
        ).unwrap().labels.len() == args_labels(insts, inst, other_instdata, from, other, fuel).unwrap().labels.len(),
    decreases fuel, operand_count(inst) - from,
{
    if from < operand_count(inst) {
        let op = inst.cops->0[from as int];
        if op.idx_val is Some && op.const_val is None {
            if op.idx_val->0 < insts.len() && fuel > 0 {
                let target = insts[op.idx_val->0 as int];
                lemma_length_any_counter(insts, target, counter, other, (fuel - 1) as nat);
                if inst_labels(insts, target, counter, (fuel - 1) as nat) is Some {
                    lemma_args_length_any_counter(
                        insts,
                        inst,
                        parent_instdata,
                        other_instdata,
                        from + 1,
                        inst_labels(insts, target, counter, (fuel - 1) as nat).unwrap().counter,
                        inst_labels(insts, target, other, (fuel - 1) as nat).unwrap().counter,
                        fuel,
                    );
                }
            }
        } else if op.idx_val is None && op.const_val is Some {
            lemma_args_length_any_counter(
                insts,
                inst,
                parent_instdata,
                other_instdata,
                from + 1,
                counter,
                other,
                fuel,
            );
        }
    }
}

/// The position of a node with the id `id`, if there is one.
pub open spec fn position_of(nodes: Seq<NodeView>, id: usize) -> Option<int> {
    if exists|i: int| 0 <= i < nodes.len() && (#[trigger] nodes[i]).id == id {
        Some(choose|i: int| 0 <= i < nodes.len() && (#[trigger] nodes[i]).id == id)
    } else {
        None
    }
}

/// What one reads when following first links from the node with the id
/// `id`, for at most `steps` nodes: the labels of the nodes passed.
pub open spec fn path_from(nodes: Seq<NodeView>, id: usize, steps: nat) -> Seq<NodeLabel>
    decreases steps,
{
    if steps == 0 {
        Seq::empty()
    } else {
        match position_of(nodes, id) {
            Some(at) => seq![label_of(nodes[at])] + (match nodes[at].next {
                Some(links) => if links.len() > 0 {
                    path_from(nodes, links[0].index, (steps - 1) as nat)
                } else {
                    Seq::empty()
                },
                None => Seq::empty(),
            }),
            None => Seq::empty(),
        }
    }
}

/// Reading a chain from node `k` on gives the labels from `k` on.
pub proof fn lemma_chain_path(labels: Seq<NodeLabel>, first: nat, k: nat, steps: nat)
    requires
        first + labels.len() <= usize::MAX,
        k < labels.len(),
        steps >= labels.len() - k,
    ensures
        path_from(chain_nodes(labels, first), (first + k) as usize, steps) == labels.subrange(
            k as int,
            labels.len() as int,
        ),
    decreases labels.len() - k,
{
    let nodes = chain_nodes(labels, first);
    assert(nodes[k as int].id == (first + k) as usize);
    let at = position_of(nodes, (first + k) as usize).unwrap();
    assert(at == k);
    assert(label_of(nodes[at]) == labels[at]);
    if k + 1 < labels.len() {
        lemma_chain_path(labels, first, k + 1, (steps - 1) as nat);
        assert(seq![labels[k as int]] + labels.subrange(k as int + 1, labels.len() as int) =~= labels.subrange(
            k as int,
            labels.len() as int,
        ));
    } else {
        assert(seq![labels[k as int]] + Seq::<NodeLabel>::empty() =~= labels.subrange(
            k as int,
            labels.len() as int,
        ));
    }
}

/// Reading back the chain of a rule, from its first node along the links
/// to its leaf, gives the rule's labels: its selectors and expected
/// values in the order of the match, and nothing else.
pub proof fn lemma_trie_round_trip(insts: Seq<CtonInstView>, global_count: usize, steps: nat)
    requires
        rule_fits(insts, global_count),
        steps >= rule_labels(insts).unwrap().len(),
    ensures
        path_from(chain_nodes(rule_labels(insts).unwrap(), global_count as nat), global_count, steps)
            == rule_labels(insts).unwrap(),
{
    let labels = rule_labels(insts).unwrap();
    let root = rule_root(insts).unwrap();
    assert(header_labels(insts[root], 0).len() >= 4);
    lemma_chain_path(labels, global_count as nat, 0, steps);
    assert(labels.subrange(0, labels.len() as int) =~= labels);
}

/// Whether the texts of the list that are written out as they are, the
/// values of the selectors of operands and of the constant leaves, hold
/// no brace.
pub open spec fn free_text_plain(nodes: Seq<NodeView>) -> bool {
    forall|i: int|
        0 <= i < nodes.len() && ((#[trigger] nodes[i]).node_type == NodeType::MatchArgs || nodes[i].node_type
            == NodeType::MatchConst) ==> plain(nodes[i].node_value)
}

/// Whether the labels that are written out as they are, those of the
/// selectors of operands and of the constant leaves, hold no brace.
pub open spec fn labels_plain(labels: Seq<NodeLabel>) -> bool {
    forall|i: int|
        0 <= i < labels.len() && ((#[trigger] labels[i]).node_type == NodeType::MatchArgs || labels[i].node_type
            == NodeType::MatchConst) ==> plain(labels[i].node_value)
}

/// Labels without braces one after the other hold no brace.
pub proof fn lemma_labels_plain_concat(a: Seq<NodeLabel>, b: Seq<NodeLabel>)
    requires
        labels_plain(a),
        labels_plain(b),
    ensures
        labels_plain(a + b),
{
    assert forall|i: int|
        0 <= i < (a + b).len() && ((#[trigger] (a + b)[i]).node_type == NodeType::MatchArgs || (a + b)[i].node_type
            == NodeType::MatchConst) implies plain((a + b)[i].node_value) by {
        if i < a.len() {
            assert((a + b)[i] == a[i]);
        } else {
            assert((a + b)[i] == b[i - a.len()]);
        }
    }
}

/// The selector text of an operand holds no brace.
pub proof fn lemma_arg_selector_plain(argtype: Seq<char>, arg: nat, parent_instdata: Seq<char>)
    ensures
        plain(arg_selector_name(argtype, arg, parent_instdata)),
{
    reveal_strlit("arg");
    reveal_strlit("imm");
    reveal_strlit("args");
    reveal_strlit("[");
    reveal_strlit("]");
    lemma_digits_plain(arg);
}

/// The labels of the match of an instruction that are written out as
/// they are hold no brace.
pub proof fn lemma_inst_labels_plain(insts: Seq<CtonInstView>, inst: CtonInstView, counter: nat, fuel: nat)
    requires
        inst_labels(insts, inst, counter, fuel) is Some,
    ensures
        labels_plain(inst_labels(insts, inst, counter, fuel).unwrap().labels),
    decreases fuel, operand_count(inst) + 1,
{
    let rest = args_labels(insts, inst, instdata_name(inst.kind), 0, counter_after(inst.kind, counter), fuel).unwrap();
    lemma_args_labels_plain(insts, inst, instdata_name(inst.kind), 0, counter_after(inst.kind, counter), fuel);
    assert(labels_plain(header_labels(inst, counter)));
    lemma_labels_plain_concat(header_labels(inst, counter), rest.labels);
}

/// The labels for the operands of an instruction that are written out as
/// they are hold no brace.
pub proof fn lemma_args_labels_plain(
    insts: Seq<CtonInstView>,
    inst: CtonInstView,
    parent_instdata: Seq<char>,
    from: nat,
    counter: nat,
    fuel: nat,
)
    requires
        args_labels(insts, inst, parent_instdata, from, counter, fuel) is Some,
    ensures
        labels_plain(args_labels(insts, inst, parent_instdata, from, counter, fuel).unwrap().labels),
    decreases fuel, operand_count(inst) - from,
{
    if from < operand_count(inst) {
        let op = inst.cops->0[from as int];
        let selector = arg_label(operand_form(op), from, parent_instdata, op.idx_val);
        lemma_arg_selector_plain(operand_form(op), from, parent_instdata);
        if op.idx_val is Some && op.const_val is None {
            let target = insts[op.idx_val->0 as int];
            let classifier = value_label(NodeType::MatchValDef, valdef_name(target.valuedef), target);
            let sub = inst_labels(insts, target, counter, (fuel - 1) as nat).unwrap();
            lemma_inst_labels_plain(insts, target, counter, (fuel - 1) as nat);
            let done = seq![selector, classifier] + sub.labels;
            assert(labels_plain(seq![selector, classifier]));
            lemma_labels_plain_concat(seq![selector, classifier], sub.labels);
            let rest = args_labels(insts, inst, parent_instdata, from + 1, sub.counter, fuel).unwrap();
            lemma_args_labels_plain(insts, inst, parent_instdata, from + 1, sub.counter, fuel);
            lemma_labels_plain_concat(done, rest.labels);
        } else {
            let value = op.const_val->0 as int;
            lemma_signed_plain(value);
            let done = seq![
                selector,
                bare_label(NodeType::MatchPlainConst, "constant"@),
                bare_label(NodeType::MatchConst, signed_decimal(value)),
            ];
            assert(labels_plain(done));
            let rest = args_labels(insts, inst, parent_instdata, from + 1, counter, fuel).unwrap();
            lemma_args_labels_plain(insts, inst, parent_instdata, from + 1, counter, fuel);
            lemma_labels_plain_concat(done, rest.labels);
        }
    }
}

/// In the chain of a rule the texts that are written out as they are hold
/// no brace.
pub proof fn lemma_rule_chain_plain(insts: Seq<CtonInstView>, first: nat)
    requires
        rule_labels(insts) is Some,
    ensures
        free_text_plain(chain_nodes(rule_labels(insts).unwrap(), first)),
{
    let root = rule_root(insts).unwrap();
    lemma_inst_labels_plain(insts, insts[root], 0, insts.len());
    let labels = rule_labels(insts).unwrap();
    let chain = chain_nodes(labels, first);
    assert forall|i: int|
        0 <= i < chain.len() && ((#[trigger] chain[i]).node_type == NodeType::MatchArgs || chain[i].node_type
            == NodeType::MatchConst) implies plain(chain[i].node_value) by {
        assert(chain[i].node_type == labels[i].node_type && chain[i].node_value == labels[i].node_value);
    }
}

} // verus!

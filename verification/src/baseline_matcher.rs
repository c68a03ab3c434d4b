//! The scope-tracking code generator: renders a list of decision nodes and
//! the table of replacements as the source text of one dispatch function,
//! whose nested blocks follow the levels of the nodes.
use crate::cliftinstbuilder::{
    clone_insts, get_clift_opcode_name, inst_views, opcode_name, CtonInst, CtonInstView, CtonOperand,
};
use crate::lhspatternmatcher::{
    clone_links, find_position, first_with_id, ids_distinct, lemma_first_with_id, lemma_first_with_id_finds,
    node_views, root_node, Node, NodeID, NodeType, NodeView,
};
use crate::chain::{chain_nodes, linked_to, NodeLabel};
use crate::mergedtree::{has_id, lemma_level_bounded, link_count, link_lands, links_agree, MergedView};
use crate::text::{decimal_digits, decimal_string, signed_decimal, signed_decimal_string, text_is};
use std::collections::HashMap;
use vstd::prelude::*;
use vstd::string::*;

verus! {

broadcast use vstd::std_specs::hash::group_hash_axioms;

/// The kinds of block in the generated text.
#[allow(non_camel_case_types)]
#[derive(Clone, Copy, Debug, PartialEq, Eq, Structural)]
pub enum ScopeType {
    scope_match,
    scope_case,
    scope_func,
}

/// One open block: its kind and the level of the node that opened it.
#[derive(Clone, Copy, Debug, PartialEq, Eq, Structural)]
pub struct ScopeStack {
    pub scope_type: ScopeType,
    pub level: usize,
}

/// The condition codes of the target's integer comparisons.
#[derive(Clone, Copy, Debug, PartialEq, Eq, Structural)]
pub enum IntCC {
    Equal,
    NotEqual,
    SignedLessThan,
    SignedGreaterThanOrEqual,
    SignedGreaterThan,
    SignedLessThanOrEqual,
    UnsignedLessThan,
    UnsignedGreaterThanOrEqual,
    UnsignedGreaterThan,
    UnsignedLessThanOrEqual,
    Overflow,
    NotOverflow,
}

/// The state of the text under construction: the field under comparison,
/// the text so far, the open blocks from the outermost to the innermost,
/// and the names bound to immediate operands that still await their test.
pub struct Opt {
    pub current_entity: String,
    pub func_str: String,
    pub scope_stack: Vec<ScopeStack>,
    pub const_stack: Vec<String>,
}

/// The mathematical value of the state of the text under construction.
pub struct OptView {
    pub entity: Seq<char>,
    pub text: Seq<char>,
    pub scopes: Seq<ScopeStack>,
    pub consts: Seq<Seq<char>>,
}

impl Clone for Opt {
    fn clone(&self) -> (res: Self)
        ensures
            res@ == self@,
    {
        let mut scope_stack: Vec<ScopeStack> = Vec::new();
        let mut i: usize = 0;
        while i < self.scope_stack.len()
            invariant
                i <= self.scope_stack@.len(),
                scope_stack@ == self.scope_stack@.subrange(0, i as int),
            decreases self.scope_stack@.len() - i,
        {
            scope_stack.push(self.scope_stack[i]);
            proof {
                assert(scope_stack@ =~= self.scope_stack@.subrange(0, i + 1));
            }
            i += 1;
        }
        let mut const_stack: Vec<String> = Vec::new();
        let mut k: usize = 0;
        while k < self.const_stack.len()
            invariant
                k <= self.const_stack@.len(),
                const_stack@.len() == k,
                forall|j: int| 0 <= j < k ==> (#[trigger] const_stack@[j])@ == self.const_stack@[j]@,
            decreases self.const_stack@.len() - k,
        {
            const_stack.push(self.const_stack[k].clone());
            k += 1;
        }
        let res = Opt {
            current_entity: self.current_entity.clone(),
            func_str: self.func_str.clone(),
            scope_stack,
            const_stack,
        };
        proof {
            assert(self.scope_stack@.subrange(0, self.scope_stack@.len() as int) =~= self.scope_stack@);
            assert(res@.consts =~= self@.consts);
        }
        res
    }
}

impl View for Opt {
    type V = OptView;

    open spec fn view(&self) -> OptView {
        OptView {
            entity: self.current_entity@,
            text: self.func_str@,
            scopes: self.scope_stack@,
            consts: self.const_stack@.map_values(|s: String| s@),
        }
    }
}

/// The text that opens a block.
pub open spec fn open_text(scope: ScopeType) -> Seq<char> {
    match scope {
        ScopeType::scope_match => " {\n"@,
        ScopeType::scope_func => " {\n"@,
        ScopeType::scope_case => " => {\n"@,
    }
}

/// The text that closes a block. A case arm is followed by the fallback
/// arm, so that every match is exhaustive.
pub open spec fn close_text(scope: ScopeType) -> Seq<char> {
    match scope {
        ScopeType::scope_match => "\n}"@,
        ScopeType::scope_func => "\n}"@,
        ScopeType::scope_case => "\n},"@ + "\n_ => {},"@,
    }
}

/// The position of the outermost open block of level `level` at or after
/// `from`, and the number of open blocks if there is none.
pub open spec fn level_index_from(scopes: Seq<ScopeStack>, level: usize, from: nat) -> nat
    decreases scopes.len() - from,
{
    if from >= scopes.len() {
        scopes.len()
    } else if scopes[from as int].level == level {
        from
    } else {
        level_index_from(scopes, level, from + 1)
    }
}

/// The position of the outermost open block of level `level`, and the
/// number of open blocks if no block of that level is open.
pub open spec fn level_index(scopes: Seq<ScopeStack>, level: usize) -> nat {
    level_index_from(scopes, level, 0)
}

/// The closing texts of the open blocks from position `from` on,
/// innermost first.
pub open spec fn closing_text(scopes: Seq<ScopeStack>, from: nat) -> Seq<char>
    decreases scopes.len(),
{
    if from >= scopes.len() {
        Seq::empty()
    } else {
        close_text(scopes.last().scope_type) + closing_text(scopes.drop_last(), from)
    }
}

/// Whether at most one block is open at each level.
pub open spec fn one_per_level(scopes: Seq<ScopeStack>) -> bool {
    forall|i: int, j: int| 0 <= i < j < scopes.len() ==> (#[trigger] scopes[i]).level != (#[trigger] scopes[j]).level
}

impl OptView {
    /// The state with `piece` appended to the text.
    pub open spec fn say(self, piece: Seq<char>) -> OptView {
        OptView { text: self.text + piece, ..self }
    }

    /// The state after closing the open blocks from position `from` on,
    /// innermost first: the blocks below `from` stay open, and the
    /// closing texts of the others are appended.
    pub open spec fn closed_from(self, from: nat) -> OptView {
        if from >= self.scopes.len() {
            self
        } else {
            OptView {
                scopes: self.scopes.subrange(0, from as int),
                text: self.text + closing_text(self.scopes, from),
                ..self
            }
        }
    }

    /// The state after closing the block that is open at `level` and
    /// every block inside it, if a block is open at that level.
    pub open spec fn cleared(self, level: usize) -> OptView {
        self.closed_from(level_index(self.scopes, level))
    }

    /// The state after entering a block of kind `scope` at `level`: the
    /// block that is open at that level and every block inside it are
    /// closed first, then the new block is opened.
    pub open spec fn entered(self, scope: ScopeType, level: usize) -> OptView {
        let kept = level_index(self.scopes, level);
        OptView {
            scopes: self.scopes.subrange(0, kept as int).push(ScopeStack { scope_type: scope, level }),
            text: self.text + closing_text(self.scopes, kept) + open_text(scope),
            ..self
        }
    }
}

/// The outermost open block of a level lies among the open blocks, no
/// block before it has the level, and it has the level.
pub proof fn lemma_level_index(scopes: Seq<ScopeStack>, level: usize, from: nat)
    requires
        from <= scopes.len(),
    ensures
        from <= level_index_from(scopes, level, from) <= scopes.len(),
        forall|i: int| from <= i < level_index_from(scopes, level, from) ==> (#[trigger] scopes[i]).level != level,
        level_index_from(scopes, level, from) < scopes.len() ==> scopes[level_index_from(
            scopes,
            level,
            from,
        ) as int].level == level,
    decreases scopes.len() - from,
{
    if from < scopes.len() && scopes[from as int].level != level {
        lemma_level_index(scopes, level, from + 1);
    }
}

/// Entering a block leaves it as the innermost open block and as the only
/// one of its level; where at most one block was open at each level, this
/// still holds.
pub proof fn lemma_entered_one_per_level(v: OptView, scope: ScopeType, level: usize)
    ensures
        v.entered(scope, level).scopes.last() == (ScopeStack { scope_type: scope, level }),
        forall|i: int|
            0 <= i < v.entered(scope, level).scopes.len() - 1 ==> (#[trigger] v.entered(scope, level).scopes[i]).level
                != level,
        one_per_level(v.scopes) ==> one_per_level(v.entered(scope, level).scopes),
{
    lemma_level_index(v.scopes, level, 0);
    let kept = level_index(v.scopes, level) as int;
    let after = v.entered(scope, level).scopes;
    assert forall|i: int| 0 <= i < after.len() - 1 implies (#[trigger] after[i]).level != level by {
        assert(after[i] == v.scopes[i]);
    }
    if one_per_level(v.scopes) {
        assert forall|i: int, j: int| 0 <= i < j < after.len() implies (#[trigger] after[i]).level != (
        #[trigger] after[j]).level by {
            assert(after[i] == v.scopes[i]);
            if j < kept {
                assert(after[j] == v.scopes[j]);
            }
        }
    }
}

/// Closing blocks leaves at most one block open at each level where this
/// held before.
pub proof fn lemma_closed_one_per_level(v: OptView, from: nat)
    requires
        one_per_level(v.scopes),
    ensures
        one_per_level(v.closed_from(from).scopes),
{
    let after = v.closed_from(from).scopes;
    assert forall|i: int, j: int| 0 <= i < j < after.len() implies (#[trigger] after[i]).level != (
    #[trigger] after[j]).level by {
        assert(after[i] == v.scopes[i]);
        assert(after[j] == v.scopes[j]);
    }
}

/// The head of the generated function number `count`.
pub open spec fn header_text(count: u32) -> Seq<char> {
    "fn superopt_"@ + decimal_digits(count as nat) + "(pos: &mut FuncCursor, inst: Inst)"@
}

impl Opt {
    /// The state before any text: the field under comparison is the
    /// instruction itself.
    pub fn new() -> (opt: Opt)
        ensures
            opt@ == (OptView { entity: "inst"@, text: ""@, scopes: Seq::empty(), consts: Seq::empty() }),
    {
        let opt = Opt {
            current_entity: String::from_str("inst"),
            func_str: String::from_str(""),
            scope_stack: Vec::new(),
            const_stack: Vec::new(),
        };
        proof {
            assert(opt@.consts =~= Seq::empty());
        }
        opt
    }

    /// Appends the head of the generated function number `count`.
    pub fn generate_header(&mut self, count: u32)
        ensures
            final(self)@ == old(self)@.say(header_text(count)),
    {
        self.func_str.append("fn superopt_");
        self.func_str.append(decimal_string(count as u128).as_str());
        self.func_str.append("(pos: &mut FuncCursor, inst: Inst)");
        proof {
            assert(self.func_str@ =~= old(self).func_str@ + header_text(count));
        }
    }

    /// Appends `input` to the text.
    pub fn append(&mut self, input: String)
        ensures
            final(self)@ == old(self)@.say(input@),
    {
        self.func_str.append(input.as_str());
    }

    /// Sets the field under comparison.
    pub fn set_entity(&mut self, entity: String)
        ensures
            final(self)@ == (OptView { entity: entity@, ..old(self)@ }),
    {
        self.current_entity = entity;
    }

    /// The position of the outermost open block of level `find_level`,
    /// and the number of open blocks if no block of that level is open.
    pub fn does_level_exist_in_stack(&mut self, find_level: usize) -> (index: usize)
        ensures
            *final(self) == *old(self),
            index == level_index(old(self)@.scopes, find_level),
            index <= old(self)@.scopes.len(),
    {
        let mut i: usize = 0;
        while i < self.scope_stack.len()
            invariant
                i <= self.scope_stack@.len(),
                *self == *old(self),
                level_index(self@.scopes, find_level) == level_index_from(self@.scopes, find_level, i as nat),
            decreases self.scope_stack@.len() - i,
        {
            if find_level == self.scope_stack[i].level {
                return i;
            }
            i += 1;
        }
        i
    }

    /// Closes the open blocks from position `from` on, innermost first.
    /// Every block that is closed was open: the blocks below `from` stay.
    pub fn pop_and_exit_scope_from(&mut self, from: usize)
        ensures
            final(self)@ == old(self)@.closed_from(from as nat),
    {
        proof {
            assert(self@.scopes.subrange(0, self@.scopes.len() as int) =~= self@.scopes);
        }
        while from < self.scope_stack.len()
            invariant
                self@.scopes.len() <= old(self)@.scopes.len(),
                from < old(self)@.scopes.len() ==> from <= self@.scopes.len(),
                from >= old(self)@.scopes.len() ==> self@.scopes.len() == old(self)@.scopes.len(),
                self@.scopes == old(self)@.scopes.subrange(0, self@.scopes.len() as int),
                self@.text + closing_text(self@.scopes, from as nat) == old(self)@.text + closing_text(
                    old(self)@.scopes,
                    from as nat,
                ),
                self@.entity == old(self)@.entity,
                self@.consts == old(self)@.consts,
            decreases self.scope_stack@.len(),
        {
            let ghost before = self@;
            let elem = self.scope_stack.pop().unwrap();
            self.exit_scope(elem.scope_type, elem.level);
            proof {
                assert(self@.scopes =~= old(self)@.scopes.subrange(0, self@.scopes.len() as int));
                assert(before.text + close_text(elem.scope_type) + closing_text(before.scopes.drop_last(), from as nat)
                    =~= before.text + closing_text(before.scopes, from as nat));
            }
        }
        proof {
            assert(self@.text =~= old(self)@.text + closing_text(old(self)@.scopes, from as nat));
            if from >= old(self)@.scopes.len() {
                assert(self@.scopes =~= old(self)@.scopes);
                assert(self@.text =~= old(self)@.text);
            }
        }
    }

    /// Remembers the name bound to an immediate operand.
    pub fn push_to_const_stack(&mut self, rhs: String)
        ensures
            final(self)@ == (OptView { consts: old(self)@.consts.push(rhs@), ..old(self)@ }),
    {
        self.const_stack.push(rhs);
        proof {
            assert(self@.consts =~= old(self)@.consts.push(rhs@));
        }
    }

    /// Takes back the name remembered last; the empty text if there is
    /// none.
    pub fn pop_from_const_stack(&mut self) -> (rhs: String)
        ensures
            old(self)@.consts.len() > 0 ==> rhs@ == old(self)@.consts.last() && final(self)@ == (OptView {
                consts: old(self)@.consts.drop_last(),
                ..old(self)@
            }),
            old(self)@.consts.len() == 0 ==> rhs@ == ""@ && final(self)@ == old(self)@,
    {
        match self.const_stack.pop() {
            Some(rhs) => {
                proof {
                    assert(self@.consts =~= old(self)@.consts.drop_last());
                    assert(old(self)@.consts.last() == rhs@);
                }
                rhs
            },
            None => {
                proof {
                    assert(self@.consts =~= old(self)@.consts);
                }
                String::from_str("")
            },
        }
    }

    /// Enters a block of kind `scope` at `current_level`.
    ///
    /// If a block is open at that level, it and every block inside it are
    /// closed first, innermost first, each with its closing text. Then
    /// the new block is opened and its opening text appended. The new
    /// block is the innermost and the only one of its level; where at
    /// most one block was open at each level, this still holds.
    pub fn enter_scope(&mut self, scope: ScopeType, current_level: usize)
        ensures
            final(self)@ == old(self)@.entered(scope, current_level),
            final(self)@.scopes == old(self)@.scopes.subrange(
                0,
                level_index(old(self)@.scopes, current_level) as int,
            ).push(ScopeStack { scope_type: scope, level: current_level }),
            final(self)@.text == old(self)@.text + closing_text(
                old(self)@.scopes,
                level_index(old(self)@.scopes, current_level),
            ) + open_text(scope),
            final(self)@.scopes.last() == (ScopeStack { scope_type: scope, level: current_level }),
            forall|i: int|
                0 <= i < final(self)@.scopes.len() - 1 ==> (#[trigger] final(self)@.scopes[i]).level != current_level,
            one_per_level(old(self)@.scopes) ==> one_per_level(final(self)@.scopes),
    {
        proof {
            lemma_level_index(self@.scopes, current_level, 0);
            lemma_entered_one_per_level(self@, scope, current_level);
            let kept = level_index(self@.scopes, current_level);
            if kept >= self@.scopes.len() {
                assert(self@.scopes.subrange(0, kept as int) =~= self@.scopes);
                assert(self@.text + closing_text(self@.scopes, kept) =~= self@.text);
            }
        }
        self.clear_level(current_level);
        self.scope_stack.push(ScopeStack { scope_type: scope, level: current_level });
        match scope {
            ScopeType::scope_match => {
                self.func_str.append(" {\n");
            },
            ScopeType::scope_func => {
                self.func_str.append(" {\n");
            },
            ScopeType::scope_case => {
                self.func_str.append(" => {\n");
            },
        }
    }

    /// Closes the block that is open at `level` and every block inside
    /// it, if a block is open at that level.
    pub fn clear_level(&mut self, level: usize)
        ensures
            final(self)@ == old(self)@.cleared(level),
    {
        let index = self.does_level_exist_in_stack(level);
        self.pop_and_exit_scope_from(index);
    }

    /// Appends the text that closes a block of kind `scope`.
    pub fn exit_scope(&mut self, scope: ScopeType, level: usize)
        ensures
            final(self)@ == old(self)@.say(close_text(scope)),
    {
        match scope {
            ScopeType::scope_match => {
                self.func_str.append("\n}");
            },
            ScopeType::scope_func => {
                self.func_str.append("\n}");
            },
            ScopeType::scope_case => {
                self.func_str.append("\n},");
                self.func_str.append("\n_ => {},");
                proof {
                    assert(self.func_str@ =~= old(self).func_str@ + close_text(scope));
                }
            },
        }
    }
}

/// The node that stands for "no such node": it has the greatest id.
pub open spec fn dummy_node() -> NodeView {
    NodeView {
        node_type: NodeType::MatchNone,
        node_value: "dummy"@,
        width: 0,
        id: usize::MAX,
        var_id: None,
        arg_flag: false,
        level: 0,
        next: None,
        idx_num: None,
        arg_name: ""@,
    }
}

/// `nodes` with the level of the first node of id `id` set to `level`;
/// unchanged if no node has that id.
pub open spec fn with_level_at_id(nodes: Seq<NodeView>, id: usize, level: usize) -> Seq<NodeView> {
    match first_with_id(nodes, id) {
        Some(at) => nodes.update(at as int, NodeView { level, ..nodes[at as int] }),
        None => nodes,
    }
}

/// `nodes` with the level `level` given to the target of each of the
/// links from position `from` on, in order. The target of a link is the
/// first node with the link's id; a link to an id that no node has
/// changes nothing.
pub open spec fn with_child_levels(nodes: Seq<NodeView>, links: Seq<NodeID>, from: nat, level: usize) -> Seq<
    NodeView,
>
    decreases links.len() - from,
{
    if from >= links.len() {
        nodes
    } else {
        with_child_levels(with_level_at_id(nodes, links[from as int].index, level), links, from + 1, level)
    }
}

/// `nodes` with the level `current + 1` given to the successors of node
/// `n`.
pub open spec fn with_levels_below(nodes: Seq<NodeView>, n: int, current: usize) -> Seq<NodeView> {
    match nodes[n].next {
        Some(links) => with_child_levels(nodes, links, 0, (current + 1) as usize),
        None => nodes,
    }
}

/// The constant of a replacement: that of the last operand that is a
/// constant, and 0 if none is.
pub open spec fn last_constant(ops: Seq<CtonOperand>) -> int
    decreases ops.len(),
{
    if ops.len() == 0 {
        0
    } else if ops.last().const_val is Some {
        ops.last().const_val->0 as int
    } else {
        last_constant(ops.drop_last())
    }
}

/// The constant of a replacement instruction.
pub open spec fn replacement_constant(inst: CtonInstView) -> int {
    match inst.cops {
        Some(ops) => last_constant(ops),
        None => 0,
    }
}

/// The statement that inserts instruction `k` of a replacement.
pub open spec fn insert_text(k: nat, inst: CtonInstView) -> Seq<char> {
    "let inst"@ + decimal_digits(k) + " = pos.ins()."@ + opcode_name(inst.opcode) + "("@ + "args[0], args[1]"@
        + ");\n"@
}

/// The statements that insert the instructions `from .. upto` of a
/// replacement, in order.
pub open spec fn inserts_text(rhs: Seq<CtonInstView>, from: nat, upto: nat) -> Seq<char>
    decreases upto - from,
{
    if from >= upto {
        Seq::empty()
    } else {
        insert_text(from, rhs[from as int]) + inserts_text(rhs, from + 1, upto)
    }
}

/// The statement that substitutes the matched instruction by `inst`.
pub open spec fn replace_text(inst: CtonInstView) -> Seq<char> {
    "pos.func.dfg.replace(inst)."@ + opcode_name(inst.opcode) + "("@ + "args[0], args[1]"@ + ");\n"@
}

/// The text of a replacement.
///
/// One instruction is rendered as the substitution by its constant. Of
/// more, the last is the result marker and has no text; the one before it
/// substitutes the matched instruction, and those before that are
/// inserted first, in order. The operands are placeholders.
pub open spec fn action_text(rhs: Seq<CtonInstView>) -> Seq<char> {
    if rhs.len() == 1 {
        "pos.func.dfg.replace(inst).iconst(width, "@ + signed_decimal(replacement_constant(rhs[0])) + "); "@
    } else {
        inserts_text(rhs, 0, (rhs.len() - 2) as nat) + replace_text(rhs[rhs.len() - 2])
    }
}

fn set_level_at(nodes: &mut Vec<Node>, index: usize, level: usize)
    requires
        index < old(nodes)@.len(),
    ensures
        node_views(final(nodes)@) == node_views(old(nodes)@).update(
            index as int,
            NodeView { level, ..old(nodes)@[index as int]@ },
        ),
        final(nodes)@.len() == old(nodes)@.len(),
{
    let mut node = nodes[index].clone();
    node.level = level;
    nodes.set(index, node);
    proof {
        assert(node_views(nodes@) =~= node_views(old(nodes)@).update(
            index as int,
            NodeView { level, ..old(nodes)@[index as int]@ },
        ));
    }
}

impl Opt {
    /// Whether a node has no list of links.
    pub fn is_leaf_node(&mut self, node: Node) -> (leaf: bool)
        ensures
            *final(self) == *old(self),
            leaf == (node@.next is None),
    {
        node.next.is_none()
    }

    /// The node that stands for "no such node".
    pub fn init_dummy_node(&mut self) -> (node: Node)
        ensures
            *final(self) == *old(self),
            node@ == dummy_node(),
    {
        Node {
            node_type: NodeType::MatchNone,
            node_value: String::from_str("dummy"),
            width: 0,
            id: usize::MAX,
            var_id: None,
            arg_flag: false,
            level: 0,
            next: None,
            idx_num: None,
            arg_name: String::from_str(""),
        }
    }

    /// `node` at the level `level`.
    pub fn update_node_with_level(&mut self, node: Node, level: usize) -> (updated: Node)
        ensures
            *final(self) == *old(self),
            updated@ == (NodeView { level, ..node@ }),
    {
        let mut node = node;
        node.level = level;
        node
    }

    /// Gives the level of `updated_node` to the first node of `nodes` that
    /// has its id.
    pub fn update_node_level_in_lhs(&mut self, updated_node: Node, nodes: &mut Vec<Node>)
        ensures
            *final(self) == *old(self),
            node_views(final(nodes)@) == with_level_at_id(
                node_views(old(nodes)@),
                updated_node.id,
                updated_node.level,
            ),
            final(nodes)@.len() == old(nodes)@.len(),
    {
        match find_position(nodes, updated_node.id) {
            Some(at) => {
                set_level_at(nodes, at, updated_node.level);
            },
            None => {},
        }
    }

    /// The first node of `nodes` with the id `id`, or the node that stands
    /// for "no such node".
    pub fn find_node_with_id(&mut self, id: usize, nodes: &mut Vec<Node>) -> (found_node: Node)
        ensures
            *final(self) == *old(self),
            *final(nodes) == *old(nodes),
            found_node@ == match first_with_id(node_views(old(nodes)@), id) {
                Some(at) => node_views(old(nodes)@)[at as int],
                None => dummy_node(),
            },
    {
        match find_position(nodes, id) {
            Some(at) => nodes[at].clone(),
            None => self.init_dummy_node(),
        }
    }

    /// Gives the level `current + 1` to the successors of node `n`: for
    /// each of its links, to the first node with the link's id. A link to
    /// an id that no node has changes nothing.
    pub fn set_level_of_all_child_nodes(&mut self, nodes: &mut Vec<Node>, n: usize, current: usize)
        requires
            n < old(nodes)@.len(),
            current < usize::MAX,
        ensures
            *final(self) == *old(self),
            node_views(final(nodes)@) == with_levels_below(node_views(old(nodes)@), n as int, current),
            final(nodes)@.len() == old(nodes)@.len(),
    {
        let links = match &nodes[n].next {
            Some(next_nodes) => clone_links(next_nodes),
            None => Vec::new(),
        };
        let ghost start = node_views(nodes@);
        let mut k: usize = 0;
        while k < links.len()
            invariant
                k <= links@.len(),
                current < usize::MAX,
                *self == *old(self),
                nodes@.len() == old(nodes)@.len(),
                with_child_levels(node_views(nodes@), links@, k as nat, (current + 1) as usize) == with_child_levels(
                    start,
                    links@,
                    0,
                    (current + 1) as usize,
                ),
            decreases links@.len() - k,
        {
            let id = links[k].index;
            match find_position(nodes, id) {
                Some(at) => {
                    proof {
                        lemma_first_with_id(node_views(nodes@), id, 0);
                        assert(node_views(nodes@)[at as int] == nodes@[at as int]@);
                    }
                    let updated_node = self.update_node_with_level(nodes[at].clone(), current + 1);
                    self.update_node_level_in_lhs(updated_node, nodes);
                },
                None => {},
            }
            k += 1;
        }
    }

    /// The root of a tree of nodes.
    pub fn build_root_node(&mut self) -> (node: Node)
        ensures
            *final(self) == *old(self),
            node@ == root_node(),
    {
        Node {
            node_type: NodeType::MatchRoot,
            node_value: String::from_str("root"),
            width: 0,
            id: 0,
            var_id: None,
            arg_flag: false,
            level: 0,
            next: Some(Vec::new()),
            idx_num: None,
            arg_name: String::from_str(""),
        }
    }

    /// Appends the text of the replacement `rhs`, which must hold an
    /// instruction.
    pub fn take_action(&mut self, rhs: Vec<CtonInst>)
        requires
            rhs@.len() >= 1,
        ensures
            final(self)@ == old(self)@.say(action_text(inst_views(rhs@))),
    {
        let ghost insts = inst_views(rhs@);
        if rhs.len() == 1 {
            let mut rhs_const: i32 = 0;
            match &rhs[0].cops {
                Some(ops) => {
                    proof {
                        assert(ops@.subrange(0, 0) =~= Seq::<CtonOperand>::empty());
                    }
                    let mut i: usize = 0;
                    while i < ops.len()
                        invariant
                            i <= ops@.len(),
                            rhs_const as int == last_constant(ops@.subrange(0, i as int)),
                        decreases ops@.len() - i,
                    {
                        proof {
                            assert(ops@.subrange(0, i + 1).drop_last() =~= ops@.subrange(0, i as int));
                        }
                        match ops[i].const_val {
                            Some(c) => {
                                rhs_const = c;
                            },
                            None => {},
                        }
                        i += 1;
                    }
                    proof {
                        assert(ops@.subrange(0, ops@.len() as int) =~= ops@);
                    }
                },
                None => {},
            }
            proof {
                assert(insts[0] == rhs@[0]@);
            }
            self.func_str.append("pos.func.dfg.replace(inst).iconst(width, ");
            self.func_str.append(signed_decimal_string(rhs_const as i128).as_str());
            self.func_str.append("); ");
            proof {
                assert(self.func_str@ =~= old(self).func_str@ + action_text(insts));
            }
        } else {
            let last = rhs.len() - 2;
            let mut inst: usize = 0;
            proof {
                assert(old(self).func_str@ + inserts_text(insts, 0, 0) =~= old(self).func_str@);
            }
            while inst < last
                invariant
                    inst <= last,
                    last == rhs@.len() - 2,
                    insts == inst_views(rhs@),
                    *self == (Opt { func_str: self.func_str, ..*old(self) }),
                    self.func_str@ + inserts_text(insts, inst as nat, last as nat) == old(self).func_str@
                        + inserts_text(insts, 0, last as nat),
                decreases last - inst,
            {
                let ghost before = self.func_str@;
                self.func_str.append("let inst");
                self.func_str.append(decimal_string(inst as u128).as_str());
                self.func_str.append(" = pos.ins().");
                self.func_str.append(get_clift_opcode_name(rhs[inst].opcode).as_str());
                self.func_str.append("(");
                self.func_str.append("args[0], args[1]");
                self.func_str.append(");\n");
                proof {
                    assert(insts[inst as int] == rhs@[inst as int]@);
                    assert(self.func_str@ =~= before + insert_text(inst as nat, insts[inst as int]));
                    assert(self.func_str@ + inserts_text(insts, (inst + 1) as nat, last as nat) =~= before + (
                    insert_text(inst as nat, insts[inst as int]) + inserts_text(
                        insts,
                        (inst + 1) as nat,
                        last as nat,
                    )));
                }
                inst += 1;
            }
            let ghost before = self.func_str@;
            proof {
                assert(before + inserts_text(insts, last as nat, last as nat) =~= before);
                assert(insts[last as int] == rhs@[last as int]@);
            }
            self.func_str.append("pos.func.dfg.replace(inst).");
            self.func_str.append(get_clift_opcode_name(rhs[last].opcode).as_str());
            self.func_str.append("(");
            self.func_str.append("args[0], args[1]");
            self.func_str.append(");\n");
            proof {
                assert(self.func_str@ =~= before + replace_text(insts[last as int]));
                assert(self.func_str@ =~= old(self).func_str@ + action_text(insts));
            }
        }
    }

    /// Moves the count of bound operand lists on and appends the new
    /// count to the text.
    pub fn get_argument_counter(&mut self, count: u32) -> (next: u32)
        requires
            count < u32::MAX,
        ensures
            next == count + 1,
            final(self)@ == old(self)@.say(decimal_digits((count + 1) as nat)),
    {
        let count = count + 1;
        self.func_str.append(decimal_string(count as u128).as_str());
        count
    }

    /// Moves the count of bound immediates on.
    pub fn get_const_counter(&mut self, count: u32) -> (next: u32)
        requires
            count < u32::MAX,
        ensures
            *final(self) == *old(self),
            next == count + 1,
    {
        count + 1
    }
}

/// Whether a node has a replacement: its id is a key of the table.
pub fn is_node_actionable(node_id: usize, table: HashMap<usize, Vec<CtonInst>>) -> (actionable: bool)
    ensures
        actionable == table@.contains_key(node_id),
{
    table.contains_key(&node_id)
}

/// The target's name for a condition code; the empty text for a text that
/// is no condition code.
pub open spec fn cond_text(cmp: Seq<char>) -> Seq<char> {
    if cmp == "eq"@ {
        "IntCC::Equal"@
    } else if cmp == "ne"@ {
        "IntCC::NotEqual"@
    } else if cmp == "slt"@ {
        "IntCC::SignedLessThan"@
    } else if cmp == "ult"@ {
        "IntCC::UnsignedLessThan"@
    } else if cmp == "sle"@ {
        "IntCC::SignedLessThanOrEqual"@
    } else if cmp == "ule"@ {
        "IntCC::UnsignedLessThanOrEqual"@
    } else {
        ""@
    }
}

/// The target's name for a condition code.
pub fn get_cond_name(cmp: String) -> (cond: String)
    ensures
        cond@ == cond_text(cmp@),
{
    if text_is(&cmp, "eq") {
        String::from_str("IntCC::Equal")
    } else if text_is(&cmp, "ne") {
        String::from_str("IntCC::NotEqual")
    } else if text_is(&cmp, "slt") {
        String::from_str("IntCC::SignedLessThan")
    } else if text_is(&cmp, "ult") {
        String::from_str("IntCC::UnsignedLessThan")
    } else if text_is(&cmp, "sle") {
        String::from_str("IntCC::SignedLessThanOrEqual")
    } else if text_is(&cmp, "ule") {
        String::from_str("IntCC::UnsignedLessThanOrEqual")
    } else {
        String::from_str("")
    }
}

/// The case pattern for the value of an opcode node, if the opcode is
/// one that the generator renders.
pub open spec fn opcode_arm(value: Seq<char>) -> Option<Seq<char>> {
    if value == "iadd"@ {
        Some("Opcode::Iadd"@)
    } else if value == "iadd_imm"@ {
        Some("Opcode::IaddImm"@)
    } else if value == "imul"@ {
        Some("Opcode::Imul"@)
    } else if value == "imul_imm"@ {
        Some("Opcode::ImulImm"@)
    } else if value == "isub"@ {
        Some("Opcode::Isub"@)
    } else if value == "irsub_imm"@ {
        Some("Opcode::IsubImm"@)
    } else if value == "icmp"@ {
        Some("Opcode::Icmp"@)
    } else if value == "icmp_imm"@ {
        Some("Opcode::IcmpImm"@)
    } else if value == "band"@ {
        Some("Opcode::Band"@)
    } else if value == "band_imm"@ {
        Some("Opcode::BandImm"@)
    } else if value == "bor"@ {
        Some("Opcode::Bor"@)
    } else if value == "bor_imm"@ {
        Some("Opcode::BorImm"@)
    } else if value == "bxor"@ {
        Some("Opcode::Bxor"@)
    } else if value == "bxor_imm"@ {
        Some("Opcode::BxorImm"@)
    } else if value == "ishl"@ {
        Some("Opcode::Ishl"@)
    } else if value == "ishl_imm"@ {
        Some("Opcode::IshlImm"@)
    } else if value == "sshr"@ {
        Some("Opcode::Sshr"@)
    } else if value == "sshr_imm"@ {
        Some("Opcode::SshrImm"@)
    } else if value == "ushr"@ {
        Some("Opcode::Ushr"@)
    } else if value == "ushr_imm"@ {
        Some("Opcode::UshrImm"@)
    } else if value == "popcnt"@ {
        Some("Opcode::Popcnt"@)
    } else if value == "clz"@ {
        Some("Opcode::Clz"@)
    } else if value == "ctz"@ {
        Some("Opcode::Ctz"@)
    } else {
        None
    }
}

/// The case pattern for the value of an opcode node.
pub fn opcode_arm_text(value: &String) -> (arm: Option<&'static str>)
    ensures
        match arm {
            Some(text) => opcode_arm(value@) == Some(text@),
            None => opcode_arm(value@) is None,
        },
{
    if text_is(value, "iadd") {
        Some("Opcode::Iadd")
    } else if text_is(value, "iadd_imm") {
        Some("Opcode::IaddImm")
    } else if text_is(value, "imul") {
        Some("Opcode::Imul")
    } else if text_is(value, "imul_imm") {
        Some("Opcode::ImulImm")
    } else if text_is(value, "isub") {
        Some("Opcode::Isub")
    } else if text_is(value, "irsub_imm") {
        Some("Opcode::IsubImm")
    } else if text_is(value, "icmp") {
        Some("Opcode::Icmp")
    } else if text_is(value, "icmp_imm") {
        Some("Opcode::IcmpImm")
    } else if text_is(value, "band") {
        Some("Opcode::Band")
    } else if text_is(value, "band_imm") {
        Some("Opcode::BandImm")
    } else if text_is(value, "bor") {
        Some("Opcode::Bor")
    } else if text_is(value, "bor_imm") {
        Some("Opcode::BorImm")
    } else if text_is(value, "bxor") {
        Some("Opcode::Bxor")
    } else if text_is(value, "bxor_imm") {
        Some("Opcode::BxorImm")
    } else if text_is(value, "ishl") {
        Some("Opcode::Ishl")
    } else if text_is(value, "ishl_imm") {
        Some("Opcode::IshlImm")
    } else if text_is(value, "sshr") {
        Some("Opcode::Sshr")
    } else if text_is(value, "sshr_imm") {
        Some("Opcode::SshrImm")
    } else if text_is(value, "ushr") {
        Some("Opcode::Ushr")
    } else if text_is(value, "ushr_imm") {
        Some("Opcode::UshrImm")
    } else if text_is(value, "popcnt") {
        Some("Opcode::Popcnt")
    } else if text_is(value, "clz") {
        Some("Opcode::Clz")
    } else if text_is(value, "ctz") {
        Some("Opcode::Ctz")
    } else {
        None
    }
}

/// The case pattern for the value of a shape node, if the shape is one
/// that the generator renders.
pub open spec fn shape_pattern(value: Seq<char>) -> Option<Seq<char>> {
    if value == "Binary"@ {
        Some("InstructionData::Binary { opcode, args }"@)
    } else if value == "IntCompare"@ {
        Some("InstructionData::IntCompare { opcode, cond, args }"@)
    } else if value == "Unary"@ {
        Some("InstructionData::Unary { opcode, arg }"@)
    } else if value == "BinaryImm"@ {
        Some("InstructionData::BinaryImm { opcode, arg, imm }"@)
    } else if value == "IntCompareImm"@ {
        Some("InstructionData::IntCompareImm { opcode, cond, arg, imm }"@)
    } else {
        None
    }
}

/// Whether the pattern of a shape binds a list of operands (else a
/// single operand).
pub open spec fn shape_binds_list(value: Seq<char>) -> bool {
    value == "Binary"@ || value == "IntCompare"@
}

/// Whether the pattern of a shape binds an immediate.
pub open spec fn shape_has_immediate(value: Seq<char>) -> bool {
    value == "BinaryImm"@ || value == "IntCompareImm"@
}

/// The rest of the statement that binds the operands of a shape.
pub open spec fn shape_binding(value: Seq<char>) -> Seq<char> {
    if shape_binds_list(value) {
        " = args;\n"@
    } else {
        " = arg;\n"@
    }
}

/// Whether a text is a condition code that the generator renders.
pub open spec fn is_cond_value(value: Seq<char>) -> bool {
    value == "eq"@ || value == "ne"@ || value == "ult"@ || value == "ule"@ || value == "slt"@ || value
        == "sle"@
}

/// The part of `s` from the first `c` at or after `from` on; nothing if
/// there is no `c`.
pub open spec fn suffix_from_char(s: Seq<char>, c: char, from: nat) -> Seq<char>
    decreases s.len() - from,
{
    if from >= s.len() {
        Seq::empty()
    } else if s[from as int] == c {
        s.subrange(from as int, s.len() as int)
    } else {
        suffix_from_char(s, c, from + 1)
    }
}

/// The match on the definition of the value that the selector `value`
/// reaches, in the operands bound last: the index of a positional selector
/// is kept, a selector by role has none.
pub open spec fn arg_match_text(value: Seq<char>, arg_counter: u32) -> Seq<char> {
    "match pos.func.dfg.value_def("@ + "args_"@ + decimal_digits(arg_counter as nat) + suffix_from_char(
        value,
        '[',
        0,
    ) + ")"@
}

/// The replacement of the node with the id `id`, if the table has one.
pub open spec fn action_for(table: Map<usize, Vec<CtonInst>>, id: usize) -> Option<Seq<CtonInstView>> {
    if table.contains_key(id) {
        Some(inst_views(table[id]@))
    } else {
        None
    }
}

/// The state of a generation: the text under construction, the pending
/// match on an operand's definition, the counts of bound operand lists
/// and bound immediates, and the ids of the nodes whose replacement has
/// been rendered, in order.
pub struct MatcherState {
    pub opt: Opt,
    pub arg_str: String,
    pub arg_counter: u32,
    pub const_counter: u32,
    pub acted: Ghost<Seq<usize>>,
}

/// The mathematical value of the state of a generation.
pub struct MatcherView {
    pub opt: OptView,
    pub arg_str: Seq<char>,
    pub arg_counter: u32,
    pub const_counter: u32,
    pub acted: Seq<usize>,
}

impl View for MatcherState {
    type V = MatcherView;

    open spec fn view(&self) -> MatcherView {
        MatcherView {
            opt: self.opt@,
            arg_str: self.arg_str@,
            arg_counter: self.arg_counter,
            const_counter: self.const_counter,
            acted: self.acted@,
        }
    }
}

impl MatcherView {
    /// The state before anything is generated.
    pub open spec fn initial() -> MatcherView {
        MatcherView {
            opt: OptView { entity: "inst"@, text: ""@, scopes: Seq::empty(), consts: Seq::empty() },
            arg_str: ""@,
            arg_counter: 0,
            const_counter: 0,
            acted: Seq::empty(),
        }
    }

    /// After the root: the head of the function, and its block.
    pub open spec fn visited_root(self, level: usize, count: u32) -> MatcherView {
        MatcherView { opt: self.opt.say(header_text(count)).entered(ScopeType::scope_func, level), ..self }
    }

    /// After a selector that opens a match on `head`: nothing happens
    /// while no field is under comparison.
    pub open spec fn visited_selector(self, head: Seq<char>, level: usize) -> MatcherView {
        if self.opt.entity.len() != 0 {
            MatcherView { opt: self.opt.say(head).entered(ScopeType::scope_match, level), ..self }
        } else {
            self
        }
    }

    /// After the selector of the instruction data.
    pub open spec fn visited_instdata(self, level: usize) -> MatcherView {
        self.visited_selector("match pos.func.dfg["@ + self.opt.entity + "]"@, level)
    }

    /// After a shape node: what is open at its level is closed; a shape
    /// other than `Var` opens its case arm, makes the opcode the field
    /// under comparison, and binds its operands under the next number;
    /// an immediate is bound under the next number of its own, and its
    /// name awaits the test.
    pub open spec fn visited_shape(self, value: Seq<char>, level: usize) -> MatcherView {
        let cleared = self.opt.cleared(level);
        if value == "Var"@ {
            MatcherView { opt: cleared, ..self }
        } else {
            let bound = (self.arg_counter + 1) as u32;
            let arm = cleared.say(shape_pattern(value).unwrap()).entered(ScopeType::scope_case, level);
            let opened = OptView { entity: "opcode"@, ..arm }.say("let args_"@).say(decimal_digits(bound as nat)).say(
                shape_binding(value),
            );
            if shape_has_immediate(value) {
                let named = (self.const_counter + 1) as u32;
                let name = "rhs_"@ + decimal_digits(named as nat);
                let told = opened.say("let "@).say(name).say(" : i64 = imm.into();\n"@);
                MatcherView {
                    opt: OptView { consts: told.consts.push(name), ..told },
                    arg_counter: bound,
                    const_counter: named,
                    ..self
                }
            } else {
                MatcherView { opt: opened, arg_counter: bound, ..self }
            }
        }
    }

    /// After a node that classifies an operand: what is open at its level
    /// is closed. A parameter needs no match: the pending match is
    /// dropped and no field is under comparison. A result is matched: the
    /// pending match is written and opened one level up, and the case arm
    /// of a result at the node's level.
    pub open spec fn visited_valdef(self, value: Seq<char>, level: usize) -> MatcherView {
        let cleared = self.opt.cleared(level);
        if value == "Param"@ {
            MatcherView { opt: OptView { entity: ""@, ..cleared }, arg_str: ""@, ..self }
        } else if value == "Result"@ {
            let arm = cleared.say(self.arg_str).entered(ScopeType::scope_match, (level - 1) as usize).say(
                "\nValueDef::Result(arg_ty, _)"@,
            ).entered(ScopeType::scope_case, level);
            MatcherView { opt: OptView { entity: "arg_ty"@, ..arm }, arg_str: ""@, ..self }
        } else {
            MatcherView { opt: cleared, ..self }
        }
    }

    /// After an opcode node: what is open at its level is closed, and an
    /// opcode other than `Var` opens its case arm.
    pub open spec fn visited_opcode(self, value: Seq<char>, level: usize) -> MatcherView {
        let cleared = self.opt.cleared(level);
        if value == "Var"@ {
            MatcherView { opt: cleared, ..self }
        } else {
            MatcherView { opt: cleared.say(opcode_arm(value).unwrap()).entered(ScopeType::scope_case, level), ..self }
        }
    }

    /// After a condition node: what is open at its level is closed, and
    /// the condition opens its case arm.
    pub open spec fn visited_cond(self, value: Seq<char>, level: usize) -> MatcherView {
        MatcherView {
            opt: self.opt.cleared(level).say(cond_text(value)).entered(ScopeType::scope_case, level),
            ..self
        }
    }

    /// After the selector of an operand: the match on the operand's
    /// definition is pending, once.
    pub open spec fn visited_args(self, value: Seq<char>) -> MatcherView {
        let pending = arg_match_text(value, self.arg_counter);
        if self.arg_str != pending {
            MatcherView { arg_str: self.arg_str + pending, ..self }
        } else {
            self
        }
    }

    /// After a constant leaf: what is open at its level is closed, and the
    /// name bound last to an immediate is tested against the constant in
    /// a plain block.
    pub open spec fn visited_const(self, value: Seq<char>, level: usize) -> MatcherView {
        let cleared = self.opt.cleared(level);
        let name = if cleared.consts.len() > 0 {
            cleared.consts.last()
        } else {
            ""@
        };
        let rest = if cleared.consts.len() > 0 {
            cleared.consts.drop_last()
        } else {
            cleared.consts
        };
        MatcherView {
            opt: OptView { consts: rest, ..cleared }.say("if "@).say(name).say(" == "@).say(value).entered(
                ScopeType::scope_func,
                level,
            ),
            const_counter: (self.const_counter + 1) as u32,
            ..self
        }
    }

    /// The state after the text of `node` itself.
    pub open spec fn visited(self, node: NodeView, count: u32) -> MatcherView {
        match node.node_type {
            NodeType::MatchRoot => self.visited_root(node.level, count),
            NodeType::MatchInstData => self.visited_instdata(node.level),
            NodeType::InstType => self.visited_shape(node.node_value, node.level),
            NodeType::MatchValDef => self.visited_valdef(node.node_value, node.level),
            NodeType::MatchOpcode => self.visited_selector("match opcode"@, node.level),
            NodeType::Opcode => self.visited_opcode(node.node_value, node.level),
            NodeType::MatchCond => self.visited_selector("match cond"@, node.level),
            NodeType::Cond => self.visited_cond(node.node_value, node.level),
            NodeType::MatchArgs => self.visited_args(node.node_value),
            NodeType::MatchPlainConst => self,
            NodeType::MatchConst => self.visited_const(node.node_value, node.level),
            NodeType::MatchNone => self,
        }
    }

    /// The state after the replacement of the node with the id `id`, if
    /// it has one: its text is appended and the id recorded.
    pub open spec fn acted_on(self, id: usize, action: Option<Seq<CtonInstView>>) -> MatcherView {
        match action {
            Some(rhs) => MatcherView { opt: self.opt.say(action_text(rhs)), acted: self.acted.push(id), ..self },
            None => self,
        }
    }

    /// The state after one node: its own text, then its replacement if it
    /// has one.
    pub open spec fn step(self, node: NodeView, table: Map<usize, Vec<CtonInst>>, count: u32) -> MatcherView {
        self.visited(node, count).acted_on(node.id, action_for(table, node.id))
    }

    /// Whether `node` can be rendered in this state: its kind and value
    /// are of the vocabulary, the counts that it moves on have room, a
    /// result is classified below the root's level, and its replacement,
    /// if it has one, is not empty.
    pub open spec fn can_step(self, node: NodeView, table: Map<usize, Vec<CtonInst>>) -> bool {
        &&& match node.node_type {
            NodeType::InstType => node.node_value == "Var"@ || (shape_pattern(node.node_value) is Some
                && self.arg_counter < u32::MAX && (shape_has_immediate(node.node_value)
                ==> self.const_counter < u32::MAX)),
            NodeType::MatchValDef => node.node_value == "Result"@ ==> node.level >= 1,
            NodeType::Opcode => node.node_value == "Var"@ || opcode_arm(node.node_value) is Some,
            NodeType::Cond => is_cond_value(node.node_value),
            NodeType::MatchConst => self.const_counter < u32::MAX,
            NodeType::MatchNone => false,
            _ => true,
        }
        &&& match action_for(table, node.id) {
            Some(rhs) => rhs.len() >= 1,
            None => true,
        }
    }

    /// The state after the nodes from position `from` on, in order.
    pub open spec fn run_from(self, nodes: Seq<NodeView>, table: Map<usize, Vec<CtonInst>>, count: u32, from: nat) -> MatcherView
        decreases nodes.len() - from,
    {
        if from >= nodes.len() {
            self
        } else {
            self.step(nodes[from as int], table, count).run_from(nodes, table, count, from + 1)
        }
    }

    /// Whether the nodes from position `from` on can be rendered, each in
    /// the state that the ones before it leave.
    pub open spec fn can_run_from(self, nodes: Seq<NodeView>, table: Map<usize, Vec<CtonInst>>, count: u32, from: nat) -> bool
        decreases nodes.len() - from,
    {
        if from >= nodes.len() {
            true
        } else {
            self.can_step(nodes[from as int], table) && self.step(nodes[from as int], table, count).can_run_from(
                nodes,
                table,
                count,
                from + 1,
            )
        }
    }

    /// The state after closing every block that is still open.
    pub open spec fn finished(self) -> MatcherView {
        MatcherView { opt: self.opt.closed_from(0), ..self }
    }
}

impl Opt {
    fn say(&mut self, piece: &str)
        ensures
            final(self)@ == old(self)@.say(piece@),
    {
        self.func_str.append(piece);
    }
}

/// The shape names differ from each other.
pub proof fn lemma_shape_names_differ()
    ensures
        "Binary"@ != "BinaryImm"@,
        "Binary"@ != "IntCompareImm"@,
        "IntCompare"@ != "BinaryImm"@,
        "IntCompare"@ != "IntCompareImm"@,
        "Unary"@ != "BinaryImm"@,
        "Unary"@ != "IntCompareImm"@,
        "Param"@ != "Result"@,
{
    reveal_strlit("Binary");
    reveal_strlit("BinaryImm");
    reveal_strlit("IntCompare");
    reveal_strlit("IntCompareImm");
    reveal_strlit("Unary");
    reveal_strlit("Param");
    reveal_strlit("Result");
    assert("Binary"@.len() == 6);
    assert("BinaryImm"@.len() == 9);
    assert("IntCompare"@.len() == 10);
    assert("IntCompareImm"@.len() == 13);
    assert("Unary"@.len() == 5);
    assert("Param"@.len() == 5);
    assert("Result"@.len() == 6);
}

fn bracket_suffix(value: &String) -> (res: String)
    ensures
        res@ == suffix_from_char(value@, '[', 0),
{
    let s = value.as_str();
    let n = s.unicode_len();
    let mut i: usize = 0;
    while i < n
        invariant
            i <= n,
            n == s@.len(),
            s@ == value@,
            suffix_from_char(value@, '[', 0) == suffix_from_char(value@, '[', i as nat),
        decreases n - i,
    {
        if s.get_char(i) == '[' {
            return String::from_str(s.substring_char(i, n));
        }
        i += 1;
    }
    String::new()
}

impl MatcherState {
    /// The state before anything is generated.
    pub fn new() -> (state: MatcherState)
        ensures
            state@ == MatcherView::initial(),
    {
        MatcherState {
            opt: Opt::new(),
            arg_str: String::from_str(""),
            arg_counter: 0,
            const_counter: 0,
            acted: Ghost(Seq::empty()),
        }
    }

    fn visit_selector(&mut self, head: &str, level: usize)
        ensures
            final(self)@ == old(self)@.visited_selector(head@, level),
    {
        if !self.opt.current_entity.as_str().is_empty() {
            self.opt.say(head);
            self.opt.enter_scope(ScopeType::scope_match, level);
        }
    }

    fn visit_instdata(&mut self, level: usize)
        ensures
            final(self)@ == old(self)@.visited_instdata(level),
    {
        let mut head = String::from_str("match pos.func.dfg[");
        head.append(self.opt.current_entity.as_str());
        head.append("]");
        self.visit_selector(head.as_str(), level);
    }

    fn visit_shape(&mut self, value: &String, level: usize)
        requires
            value@ == "Var"@ || (shape_pattern(value@) is Some && old(self).arg_counter < u32::MAX && (
            shape_has_immediate(value@) ==> old(self).const_counter < u32::MAX)),
        ensures
            final(self)@ == old(self)@.visited_shape(value@, level),
    {
        proof {
            lemma_shape_names_differ();
        }
        self.opt.clear_level(level);
        if text_is(value, "Var") {
            return ;
        }
        let list = text_is(value, "Binary") || text_is(value, "IntCompare");
        let immediate = text_is(value, "BinaryImm") || text_is(value, "IntCompareImm");
        let pattern = if text_is(value, "Binary") {
            "InstructionData::Binary { opcode, args }"
        } else if text_is(value, "IntCompare") {
            "InstructionData::IntCompare { opcode, cond, args }"
        } else if text_is(value, "Unary") {
            "InstructionData::Unary { opcode, arg }"
        } else if text_is(value, "BinaryImm") {
            "InstructionData::BinaryImm { opcode, arg, imm }"
        } else {
            "InstructionData::IntCompareImm { opcode, cond, arg, imm }"
        };
        self.opt.say(pattern);
        self.opt.enter_scope(ScopeType::scope_case, level);
        self.opt.set_entity(String::from_str("opcode"));
        self.opt.say("let args_");
        self.arg_counter = self.opt.get_argument_counter(self.arg_counter);
        if list {
            self.opt.say(" = args;\n");
        } else {
            self.opt.say(" = arg;\n");
        }
        if immediate {
            self.const_counter = self.opt.get_const_counter(self.const_counter);
            let mut rhs_arg = String::from_str("rhs_");
            rhs_arg.append(decimal_string(self.const_counter as u128).as_str());
            self.opt.say("let ");
            self.opt.say(rhs_arg.as_str());
            self.opt.say(" : i64 = imm.into();\n");
            self.opt.push_to_const_stack(rhs_arg);
        }
    }

    fn visit_valdef(&mut self, value: &String, level: usize)
        requires
            value@ == "Result"@ ==> level >= 1,
        ensures
            final(self)@ == old(self)@.visited_valdef(value@, level),
    {
        proof {
            lemma_shape_names_differ();
        }
        self.opt.clear_level(level);
        if text_is(value, "Param") {
            self.arg_str = String::from_str("");
            self.opt.set_entity(String::from_str(""));
        } else if text_is(value, "Result") {
            self.opt.say(self.arg_str.as_str());
            self.arg_str = String::from_str("");
            self.opt.enter_scope(ScopeType::scope_match, level - 1);
            self.opt.say("\nValueDef::Result(arg_ty, _)");
            self.opt.enter_scope(ScopeType::scope_case, level);
            self.opt.set_entity(String::from_str("arg_ty"));
        }
    }

    fn visit_opcode(&mut self, value: &String, level: usize)
        requires
            value@ == "Var"@ || opcode_arm(value@) is Some,
        ensures
            final(self)@ == old(self)@.visited_opcode(value@, level),
    {
        self.opt.clear_level(level);
        if text_is(value, "Var") {
            return ;
        }
        let arm = opcode_arm_text(value).unwrap();
        self.opt.say(arm);
        self.opt.enter_scope(ScopeType::scope_case, level);
    }

    fn visit_cond(&mut self, value: &String, level: usize)
        ensures
            final(self)@ == old(self)@.visited_cond(value@, level),
    {
        self.opt.clear_level(level);
        let cond = get_cond_name(value.clone());
        self.opt.append(cond);
        self.opt.enter_scope(ScopeType::scope_case, level);
    }

    fn visit_args(&mut self, value: &String)
        ensures
            final(self)@ == old(self)@.visited_args(value@),
    {
        let mut optional_argstr = String::from_str("match pos.func.dfg.value_def(");
        optional_argstr.append("args_");
        optional_argstr.append(decimal_string(self.arg_counter as u128).as_str());
        optional_argstr.append(bracket_suffix(value).as_str());
        optional_argstr.append(")");
        proof {
            assert(optional_argstr@ =~= arg_match_text(value@, self.arg_counter));
        }
        if !(self.arg_str == optional_argstr) {
            self.arg_str.append(optional_argstr.as_str());
        }
    }

    fn visit_const(&mut self, value: &String, level: usize)
        requires
            old(self).const_counter < u32::MAX,
        ensures
            final(self)@ == old(self)@.visited_const(value@, level),
    {
        self.opt.clear_level(level);
        self.const_counter = self.opt.get_const_counter(self.const_counter);
        let rhs_arg = self.opt.pop_from_const_stack();
        self.opt.say("if ");
        self.opt.say(rhs_arg.as_str());
        self.opt.say(" == ");
        self.opt.say(value.as_str());
        self.opt.enter_scope(ScopeType::scope_func, level);
    }

    /// Whether `node` can be rendered in this state.
    pub fn can_visit(&self, node: &Node, table: &HashMap<usize, Vec<CtonInst>>) -> (allowed: bool)
        ensures
            allowed == self@.can_step(node@, table@),
    {
        let value = &node.node_value;
        let kind_allowed = match node.node_type {
            NodeType::InstType => {
                if text_is(value, "Var") {
                    true
                } else {
                    let known = text_is(value, "Binary") || text_is(value, "IntCompare") || text_is(value, "Unary")
                        || text_is(value, "BinaryImm") || text_is(value, "IntCompareImm");
                    let immediate = text_is(value, "BinaryImm") || text_is(value, "IntCompareImm");
                    known && self.arg_counter < u32::MAX && (!immediate || self.const_counter < u32::MAX)
                }
            },
            NodeType::MatchValDef => !text_is(value, "Result") || node.level >= 1,
            NodeType::Opcode => text_is(value, "Var") || opcode_arm_text(value).is_some(),
            NodeType::Cond => text_is(value, "eq") || text_is(value, "ne") || text_is(value, "ult") || text_is(
                value,
                "ule",
            ) || text_is(value, "slt") || text_is(value, "sle"),
            NodeType::MatchConst => self.const_counter < u32::MAX,
            NodeType::MatchNone => false,
            _ => true,
        };
        let action_allowed = match table.get(&node.id) {
            Some(rhs) => rhs.len() >= 1,
            None => true,
        };
        kind_allowed && action_allowed
    }

    /// Renders one node: its own text, then its replacement if the table
    /// has one for it.
    pub fn visit_node(&mut self, node: &Node, table: &HashMap<usize, Vec<CtonInst>>, count: u32)
        requires
            old(self)@.can_step(node@, table@),
        ensures
            final(self)@ == old(self)@.step(node@, table@, count),
    {
        let level = node.level;
        match node.node_type {
            NodeType::MatchRoot => {
                self.opt.generate_header(count);
                self.opt.enter_scope(ScopeType::scope_func, level);
            },
            NodeType::MatchInstData => {
                self.visit_instdata(level);
            },
            NodeType::InstType => {
                self.visit_shape(&node.node_value, level);
            },
            NodeType::MatchValDef => {
                self.visit_valdef(&node.node_value, level);
            },
            NodeType::MatchOpcode => {
                self.visit_selector("match opcode", level);
            },
            NodeType::Opcode => {
                self.visit_opcode(&node.node_value, level);
            },
            NodeType::MatchCond => {
                self.visit_selector("match cond", level);
            },
            NodeType::Cond => {
                self.visit_cond(&node.node_value, level);
            },
            NodeType::MatchArgs => {
                self.visit_args(&node.node_value);
            },
            NodeType::MatchPlainConst => {},
            NodeType::MatchConst => {
                self.visit_const(&node.node_value, level);
            },
            NodeType::MatchNone => {},
        }
        match table.get(&node.id) {
            Some(rhs) => {
                self.opt.take_action(clone_insts(rhs));
                self.acted = Ghost(self.acted@.push(node.id));
            },
            None => {},
        }
    }

    /// Closes every block that is still open.
    pub fn finish(&mut self)
        ensures
            final(self)@ == old(self)@.finished(),
            final(self)@.opt.scopes.len() == 0,
    {
        proof {
            lemma_closed_from(self@.opt, 0);
        }
        self.opt.pop_and_exit_scope_from(0);
    }
}

/// The list that is rendered: a list that begins with a root is taken as
/// it is. Any other list gets a root in front, whose one link is to the
/// list's first node, so that the first node stands one level below the
/// root.
pub open spec fn prepared(nodes: Seq<NodeView>) -> Seq<NodeView> {
    if nodes.len() == 0 {
        seq![root_node()]
    } else if nodes[0].node_type == NodeType::MatchRoot {
        nodes
    } else {
        seq![linked_to(root_node(), nodes[0].id)] + nodes
    }
}

/// Whether every link of the list is to the id of a node of the list.
pub open spec fn links_present(nodes: Seq<NodeView>) -> bool {
    forall|p: int, k: int|
        0 <= p < nodes.len() && 0 <= k < link_count(nodes[p]) ==> has_id(nodes, (#[trigger] nodes[p].next->0[k]).index)
}

/// Whether the list is consistent: no two of its nodes share an id, and
/// every link is to the id of one of its nodes.
pub open spec fn is_consistent(nodes: Seq<NodeView>) -> bool {
    ids_distinct(nodes) && links_present(nodes)
}

/// The list after the nodes at the positions `from .. upto` have, in
/// order, each given its level plus one to its successors.
pub open spec fn leveled_from(nodes: Seq<NodeView>, from: nat, upto: nat) -> Seq<NodeView>
    decreases upto - from,
{
    if from >= upto {
        nodes
    } else {
        leveled_from(with_levels_below(nodes, from as int, nodes[from as int].level), from + 1, upto)
    }
}

/// Whether the levels that the nodes at `from .. upto` hand down fit the
/// machine's numbers.
pub open spec fn can_level_from(nodes: Seq<NodeView>, from: nat, upto: nat) -> bool
    decreases upto - from,
{
    if from >= upto {
        true
    } else {
        nodes[from as int].level < usize::MAX && can_level_from(
            with_levels_below(nodes, from as int, nodes[from as int].level),
            from + 1,
            upto,
        )
    }
}

/// The list with its levels assigned: every node, in the order of the
/// list, gives its level plus one to its successors.
pub open spec fn leveled(nodes: Seq<NodeView>) -> Seq<NodeView> {
    leveled_from(nodes, 0, nodes.len())
}

/// Whether a list of nodes and a table of replacements can be rendered:
/// the list with its root is consistent, the levels that its nodes hand
/// down fit the machine's numbers, and every node can be rendered in its
/// turn.
pub open spec fn can_generate(nodes: Seq<NodeView>, table: Map<usize, Vec<CtonInst>>, count: u32) -> bool {
    &&& is_consistent(prepared(nodes))
    &&& can_level_from(prepared(nodes), 0, prepared(nodes).len())
    &&& MatcherView::initial().can_run_from(leveled(prepared(nodes)), table, count, 0)
}

/// The state at the end of a generation: after every node of the list
/// with its levels assigned, in order, and after closing every block that
/// is still open.
pub open spec fn final_state(nodes: Seq<NodeView>, table: Map<usize, Vec<CtonInst>>, count: u32) -> MatcherView {
    MatcherView::initial().run_from(leveled(prepared(nodes)), table, count, 0).finished()
}

/// The text of the dispatch function number `count` for a list of nodes
/// and a table of replacements.
pub open spec fn generated_text(nodes: Seq<NodeView>, table: Map<usize, Vec<CtonInst>>, count: u32) -> Seq<char> {
    final_state(nodes, table, count).opt.text
}

fn assign_levels(opt: &mut Opt, nodes: &mut Vec<Node>) -> (ok: bool)
    ensures
        *final(opt) == *old(opt),
        ok == can_level_from(node_views(old(nodes)@), 0, old(nodes)@.len() as nat),
        ok ==> node_views(final(nodes)@) == leveled(node_views(old(nodes)@)),
{
    let ghost start = node_views(nodes@);
    let total = nodes.len();
    let mut n: usize = 0;
    while n < total
        invariant
            n <= total,
            total == nodes@.len(),
            total == start.len(),
            start == node_views(old(nodes)@),
            total == old(nodes)@.len(),
            *opt == *old(opt),
            leveled_from(node_views(nodes@), n as nat, total as nat) == leveled_from(start, 0, total as nat),
            can_level_from(node_views(nodes@), n as nat, total as nat) == can_level_from(start, 0, total as nat),
        decreases total - n,
    {
        let current = nodes[n].level;
        proof {
            assert(node_views(nodes@)[n as int] == nodes@[n as int]@);
        }
        if current == usize::MAX {
            return false;
        }
        opt.set_level_of_all_child_nodes(nodes, n, current);
        n += 1;
    }
    true
}

/// Whether no two nodes of the list have the same id.
pub fn ids_are_distinct(nodes: &Vec<Node>) -> (distinct: bool)
    ensures
        distinct == ids_distinct(node_views(nodes@)),
{
    let ghost views = node_views(nodes@);
    let mut i: usize = 0;
    while i < nodes.len()
        invariant
            i <= nodes@.len(),
            views == node_views(nodes@),
            forall|a: int, b: int| 0 <= a < b < views.len() && a < i ==> (#[trigger] views[a]).id != (
            #[trigger] views[b]).id,
        decreases nodes@.len() - i,
    {
        let mut j: usize = i + 1;
        while j < nodes.len()
            invariant
                i < j <= nodes@.len(),
                views == node_views(nodes@),
                forall|b: int| i < b < j ==> views[i as int].id != (#[trigger] views[b]).id,
            decreases nodes@.len() - j,
        {
            proof {
                assert(views[i as int] == nodes@[i as int]@);
                assert(views[j as int] == nodes@[j as int]@);
            }
            if nodes[i].id == nodes[j].id {
                return false;
            }
            j += 1;
        }
        i += 1;
    }
    true
}

/// Whether every link of the list is to the id of a node of the list.
pub fn links_are_present(nodes: &Vec<Node>) -> (present: bool)
    ensures
        present == links_present(node_views(nodes@)),
{
    let ghost views = node_views(nodes@);
    let mut p: usize = 0;
    while p < nodes.len()
        invariant
            p <= nodes@.len(),
            views == node_views(nodes@),
            forall|a: int, k: int|
                0 <= a < p && 0 <= k < link_count(views[a]) ==> has_id(views, (#[trigger] views[a].next->0[k]).index),
        decreases nodes@.len() - p,
    {
        proof {
            assert(views[p as int] == nodes@[p as int]@);
        }
        match &nodes[p].next {
            Some(links) => {
                let mut k: usize = 0;
                while k < links.len()
                    invariant
                        k <= links@.len(),
                        p < nodes@.len(),
                        views == node_views(nodes@),
                        views[p as int].next == Some(links@),
                        forall|c: int| 0 <= c < k ==> has_id(views, (#[trigger] links@[c]).index),
                    decreases links@.len() - k,
                {
                    let id = links[k].index;
                    match find_position(nodes, id) {
                        Some(at) => {
                            proof {
                                lemma_first_with_id(views, id, 0);
                            }
                        },
                        None => {
                            proof {
                                if has_id(views, id) {
                                    let at = choose|at: int| 0 <= at < views.len() && (#[trigger] views[at]).id == id;
                                    lemma_first_with_id_finds(views, id, 0, at);
                                }
                                assert(!has_id(views, (views[p as int].next->0[k as int]).index));
                            }
                            return false;
                        },
                    }
                    k += 1;
                }
            },
            None => {},
        }
        p += 1;
    }
    true
}

fn render(nodes: Vec<Node>, rhs: &HashMap<usize, Vec<CtonInst>>, count: u32) -> (res: Option<String>)
    ensures
        res is Some <==> can_generate(node_views(nodes@), rhs@, count),
        match res {
            Some(text) => text@ == generated_text(node_views(nodes@), rhs@, count),
            None => true,
        },
{
    let ghost given = node_views(nodes@);
    let mut list = nodes;
    let mut state = MatcherState::new();
    if list.len() == 0 {
        let root = state.opt.build_root_node();
        list.push(root);
        proof {
            assert(node_views(list@) =~= seq![root_node()]);
        }
    } else if list[0].node_type != NodeType::MatchRoot {
        let first = list[0].id;
        let root = state.opt.build_root_node();
        let mut links: Vec<NodeID> = Vec::new();
        links.push(NodeID { index: first });
        let mut root = root;
        root.next = Some(links);
        list.insert(0, root);
        proof {
            assert(given[0] == nodes@[0]@);
            assert(node_views(list@) =~= seq![linked_to(root_node(), given[0].id)] + given);
        }
    } else {
        proof {
            assert(given[0] == nodes@[0]@);
        }
    }
    proof {
        assert(node_views(list@) == prepared(given));
    }
    if !ids_are_distinct(&list) || !links_are_present(&list) {
        return None;
    }
    if !assign_levels(&mut state.opt, &mut list) {
        return None;
    }
    let ghost ready = node_views(list@);
    let mut node: usize = 0;
    while node < list.len()
        invariant
            node <= list@.len(),
            given == node_views(nodes@),
            ready == node_views(list@),
            ready == leveled(prepared(given)),
            can_generate(given, rhs@, count) == MatcherView::initial().can_run_from(ready, rhs@, count, 0),
            state@.run_from(ready, rhs@, count, node as nat) == MatcherView::initial().run_from(ready, rhs@, count, 0),
            state@.can_run_from(ready, rhs@, count, node as nat) == MatcherView::initial().can_run_from(
                ready,
                rhs@,
                count,
                0,
            ),
        decreases list@.len() - node,
    {
        proof {
            assert(ready[node as int] == list@[node as int]@);
        }
        if !state.can_visit(&list[node], rhs) {
            return None;
        }
        state.visit_node(&list[node], rhs, count);
        node += 1;
    }
    state.finish();
    Some(state.opt.func_str)
}

/// Renders a list of nodes and the table of replacements as the text of
/// the dispatch function number `count`, if they can be rendered.
///
/// The list is that of one rule's chain or of a merged tree, in the order
/// in which the nodes are to be visited.
pub fn try_generate_baseline_matcher(nodes: Vec<Node>, rhs: HashMap<usize, Vec<CtonInst>>, count: u32) -> (res:
    Option<String>)
    ensures
        res is Some <==> can_generate(node_views(nodes@), rhs@, count),
        match res {
            Some(text) => text@ == generated_text(node_views(nodes@), rhs@, count),
            None => true,
        },
{
    render(nodes, &rhs, count)
}

/// Renders a list of nodes and the table of replacements as the text of
/// the dispatch function number `count`.
///
/// Every node is visited once, in the order of the list. A node opens its
/// block at its level after what was open at that level has been closed,
/// a node with a replacement is followed by the replacement's text, and
/// at the end every block that is still open is closed.
pub fn generate_baseline_matcher(nodes: Vec<Node>, rhs: HashMap<usize, Vec<CtonInst>>, count: u32) -> (text:
    String)
    requires
        can_generate(node_views(nodes@), rhs@, count),
    ensures
        text@ == generated_text(node_views(nodes@), rhs@, count),
{
    render(nodes, &rhs, count).unwrap()
}

/// Closing from a position leaves exactly the blocks below it open: no
/// more blocks are closed than are open.
pub proof fn lemma_closed_from(v: OptView, from: nat)
    ensures
        v.closed_from(from).scopes == if from <= v.scopes.len() {
            v.scopes.subrange(0, from as int)
        } else {
            v.scopes
        },
        v.closed_from(from).entity == v.entity,
        v.closed_from(from).consts == v.consts,
{
    if from == v.scopes.len() {
        assert(v.scopes.subrange(0, from as int) =~= v.scopes);
    }
}

/// At the end of a generation no block is open.
pub proof fn lemma_generation_balanced(nodes: Seq<NodeView>, table: Map<usize, Vec<CtonInst>>, count: u32)
    ensures
        final_state(nodes, table, count).opt.scopes.len() == 0,
{
    lemma_closed_from(MatcherView::initial().run_from(leveled(prepared(nodes)), table, count, 0).opt, 0);
}

/// One node leaves at most one block open at each level where this held
/// before: every block is opened by entering it.
pub proof fn lemma_step_one_per_level(
    state: MatcherView,
    node: NodeView,
    table: Map<usize, Vec<CtonInst>>,
    count: u32,
)
    requires
        one_per_level(state.opt.scopes),
    ensures
        one_per_level(state.step(node, table, count).opt.scopes),
{
    assert forall|v: OptView, scope: ScopeType, level: usize| one_per_level(v.scopes) implies one_per_level(
        #[trigger] v.entered(scope, level).scopes,
    ) by {
        lemma_entered_one_per_level(v, scope, level);
    }
    assert forall|v: OptView, level: usize| one_per_level(v.scopes) implies one_per_level(
        #[trigger] v.cleared(level).scopes,
    ) by {
        lemma_closed_one_per_level(v, level_index(v.scopes, level));
    }
    let opt = state.opt;
    let level = node.level;
    let value = node.node_value;
    let cleared = opt.cleared(level);
    assert(one_per_level(cleared.scopes));
    match node.node_type {
        NodeType::MatchRoot => {
            assert(one_per_level(opt.say(header_text(count)).entered(ScopeType::scope_func, level).scopes));
        },
        NodeType::MatchInstData => {
            let head = "match pos.func.dfg["@ + opt.entity + "]"@;
            assert(one_per_level(opt.say(head).entered(ScopeType::scope_match, level).scopes));
        },
        NodeType::InstType => {
            if value != "Var"@ {
                let arm = cleared.say(shape_pattern(value).unwrap()).entered(ScopeType::scope_case, level);
                assert(one_per_level(arm.scopes));
            }
        },
        NodeType::MatchValDef => {
            if value != "Param"@ && value == "Result"@ {
                let outer = cleared.say(state.arg_str).entered(ScopeType::scope_match, (level - 1) as usize);
                assert(one_per_level(outer.scopes));
                let arm = outer.say("\nValueDef::Result(arg_ty, _)"@).entered(ScopeType::scope_case, level);
                assert(one_per_level(arm.scopes));
            }
        },
        NodeType::MatchOpcode => {
            assert(one_per_level(opt.say("match opcode"@).entered(ScopeType::scope_match, level).scopes));
        },
        NodeType::Opcode => {
            if value != "Var"@ {
                assert(one_per_level(
                    cleared.say(opcode_arm(value).unwrap()).entered(ScopeType::scope_case, level).scopes,
                ));
            }
        },
        NodeType::MatchCond => {
            assert(one_per_level(opt.say("match cond"@).entered(ScopeType::scope_match, level).scopes));
        },
        NodeType::Cond => {
            assert(one_per_level(cleared.say(cond_text(value)).entered(ScopeType::scope_case, level).scopes));
        },
        NodeType::MatchConst => {
            let name = if cleared.consts.len() > 0 {
                cleared.consts.last()
            } else {
                ""@
            };
            let rest = if cleared.consts.len() > 0 {
                cleared.consts.drop_last()
            } else {
                cleared.consts
            };
            let guard = OptView { consts: rest, ..cleared }.say("if "@).say(name).say(" == "@).say(value);
            assert(one_per_level(guard.entered(ScopeType::scope_func, level).scopes));
        },
        _ => {},
    }
}

/// Throughout a generation at most one block is open at each level.
pub proof fn lemma_run_one_per_level(
    state: MatcherView,
    nodes: Seq<NodeView>,
    table: Map<usize, Vec<CtonInst>>,
    count: u32,
    from: nat,
)
    requires
        one_per_level(state.opt.scopes),
    ensures
        one_per_level(state.run_from(nodes, table, count, from).opt.scopes),
    decreases nodes.len() - from,
{
    if from < nodes.len() {
        lemma_step_one_per_level(state, nodes[from as int], table, count);
        lemma_run_one_per_level(state.step(nodes[from as int], table, count), nodes, table, count, from + 1);
    }
}

/// The ids of the nodes from position `from` on that have a replacement,
/// in order.
pub open spec fn actionable_ids(nodes: Seq<NodeView>, table: Map<usize, Vec<CtonInst>>, from: nat) -> Seq<usize>
    decreases nodes.len() - from,
{
    if from >= nodes.len() {
        Seq::empty()
    } else if table.contains_key(nodes[from as int].id) {
        seq![nodes[from as int].id] + actionable_ids(nodes, table, from + 1)
    } else {
        actionable_ids(nodes, table, from + 1)
    }
}

/// How often `x` occurs in `s`.
pub open spec fn occurrences(s: Seq<usize>, x: usize) -> nat
    decreases s.len(),
{
    if s.len() == 0 {
        0
    } else {
        occurrences(s.drop_first(), x) + if s[0] == x {
            1nat
        } else {
            0nat
        }
    }
}

/// Running over a list renders the replacement of exactly those of its
/// nodes that have one, each at its visit and in the order of the list.
pub proof fn lemma_run_acts_on_actionable(
    state: MatcherView,
    nodes: Seq<NodeView>,
    table: Map<usize, Vec<CtonInst>>,
    count: u32,
    from: nat,
)
    ensures
        state.run_from(nodes, table, count, from).acted == state.acted + actionable_ids(nodes, table, from),
    decreases nodes.len() - from,
{
    if from >= nodes.len() {
        assert(state.acted + Seq::<usize>::empty() =~= state.acted);
    } else {
        let node = nodes[from as int];
        let next = state.step(node, table, count);
        lemma_run_acts_on_actionable(next, nodes, table, count, from + 1);
        assert(state.visited(node, count).acted == state.acted);
        if table.contains_key(node.id) {
            assert(state.acted.push(node.id) + actionable_ids(nodes, table, from + 1) =~= state.acted + (seq![
                node.id,
            ] + actionable_ids(nodes, table, from + 1)));
        }
    }
}

/// In a list without repeated ids, the id of a node with a replacement
/// occurs exactly once among the ids that are acted on, and any other id
/// not at all.
pub proof fn lemma_actionable_once(nodes: Seq<NodeView>, table: Map<usize, Vec<CtonInst>>, from: nat, id: usize)
    requires
        ids_distinct(nodes),
    ensures
        occurrences(actionable_ids(nodes, table, from), id) == if table.contains_key(id) && exists|i: int|
            from <= i < nodes.len() && (#[trigger] nodes[i]).id == id {
            1nat
        } else {
            0nat
        },
    decreases nodes.len() - from,
{
    if from < nodes.len() {
        lemma_actionable_once(nodes, table, from + 1, id);
        let here = nodes[from as int].id;
        let rest = actionable_ids(nodes, table, from + 1);
        if table.contains_key(here) {
            assert((seq![here] + rest).drop_first() =~= rest);
        }
        if here == id {
            assert(!exists|i: int| from + 1 <= i < nodes.len() && (#[trigger] nodes[i]).id == id);
        } else {
            assert((exists|i: int| from <= i < nodes.len() && (#[trigger] nodes[i]).id == id) == (exists|i: int|
                from + 1 <= i < nodes.len() && (#[trigger] nodes[i]).id == id)) by {
                if exists|i: int| from <= i < nodes.len() && (#[trigger] nodes[i]).id == id {
                    let i = choose|i: int| from <= i < nodes.len() && (#[trigger] nodes[i]).id == id;
                    assert(from + 1 <= i);
                }
            }
        }
    }
}

/// Assigning levels changes neither the number of nodes nor their ids,
/// kinds and values.
pub proof fn lemma_leveled_keeps_ids(nodes: Seq<NodeView>, from: nat, upto: nat)
    requires
        upto <= nodes.len(),
    ensures
        leveled_from(nodes, from, upto).len() == nodes.len(),
        forall|i: int|
            0 <= i < nodes.len() ==> (#[trigger] leveled_from(nodes, from, upto)[i]).id == nodes[i].id
                && leveled_from(nodes, from, upto)[i].node_type == nodes[i].node_type && leveled_from(
                nodes,
                from,
                upto,
            )[i].node_value == nodes[i].node_value,
    decreases upto - from,
{
    if from < upto {
        let next = with_levels_below(nodes, from as int, nodes[from as int].level);
        match nodes[from as int].next {
            Some(links) => {
                lemma_child_levels_keep_ids(nodes, links, 0, (nodes[from as int].level + 1) as usize);
            },
            None => {},
        }
        lemma_leveled_keeps_ids(next, from + 1, upto);
    }
}

/// Giving levels to the targets of links changes neither the number of
/// nodes nor their ids, kinds and values.
pub proof fn lemma_child_levels_keep_ids(nodes: Seq<NodeView>, links: Seq<NodeID>, from: nat, level: usize)
    ensures
        with_child_levels(nodes, links, from, level).len() == nodes.len(),
        forall|i: int|
            0 <= i < nodes.len() ==> (#[trigger] with_child_levels(nodes, links, from, level)[i]).id == nodes[i].id
                && with_child_levels(nodes, links, from, level)[i].node_type == nodes[i].node_type
                && with_child_levels(nodes, links, from, level)[i].node_value == nodes[i].node_value,
    decreases links.len() - from,
{
    if from < links.len() {
        let id = links[from as int].index;
        if first_with_id(nodes, id) is Some {
            lemma_first_with_id(nodes, id, 0);
        }
        lemma_child_levels_keep_ids(with_level_at_id(nodes, id, level), links, from + 1, level);
    }
}

/// A generation visits every node of its list once and renders the
/// replacement of exactly the nodes that have one: the ids acted on are
/// those of the list's nodes with a replacement, in the order of the
/// list. Where no two nodes share an id, the replacement of each such
/// node is rendered exactly once.
pub proof fn lemma_generation_acts_once(nodes: Seq<NodeView>, table: Map<usize, Vec<CtonInst>>, count: u32, id: usize)
    ensures
        final_state(nodes, table, count).acted == actionable_ids(prepared(nodes), table, 0),
        ids_distinct(prepared(nodes)) ==> occurrences(final_state(nodes, table, count).acted, id) == if table.contains_key(
            id,
        ) && exists|i: int| 0 <= i < prepared(nodes).len() && (#[trigger] prepared(nodes)[i]).id == id {
            1nat
        } else {
            0nat
        },
{
    let list = prepared(nodes);
    let ready = leveled(list);
    lemma_leveled_keeps_ids(list, 0, list.len());
    lemma_run_acts_on_actionable(MatcherView::initial(), ready, table, count, 0);
    lemma_same_ids_same_actionable(list, ready, table, 0);
    assert(Seq::<usize>::empty() + actionable_ids(ready, table, 0) =~= actionable_ids(ready, table, 0));
    if ids_distinct(list) {
        lemma_actionable_once(list, table, 0, id);
    }
}

/// Lists with the same ids have the same ids with a replacement.
pub proof fn lemma_same_ids_same_actionable(
    a: Seq<NodeView>,
    b: Seq<NodeView>,
    table: Map<usize, Vec<CtonInst>>,
    from: nat,
)
    requires
        a.len() == b.len(),
        forall|i: int| 0 <= i < a.len() ==> (#[trigger] b[i]).id == a[i].id,
    ensures
        actionable_ids(a, table, from) == actionable_ids(b, table, from),
    decreases a.len() - from,
{
    if from < a.len() {
        lemma_same_ids_same_actionable(a, b, table, from + 1);
        assert(b[from as int].id == a[from as int].id);
    }
}

/// Whether a node of the list has the id `id` and the level `level`.
pub open spec fn has_node_at_level(nodes: Seq<NodeView>, id: usize, level: usize) -> bool {
    exists|q: int| 0 <= q < nodes.len() && (#[trigger] nodes[q]).id == id && nodes[q].level == level
}

/// Giving a level to the targets of links that have it already changes
/// nothing.
pub proof fn lemma_child_levels_unchanged(nodes: Seq<NodeView>, links: Seq<NodeID>, from: nat, level: usize)
    requires
        ids_distinct(nodes),
        forall|k: int| from <= k < links.len() ==> has_node_at_level(nodes, (#[trigger] links[k]).index, level),
    ensures
        with_child_levels(nodes, links, from, level) == nodes,
    decreases links.len() - from,
{
    if from < links.len() {
        let id = links[from as int].index;
        assert(has_node_at_level(nodes, id, level));
        let q = choose|q: int| 0 <= q < nodes.len() && (#[trigger] nodes[q]).id == id && nodes[q].level == level;
        lemma_first_with_id_finds(nodes, id, 0, q);
        lemma_first_with_id(nodes, id, 0);
        let at = first_with_id(nodes, id)->0 as int;
        assert(at == q) by {
            if at < q {
                assert(nodes[at].id != nodes[q].id);
            } else if q < at {
                assert(nodes[q].id != nodes[at].id);
            }
        }
        assert(with_level_at_id(nodes, id, level) =~= nodes);
        lemma_child_levels_unchanged(nodes, links, from + 1, level);
    }
}

/// Where every link of a list lands on a node one level deeper and no
/// two nodes share an id, assigning the levels changes nothing: the
/// levels of the list are those that its links hand down.
pub proof fn lemma_leveled_unchanged(nodes: Seq<NodeView>, from: nat)
    requires
        ids_distinct(nodes),
        links_agree(nodes),
        forall|i: int| 0 <= i < nodes.len() ==> (#[trigger] nodes[i]).level < usize::MAX,
    ensures
        leveled_from(nodes, from, nodes.len()) == nodes,
    decreases nodes.len() - from,
{
    if from < nodes.len() {
        let node = nodes[from as int];
        match node.next {
            Some(links) => {
                assert forall|k: int| 0 <= k < links.len() implies has_node_at_level(
                    nodes,
                    (#[trigger] links[k]).index,
                    (node.level + 1) as usize,
                ) by {
                    assert(link_lands(nodes, from as int, k));
                }
                lemma_child_levels_unchanged(nodes, links, 0, (node.level + 1) as usize);
            },
            None => {},
        }
        lemma_leveled_unchanged(nodes, from + 1);
    }
}

/// A merged tree whose links land one level deeper and whose ids are
/// unique is rendered at the levels that it holds.
pub proof fn lemma_merged_tree_keeps_levels(view: MergedView)
    requires
        view.wf(),
        view.tree.len() > 0,
        view.tree.len() <= usize::MAX,
        ids_distinct(view.tree),
        links_agree(view.tree),
    ensures
        leveled(prepared(view.tree)) == view.tree,
{
    assert forall|i: int| 0 <= i < view.tree.len() implies (#[trigger] view.tree[i]).level < usize::MAX by {
        lemma_level_bounded(view, i);
    }
    lemma_leveled_unchanged(view.tree, 0);
}

/// Whether `text` begins with `start`.
pub open spec fn begins_with(text: Seq<char>, start: Seq<char>) -> bool {
    start.len() <= text.len() && text.subrange(0, start.len() as int) == start
}

/// Whether `part` stands somewhere in `text`.
pub open spec fn holds_part(text: Seq<char>, part: Seq<char>) -> bool {
    exists|at: int| 0 <= at <= text.len() - part.len() && #[trigger] text.subrange(at, at + part.len()) == part
}

/// A text that is continued begins as it began.
pub proof fn lemma_begins_with_more(text: Seq<char>, more: Seq<char>, start: Seq<char>)
    requires
        begins_with(text, start),
    ensures
        begins_with(text + more, start),
{
    assert((text + more).subrange(0, start.len() as int) =~= text.subrange(0, start.len() as int));
}

/// What stands in the beginning of a text stands in the text.
pub proof fn lemma_holds_part_of_start(text: Seq<char>, start: Seq<char>, part: Seq<char>)
    requires
        begins_with(text, start),
        holds_part(start, part),
    ensures
        holds_part(text, part),
{
    let at = choose|at: int| 0 <= at <= start.len() - part.len() && #[trigger] start.subrange(at, at + part.len()) == part;
    assert(text.subrange(at, at + part.len()) =~= start.subrange(at, at + part.len()));
}

/// One node only continues the text.
pub proof fn lemma_step_continues(
    state: MatcherView,
    node: NodeView,
    table: Map<usize, Vec<CtonInst>>,
    count: u32,
    start: Seq<char>,
)
    requires
        begins_with(state.opt.text, start),
    ensures
        begins_with(state.visited(node, count).opt.text, start),
        begins_with(state.step(node, table, count).opt.text, start),
{
    assert forall|v: OptView, piece: Seq<char>| begins_with(v.text, start) implies begins_with(
        #[trigger] v.say(piece).text,
        start,
    ) by {
        lemma_begins_with_more(v.text, piece, start);
    }
    assert forall|v: OptView, scope: ScopeType, level: usize| begins_with(v.text, start) implies begins_with(
        #[trigger] v.entered(scope, level).text,
        start,
    ) by {
        let closing = closing_text(v.scopes, level_index(v.scopes, level));
        lemma_begins_with_more(v.text, closing, start);
        lemma_begins_with_more(v.text + closing, open_text(scope), start);
    }
    assert forall|v: OptView, level: usize| begins_with(v.text, start) implies begins_with(
        #[trigger] v.cleared(level).text,
        start,
    ) by {
        lemma_begins_with_more(v.text, closing_text(v.scopes, level_index(v.scopes, level)), start);
    }
    let opt = state.opt;
    let level = node.level;
    let value = node.node_value;
    let cleared = opt.cleared(level);
    assert(begins_with(cleared.text, start));
    match node.node_type {
        NodeType::MatchRoot => {
            assert(begins_with(opt.say(header_text(count)).text, start));
        },
        NodeType::MatchInstData => {
            assert(begins_with(opt.say("match pos.func.dfg["@ + opt.entity + "]"@).text, start));
        },
        NodeType::InstType => {
            if value != "Var"@ {
                let arm = cleared.say(shape_pattern(value).unwrap()).entered(ScopeType::scope_case, level);
                assert(begins_with(cleared.say(shape_pattern(value).unwrap()).text, start));
                assert(begins_with(arm.text, start));
                let begun = OptView { entity: "opcode"@, ..arm };
                let bound = (state.arg_counter + 1) as u32;
                let named = (state.const_counter + 1) as u32;
                let name = "rhs_"@ + decimal_digits(named as nat);
                assert(begins_with(begun.say("let args_"@).text, start));
                assert(begins_with(begun.say("let args_"@).say(decimal_digits(bound as nat)).text, start));
                let opened = begun.say("let args_"@).say(decimal_digits(bound as nat)).say(shape_binding(value));
                assert(begins_with(opened.text, start));
                assert(begins_with(opened.say("let "@).text, start));
                assert(begins_with(opened.say("let "@).say(name).text, start));
                assert(begins_with(opened.say("let "@).say(name).say(" : i64 = imm.into();\n"@).text, start));
            }
        },
        NodeType::MatchValDef => {
            if value != "Param"@ && value == "Result"@ {
                assert(begins_with(cleared.say(state.arg_str).text, start));
                let outer = cleared.say(state.arg_str).entered(ScopeType::scope_match, (level - 1) as usize);
                assert(begins_with(outer.text, start));
                assert(begins_with(outer.say("\nValueDef::Result(arg_ty, _)"@).text, start));
            }
        },
        NodeType::MatchOpcode => {
            assert(begins_with(opt.say("match opcode"@).text, start));
        },
        NodeType::Opcode => {
            if value != "Var"@ {
                assert(begins_with(cleared.say(opcode_arm(value).unwrap()).text, start));
            }
        },
        NodeType::MatchCond => {
            assert(begins_with(opt.say("match cond"@).text, start));
        },
        NodeType::Cond => {
            assert(begins_with(cleared.say(cond_text(value)).text, start));
        },
        NodeType::MatchConst => {
            let name = if cleared.consts.len() > 0 {
                cleared.consts.last()
            } else {
                ""@
            };
            let rest = if cleared.consts.len() > 0 {
                cleared.consts.drop_last()
            } else {
                cleared.consts
            };
            let held = OptView { consts: rest, ..cleared };
            assert(begins_with(held.say("if "@).text, start));
            assert(begins_with(held.say("if "@).say(name).text, start));
            assert(begins_with(held.say("if "@).say(name).say(" == "@).text, start));
            assert(begins_with(held.say("if "@).say(name).say(" == "@).say(value).text, start));
        },
        _ => {},
    }
    assert(begins_with(state.visited(node, count).opt.text, start));
}

/// The nodes of a list only continue the text.
pub proof fn lemma_run_continues(
    state: MatcherView,
    nodes: Seq<NodeView>,
    table: Map<usize, Vec<CtonInst>>,
    count: u32,
    from: nat,
    start: Seq<char>,
)
    requires
        begins_with(state.opt.text, start),
    ensures
        begins_with(state.run_from(nodes, table, count, from).opt.text, start),
    decreases nodes.len() - from,
{
    if from < nodes.len() {
        lemma_step_continues(state, nodes[from as int], table, count, start);
        lemma_run_continues(state.step(nodes[from as int], table, count), nodes, table, count, from + 1, start);
    }
}

/// The text after a list holds the text of the replacement of each of
/// its nodes that has one.
pub proof fn lemma_run_holds_replacement(
    state: MatcherView,
    nodes: Seq<NodeView>,
    table: Map<usize, Vec<CtonInst>>,
    count: u32,
    from: nat,
    at: int,
)
    requires
        from <= at < nodes.len(),
        table.contains_key(nodes[at].id),
    ensures
        holds_part(
            state.run_from(nodes, table, count, from).opt.text,
            action_text(inst_views(table[nodes[at].id]@)),
        ),
    decreases nodes.len() - from,
{
    let node = nodes[from as int];
    let next = state.step(node, table, count);
    if from < at {
        lemma_run_holds_replacement(next, nodes, table, count, from + 1, at);
    } else {
        let before = state.visited(node, count).opt.text;
        let part = action_text(inst_views(table[node.id]@));
        assert(next.opt.text == before + part);
        assert(next.opt.text.subrange(before.len() as int, before.len() as int + part.len()) =~= part);
        assert(next.opt.text.subrange(0, next.opt.text.len() as int) =~= next.opt.text);
        lemma_run_continues(next, nodes, table, count, from + 1, next.opt.text);
        lemma_holds_part_of_start(state.run_from(nodes, table, count, from).opt.text, next.opt.text, part);
    }
}

/// The generated text holds the text of the replacement of every node of
/// the list that has one.
pub proof fn lemma_generated_text_holds_replacement(
    nodes: Seq<NodeView>,
    table: Map<usize, Vec<CtonInst>>,
    count: u32,
    at: int,
)
    requires
        0 <= at < prepared(nodes).len(),
        table.contains_key(prepared(nodes)[at].id),
    ensures
        holds_part(generated_text(nodes, table, count), action_text(inst_views(table[prepared(nodes)[at].id]@))),
{
    let list = prepared(nodes);
    let ready = leveled(list);
    lemma_leveled_keeps_ids(list, 0, list.len());
    assert(ready[at].id == list[at].id);
    let end = MatcherView::initial().run_from(ready, table, count, 0);
    lemma_run_holds_replacement(MatcherView::initial(), ready, table, count, 0, at);
    assert(end.opt.text.subrange(0, end.opt.text.len() as int) =~= end.opt.text);
    lemma_begins_with_more(end.opt.text, closing_text(end.opt.scopes, 0), end.opt.text);
    lemma_holds_part_of_start(
        generated_text(nodes, table, count),
        end.opt.text,
        action_text(inst_views(table[list[at].id]@)),
    );
}

/// A chain under ids of its own, none of them the root's, is consistent
/// with the root in front: the ids differ, the root's link is to the first
/// node, and every other link is to the next node.
pub proof fn lemma_chain_is_consistent(labels: Seq<NodeLabel>, first: nat)
    requires
        first >= 1,
        first + labels.len() <= usize::MAX + 1,
        labels.len() > 0,
        labels[0].node_type != NodeType::MatchRoot,
    ensures
        is_consistent(prepared(chain_nodes(labels, first))),
{
    let chain = chain_nodes(labels, first);
    let list = prepared(chain);
    assert(list =~= seq![linked_to(root_node(), chain[0].id)] + chain);
    assert forall|i: int| 1 <= i < list.len() implies (#[trigger] list[i]) == chain[i - 1] by {}
    assert forall|i: int, j: int| 0 <= i < j < list.len() implies (#[trigger] list[i]).id != (#[trigger] list[j]).id by {
        assert(list[j] == chain[j - 1]);
        if i > 0 {
            assert(list[i] == chain[i - 1]);
        }
    }
    assert forall|p: int, k: int| 0 <= p < list.len() && 0 <= k < link_count(list[p]) implies has_id(
        list,
        (#[trigger] list[p].next->0[k]).index,
    ) by {
        if p == 0 {
            assert(list[1].id == chain[0].id);
        } else {
            assert(list[p] == chain[p - 1]);
            assert(list[p + 1] == chain[p]);
            assert(list[p + 1].id == list[p].next->0[k].index);
        }
    }
}

/// A merged tree whose ids are unique and whose links land one level
/// deeper is consistent.
pub proof fn lemma_merged_tree_is_consistent(view: MergedView)
    requires
        view.wf(),
        view.tree.len() > 0,
        ids_distinct(view.tree),
        links_agree(view.tree),
    ensures
        is_consistent(prepared(view.tree)),
{
    let tree = view.tree;
    assert forall|p: int, k: int| 0 <= p < tree.len() && 0 <= k < link_count(tree[p]) implies has_id(
        tree,
        (#[trigger] tree[p].next->0[k]).index,
    ) by {
        assert(link_lands(tree, p, k));
    }
}

} // verus!

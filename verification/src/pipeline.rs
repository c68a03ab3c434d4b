//! The pipeline for one group of rules: each rule's left-hand side is
//! expanded into its chain, the chains are folded into one tree, each
//! rule's replacement is entered under the node that completes its match,
//! and the tree is rendered as one dispatch function.
use crate::baseline_matcher::{
    can_generate, final_state, generated_text, is_consistent, lemma_generation_acts_once,
    lemma_merged_tree_is_consistent, lemma_merged_tree_keeps_levels, leveled, occurrences, prepared,
    try_generate_baseline_matcher,
};
use crate::balance::lemma_generated_text_balanced;
use crate::braces::{balanced, never_closes_early};
use crate::chain::{
    chain_nodes, free_text_plain, lemma_chain_ids_distinct, lemma_chain_is_chain, lemma_rule_chain_plain,
    rule_labels,
};
use crate::cliftinstbuilder::{inst_views, CtonInst, CtonInstView};
use crate::lhspatternmatcher::{
    generate_single_tree_patterns, ids_distinct, node_views, rule_is_buildable, NodeView,
};
use crate::mergedtree::{
    has_id, ids_apart, lemma_chains_say_the_same, lemma_merge_keeps_structure, lemma_merged_ids,
    lemma_merged_free_text_plain, lemma_merged_ids_distinct, lemma_merged_links_agree, lemma_merged_wf,
    links_agree, rooted, same_structure,
    MergedArena, MergedView,
};
use std::collections::HashMap;
use vstd::prelude::*;

verus! {

broadcast use vstd::std_specs::hash::group_hash_axioms;

/// One rule in canonical form: the instructions of its left-hand side,
/// with the `Infer` that names what is matched, and the instructions of
/// its replacement.
#[derive(Debug, PartialEq, Eq)]
pub struct Rule {
    pub lhs: Vec<CtonInst>,
    pub rhs: Vec<CtonInst>,
}

/// A group of rules under construction: the merged tree of their chains,
/// the table of their replacements, and the id that the next node gets.
pub struct RuleGroup {
    pub arena: MergedArena,
    pub replacements: HashMap<usize, Vec<CtonInst>>,
    pub next_id: usize,
}

/// The mathematical value of a group of rules.
pub struct GroupView {
    pub tree: MergedView,
    pub table: Map<usize, Vec<CtonInst>>,
    pub next_id: usize,
}

impl View for RuleGroup {
    type V = GroupView;

    open spec fn view(&self) -> GroupView {
        GroupView { tree: self.arena@, table: self.replacements@, next_id: self.next_id }
    }
}

impl GroupView {
    /// The group without rules whose first node will get the id
    /// `first_id`.
    pub open spec fn empty(first_id: usize) -> GroupView {
        GroupView {
            tree: MergedView { tree: Seq::empty(), index: Map::empty() },
            table: Map::empty(),
            next_id: first_id,
        }
    }

    /// Whether the group is sound: its tree is well formed, no two of its
    /// nodes share an id, every link lands one level deeper, the texts
    /// that are written out as they are hold no brace, every id is below
    /// the next id, which is not that of the root, and every replacement
    /// is not empty and stands under the id of a node.
    pub open spec fn wf(self) -> bool {
        &&& self.tree.wf()
        &&& ids_distinct(rooted(self.tree.tree))
        &&& links_agree(rooted(self.tree.tree))
        &&& free_text_plain(rooted(self.tree.tree))
        &&& self.next_id >= 1
        &&& rooted(self.tree.tree).len() <= self.next_id
        &&& forall|id: usize| #[trigger] has_id(rooted(self.tree.tree), id) ==> id < self.next_id
        &&& forall|id: usize| #[trigger]
            self.table.contains_key(id) ==> has_id(rooted(self.tree.tree), id) && self.table[id]@.len() >= 1
    }

    /// The chain of a rule in this group: its labels under the ids from
    /// the next id on.
    pub open spec fn chain_of(self, lhs: Seq<CtonInstView>) -> Seq<NodeView> {
        chain_nodes(rule_labels(lhs).unwrap(), self.next_id as nat)
    }

    /// Whether a rule can be added: its left-hand side has a chain whose
    /// ids fit the machine's numbers, and it has a replacement.
    pub open spec fn can_add(self, lhs: Seq<CtonInstView>, rhs: Vec<CtonInst>) -> bool {
        &&& rule_labels(lhs) is Some
        &&& self.next_id + rule_labels(lhs).unwrap().len() < usize::MAX
        &&& rhs@.len() >= 1
    }

    /// The group with one more rule: the rule's chain is folded into the
    /// tree, and its replacement is entered under the node at which its
    /// match is complete, in place of an earlier replacement there.
    pub open spec fn added(self, lhs: Seq<CtonInstView>, rhs: Vec<CtonInst>) -> GroupView {
        GroupView {
            tree: self.tree.merged(self.chain_of(lhs)),
            table: self.table.insert(self.tree.leaf_of(self.chain_of(lhs)), rhs),
            next_id: (self.next_id + rule_labels(lhs).unwrap().len()) as usize,
        }
    }

    /// The text of the dispatch function number `count` for the group, if
    /// the group can be rendered.
    pub open spec fn text(self, count: u32) -> Option<Seq<char>> {
        if can_generate(self.tree.tree, self.table, count) {
            Some(generated_text(self.tree.tree, self.table, count))
        } else {
            None
        }
    }
}

/// Adding a rule to a sound group gives a sound group.
pub proof fn lemma_added_wf(group: GroupView, lhs: Seq<CtonInstView>, rhs: Vec<CtonInst>)
    requires
        group.wf(),
        group.can_add(lhs, rhs),
    ensures
        group.added(lhs, rhs).wf(),
{
    let labels = rule_labels(lhs).unwrap();
    let chain = group.chain_of(lhs);
    let tree = rooted(group.tree.tree);
    let next = group.added(lhs, rhs);
    lemma_chain_ids_distinct(labels, group.next_id as nat);
    lemma_chain_is_chain(labels, group.next_id as nat);
    assert forall|i: int, j: int| 0 <= i < tree.len() && 0 <= j < chain.len() implies (#[trigger] tree[i]).id != (
    #[trigger] chain[j]).id by {
        assert(has_id(tree, tree[i].id));
    }
    assert(ids_apart(tree, chain));
    lemma_merged_wf(group.tree, chain);
    lemma_merged_ids_distinct(group.tree, chain);
    lemma_merged_links_agree(group.tree, chain);
    lemma_merged_ids(group.tree, chain);
    lemma_rule_chain_plain(lhs, group.next_id as nat);
    lemma_merged_free_text_plain(group.tree, chain);
    let merged = next.tree.tree;
    assert(rooted(merged) == merged);
    assert forall|id: usize| #[trigger] has_id(merged, id) implies id < next.next_id by {
        if has_id(chain, id) {
            let k = choose|k: int| 0 <= k < chain.len() && (#[trigger] chain[k]).id == id;
        }
    }
    assert forall|id: usize| #[trigger] next.table.contains_key(id) implies has_id(merged, id)
        && next.table[id]@.len() >= 1 by {
        if id != group.tree.leaf_of(chain) {
            assert(group.table.contains_key(id));
            assert(has_id(tree, id));
        }
    }
}

impl RuleGroup {
    /// A group without rules whose first node will get the id `first_id`,
    /// which must not be that of the root.
    pub fn new(first_id: usize) -> (group: RuleGroup)
        requires
            first_id >= 1,
        ensures
            group@ == GroupView::empty(first_id),
            group@.wf(),
    {
        let group = RuleGroup { arena: MergedArena::new(), replacements: HashMap::new(), next_id: first_id };
        proof {
            assert(group@.tree.tree =~= Seq::<NodeView>::empty());
            assert(group@.tree == MergedView { tree: Seq::empty(), index: Map::empty() });
            let tree = rooted(group@.tree.tree);
            assert forall|id: usize| #[trigger] has_id(tree, id) implies id < first_id by {
                let i = choose|i: int| 0 <= i < tree.len() && (#[trigger] tree[i]).id == id;
            }
        }
        group
    }

    /// Adds a rule to the group and returns the id of the node at which
    /// its match is complete. A rule that cannot be added leaves the group
    /// as it is.
    pub fn add_rule(&mut self, rule: Rule) -> (leaf: Option<usize>)
        requires
            old(self)@.wf(),
        ensures
            final(self)@.wf(),
            match leaf {
                Some(id) => {
                    &&& old(self)@.can_add(inst_views(rule.lhs@), rule.rhs)
                    &&& final(self)@ == old(self)@.added(inst_views(rule.lhs@), rule.rhs)
                    &&& id == old(self)@.tree.leaf_of(old(self)@.chain_of(inst_views(rule.lhs@)))
                },
                None => !old(self)@.can_add(inst_views(rule.lhs@), rule.rhs) && final(self)@ == old(self)@,
            },
    {
        let ghost lhs = inst_views(rule.lhs@);
        let Rule { lhs: lhs_insts, rhs } = rule;
        if self.next_id == usize::MAX || rhs.len() == 0 || !rule_is_buildable(&lhs_insts, self.next_id + 1) {
            return None;
        }
        let chain = generate_single_tree_patterns(lhs_insts, self.next_id);
        proof {
            lemma_added_wf(self@, lhs, rhs);
            lemma_merged_ids(self@.tree, node_views(chain@));
        }
        let leaf = self.arena.merge_trie(&chain);
        self.replacements.insert(leaf, rhs);
        self.next_id = self.next_id + chain.len();
        Some(leaf)
    }

    /// Renders the group as the text of the dispatch function number
    /// `count`, if it can be rendered.
    pub fn generate(self, count: u32) -> (text: Option<String>)
        ensures
            match text {
                Some(t) => self@.text(count) == Some(t@),
                None => self@.text(count) is None,
            },
    {
        try_generate_baseline_matcher(self.arena.merged_tree, self.replacements, count)
    }
}

/// The group of a list of rules, started at the id `first_id`: the rules
/// added in order. There is none if one of the rules cannot be added.
pub open spec fn group_of(rules: Seq<Rule>, first_id: usize) -> Option<GroupView>
    decreases rules.len(),
{
    if rules.len() == 0 {
        Some(GroupView::empty(first_id))
    } else {
        match group_of(rules.drop_last(), first_id) {
            Some(before) => if before.can_add(inst_views(rules.last().lhs@), rules.last().rhs) {
                Some(before.added(inst_views(rules.last().lhs@), rules.last().rhs))
            } else {
                None
            },
            None => None,
        }
    }
}

/// The text of the dispatch function number `count` for a list of rules:
/// that of their group, started at the id 1. There is none if one of the
/// rules cannot be added or the group cannot be rendered.
pub open spec fn rule_group_text(rules: Seq<Rule>, count: u32) -> Option<Seq<char>> {
    match group_of(rules, 1) {
        Some(group) => group.text(count),
        None => None,
    }
}

/// Builds the group of a list of rules and renders it as the text of the
/// dispatch function number `count`. One rule that cannot be added, or a
/// group that cannot be rendered, and there is no text.
pub fn generate_rule_group(rules: Vec<Rule>, count: u32) -> (text: Option<String>)
    ensures
        match text {
            Some(t) => rule_group_text(rules@, count) == Some(t@),
            None => rule_group_text(rules@, count) is None,
        },
{
    let ghost given = rules@;
    let mut group = RuleGroup::new(1);
    let mut complete = true;
    proof {
        assert(given.subrange(0, 0) =~= Seq::<Rule>::empty());
    }
    for rule in iter: rules
        invariant
            iter.seq() == given,
            group@.wf(),
            complete ==> group_of(given.subrange(0, iter.index() as int), 1) == Some(group@),
            !complete ==> group_of(given.subrange(0, iter.index() as int), 1) is None,
    {
        proof {
            let done = iter.index() as int;
            assert(given.subrange(0, done + 1).drop_last() =~= given.subrange(0, done));
            assert(given.subrange(0, done + 1).last() == given[done]);
        }
        if complete {
            complete = group.add_rule(rule).is_some();
        }
    }
    proof {
        assert(given.subrange(0, given.len() as int) =~= given);
    }
    if complete {
        group.generate(count)
    } else {
        None
    }
}

/// The group of a list of rules is sound.
pub proof fn lemma_group_of_wf(rules: Seq<Rule>, first_id: usize)
    requires
        first_id >= 1,
        group_of(rules, first_id) is Some,
    ensures
        group_of(rules, first_id).unwrap().wf(),
    decreases rules.len(),
{
    if rules.len() == 0 {
        let group = GroupView::empty(first_id);
        let tree = rooted(group.tree.tree);
        assert forall|id: usize| #[trigger] has_id(tree, id) implies id < first_id by {
            let i = choose|i: int| 0 <= i < tree.len() && (#[trigger] tree[i]).id == id;
        }
    } else {
        lemma_group_of_wf(rules.drop_last(), first_id);
        lemma_added_wf(
            group_of(rules.drop_last(), first_id).unwrap(),
            inst_views(rules.last().lhs@),
            rules.last().rhs,
        );
    }
}

/// In a sound group every replacement is rendered exactly once: the id of
/// each node with a replacement occurs once among the ids acted on.
pub proof fn lemma_group_acts_once(group: GroupView, count: u32, id: usize)
    requires
        group.wf(),
        group.table.contains_key(id),
    ensures
        occurrences(final_state(group.tree.tree, group.table, count).acted, id) == 1,
{
    let tree = group.tree.tree;
    lemma_generation_acts_once(tree, group.table, count, id);
    assert(prepared(tree) =~= rooted(tree));
    assert(has_id(rooted(tree), id));
    let i = choose|i: int| 0 <= i < rooted(tree).len() && (#[trigger] rooted(tree)[i]).id == id;
    assert(prepared(tree)[i].id == id);
}

/// The tree of a sound group is consistent: what is refused of a list
/// whose ids repeat or whose links lead nowhere is never refused of it.
pub proof fn lemma_group_is_consistent(group: GroupView)
    requires
        group.wf(),
    ensures
        is_consistent(prepared(group.tree.tree)),
{
    let tree = group.tree.tree;
    if tree.len() > 0 {
        lemma_merged_tree_is_consistent(group.tree);
    } else {
        let list = prepared(tree);
        assert(list =~= seq![crate::lhspatternmatcher::root_node()]);
        assert forall|p: int, k: int| 0 <= p < list.len() && 0 <= k < crate::mergedtree::link_count(list[p]) implies has_id(
            list,
            (#[trigger] list[p].next->0[k]).index,
        ) by {}
    }
}

/// A sound group with a rule is rendered at the levels of its tree.
pub proof fn lemma_group_keeps_levels(group: GroupView)
    requires
        group.wf(),
        group.tree.tree.len() > 0,
    ensures
        leveled(prepared(group.tree.tree)) == group.tree.tree,
{
    lemma_merged_tree_keeps_levels(group.tree);
}

/// In the group of a list of rules every replacement is rendered exactly
/// once, at the node that completes the match of its rule.
pub proof fn lemma_rules_act_once(rules: Seq<Rule>, count: u32, id: usize)
    requires
        group_of(rules, 1) is Some,
        group_of(rules, 1).unwrap().table.contains_key(id),
    ensures
        occurrences(
            final_state(group_of(rules, 1).unwrap().tree.tree, group_of(rules, 1).unwrap().table, count).acted,
            id,
        ) == 1,
{
    lemma_group_of_wf(rules, 1);
    lemma_group_acts_once(group_of(rules, 1).unwrap(), count, id);
}

/// The braces of the text of a sound group are balanced: the text has as
/// many closing braces as opening ones, and no beginning of it has more
/// closing braces than opening ones.
pub proof fn lemma_group_text_balanced(group: GroupView, count: u32)
    requires
        group.wf(),
        group.text(count) is Some,
    ensures
        balanced(group.text(count).unwrap()),
        never_closes_early(group.text(count).unwrap()),
{
    let tree = group.tree.tree;
    if tree.len() == 0 {
        assert(free_text_plain(tree));
    }
    lemma_generated_text_balanced(tree, group.table, count);
}

/// The braces of the text generated for a list of rules are balanced.
pub proof fn lemma_rule_group_text_balanced(rules: Seq<Rule>, count: u32)
    requires
        rule_group_text(rules, count) is Some,
    ensures
        balanced(rule_group_text(rules, count).unwrap()),
        never_closes_early(rule_group_text(rules, count).unwrap()),
{
    lemma_group_of_wf(rules, 1);
    lemma_group_text_balanced(group_of(rules, 1).unwrap(), count);
}

/// Building the group of the same rules again, from another first id,
/// gives a tree of the same structure: the same kinds, values and levels
/// at every position. Only the ids differ.
pub proof fn lemma_group_structure_deterministic(rules: Seq<Rule>, first: usize, other: usize)
    requires
        group_of(rules, first) is Some,
        group_of(rules, other) is Some,
    ensures
        same_structure(group_of(rules, first).unwrap().tree.tree, group_of(rules, other).unwrap().tree.tree),
    decreases rules.len(),
{
    if rules.len() > 0 {
        let front = rules.drop_last();
        lemma_group_structure_deterministic(front, first, other);
        let a = group_of(front, first).unwrap();
        let b = group_of(front, other).unwrap();
        let lhs = inst_views(rules.last().lhs@);
        lemma_chains_say_the_same(rule_labels(lhs).unwrap(), a.next_id as nat, b.next_id as nat);
        lemma_merge_keeps_structure(a.tree, b.tree, a.chain_of(lhs), b.chain_of(lhs));
    }
}

} // verus!

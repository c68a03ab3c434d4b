//! The merged prefix tree: the chains of many rules folded into one tree,
//! so that rules with a common prefix share one branch.
//!
//! The tree is held as a list of nodes in the order of a walk that visits
//! a node before its subtrees and the subtrees in the order in which they
//! were added. A node's level is its depth, so the subtree of a node is
//! the run of deeper nodes that follows it.
use crate::braces::plain;
use crate::chain::{chain_nodes, free_text_plain, is_chain, links_to_next, NodeLabel};
use crate::lhspatternmatcher::{
    clone_nodes,
    find_position, first_with_id, ids_distinct, node_views, root_node, Node, NodeID, NodeType, NodeView,
};
use vstd::prelude::*;
use vstd::string::*;

verus! {

/// One entry of the lookup from a node's value to its id.
#[derive(Debug, PartialEq, Eq)]
pub struct ValueEntry {
    pub value: String,
    pub id: usize,
}

/// The merged tree and the lookup of the values of the root's successors.
/// An entry of the lookup overrides the entries before it that have the
/// same value.
#[derive(Debug, PartialEq, Eq)]
pub struct MergedArena {
    pub merged_tree: Vec<Node>,
    pub hmap: Vec<ValueEntry>,
}

/// The lookup that a list of entries stands for.
pub open spec fn value_map(entries: Seq<ValueEntry>) -> Map<Seq<char>, usize>
    decreases entries.len(),
{
    if entries.len() == 0 {
        Map::empty()
    } else {
        value_map(entries.drop_last()).insert(entries.last().value@, entries.last().id)
    }
}

/// The mathematical value of a merged tree.
pub struct MergedView {
    pub tree: Seq<NodeView>,
    pub index: Map<Seq<char>, usize>,
}

impl View for MergedArena {
    type V = MergedView;

    open spec fn view(&self) -> MergedView {
        MergedView { tree: node_views(self.merged_tree@), index: value_map(self.hmap@) }
    }
}

/// Lists of entries with the same values and ids stand for the same
/// lookup.
pub proof fn lemma_value_map_by_entries(a: Seq<ValueEntry>, b: Seq<ValueEntry>)
    requires
        a.len() == b.len(),
        forall|i: int| 0 <= i < a.len() ==> (#[trigger] a[i]).value@ == b[i].value@ && a[i].id == b[i].id,
    ensures
        value_map(a) == value_map(b),
    decreases a.len(),
{
    if a.len() > 0 {
        lemma_value_map_by_entries(a.drop_last(), b.drop_last());
        assert(a.last().value@ == b.last().value@ && a.last().id == b.last().id);
    }
}

impl Clone for MergedArena {
    fn clone(&self) -> (res: Self)
        ensures
            res@ == self@,
    {
        let mut hmap: Vec<ValueEntry> = Vec::new();
        let mut i: usize = 0;
        while i < self.hmap.len()
            invariant
                i <= self.hmap@.len(),
                hmap@.len() == i,
                forall|j: int|
                    0 <= j < i ==> (#[trigger] hmap@[j]).value@ == self.hmap@[j].value@ && hmap@[j].id
                        == self.hmap@[j].id,
            decreases self.hmap@.len() - i,
        {
            hmap.push(ValueEntry { value: self.hmap[i].value.clone(), id: self.hmap[i].id });
            i += 1;
        }
        proof {
            lemma_value_map_by_entries(hmap@, self.hmap@);
        }
        MergedArena { merged_tree: clone_nodes(&self.merged_tree), hmap }
    }
}

/// The first successor of node `parent` at or after position `from` that
/// has the value `value`: the successors of a node are the nodes one level
/// deeper in the run of deeper nodes that follows it.
pub open spec fn child_at(tree: Seq<NodeView>, parent: int, value: Seq<char>, from: int) -> Option<int>
    decreases tree.len() - from,
{
    if from < 0 || from >= tree.len() || tree[from].level <= tree[parent].level {
        None
    } else if tree[from].level == tree[parent].level + 1 && tree[from].node_value == value {
        Some(from)
    } else {
        child_at(tree, parent, value, from + 1)
    }
}

/// The position after the subtree of node `parent`: the first position
/// at or after `from` whose node is not deeper than `parent`, or the end
/// of the list.
pub open spec fn subtree_end(tree: Seq<NodeView>, parent: int, from: int) -> int
    decreases tree.len() - from,
{
    if from < 0 || from >= tree.len() {
        tree.len() as int
    } else if tree[from].level <= tree[parent].level {
        from
    } else {
        subtree_end(tree, parent, from + 1)
    }
}

/// Where a chain leaves the tree: the position of the last node of the
/// tree that it shares, and the number of its nodes that are shared.
pub struct MergePoint {
    pub parent: int,
    pub matched: nat,
}

/// Where the chain `trie`, whose first `matched` nodes are shared with
/// the path that ends at `parent`, leaves the tree: tree and chain are
/// walked in step for as long as the node reached has a successor with
/// the value of the chain's next node.
pub open spec fn merge_point(tree: Seq<NodeView>, trie: Seq<NodeView>, parent: int, matched: nat) -> MergePoint
    decreases trie.len() - matched,
{
    if matched >= trie.len() {
        MergePoint { parent, matched }
    } else {
        match child_at(tree, parent, trie[matched as int].node_value, parent + 1) {
            Some(child) => merge_point(tree, trie, child, matched + 1),
            None => MergePoint { parent, matched },
        }
    }
}

/// The nodes of `trie` from position `from` on, at consecutive levels
/// from `level` on.
pub open spec fn placed(trie: Seq<NodeView>, from: nat, level: nat) -> Seq<NodeView> {
    Seq::new(
        (trie.len() - from) as nat,
        |k: int| NodeView { level: (level + k) as usize, ..trie[from + k] },
    )
}

/// The tree with the rest of `trie` grafted at `point`: the node at the
/// point gets a link to the first node of the rest, and the rest stands
/// right after that node's subtree. A chain that is shared whole leaves
/// the tree as it is.
pub open spec fn grafted(tree: Seq<NodeView>, trie: Seq<NodeView>, point: MergePoint) -> Seq<NodeView> {
    if point.matched >= trie.len() {
        tree
    } else {
        let end = subtree_end(tree, point.parent, point.parent + 1);
        tree.subrange(0, end).update(
            point.parent,
            with_link(tree[point.parent], trie[point.matched as int].id),
        ) + placed(trie, point.matched, (tree[point.parent].level + 1) as nat) + tree.subrange(
            end,
            tree.len() as int,
        )
    }
}

/// The tree with its root: an empty tree gets one.
pub open spec fn rooted(tree: Seq<NodeView>) -> Seq<NodeView> {
    if tree.len() == 0 {
        seq![root_node()]
    } else {
        tree
    }
}

impl MergedView {
    /// Where `trie` leaves this tree, walked from the root.
    pub open spec fn point_of(self, trie: Seq<NodeView>) -> MergePoint {
        merge_point(rooted(self.tree), trie, 0, 0)
    }

    /// This tree with the chain `trie` folded in. A chain that shares
    /// nothing becomes a new successor of the root, and the lookup records
    /// the value and id of its first node.
    pub open spec fn merged(self, trie: Seq<NodeView>) -> MergedView {
        MergedView {
            tree: grafted(rooted(self.tree), trie, self.point_of(trie)),
            index: if self.point_of(trie).matched == 0 {
                self.index.insert(trie[0].node_value, trie[0].id)
            } else {
                self.index
            },
        }
    }

    /// The id of the node of the merged tree at which the match of `trie`
    /// is complete: the last node of the chain, or, for a chain that is
    /// shared whole, the node of the tree that it ends at.
    pub open spec fn leaf_of(self, trie: Seq<NodeView>) -> usize {
        if self.point_of(trie).matched >= trie.len() {
            rooted(self.tree)[self.point_of(trie).parent].id
        } else {
            trie.last().id
        }
    }

    /// Whether this is a tree in the order of its walk: it is empty or
    /// begins with the root, which alone has level 0; no node is more than
    /// one level deeper than the node before it; no two successors of a
    /// node have the same value; and the lookup holds exactly the values
    /// of the root's successors.
    pub open spec fn wf(self) -> bool {
        &&& self.tree.len() > 0 ==> self.tree[0].node_type == NodeType::MatchRoot && self.tree[0].id == 0
            && self.tree[0].level == 0
        &&& forall|i: int| 1 <= i < self.tree.len() ==> #[trigger] descends(self.tree, i)
        &&& forall|i: int, j: int|
            0 <= i < j < self.tree.len() && #[trigger] alike(self.tree, i, j) ==> parted(self.tree, i, j)
        &&& forall|v: Seq<char>| #[trigger] self.index.contains_key(v) <==> is_top_value(self.tree, v)
    }
}

/// Whether the nodes at the positions `i` and `j` have the same level and
/// the same value.
pub open spec fn alike(tree: Seq<NodeView>, i: int, j: int) -> bool {
    tree[i].level == tree[j].level && tree[i].node_value == tree[j].node_value
}

/// Whether a node between the positions `i` and `j` is less deep than the
/// node at `i`: then the nodes at `i` and `j`, if they have the same
/// level, are successors of different nodes.
pub open spec fn parted(tree: Seq<NodeView>, i: int, j: int) -> bool {
    exists|k: int| i < k < j && (#[trigger] tree[k]).level < tree[i].level
}

/// Whether the node at position `i`, which is not the first, is below the
/// root, at most one level deeper than the node before it, and no deeper
/// than its position.
pub open spec fn descends(tree: Seq<NodeView>, i: int) -> bool {
    1 <= tree[i].level <= tree[i - 1].level + 1 && tree[i].level <= i
}

/// Whether `v` is the value of a successor of the root.
pub open spec fn is_top_value(tree: Seq<NodeView>, v: Seq<char>) -> bool {
    exists|i: int| 0 <= i < tree.len() && (#[trigger] tree[i]).level == 1 && tree[i].node_value == v
}

/// `node` with one more link, to the node of id `next_id`.
pub open spec fn with_link(node: NodeView, next_id: usize) -> NodeView {
    NodeView {
        next: Some(
            match node.next {
                Some(links) => links.push(NodeID { index: next_id }),
                None => seq![NodeID { index: next_id }],
            },
        ),
        ..node
    }
}

/// `tree` with the links of `node` given to the first node that has its
/// id; unchanged if no node has that id.
pub open spec fn with_links_at_id(tree: Seq<NodeView>, node: NodeView) -> Seq<NodeView> {
    match first_with_id(tree, node.id) {
        Some(at) => tree.update(at as int, NodeView { next: node.next, ..tree[at as int] }),
        None => tree,
    }
}

impl MergedArena {
    /// An arena without nodes.
    pub fn new() -> (arena: MergedArena)
        ensures
            arena@.tree.len() == 0,
            arena@.index == Map::<Seq<char>, usize>::empty(),
            arena@.wf(),
    {
        let arena = MergedArena { merged_tree: Vec::new(), hmap: Vec::new() };
        proof {
            assert(arena@.tree =~= Seq::empty());
        }
        arena
    }

    /// The root of a merged tree: id 0, level 0, and no link yet.
    pub fn build_root_node(&mut self) -> (node: Node)
        ensures
            *final(self) == *old(self),
            node@ == root_node(),
    {
        Node {
            node_type: NodeType::MatchRoot,
            node_value: String::from_str("root"),
            width: 0,
            id: 0,
            var_id: None,
            arg_flag: false,
            level: 0,
            next: Some(Vec::new()),
            idx_num: None,
            arg_name: String::from_str(""),
        }
    }

    /// The first node of a rule's chain, which must not be empty.
    pub fn get_first_node_of_opt_pattern(&mut self, opt: Vec<Node>) -> (node: Node)
        requires
            opt@.len() != 0,
        ensures
            *final(self) == *old(self),
            node@ == opt@[0]@,
    {
        opt[0].clone()
    }

    /// The value of a node.
    pub fn get_value_of_node(&mut self, node: Node) -> (value: String)
        ensures
            *final(self) == *old(self),
            value@ == node@.node_value,
    {
        node.node_value
    }

    /// The id of a node.
    pub fn get_id_of_node(&mut self, node: Node) -> (id: usize)
        ensures
            *final(self) == *old(self),
            id == node.id,
    {
        node.id
    }

    /// Records in the lookup that the node of id `id` has the value
    /// `value`.
    pub fn update_hash_map(&mut self, value: String, id: usize)
        ensures
            final(self).merged_tree == old(self).merged_tree,
            final(self)@.index == old(self)@.index.insert(value@, id),
    {
        self.hmap.push(ValueEntry { value, id });
        proof {
            assert(self.hmap@.drop_last() =~= old(self).hmap@);
        }
    }

    /// `node` with one more link, to the node of id `next_id`. The node
    /// must have a list of links.
    pub fn update_next_nodes_list(&mut self, node: Node, next_id: usize) -> (linked: Node)
        requires
            node.next is Some,
        ensures
            *final(self) == *old(self),
            linked@ == with_link(node@, next_id),
    {
        let mut node = node;
        let mut node_next_list = node.next.unwrap();
        node_next_list.push(NodeID { index: next_id });
        node.next = Some(node_next_list);
        node
    }

    /// Appends a node to the list of the tree.
    pub fn add_node_to_arena(&mut self, node: Node)
        ensures
            final(self).hmap == old(self).hmap,
            final(self)@.tree == old(self)@.tree.push(node@),
    {
        self.merged_tree.push(node);
        proof {
            assert(self@.tree =~= old(self)@.tree.push(node@));
        }
    }

    /// Gives the links of `updated_node` to the first node of the tree
    /// that has its id.
    pub fn update_node_in_arena(&mut self, updated_node: Node)
        ensures
            final(self).hmap == old(self).hmap,
            final(self)@.tree == with_links_at_id(old(self)@.tree, updated_node@),
    {
        match find_position(&self.merged_tree, updated_node.id) {
            Some(at) => {
                let mut node = self.merged_tree[at].clone();
                node.next = updated_node.next;
                self.merged_tree.set(at, node);
                proof {
                    assert(self@.tree =~= with_links_at_id(old(self)@.tree, updated_node@));
                }
            },
            None => {},
        }
    }

    /// The first node of the tree with the id `node_id`; a node with this
    /// id must be in the tree.
    pub fn find_node_with_id_in_arena(&mut self, node_id: usize) -> (found_node: Node)
        requires
            first_with_id(old(self)@.tree, node_id) is Some,
        ensures
            *final(self) == *old(self),
            found_node@ == old(self)@.tree[first_with_id(old(self)@.tree, node_id)->0 as int],
    {
        let at = find_position(&self.merged_tree, node_id).unwrap();
        self.merged_tree[at].clone()
    }

    /// Whether a node has a link.
    pub fn node_has_any_connection(&mut self, node: Node) -> (connections: bool)
        ensures
            *final(self) == *old(self),
            connections == (node@.next is Some && node@.next->0.len() > 0),
    {
        match &node.next {
            Some(nodes_list) => nodes_list.len() != 0,
            None => false,
        }
    }

    /// Whether the lookup has an entry for the value `val`.
    pub fn is_node_value_already_in_hash_map(&mut self, val: String) -> (present: bool)
        ensures
            *final(self) == *old(self),
            present == old(self)@.index.contains_key(val@),
    {
        let mut i: usize = self.hmap.len();
        proof {
            assert(self.hmap@.subrange(0, i as int) =~= self.hmap@);
        }
        while i > 0
            invariant
                i <= self.hmap@.len(),
                *self == *old(self),
                self@.index.contains_key(val@) == value_map(self.hmap@.subrange(0, i as int)).contains_key(val@),
            decreases i,
        {
            proof {
                assert(self.hmap@.subrange(0, i as int).drop_last() =~= self.hmap@.subrange(0, i - 1));
            }
            i -= 1;
            if self.hmap[i].value == val {
                return true;
            }
        }
        false
    }
}

/// A successor that is found is a successor: it lies at or after the
/// start of the search, one level below its parent, inside the parent's
/// subtree, and has the value.
pub proof fn lemma_child_at(tree: Seq<NodeView>, parent: int, value: Seq<char>, from: int)
    requires
        child_at(tree, parent, value, from) is Some,
    ensures
        from <= child_at(tree, parent, value, from)->0 < tree.len(),
        tree[child_at(tree, parent, value, from)->0].level == tree[parent].level + 1,
        tree[child_at(tree, parent, value, from)->0].node_value == value,
    decreases tree.len() - from,
{
    if !(tree[from].level == tree[parent].level + 1 && tree[from].node_value == value) {
        lemma_child_at(tree, parent, value, from + 1);
    }
}

/// The nodes between the start of the search and the end of a subtree
/// are deeper than its root, and the node at the end is not.
pub proof fn lemma_subtree_end(tree: Seq<NodeView>, parent: int, from: int)
    requires
        0 <= from <= tree.len(),
    ensures
        from <= subtree_end(tree, parent, from) <= tree.len(),
        forall|i: int| from <= i < subtree_end(tree, parent, from) ==> (#[trigger] tree[i]).level > tree[parent].level,
        subtree_end(tree, parent, from) < tree.len() ==> tree[subtree_end(tree, parent, from)].level
            <= tree[parent].level,
    decreases tree.len() - from,
{
    if from < tree.len() && tree[from].level > tree[parent].level {
        lemma_subtree_end(tree, parent, from + 1);
    }
}

/// The point at which a chain leaves the tree lies in the tree, and no
/// more of the chain is shared than it has nodes.
pub proof fn lemma_merge_point(tree: Seq<NodeView>, trie: Seq<NodeView>, parent: int, matched: nat)
    requires
        0 <= parent < tree.len(),
        matched <= trie.len(),
    ensures
        parent <= merge_point(tree, trie, parent, matched).parent < tree.len(),
        matched <= merge_point(tree, trie, parent, matched).matched <= trie.len(),
        (merge_point(tree, trie, parent, matched).matched == matched) == (merge_point(
            tree,
            trie,
            parent,
            matched,
        ).parent == parent),
    decreases trie.len() - matched,
{
    if matched < trie.len() {
        let value = trie[matched as int].node_value;
        if child_at(tree, parent, value, parent + 1) is Some {
            lemma_child_at(tree, parent, value, parent + 1);
            lemma_merge_point(tree, trie, child_at(tree, parent, value, parent + 1)->0, matched + 1);
        }
    }
}

impl MergedArena {
    fn find_child(&self, parent: usize, value: &String) -> (found: Option<usize>)
        requires
            parent < self@.tree.len(),
        ensures
            match found {
                Some(at) => child_at(self@.tree, parent as int, value@, parent + 1) == Some(at as int),
                None => child_at(self@.tree, parent as int, value@, parent + 1) is None,
            },
    {
        let total = self.merged_tree.len();
        let level = self.merged_tree[parent].level;
        let mut at: usize = parent + 1;
        proof {
            assert(self@.tree[parent as int] == self.merged_tree@[parent as int]@);
        }
        while at < self.merged_tree.len()
            invariant
                parent < at <= self.merged_tree@.len(),
                level == self@.tree[parent as int].level,
                child_at(self@.tree, parent as int, value@, parent + 1) == child_at(
                    self@.tree,
                    parent as int,
                    value@,
                    at as int,
                ),
            decreases self.merged_tree@.len() - at,
        {
            proof {
                assert(self@.tree[at as int] == self.merged_tree@[at as int]@);
            }
            let node = &self.merged_tree[at];
            if node.level <= level {
                return None;
            }
            if node.level - 1 == level && node.node_value == *value {
                return Some(at);
            }
            at += 1;
        }
        None
    }

    fn end_of_subtree(&self, parent: usize) -> (end: usize)
        requires
            parent < self@.tree.len(),
        ensures
            end == subtree_end(self@.tree, parent as int, parent + 1),
            parent < end <= self@.tree.len(),
    {
        let total = self.merged_tree.len();
        let level = self.merged_tree[parent].level;
        let mut at: usize = parent + 1;
        proof {
            assert(self@.tree[parent as int] == self.merged_tree@[parent as int]@);
        }
        while at < self.merged_tree.len()
            invariant
                parent < at <= self.merged_tree@.len(),
                level == self@.tree[parent as int].level,
                subtree_end(self@.tree, parent as int, parent + 1) == subtree_end(
                    self@.tree,
                    parent as int,
                    at as int,
                ),
            decreases self.merged_tree@.len() - at,
        {
            proof {
                assert(self@.tree[at as int] == self.merged_tree@[at as int]@);
            }
            if self.merged_tree[at].level <= level {
                return at;
            }
            at += 1;
        }
        at
    }
}

/// A value that the lookup of a well-formed tree does not hold is the
/// value of no successor of the root.
pub proof fn lemma_absent_value_has_no_child(view: MergedView, value: Seq<char>)
    requires
        view.wf(),
        view.tree.len() > 0,
        !view.index.contains_key(value),
    ensures
        child_at(view.tree, 0, value, 1) is None,
{
    if child_at(view.tree, 0, value, 1) is Some {
        lemma_child_at(view.tree, 0, value, 1);
        let at = child_at(view.tree, 0, value, 1)->0;
        assert(view.tree[at].level == 1 && view.tree[at].node_value == value);
    }
}

impl MergedArena {
    /// Folds the chain of one rule into the tree and returns the id of the
    /// node at which the rule's match is complete.
    ///
    /// Tree and chain are walked in step from the root for as long as the
    /// node reached has a successor with the value of the chain's next
    /// node. Where they part, the rest of the chain becomes a new
    /// successor. The chain must not be empty.
    pub fn merge_trie(&mut self, trie: &Vec<Node>) -> (leaf: usize)
        requires
            old(self)@.wf(),
            trie@.len() > 0,
            old(self)@.tree.len() + trie@.len() < usize::MAX,
        ensures
            final(self)@ == old(self)@.merged(node_views(trie@)),
            leaf == old(self)@.leaf_of(node_views(trie@)),
            final(self)@.wf(),
    {
        let ghost chain = node_views(trie@);
        let ghost before = self@;
        if self.merged_tree.len() == 0 {
            let root_node = self.build_root_node();
            self.add_node_to_arena(root_node);
            proof {
                assert(self@.tree =~= rooted(before.tree));
                lemma_rooted_wf(before);
            }
        }
        let ghost tree = self@.tree;
        proof {
            assert(tree == rooted(before.tree));
            assert(self@.index == before.index);
            assert(chain[0] == trie@[0]@);
        }
        let mut parent: usize = 0;
        let mut matched: usize = 0;
        let mut walking = self.is_node_value_already_in_hash_map(trie[0].node_value.clone());
        proof {
            if !walking {
                lemma_absent_value_has_no_child(self@, chain[0].node_value);
            }
        }
        while walking && matched < trie.len()
            invariant
                matched <= trie@.len(),
                parent < tree.len(),
                tree == self@.tree,
                chain == node_views(trie@),
                merge_point(tree, chain, parent as int, matched as nat) == merge_point(tree, chain, 0, 0),
                !walking ==> merge_point(tree, chain, parent as int, matched as nat) == (MergePoint {
                    parent: parent as int,
                    matched: matched as nat,
                }),
            decreases trie@.len() - matched + if walking { 1nat } else { 0nat },
        {
            proof {
                assert(chain[matched as int] == trie@[matched as int]@);
            }
            match self.find_child(parent, &trie[matched].node_value) {
                Some(child) => {
                    proof {
                        lemma_child_at(tree, parent as int, chain[matched as int].node_value, parent + 1);
                    }
                    parent = child;
                    matched += 1;
                },
                None => {
                    walking = false;
                },
            }
        }
        let ghost point = merge_point(tree, chain, 0, 0);
        proof {
            assert(point == MergePoint { parent: parent as int, matched: matched as nat });
            assert(tree[parent as int] == self.merged_tree@[parent as int]@);
            lemma_merged_wf(before, chain);
            lemma_rooted_wf(before);
        }
        if matched == trie.len() {
            return self.merged_tree[parent].id;
        }
        let end = self.end_of_subtree(parent);
        let level = self.merged_tree[parent].level;
        let mut rest = self.merged_tree.split_off(end);
        let mut node = self.merged_tree[parent].clone();
        let mut links = match node.next {
            Some(links) => links,
            None => Vec::new(),
        };
        links.push(NodeID { index: trie[matched].id });
        node.next = Some(links);
        self.merged_tree.set(parent, node);
        let ghost head = tree.subrange(0, end as int).update(
            parent as int,
            with_link(tree[parent as int], chain[matched as int].id),
        );
        proof {
            assert(chain[matched as int] == trie@[matched as int]@);
            assert(node_views(self.merged_tree@) =~= head);
            assert(node_views(rest@) =~= tree.subrange(end as int, tree.len() as int));
            lemma_level_bounded(MergedView { tree, index: before.index }, parent as int);
        }
        let mut k: usize = matched;
        while k < trie.len()
            invariant
                matched <= k <= trie@.len(),
                chain == node_views(trie@),
                level + trie@.len() <= usize::MAX,
                self.hmap == old(self).hmap,
                node_views(self.merged_tree@) == head + placed(chain, matched as nat, (level + 1) as nat).subrange(
                    0,
                    k - matched,
                ),
            decreases trie@.len() - k,
        {
            let mut node = trie[k].clone();
            node.level = level + 1 + (k - matched);
            let ghost pushed = node@;
            let ghost earlier = node_views(self.merged_tree@);
            self.merged_tree.push(node);
            proof {
                assert(chain[k as int] == trie@[k as int]@);
                let suffix = placed(chain, matched as nat, (level + 1) as nat);
                assert(suffix[k - matched] == pushed);
                assert(suffix.subrange(0, k + 1 - matched) =~= suffix.subrange(0, k - matched).push(pushed));
                assert(node_views(self.merged_tree@) =~= earlier.push(pushed));
                assert((head + suffix.subrange(0, k - matched)).push(pushed) =~= head + suffix.subrange(
                    0,
                    k - matched,
                ).push(pushed));
                assert(node_views(self.merged_tree@) =~= head + placed(
                    chain,
                    matched as nat,
                    (level + 1) as nat,
                ).subrange(0, k + 1 - matched));
            }
            k += 1;
        }
        self.merged_tree.append(&mut rest);
        proof {
            let suffix = placed(chain, matched as nat, (level + 1) as nat);
            assert(suffix.subrange(0, trie@.len() - matched) =~= suffix);
            assert(node_views(self.merged_tree@) =~= head + suffix + tree.subrange(end as int, tree.len() as int));
            assert(chain.last() == trie@[trie@.len() - 1]@);
        }
        if matched == 0 {
            self.update_hash_map(trie[0].node_value.clone(), trie[0].id);
        }
        trie[trie.len() - 1].id
    }
}

/// Folds the chain of one rule into the tree.
pub fn generate_merged_prefix_tree(single_tree: Vec<Node>, merged_arena: MergedArena) -> (merged: MergedArena)
    requires
        merged_arena@.wf(),
        single_tree@.len() > 0,
        merged_arena@.tree.len() + single_tree@.len() < usize::MAX,
    ensures
        merged@ == merged_arena@.merged(node_views(single_tree@)),
        merged@.wf(),
{
    let mut merged_arena = merged_arena;
    let _ = merged_arena.merge_trie(&single_tree);
    merged_arena
}

/// A well-formed tree with its root is well formed.
pub proof fn lemma_rooted_wf(view: MergedView)
    requires
        view.wf(),
    ensures
        (MergedView { tree: rooted(view.tree), index: view.index }).wf(),
{
    let base = MergedView { tree: rooted(view.tree), index: view.index };
    if view.tree.len() == 0 {
        assert forall|v: Seq<char>| #[trigger] base.index.contains_key(v) <==> is_top_value(base.tree, v) by {
            assert(view.index.contains_key(v) <==> is_top_value(view.tree, v));
        }
    }
}

/// In a well-formed tree no node is deeper than its position.
pub proof fn lemma_level_bounded(view: MergedView, i: int)
    requires
        view.wf(),
        0 <= i < view.tree.len(),
    ensures
        view.tree[i].level <= i,
        i > 0 ==> view.tree[i].level >= 1,
{
    if i > 0 {
        assert(descends(view.tree, i));
    }
}

/// Where no successor with a value is found, no node of the subtree
/// searched is a successor with that value.
pub proof fn lemma_no_child_at(tree: Seq<NodeView>, parent: int, value: Seq<char>, from: int, at: int)
    requires
        0 <= from <= at < subtree_end(tree, parent, from),
        child_at(tree, parent, value, from) is None,
    ensures
        !(tree[at].level == tree[parent].level + 1 && tree[at].node_value == value),
    decreases tree.len() - from,
{
    lemma_subtree_end(tree, parent, from);
    if from < at {
        lemma_no_child_at(tree, parent, value, from + 1, at);
    }
}

/// Where a chain leaves the tree before its end, the node at which it
/// leaves has no successor with the value of the chain's next node.
pub proof fn lemma_merge_point_parts(tree: Seq<NodeView>, trie: Seq<NodeView>, parent: int, matched: nat)
    requires
        0 <= parent < tree.len(),
        matched <= trie.len(),
        merge_point(tree, trie, parent, matched).matched < trie.len(),
    ensures
        child_at(
            tree,
            merge_point(tree, trie, parent, matched).parent,
            trie[merge_point(tree, trie, parent, matched).matched as int].node_value,
            merge_point(tree, trie, parent, matched).parent + 1,
        ) is None,
    decreases trie.len() - matched,
{
    if matched < trie.len() {
        let value = trie[matched as int].node_value;
        if child_at(tree, parent, value, parent + 1) is Some {
            lemma_child_at(tree, parent, value, parent + 1);
            lemma_merge_point_parts(tree, trie, child_at(tree, parent, value, parent + 1)->0, matched + 1);
        }
    }
}

/// Folding a chain into a well-formed tree leaves no two successors of a
/// node with the same value.
pub proof fn lemma_merged_parts_alike(view: MergedView, trie: Seq<NodeView>)
    requires
        view.wf(),
        trie.len() > 0,
        view.tree.len() + trie.len() < usize::MAX,
    ensures
        forall|i: int, j: int|
            0 <= i < j < view.merged(trie).tree.len() && #[trigger] alike(view.merged(trie).tree, i, j) ==> parted(
                view.merged(trie).tree,
                i,
                j,
            ),
{
    let tree = rooted(view.tree);
    let point = view.point_of(trie);
    let base = MergedView { tree, index: view.index };
    lemma_rooted_wf(view);
    lemma_merge_point(tree, trie, 0, 0);
    let merged = view.merged(trie).tree;
    if point.matched < trie.len() {
        let parent = point.parent;
        let end = subtree_end(tree, parent, parent + 1);
        lemma_subtree_end(tree, parent, parent + 1);
        lemma_merge_point_parts(tree, trie, 0, 0);
        lemma_level_bounded(base, parent);
        let level = tree[parent].level;
        let suffix = placed(trie, point.matched, (level + 1) as nat);
        let count = suffix.len() as int;
        assert(merged.len() == tree.len() + count);
        assert forall|i: int| 0 <= i < end implies (#[trigger] merged[i]).level == tree[i].level
            && merged[i].node_value == tree[i].node_value by {}
        assert forall|i: int| end <= i < end + count implies (#[trigger] merged[i]).level == level + 1 + (i - end)
            && merged[i].node_value == trie[point.matched + (i - end)].node_value by {
            assert(merged[i] == suffix[i - end]);
        }
        assert forall|i: int| end + count <= i < merged.len() implies (#[trigger] merged[i]) == tree[i - count] by {}
        assert forall|i: int, j: int| 0 <= i < j < merged.len() && #[trigger] alike(merged, i, j) implies parted(
            merged,
            i,
            j,
        ) by {
            let before_i = if i < end {
                i
            } else {
                i - count
            };
            let before_j = if j < end {
                j
            } else {
                j - count
            };
            if (i < end || i >= end + count) && (j < end || j >= end + count) {
                assert(alike(tree, before_i, before_j));
                assert(parted(tree, before_i, before_j));
                let k = choose|k: int| before_i < k < before_j && (#[trigger] tree[k]).level < tree[before_i].level;
                let after_k = if k < end {
                    k
                } else {
                    k + count
                };
                assert(merged[after_k].level == tree[k].level);
                assert(i < after_k < j);
            } else if i >= end && i < end + count {
                if j < end + count {
                    assert(merged[j].level == level + 1 + (j - end));
                } else {
                    assert(merged[end + count] == tree[end]);
                    assert(merged[end + count].level <= level);
                    assert(j > end + count);
                }
            } else {
                assert(i < end && end <= j < end + count);
                if j > end {
                    assert(merged[j - 1].level == level + 1 + (j - 1 - end));
                } else if i < parent {
                    assert(merged[parent].level == level);
                } else if i > parent {
                    lemma_no_child_at(tree, parent, trie[point.matched as int].node_value, parent + 1, i);
                }
            }
        }
    }
}

/// Folding a chain into a well-formed tree gives a well-formed tree.
pub proof fn lemma_merged_wf(view: MergedView, trie: Seq<NodeView>)
    requires
        view.wf(),
        trie.len() > 0,
        view.tree.len() + trie.len() < usize::MAX,
    ensures
        view.merged(trie).wf(),
{
    let tree = rooted(view.tree);
    let point = view.point_of(trie);
    let base = MergedView { tree, index: view.index };
    lemma_rooted_wf(view);
    lemma_merge_point(tree, trie, 0, 0);
    lemma_merged_parts_alike(view, trie);
    if point.matched < trie.len() {
        let parent = point.parent;
        let end = subtree_end(tree, parent, parent + 1);
        lemma_subtree_end(tree, parent, parent + 1);
        let level = tree[parent].level;
        let suffix = placed(trie, point.matched, (level + 1) as nat);
        let new_tree = view.merged(trie).tree;
        let new_index = view.merged(trie).index;
        lemma_level_bounded(base, parent);
        assert(new_tree.len() == tree.len() + suffix.len());
        assert forall|i: int| 0 <= i < end implies (#[trigger] new_tree[i]).level == tree[i].level
            && new_tree[i].node_value == tree[i].node_value && new_tree[i].node_type == tree[i].node_type
            && new_tree[i].id == tree[i].id by {}
        assert forall|i: int| end <= i < end + suffix.len() implies (#[trigger] new_tree[i]).level == level + 1 + (i
            - end) && new_tree[i].node_value == trie[point.matched + (i - end)].node_value by {
            assert(new_tree[i] == suffix[i - end]);
        }
        assert forall|i: int| end + suffix.len() <= i < new_tree.len() implies (#[trigger] new_tree[i]) == tree[i
            - suffix.len()] by {}
        assert forall|i: int| 1 <= i < new_tree.len() implies #[trigger] descends(new_tree, i) by {
            if i < end {
                assert(descends(tree, i));
                assert(new_tree[i - 1].level == tree[i - 1].level);
            } else if i == end {
                assert(new_tree[i - 1].level == tree[i - 1].level);
                if end - 1 > parent {
                    assert(tree[end - 1].level > level);
                }
            } else if i < end + suffix.len() {
                assert(new_tree[i - 1].level == level + 1 + (i - 1 - end));
            } else if i == end + suffix.len() {
                assert(new_tree[i] == tree[end]);
                assert(new_tree[i - 1].level == level + 1 + (i - 1 - end));
                assert(descends(tree, end));
            } else {
                assert(new_tree[i] == tree[i - suffix.len()]);
                assert(new_tree[i - 1] == tree[i - 1 - suffix.len()]);
                assert(descends(tree, i - suffix.len()));
            }
        }
        assert forall|v: Seq<char>| #[trigger] new_index.contains_key(v) <==> is_top_value(new_tree, v) by {
            assert(base.index.contains_key(v) <==> is_top_value(tree, v));
            if is_top_value(tree, v) {
                let i = choose|i: int| 0 <= i < tree.len() && (#[trigger] tree[i]).level == 1 && tree[i].node_value == v;
                if i < end {
                    assert(new_tree[i].level == 1 && new_tree[i].node_value == v);
                } else {
                    assert(new_tree[i + suffix.len()] == tree[i]);
                }
                assert(is_top_value(new_tree, v));
            }
            if point.matched == 0 && v == trie[0].node_value {
                assert(parent == 0);
                assert(new_tree[end].level == 1 && new_tree[end].node_value == v);
                assert(is_top_value(new_tree, v));
            }
            if is_top_value(new_tree, v) {
                let i = choose|i: int|
                    0 <= i < new_tree.len() && (#[trigger] new_tree[i]).level == 1 && new_tree[i].node_value == v;
                if i < end {
                    assert(tree[i].level == 1 && tree[i].node_value == v);
                    assert(is_top_value(tree, v));
                } else if i < end + suffix.len() {
                    assert(new_tree[i].level == level + 1 + (i - end));
                    assert(level == 0 && i == end);
                    lemma_level_bounded(base, parent);
                    assert(parent == 0);
                    assert(point.matched == 0);
                    assert(v == trie[0].node_value);
                } else {
                    assert(new_tree[i] == tree[i - suffix.len()]);
                    assert(tree[i - suffix.len()].level == 1 && tree[i - suffix.len()].node_value == v);
                    assert(is_top_value(tree, v));
                }
            }
        }
    }
}

/// Whether no node of `trie` has the id of a node of `tree`.
pub open spec fn ids_apart(tree: Seq<NodeView>, trie: Seq<NodeView>) -> bool {
    forall|i: int, j: int|
        0 <= i < tree.len() && 0 <= j < trie.len() ==> (#[trigger] tree[i]).id != (#[trigger] trie[j]).id
}

/// Folding in a chain with ids of its own keeps the ids of the tree
/// unique: where no two nodes of the tree and no two nodes of the chain
/// share an id, and no node of the chain has the id of a node of the
/// tree, no two nodes of the merged tree share an id.
pub proof fn lemma_merged_ids_distinct(view: MergedView, trie: Seq<NodeView>)
    requires
        ids_distinct(rooted(view.tree)),
        ids_distinct(trie),
        ids_apart(rooted(view.tree), trie),
    ensures
        ids_distinct(view.merged(trie).tree),
{
    let tree = rooted(view.tree);
    let point = view.point_of(trie);
    let merged = view.merged(trie).tree;
    if point.matched < trie.len() {
        lemma_merge_point(tree, trie, 0, 0);
        let parent = point.parent;
        let end = subtree_end(tree, parent, parent + 1);
        lemma_subtree_end(tree, parent, parent + 1);
        let suffix = placed(trie, point.matched, (tree[parent].level + 1) as nat);
        let count = suffix.len() as int;
        assert forall|i: int| 0 <= i < end implies (#[trigger] merged[i]).id == tree[i].id by {}
        assert forall|i: int| end <= i < end + count implies (#[trigger] merged[i]).id == trie[point.matched + (i
            - end)].id by {
            assert(merged[i] == suffix[i - end]);
        }
        assert forall|i: int| end + count <= i < merged.len() implies (#[trigger] merged[i]) == tree[i - count] by {}
        assert forall|i: int, j: int| 0 <= i < j < merged.len() implies (#[trigger] merged[i]).id != (
        #[trigger] merged[j]).id by {
            let in_chain_i = end <= i < end + count;
            let in_chain_j = end <= j < end + count;
            let from_i = if i < end {
                i
            } else if in_chain_i {
                point.matched + (i - end)
            } else {
                i - count
            };
            let from_j = if j < end {
                j
            } else if in_chain_j {
                point.matched + (j - end)
            } else {
                j - count
            };
            if in_chain_i && in_chain_j {
                assert(trie[from_i].id != trie[from_j].id);
            } else if in_chain_i {
                assert(tree[from_j].id != trie[from_i].id);
            } else if in_chain_j {
                assert(tree[from_i].id != trie[from_j].id);
            } else {
                assert(tree[from_i].id != tree[from_j].id);
            }
        }
    }
}

/// The number of links of a node.
pub open spec fn link_count(node: NodeView) -> nat {
    match node.next {
        Some(links) => links.len(),
        None => 0,
    }
}

/// Whether link `k` of the node at position `p` lands on a later node
/// that is one level deeper.
pub open spec fn link_lands(tree: Seq<NodeView>, p: int, k: int) -> bool {
    exists|q: int|
        p < q < tree.len() && (#[trigger] tree[q]).id == tree[p].next->0[k].index && tree[q].level == tree[p].level
            + 1
}

/// Whether every link of the tree lands on a later node one level
/// deeper.
pub open spec fn links_agree(tree: Seq<NodeView>) -> bool {
    forall|p: int, k: int| 0 <= p < tree.len() && 0 <= k < link_count(tree[p]) ==> #[trigger] link_lands(tree, p, k)
}

/// Folding a chain into a tree whose links land one level deeper gives
/// such a tree: the links of the tree still land where they did, the new
/// link lands on the first node of the rest of the chain, and the links
/// of the chain land on its next nodes.
pub proof fn lemma_merged_links_agree(view: MergedView, trie: Seq<NodeView>)
    requires
        view.wf(),
        links_agree(rooted(view.tree)),
        is_chain(trie),
        trie.len() > 0,
        view.tree.len() + trie.len() < usize::MAX,
    ensures
        links_agree(view.merged(trie).tree),
{
    let tree = rooted(view.tree);
    let point = view.point_of(trie);
    let base = MergedView { tree, index: view.index };
    lemma_rooted_wf(view);
    lemma_merge_point(tree, trie, 0, 0);
    let merged = view.merged(trie).tree;
    if point.matched < trie.len() {
        let parent = point.parent;
        let end = subtree_end(tree, parent, parent + 1);
        lemma_subtree_end(tree, parent, parent + 1);
        lemma_level_bounded(base, parent);
        let level = tree[parent].level;
        let suffix = placed(trie, point.matched, (level + 1) as nat);
        let count = suffix.len() as int;
        assert forall|i: int| 0 <= i < end && i != parent implies (#[trigger] merged[i]) == tree[i] by {}
        assert(merged[parent] == with_link(tree[parent], trie[point.matched as int].id));
        assert forall|i: int| end <= i < end + count implies (#[trigger] merged[i]) == suffix[i - end] by {}
        assert forall|i: int| end + count <= i < merged.len() implies (#[trigger] merged[i]) == tree[i - count] by {}
        assert forall|p: int, k: int| 0 <= p < merged.len() && 0 <= k < link_count(merged[p]) implies #[trigger] link_lands(
            merged,
            p,
            k,
        ) by {
            if end <= p < end + count {
                let at = point.matched + (p - end);
                assert(merged[p].next == trie[at].next);
                assert(at < trie.len() - 1);
                assert(links_to_next(trie, at));
                assert(merged[p + 1] == suffix[p + 1 - end]);
                assert(merged[p + 1].id == trie[at + 1].id);
            } else if p == parent && k == link_count(tree[parent]) {
                assert(merged[end] == suffix[0]);
                assert(merged[end].id == trie[point.matched as int].id);
            } else {
                let before = if p < end {
                    p
                } else {
                    p - count
                };
                assert(merged[p].level == tree[before].level);
                assert(merged[p].next->0[k] == tree[before].next->0[k]);
                assert(link_lands(tree, before, k));
                let q = choose|q: int|
                    before < q < tree.len() && (#[trigger] tree[q]).id == tree[before].next->0[k].index && tree[q].level
                        == tree[before].level + 1;
                let after = if q < end {
                    q
                } else {
                    q + count
                };
                assert(merged[after].id == tree[q].id && merged[after].level == tree[q].level);
            }
        }
    }
}

/// Whether a node of the list has the id `id`.
pub open spec fn has_id(nodes: Seq<NodeView>, id: usize) -> bool {
    exists|i: int| 0 <= i < nodes.len() && (#[trigger] nodes[i]).id == id
}

/// The ids of a merged tree: every node of the tree is still there under
/// its id, every node comes from the tree or from the chain, the node at
/// which the chain's match is complete is among them, and the tree has
/// grown by no more nodes than the chain has.
pub proof fn lemma_merged_ids(view: MergedView, trie: Seq<NodeView>)
    requires
        trie.len() > 0,
    ensures
        forall|id: usize| has_id(rooted(view.tree), id) ==> #[trigger] has_id(view.merged(trie).tree, id),
        forall|id: usize| #[trigger]
            has_id(view.merged(trie).tree, id) ==> has_id(rooted(view.tree), id) || has_id(trie, id),
        has_id(view.merged(trie).tree, view.leaf_of(trie)),
        rooted(view.tree).len() <= view.merged(trie).tree.len() <= rooted(view.tree).len() + trie.len(),
{
    let tree = rooted(view.tree);
    let point = view.point_of(trie);
    let merged = view.merged(trie).tree;
    lemma_merge_point(tree, trie, 0, 0);
    if point.matched < trie.len() {
        let parent = point.parent;
        let end = subtree_end(tree, parent, parent + 1);
        lemma_subtree_end(tree, parent, parent + 1);
        let suffix = placed(trie, point.matched, (tree[parent].level + 1) as nat);
        let count = suffix.len() as int;
        assert forall|i: int| 0 <= i < end implies (#[trigger] merged[i]).id == tree[i].id by {}
        assert forall|i: int| end <= i < end + count implies (#[trigger] merged[i]).id == trie[point.matched + (i
            - end)].id by {
            assert(merged[i] == suffix[i - end]);
        }
        assert forall|i: int| end + count <= i < merged.len() implies (#[trigger] merged[i]) == tree[i - count] by {}
        assert forall|id: usize| has_id(tree, id) implies #[trigger] has_id(merged, id) by {
            let i = choose|i: int| 0 <= i < tree.len() && (#[trigger] tree[i]).id == id;
            if i < end {
                assert(merged[i].id == id);
            } else {
                assert(merged[i + count].id == id);
            }
        }
        assert forall|id: usize| #[trigger] has_id(merged, id) implies has_id(tree, id) || has_id(trie, id) by {
            let j = choose|j: int| 0 <= j < merged.len() && (#[trigger] merged[j]).id == id;
            if j < end {
                assert(tree[j].id == id);
            } else if j < end + count {
                assert(trie[point.matched + (j - end)].id == id);
            } else {
                assert(tree[j - count].id == id);
            }
        }
        assert(merged[end + count - 1].id == trie.last().id);
    } else {
        assert(merged[point.parent].id == view.leaf_of(trie));
    }
}

/// Folding in a chain brings no brace into the texts that are written
/// out as they are: every node of the merged tree has the kind and value
/// of a node of the tree or of the chain.
pub proof fn lemma_merged_free_text_plain(view: MergedView, trie: Seq<NodeView>)
    requires
        free_text_plain(rooted(view.tree)),
        free_text_plain(trie),
        trie.len() > 0,
    ensures
        free_text_plain(view.merged(trie).tree),
{
    let tree = rooted(view.tree);
    let point = view.point_of(trie);
    let merged = view.merged(trie).tree;
    lemma_merge_point(tree, trie, 0, 0);
    if point.matched < trie.len() {
        let parent = point.parent;
        let end = subtree_end(tree, parent, parent + 1);
        lemma_subtree_end(tree, parent, parent + 1);
        let suffix = placed(trie, point.matched, (tree[parent].level + 1) as nat);
        let count = suffix.len() as int;
        assert forall|i: int|
            0 <= i < merged.len() && ((#[trigger] merged[i]).node_type == NodeType::MatchArgs || merged[i].node_type
                == NodeType::MatchConst) implies plain(merged[i].node_value) by {
            if i < end {
                assert(merged[i].node_type == tree[i].node_type && merged[i].node_value == tree[i].node_value);
            } else if i < end + count {
                assert(merged[i] == suffix[i - end]);
                let at = point.matched + (i - end);
                assert(merged[i].node_type == trie[at].node_type && merged[i].node_value == trie[at].node_value);
            } else {
                assert(merged[i] == tree[i - count]);
            }
        }
    }
}

/// The tree without nodes.
pub open spec fn empty_tree() -> MergedView {
    MergedView { tree: Seq::empty(), index: Map::empty() }
}

/// Where every node from `from` on is deeper than `parent` and none of
/// them is a successor of `parent` with the value `value`, no such
/// successor is found, and the subtree of `parent` reaches to the end.
pub proof fn lemma_scan_misses(tree: Seq<NodeView>, parent: int, value: Seq<char>, from: int)
    requires
        0 <= parent < from <= tree.len(),
        forall|i: int|
            from <= i < tree.len() ==> (#[trigger] tree[i]).level > tree[parent].level && !(tree[i].level
                == tree[parent].level + 1 && tree[i].node_value == value),
    ensures
        child_at(tree, parent, value, from) is None,
        subtree_end(tree, parent, from) == tree.len(),
    decreases tree.len() - from,
{
    if from < tree.len() {
        assert(tree[from].level > tree[parent].level);
        lemma_scan_misses(tree, parent, value, from + 1);
    }
}

/// The tree of one chain: the root, linked to the chain's first node, and
/// after it the chain's nodes at the levels from 1 on.
pub open spec fn single_chain_tree(a: Seq<NodeView>) -> Seq<NodeView> {
    seq![with_link(root_node(), a[0].id)] + placed(a, 0, 1)
}

/// Folding a chain into the empty tree gives the tree of that chain, and
/// the lookup records its first node.
pub proof fn lemma_merge_first(a: Seq<NodeView>)
    requires
        a.len() > 0,
    ensures
        empty_tree().merged(a).tree == single_chain_tree(a),
        empty_tree().merged(a).index == Map::<Seq<char>, usize>::empty().insert(a[0].node_value, a[0].id),
{
    let tree = rooted(empty_tree().tree);
    assert(child_at(tree, 0, a[0].node_value, 1) is None);
    assert(subtree_end(tree, 0, 1) == 1);
    assert(merge_point(tree, a, 0, 0) == MergePoint { parent: 0, matched: 0 });
    assert(tree.subrange(0, 1).update(0, with_link(tree[0], a[0].id)) =~= seq![with_link(root_node(), a[0].id)]);
    assert(tree.subrange(1, 1) =~= Seq::<NodeView>::empty());
    assert(empty_tree().merged(a).tree =~= single_chain_tree(a));
}

/// Two chains that differ in their first value become two successors of
/// the root: the root has exactly the two links to their first nodes, in
/// the order of merging, and after it stand the nodes of the first chain
/// and then those of the second, each chain whole and each node with its
/// id, kind, value and links, at the levels from 1 on.
pub proof fn lemma_merge_no_shared_prefix(a: Seq<NodeView>, b: Seq<NodeView>)
    requires
        a.len() > 0,
        b.len() > 0,
        a.len() + b.len() < usize::MAX,
        a[0].node_value != b[0].node_value,
    ensures
        empty_tree().merged(a).merged(b).tree == seq![with_link(with_link(root_node(), a[0].id), b[0].id)] + placed(
            a,
            0,
            1,
        ) + placed(b, 0, 1),
        empty_tree().merged(a).merged(b).tree[0].next == Some(
            seq![NodeID { index: a[0].id }, NodeID { index: b[0].id }],
        ),
        empty_tree().merged(a).merged(b).tree.len() == 1 + a.len() + b.len(),
        forall|i: int|
            0 <= i < a.len() ==> #[trigger] empty_tree().merged(a).merged(b).tree[1 + i] == (NodeView {
                level: (1 + i) as usize,
                ..a[i]
            }),
        forall|i: int|
            0 <= i < b.len() ==> #[trigger] empty_tree().merged(a).merged(b).tree[1 + a.len() + i] == (NodeView {
                level: (1 + i) as usize,
                ..b[i]
            }),
{
    lemma_merge_first(a);
    let first = empty_tree().merged(a);
    let tree = first.tree;
    assert(rooted(tree) == tree);
    assert forall|i: int| 1 <= i < tree.len() implies (#[trigger] tree[i]).level > tree[0].level && !(tree[i].level
        == tree[0].level + 1 && tree[i].node_value == b[0].node_value) by {
        assert(tree[i] == placed(a, 0, 1)[i - 1]);
    }
    lemma_scan_misses(tree, 0, b[0].node_value, 1);
    assert(merge_point(tree, b, 0, 0) == MergePoint { parent: 0, matched: 0 });
    let root = with_link(with_link(root_node(), a[0].id), b[0].id);
    assert(tree.subrange(0, tree.len() as int).update(0, with_link(tree[0], b[0].id)) =~= seq![root] + placed(
        a,
        0,
        1,
    ));
    assert(tree.subrange(tree.len() as int, tree.len() as int) =~= Seq::<NodeView>::empty());
    assert(first.merged(b).tree =~= seq![root] + placed(a, 0, 1) + placed(b, 0, 1));
    assert(root.next->0 =~= seq![NodeID { index: a[0].id }, NodeID { index: b[0].id }]);
}

/// In the tree of one chain, a chain that has the same first `k` values
/// is walked along the first `k` nodes.
pub proof fn lemma_walk_shared(a: Seq<NodeView>, b: Seq<NodeView>, k: nat, j: nat)
    requires
        j <= k,
        k < a.len(),
        k < b.len(),
        a.len() < usize::MAX,
        forall|i: int| 0 <= i < k ==> (#[trigger] a[i]).node_value == b[i].node_value,
        a[k as int].node_value != b[k as int].node_value,
    ensures
        merge_point(single_chain_tree(a), b, j as int, j) == (MergePoint { parent: k as int, matched: k }),
    decreases k - j,
{
    let tree = single_chain_tree(a);
    assert forall|i: int| 1 <= i < tree.len() implies (#[trigger] tree[i]).level == i && tree[i].node_value == a[i
        - 1].node_value by {
        assert(tree[i] == placed(a, 0, 1)[i - 1]);
    }
    assert(tree[0].level == 0);
    if j < k {
        assert(tree[j as int + 1].level == j + 1);
        assert(a[j as int].node_value == b[j as int].node_value);
        assert(child_at(tree, j as int, b[j as int].node_value, j as int + 1) == Some(j as int + 1));
        lemma_walk_shared(a, b, k, j + 1);
    } else {
        assert forall|i: int| k + 1 <= i < tree.len() implies (#[trigger] tree[i]).level > tree[k as int].level && !(
        tree[i].level == tree[k as int].level + 1 && tree[i].node_value == b[k as int].node_value) by {
            assert(tree[i].level == i);
        }
        lemma_scan_misses(tree, k as int, b[k as int].node_value, k as int + 1);
    }
}

/// Two chains with the same first `k` values and different values after
/// them share one branch of `k` nodes: the root has the one link, the
/// first chain stands whole after it, the last shared node (at level `k`)
/// has a further link to the first node of the second chain that differs,
/// and the rest of the second chain stands at the end, from level `k + 1`
/// on. Where the first chain is linked node to node, the last shared node
/// has exactly the two links, to the two nodes that differ.
pub proof fn lemma_merge_partial_prefix(a: Seq<NodeView>, b: Seq<NodeView>, k: nat)
    requires
        0 < k < a.len(),
        k < b.len(),
        a.len() + b.len() < usize::MAX,
        forall|i: int| 0 <= i < k ==> (#[trigger] a[i]).node_value == b[i].node_value,
        a[k as int].node_value != b[k as int].node_value,
    ensures
        empty_tree().merged(a).merged(b).tree == single_chain_tree(a).update(
            k as int,
            with_link(single_chain_tree(a)[k as int], b[k as int].id),
        ) + placed(b, k, k + 1),
        empty_tree().merged(a).merged(b).tree[0].next == Some(seq![NodeID { index: a[0].id }]),
        links_to_next(a, k - 1) ==> empty_tree().merged(a).merged(b).tree[k as int].next == Some(
            seq![NodeID { index: a[k as int].id }, NodeID { index: b[k as int].id }],
        ),
        empty_tree().merged(a).merged(b).tree.len() == 1 + a.len() + (b.len() - k),
        forall|i: int|
            0 <= i < a.len() && i != k - 1 ==> #[trigger] empty_tree().merged(a).merged(b).tree[1 + i] == (NodeView {
                level: (1 + i) as usize,
                ..a[i]
            }),
        empty_tree().merged(a).merged(b).tree[k as int] == with_link(
            NodeView { level: k as usize, ..a[k - 1] },
            b[k as int].id,
        ),
        forall|i: int|
            k <= i < b.len() ==> #[trigger] empty_tree().merged(a).merged(b).tree[1 + a.len() + (i - k)] == (NodeView {
                level: (1 + i) as usize,
                ..b[i]
            }),
{
    lemma_merge_first(a);
    let first = empty_tree().merged(a);
    let tree = first.tree;
    assert(rooted(tree) == tree);
    lemma_walk_shared(a, b, k, 0);
    assert forall|i: int| 1 <= i < tree.len() implies (#[trigger] tree[i]).level == i by {
        assert(tree[i] == placed(a, 0, 1)[i - 1]);
    }
    assert forall|i: int| k + 1 <= i < tree.len() implies (#[trigger] tree[i]).level > tree[k as int].level && !(
    tree[i].level == tree[k as int].level + 1 && tree[i].node_value == b[k as int].node_value) by {
        assert(tree[i] == placed(a, 0, 1)[i - 1]);
    }
    lemma_scan_misses(tree, k as int, b[k as int].node_value, k as int + 1);
    assert(tree.subrange(0, tree.len() as int) =~= tree);
    assert(tree.subrange(tree.len() as int, tree.len() as int) =~= Seq::<NodeView>::empty());
    assert(first.merged(b).tree =~= tree.update(k as int, with_link(tree[k as int], b[k as int].id)) + placed(
        b,
        k,
        k + 1,
    ));
    assert(root_node().next->0.push(NodeID { index: a[0].id }) =~= seq![NodeID { index: a[0].id }]);
    if links_to_next(a, k - 1) {
        assert(tree[k as int] == placed(a, 0, 1)[k - 1]);
        assert(seq![NodeID { index: a[k as int].id }].push(NodeID { index: b[k as int].id }) =~= seq![
            NodeID { index: a[k as int].id },
            NodeID { index: b[k as int].id },
        ]);
    }
}

/// Whether two chains say the same: they have the same number of nodes,
/// and nodes at the same position have the same kind and value.
pub open spec fn same_labels(a: Seq<NodeView>, b: Seq<NodeView>) -> bool {
    &&& a.len() == b.len()
    &&& forall|i: int|
        0 <= i < a.len() ==> (#[trigger] a[i]).node_type == b[i].node_type && a[i].node_value == b[i].node_value
}

/// Whether two trees have the same structure: the same number of nodes,
/// and nodes at the same position have the same kind, value and level.
/// The ids may differ.
pub open spec fn same_structure(a: Seq<NodeView>, b: Seq<NodeView>) -> bool {
    &&& same_labels(a, b)
    &&& forall|i: int| 0 <= i < a.len() ==> (#[trigger] a[i]).level == b[i].level
}

/// In trees of the same structure the same successors are found.
pub proof fn lemma_child_at_by_structure(
    s: Seq<NodeView>,
    t: Seq<NodeView>,
    parent: int,
    value: Seq<char>,
    from: int,
)
    requires
        same_structure(s, t),
        0 <= parent < s.len(),
    ensures
        child_at(s, parent, value, from) == child_at(t, parent, value, from),
    decreases s.len() - from,
{
    assert(s[parent].level == t[parent].level);
    if 0 <= from < s.len() {
        assert(s[from].level == t[from].level && s[from].node_value == t[from].node_value);
        if s[from].level > s[parent].level && !(s[from].level == s[parent].level + 1 && s[from].node_value == value) {
            lemma_child_at_by_structure(s, t, parent, value, from + 1);
        }
    }
}

/// In trees of the same structure the subtrees end at the same
/// positions.
pub proof fn lemma_subtree_end_by_structure(s: Seq<NodeView>, t: Seq<NodeView>, parent: int, from: int)
    requires
        same_structure(s, t),
        0 <= parent < s.len(),
    ensures
        subtree_end(s, parent, from) == subtree_end(t, parent, from),
    decreases s.len() - from,
{
    assert(s[parent].level == t[parent].level);
    if 0 <= from < s.len() {
        assert(s[from].level == t[from].level);
        if s[from].level > s[parent].level {
            lemma_subtree_end_by_structure(s, t, parent, from + 1);
        }
    }
}

/// Chains that say the same leave trees of the same structure at the same
/// point.
pub proof fn lemma_merge_point_by_structure(
    s: Seq<NodeView>,
    t: Seq<NodeView>,
    a: Seq<NodeView>,
    b: Seq<NodeView>,
    parent: int,
    matched: nat,
)
    requires
        same_structure(s, t),
        same_labels(a, b),
        0 <= parent < s.len(),
    ensures
        merge_point(s, a, parent, matched) == merge_point(t, b, parent, matched),
    decreases a.len() - matched,
{
    if matched < a.len() {
        let value = a[matched as int].node_value;
        assert(b[matched as int].node_value == value);
        lemma_child_at_by_structure(s, t, parent, value, parent + 1);
        if child_at(s, parent, value, parent + 1) is Some {
            lemma_child_at(s, parent, value, parent + 1);
            lemma_merge_point_by_structure(s, t, a, b, child_at(s, parent, value, parent + 1)->0, matched + 1);
        }
    }
}

/// Folding chains that say the same into trees of the same structure
/// gives trees of the same structure, whatever the ids of the nodes.
pub proof fn lemma_merge_keeps_structure(s: MergedView, t: MergedView, a: Seq<NodeView>, b: Seq<NodeView>)
    requires
        same_structure(s.tree, t.tree),
        same_labels(a, b),
    ensures
        same_structure(s.merged(a).tree, t.merged(b).tree),
{
    let s0 = rooted(s.tree);
    let t0 = rooted(t.tree);
    assert(same_structure(s0, t0));
    lemma_merge_point_by_structure(s0, t0, a, b, 0, 0);
    lemma_merge_point(s0, a, 0, 0);
    let point = merge_point(s0, a, 0, 0);
    if point.matched < a.len() {
        let parent = point.parent;
        lemma_subtree_end_by_structure(s0, t0, parent, parent + 1);
        lemma_subtree_end(s0, parent, parent + 1);
        let end = subtree_end(s0, parent, parent + 1);
        let level = (s0[parent].level + 1) as nat;
        assert(s0[parent].level == t0[parent].level);
        let merged_s = s.merged(a).tree;
        let merged_t = t.merged(b).tree;
        let count = a.len() - point.matched;
        assert(merged_s.len() == merged_t.len());
        assert forall|i: int| 0 <= i < merged_s.len() implies (#[trigger] merged_s[i]).node_type
            == merged_t[i].node_type && merged_s[i].node_value == merged_t[i].node_value && merged_s[i].level
            == merged_t[i].level by {
            if i < end {
                assert(s0[i].node_type == t0[i].node_type && s0[i].node_value == t0[i].node_value && s0[i].level
                    == t0[i].level);
            } else if i < end + count {
                assert(merged_s[i] == placed(a, point.matched, level)[i - end]);
                assert(merged_t[i] == placed(b, point.matched, level)[i - end]);
                assert(a[point.matched + (i - end)].node_type == b[point.matched + (i - end)].node_type);
            } else {
                assert(merged_s[i] == s0[i - count]);
                assert(merged_t[i] == t0[i - count]);
                assert(s0[i - count].node_type == t0[i - count].node_type && s0[i - count].node_value == t0[i
                    - count].node_value && s0[i - count].level == t0[i - count].level);
            }
        }
    }
}

/// The tree of a list of chains: the chains folded into the empty tree,
/// in order.
pub open spec fn merged_all(tries: Seq<Seq<NodeView>>) -> MergedView
    decreases tries.len(),
{
    if tries.len() == 0 {
        empty_tree()
    } else {
        merged_all(tries.drop_last()).merged(tries.last())
    }
}

/// Building the tree of the same rules again gives a tree of the same
/// structure: where two lists of chains say the same, chain for chain,
/// their trees have the same kinds, values and levels at every position,
/// whatever ids the nodes were given.
pub proof fn lemma_merged_all_deterministic(first: Seq<Seq<NodeView>>, second: Seq<Seq<NodeView>>)
    requires
        first.len() == second.len(),
        forall|i: int| 0 <= i < first.len() ==> same_labels(#[trigger] first[i], second[i]),
    ensures
        same_structure(merged_all(first).tree, merged_all(second).tree),
    decreases first.len(),
{
    if first.len() > 0 {
        lemma_merged_all_deterministic(first.drop_last(), second.drop_last());
        assert(same_labels(first[first.len() - 1], second[first.len() - 1]));
        lemma_merge_keeps_structure(
            merged_all(first.drop_last()),
            merged_all(second.drop_last()),
            first.last(),
            second.last(),
        );
    }
}

/// Chains of the same labels say the same, whatever id they start from.
pub proof fn lemma_chains_say_the_same(labels: Seq<NodeLabel>, first: nat, other: nat)
    ensures
        same_labels(chain_nodes(labels, first), chain_nodes(labels, other)),
{
}

} // verus!

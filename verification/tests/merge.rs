use souper_codegen::cliftinstbuilder::transform_souper_to_clift_insts;
use souper_codegen::lhspatternmatcher::{generate_single_tree_patterns, Node, NodeID, NodeType};
use souper_codegen::mergedtree::{generate_merged_prefix_tree, MergedArena};
use souper_codegen::parser::{Inst, InstKind, SouperOperand};

fn reference(idx: usize) -> SouperOperand {
    SouperOperand { idx_val: Some(idx), const_val: None, width: 32 }
}

fn constant(c: i32) -> SouperOperand {
    SouperOperand { idx_val: None, const_val: Some(c), width: 32 }
}

fn inst(kind: InstKind, ops: Option<Vec<SouperOperand>>) -> Inst {
    Inst { kind, lhs: String::new(), width: 32, var_number: None, ops }
}

/// The chain of the rule `kind x, c`, with ids from `first` on.
fn immediate_rule(kind: InstKind, c: i32, first: usize) -> Vec<Node> {
    generate_single_tree_patterns(
        transform_souper_to_clift_insts(vec![
            inst(InstKind::Var, None),
            inst(kind, Some(vec![reference(0), constant(c)])),
            inst(InstKind::Infer, Some(vec![reference(1)])),
        ]),
        first,
    )
}

/// The chain of the rule `kind x, y`, with ids from `first` on.
fn register_rule(kind: InstKind, first: usize) -> Vec<Node> {
    generate_single_tree_patterns(
        transform_souper_to_clift_insts(vec![
            inst(InstKind::Var, None),
            inst(InstKind::Var, None),
            inst(kind, Some(vec![reference(0), reference(1)])),
            inst(InstKind::Infer, Some(vec![reference(2)])),
        ]),
        first,
    )
}

fn node(value: &str, id: usize) -> Node {
    Node {
        node_type: NodeType::Opcode,
        node_value: value.to_string(),
        width: 0,
        id,
        var_id: None,
        arg_flag: false,
        level: 0,
        next: None,
        idx_num: None,
        arg_name: String::new(),
    }
}

/// A chain of nodes with the given values and consecutive ids.
fn chain(values: &[&str], first: usize) -> Vec<Node> {
    let mut nodes: Vec<Node> = values.iter().enumerate().map(|(k, v)| node(v, first + k)).collect();
    for k in 0..nodes.len().saturating_sub(1) {
        nodes[k].next = Some(vec![NodeID { index: first + k + 1 }]);
    }
    nodes
}

fn shape(tree: &[Node]) -> Vec<(NodeType, String, usize)> {
    tree.iter().map(|n| (n.node_type, n.node_value.clone(), n.level)).collect()
}

fn values_and_levels(tree: &[Node]) -> Vec<(&str, usize)> {
    tree.iter().map(|n| (n.node_value.as_str(), n.level)).collect()
}

fn links(node: &Node) -> Vec<usize> {
    node.next.as_ref().map(|l| l.iter().map(|id| id.index).collect()).unwrap_or_default()
}

#[test]
fn first_chain_becomes_the_only_successor_of_the_root() {
    let a = immediate_rule(InstKind::Add, 7, 1);
    let mut arena = MergedArena::new();
    let leaf = arena.merge_trie(&a);
    assert_eq!(leaf, 13);
    let tree = &arena.merged_tree;
    assert_eq!(tree.len(), 14);
    assert_eq!(tree[0].node_type, NodeType::MatchRoot);
    assert_eq!(tree[0].node_value, "root");
    assert_eq!(tree[0].id, 0);
    assert_eq!(tree[0].level, 0);
    assert_eq!(links(&tree[0]), vec![1]);
    for k in 0..13 {
        assert_eq!(tree[k + 1].level, k + 1);
        assert_eq!(tree[k + 1].id, a[k].id);
        assert_eq!(tree[k + 1].node_value, a[k].node_value);
        assert_eq!(tree[k + 1].node_type, a[k].node_type);
        assert_eq!(tree[k + 1].next, a[k].next);
    }
    assert!(arena.is_node_value_already_in_hash_map("instdata".to_string()));
    assert!(!arena.is_node_value_already_in_hash_map("BinaryImm".to_string()));
}

#[test]
fn chains_without_common_prefix_become_two_successors_of_the_root() {
    let a = chain(&["a0", "a1", "a2"], 1);
    let b = chain(&["b0", "b1"], 10);
    let mut arena = MergedArena::new();
    assert_eq!(arena.merge_trie(&a), 3);
    assert_eq!(arena.merge_trie(&b), 11);
    let tree = &arena.merged_tree;
    assert_eq!(links(&tree[0]), vec![1, 10]);
    assert_eq!(values_and_levels(tree), vec![("root", 0), ("a0", 1), ("a1", 2), ("a2", 3), ("b0", 1), ("b1", 2)]);
    let ids: Vec<usize> = tree.iter().map(|n| n.id).collect();
    assert_eq!(ids, vec![0, 1, 2, 3, 10, 11]);
    assert_eq!(links(&tree[1]), vec![2]);
    assert_eq!(links(&tree[2]), vec![3]);
    assert_eq!(tree[3].next, None);
    assert_eq!(links(&tree[4]), vec![11]);
    assert_eq!(tree[5].next, None);
    assert!(arena.is_node_value_already_in_hash_map("a0".to_string()));
    assert!(arena.is_node_value_already_in_hash_map("b0".to_string()));
    assert!(!arena.is_node_value_already_in_hash_map("a1".to_string()));
}

#[test]
fn chains_with_common_prefix_share_one_branch() {
    let a = immediate_rule(InstKind::Add, 7, 1);
    let b = immediate_rule(InstKind::Add, 9, 100);
    let mut arena = MergedArena::new();
    let leaf_a = arena.merge_trie(&a);
    let leaf_b = arena.merge_trie(&b);
    assert_eq!(leaf_a, 13);
    assert_eq!(leaf_b, 112);
    let tree = &arena.merged_tree;
    assert_eq!(tree.len(), 15);
    assert_eq!(links(&tree[0]), vec![1]);
    for k in 1..12 {
        assert_eq!(links(&tree[k]), vec![k + 1]);
    }
    assert_eq!(tree[12].node_value, "constant");
    assert_eq!(links(&tree[12]), vec![13, 112]);
    assert_eq!((tree[13].node_value.as_str(), tree[13].level, tree[13].id), ("7", 13, 13));
    assert_eq!((tree[14].node_value.as_str(), tree[14].level, tree[14].id), ("9", 13, 112));
    assert_eq!(tree[14].next, None);
}

#[test]
fn chains_that_part_at_the_opcode_share_the_shape() {
    let a = immediate_rule(InstKind::Add, 7, 1);
    let b = immediate_rule(InstKind::Mul, 7, 100);
    let mut arena = MergedArena::new();
    arena.merge_trie(&a);
    let leaf_b = arena.merge_trie(&b);
    assert_eq!(leaf_b, 112);
    let tree = &arena.merged_tree;
    assert_eq!(tree.len(), 14 + 10);
    assert_eq!(tree[3].node_value, "opcode");
    assert_eq!(links(&tree[3]), vec![4, 103]);
    assert_eq!((tree[4].node_value.as_str(), tree[4].level), ("iadd_imm", 4));
    assert_eq!((tree[14].node_value.as_str(), tree[14].level, tree[14].id), ("imul_imm", 4, 103));
    for k in 14..24 {
        assert_eq!(tree[k].level, k - 10);
        assert_eq!(tree[k].id, 89 + k);
    }
}

#[test]
fn rest_of_a_chain_stands_after_the_subtree_it_parts_from() {
    let mut arena = MergedArena::new();
    arena.merge_trie(&chain(&["x", "y", "z", "u", "v"], 1));
    arena.merge_trie(&chain(&["x", "y", "p", "q"], 10));
    arena.merge_trie(&chain(&["x", "y", "z", "u", "w"], 20));
    arena.merge_trie(&chain(&["x", "y", "p", "r"], 30));
    arena.merge_trie(&chain(&["k"], 40));
    let tree = &arena.merged_tree;
    assert_eq!(
        values_and_levels(tree),
        vec![
            ("root", 0),
            ("x", 1),
            ("y", 2),
            ("z", 3),
            ("u", 4),
            ("v", 5),
            ("w", 5),
            ("p", 3),
            ("q", 4),
            ("r", 4),
            ("k", 1),
        ]
    );
    assert_eq!(links(&tree[0]), vec![1, 40]);
    assert_eq!(links(&tree[2]), vec![3, 12]);
    assert_eq!(links(&tree[4]), vec![5, 24]);
    assert_eq!(links(&tree[7]), vec![13, 33]);
}

#[test]
fn chain_that_is_already_there_adds_nothing() {
    let mut arena = MergedArena::new();
    let first = arena.merge_trie(&chain(&["x", "y", "z"], 1));
    let before = shape(&arena.merged_tree);
    let again = arena.merge_trie(&chain(&["x", "y", "z"], 50));
    assert_eq!(first, 3);
    assert_eq!(again, 3);
    assert_eq!(shape(&arena.merged_tree), before);
    let prefix = arena.merge_trie(&chain(&["x", "y"], 60));
    assert_eq!(prefix, 2);
    assert_eq!(shape(&arena.merged_tree), before);
}

#[test]
fn chain_that_goes_on_after_a_leaf_is_grafted_there() {
    let mut arena = MergedArena::new();
    arena.merge_trie(&chain(&["x", "y"], 1));
    let leaf = arena.merge_trie(&chain(&["x", "y", "z"], 10));
    assert_eq!(leaf, 12);
    let tree = &arena.merged_tree;
    assert_eq!(values_and_levels(tree), vec![("root", 0), ("x", 1), ("y", 2), ("z", 3)]);
    assert_eq!(links(&tree[2]), vec![12]);
}

#[test]
fn structure_of_the_tree_does_not_depend_on_the_ids() {
    let build = |base: usize| {
        let mut arena = MergedArena::new();
        arena.merge_trie(&immediate_rule(InstKind::Add, 7, base));
        arena.merge_trie(&register_rule(InstKind::Sub, base + 1000));
        arena.merge_trie(&immediate_rule(InstKind::Add, 9, base + 2000));
        arena.merge_trie(&immediate_rule(InstKind::Xor, 7, base + 3000));
        arena
    };
    let one = build(1);
    let two = build(77);
    assert_eq!(shape(&one.merged_tree), shape(&two.merged_tree));
    assert_eq!(one.merged_tree.len(), 1 + 13 + 15 + 1 + 10);
    let ids_one: Vec<usize> = one.merged_tree.iter().map(|n| n.id).collect();
    let ids_two: Vec<usize> = two.merged_tree.iter().map(|n| n.id).collect();
    assert_ne!(ids_one, ids_two);
}

#[test]
fn merging_by_value_returns_the_arena() {
    let arena = generate_merged_prefix_tree(chain(&["x", "y"], 1), MergedArena::new());
    let arena = generate_merged_prefix_tree(chain(&["x", "z"], 5), arena);
    assert_eq!(values_and_levels(&arena.merged_tree), vec![("root", 0), ("x", 1), ("y", 2), ("z", 2)]);
    assert_eq!(links(&arena.merged_tree[1]), vec![2, 6]);
}

#[test]
fn arena_methods_on_single_nodes() {
    let mut arena = MergedArena::new();
    let root = arena.build_root_node();
    assert_eq!((root.node_type, root.node_value.as_str(), root.id, root.level), (NodeType::MatchRoot, "root", 0, 0));
    assert_eq!(root.next, Some(vec![]));
    assert!(!arena.node_has_any_connection(root.clone()));
    assert!(!arena.node_has_any_connection(node("leaf", 9)));
    let linked = arena.update_next_nodes_list(root, 4);
    assert_eq!(links(&linked), vec![4]);
    let linked = arena.update_next_nodes_list(linked, 8);
    assert_eq!(links(&linked), vec![4, 8]);
    assert!(arena.node_has_any_connection(linked.clone()));
    arena.add_node_to_arena(arena_root());
    arena.add_node_to_arena(node("x", 4));
    arena.update_node_in_arena(linked);
    assert_eq!(links(&arena.merged_tree[0]), vec![4, 8]);
    assert_eq!(arena.merged_tree[1].next, None);
    let mut stranger = node("nobody", 99);
    stranger.next = Some(vec![NodeID { index: 1 }]);
    arena.update_node_in_arena(stranger);
    assert_eq!(links(&arena.merged_tree[0]), vec![4, 8]);
    assert_eq!(arena.find_node_with_id_in_arena(4).node_value, "x");
    assert_eq!(arena.find_node_with_id_in_arena(0).node_value, "root");
    let list = chain(&["p", "q"], 20);
    assert_eq!(arena.get_first_node_of_opt_pattern(list.clone()), list[0]);
    assert_eq!(arena.get_value_of_node(list[1].clone()), "q");
    assert_eq!(arena.get_id_of_node(list[1].clone()), 21);
}

fn arena_root() -> Node {
    let mut root = node("root", 0);
    root.node_type = NodeType::MatchRoot;
    root.next = Some(vec![]);
    root
}

#[test]
fn lookup_keeps_the_last_entry_of_a_value() {
    let mut arena = MergedArena::new();
    assert!(!arena.is_node_value_already_in_hash_map("x".to_string()));
    arena.update_hash_map("x".to_string(), 1);
    arena.update_hash_map("y".to_string(), 2);
    arena.update_hash_map("x".to_string(), 3);
    assert!(arena.is_node_value_already_in_hash_map("x".to_string()));
    assert!(arena.is_node_value_already_in_hash_map("y".to_string()));
    assert!(!arena.is_node_value_already_in_hash_map("z".to_string()));
    assert_eq!(arena.hmap.last().unwrap().id, 3);
}

#[test]
fn copy_of_an_arena_holds_the_same_tree_and_lookup() {
    let mut arena = MergedArena::new();
    arena.merge_trie(&chain(&["x", "y"], 1));
    arena.merge_trie(&chain(&["z"], 5));
    let copy = arena.clone();
    assert_eq!(copy, arena);
}

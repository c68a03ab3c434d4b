use souper_codegen::cliftinstbuilder::{
    transform_souper_to_clift_insts, CtonCmpCond, CtonInst, CtonInstKind, CtonOpcode, CtonOperand, CtonValueDef,
};
use souper_codegen::lhspatternmatcher::{
    find_infer, find_position, find_rule_root, generate_single_tree_patterns, get_arg_name,
    get_arg_name_for_binary_imm, get_index_from_infer_clift_op, get_infer_clift_inst, get_infer_clift_op,
    get_node_type, get_total_number_of_args, rule_is_buildable, try_generate_single_tree_patterns, Arena, Node,
    NodeID, NodeType,
};
use souper_codegen::parser::{Inst, InstKind, SouperOperand};

fn var(n: u32) -> Inst {
    Inst { kind: InstKind::Var, lhs: format!("%{}", n), width: 32, var_number: Some(n), ops: None }
}

fn reference(idx: usize) -> SouperOperand {
    SouperOperand { idx_val: Some(idx), const_val: None, width: 32 }
}

fn constant(c: i32) -> SouperOperand {
    SouperOperand { idx_val: None, const_val: Some(c), width: 32 }
}

fn op(kind: InstKind, n: u32, ops: Vec<SouperOperand>) -> Inst {
    Inst { kind, lhs: format!("%{}", n), width: 32, var_number: Some(n), ops: Some(ops) }
}

fn infer(idx: usize) -> Inst {
    Inst { kind: InstKind::Infer, lhs: "".to_string(), width: 0, var_number: None, ops: Some(vec![reference(idx)]) }
}

fn add_x_c_rule(c: i32) -> Vec<CtonInst> {
    transform_souper_to_clift_insts(vec![var(0), op(InstKind::Add, 1, vec![reference(0), constant(c)]), infer(1)])
}

fn kinds_and_values(nodes: &[Node]) -> Vec<(NodeType, String)> {
    nodes.iter().map(|n| (n.node_type, n.node_value.clone())).collect()
}

fn expect(list: &[(NodeType, &str)]) -> Vec<(NodeType, String)> {
    list.iter().map(|(t, v)| (*t, v.to_string())).collect()
}

fn assert_is_chain(nodes: &[Node], first: usize) {
    for (k, node) in nodes.iter().enumerate() {
        assert_eq!(node.id, first + k);
        assert_eq!(node.level, 0);
        assert!(!node.arg_flag);
        if k + 1 < nodes.len() {
            assert_eq!(node.next, Some(vec![NodeID { index: first + k + 1 }]));
        } else {
            assert_eq!(node.next, None);
        }
    }
}

fn plain_inst(opcode: CtonOpcode, cops: Option<Vec<CtonOperand>>) -> CtonInst {
    CtonInst {
        valuedef: CtonValueDef::Result,
        kind: CtonInstKind::Binary,
        opcode,
        cond: None,
        width: 32,
        var_num: None,
        cops,
    }
}

#[test]
fn add_immediate_rule_maps_to_immediate_form() {
    let insts = add_x_c_rule(7);
    assert_eq!(insts.len(), 3);
    assert_eq!(insts[1].opcode, CtonOpcode::IaddImm);
    assert_eq!(insts[1].kind, CtonInstKind::BinaryImm);
    assert_eq!(insts[1].valuedef, CtonValueDef::Result);
    assert_eq!(
        insts[1].cops,
        Some(vec![
            CtonOperand { idx_val: Some(0), const_val: None },
            CtonOperand { idx_val: None, const_val: Some(7) }
        ])
    );
    assert_eq!(insts[2].opcode, CtonOpcode::Infer);
}

#[test]
fn add_immediate_rule_yields_expected_chain() {
    let nodes = generate_single_tree_patterns(add_x_c_rule(7), 1);
    let expected = expect(&[
        (NodeType::MatchInstData, "instdata"),
        (NodeType::InstType, "BinaryImm"),
        (NodeType::MatchOpcode, "opcode"),
        (NodeType::Opcode, "iadd_imm"),
        (NodeType::MatchArgs, "arg"),
        (NodeType::MatchValDef, "Param"),
        (NodeType::MatchInstData, "instdata"),
        (NodeType::InstType, "Var"),
        (NodeType::MatchOpcode, "opcode"),
        (NodeType::Opcode, "Var"),
        (NodeType::MatchArgs, "imm"),
        (NodeType::MatchPlainConst, "constant"),
        (NodeType::MatchConst, "7"),
    ]);
    assert_eq!(kinds_and_values(&nodes), expected);
    assert_is_chain(&nodes, 1);
    assert_eq!(nodes[1].arg_name, "arg_0");
    assert_eq!(nodes[7].arg_name, "");
    assert_eq!(nodes[4].idx_num, Some(0));
    assert_eq!(nodes[10].idx_num, None);
    assert_eq!(nodes[1].width, 32);
    assert_eq!(nodes[0].width, 0);
    assert_eq!(nodes[1].var_id, Some(1));
    assert_eq!(nodes[5].var_id, Some(0));
    assert_eq!(nodes[12].var_id, None);
}

#[test]
fn comparison_rule_has_condition_nodes() {
    let rule = transform_souper_to_clift_insts(vec![
        var(0),
        var(1),
        op(InstKind::Ult, 2, vec![reference(0), reference(1)]),
        infer(2),
    ]);
    assert_eq!(rule[2].cond, Some(CtonCmpCond::Ult));
    let nodes = generate_single_tree_patterns(rule, 40);
    let expected = expect(&[
        (NodeType::MatchInstData, "instdata"),
        (NodeType::InstType, "IntCompare"),
        (NodeType::MatchOpcode, "opcode"),
        (NodeType::Opcode, "icmp"),
        (NodeType::MatchCond, "cond"),
        (NodeType::Cond, "ult"),
        (NodeType::MatchArgs, "args[0]"),
        (NodeType::MatchValDef, "Param"),
        (NodeType::MatchInstData, "instdata"),
        (NodeType::InstType, "Var"),
        (NodeType::MatchOpcode, "opcode"),
        (NodeType::Opcode, "Var"),
        (NodeType::MatchArgs, "args[1]"),
        (NodeType::MatchValDef, "Param"),
        (NodeType::MatchInstData, "instdata"),
        (NodeType::InstType, "Var"),
        (NodeType::MatchOpcode, "opcode"),
        (NodeType::Opcode, "Var"),
    ]);
    assert_eq!(kinds_and_values(&nodes), expected);
    assert_is_chain(&nodes, 40);
    assert_eq!(nodes[5].width, 1);
}

#[test]
fn referenced_instruction_continues_the_chain() {
    let rule = transform_souper_to_clift_insts(vec![
        var(0),
        var(1),
        op(InstKind::Mul, 2, vec![reference(0), constant(3)]),
        op(InstKind::Add, 3, vec![reference(2), reference(1)]),
        infer(3),
    ]);
    let nodes = generate_single_tree_patterns(rule, 0);
    let expected = expect(&[
        (NodeType::MatchInstData, "instdata"),
        (NodeType::InstType, "Binary"),
        (NodeType::MatchOpcode, "opcode"),
        (NodeType::Opcode, "iadd"),
        (NodeType::MatchArgs, "args[0]"),
        (NodeType::MatchValDef, "Result"),
        (NodeType::MatchInstData, "instdata"),
        (NodeType::InstType, "BinaryImm"),
        (NodeType::MatchOpcode, "opcode"),
        (NodeType::Opcode, "imul_imm"),
        (NodeType::MatchArgs, "arg"),
        (NodeType::MatchValDef, "Param"),
        (NodeType::MatchInstData, "instdata"),
        (NodeType::InstType, "Var"),
        (NodeType::MatchOpcode, "opcode"),
        (NodeType::Opcode, "Var"),
        (NodeType::MatchArgs, "imm"),
        (NodeType::MatchPlainConst, "constant"),
        (NodeType::MatchConst, "3"),
        (NodeType::MatchArgs, "args[1]"),
        (NodeType::MatchValDef, "Param"),
        (NodeType::MatchInstData, "instdata"),
        (NodeType::InstType, "Var"),
        (NodeType::MatchOpcode, "opcode"),
        (NodeType::Opcode, "Var"),
    ]);
    assert_eq!(kinds_and_values(&nodes), expected);
    assert_is_chain(&nodes, 0);
    assert_eq!(nodes[1].arg_name, "arg_0");
    assert_eq!(nodes[7].arg_name, "arg_1");
    assert_eq!(nodes[4].idx_num, Some(2));
}

#[test]
fn reading_the_chain_back_along_its_links_gives_the_rule() {
    let nodes = generate_single_tree_patterns(add_x_c_rule(-12), 500);
    let mut read: Vec<(NodeType, String)> = Vec::new();
    let mut at = Some(500);
    while let Some(id) = at {
        let position = find_position(&nodes, id).unwrap();
        read.push((nodes[position].node_type, nodes[position].node_value.clone()));
        at = nodes[position].next.as_ref().map(|links| links[0].index);
    }
    assert_eq!(read, kinds_and_values(&nodes));
    assert_eq!(read.len(), 13);
    assert_eq!(read[3], (NodeType::Opcode, "iadd_imm".to_string()));
    assert_eq!(read[12], (NodeType::MatchConst, "-12".to_string()));
}

#[test]
fn same_rule_under_other_ids_says_the_same() {
    let low = generate_single_tree_patterns(add_x_c_rule(7), 1);
    let high = generate_single_tree_patterns(add_x_c_rule(7), 9000);
    assert_eq!(kinds_and_values(&low), kinds_and_values(&high));
    assert_is_chain(&high, 9000);
}

#[test]
fn constants_are_rendered_in_decimal() {
    let nodes = generate_single_tree_patterns(add_x_c_rule(i32::MIN), 1);
    assert_eq!(nodes.last().unwrap().node_value, "-2147483648");
    let nodes = generate_single_tree_patterns(add_x_c_rule(0), 1);
    assert_eq!(nodes.last().unwrap().node_value, "0");
}

#[test]
fn rule_without_infer_has_no_chain() {
    let rule = transform_souper_to_clift_insts(vec![var(0), op(InstKind::Add, 1, vec![reference(0), constant(1)])]);
    assert_eq!(find_infer(&rule), None);
    assert_eq!(find_rule_root(&rule), None);
    assert!(!rule_is_buildable(&rule, 0));
    assert_eq!(try_generate_single_tree_patterns(rule, 0), None);
}

#[test]
fn infer_must_refer_into_the_rule() {
    let outside = transform_souper_to_clift_insts(vec![var(0), infer(5)]);
    assert_eq!(find_infer(&outside), Some(1));
    assert_eq!(find_rule_root(&outside), None);
    let constant_operand = transform_souper_to_clift_insts(vec![
        var(0),
        Inst { kind: InstKind::Infer, lhs: "".to_string(), width: 0, var_number: None, ops: Some(vec![constant(1)]) },
    ]);
    assert_eq!(find_rule_root(&constant_operand), None);
    let two_operands = transform_souper_to_clift_insts(vec![
        var(0),
        Inst {
            kind: InstKind::Infer,
            lhs: "".to_string(),
            width: 0,
            var_number: None,
            ops: Some(vec![reference(0), reference(0)]),
        },
    ]);
    assert_eq!(find_rule_root(&two_operands), None);
    let none = transform_souper_to_clift_insts(vec![
        var(0),
        Inst { kind: InstKind::Infer, lhs: "".to_string(), width: 0, var_number: None, ops: None },
    ]);
    assert_eq!(find_rule_root(&none), None);
}

#[test]
fn cyclic_references_have_no_chain() {
    let rule = transform_souper_to_clift_insts(vec![op(InstKind::Add, 0, vec![reference(0), constant(1)]), infer(0)]);
    assert_eq!(find_rule_root(&rule), Some(0));
    assert!(!rule_is_buildable(&rule, 0));
    assert_eq!(try_generate_single_tree_patterns(rule, 0), None);
    let two = transform_souper_to_clift_insts(vec![
        op(InstKind::Ctpop, 0, vec![reference(1)]),
        op(InstKind::Ctlz, 1, vec![reference(0)]),
        infer(1),
    ]);
    assert!(!rule_is_buildable(&two, 0));
}

#[test]
fn forward_references_without_cycle_have_a_chain() {
    let rule = transform_souper_to_clift_insts(vec![op(InstKind::Ctpop, 0, vec![reference(1)]), var(1), infer(0)]);
    let nodes = try_generate_single_tree_patterns(rule, 3).unwrap();
    assert_eq!(nodes.len(), 10);
    assert_eq!(nodes[3].node_value, "popcnt");
    assert_is_chain(&nodes, 3);
}

#[test]
fn malformed_operands_have_no_chain() {
    let neither = vec![
        plain_inst(CtonOpcode::Iadd, Some(vec![CtonOperand { idx_val: None, const_val: None }])),
        plain_inst(CtonOpcode::Infer, Some(vec![CtonOperand { idx_val: Some(0), const_val: None }])),
    ];
    assert_eq!(find_rule_root(&neither), Some(0));
    assert!(!rule_is_buildable(&neither, 0));
    let both = vec![
        plain_inst(CtonOpcode::Iadd, Some(vec![CtonOperand { idx_val: Some(0), const_val: Some(1) }])),
        plain_inst(CtonOpcode::Infer, Some(vec![CtonOperand { idx_val: Some(0), const_val: None }])),
    ];
    assert!(!rule_is_buildable(&both, 0));
    let outside = vec![
        plain_inst(CtonOpcode::Iadd, Some(vec![CtonOperand { idx_val: Some(7), const_val: None }])),
        plain_inst(CtonOpcode::Infer, Some(vec![CtonOperand { idx_val: Some(0), const_val: None }])),
    ];
    assert!(!rule_is_buildable(&outside, 0));
}

#[test]
fn ids_must_fit() {
    assert!(rule_is_buildable(&add_x_c_rule(1), usize::MAX - 13));
    assert!(!rule_is_buildable(&add_x_c_rule(1), usize::MAX - 12));
    assert_eq!(try_generate_single_tree_patterns(add_x_c_rule(1), usize::MAX), None);
    let nodes = try_generate_single_tree_patterns(add_x_c_rule(1), usize::MAX - 13).unwrap();
    assert_eq!(nodes.last().unwrap().id, usize::MAX - 1);
}

#[test]
fn operand_selector_names() {
    assert_eq!(get_arg_name(0), "args[0]");
    assert_eq!(get_arg_name(12), "args[12]");
    assert_eq!(get_arg_name_for_binary_imm(0, "index"), "arg");
    assert_eq!(get_arg_name_for_binary_imm(1, "const"), "imm");
}

#[test]
fn first_infer_is_taken() {
    let insts = vec![
        plain_inst(CtonOpcode::Var, None),
        plain_inst(CtonOpcode::Infer, Some(vec![CtonOperand { idx_val: Some(0), const_val: None }])),
        plain_inst(CtonOpcode::Infer, Some(vec![CtonOperand { idx_val: Some(1), const_val: None }])),
    ];
    let found = get_infer_clift_inst(insts.clone());
    assert_eq!(found, insts[1]);
    let ops = get_infer_clift_op(found);
    assert_eq!(ops, vec![CtonOperand { idx_val: Some(0), const_val: None }]);
    assert_eq!(get_index_from_infer_clift_op(ops), 0);
    assert_eq!(get_index_from_infer_clift_op(vec![]), 0);
    assert_eq!(
        get_index_from_infer_clift_op(vec![
            CtonOperand { idx_val: Some(4), const_val: None },
            CtonOperand { idx_val: Some(6), const_val: None }
        ]),
        6
    );
}

#[test]
fn placeholder_stands_in_for_missing_infer() {
    let found = get_infer_clift_inst(vec![plain_inst(CtonOpcode::Var, None)]);
    assert_eq!(found.opcode, CtonOpcode::NoneType);
    assert_eq!(found.kind, CtonInstKind::NoneType);
    assert_eq!(found.valuedef, CtonValueDef::NoneType);
    assert_eq!(found.var_num, Some(0));
    assert_eq!(found.width, 0);
    assert_eq!(found.cops, None);
}

#[test]
fn operand_counts() {
    assert_eq!(get_total_number_of_args(&plain_inst(CtonOpcode::Var, None)), 0);
    assert_eq!(get_total_number_of_args(&plain_inst(CtonOpcode::Var, Some(vec![]))), 0);
    let two = Some(vec![CtonOperand { idx_val: Some(0), const_val: None }; 2]);
    assert_eq!(get_total_number_of_args(&plain_inst(CtonOpcode::Iadd, two)), 2);
}

#[test]
fn node_kind_names() {
    assert_eq!(get_node_type(NodeType::MatchInstData), "MatchInstData");
    assert_eq!(get_node_type(NodeType::InstType), "InstType");
    assert_eq!(get_node_type(NodeType::MatchOpcode), "MatchOpcode");
    assert_eq!(get_node_type(NodeType::Opcode), "Opcode");
    assert_eq!(get_node_type(NodeType::MatchArgs), "MatchArgs");
    assert_eq!(get_node_type(NodeType::MatchConst), "MatchConst");
    assert_eq!(get_node_type(NodeType::MatchPlainConst), "MatchPlainConst");
    assert_eq!(get_node_type(NodeType::MatchRoot), "MatchRoot");
    assert_eq!(get_node_type(NodeType::MatchValDef), "MatchValDef");
    assert_eq!(get_node_type(NodeType::MatchCond), "MatchCond");
    assert_eq!(get_node_type(NodeType::Cond), "Cond");
}

#[test]
fn arena_builds_single_nodes_under_the_current_id() {
    let mut arena = Arena::new(17);
    assert_eq!(arena.count, 17);
    assert_eq!(arena.instdata_count, 0);
    assert!(arena.nodes.is_empty());
    let inst = CtonInst {
        valuedef: CtonValueDef::Result,
        kind: CtonInstKind::IntCompareImm,
        opcode: CtonOpcode::IcmpImm,
        cond: Some(CtonCmpCond::Sle),
        width: 1,
        var_num: Some(4),
        cops: None,
    };
    let node = arena.build_default_node();
    assert_eq!((node.node_type, node.node_value.as_str(), node.id, node.next.clone()), (NodeType::MatchNone, "", 17, None));
    let node = arena.build_instdata_node(&inst);
    assert_eq!((node.node_type, node.node_value.as_str(), node.width, node.var_id), (NodeType::MatchInstData, "instdata", 0, Some(4)));
    let node = arena.build_specific_instdata_node(&inst);
    assert_eq!((node.node_type, node.node_value.as_str(), node.width, node.arg_name.as_str()), (NodeType::InstType, "IntCompareImm", 1, "arg_0"));
    assert_eq!(arena.instdata_count, 1);
    let node = arena.build_opcode_node(&inst);
    assert_eq!((node.node_type, node.node_value.as_str(), node.width), (NodeType::MatchOpcode, "opcode", 0));
    let node = arena.build_specific_opcode_node(&inst);
    assert_eq!((node.node_type, node.node_value.as_str(), node.width), (NodeType::Opcode, "icmp_imm", 1));
    let node = arena.build_cond_node(&inst);
    assert_eq!((node.node_type, node.node_value.as_str(), node.width), (NodeType::MatchCond, "cond", 0));
    let node = arena.build_specific_cond_node(&inst);
    assert_eq!((node.node_type, node.node_value.as_str(), node.width), (NodeType::Cond, "sle", 1));
    let node = arena.build_valdef_node(&inst);
    assert_eq!((node.node_type, node.node_value.as_str(), node.var_id), (NodeType::MatchValDef, "Result", Some(4)));
    let node = arena.build_constant_node(-30);
    assert_eq!((node.node_type, node.node_value.as_str(), node.id), (NodeType::MatchConst, "-30", 17));
    let node = arena.build_plain_constant_node();
    assert_eq!((node.node_type, node.node_value.as_str()), (NodeType::MatchPlainConst, "constant"));
    arena.update_count();
    assert_eq!(arena.count, 18);
    assert_eq!(arena.build_default_node().id, 18);
}

#[test]
fn shape_names_are_numbered_for_counted_shapes_only() {
    let mut arena = Arena::new(0);
    assert_eq!(arena.get_arg_name_for_instdata_node(CtonInstKind::Binary), "arg_0");
    assert_eq!(arena.get_arg_name_for_instdata_node(CtonInstKind::Var), "");
    assert_eq!(arena.get_arg_name_for_instdata_node(CtonInstKind::NoneType), "");
    assert_eq!(arena.get_arg_name_for_instdata_node(CtonInstKind::UnaryImm), "arg_1");
    assert_eq!(arena.get_arg_name_for_instdata_node(CtonInstKind::Unary), "arg_2");
    assert_eq!(arena.instdata_count, 3);
}

#[test]
fn operand_selectors_go_by_role_in_immediate_forms() {
    let mut arena = Arena::new(5);
    for shape in ["BinaryImm", "IntCompareImm", "UnaryImm"] {
        let node = arena.build_separate_arg_node("index".to_string(), 1, shape.to_string(), Some(3));
        assert_eq!((node.node_type, node.node_value.as_str(), node.idx_num, node.id), (NodeType::MatchArgs, "arg", Some(3), 5));
        let node = arena.build_separate_arg_node("const".to_string(), 0, shape.to_string(), None);
        assert_eq!((node.node_value.as_str(), node.idx_num), ("imm", None));
    }
    for shape in ["Binary", "IntCompare", "Unary", "Var"] {
        let node = arena.build_separate_arg_node("index".to_string(), 1, shape.to_string(), Some(3));
        assert_eq!(node.node_value, "args[1]");
    }
}

#[test]
fn links_are_set_on_copies() {
    let mut arena = Arena::new(8);
    let previous = arena.build_default_node();
    arena.update_count();
    let current = arena.build_default_node();
    let linked = arena.set_next_of_prev_node(current.clone(), previous);
    assert_eq!(linked.id, 8);
    assert_eq!(linked.next, Some(vec![NodeID { index: 9 }]));
    arena.update_count();
    let linked = arena.set_next_of_current_node_by_default(current);
    assert_eq!(linked.id, 9);
    assert_eq!(linked.next, Some(vec![NodeID { index: 10 }]));
}

#[test]
fn arena_finds_nodes_by_id() {
    let mut arena = Arena::new(3);
    arena.clift_insts = add_x_c_rule(7);
    let root = arena.clift_insts[1].clone();
    let all = arena.build_sequence_of_nodes(&root);
    assert_eq!(all.len(), 13);
    assert_eq!(all, arena.nodes);
    assert_eq!(arena.count, 16);
    assert_eq!(arena.instdata_count, 1);
    let found = arena.get_node_with_id(6).unwrap();
    assert_eq!(found.index, 3);
    assert_eq!(found.node.node_value, "iadd_imm");
    let found = arena.get_node_with_id(15).unwrap();
    assert_eq!(found.index, 12);
    assert!(arena.get_node_with_id(16).is_none());
    assert!(arena.get_node_with_id(2).is_none());
}

#[test]
fn operands_are_appended_after_the_node_made_last() {
    let mut arena = Arena::new(0);
    arena.clift_insts = add_x_c_rule(7);
    let inst = arena.clift_insts[1].clone();
    let head = arena.build_default_node();
    arena.update_count();
    arena.nodes.push(head);
    arena.build_args_node(&inst, "Binary".to_string());
    let values: Vec<&str> = arena.nodes.iter().map(|n| n.node_value.as_str()).collect();
    assert_eq!(
        values,
        vec!["", "args[0]", "Param", "instdata", "Var", "opcode", "Var", "args[1]", "constant", "7"]
    );
    assert_is_chain(&arena.nodes, 0);
    assert_eq!(arena.count, 10);
}

#[test]
fn operand_forms_and_references_by_position() {
    let mut arena = Arena::new(0);
    let inst = plain_inst(
        CtonOpcode::Iadd,
        Some(vec![
            CtonOperand { idx_val: Some(4), const_val: None },
            CtonOperand { idx_val: None, const_val: Some(2) },
        ]),
    );
    assert_eq!(arena.get_clift_op_type_from_arg_num(&inst, 0), "index");
    assert_eq!(arena.get_clift_op_type_from_arg_num(&inst, 1), "const");
    assert_eq!(arena.get_clift_op_index_num_from_arg_num(&inst, 0), Some(4));
    assert_eq!(arena.get_clift_op_index_num_from_arg_num(&inst, 1), None);
    assert_eq!(arena.get_clift_op_index_num_from_arg_num(&inst, 2), None);
    assert_eq!(arena.get_clift_op_index_num_from_arg_num(&plain_inst(CtonOpcode::Var, None), 0), None);
}

#[test]
fn copy_of_a_found_node_holds_the_same_node() {
    let mut arena = Arena::new(0);
    arena.clift_insts = add_x_c_rule(7);
    let root = arena.clift_insts[1].clone();
    arena.build_sequence_of_nodes(&root);
    let found = arena.get_node_with_id(4).unwrap();
    assert_eq!(found.clone(), found);
    assert_eq!(found.node, arena.nodes[4]);
}

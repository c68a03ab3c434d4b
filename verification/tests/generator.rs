use souper_codegen::baseline_matcher::{
    generate_baseline_matcher, ids_are_distinct, links_are_present, try_generate_baseline_matcher,
};
use souper_codegen::cliftinstbuilder::{
    transform_souper_to_clift_insts, CtonInst, CtonInstKind, CtonOpcode, CtonOperand, CtonValueDef,
};
use souper_codegen::lhspatternmatcher::{generate_single_tree_patterns, Node, NodeType};
use souper_codegen::mergedtree::MergedArena;
use souper_codegen::parser::{Inst, InstKind, SouperOperand};
use std::collections::HashMap;

fn reference(idx: usize) -> SouperOperand {
    SouperOperand { idx_val: Some(idx), const_val: None, width: 32 }
}

fn constant(c: i32) -> SouperOperand {
    SouperOperand { idx_val: None, const_val: Some(c), width: 32 }
}

fn inst(kind: InstKind, ops: Option<Vec<SouperOperand>>) -> Inst {
    Inst { kind, lhs: String::new(), width: 32, var_number: None, ops }
}

fn chain_of(insts: Vec<Inst>, first: usize) -> Vec<Node> {
    generate_single_tree_patterns(transform_souper_to_clift_insts(insts), first)
}

fn immediate_rule(kind: InstKind, c: i32, first: usize) -> Vec<Node> {
    chain_of(
        vec![
            inst(InstKind::Var, None),
            inst(kind, Some(vec![reference(0), constant(c)])),
            inst(InstKind::Infer, Some(vec![reference(1)])),
        ],
        first,
    )
}

fn constant_replacement(c: i32) -> Vec<CtonInst> {
    vec![CtonInst {
        valuedef: CtonValueDef::Result,
        kind: CtonInstKind::BinaryImm,
        opcode: CtonOpcode::ImulImm,
        cond: None,
        width: 32,
        var_num: None,
        cops: Some(vec![
            CtonOperand { idx_val: Some(0), const_val: None },
            CtonOperand { idx_val: None, const_val: Some(c) },
        ]),
    }]
}

fn bare_node(node_type: NodeType, value: &str, id: usize) -> Node {
    Node {
        node_type,
        node_value: value.to_string(),
        width: 0,
        id,
        var_id: None,
        arg_flag: false,
        level: 0,
        next: None,
        idx_num: None,
        arg_name: String::new(),
    }
}

#[test]
fn add_constant_rule_renders_doubled_constant() {
    let nodes = immediate_rule(InstKind::Add, 7, 1);
    let leaf = nodes.last().unwrap().id;
    let mut table = HashMap::new();
    table.insert(leaf, constant_replacement(14));
    let text = generate_baseline_matcher(nodes, table, 3);
    assert_eq!(text.matches("match pos.func.dfg[inst]").count(), 1);
    assert_eq!(text.matches("Opcode::IaddImm => {").count(), 1);
    assert_eq!(text.matches("if rhs_1 == 7 {").count(), 1);
    assert_eq!(text.matches("pos.func.dfg.replace(inst).iconst(width, 14); ").count(), 1);
    assert_eq!(
        text,
        "fn superopt_3(pos: &mut FuncCursor, inst: Inst) {\n\
         match pos.func.dfg[inst] {\n\
         InstructionData::BinaryImm { opcode, arg, imm } => {\n\
         let args_1 = arg;\n\
         let rhs_1 : i64 = imm.into();\n\
         match opcode {\n\
         Opcode::IaddImm => {\n\
         if rhs_1 == 7 {\n\
         pos.func.dfg.replace(inst).iconst(width, 14); \
         \n}\
         \n},\n_ => {},\
         \n}\
         \n},\n_ => {},\
         \n}\
         \n}"
    );
}

#[test]
fn generated_blocks_are_balanced() {
    let nodes = chain_of(
        vec![
            inst(InstKind::Var, None),
            inst(InstKind::Var, None),
            inst(InstKind::Mul, Some(vec![reference(0), constant(3)])),
            inst(InstKind::Add, Some(vec![reference(2), reference(1)])),
            inst(InstKind::Infer, Some(vec![reference(3)])),
        ],
        1,
    );
    let text = generate_baseline_matcher(nodes, HashMap::new(), 0);
    assert_eq!(text.matches('{').count(), text.matches('}').count());
    assert!(text.ends_with("\n}"));
}

#[test]
fn result_operand_is_matched_on_its_definition() {
    let nodes = chain_of(
        vec![
            inst(InstKind::Var, None),
            inst(InstKind::Var, None),
            inst(InstKind::Mul, Some(vec![reference(0), constant(3)])),
            inst(InstKind::Add, Some(vec![reference(2), reference(1)])),
            inst(InstKind::Infer, Some(vec![reference(3)])),
        ],
        1,
    );
    let leaf = nodes.last().unwrap().id;
    let mut table = HashMap::new();
    table.insert(leaf, constant_replacement(1));
    let text = generate_baseline_matcher(nodes, table, 0);
    assert_eq!(
        text,
        "fn superopt_0(pos: &mut FuncCursor, inst: Inst) {\n\
         match pos.func.dfg[inst] {\n\
         InstructionData::Binary { opcode, args } => {\n\
         let args_1 = args;\n\
         match opcode {\n\
         Opcode::Iadd => {\n\
         match pos.func.dfg.value_def(args_1[0]) {\n\
         \nValueDef::Result(arg_ty, _) => {\n\
         match pos.func.dfg[arg_ty] {\n\
         InstructionData::BinaryImm { opcode, arg, imm } => {\n\
         let args_2 = arg;\n\
         let rhs_1 : i64 = imm.into();\n\
         match opcode {\n\
         Opcode::ImulImm => {\n\
         if rhs_1 == 3 {\n\
         pos.func.dfg.replace(inst).iconst(width, 1); \
         \n}\
         \n},\n_ => {},\
         \n}\
         \n},\n_ => {},\
         \n}\
         \n},\n_ => {},\
         \n}\
         \n},\n_ => {},\
         \n}\
         \n},\n_ => {},\
         \n}\
         \n}"
    );
}

#[test]
fn comparison_rule_matches_its_condition() {
    let nodes = chain_of(
        vec![
            inst(InstKind::Var, None),
            inst(InstKind::Var, None),
            inst(InstKind::Ult, Some(vec![reference(0), reference(1)])),
            inst(InstKind::Infer, Some(vec![reference(2)])),
        ],
        1,
    );
    let leaf = nodes.last().unwrap().id;
    let mut table = HashMap::new();
    table.insert(leaf, constant_replacement(0));
    let text = generate_baseline_matcher(nodes, table, 9);
    assert_eq!(
        text,
        "fn superopt_9(pos: &mut FuncCursor, inst: Inst) {\n\
         match pos.func.dfg[inst] {\n\
         InstructionData::IntCompare { opcode, cond, args } => {\n\
         let args_1 = args;\n\
         match opcode {\n\
         Opcode::Icmp => {\n\
         match cond {\n\
         IntCC::UnsignedLessThan => {\n\
         pos.func.dfg.replace(inst).iconst(width, 0); \
         \n},\n_ => {},\
         \n}\
         \n},\n_ => {},\
         \n}\
         \n},\n_ => {},\
         \n}\
         \n}"
    );
}

#[test]
fn merged_tree_renders_each_replacement_once() {
    let mut arena = MergedArena::new();
    let leaf_a = arena.merge_trie(&immediate_rule(InstKind::Add, 7, 1));
    let leaf_b = arena.merge_trie(&immediate_rule(InstKind::Mul, 2, 100));
    let leaf_c = arena.merge_trie(&immediate_rule(InstKind::Add, 9, 200));
    let mut table = HashMap::new();
    table.insert(leaf_a, constant_replacement(14));
    table.insert(leaf_b, constant_replacement(4));
    table.insert(leaf_c, constant_replacement(18));
    table.insert(5000, constant_replacement(77));
    let text = generate_baseline_matcher(arena.merged_tree, table, 1);
    assert_eq!(text.matches("iconst(width, 14); ").count(), 1);
    assert_eq!(text.matches("iconst(width, 4); ").count(), 1);
    assert_eq!(text.matches("iconst(width, 18); ").count(), 1);
    assert_eq!(text.matches("iconst(width, 77); ").count(), 0);
    assert_eq!(text.matches("pos.func.dfg.replace(inst)").count(), 3);
    assert_eq!(text.matches("fn superopt_1(").count(), 1);
    assert_eq!(text.matches("match pos.func.dfg[inst] {").count(), 1);
    assert_eq!(text.matches("InstructionData::BinaryImm { opcode, arg, imm } => {").count(), 1);
    assert_eq!(text.matches("match opcode {").count(), 1);
    assert_eq!(text.matches("Opcode::IaddImm => {").count(), 1);
    assert_eq!(text.matches("Opcode::ImulImm => {").count(), 1);
    assert_eq!(text.matches('{').count(), text.matches('}').count());
    let add = text.find("Opcode::IaddImm").unwrap();
    let seven = text.find("== 7 {").unwrap();
    let nine = text.find("== 9 {").unwrap();
    let mul = text.find("Opcode::ImulImm").unwrap();
    assert!(add < seven && seven < nine && nine < mul);
}

#[test]
fn list_that_begins_with_a_root_gets_no_second_root() {
    let mut arena = MergedArena::new();
    arena.merge_trie(&immediate_rule(InstKind::Add, 7, 1));
    let from_tree = generate_baseline_matcher(arena.merged_tree, HashMap::new(), 2);
    let from_chain = generate_baseline_matcher(immediate_rule(InstKind::Add, 7, 1), HashMap::new(), 2);
    assert_eq!(from_tree, from_chain);
    assert_eq!(from_tree.matches("fn superopt_2(").count(), 1);
}

#[test]
fn empty_list_renders_an_empty_function() {
    let text = generate_baseline_matcher(vec![], HashMap::new(), 0);
    assert_eq!(text, "fn superopt_0(pos: &mut FuncCursor, inst: Inst) {\n\n}");
}

#[test]
fn replacement_of_an_inner_node_is_rendered_at_that_node() {
    let nodes = immediate_rule(InstKind::Add, 7, 1);
    let mut table = HashMap::new();
    table.insert(nodes[3].id, constant_replacement(5));
    table.insert(nodes[4].id, constant_replacement(6));
    let text = generate_baseline_matcher(nodes, table, 0);
    assert!(text.contains("Opcode::IaddImm => {\npos.func.dfg.replace(inst).iconst(width, 5); pos.func.dfg.replace(inst).iconst(width, 6); if rhs_1 == 7 {\n"));
}

#[test]
fn generation_is_refused_outside_the_vocabulary() {
    let unknown_opcode = vec![bare_node(NodeType::Opcode, "udiv", 1)];
    assert_eq!(try_generate_baseline_matcher(unknown_opcode, HashMap::new(), 0), None);
    let unknown_shape = vec![bare_node(NodeType::InstType, "Ternary", 1)];
    assert_eq!(try_generate_baseline_matcher(unknown_shape, HashMap::new(), 0), None);
    let unknown_cond = vec![bare_node(NodeType::Cond, "uge", 1)];
    assert_eq!(try_generate_baseline_matcher(unknown_cond, HashMap::new(), 0), None);
    let no_kind = vec![bare_node(NodeType::MatchNone, "", 1)];
    assert_eq!(try_generate_baseline_matcher(no_kind, HashMap::new(), 0), None);
    let mut root = bare_node(NodeType::MatchRoot, "root", 0);
    root.next = Some(vec![]);
    let result_at_root_level = vec![root.clone(), bare_node(NodeType::MatchValDef, "Result", 1)];
    assert_eq!(try_generate_baseline_matcher(result_at_root_level, HashMap::new(), 0), None);
    let mut level_at_limit = bare_node(NodeType::MatchPlainConst, "constant", 1);
    level_at_limit.level = usize::MAX;
    assert_eq!(try_generate_baseline_matcher(vec![root, level_at_limit], HashMap::new(), 0), None);
    let mut table = HashMap::new();
    table.insert(1, vec![]);
    let known = vec![bare_node(NodeType::Opcode, "iadd", 1)];
    assert_eq!(try_generate_baseline_matcher(known.clone(), table, 0), None);
    assert!(try_generate_baseline_matcher(known, HashMap::new(), 0).is_some());
}

#[test]
fn try_generation_agrees_with_generation() {
    let nodes = immediate_rule(InstKind::Sub, -3, 1);
    let mut table = HashMap::new();
    table.insert(nodes.last().unwrap().id, constant_replacement(2));
    let tried = try_generate_baseline_matcher(nodes.clone(), table.clone(), 4).unwrap();
    assert_eq!(tried, generate_baseline_matcher(nodes, table, 4));
    assert!(tried.contains("Opcode::IsubImm => {\nif rhs_1 == -3 {\n"));
}

#[test]
fn first_node_of_a_list_without_root_stands_one_level_below_the_root() {
    let text = generate_baseline_matcher(vec![bare_node(NodeType::MatchValDef, "Result", 1)], HashMap::new(), 0);
    assert_eq!(
        text,
        "fn superopt_0(pos: &mut FuncCursor, inst: Inst) {\n\n} {\n\nValueDef::Result(arg_ty, _) => {\n\n},\n_ => {},\n}"
    );
    let mut given_level = bare_node(NodeType::Opcode, "iadd", 1);
    given_level.level = 9;
    let text = generate_baseline_matcher(vec![given_level], HashMap::new(), 0);
    assert_eq!(text, "fn superopt_0(pos: &mut FuncCursor, inst: Inst) {\nOpcode::Iadd => {\n\n},\n_ => {},\n}");
}

#[test]
fn generation_is_refused_for_an_inconsistent_list() {
    let from_zero = immediate_rule(InstKind::Add, 7, 0);
    assert_eq!(from_zero[0].id, 0);
    assert_eq!(try_generate_baseline_matcher(from_zero, HashMap::new(), 0), None);
    let repeated = vec![bare_node(NodeType::Opcode, "iadd", 4), bare_node(NodeType::Opcode, "imul", 4)];
    assert_eq!(try_generate_baseline_matcher(repeated, HashMap::new(), 0), None);
    let mut dangling = bare_node(NodeType::Opcode, "iadd", 4);
    dangling.next = Some(vec![souper_codegen::lhspatternmatcher::NodeID { index: 5 }]);
    assert_eq!(try_generate_baseline_matcher(vec![dangling.clone()], HashMap::new(), 0), None);
    let target = bare_node(NodeType::Opcode, "imul", 5);
    assert!(try_generate_baseline_matcher(vec![dangling, target], HashMap::new(), 0).is_some());
}

#[test]
fn consistency_of_lists_is_decided() {
    let chain = immediate_rule(InstKind::Add, 7, 1);
    assert!(ids_are_distinct(&chain));
    assert!(links_are_present(&chain));
    let mut broken = immediate_rule(InstKind::Add, 7, 1);
    broken.pop();
    assert!(ids_are_distinct(&broken));
    assert!(!links_are_present(&broken));
    let mut twice = immediate_rule(InstKind::Add, 7, 1);
    twice[5].id = 2;
    assert!(!ids_are_distinct(&twice));
    assert!(ids_are_distinct(&[].to_vec()));
    assert!(links_are_present(&[].to_vec()));
}

use souper_codegen::baseline_matcher::{
    get_cond_name, is_node_actionable, MatcherState, Opt, ScopeStack, ScopeType,
};
use souper_codegen::cliftinstbuilder::{CtonInst, CtonInstKind, CtonOpcode, CtonOperand, CtonValueDef};
use souper_codegen::lhspatternmatcher::{Node, NodeID, NodeType};
use std::collections::HashMap;

fn levels(opt: &Opt) -> Vec<usize> {
    opt.scope_stack.iter().map(|s| s.level).collect()
}

fn node(node_type: NodeType, value: &str, id: usize, level: usize) -> Node {
    Node {
        node_type,
        node_value: value.to_string(),
        width: 0,
        id,
        var_id: None,
        arg_flag: false,
        level,
        next: None,
        idx_num: None,
        arg_name: String::new(),
    }
}

fn replacement(opcode: CtonOpcode, ops: Vec<CtonOperand>) -> CtonInst {
    CtonInst {
        valuedef: CtonValueDef::Result,
        kind: CtonInstKind::Binary,
        opcode,
        cond: None,
        width: 32,
        var_num: None,
        cops: Some(ops),
    }
}

#[test]
fn new_state_compares_the_instruction() {
    let opt = Opt::new();
    assert_eq!(opt.current_entity, "inst");
    assert_eq!(opt.func_str, "");
    assert!(opt.scope_stack.is_empty());
    assert!(opt.const_stack.is_empty());
}

#[test]
fn header_names_the_function_by_number() {
    let mut opt = Opt::new();
    opt.generate_header(12);
    assert_eq!(opt.func_str, "fn superopt_12(pos: &mut FuncCursor, inst: Inst)");
    opt.append(" // x".to_string());
    assert_eq!(opt.func_str, "fn superopt_12(pos: &mut FuncCursor, inst: Inst) // x");
    opt.set_entity("opcode".to_string());
    assert_eq!(opt.current_entity, "opcode");
}

#[test]
fn entering_opens_the_block_of_its_kind() {
    let mut opt = Opt::new();
    opt.enter_scope(ScopeType::scope_func, 0);
    opt.enter_scope(ScopeType::scope_match, 1);
    opt.enter_scope(ScopeType::scope_case, 2);
    assert_eq!(opt.func_str, " {\n {\n => {\n");
    assert_eq!(
        opt.scope_stack,
        vec![
            ScopeStack { scope_type: ScopeType::scope_func, level: 0 },
            ScopeStack { scope_type: ScopeType::scope_match, level: 1 },
            ScopeStack { scope_type: ScopeType::scope_case, level: 2 },
        ]
    );
}

#[test]
fn leaving_writes_the_closing_text_of_the_kind() {
    let mut opt = Opt::new();
    opt.exit_scope(ScopeType::scope_match, 3);
    assert_eq!(opt.func_str, "\n}");
    opt.exit_scope(ScopeType::scope_func, 3);
    assert_eq!(opt.func_str, "\n}\n}");
    opt.exit_scope(ScopeType::scope_case, 3);
    assert_eq!(opt.func_str, "\n}\n}\n},\n_ => {},");
    assert!(opt.scope_stack.is_empty());
}

#[test]
fn level_is_looked_up_from_the_outermost_block() {
    let mut opt = Opt::new();
    assert_eq!(opt.does_level_exist_in_stack(0), 0);
    opt.enter_scope(ScopeType::scope_func, 0);
    opt.enter_scope(ScopeType::scope_match, 1);
    opt.enter_scope(ScopeType::scope_case, 2);
    opt.enter_scope(ScopeType::scope_match, 4);
    assert_eq!(opt.does_level_exist_in_stack(0), 0);
    assert_eq!(opt.does_level_exist_in_stack(1), 1);
    assert_eq!(opt.does_level_exist_in_stack(2), 2);
    assert_eq!(opt.does_level_exist_in_stack(4), 3);
    assert_eq!(opt.does_level_exist_in_stack(3), 4);
    assert_eq!(opt.does_level_exist_in_stack(9), 4);
    opt.scope_stack.push(ScopeStack { scope_type: ScopeType::scope_case, level: 1 });
    assert_eq!(opt.does_level_exist_in_stack(1), 1);
}

#[test]
fn entering_an_open_level_closes_it_and_what_is_inside() {
    let mut opt = Opt::new();
    opt.enter_scope(ScopeType::scope_func, 0);
    opt.enter_scope(ScopeType::scope_match, 1);
    opt.enter_scope(ScopeType::scope_case, 2);
    opt.enter_scope(ScopeType::scope_match, 3);
    opt.func_str.clear();
    opt.enter_scope(ScopeType::scope_case, 2);
    assert_eq!(opt.func_str, "\n}\n},\n_ => {}, => {\n");
    assert_eq!(levels(&opt), vec![0, 1, 2]);
    opt.func_str.clear();
    opt.enter_scope(ScopeType::scope_match, 7);
    assert_eq!(opt.func_str, " {\n");
    assert_eq!(levels(&opt), vec![0, 1, 2, 7]);
}

#[test]
fn entering_the_level_of_the_outermost_block_closes_it() {
    let mut opt = Opt::new();
    opt.enter_scope(ScopeType::scope_func, 0);
    opt.enter_scope(ScopeType::scope_case, 0);
    assert_eq!(opt.func_str, " {\n\n} => {\n");
    assert_eq!(opt.scope_stack, vec![ScopeStack { scope_type: ScopeType::scope_case, level: 0 }]);
    opt.enter_scope(ScopeType::scope_match, 1);
    opt.enter_scope(ScopeType::scope_match, 2);
    opt.func_str.clear();
    opt.enter_scope(ScopeType::scope_func, 0);
    assert_eq!(opt.func_str, "\n}\n}\n},\n_ => {}, {\n");
    assert_eq!(opt.scope_stack, vec![ScopeStack { scope_type: ScopeType::scope_func, level: 0 }]);
}

#[test]
fn entering_keeps_one_block_per_level() {
    let mut opt = Opt::new();
    for level in [0, 1, 2, 5, 3, 1, 4, 5, 2, 0, 7, 7] {
        opt.enter_scope(ScopeType::scope_case, level);
        assert_eq!(opt.scope_stack.last().unwrap().level, level);
        let mut seen = levels(&opt);
        seen.sort();
        seen.dedup();
        assert_eq!(seen.len(), opt.scope_stack.len());
    }
    assert_eq!(levels(&opt), vec![0, 7]);
}

#[test]
fn closing_from_a_position_pops_innermost_first() {
    let mut opt = Opt::new();
    opt.enter_scope(ScopeType::scope_func, 0);
    opt.enter_scope(ScopeType::scope_match, 1);
    opt.enter_scope(ScopeType::scope_case, 2);
    opt.func_str.clear();
    opt.pop_and_exit_scope_from(5);
    assert_eq!(opt.func_str, "");
    assert_eq!(levels(&opt), vec![0, 1, 2]);
    opt.pop_and_exit_scope_from(1);
    assert_eq!(opt.func_str, "\n},\n_ => {},\n}");
    assert_eq!(levels(&opt), vec![0]);
    opt.pop_and_exit_scope_from(0);
    assert!(opt.scope_stack.is_empty());
    opt.pop_and_exit_scope_from(0);
    assert!(opt.scope_stack.is_empty());
    assert_eq!(opt.func_str, "\n},\n_ => {},\n}\n}");
}

#[test]
fn clearing_a_level_that_is_not_open_changes_nothing() {
    let mut opt = Opt::new();
    opt.enter_scope(ScopeType::scope_func, 0);
    opt.enter_scope(ScopeType::scope_match, 2);
    opt.func_str.clear();
    opt.clear_level(1);
    assert_eq!(opt.func_str, "");
    assert_eq!(levels(&opt), vec![0, 2]);
    opt.clear_level(2);
    assert_eq!(opt.func_str, "\n}");
    assert_eq!(levels(&opt), vec![0]);
}

#[test]
fn immediate_names_come_back_last_first() {
    let mut opt = Opt::new();
    assert_eq!(opt.pop_from_const_stack(), "");
    opt.push_to_const_stack("rhs_1".to_string());
    opt.push_to_const_stack("rhs_2".to_string());
    assert_eq!(opt.pop_from_const_stack(), "rhs_2");
    assert_eq!(opt.pop_from_const_stack(), "rhs_1");
    assert_eq!(opt.pop_from_const_stack(), "");
    assert!(opt.const_stack.is_empty());
}

#[test]
fn counters_move_on_by_one() {
    let mut opt = Opt::new();
    assert_eq!(opt.get_argument_counter(0), 1);
    assert_eq!(opt.get_argument_counter(41), 42);
    assert_eq!(opt.func_str, "142");
    assert_eq!(opt.get_const_counter(6), 7);
    assert_eq!(opt.func_str, "142");
}

#[test]
fn single_replacement_substitutes_its_constant() {
    let r = CtonOperand { idx_val: Some(0), const_val: None };
    let c = |v| CtonOperand { idx_val: None, const_val: Some(v) };
    let mut opt = Opt::new();
    opt.take_action(vec![replacement(CtonOpcode::ImulImm, vec![r, c(14)])]);
    assert_eq!(opt.func_str, "pos.func.dfg.replace(inst).iconst(width, 14); ");
    let mut opt = Opt::new();
    opt.take_action(vec![replacement(CtonOpcode::Iadd, vec![c(3), r, c(-8), r])]);
    assert_eq!(opt.func_str, "pos.func.dfg.replace(inst).iconst(width, -8); ");
    let mut opt = Opt::new();
    opt.take_action(vec![replacement(CtonOpcode::Iadd, vec![r, r])]);
    assert_eq!(opt.func_str, "pos.func.dfg.replace(inst).iconst(width, 0); ");
    let mut opt = Opt::new();
    let mut bare = replacement(CtonOpcode::Var, vec![]);
    bare.cops = None;
    opt.take_action(vec![bare]);
    assert_eq!(opt.func_str, "pos.func.dfg.replace(inst).iconst(width, 0); ");
}

#[test]
fn longer_replacement_inserts_then_substitutes() {
    let r = CtonOperand { idx_val: Some(0), const_val: None };
    let mut opt = Opt::new();
    opt.take_action(vec![
        replacement(CtonOpcode::Bxor, vec![r, r]),
        replacement(CtonOpcode::IshlImm, vec![r, r]),
        replacement(CtonOpcode::Isub, vec![r, r]),
        replacement(CtonOpcode::ResultInst, vec![r]),
    ]);
    assert_eq!(
        opt.func_str,
        "let inst0 = pos.ins().bxor(args[0], args[1]);\n\
         let inst1 = pos.ins().ishl_imm(args[0], args[1]);\n\
         pos.func.dfg.replace(inst).isub(args[0], args[1]);\n"
    );
    let mut opt = Opt::new();
    opt.take_action(vec![replacement(CtonOpcode::Band, vec![r, r]), replacement(CtonOpcode::ResultInst, vec![r])]);
    assert_eq!(opt.func_str, "pos.func.dfg.replace(inst).band(args[0], args[1]);\n");
}

#[test]
fn condition_codes_have_target_names() {
    assert_eq!(get_cond_name("eq".to_string()), "IntCC::Equal");
    assert_eq!(get_cond_name("ne".to_string()), "IntCC::NotEqual");
    assert_eq!(get_cond_name("slt".to_string()), "IntCC::SignedLessThan");
    assert_eq!(get_cond_name("ult".to_string()), "IntCC::UnsignedLessThan");
    assert_eq!(get_cond_name("sle".to_string()), "IntCC::SignedLessThanOrEqual");
    assert_eq!(get_cond_name("ule".to_string()), "IntCC::UnsignedLessThanOrEqual");
    assert_eq!(get_cond_name("sgt".to_string()), "");
    assert_eq!(get_cond_name("".to_string()), "");
}

#[test]
fn actionable_nodes_are_the_keys_of_the_table() {
    let mut table: HashMap<usize, Vec<CtonInst>> = HashMap::new();
    assert!(!is_node_actionable(3, table.clone()));
    table.insert(3, vec![]);
    assert!(is_node_actionable(3, table.clone()));
    assert!(!is_node_actionable(4, table));
}

#[test]
fn nodes_for_root_and_for_no_such_node() {
    let mut opt = Opt::new();
    let root = opt.build_root_node();
    assert_eq!((root.node_type, root.node_value.as_str(), root.id, root.level), (NodeType::MatchRoot, "root", 0, 0));
    assert_eq!(root.next, Some(vec![]));
    assert!(!opt.is_leaf_node(root));
    let dummy = opt.init_dummy_node();
    assert_eq!((dummy.node_type, dummy.node_value.as_str(), dummy.id), (NodeType::MatchNone, "dummy", usize::MAX));
    assert!(opt.is_leaf_node(dummy));
}

#[test]
fn levels_are_handed_down_along_the_links() {
    let mut opt = Opt::new();
    let mut nodes = vec![
        node(NodeType::MatchRoot, "root", 0, 0),
        node(NodeType::MatchInstData, "instdata", 5, 0),
        node(NodeType::InstType, "Binary", 6, 0),
        node(NodeType::InstType, "Unary", 5, 0),
    ];
    nodes[0].next = Some(vec![NodeID { index: 5 }, NodeID { index: 6 }, NodeID { index: 44 }]);
    nodes.push(node(NodeType::Opcode, "last", usize::MAX, 0));
    opt.set_level_of_all_child_nodes(&mut nodes, 0, 3);
    let got: Vec<usize> = nodes.iter().map(|n| n.level).collect();
    assert_eq!(got, vec![0, 4, 4, 0, 0]);
    nodes.pop();
    opt.set_level_of_all_child_nodes(&mut nodes, 1, 9);
    let got: Vec<usize> = nodes.iter().map(|n| n.level).collect();
    assert_eq!(got, vec![0, 4, 4, 0]);
    assert_eq!(opt.find_node_with_id(6, &mut nodes).node_value, "Binary");
    assert_eq!(opt.find_node_with_id(5, &mut nodes).node_value, "instdata");
    assert_eq!(opt.find_node_with_id(7, &mut nodes).node_value, "dummy");
    let raised = opt.update_node_with_level(nodes[3].clone(), 12);
    assert_eq!(raised.level, 12);
    opt.update_node_level_in_lhs(raised, &mut nodes);
    let got: Vec<usize> = nodes.iter().map(|n| n.level).collect();
    assert_eq!(got, vec![0, 12, 4, 0]);
}

#[test]
fn state_visits_nodes_and_ends_without_open_blocks() {
    let table: HashMap<usize, Vec<CtonInst>> = HashMap::new();
    let mut state = MatcherState::new();
    let list = vec![
        node(NodeType::MatchRoot, "root", 0, 0),
        node(NodeType::MatchInstData, "instdata", 1, 1),
        node(NodeType::InstType, "Unary", 2, 2),
        node(NodeType::MatchOpcode, "opcode", 3, 3),
        node(NodeType::Opcode, "clz", 4, 4),
        node(NodeType::Opcode, "ctz", 5, 4),
    ];
    for n in &list {
        assert!(state.can_visit(n, &table));
        state.visit_node(n, &table, 0);
    }
    assert_eq!(levels(&state.opt), vec![0, 1, 2, 3, 4]);
    assert_eq!(state.arg_counter, 1);
    assert_eq!(state.opt.current_entity, "opcode");
    state.finish();
    assert!(state.opt.scope_stack.is_empty());
    assert_eq!(
        state.opt.func_str,
        "fn superopt_0(pos: &mut FuncCursor, inst: Inst) {\n\
         match pos.func.dfg[inst] {\n\
         InstructionData::Unary { opcode, arg } => {\n\
         let args_1 = arg;\n\
         match opcode {\n\
         Opcode::Clz => {\n\
         \n},\n_ => {},\
         Opcode::Ctz => {\n\
         \n},\n_ => {},\
         \n}\
         \n},\n_ => {},\
         \n}\
         \n}"
    );
}

#[test]
fn state_refuses_what_is_outside_the_vocabulary() {
    let mut table: HashMap<usize, Vec<CtonInst>> = HashMap::new();
    table.insert(9, vec![]);
    let state = MatcherState::new();
    assert!(!state.can_visit(&node(NodeType::MatchNone, "", 1, 1), &table));
    assert!(!state.can_visit(&node(NodeType::InstType, "Ternary", 1, 1), &table));
    assert!(!state.can_visit(&node(NodeType::InstType, "", 1, 1), &table));
    assert!(state.can_visit(&node(NodeType::InstType, "Var", 1, 1), &table));
    assert!(!state.can_visit(&node(NodeType::Opcode, "Infer", 1, 1), &table));
    assert!(!state.can_visit(&node(NodeType::Opcode, "udiv", 1, 1), &table));
    assert!(state.can_visit(&node(NodeType::Opcode, "irsub_imm", 1, 1), &table));
    assert!(!state.can_visit(&node(NodeType::Cond, "sgt", 1, 1), &table));
    assert!(state.can_visit(&node(NodeType::Cond, "sle", 1, 1), &table));
    assert!(!state.can_visit(&node(NodeType::MatchValDef, "Result", 1, 0), &table));
    assert!(state.can_visit(&node(NodeType::MatchValDef, "Result", 1, 1), &table));
    assert!(state.can_visit(&node(NodeType::MatchValDef, "None", 1, 0), &table));
    assert!(!state.can_visit(&node(NodeType::MatchArgs, "arg", 9, 1), &table));
    assert!(state.can_visit(&node(NodeType::MatchArgs, "arg", 8, 1), &table));
}

#[test]
fn copies_hold_the_same_values() {
    let mut opt = Opt::new();
    opt.enter_scope(ScopeType::scope_func, 0);
    opt.push_to_const_stack("rhs_1".to_string());
    opt.set_entity("opcode".to_string());
    let copy = opt.clone();
    assert_eq!(copy.current_entity, opt.current_entity);
    assert_eq!(copy.func_str, opt.func_str);
    assert_eq!(copy.scope_stack, opt.scope_stack);
    assert_eq!(copy.const_stack, opt.const_stack);
    let mut linked = node(NodeType::Opcode, "iadd", 4, 2);
    linked.next = Some(vec![NodeID { index: 5 }, NodeID { index: 9 }]);
    linked.arg_name = "arg_3".to_string();
    assert_eq!(linked.clone(), linked);
    let inst = replacement(CtonOpcode::Bor, vec![CtonOperand { idx_val: Some(1), const_val: None }]);
    assert_eq!(inst.clone(), inst);
}

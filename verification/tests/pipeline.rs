use souper_codegen::cliftinstbuilder::{
    transform_souper_to_clift_insts, CtonInst, CtonInstKind, CtonOpcode, CtonOperand, CtonValueDef,
};
use souper_codegen::lhspatternmatcher::NodeType;
use souper_codegen::parser::{Inst, InstKind, SouperOperand};
use souper_codegen::pipeline::{generate_rule_group, Rule, RuleGroup};

fn reference(idx: usize) -> SouperOperand {
    SouperOperand { idx_val: Some(idx), const_val: None, width: 32 }
}

fn constant(c: i32) -> SouperOperand {
    SouperOperand { idx_val: None, const_val: Some(c), width: 32 }
}

fn inst(kind: InstKind, ops: Option<Vec<SouperOperand>>) -> Inst {
    Inst { kind, lhs: String::new(), width: 32, var_number: None, ops }
}

fn replacement(c: i32) -> Vec<CtonInst> {
    vec![CtonInst {
        valuedef: CtonValueDef::Result,
        kind: CtonInstKind::BinaryImm,
        opcode: CtonOpcode::ImulImm,
        cond: None,
        width: 32,
        var_num: None,
        cops: Some(vec![
            CtonOperand { idx_val: Some(0), const_val: None },
            CtonOperand { idx_val: None, const_val: Some(c) },
        ]),
    }]
}

/// The rule `kind x, c` with the replacement by the constant `to`.
fn immediate_rule(kind: InstKind, c: i32, to: i32) -> Rule {
    Rule {
        lhs: transform_souper_to_clift_insts(vec![
            inst(InstKind::Var, None),
            inst(kind, Some(vec![reference(0), constant(c)])),
            inst(InstKind::Infer, Some(vec![reference(1)])),
        ]),
        rhs: replacement(to),
    }
}

fn shape(group: &RuleGroup) -> Vec<(NodeType, String, usize)> {
    group.arena.merged_tree.iter().map(|n| (n.node_type, n.node_value.clone(), n.level)).collect()
}

#[test]
fn rules_are_added_under_ids_of_their_own() {
    let mut group = RuleGroup::new(1);
    assert_eq!(group.next_id, 1);
    assert!(group.arena.merged_tree.is_empty());
    assert_eq!(group.add_rule(immediate_rule(InstKind::Add, 7, 14)), Some(13));
    assert_eq!(group.next_id, 14);
    assert_eq!(group.add_rule(immediate_rule(InstKind::Add, 9, 18)), Some(26));
    assert_eq!(group.next_id, 27);
    assert_eq!(group.arena.merged_tree.len(), 15);
    assert_eq!(group.replacements.len(), 2);
    assert_eq!(group.replacements[&13], replacement(14));
    assert_eq!(group.replacements[&26], replacement(18));
    let mut ids: Vec<usize> = group.arena.merged_tree.iter().map(|n| n.id).collect();
    ids.sort();
    ids.dedup();
    assert_eq!(ids.len(), 15);
}

#[test]
fn same_left_hand_side_keeps_the_later_replacement() {
    let mut group = RuleGroup::new(1);
    assert_eq!(group.add_rule(immediate_rule(InstKind::Add, 7, 14)), Some(13));
    assert_eq!(group.add_rule(immediate_rule(InstKind::Add, 7, 15)), Some(13));
    assert_eq!(group.arena.merged_tree.len(), 14);
    assert_eq!(group.next_id, 27);
    assert_eq!(group.replacements.len(), 1);
    assert_eq!(group.replacements[&13], replacement(15));
    let text = group.generate(0).unwrap();
    assert_eq!(text.matches("iconst(width, 15); ").count(), 1);
    assert_eq!(text.matches("iconst(width, 14); ").count(), 0);
}

#[test]
fn rule_that_cannot_be_added_leaves_the_group_as_it_is() {
    let mut group = RuleGroup::new(1);
    group.add_rule(immediate_rule(InstKind::Add, 7, 14));
    let before = shape(&group);
    let no_infer = Rule {
        lhs: transform_souper_to_clift_insts(vec![inst(InstKind::Var, None)]),
        rhs: replacement(1),
    };
    assert_eq!(group.add_rule(no_infer), None);
    let mut no_replacement = immediate_rule(InstKind::Mul, 3, 0);
    no_replacement.rhs.clear();
    assert_eq!(group.add_rule(no_replacement), None);
    assert_eq!(shape(&group), before);
    assert_eq!(group.next_id, 14);
    assert_eq!(group.replacements.len(), 1);
    let mut full = RuleGroup::new(usize::MAX - 13);
    assert_eq!(full.add_rule(immediate_rule(InstKind::Add, 7, 14)), None);
    assert!(full.arena.merged_tree.is_empty());
    let mut nearly = RuleGroup::new(usize::MAX - 14);
    assert_eq!(nearly.add_rule(immediate_rule(InstKind::Add, 7, 14)), Some(usize::MAX - 2));
    assert_eq!(nearly.next_id, usize::MAX - 1);
}

#[test]
fn structure_of_a_group_does_not_depend_on_its_first_id() {
    let build = |first: usize| {
        let mut group = RuleGroup::new(first);
        group.add_rule(immediate_rule(InstKind::Add, 7, 14));
        group.add_rule(immediate_rule(InstKind::Xor, 7, 0));
        group.add_rule(immediate_rule(InstKind::Add, 9, 18));
        group.add_rule(immediate_rule(InstKind::Xor, 0, 0));
        group
    };
    let one = build(1);
    let two = build(4000);
    assert_eq!(shape(&one), shape(&two));
    assert_eq!(one.generate(5), two.generate(5));
}

#[test]
fn group_of_rules_renders_each_replacement_once() {
    let text = generate_rule_group(
        vec![
            immediate_rule(InstKind::Add, 7, 14),
            immediate_rule(InstKind::Mul, 2, 4),
            immediate_rule(InstKind::Add, 9, 18),
        ],
        6,
    )
    .unwrap();
    assert!(text.starts_with("fn superopt_6(pos: &mut FuncCursor, inst: Inst) {\n"));
    assert_eq!(text.matches("iconst(width, 14); ").count(), 1);
    assert_eq!(text.matches("iconst(width, 4); ").count(), 1);
    assert_eq!(text.matches("iconst(width, 18); ").count(), 1);
    assert_eq!(text.matches("Opcode::IaddImm => {").count(), 1);
    assert_eq!(text.matches('{').count(), text.matches('}').count());
}

#[test]
fn group_without_rules_renders_an_empty_function() {
    assert_eq!(
        generate_rule_group(vec![], 2),
        Some("fn superopt_2(pos: &mut FuncCursor, inst: Inst) {\n\n}".to_string())
    );
}

#[test]
fn one_rule_that_cannot_be_added_and_there_is_no_text() {
    let refused = Rule { lhs: vec![], rhs: replacement(0) };
    assert_eq!(generate_rule_group(vec![refused], 2), None);
    let refused = Rule { lhs: vec![], rhs: replacement(0) };
    assert_eq!(
        generate_rule_group(
            vec![immediate_rule(InstKind::Add, 7, 14), refused, immediate_rule(InstKind::Add, 9, 18)],
            2
        ),
        None
    );
    let mut no_replacement = immediate_rule(InstKind::Add, 7, 14);
    no_replacement.rhs.clear();
    assert_eq!(generate_rule_group(vec![no_replacement], 2), None);
}

#[test]
fn group_outside_the_vocabulary_has_no_text() {
    let select = Rule {
        lhs: vec![
            CtonInst {
                valuedef: CtonValueDef::Result,
                kind: CtonInstKind::NoneType,
                opcode: CtonOpcode::Iadd,
                cond: None,
                width: 32,
                var_num: None,
                cops: Some(vec![]),
            },
            CtonInst {
                valuedef: CtonValueDef::NoneType,
                kind: CtonInstKind::NoneType,
                opcode: CtonOpcode::Infer,
                cond: None,
                width: 0,
                var_num: None,
                cops: Some(vec![CtonOperand { idx_val: Some(0), const_val: None }]),
            },
        ],
        rhs: replacement(0),
    };
    assert_eq!(generate_rule_group(vec![select], 0), None);
}

fn never_closes_a_brace_early(text: &str) -> bool {
    let mut open: i64 = 0;
    for c in text.chars() {
        if c == '{' {
            open += 1;
        } else if c == '}' {
            open -= 1;
        }
        if open < 0 {
            return false;
        }
    }
    open == 0
}

#[test]
fn braces_of_the_text_of_a_group_are_balanced() {
    let text = generate_rule_group(
        vec![
            immediate_rule(InstKind::Add, 7, 14),
            immediate_rule(InstKind::Mul, 2, 4),
            immediate_rule(InstKind::Add, 9, 18),
            immediate_rule(InstKind::Xor, -1, 0),
            immediate_rule(InstKind::Mul, 3, 6),
        ],
        0,
    )
    .unwrap();
    assert!(never_closes_a_brace_early(&text));
    // The function, two matches, one shape pattern and its arm, three
    // opcode arms, five constant guards, and a fallback arm for each of
    // the four case arms.
    assert_eq!(text.matches('{').count(), 1 + 2 + 2 + 3 + 5 + 4);
    assert_eq!(text.matches('}').count(), 17);
}

#[test]
fn text_of_a_group_holds_every_replacement() {
    let text = generate_rule_group(
        vec![immediate_rule(InstKind::Add, 7, 14), immediate_rule(InstKind::Sub, 1, -5)],
        0,
    )
    .unwrap();
    assert!(text.contains("pos.func.dfg.replace(inst).iconst(width, 14); "));
    assert!(text.contains("pos.func.dfg.replace(inst).iconst(width, -5); "));
}

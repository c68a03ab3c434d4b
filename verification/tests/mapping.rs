use souper_codegen::cliftinstbuilder::{
    build_clift_ops, getCtonOpCodeName, get_clift_cond_name, get_clift_instdata_name, get_clift_opcode_name,
    get_clift_valdef_name, get_cton_inst_name, inst_has_const_operand, is_mappable, mapping_souper_to_cton_isa,
    opcode_is_compare, transform_souper_to_clift_insts, CtonCmpCond, CtonInstKind, CtonOpcode, CtonOperand,
    CtonValueDef,
};
use souper_codegen::parser::{Inst, InstKind, SouperOperand};

fn reference(idx: usize) -> SouperOperand {
    SouperOperand { idx_val: Some(idx), const_val: None, width: 32 }
}

fn constant(c: i32) -> SouperOperand {
    SouperOperand { idx_val: None, const_val: Some(c), width: 32 }
}

fn inst(kind: InstKind, width: u32, var_number: Option<u32>, ops: Option<Vec<SouperOperand>>) -> Inst {
    Inst { kind, lhs: "%x".to_string(), width, var_number, ops }
}

#[test]
fn two_operand_operations_take_register_form_without_constant() {
    let cases = [
        (InstKind::Add, CtonOpcode::Iadd),
        (InstKind::Mul, CtonOpcode::Imul),
        (InstKind::Sub, CtonOpcode::Isub),
        (InstKind::And, CtonOpcode::Band),
        (InstKind::Or, CtonOpcode::Bor),
        (InstKind::Xor, CtonOpcode::Bxor),
        (InstKind::Shl, CtonOpcode::Ishl),
        (InstKind::Lshr, CtonOpcode::Ushr),
        (InstKind::Ashr, CtonOpcode::Sshr),
    ];
    for (kind, opcode) in cases {
        let mapped = mapping_souper_to_cton_isa(inst(kind, 64, Some(3), Some(vec![reference(0), reference(1)])));
        assert_eq!(mapped.opcode, opcode);
        assert_eq!(mapped.kind, CtonInstKind::Binary);
        assert_eq!(mapped.valuedef, CtonValueDef::Result);
        assert_eq!(mapped.cond, None);
        assert_eq!(mapped.width, 64);
        assert_eq!(mapped.var_num, Some(3));
        assert_eq!(
            mapped.cops,
            Some(vec![
                CtonOperand { idx_val: Some(0), const_val: None },
                CtonOperand { idx_val: Some(1), const_val: None }
            ])
        );
    }
}

#[test]
fn two_operand_operations_take_immediate_form_with_constant() {
    let cases = [
        (InstKind::Add, CtonOpcode::IaddImm),
        (InstKind::Mul, CtonOpcode::ImulImm),
        (InstKind::Sub, CtonOpcode::IsubImm),
        (InstKind::And, CtonOpcode::BandImm),
        (InstKind::Or, CtonOpcode::BorImm),
        (InstKind::Xor, CtonOpcode::BxorImm),
        (InstKind::Shl, CtonOpcode::IshlImm),
        (InstKind::Lshr, CtonOpcode::UshrImm),
        (InstKind::Ashr, CtonOpcode::SshrImm),
    ];
    for (kind, opcode) in cases {
        let mapped = mapping_souper_to_cton_isa(inst(kind, 8, None, Some(vec![constant(-4), reference(1)])));
        assert_eq!(mapped.opcode, opcode);
        assert_eq!(mapped.kind, CtonInstKind::BinaryImm);
        assert_eq!(mapped.width, 8);
        assert_eq!(mapped.var_num, None);
        assert_eq!(
            mapped.cops,
            Some(vec![
                CtonOperand { idx_val: None, const_val: Some(-4) },
                CtonOperand { idx_val: Some(1), const_val: None }
            ])
        );
    }
}

#[test]
fn comparisons_are_one_bit_wide_and_carry_their_condition() {
    let cases = [
        (InstKind::Eq, CtonCmpCond::Eq),
        (InstKind::Ne, CtonCmpCond::Ne),
        (InstKind::Slt, CtonCmpCond::Slt),
        (InstKind::Ult, CtonCmpCond::Ult),
        (InstKind::Sle, CtonCmpCond::Sle),
        (InstKind::Ule, CtonCmpCond::Ule),
    ];
    for (kind, cond) in cases {
        let register = mapping_souper_to_cton_isa(inst(kind, 32, Some(1), Some(vec![reference(0), reference(1)])));
        assert_eq!(register.opcode, CtonOpcode::Icmp);
        assert_eq!(register.kind, CtonInstKind::IntCompare);
        assert_eq!(register.cond, Some(cond));
        assert_eq!(register.width, 1);
        let immediate = mapping_souper_to_cton_isa(inst(kind, 32, Some(1), Some(vec![reference(0), constant(0)])));
        assert_eq!(immediate.opcode, CtonOpcode::IcmpImm);
        assert_eq!(immediate.kind, CtonInstKind::IntCompareImm);
        assert_eq!(immediate.cond, Some(cond));
        assert_eq!(immediate.width, 1);
    }
}

#[test]
fn counting_operations_are_unary() {
    let cases =
        [(InstKind::Ctpop, CtonOpcode::Popcnt), (InstKind::Ctlz, CtonOpcode::Clz), (InstKind::Cttz, CtonOpcode::Ctz)];
    for (kind, opcode) in cases {
        let mapped = mapping_souper_to_cton_isa(inst(kind, 16, Some(2), Some(vec![reference(0)])));
        assert_eq!(mapped.opcode, opcode);
        assert_eq!(mapped.kind, CtonInstKind::Unary);
        assert_eq!(mapped.valuedef, CtonValueDef::Result);
        assert_eq!(mapped.width, 16);
    }
}

#[test]
fn variables_and_pseudo_instructions_keep_their_role() {
    let var = mapping_souper_to_cton_isa(inst(InstKind::Var, 32, Some(5), None));
    assert_eq!(var.valuedef, CtonValueDef::Param);
    assert_eq!(var.kind, CtonInstKind::Var);
    assert_eq!(var.opcode, CtonOpcode::Var);
    assert_eq!(var.var_num, Some(5));
    assert_eq!(var.cops, None);
    let infer = mapping_souper_to_cton_isa(inst(InstKind::Infer, 0, None, Some(vec![reference(2)])));
    assert_eq!(infer.valuedef, CtonValueDef::NoneType);
    assert_eq!(infer.kind, CtonInstKind::NoneType);
    assert_eq!(infer.opcode, CtonOpcode::Infer);
    assert_eq!(infer.cops, Some(vec![CtonOperand { idx_val: Some(2), const_val: None }]));
    let result = mapping_souper_to_cton_isa(inst(InstKind::ResultInst, 0, Some(9), Some(vec![reference(4)])));
    assert_eq!(result.opcode, CtonOpcode::ResultInst);
    assert_eq!(result.kind, CtonInstKind::NoneType);
    assert_eq!(result.var_num, Some(9));
}

#[test]
fn other_operations_are_taken_for_unnumbered_variables() {
    for kind in [InstKind::Udiv, InstKind::Select, InstKind::Zext, InstKind::Bswap, InstKind::NoneType] {
        let mapped = mapping_souper_to_cton_isa(inst(kind, 32, Some(7), Some(vec![reference(0)])));
        assert_eq!(mapped.valuedef, CtonValueDef::Param);
        assert_eq!(mapped.kind, CtonInstKind::Var);
        assert_eq!(mapped.opcode, CtonOpcode::Var);
        assert_eq!(mapped.var_num, None);
        assert_eq!(mapped.width, 32);
    }
}

#[test]
fn operands_are_required_only_where_the_form_depends_on_them() {
    assert!(!is_mappable(&inst(InstKind::Add, 32, None, None)));
    assert!(!is_mappable(&inst(InstKind::Ule, 32, None, None)));
    assert!(is_mappable(&inst(InstKind::Add, 32, None, Some(vec![]))));
    assert!(is_mappable(&inst(InstKind::Ctpop, 32, None, None)));
    assert!(is_mappable(&inst(InstKind::Var, 32, None, None)));
}

#[test]
fn transform_maps_in_order() {
    let mapped = transform_souper_to_clift_insts(vec![
        inst(InstKind::Var, 32, Some(0), None),
        inst(InstKind::Xor, 32, Some(1), Some(vec![reference(0), constant(1)])),
        inst(InstKind::Infer, 0, None, Some(vec![reference(1)])),
    ]);
    let opcodes: Vec<CtonOpcode> = mapped.iter().map(|i| i.opcode).collect();
    assert_eq!(opcodes, vec![CtonOpcode::Var, CtonOpcode::BxorImm, CtonOpcode::Infer]);
    assert!(transform_souper_to_clift_insts(vec![]).is_empty());
}

#[test]
fn operand_lists_convert_one_for_one() {
    assert_eq!(build_clift_ops(None), None);
    assert_eq!(build_clift_ops(Some(vec![])), Some(vec![]));
    assert_eq!(
        build_clift_ops(Some(vec![constant(3), reference(2)])),
        Some(vec![
            CtonOperand { idx_val: None, const_val: Some(3) },
            CtonOperand { idx_val: Some(2), const_val: None }
        ])
    );
}

#[test]
fn constant_operand_is_found_anywhere_in_the_list() {
    let r = CtonOperand { idx_val: Some(0), const_val: None };
    let c = CtonOperand { idx_val: None, const_val: Some(0) };
    assert!(!inst_has_const_operand(Some(vec![])));
    assert!(!inst_has_const_operand(Some(vec![r, r])));
    assert!(inst_has_const_operand(Some(vec![c, r])));
    assert!(inst_has_const_operand(Some(vec![r, r, c])));
}

#[test]
fn names_of_the_vocabulary() {
    assert_eq!(get_clift_opcode_name(CtonOpcode::Iadd), "iadd");
    assert_eq!(get_clift_opcode_name(CtonOpcode::IaddImm), "iadd_imm");
    assert_eq!(get_clift_opcode_name(CtonOpcode::IsubImm), "irsub_imm");
    assert_eq!(get_clift_opcode_name(CtonOpcode::UshrImm), "ushr_imm");
    assert_eq!(get_clift_opcode_name(CtonOpcode::Popcnt), "popcnt");
    assert_eq!(get_clift_opcode_name(CtonOpcode::Var), "Var");
    assert_eq!(get_clift_opcode_name(CtonOpcode::Infer), "Infer");
    assert_eq!(get_clift_opcode_name(CtonOpcode::ResultInst), "Result");
    assert_eq!(get_clift_opcode_name(CtonOpcode::NoneType), "");
    assert_eq!(get_clift_instdata_name(CtonInstKind::BinaryImm), "BinaryImm");
    assert_eq!(get_clift_instdata_name(CtonInstKind::IntCompare), "IntCompare");
    assert_eq!(get_clift_instdata_name(CtonInstKind::Var), "Var");
    assert_eq!(get_clift_instdata_name(CtonInstKind::NoneType), "");
    assert_eq!(get_clift_valdef_name(CtonValueDef::Result), "Result");
    assert_eq!(get_clift_valdef_name(CtonValueDef::Param), "Param");
    assert_eq!(get_clift_valdef_name(CtonValueDef::NoneType), "None");
    assert_eq!(get_clift_cond_name(Some(CtonCmpCond::Eq)), "eq");
    assert_eq!(get_clift_cond_name(Some(CtonCmpCond::Ule)), "ule");
    assert_eq!(get_clift_cond_name(None), "");
}

#[test]
fn listing_lines_name_the_opcode() {
    assert_eq!(get_cton_inst_name(CtonOpcode::Iadd), "CtonOpcode = Iadd");
    assert_eq!(get_cton_inst_name(CtonOpcode::IcmpImm), "CtonOpcode = IcmpImm");
    assert_eq!(get_cton_inst_name(CtonOpcode::Infer), "CtonOpcode not yet handled");
    assert_eq!(getCtonOpCodeName(CtonOpcode::Imul), "Cton::Opcode = Imul");
    assert_eq!(getCtonOpCodeName(CtonOpcode::ResultInst), "Cton::Opcode = Result");
    assert_eq!(getCtonOpCodeName(CtonOpcode::IaddImm), "Cton: other type yet to be handled");
}

#[test]
fn compare_opcodes_are_recognised() {
    assert!(opcode_is_compare(CtonOpcode::Icmp));
    assert!(opcode_is_compare(CtonOpcode::IcmpImm));
    assert!(!opcode_is_compare(CtonOpcode::Iadd));
    assert!(!opcode_is_compare(CtonOpcode::Var));
}

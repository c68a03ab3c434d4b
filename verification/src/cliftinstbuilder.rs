//! The canonical instruction model of the target instruction set, the
//! names under which its shapes, opcodes and condition codes appear in
//! decision nodes, and the mapping from parsed instructions to it.
use crate::parser::{Inst, InstKind, SouperOperand};
use vstd::prelude::*;
use vstd::string::*;

verus! {

/// How the value that an instruction stands for is defined in the target
/// representation.
#[derive(Clone, Copy, Debug, PartialEq, Eq, Structural)]
pub enum CtonValueDef {
    Result,
    Param,
    NoneType,
}

/// The instruction-data shape of a target instruction.
#[derive(Clone, Copy, Debug, PartialEq, Eq, Structural)]
pub enum CtonInstKind {
    Unary,
    UnaryImm,
    Binary,
    BinaryImm,
    Var,
    IntCompare,
    IntCompareImm,
    NoneType,
}

/// The operation of a target instruction.
#[derive(Clone, Copy, Debug, PartialEq, Eq, Structural)]
pub enum CtonOpcode {
    Iadd,
    IaddImm,
    Var,
    Imul,
    ImulImm,
    Isub,
    IsubImm,
    Band,
    BandImm,
    Bor,
    BorImm,
    Bxor,
    BxorImm,
    Ishl,
    IshlImm,
    Sshr,
    SshrImm,
    Ushr,
    UshrImm,
    Popcnt,
    Clz,
    Ctz,
    Icmp,
    IcmpImm,
    Infer,
    ResultInst,
    NoneType,
}

/// The condition code of an integer comparison. Only the less-than forms
/// occur: the rule language has no greater-than comparisons.
#[derive(Clone, Copy, Debug, PartialEq, Eq, Structural)]
pub enum CtonCmpCond {
    Eq,
    Ne,
    Slt,
    Ult,
    Sle,
    Ule,
}

/// The two forms of an operand.
#[derive(Clone, Copy, Debug, PartialEq, Eq, Structural)]
pub enum CtonOpType {
    Index,
    Constant,
}

/// One operand of a canonical instruction: the position of another
/// instruction of the same sequence, or an inline constant.
#[derive(Clone, Copy, Debug, PartialEq, Eq, Structural)]
pub struct CtonOperand {
    pub idx_val: Option<usize>,
    pub const_val: Option<i32>,
}

/// One canonical instruction.
#[derive(Debug, PartialEq, Eq)]
pub struct CtonInst {
    pub valuedef: CtonValueDef,
    pub kind: CtonInstKind,
    pub opcode: CtonOpcode,
    pub cond: Option<CtonCmpCond>,
    pub width: u32,
    pub var_num: Option<u32>,
    pub cops: Option<Vec<CtonOperand>>,
}

/// The mathematical value of a canonical instruction.
pub struct CtonInstView {
    pub valuedef: CtonValueDef,
    pub kind: CtonInstKind,
    pub opcode: CtonOpcode,
    pub cond: Option<CtonCmpCond>,
    pub width: u32,
    pub var_num: Option<u32>,
    pub cops: Option<Seq<CtonOperand>>,
}

impl View for CtonInst {
    type V = CtonInstView;

    open spec fn view(&self) -> CtonInstView {
        CtonInstView {
            valuedef: self.valuedef,
            kind: self.kind,
            opcode: self.opcode,
            cond: self.cond,
            width: self.width,
            var_num: self.var_num,
            cops: match self.cops {
                Some(ops) => Some(ops@),
                None => None,
            },
        }
    }
}

/// A copy of an operand list.
pub fn clone_operands(ops: &Vec<CtonOperand>) -> (res: Vec<CtonOperand>)
    ensures
        res@ == ops@,
{
    let mut res: Vec<CtonOperand> = Vec::new();
    let mut i: usize = 0;
    while i < ops.len()
        invariant
            i <= ops.len(),
            res@ == ops@.subrange(0, i as int),
        decreases ops.len() - i,
    {
        res.push(ops[i]);
        proof {
            assert(res@ =~= ops@.subrange(0, i + 1));
        }
        i += 1;
    }
    proof {
        assert(res@ =~= ops@);
    }
    res
}

impl Clone for CtonInst {
    fn clone(&self) -> (res: Self)
        ensures
            res@ == self@,
    {
        let cops = match &self.cops {
            Some(ops) => Some(clone_operands(ops)),
            None => None,
        };
        CtonInst {
            valuedef: self.valuedef,
            kind: self.kind,
            opcode: self.opcode,
            cond: self.cond,
            width: self.width,
            var_num: self.var_num,
            cops,
        }
    }
}

/// The views of a list of instructions.
pub open spec fn inst_views(insts: Seq<CtonInst>) -> Seq<CtonInstView> {
    insts.map_values(|i: CtonInst| i@)
}

/// A copy of an instruction list.
pub fn clone_insts(insts: &Vec<CtonInst>) -> (res: Vec<CtonInst>)
    ensures
        inst_views(res@) == inst_views(insts@),
{
    let mut res: Vec<CtonInst> = Vec::new();
    let mut i: usize = 0;
    while i < insts.len()
        invariant
            i <= insts.len(),
            res@.len() == i,
            forall|j: int| 0 <= j < i ==> (#[trigger] res@[j])@ == insts@[j]@,
        decreases insts.len() - i,
    {
        res.push(insts[i].clone());
        i += 1;
    }
    proof {
        assert(inst_views(res@) =~= inst_views(insts@));
    }
    res
}

/// The listing line that names an instruction's opcode; the opcodes of the
/// two pseudo-instructions and the empty opcode have none of their own.
pub open spec fn inst_listing_line(opcode: CtonOpcode) -> Seq<char> {
    match opcode {
        CtonOpcode::Iadd => "CtonOpcode = Iadd"@,
        CtonOpcode::Imul => "CtonOpcode = Imul"@,
        CtonOpcode::ImulImm => "CtonOpcode = ImulImm"@,
        CtonOpcode::Isub => "CtonOpcode = Isub"@,
        CtonOpcode::IsubImm => "CtonOpcode = IsubImm"@,
        CtonOpcode::Band => "CtonOpcode = Band"@,
        CtonOpcode::BandImm => "CtonOpcode = BandImm"@,
        CtonOpcode::Bor => "CtonOpcode = Bor"@,
        CtonOpcode::BorImm => "CtonOpcode = BorImm"@,
        CtonOpcode::Bxor => "CtonOpcode = Bxor"@,
        CtonOpcode::BxorImm => "CtonOpcode = BxorImm"@,
        CtonOpcode::Ishl => "CtonOpcode = Ishl"@,
        CtonOpcode::IshlImm => "CtonOpcode = IshlImm"@,
        CtonOpcode::Sshr => "CtonOpcode = Sshr"@,
        CtonOpcode::SshrImm => "CtonOpcode = SshrImm"@,
        CtonOpcode::Ushr => "CtonOpcode = Ushr"@,
        CtonOpcode::UshrImm => "CtonOpcode = UshrImm"@,
        CtonOpcode::Popcnt => "CtonOpcode = Popcnt"@,
        CtonOpcode::Clz => "CtonOpcode = Clz"@,
        CtonOpcode::Ctz => "CtonOpcode = Ctz"@,
        CtonOpcode::IaddImm => "CtonOpcode = IaddImm"@,
        CtonOpcode::Var => "CtonOpcode = Var"@,
        CtonOpcode::Icmp => "CtonOpcode = Icmp"@,
        CtonOpcode::IcmpImm => "CtonOpcode = IcmpImm"@,
        CtonOpcode::Infer => "CtonOpcode not yet handled"@,
        CtonOpcode::ResultInst => "CtonOpcode not yet handled"@,
        CtonOpcode::NoneType => "CtonOpcode not yet handled"@,
    }
}

/// The listing line for an instruction's opcode.
pub fn get_cton_inst_name(opcode: CtonOpcode) -> (name: String)
    ensures
        name@ == inst_listing_line(opcode),
{
    match opcode {
        CtonOpcode::Iadd => String::from_str("CtonOpcode = Iadd"),
        CtonOpcode::Imul => String::from_str("CtonOpcode = Imul"),
        CtonOpcode::ImulImm => String::from_str("CtonOpcode = ImulImm"),
        CtonOpcode::Isub => String::from_str("CtonOpcode = Isub"),
        CtonOpcode::IsubImm => String::from_str("CtonOpcode = IsubImm"),
        CtonOpcode::Band => String::from_str("CtonOpcode = Band"),
        CtonOpcode::BandImm => String::from_str("CtonOpcode = BandImm"),
        CtonOpcode::Bor => String::from_str("CtonOpcode = Bor"),
        CtonOpcode::BorImm => String::from_str("CtonOpcode = BorImm"),
        CtonOpcode::Bxor => String::from_str("CtonOpcode = Bxor"),
        CtonOpcode::BxorImm => String::from_str("CtonOpcode = BxorImm"),
        CtonOpcode::Ishl => String::from_str("CtonOpcode = Ishl"),
        CtonOpcode::IshlImm => String::from_str("CtonOpcode = IshlImm"),
        CtonOpcode::Sshr => String::from_str("CtonOpcode = Sshr"),
        CtonOpcode::SshrImm => String::from_str("CtonOpcode = SshrImm"),
        CtonOpcode::Ushr => String::from_str("CtonOpcode = Ushr"),
        CtonOpcode::UshrImm => String::from_str("CtonOpcode = UshrImm"),
        CtonOpcode::Popcnt => String::from_str("CtonOpcode = Popcnt"),
        CtonOpcode::Clz => String::from_str("CtonOpcode = Clz"),
        CtonOpcode::Ctz => String::from_str("CtonOpcode = Ctz"),
        CtonOpcode::IaddImm => String::from_str("CtonOpcode = IaddImm"),
        CtonOpcode::Var => String::from_str("CtonOpcode = Var"),
        CtonOpcode::Icmp => String::from_str("CtonOpcode = Icmp"),
        CtonOpcode::IcmpImm => String::from_str("CtonOpcode = IcmpImm"),
        CtonOpcode::Infer => String::from_str("CtonOpcode not yet handled"),
        CtonOpcode::ResultInst => String::from_str("CtonOpcode not yet handled"),
        CtonOpcode::NoneType => String::from_str("CtonOpcode not yet handled"),
    }
}

/// The listing line that names an opcode; the immediate addition and the
/// empty opcode have none of their own.
pub open spec fn opcode_listing_line(opcode: CtonOpcode) -> Seq<char> {
    match opcode {
        CtonOpcode::Iadd => "Cton::Opcode = Iadd"@,
        CtonOpcode::Imul => "Cton::Opcode = Imul"@,
        CtonOpcode::ImulImm => "Cton::Opcode = ImulImm"@,
        CtonOpcode::Isub => "Cton::Opcode = Isub"@,
        CtonOpcode::IsubImm => "Cton::Opcode = IsubImm"@,
        CtonOpcode::Band => "Cton::Opcode = Band"@,
        CtonOpcode::BandImm => "Cton::Opcode = BandImm"@,
        CtonOpcode::Bor => "Cton::Opcode = Bor"@,
        CtonOpcode::BorImm => "Cton::Opcode = BorImm"@,
        CtonOpcode::Bxor => "Cton::Opcode = Bxor"@,
        CtonOpcode::BxorImm => "Cton::Opcode = BxorImm"@,
        CtonOpcode::Ishl => "Cton::Opcode = Ishl"@,
        CtonOpcode::IshlImm => "Cton::Opcode = IshlImm"@,
        CtonOpcode::Sshr => "Cton::Opcode = Sshr"@,
        CtonOpcode::SshrImm => "Cton::Opcode = SshrImm"@,
        CtonOpcode::Ushr => "Cton::Opcode = Ushr"@,
        CtonOpcode::UshrImm => "Cton::Opcode = UshrImm"@,
        CtonOpcode::Popcnt => "Cton::Opcode = Popcnt"@,
        CtonOpcode::Clz => "Cton::Opcode = Clz"@,
        CtonOpcode::Ctz => "Cton::Opcode = Ctz"@,
        CtonOpcode::Var => "Cton::Opcode = Var"@,
        CtonOpcode::Infer => "Cton::Opcode = Infer"@,
        CtonOpcode::ResultInst => "Cton::Opcode = Result"@,
        CtonOpcode::Icmp => "Cton::Opcode = Icmp"@,
        CtonOpcode::IcmpImm => "Cton::Opcode = IcmpImm"@,
        CtonOpcode::IaddImm => "Cton: other type yet to be handled"@,
        CtonOpcode::NoneType => "Cton: other type yet to be handled"@,
    }
}

#[allow(non_snake_case)]
/// The listing line for an opcode.
pub fn getCtonOpCodeName(opcode: CtonOpcode) -> (name: String)
    ensures
        name@ == opcode_listing_line(opcode),
{
    match opcode {
        CtonOpcode::Iadd => String::from_str("Cton::Opcode = Iadd"),
        CtonOpcode::Imul => String::from_str("Cton::Opcode = Imul"),
        CtonOpcode::ImulImm => String::from_str("Cton::Opcode = ImulImm"),
        CtonOpcode::Isub => String::from_str("Cton::Opcode = Isub"),
        CtonOpcode::IsubImm => String::from_str("Cton::Opcode = IsubImm"),
        CtonOpcode::Band => String::from_str("Cton::Opcode = Band"),
        CtonOpcode::BandImm => String::from_str("Cton::Opcode = BandImm"),
        CtonOpcode::Bor => String::from_str("Cton::Opcode = Bor"),
        CtonOpcode::BorImm => String::from_str("Cton::Opcode = BorImm"),
        CtonOpcode::Bxor => String::from_str("Cton::Opcode = Bxor"),
        CtonOpcode::BxorImm => String::from_str("Cton::Opcode = BxorImm"),
        CtonOpcode::Ishl => String::from_str("Cton::Opcode = Ishl"),
        CtonOpcode::IshlImm => String::from_str("Cton::Opcode = IshlImm"),
        CtonOpcode::Sshr => String::from_str("Cton::Opcode = Sshr"),
        CtonOpcode::SshrImm => String::from_str("Cton::Opcode = SshrImm"),
        CtonOpcode::Ushr => String::from_str("Cton::Opcode = Ushr"),
        CtonOpcode::UshrImm => String::from_str("Cton::Opcode = UshrImm"),
        CtonOpcode::Popcnt => String::from_str("Cton::Opcode = Popcnt"),
        CtonOpcode::Clz => String::from_str("Cton::Opcode = Clz"),
        CtonOpcode::Ctz => String::from_str("Cton::Opcode = Ctz"),
        CtonOpcode::Var => String::from_str("Cton::Opcode = Var"),
        CtonOpcode::Infer => String::from_str("Cton::Opcode = Infer"),
        CtonOpcode::ResultInst => String::from_str("Cton::Opcode = Result"),
        CtonOpcode::Icmp => String::from_str("Cton::Opcode = Icmp"),
        CtonOpcode::IcmpImm => String::from_str("Cton::Opcode = IcmpImm"),
        CtonOpcode::IaddImm => String::from_str("Cton: other type yet to be handled"),
        CtonOpcode::NoneType => String::from_str("Cton: other type yet to be handled"),
    }
}

/// The text that stands for a value definition in a decision node.
pub open spec fn valdef_name(vdef: CtonValueDef) -> Seq<char> {
    match vdef {
        CtonValueDef::Result => "Result"@,
        CtonValueDef::Param => "Param"@,
        CtonValueDef::NoneType => "None"@,
    }
}

/// The text that stands for a value definition in a decision node.
pub fn get_clift_valdef_name(vdef: CtonValueDef) -> (name: String)
    ensures
        name@ == valdef_name(vdef),
{
    match vdef {
        CtonValueDef::Result => String::from_str("Result"),
        CtonValueDef::Param => String::from_str("Param"),
        CtonValueDef::NoneType => String::from_str("None"),
    }
}

/// The text that stands for an instruction-data shape in a decision node;
/// the empty shape has the empty text.
pub open spec fn instdata_name(instdata: CtonInstKind) -> Seq<char> {
    match instdata {
        CtonInstKind::Binary => "Binary"@,
        CtonInstKind::BinaryImm => "BinaryImm"@,
        CtonInstKind::Unary => "Unary"@,
        CtonInstKind::UnaryImm => "UnaryImm"@,
        CtonInstKind::IntCompare => "IntCompare"@,
        CtonInstKind::IntCompareImm => "IntCompareImm"@,
        CtonInstKind::Var => "Var"@,
        CtonInstKind::NoneType => ""@,
    }
}

/// The text that stands for an instruction-data shape in a decision node.
pub fn get_clift_instdata_name(instdata: CtonInstKind) -> (name: String)
    ensures
        name@ == instdata_name(instdata),
{
    match instdata {
        CtonInstKind::Binary => String::from_str("Binary"),
        CtonInstKind::BinaryImm => String::from_str("BinaryImm"),
        CtonInstKind::Unary => String::from_str("Unary"),
        CtonInstKind::UnaryImm => String::from_str("UnaryImm"),
        CtonInstKind::IntCompare => String::from_str("IntCompare"),
        CtonInstKind::IntCompareImm => String::from_str("IntCompareImm"),
        CtonInstKind::Var => String::from_str("Var"),
        CtonInstKind::NoneType => String::from_str(""),
    }
}

/// The text that stands for a condition code in a decision node; an absent
/// condition has the empty text.
pub open spec fn cond_name(cond: Option<CtonCmpCond>) -> Seq<char> {
    match cond {
        Some(CtonCmpCond::Eq) => "eq"@,
        Some(CtonCmpCond::Ne) => "ne"@,
        Some(CtonCmpCond::Slt) => "slt"@,
        Some(CtonCmpCond::Ult) => "ult"@,
        Some(CtonCmpCond::Sle) => "sle"@,
        Some(CtonCmpCond::Ule) => "ule"@,
        None => ""@,
    }
}

/// The text that stands for a condition code in a decision node.
pub fn get_clift_cond_name(cond: Option<CtonCmpCond>) -> (name: String)
    ensures
        name@ == cond_name(cond),
{
    match cond {
        Some(CtonCmpCond::Eq) => String::from_str("eq"),
        Some(CtonCmpCond::Ne) => String::from_str("ne"),
        Some(CtonCmpCond::Slt) => String::from_str("slt"),
        Some(CtonCmpCond::Ult) => String::from_str("ult"),
        Some(CtonCmpCond::Sle) => String::from_str("sle"),
        Some(CtonCmpCond::Ule) => String::from_str("ule"),
        None => String::from_str(""),
    }
}

/// The text that stands for an opcode in a decision node; the empty opcode
/// has the empty text.
pub open spec fn opcode_name(opcode: CtonOpcode) -> Seq<char> {
    match opcode {
        CtonOpcode::Iadd => "iadd"@,
        CtonOpcode::Imul => "imul"@,
        CtonOpcode::ImulImm => "imul_imm"@,
        CtonOpcode::Isub => "isub"@,
        CtonOpcode::IsubImm => "irsub_imm"@,
        CtonOpcode::Band => "band"@,
        CtonOpcode::BandImm => "band_imm"@,
        CtonOpcode::Bor => "bor"@,
        CtonOpcode::BorImm => "bor_imm"@,
        CtonOpcode::Bxor => "bxor"@,
        CtonOpcode::BxorImm => "bxor_imm"@,
        CtonOpcode::Ishl => "ishl"@,
        CtonOpcode::IshlImm => "ishl_imm"@,
        CtonOpcode::Sshr => "sshr"@,
        CtonOpcode::SshrImm => "sshr_imm"@,
        CtonOpcode::Ushr => "ushr"@,
        CtonOpcode::UshrImm => "ushr_imm"@,
        CtonOpcode::Popcnt => "popcnt"@,
        CtonOpcode::Clz => "clz"@,
        CtonOpcode::Ctz => "ctz"@,
        CtonOpcode::IaddImm => "iadd_imm"@,
        CtonOpcode::Var => "Var"@,
        CtonOpcode::Icmp => "icmp"@,
        CtonOpcode::IcmpImm => "icmp_imm"@,
        CtonOpcode::Infer => "Infer"@,
        CtonOpcode::ResultInst => "Result"@,
        CtonOpcode::NoneType => ""@,
    }
}

/// The text that stands for an opcode in a decision node.
pub fn get_clift_opcode_name(opcode: CtonOpcode) -> (name: String)
    ensures
        name@ == opcode_name(opcode),
{
    match opcode {
        CtonOpcode::Iadd => String::from_str("iadd"),
        CtonOpcode::Imul => String::from_str("imul"),
        CtonOpcode::ImulImm => String::from_str("imul_imm"),
        CtonOpcode::Isub => String::from_str("isub"),
        CtonOpcode::IsubImm => String::from_str("irsub_imm"),
        CtonOpcode::Band => String::from_str("band"),
        CtonOpcode::BandImm => String::from_str("band_imm"),
        CtonOpcode::Bor => String::from_str("bor"),
        CtonOpcode::BorImm => String::from_str("bor_imm"),
        CtonOpcode::Bxor => String::from_str("bxor"),
        CtonOpcode::BxorImm => String::from_str("bxor_imm"),
        CtonOpcode::Ishl => String::from_str("ishl"),
        CtonOpcode::IshlImm => String::from_str("ishl_imm"),
        CtonOpcode::Sshr => String::from_str("sshr"),
        CtonOpcode::SshrImm => String::from_str("sshr_imm"),
        CtonOpcode::Ushr => String::from_str("ushr"),
        CtonOpcode::UshrImm => String::from_str("ushr_imm"),
        CtonOpcode::Popcnt => String::from_str("popcnt"),
        CtonOpcode::Clz => String::from_str("clz"),
        CtonOpcode::Ctz => String::from_str("ctz"),
        CtonOpcode::IaddImm => String::from_str("iadd_imm"),
        CtonOpcode::Var => String::from_str("Var"),
        CtonOpcode::Icmp => String::from_str("icmp"),
        CtonOpcode::IcmpImm => String::from_str("icmp_imm"),
        CtonOpcode::Infer => String::from_str("Infer"),
        CtonOpcode::ResultInst => String::from_str("Result"),
        CtonOpcode::NoneType => String::from_str(""),
    }
}

/// Whether an opcode denotes an integer comparison.
pub open spec fn is_compare_opcode(opcode: CtonOpcode) -> bool {
    opcode == CtonOpcode::Icmp || opcode == CtonOpcode::IcmpImm
}

/// Whether an opcode denotes an integer comparison.
pub fn opcode_is_compare(opcode: CtonOpcode) -> (b: bool)
    ensures
        b == is_compare_opcode(opcode),
{
    match opcode {
        CtonOpcode::Icmp => true,
        CtonOpcode::IcmpImm => true,
        _ => false,
    }
}

/// The canonical operand for a parsed operand: the same reference or
/// constant.
pub open spec fn operand_of(op: SouperOperand) -> CtonOperand {
    CtonOperand { idx_val: op.idx_val, const_val: op.const_val }
}

/// The canonical operands for a parsed operand list, one for one and in
/// order.
pub open spec fn operands_of(ops: Option<Seq<SouperOperand>>) -> Option<Seq<CtonOperand>> {
    match ops {
        Some(list) => Some(list.map_values(|op: SouperOperand| operand_of(op))),
        None => None,
    }
}

/// The view of an optional list.
pub open spec fn opt_view<T>(ops: Option<Vec<T>>) -> Option<Seq<T>> {
    match ops {
        Some(list) => Some(list@),
        None => None,
    }
}

fn clift_ops_of(souper_ops: &Option<Vec<SouperOperand>>) -> (res: Option<Vec<CtonOperand>>)
    ensures
        opt_view(res) == operands_of(opt_view(*souper_ops)),
{
    match souper_ops {
        Some(list) => {
            let mut cton_ops: Vec<CtonOperand> = Vec::new();
            let mut i: usize = 0;
            while i < list.len()
                invariant
                    i <= list.len(),
                    cton_ops@.len() == i,
                    forall|j: int| 0 <= j < i ==> #[trigger] cton_ops@[j] == operand_of(list@[j]),
                decreases list.len() - i,
            {
                cton_ops.push(CtonOperand { idx_val: list[i].idx_val, const_val: list[i].const_val });
                i += 1;
            }
            proof {
                assert(cton_ops@ =~= list@.map_values(|op: SouperOperand| operand_of(op)));
            }
            Some(cton_ops)
        },
        None => None,
    }
}

/// Converts a parsed operand list into canonical operands.
pub fn build_clift_ops(souper_ops: Option<Vec<SouperOperand>>) -> (res: Option<Vec<CtonOperand>>)
    ensures
        opt_view(res) == operands_of(opt_view(souper_ops)),
{
    clift_ops_of(&souper_ops)
}

/// Whether some operand of the list is an inline constant.
pub open spec fn has_const_operand(ops: Seq<CtonOperand>) -> bool {
    exists|i: int| 0 <= i < ops.len() && (#[trigger] ops[i]).const_val is Some
}

/// Whether some operand of an instruction is an inline constant. The
/// instruction must have an operand list.
pub fn inst_has_const_operand(clift_ops: Option<Vec<CtonOperand>>) -> (found: bool)
    requires
        clift_ops is Some,
    ensures
        found == has_const_operand(clift_ops->0@),
{
    let ghost ops = clift_ops->0@;
    let cops = clift_ops.unwrap();
    let mut i: usize = 0;
    while i < cops.len()
        invariant
            i <= cops.len(),
            cops@ == ops,
            ops == clift_ops->0@,
            forall|j: int| 0 <= j < i ==> (#[trigger] cops@[j]).const_val is None,
        decreases cops.len() - i,
    {
        if cops[i].const_val.is_some() {
            assert(has_const_operand(cops@));
            return true;
        }
        i += 1;
    }
    false
}

/// The register-form opcode and shape of the two-operand arithmetic,
/// bitwise and shift operations of the rule language.
pub open spec fn arith_opcode(kind: InstKind) -> Option<CtonOpcode> {
    match kind {
        InstKind::Add => Some(CtonOpcode::Iadd),
        InstKind::Mul => Some(CtonOpcode::Imul),
        InstKind::Sub => Some(CtonOpcode::Isub),
        InstKind::And => Some(CtonOpcode::Band),
        InstKind::Or => Some(CtonOpcode::Bor),
        InstKind::Xor => Some(CtonOpcode::Bxor),
        InstKind::Shl => Some(CtonOpcode::Ishl),
        InstKind::Lshr => Some(CtonOpcode::Ushr),
        InstKind::Ashr => Some(CtonOpcode::Sshr),
        _ => None,
    }
}

/// The condition code of the comparisons of the rule language.
pub open spec fn compare_cond(kind: InstKind) -> Option<CtonCmpCond> {
    match kind {
        InstKind::Eq => Some(CtonCmpCond::Eq),
        InstKind::Ne => Some(CtonCmpCond::Ne),
        InstKind::Slt => Some(CtonCmpCond::Slt),
        InstKind::Ult => Some(CtonCmpCond::Ult),
        InstKind::Sle => Some(CtonCmpCond::Sle),
        InstKind::Ule => Some(CtonCmpCond::Ule),
        _ => None,
    }
}

/// The opcode of the one-operand counting operations.
pub open spec fn count_opcode(kind: InstKind) -> Option<CtonOpcode> {
    match kind {
        InstKind::Ctpop => Some(CtonOpcode::Popcnt),
        InstKind::Ctlz => Some(CtonOpcode::Clz),
        InstKind::Cttz => Some(CtonOpcode::Ctz),
        _ => None,
    }
}

/// The immediate form of a register-form opcode (an opcode without one is
/// its own).
pub open spec fn immediate_form(opcode: CtonOpcode) -> CtonOpcode {
    match opcode {
        CtonOpcode::Iadd => CtonOpcode::IaddImm,
        CtonOpcode::Imul => CtonOpcode::ImulImm,
        CtonOpcode::Isub => CtonOpcode::IsubImm,
        CtonOpcode::Band => CtonOpcode::BandImm,
        CtonOpcode::Bor => CtonOpcode::BorImm,
        CtonOpcode::Bxor => CtonOpcode::BxorImm,
        CtonOpcode::Ishl => CtonOpcode::IshlImm,
        CtonOpcode::Ushr => CtonOpcode::UshrImm,
        CtonOpcode::Sshr => CtonOpcode::SshrImm,
        CtonOpcode::Icmp => CtonOpcode::IcmpImm,
        other => other,
    }
}

/// Whether the mapping of an operation looks at its operands to choose
/// between the register form and the immediate form; such an instruction
/// must have an operand list.
pub open spec fn form_depends_on_operands(kind: InstKind) -> bool {
    arith_opcode(kind) is Some || compare_cond(kind) is Some
}

/// The canonical instruction for a parsed instruction.
///
/// A two-operand operation or a comparison takes its immediate form and
/// shape when one of its operands is a constant, else its register form; a
/// comparison is one bit wide. The counting operations are unary. A
/// variable is a parameter. The two pseudo-instructions keep their opcode
/// and have no shape. Any other operation is taken for an unnumbered
/// variable.
pub open spec fn mapped_inst(inst: crate::parser::InstView) -> CtonInstView {
    let cops = operands_of(inst.ops);
    if arith_opcode(inst.kind) is Some {
        let imm = has_const_operand(cops->0);
        CtonInstView {
            valuedef: CtonValueDef::Result,
            kind: if imm { CtonInstKind::BinaryImm } else { CtonInstKind::Binary },
            opcode: if imm { immediate_form(arith_opcode(inst.kind)->0) } else { arith_opcode(inst.kind)->0 },
            cond: None,
            width: inst.width,
            var_num: inst.var_number,
            cops,
        }
    } else if compare_cond(inst.kind) is Some {
        let imm = has_const_operand(cops->0);
        CtonInstView {
            valuedef: CtonValueDef::Result,
            kind: if imm { CtonInstKind::IntCompareImm } else { CtonInstKind::IntCompare },
            opcode: if imm { CtonOpcode::IcmpImm } else { CtonOpcode::Icmp },
            cond: compare_cond(inst.kind),
            width: 1,
            var_num: inst.var_number,
            cops,
        }
    } else if count_opcode(inst.kind) is Some {
        CtonInstView {
            valuedef: CtonValueDef::Result,
            kind: CtonInstKind::Unary,
            opcode: count_opcode(inst.kind)->0,
            cond: None,
            width: inst.width,
            var_num: inst.var_number,
            cops,
        }
    } else if inst.kind == InstKind::Infer || inst.kind == InstKind::ResultInst {
        CtonInstView {
            valuedef: CtonValueDef::NoneType,
            kind: CtonInstKind::NoneType,
            opcode: if inst.kind == InstKind::Infer { CtonOpcode::Infer } else { CtonOpcode::ResultInst },
            cond: None,
            width: inst.width,
            var_num: inst.var_number,
            cops,
        }
    } else {
        CtonInstView {
            valuedef: CtonValueDef::Param,
            kind: CtonInstKind::Var,
            opcode: CtonOpcode::Var,
            cond: None,
            width: inst.width,
            var_num: if inst.kind == InstKind::Var { inst.var_number } else { None },
            cops,
        }
    }
}

fn two_operand_inst(
    opcode: CtonOpcode,
    imm_opcode: CtonOpcode,
    cond: Option<CtonCmpCond>,
    width: u32,
    inst: &Inst,
) -> (res: CtonInst)
    requires
        inst.ops is Some,
    ensures
        res@.valuedef == CtonValueDef::Result,
        res@.cond == cond,
        res@.width == width,
        res@.var_num == inst.var_number,
        res@.cops == operands_of(inst@.ops),
        res@.opcode == if has_const_operand(res@.cops->0) { imm_opcode } else { opcode },
        res@.kind == if cond is Some {
            if has_const_operand(res@.cops->0) { CtonInstKind::IntCompareImm } else { CtonInstKind::IntCompare }
        } else {
            if has_const_operand(res@.cops->0) { CtonInstKind::BinaryImm } else { CtonInstKind::Binary }
        },
{
    let clift_ops = clift_ops_of(&inst.ops);
    let imm = inst_has_const_operand(clift_ops_of(&inst.ops));
    let compare = cond.is_some();
    let kind = if compare {
        if imm { CtonInstKind::IntCompareImm } else { CtonInstKind::IntCompare }
    } else {
        if imm { CtonInstKind::BinaryImm } else { CtonInstKind::Binary }
    };
    CtonInst {
        valuedef: CtonValueDef::Result,
        kind,
        opcode: if imm { imm_opcode } else { opcode },
        cond,
        width,
        var_num: inst.var_number,
        cops: clift_ops,
    }
}

fn plain_inst(valuedef: CtonValueDef, kind: CtonInstKind, opcode: CtonOpcode, var_num: Option<u32>, inst: &Inst) -> (res: CtonInst)
    ensures
        res@ == (CtonInstView {
            valuedef,
            kind,
            opcode,
            cond: None,
            width: inst.width,
            var_num,
            cops: operands_of(inst@.ops),
        }),
{
    CtonInst { valuedef, kind, opcode, cond: None, width: inst.width, var_num, cops: clift_ops_of(&inst.ops) }
}

fn map_inst(inst: &Inst) -> (res: CtonInst)
    requires
        form_depends_on_operands(inst.kind) ==> inst.ops is Some,
    ensures
        res@ == mapped_inst(inst@),
{
    let width = inst.width;
    match inst.kind {
        InstKind::Add => two_operand_inst(CtonOpcode::Iadd, CtonOpcode::IaddImm, None, width, inst),
        InstKind::Mul => two_operand_inst(CtonOpcode::Imul, CtonOpcode::ImulImm, None, width, inst),
        InstKind::Sub => two_operand_inst(CtonOpcode::Isub, CtonOpcode::IsubImm, None, width, inst),
        InstKind::Eq => two_operand_inst(CtonOpcode::Icmp, CtonOpcode::IcmpImm, Some(CtonCmpCond::Eq), 1, inst),
        InstKind::Ne => two_operand_inst(CtonOpcode::Icmp, CtonOpcode::IcmpImm, Some(CtonCmpCond::Ne), 1, inst),
        InstKind::Slt => two_operand_inst(CtonOpcode::Icmp, CtonOpcode::IcmpImm, Some(CtonCmpCond::Slt), 1, inst),
        InstKind::Ult => two_operand_inst(CtonOpcode::Icmp, CtonOpcode::IcmpImm, Some(CtonCmpCond::Ult), 1, inst),
        InstKind::Sle => two_operand_inst(CtonOpcode::Icmp, CtonOpcode::IcmpImm, Some(CtonCmpCond::Sle), 1, inst),
        InstKind::Ule => two_operand_inst(CtonOpcode::Icmp, CtonOpcode::IcmpImm, Some(CtonCmpCond::Ule), 1, inst),
        InstKind::And => two_operand_inst(CtonOpcode::Band, CtonOpcode::BandImm, None, width, inst),
        InstKind::Or => two_operand_inst(CtonOpcode::Bor, CtonOpcode::BorImm, None, width, inst),
        InstKind::Xor => two_operand_inst(CtonOpcode::Bxor, CtonOpcode::BxorImm, None, width, inst),
        InstKind::Shl => two_operand_inst(CtonOpcode::Ishl, CtonOpcode::IshlImm, None, width, inst),
        InstKind::Lshr => two_operand_inst(CtonOpcode::Ushr, CtonOpcode::UshrImm, None, width, inst),
        InstKind::Ashr => two_operand_inst(CtonOpcode::Sshr, CtonOpcode::SshrImm, None, width, inst),
        InstKind::Ctpop => plain_inst(CtonValueDef::Result, CtonInstKind::Unary, CtonOpcode::Popcnt, inst.var_number, inst),
        InstKind::Ctlz => plain_inst(CtonValueDef::Result, CtonInstKind::Unary, CtonOpcode::Clz, inst.var_number, inst),
        InstKind::Cttz => plain_inst(CtonValueDef::Result, CtonInstKind::Unary, CtonOpcode::Ctz, inst.var_number, inst),
        InstKind::Var => plain_inst(CtonValueDef::Param, CtonInstKind::Var, CtonOpcode::Var, inst.var_number, inst),
        InstKind::Infer => plain_inst(CtonValueDef::NoneType, CtonInstKind::NoneType, CtonOpcode::Infer, inst.var_number, inst),
        InstKind::ResultInst => plain_inst(
            CtonValueDef::NoneType,
            CtonInstKind::NoneType,
            CtonOpcode::ResultInst,
            inst.var_number,
            inst,
        ),
        _ => plain_inst(CtonValueDef::Param, CtonInstKind::Var, CtonOpcode::Var, None, inst),
    }
}

/// Maps one parsed instruction to its canonical instruction.
///
/// An operation whose form depends on its operands must come with an
/// operand list.
pub fn mapping_souper_to_cton_isa(souper_inst: Inst) -> (res: CtonInst)
    requires
        form_depends_on_operands(souper_inst.kind) ==> souper_inst.ops is Some,
    ensures
        res@ == mapped_inst(souper_inst@),
{
    map_inst(&souper_inst)
}

/// Whether an instruction can be mapped: an operation whose form depends
/// on its operands has an operand list.
pub fn is_mappable(inst: &Inst) -> (b: bool)
    ensures
        b == (form_depends_on_operands(inst.kind) ==> inst.ops is Some),
{
    match inst.kind {
        InstKind::Add | InstKind::Mul | InstKind::Sub | InstKind::And | InstKind::Or | InstKind::Xor
        | InstKind::Shl | InstKind::Lshr | InstKind::Ashr | InstKind::Eq | InstKind::Ne | InstKind::Slt
        | InstKind::Ult | InstKind::Sle | InstKind::Ule => inst.ops.is_some(),
        _ => true,
    }
}

/// Whether every instruction of a parsed rule can be mapped.
pub open spec fn all_mappable(insts: Seq<Inst>) -> bool {
    forall|i: int|
        0 <= i < insts.len() ==> (form_depends_on_operands((#[trigger] insts[i]).kind)
            ==> insts[i].ops is Some)
}

/// Maps a parsed rule to its canonical instruction sequence, one
/// instruction for one and in order.
pub fn transform_souper_to_clift_insts(souper_insts: Vec<Inst>) -> (res: Vec<CtonInst>)
    requires
        all_mappable(souper_insts@),
    ensures
        res@.len() == souper_insts@.len(),
        forall|i: int| 0 <= i < res@.len() ==> (#[trigger] res@[i])@ == mapped_inst(souper_insts@[i]@),
{
    let mut cton_insts: Vec<CtonInst> = Vec::new();
    let mut i: usize = 0;
    while i < souper_insts.len()
        invariant
            i <= souper_insts.len(),
            cton_insts@.len() == i,
            all_mappable(souper_insts@),
            forall|j: int| 0 <= j < i ==> (#[trigger] cton_insts@[j])@ == mapped_inst(souper_insts@[j]@),
        decreases souper_insts.len() - i,
    {
        cton_insts.push(map_inst(&souper_insts[i]));
        i += 1;
    }
    cton_insts
}

} // verus!

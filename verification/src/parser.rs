//! The parsed form of a rewrite rule: the instructions of the rule language
//! as the rule parser hands them over, before they are mapped to the target
//! instruction set.
use vstd::prelude::*;

verus! {

/// The operation of a parsed instruction.
#[derive(Clone, Copy, Debug, PartialEq, Eq, Structural)]
pub enum InstKind {
    Var,
    Add,
    Mul,
    Sub,
    Udiv,
    Sdiv,
    And,
    Or,
    Xor,
    Shl,
    Lshr,
    Ashr,
    Select,
    Zext,
    Sext,
    Trunc,
    Eq,
    Ne,
    Ult,
    Slt,
    Ule,
    Sle,
    Ctpop,
    Bswap,
    Cttz,
    Ctlz,
    Infer,
    ResultInst,
    NoneType,
}

/// One operand of a parsed instruction: the position of another
/// instruction of the same rule, or an inline constant.
#[derive(Clone, Copy, Debug, PartialEq, Eq, Structural)]
pub struct SouperOperand {
    pub idx_val: Option<usize>,
    pub const_val: Option<i32>,
    pub width: u32,
}

/// One parsed instruction.
#[derive(Debug, PartialEq, Eq)]
pub struct Inst {
    pub kind: InstKind,
    pub lhs: String,
    pub width: u32,
    pub var_number: Option<u32>,
    pub ops: Option<Vec<SouperOperand>>,
}

/// The mathematical value of a parsed instruction.
pub struct InstView {
    pub kind: InstKind,
    pub lhs: Seq<char>,
    pub width: u32,
    pub var_number: Option<u32>,
    pub ops: Option<Seq<SouperOperand>>,
}

impl View for Inst {
    type V = InstView;

    open spec fn view(&self) -> InstView {
        InstView {
            kind: self.kind,
            lhs: self.lhs@,
            width: self.width,
            var_number: self.var_number,
            ops: match self.ops {
                Some(ops) => Some(ops@),
                None => None,
            },
        }
    }
}

} // verus!

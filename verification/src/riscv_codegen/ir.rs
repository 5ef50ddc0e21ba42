//! The intermediate representation the code generator reads: a module of
//! globals and functions, each function a list of labelled blocks of
//! instructions in static single assignment form.
use vstd::prelude::*;

verus! {

/// An operand: an integer constant (zero-extended) or a named value (an SSA
/// value, an `alloca` slot or a global; the name is empty for an unnamed value).
#[derive(Clone, Debug)]
pub enum IrValue {
    Const(u64),
    Named(String),
}

/// A two-operand arithmetic operation.
#[derive(Clone, Copy, Debug, PartialEq, Eq)]
pub enum BinOp {
    Add,
    Sub,
    Mul,
    SDiv,
    SRem,
}

/// The predicate of an integer comparison; `Other` stands for the unsigned
/// ones, which the code generator does not lower.
#[derive(Clone, Copy, Debug, PartialEq, Eq)]
pub enum CmpPred {
    Eq,
    Ne,
    Sgt,
    Slt,
    Sle,
    Sge,
    Other,
}

/// An instruction. A `result` is the name of the value it defines (empty
/// when unnamed).
#[derive(Clone, Debug)]
pub enum Instr {
    /// A stack slot.
    Alloca { result: String },
    /// A read through `ptr`.
    Load { result: String, ptr: IrValue },
    /// A write of `value` through `ptr`.
    Store { value: IrValue, ptr: IrValue },
    /// Arithmetic.
    Binary { op: BinOp, result: String, lhs: IrValue, rhs: IrValue },
    /// An integer comparison, giving 1 or 0.
    ICmp { pred: CmpPred, result: String, lhs: IrValue, rhs: IrValue },
    /// A zero extension.
    ZExt { result: String, value: IrValue },
    /// A jump.
    Br { target: String },
    /// A branch to `true_target` when `cond` is not zero, else to `false_target`.
    CondBr { cond: IrValue, true_target: String, false_target: String },
    /// A return, with or without a value.
    Ret { returned: Option<IrValue> },
    /// Any other instruction (a call, say): it defines `result` and is not lowered.
    Other { result: String },
}

/// A labelled block of instructions.
#[derive(Clone, Debug)]
pub struct IrBlock {
    pub name: String,
    pub instrs: Vec<Instr>,
}

/// A function: its name and blocks.
#[derive(Clone, Debug)]
pub struct IrFunction {
    pub name: String,
    pub blocks: Vec<IrBlock>,
}

/// A global integer variable and its initial value, if it has one.
#[derive(Clone, Debug)]
pub struct IrGlobal {
    pub name: String,
    pub init: Option<u64>,
}

/// A module: its globals and functions.
#[derive(Clone, Debug)]
pub struct IrModule {
    pub globals: Vec<IrGlobal>,
    pub functions: Vec<IrFunction>,
}

/// The name of an operand: empty for a constant.
pub open spec fn value_name(v: IrValue) -> Seq<char> {
    match v {
        IrValue::Const(_) => Seq::empty(),
        IrValue::Named(n) => n@,
    }
}

/// The name of the value an instruction defines: empty for one that defines none.
pub open spec fn result_name(i: Instr) -> Seq<char> {
    match i {
        Instr::Alloca { result } => result@,
        Instr::Load { result, .. } => result@,
        Instr::Binary { result, .. } => result@,
        Instr::ICmp { result, .. } => result@,
        Instr::ZExt { result, .. } => result@,
        Instr::Other { result } => result@,
        _ => Seq::empty(),
    }
}

/// True for the instructions that end a block: jumps, branches and returns.
pub open spec fn is_terminator(i: Instr) -> bool {
    i is Br || i is CondBr || i is Ret
}

/// The names of the non-constant operands an instruction reads, in operand
/// order: both operands of a store, an arithmetic operation or a comparison;
/// the pointer of a load; the condition of a branch; the operand of a zero
/// extension.
pub open spec fn uses_of(i: Instr) -> Seq<Seq<char>> {
    match i {
        Instr::Store { value, ptr } => operand_uses(value) + operand_uses(ptr),
        Instr::Binary { lhs, rhs, .. } => operand_uses(lhs) + operand_uses(rhs),
        Instr::ICmp { lhs, rhs, .. } => operand_uses(lhs) + operand_uses(rhs),
        Instr::Load { ptr, .. } => operand_uses(ptr),
        Instr::CondBr { cond, .. } => operand_uses(cond),
        Instr::ZExt { value, .. } => operand_uses(value),
        _ => Seq::empty(),
    }
}

/// The name of an operand as a use: none for a constant.
pub open spec fn operand_uses(v: IrValue) -> Seq<Seq<char>> {
    match v {
        IrValue::Const(_) => Seq::empty(),
        IrValue::Named(n) => seq![n@],
    }
}


impl Instr {
    /// True for a jump or a conditional branch.
    pub fn is_branch(&self) -> (r: bool)
        ensures
            r == (*self is Br || *self is CondBr),
    {
        match self {
            Instr::Br { .. } => true,
            Instr::CondBr { .. } => true,
            _ => false,
        }
    }

    /// True for the instructions that end a block: jumps, branches and returns.
    pub fn is_block_end(&self) -> (r: bool)
        ensures
            r == is_terminator(*self),
    {
        match self {
            Instr::Br { .. } => true,
            Instr::CondBr { .. } => true,
            Instr::Ret { .. } => true,
            _ => false,
        }
    }
}

} // verus!

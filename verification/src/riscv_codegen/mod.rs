//! Lowering of the compiler's intermediate representation to RISC-V assembly.
pub mod asm_builder;
pub mod context;
pub mod function;
pub mod ir;
pub mod register_alloc;

pub use context::GenContext;
pub use function::{FunctionState, build_function, build_global_variable, check_loop_branch, collect_uses,
    get_value_name, lower_module};
pub use ir::{BinOp, CmpPred, Instr, IrBlock, IrFunction, IrGlobal, IrModule, IrValue};

use vstd::prelude::*;
use crate::riscv_codegen::asm_builder::{AsmBuilder, op0_line, op1_line, op2_line, op3_line, mem_line, label_line, exit_lines};
use crate::riscv_codegen::context::CtxView;
use crate::riscv_codegen::ir::value_name;
use crate::riscv_codegen::register_alloc::{Location, Loc};
use crate::text::{int_text, dec_digits, str_eq, starts_with};
use crate::ir_gen::{binop_value, trunc_div};

verus! {

/// `x0`, the zero register.
pub open spec fn reg_x0() -> Seq<char> { seq!['x', '0'] }
/// `t0`, the first scratch register.
pub open spec fn reg_t0() -> Seq<char> { seq!['t', '0'] }
/// `t1`, the second scratch register.
pub open spec fn reg_t1() -> Seq<char> { seq!['t', '1'] }
/// `t2`, the third scratch register.
pub open spec fn reg_t2() -> Seq<char> { seq!['t', '2'] }
/// `t3`, the register that holds a global's address for a store of a result.
pub open spec fn reg_t3() -> Seq<char> { seq!['t', '3'] }
/// `a0`, the register of the return value.
pub open spec fn reg_a0() -> Seq<char> { seq!['a', '0'] }
/// `sp`, the stack pointer.
pub open spec fn reg_sp() -> Seq<char> { seq!['s', 'p'] }

/// The place of a name, if the context has one for it.
pub open spec fn place_of(c: CtxView, name: Seq<char>) -> Option<Loc> {
    if c.locations.contains_key(name) { Some(c.locations[name]) } else { None }
}

/// The lines that load a global's value into `reg`: its address, then the word there.
pub open spec fn global_load_text(reg: Seq<char>, label: Seq<char>) -> Seq<char> {
    op2_line(seq!['l', 'a'], reg, label) + mem_line(seq!['l', 'w'], reg, 0, reg)
}

/// What `get_value_from_reg` emits to make `v` available in a register,
/// with `reg` as the register to load into: nothing for zero or a value
/// already in a register; `li` for another constant; `lw` from the stack;
/// `la` and `lw` for a global; `li reg, 0` for a name with no place.
pub open spec fn fetch_text(v: IrValue, c: CtxView, reg: Seq<char>) -> Seq<char> {
    match v {
        IrValue::Const(k) => if k == 0 {
            Seq::empty()
        } else {
            op2_line(seq!['l', 'i'], reg, int_text((k as i32) as int))
        },
        IrValue::Named(n) => match place_of(c, n@) {
            Some(Loc::Reg(_)) => Seq::empty(),
            Some(Loc::Stack(o)) => mem_line(seq!['l', 'w'], reg, o as int, reg_sp()),
            Some(Loc::Global(g)) => global_load_text(reg, g),
            None => op2_line(seq!['l', 'i'], reg, int_text(0)),
        },
    }
}

/// The register in which `get_value_from_reg` leaves `v`: `x0` for zero,
/// the value's own register when it has one, `reg` otherwise.
pub open spec fn fetch_reg(v: IrValue, c: CtxView, reg: Seq<char>) -> Seq<char> {
    match v {
        IrValue::Const(k) => if k == 0 { reg_x0() } else { reg },
        IrValue::Named(n) => match place_of(c, n@) {
            Some(Loc::Reg(r)) => r,
            _ => reg,
        },
    }
}

/// What `load_value_to_reg` emits to put `v` into `reg` itself.
pub open spec fn load_text(v: IrValue, c: CtxView, reg: Seq<char>) -> Seq<char> {
    match v {
        IrValue::Const(k) => if k == 0 {
            op2_line(seq!['m', 'v'], reg, reg_x0())
        } else {
            op2_line(seq!['l', 'i'], reg, int_text((k as i32) as int))
        },
        IrValue::Named(n) => match place_of(c, n@) {
            Some(Loc::Reg(r)) => if r != reg { op2_line(seq!['m', 'v'], reg, r) } else { Seq::empty() },
            Some(Loc::Stack(o)) => mem_line(seq!['l', 'w'], reg, o as int, reg_sp()),
            Some(Loc::Global(g)) => global_load_text(reg, g),
            None => op2_line(seq!['m', 'v'], reg, reg_x0()),
        },
    }
}

/// The name of an operand: empty for a constant.
pub fn get_value_from_basic(input: &IrValue) -> (r: String)
    ensures
        r@ == value_name(*input),
{
    match input {
        IrValue::Const(_) => String::new(),
        IrValue::Named(n) => n.clone(),
    }
}

/// True when the operand is an integer constant.
pub fn is_constant(input: &IrValue) -> (r: bool)
    ensures
        r == (*input is Const),
{
    match input {
        IrValue::Const(_) => true,
        IrValue::Named(_) => false,
    }
}

/// Makes `input` available in a register and returns that register: `x0`
/// for zero, the value's own register, or `reg_name` after loading it there.
#[verifier::spinoff_prover]
#[verifier::rlimit(50)]
pub fn get_value_from_reg(input: &IrValue, ctx: &GenContext, reg_name: &str, asm_builder: &mut AsmBuilder) -> (r: String)
    ensures
        final(asm_builder)@ == old(asm_builder)@ + fetch_text(*input, ctx@, reg_name@),
        r@ == fetch_reg(*input, ctx@, reg_name@),
{
    proof { reveal_strlit("x0"); reveal_strlit("sp"); }
    match input {
        IrValue::Const(val) => {
            if *val == 0 {
                assert(asm_builder@ =~= old(asm_builder)@ + Seq::<char>::empty());
                return String::from_str("x0");
            }
            asm_builder.emit_li(reg_name, *val as i32);
            return String::from_str(reg_name);
        }
        IrValue::Named(val_name) => {
            match ctx.get_location(val_name.as_str()) {
                Some(Location::Reg(reg)) => {
                    assert(asm_builder@ =~= old(asm_builder)@ + Seq::<char>::empty());
                    return reg.clone();
                }
                Some(Location::Stack(sp_offset)) => {
                    asm_builder.emit_lw(reg_name, *sp_offset, "sp");
                    return String::from_str(reg_name);
                }
                Some(Location::Global(name)) => {
                    asm_builder.emit_la(reg_name, name.as_str());
                    asm_builder.emit_lw(reg_name, 0, reg_name);
                    assert(asm_builder@ =~= old(asm_builder)@ + global_load_text(reg_name@, name@));
                    return String::from_str(reg_name);
                }
                None => {
                    asm_builder.emit_li(reg_name, 0);
                    String::from_str(reg_name)
                }
            }
        }
    }
}

/// Puts `input` into the register `reg_name`, with a move when it sits in
/// another register; zero and a name with no place are moved from `x0`.
#[verifier::spinoff_prover]
#[verifier::rlimit(50)]
pub fn load_value_to_reg(input: &IrValue, ctx: &GenContext, reg_name: &str, asm_builder: &mut AsmBuilder)
    ensures
        final(asm_builder)@ == old(asm_builder)@ + load_text(*input, ctx@, reg_name@),
{
    proof { reveal_strlit("x0"); reveal_strlit("sp"); }
    match input {
        IrValue::Const(val) => {
            if *val == 0 {
                asm_builder.emit_mv(reg_name, "x0");
                return;
            }
            asm_builder.emit_li(reg_name, *val as i32);
        }
        IrValue::Named(val_name) => {
            match ctx.get_location(val_name.as_str()) {
                Some(Location::Reg(reg)) => {
                    if !str_eq(reg.as_str(), reg_name) {
                        asm_builder.emit_mv(reg_name, reg.as_str());
                    } else {
                        assert(asm_builder@ =~= old(asm_builder)@ + Seq::<char>::empty());
                    }
                }
                Some(Location::Stack(sp_offset)) => {
                    asm_builder.emit_lw(reg_name, *sp_offset, "sp");
                }
                Some(Location::Global(label)) => {
                    asm_builder.emit_la(reg_name, label.as_str());
                    asm_builder.emit_lw(reg_name, 0, reg_name);
                    assert(asm_builder@ =~= old(asm_builder)@ + global_load_text(reg_name@, label@));
                }
                None => {
                    asm_builder.emit_mv(reg_name, "x0");
                }
            }
        }
    }
}


/// The instruction name of an arithmetic operation.
pub open spec fn binop_name(op: BinOp) -> Seq<char> {
    match op {
        BinOp::Add => seq!['a', 'd', 'd'],
        BinOp::Sub => seq!['s', 'u', 'b'],
        BinOp::Mul => seq!['m', 'u', 'l'],
        BinOp::SDiv => seq!['d', 'i', 'v'],
        BinOp::SRem => seq!['r', 'e', 'm'],
    }
}

/// The lines for `result = lhs op rhs`: the operands are fetched into `t0`
/// and `t1`; the result goes to its register, or through `t2` to its stack
/// slot or (with `t3` holding the address) to its global.
pub open spec fn cal_text(op: BinOp, result: Seq<char>, lhs: IrValue, rhs: IrValue, c: CtxView) -> Seq<char> {
    let l = fetch_reg(lhs, c, reg_t0());
    let r = fetch_reg(rhs, c, reg_t1());
    fetch_text(lhs, c, reg_t0()) + fetch_text(rhs, c, reg_t1()) + match place_of(c, result) {
        Some(Loc::Reg(d)) => op3_line(binop_name(op), d, l, r),
        Some(Loc::Stack(o)) => op3_line(binop_name(op), reg_t2(), l, r) + mem_line(seq!['s', 'w'], reg_t2(), o as int, reg_sp()),
        Some(Loc::Global(g)) => op3_line(binop_name(op), reg_t2(), l, r) + op2_line(seq!['l', 'a'], reg_t3(), g)
            + mem_line(seq!['s', 'w'], reg_t2(), 0, reg_t3()),
        None => Seq::empty(),
    }
}

/// What a RISC-V arithmetic instruction `op d, a, b` writes into `d`, on the
/// integers before wrapping to the register's width, for the instructions the
/// code generator uses: `add`, `sub`, `mul`, and `div` and `rem`, which round
/// toward zero and give -1 and `a` for a zero divisor.
pub open spec fn alu_op_value(op: Seq<char>, a: int, b: int) -> Option<int> {
    if op.len() != 3 {
        None
    } else if op[0] == 'a' && op[1] == 'd' && op[2] == 'd' {
        Some(a + b)
    } else if op[0] == 's' && op[1] == 'u' && op[2] == 'b' {
        Some(a - b)
    } else if op[0] == 'm' && op[1] == 'u' && op[2] == 'l' {
        Some(a * b)
    } else if op[0] == 'd' && op[1] == 'i' && op[2] == 'v' {
        Some(if b == 0 { -1 } else { trunc_div(a, b) })
    } else if op[0] == 'r' && op[1] == 'e' && op[2] == 'm' {
        Some(if b == 0 { a } else { a - b * trunc_div(a, b) })
    } else {
        None
    }
}

/// An arithmetic instruction whose result has a place is lowered to its
/// operands' fetches and then one instruction on the fetched registers into
/// the result's register (or `t2` on the way to memory) that computes the
/// operation: wherever the operation is defined, the instruction gives its
/// value (`sub` for `Sub`, `rem` for `SRem`, and so on).
pub proof fn lemma_arith_lowers_to_its_instruction(op: BinOp, result: Seq<char>, lhs: IrValue, rhs: IrValue, c: CtxView)
    requires
        place_of(c, result) is Some,
    ensures
        exists|m: Seq<char>|
            starts_with(cal_text(op, result, lhs, rhs, c), fetch_text(lhs, c, reg_t0()) + fetch_text(rhs, c, reg_t1())
                + #[trigger] op3_line(m, cmp_dest(c, result), fetch_reg(lhs, c, reg_t0()), fetch_reg(rhs, c, reg_t1())))
            && forall|x: int, y: int| #[trigger] binop_value(op, x, y) is Some ==> alu_op_value(m, x, y) == binop_value(op, x, y),
{
    let m = binop_name(op);
    let fetched = fetch_text(lhs, c, reg_t0()) + fetch_text(rhs, c, reg_t1());
    let line = op3_line(m, cmp_dest(c, result), fetch_reg(lhs, c, reg_t0()), fetch_reg(rhs, c, reg_t1()));
    let t = cal_text(op, result, lhs, rhs, c);
    assert(m.len() == 3);
    assert(forall|x: int, y: int| #[trigger] binop_value(op, x, y) is Some ==> alu_op_value(m, x, y) == binop_value(op, x, y));
    assert(t == fetched + (line + stored_result_tail(place_of(c, result))));
    lemma_starts_with_concat(fetched, line, stored_result_tail(place_of(c, result)));
}

/// What follows the operation's line in `cal_text`: the store of `t2` to the
/// result's stack slot or global, nothing for a register.
spec fn stored_result_tail(place: Option<Loc>) -> Seq<char> {
    match place {
        Some(Loc::Stack(o)) => mem_line(seq!['s', 'w'], reg_t2(), o as int, reg_sp()),
        Some(Loc::Global(g)) => op2_line(seq!['l', 'a'], reg_t3(), g) + mem_line(seq!['s', 'w'], reg_t2(), 0, reg_t3()),
        _ => Seq::empty(),
    }
}

proof fn lemma_starts_with_concat(a: Seq<char>, b: Seq<char>, c: Seq<char>)
    ensures
        starts_with(a + (b + c), a + b),
{
    assert((a + (b + c)).subrange(0, (a + b).len() as int) =~= a + b);
}

/// The register a comparison writes: the result's register, or `t2`.
pub open spec fn cmp_dest(c: CtxView, result: Seq<char>) -> Seq<char> {
    match place_of(c, result) {
        Some(Loc::Reg(r)) => r,
        _ => reg_t2(),
    }
}

/// The lines for `result = icmp pred lhs, rhs`: operands fetched into `t0`
/// and `t1`; equality tests subtract and then set from the difference.
pub open spec fn icmp_text(pred: CmpPred, result: Seq<char>, lhs: IrValue, rhs: IrValue, c: CtxView) -> Seq<char> {
    let l = fetch_reg(lhs, c, reg_t0());
    let r = fetch_reg(rhs, c, reg_t1());
    let d = cmp_dest(c, result);
    let fetched = fetch_text(lhs, c, reg_t0()) + fetch_text(rhs, c, reg_t1());
    match pred {
        CmpPred::Eq => fetched + op3_line(seq!['s', 'u', 'b'], d, l, r) + op2_line(seq!['s', 'e', 'q', 'z'], d, d),
        CmpPred::Ne => fetched + op3_line(seq!['s', 'u', 'b'], d, l, r) + op2_line(seq!['s', 'n', 'e', 'z'], d, d),
        CmpPred::Sgt => fetched + op3_line(seq!['s', 'g', 't'], d, l, r),
        CmpPred::Slt => fetched + op3_line(seq!['s', 'l', 't'], d, l, r),
        CmpPred::Sle => fetched + op3_line(seq!['s', 'l', 'e'], d, l, r),
        CmpPred::Sge => fetched + op3_line(seq!['s', 'g', 'e'], d, l, r),
        CmpPred::Other => Seq::empty(),
    }
}

/// What a comparison predicate says of two signed integers.
pub open spec fn pred_holds(pred: CmpPred, a: int, b: int) -> bool {
    match pred {
        CmpPred::Eq => a == b,
        CmpPred::Ne => a != b,
        CmpPred::Sgt => a > b,
        CmpPred::Slt => a < b,
        CmpPred::Sle => a <= b,
        CmpPred::Sge => a >= b,
        CmpPred::Other => false,
    }
}

/// What a RISC-V set instruction `op d, a, b` writes into `d`, as a truth
/// value, for the set instructions the code generator uses: `slt`, `sgt`,
/// `sle`, `sge`.
pub open spec fn set_op_value(op: Seq<char>, a: int, b: int) -> Option<bool> {
    if op.len() != 3 || op[0] != 's' {
        None
    } else if op[1] == 'l' && op[2] == 't' {
        Some(a < b)
    } else if op[1] == 'g' && op[2] == 't' {
        Some(a > b)
    } else if op[1] == 'l' && op[2] == 'e' {
        Some(a <= b)
    } else if op[1] == 'g' && op[2] == 'e' {
        Some(a >= b)
    } else {
        None
    }
}

/// What a RISC-V zero test `op d, d` writes into `d` from the value in it:
/// `seqz` tests for zero, `snez` for anything else.
pub open spec fn zero_test_value(op: Seq<char>, x: int) -> Option<bool> {
    if op == seq!['s', 'e', 'q', 'z'] {
        Some(x == 0)
    } else if op == seq!['s', 'n', 'e', 'z'] {
        Some(x != 0)
    } else {
        None
    }
}

/// An ordering comparison is lowered to its operands' fetches and one set
/// instruction into the result's register whose value is the predicate
/// itself: for every pair of signed values the instruction writes 1 exactly
/// when the predicate holds (`sge` for `>=`, `slt` for `<`, and so on).
pub proof fn lemma_ordering_compare_sets_predicate(pred: CmpPred, result: Seq<char>, lhs: IrValue, rhs: IrValue, c: CtxView)
    requires
        pred is Sgt || pred is Slt || pred is Sle || pred is Sge,
    ensures
        exists|op: Seq<char>|
            icmp_text(pred, result, lhs, rhs, c) == fetch_text(lhs, c, reg_t0()) + fetch_text(rhs, c, reg_t1())
                + #[trigger] op3_line(op, cmp_dest(c, result), fetch_reg(lhs, c, reg_t0()), fetch_reg(rhs, c, reg_t1()))
            && forall|a: int, b: int| set_op_value(op, a, b) == Some(pred_holds(pred, a, b)),
{
    let op = match pred {
        CmpPred::Sgt => seq!['s', 'g', 't'],
        CmpPred::Slt => seq!['s', 'l', 't'],
        CmpPred::Sle => seq!['s', 'l', 'e'],
        _ => seq!['s', 'g', 'e'],
    };
    assert(op.len() == 3 && op[0] == 's');
    assert(forall|a: int, b: int| set_op_value(op, a, b) == Some(pred_holds(pred, a, b)));
    assert(icmp_text(pred, result, lhs, rhs, c) == fetch_text(lhs, c, reg_t0()) + fetch_text(rhs, c, reg_t1())
        + op3_line(op, cmp_dest(c, result), fetch_reg(lhs, c, reg_t0()), fetch_reg(rhs, c, reg_t1())));
}

/// An equality comparison is lowered to its operands' fetches, a
/// subtraction of the right operand from the left into the result's
/// register, and a zero test of that difference whose value is the
/// predicate: for every pair of values, `seqz` of `a - b` is `a == b` and
/// `snez` of it is `a != b`.
pub proof fn lemma_equality_compare_tests_difference(pred: CmpPred, result: Seq<char>, lhs: IrValue, rhs: IrValue, c: CtxView)
    requires
        pred is Eq || pred is Ne,
    ensures
        exists|op: Seq<char>|
            icmp_text(pred, result, lhs, rhs, c) == fetch_text(lhs, c, reg_t0()) + fetch_text(rhs, c, reg_t1())
                + op3_line(seq!['s', 'u', 'b'], cmp_dest(c, result), fetch_reg(lhs, c, reg_t0()), fetch_reg(rhs, c, reg_t1()))
                + #[trigger] op2_line(op, cmp_dest(c, result), cmp_dest(c, result))
            && forall|a: int, b: int| zero_test_value(op, a - b) == Some(pred_holds(pred, a, b)),
{
    let op = if pred is Eq { seq!['s', 'e', 'q', 'z'] } else { seq!['s', 'n', 'e', 'z'] };
    if pred is Ne {
        assert(seq!['s', 'n', 'e', 'z'][1] != seq!['s', 'e', 'q', 'z'][1]);
    }
    assert(forall|a: int, b: int| zero_test_value(op, a - b) == Some(pred_holds(pred, a, b)));
    assert(icmp_text(pred, result, lhs, rhs, c) == fetch_text(lhs, c, reg_t0()) + fetch_text(rhs, c, reg_t1())
        + op3_line(seq!['s', 'u', 'b'], cmp_dest(c, result), fetch_reg(lhs, c, reg_t0()), fetch_reg(rhs, c, reg_t1()))
        + op2_line(op, cmp_dest(c, result), cmp_dest(c, result)));
}

/// The lines for `result = load ptr`.
pub open spec fn load_instr_text(result: Seq<char>, ptr: IrValue, c: CtxView) -> Seq<char> {
    let p = value_name(ptr);
    if c.globals.contains(p) {
        match place_of(c, result) {
            Some(Loc::Reg(r)) => global_load_text(r, p),
            Some(Loc::Stack(o)) => global_load_text(reg_t0(), p) + mem_line(seq!['s', 'w'], reg_t0(), o as int, reg_sp()),
            _ => Seq::empty(),
        }
    } else {
        match (place_of(c, result), place_of(c, p)) {
            (Some(Loc::Reg(to)), Some(Loc::Stack(from))) => mem_line(seq!['l', 'w'], to, from as int, reg_sp()),
            (Some(Loc::Stack(to)), Some(Loc::Stack(from))) => if to == from {
                Seq::empty()
            } else {
                mem_line(seq!['l', 'w'], reg_t0(), from as int, reg_sp()) + mem_line(seq!['s', 'w'], reg_t0(), to as int, reg_sp())
            },
            (Some(Loc::Reg(to)), Some(Loc::Reg(from))) => if to == from { Seq::empty() } else { op2_line(seq!['m', 'v'], to, from) },
            (Some(Loc::Stack(to)), Some(Loc::Reg(from))) => mem_line(seq!['s', 'w'], from, to as int, reg_sp()),
            _ => Seq::empty(),
        }
    }
}

/// The lines for `store value, ptr`.
pub open spec fn store_text(value: IrValue, ptr: IrValue, c: CtxView) -> Seq<char> {
    let p = value_name(ptr);
    let v = fetch_reg(value, c, reg_t0());
    if c.globals.contains(p) {
        fetch_text(value, c, reg_t0()) + op2_line(seq!['l', 'a'], reg_t2(), p) + mem_line(seq!['s', 'w'], v, 0, reg_t2())
    } else {
        match place_of(c, p) {
            Some(Loc::Reg(r)) => load_text(value, c, r),
            Some(Loc::Stack(o)) => fetch_text(value, c, reg_t0()) + mem_line(seq!['s', 'w'], v, o as int, reg_sp()),
            _ => Seq::empty(),
        }
    }
}

/// The lines for `result = zext value`: the value is fetched into `t0` and
/// moved or stored to the result's place.
pub open spec fn zext_text(result: Seq<char>, value: IrValue, c: CtxView) -> Seq<char> {
    let v = fetch_reg(value, c, reg_t0());
    fetch_text(value, c, reg_t0()) + match place_of(c, result) {
        Some(Loc::Reg(r)) => if v == r { Seq::empty() } else { op2_line(seq!['m', 'v'], r, v) },
        Some(Loc::Stack(o)) => mem_line(seq!['s', 'w'], v, o as int, reg_sp()),
        _ => Seq::empty(),
    }
}

/// The lines for a conditional branch: jump to `true_target` when the
/// condition is not zero, else to `false_target`.
pub open spec fn cond_br_text(cond: IrValue, true_target: Seq<char>, false_target: Seq<char>, c: CtxView) -> Seq<char> {
    fetch_text(cond, c, reg_t0()) + op3_line(seq!['b', 'n', 'e'], fetch_reg(cond, c, reg_t0()), reg_x0(), true_target)
        + op1_line(seq!['j'], false_target)
}

/// A frame size rounded up to a multiple of 16; zero stays zero.
pub open spec fn aligned_frame(size: nat) -> nat {
    if size > 0 { ((size + 15) / 16 * 16) as nat } else { 0 }
}

/// The lines for a return: the value goes to `a0`, the frame is released,
/// and the program exits.
pub open spec fn ret_text(returned: Option<IrValue>, c: CtxView) -> Seq<char> {
    let value_part = match returned {
        Some(v) => fetch_text(v, c, reg_a0()) + if fetch_reg(v, c, reg_a0()) != reg_a0() {
            op2_line(seq!['m', 'v'], reg_a0(), fetch_reg(v, c, reg_a0()))
        } else {
            Seq::empty()
        },
        None => Seq::empty(),
    };
    value_part + op3_line(seq!['a', 'd', 'd', 'i'], reg_sp(), reg_sp(), dec_digits(aligned_frame(c.stack_size as nat)))
        + exit_lines()
}

/// The lines an instruction is lowered to.
pub open spec fn instr_text(i: Instr, c: CtxView) -> Seq<char> {
    match i {
        Instr::ICmp { pred, result, lhs, rhs } => icmp_text(pred, result@, lhs, rhs, c),
        Instr::Store { value, ptr } => store_text(value, ptr, c),
        Instr::Binary { op, result, lhs, rhs } => cal_text(op, result@, lhs, rhs, c),
        Instr::Load { result, ptr } => load_instr_text(result@, ptr, c),
        Instr::Br { target } => op1_line(seq!['j'], target@),
        Instr::CondBr { cond, true_target, false_target } => cond_br_text(cond, true_target@, false_target@, c),
        Instr::ZExt { result, value } => zext_text(result@, value, c),
        Instr::Ret { returned } => ret_text(returned, c),
        _ => Seq::empty(),
    }
}

/// Emits `dest = src1 op src2`.
fn emit_binop(asm_builder: &mut AsmBuilder, op: BinOp, dest: &str, src1: &str, src2: &str)
    ensures
        final(asm_builder)@ == old(asm_builder)@ + op3_line(binop_name(op), dest@, src1@, src2@),
{
    match op {
        BinOp::Add => asm_builder.emit_add(dest, src1, src2),
        BinOp::Sub => asm_builder.emit_sub(dest, src1, src2),
        BinOp::Mul => asm_builder.emit_mul(dest, src1, src2),
        BinOp::SDiv => asm_builder.emit_div(dest, src1, src2),
        BinOp::SRem => asm_builder.emit_rem(dest, src1, src2),
    }
}

/// Lowers `result = lhs op rhs`.
#[verifier::spinoff_prover]
#[verifier::rlimit(50)]
fn lower_cal(op: BinOp, result: &String, lhs: &IrValue, rhs: &IrValue, asm_builder: &mut AsmBuilder, ctx: &GenContext)
    ensures
        final(asm_builder)@ == old(asm_builder)@ + cal_text(op, result@, *lhs, *rhs, ctx@),
{
    proof { reveal_strlit("t0"); reveal_strlit("t1"); reveal_strlit("t2"); reveal_strlit("t3"); reveal_strlit("sp"); }
    assert("t0"@ =~= reg_t0() && "t1"@ =~= reg_t1() && "t2"@ =~= reg_t2() && "t3"@ =~= reg_t3() && "sp"@ =~= reg_sp());
    let lhs_reg = get_value_from_reg(lhs, ctx, "t0", asm_builder);
    let rhs_reg = get_value_from_reg(rhs, ctx, "t1", asm_builder);
    let ghost fetched = asm_builder@;
    let ghost l = lhs_reg@;
    let ghost r = rhs_reg@;
    match ctx.get_location(result.as_str()) {
        Some(Location::Reg(reg)) => {
            emit_binop(asm_builder, op, reg.as_str(), lhs_reg.as_str(), rhs_reg.as_str());
            assert(asm_builder@ =~= fetched + op3_line(binop_name(op), reg@, l, r));
        }
        Some(Location::Stack(sp_offset)) => {
            emit_binop(asm_builder, op, "t2", lhs_reg.as_str(), rhs_reg.as_str());
            asm_builder.emit_sw("t2", *sp_offset, "sp");
            assert(asm_builder@ =~= fetched + (op3_line(binop_name(op), reg_t2(), l, r)
                + mem_line(seq!['s', 'w'], reg_t2(), *sp_offset as int, reg_sp())));
        }
        Some(Location::Global(name)) => {
            emit_binop(asm_builder, op, "t2", lhs_reg.as_str(), rhs_reg.as_str());
            asm_builder.emit_la("t3", name.as_str());
            asm_builder.emit_sw("t2", 0, "t3");
            assert(asm_builder@ =~= fetched + (op3_line(binop_name(op), reg_t2(), l, r)
                + op2_line(seq!['l', 'a'], reg_t3(), name@) + mem_line(seq!['s', 'w'], reg_t2(), 0, reg_t3())));
        }
        None => {
            assert(asm_builder@ =~= fetched + Seq::<char>::empty());
        }
    }
}

/// Lowers an arithmetic instruction; any other instruction emits nothing.
fn generate_cal_instruction(instruction: &Instr, asm_builder: &mut AsmBuilder, ctx: &GenContext)
    requires
        *instruction is Binary,
    ensures
        final(asm_builder)@ == old(asm_builder)@ + instr_text(*instruction, ctx@),
{
    if let Instr::Binary { op, result, lhs, rhs } = instruction {
        lower_cal(*op, result, lhs, rhs, asm_builder, ctx);
    }
}

/// Lowers `result = icmp pred lhs, rhs`.
#[verifier::spinoff_prover]
#[verifier::rlimit(50)]
fn lower_icmp(pred: CmpPred, result: &String, lhs: &IrValue, rhs: &IrValue, asm_builder: &mut AsmBuilder, ctx: &GenContext)
    ensures
        final(asm_builder)@ == old(asm_builder)@ + icmp_text(pred, result@, *lhs, *rhs, ctx@),
{
    proof { reveal_strlit("t0"); reveal_strlit("t1"); reveal_strlit("t2"); }
    assert("t0"@ =~= reg_t0() && "t1"@ =~= reg_t1() && "t2"@ =~= reg_t2());
    if let CmpPred::Other = pred {
        assert(asm_builder@ =~= old(asm_builder)@ + Seq::<char>::empty());
        return;
    }
    let l_reg = get_value_from_reg(lhs, ctx, "t0", asm_builder);
    let r_reg = get_value_from_reg(rhs, ctx, "t1", asm_builder);
    let ghost fetched = asm_builder@;
    let result_reg = match ctx.get_location(result.as_str()) {
        Some(Location::Reg(reg)) => reg.clone(),
        _ => String::from_str("t2"),
    };
    assert(result_reg@ == cmp_dest(ctx@, result@));
    let d = result_reg.as_str();
    match pred {
        CmpPred::Eq => {
            asm_builder.emit_sub(d, l_reg.as_str(), r_reg.as_str());
            asm_builder.emit_seqz(d, d);
        }
        CmpPred::Ne => {
            asm_builder.emit_sub(d, l_reg.as_str(), r_reg.as_str());
            asm_builder.emit_snez(d, d);
        }
        CmpPred::Sgt => {
            asm_builder.emit_sgt(d, l_reg.as_str(), r_reg.as_str());
        }
        CmpPred::Slt => {
            asm_builder.emit_slt(d, l_reg.as_str(), r_reg.as_str());
        }
        CmpPred::Sle => {
            asm_builder.emit_sle(d, l_reg.as_str(), r_reg.as_str());
        }
        CmpPred::Sge => {
            asm_builder.emit_sge(d, l_reg.as_str(), r_reg.as_str());
        }
        CmpPred::Other => {}
    }
    assert(asm_builder@ =~= old(asm_builder)@ + icmp_text(pred, result@, *lhs, *rhs, ctx@));
}

/// Lowers an integer comparison. Equality tests subtract into the result
/// register and then set it from the difference; the other predicates use
/// one set instruction.
fn generate_icmp_instruction(instruction: &Instr, asm_builder: &mut AsmBuilder, ctx: &GenContext)
    requires
        *instruction is ICmp,
    ensures
        final(asm_builder)@ == old(asm_builder)@ + instr_text(*instruction, ctx@),
{
    if let Instr::ICmp { pred, result, lhs, rhs } = instruction {
        lower_icmp(*pred, result, lhs, rhs, asm_builder, ctx);
    }
}

/// Lowers `result = load ptr`.
#[verifier::spinoff_prover]
#[verifier::rlimit(50)]
fn lower_load(result: &String, ptr: &IrValue, asm_builder: &mut AsmBuilder, ctx: &GenContext)
    ensures
        final(asm_builder)@ == old(asm_builder)@ + load_instr_text(result@, *ptr, ctx@),
{
    proof { reveal_strlit("t0"); reveal_strlit("sp"); }
    assert("t0"@ =~= reg_t0() && "sp"@ =~= reg_sp());
    let ptr_name = get_value_from_basic(ptr);
    if ctx.is_global(ptr_name.as_str()) {
        match ctx.get_location(result.as_str()) {
            Some(Location::Reg(reg)) => {
                asm_builder.emit_la(reg.as_str(), ptr_name.as_str());
                asm_builder.emit_lw(reg.as_str(), 0, reg.as_str());
                assert(asm_builder@ =~= old(asm_builder)@ + global_load_text(reg@, ptr_name@));
            }
            Some(Location::Stack(offset)) => {
                asm_builder.emit_la("t0", ptr_name.as_str());
                asm_builder.emit_lw("t0", 0, "t0");
                asm_builder.emit_sw("t0", *offset, "sp");
                assert(asm_builder@ =~= old(asm_builder)@ + (global_load_text(reg_t0(), ptr_name@)
                    + mem_line(seq!['s', 'w'], reg_t0(), *offset as int, reg_sp())));
            }
            _ => {
                assert(asm_builder@ =~= old(asm_builder)@ + Seq::<char>::empty());
            }
        }
    } else {
        let result_loc = ctx.get_location(result.as_str());
        let ptr_loc = ctx.get_location(ptr_name.as_str());
        match (result_loc, ptr_loc) {
            (Some(Location::Reg(to_reg)), Some(Location::Stack(from_offset))) => {
                asm_builder.emit_lw(to_reg.as_str(), *from_offset, "sp");
            }
            (Some(Location::Stack(to_offset)), Some(Location::Stack(from_offset))) => {
                if *to_offset == *from_offset {
                    assert(asm_builder@ =~= old(asm_builder)@ + Seq::<char>::empty());
                    return;
                }
                asm_builder.emit_lw("t0", *from_offset, "sp");
                asm_builder.emit_sw("t0", *to_offset, "sp");
                assert(asm_builder@ =~= old(asm_builder)@ + (mem_line(seq!['l', 'w'], reg_t0(), *from_offset as int, reg_sp())
                    + mem_line(seq!['s', 'w'], reg_t0(), *to_offset as int, reg_sp())));
            }
            (Some(Location::Reg(to_reg)), Some(Location::Reg(from_reg))) => {
                if str_eq(to_reg.as_str(), from_reg.as_str()) {
                    assert(asm_builder@ =~= old(asm_builder)@ + Seq::<char>::empty());
                    return;
                }
                asm_builder.emit_mv(to_reg.as_str(), from_reg.as_str());
            }
            (Some(Location::Stack(to_offset)), Some(Location::Reg(from_reg))) => {
                asm_builder.emit_sw(from_reg.as_str(), *to_offset, "sp");
            }
            _ => {
                assert(asm_builder@ =~= old(asm_builder)@ + Seq::<char>::empty());
            }
        }
    }
}

/// Lowers a load: from a global through its address, else a move between
/// the pointer's place and the result's place.
fn generate_load_instruction(instruction: &Instr, asm_builder: &mut AsmBuilder, ctx: &GenContext)
    requires
        *instruction is Load,
    ensures
        final(asm_builder)@ == old(asm_builder)@ + instr_text(*instruction, ctx@),
{
    if let Instr::Load { result, ptr } = instruction {
        lower_load(result, ptr, asm_builder, ctx);
    }
}

/// Lowers `store value, ptr`.
#[verifier::spinoff_prover]
#[verifier::rlimit(50)]
fn lower_store(value: &IrValue, ptr: &IrValue, asm_builder: &mut AsmBuilder, ctx: &GenContext)
    ensures
        final(asm_builder)@ == old(asm_builder)@ + store_text(*value, *ptr, ctx@),
{
    proof { reveal_strlit("t0"); reveal_strlit("t2"); reveal_strlit("sp"); }
    assert("t0"@ =~= reg_t0() && "t2"@ =~= reg_t2() && "sp"@ =~= reg_sp());
    let ptr_name = get_value_from_basic(ptr);
    if ctx.is_global(ptr_name.as_str()) {
        let v = get_value_from_reg(value, ctx, "t0", asm_builder);
        let ghost fetched = asm_builder@;
        asm_builder.emit_la("t2", ptr_name.as_str());
        asm_builder.emit_sw(v.as_str(), 0, "t2");
        assert(asm_builder@ =~= fetched + op2_line(seq!['l', 'a'], reg_t2(), ptr_name@) + mem_line(seq!['s', 'w'], v@, 0, reg_t2()));
        return;
    }
    match ctx.get_location(ptr_name.as_str()) {
        Some(Location::Reg(reg)) => {
            load_value_to_reg(value, ctx, reg.as_str(), asm_builder);
        }
        Some(Location::Stack(sp_offset)) => {
            let v = get_value_from_reg(value, ctx, "t0", asm_builder);
            asm_builder.emit_sw(v.as_str(), *sp_offset, "sp");
        }
        _ => {
            assert(asm_builder@ =~= old(asm_builder)@ + Seq::<char>::empty());
        }
    }
}

/// Lowers a store: to a global through its address in `t2`; to a value in a
/// register by loading it there; to a stack slot with `sw`.
fn generate_store_instruction(instruction: &Instr, asm_builder: &mut AsmBuilder, ctx: &GenContext)
    requires
        *instruction is Store,
    ensures
        final(asm_builder)@ == old(asm_builder)@ + instr_text(*instruction, ctx@),
{
    if let Instr::Store { value, ptr } = instruction {
        lower_store(value, ptr, asm_builder, ctx);
    }
}

/// Lowers `result = zext value`.
#[verifier::spinoff_prover]
#[verifier::rlimit(50)]
fn lower_zext(result: &String, value: &IrValue, asm_builder: &mut AsmBuilder, ctx: &GenContext)
    ensures
        final(asm_builder)@ == old(asm_builder)@ + zext_text(result@, *value, ctx@),
{
    proof { reveal_strlit("t0"); reveal_strlit("sp"); }
    assert("t0"@ =~= reg_t0() && "sp"@ =~= reg_sp());
    let value_reg = get_value_from_reg(value, ctx, "t0", asm_builder);
    let ghost fetched = asm_builder@;
    match ctx.get_location(result.as_str()) {
        Some(Location::Reg(reg)) => {
            if str_eq(value_reg.as_str(), reg.as_str()) {
                assert(asm_builder@ =~= fetched + Seq::<char>::empty());
                return;
            }
            asm_builder.emit_mv(reg.as_str(), value_reg.as_str());
        }
        Some(Location::Stack(offset)) => {
            asm_builder.emit_sw(value_reg.as_str(), *offset, "sp");
        }
        _ => {
            assert(asm_builder@ =~= fetched + Seq::<char>::empty());
        }
    }
}

/// Lowers a zero extension: registers hold full words already, so the value
/// is only moved or stored to the result's place.
fn generate_zext_instruction(instruction: &Instr, asm_builder: &mut AsmBuilder, ctx: &GenContext)
    requires
        *instruction is ZExt,
    ensures
        final(asm_builder)@ == old(asm_builder)@ + instr_text(*instruction, ctx@),
{
    if let Instr::ZExt { result, value } = instruction {
        lower_zext(result, value, asm_builder, ctx);
    }
}

/// Lowers a jump or a conditional branch; a conditional branch tests its
/// condition against `x0` and falls back to a jump to the false target.
#[verifier::spinoff_prover]
#[verifier::rlimit(50)]
fn generate_br_instruction(instruction: &Instr, asm_builder: &mut AsmBuilder, ctx: &GenContext)
    requires
        *instruction is Br || *instruction is CondBr,
    ensures
        final(asm_builder)@ == old(asm_builder)@ + instr_text(*instruction, ctx@),
{
    proof { reveal_strlit("t0"); reveal_strlit("x0"); }
    assert("t0"@ =~= reg_t0() && "x0"@ =~= reg_x0());
    match instruction {
        Instr::Br { target } => {
            asm_builder.emit_j(target.as_str());
        }
        Instr::CondBr { cond, true_target, false_target } => {
            let cond_reg = get_value_from_reg(cond, ctx, "t0", asm_builder);
            asm_builder.emit_bne(cond_reg.as_str(), "x0", true_target.as_str());
            asm_builder.emit_j(false_target.as_str());
            assert(asm_builder@ =~= old(asm_builder)@ + cond_br_text(*cond, true_target@, false_target@, ctx@));
        }
        _ => {}
    }
}

/// Rounds a frame size up to a multiple of 16; zero stays zero.
pub fn align_frame(size: usize) -> (r: usize)
    requires
        size + 15 <= usize::MAX,
    ensures
        r == aligned_frame(size as nat),
{
    if size > 0 { (size + 15) / 16 * 16 } else { 0 }
}

/// Lowers a return: the value goes to `a0`, the frame is released and the
/// program exits through the exit system call.
#[verifier::spinoff_prover]
#[verifier::rlimit(50)]
fn generate_return_instruction(instruction: &Instr, asm_builder: &mut AsmBuilder, ctx: &GenContext)
    requires
        *instruction is Ret,
        ctx@.stack_size + 15 <= usize::MAX,
    ensures
        final(asm_builder)@ == old(asm_builder)@ + instr_text(*instruction, ctx@),
{
    proof { reveal_strlit("a0"); }
    assert("a0"@ =~= reg_a0());
    if let Instr::Ret { returned } = instruction {
        if let Some(return_value) = returned {
            let return_reg = get_value_from_reg(return_value, ctx, "a0", asm_builder);
            if !str_eq(return_reg.as_str(), "a0") {
                asm_builder.emit_mv("a0", return_reg.as_str());
            }
        }
        let ghost value_part = asm_builder@;
        let stack_size = ctx.get_stack_size();
        let aligned_stack_size = align_frame(stack_size);
        asm_builder.emit_function_epilogue(aligned_stack_size);
        asm_builder.emit_exit_syscall();
        assert(asm_builder@ =~= old(asm_builder)@ + instr_text(*instruction, ctx@));
    }
}

/// Lowers one instruction; instructions other than comparisons, stores,
/// arithmetic, loads, branches, zero extensions and returns emit nothing.
pub fn generate_instruction(instruction: &Instr, asm_builder: &mut AsmBuilder, ctx: &GenContext)
    requires
        ctx@.stack_size + 15 <= usize::MAX,
    ensures
        final(asm_builder)@ == old(asm_builder)@ + instr_text(*instruction, ctx@),
{
    match instruction {
        Instr::ICmp { .. } => generate_icmp_instruction(instruction, asm_builder, ctx),
        Instr::Store { .. } => generate_store_instruction(instruction, asm_builder, ctx),
        Instr::Binary { .. } => generate_cal_instruction(instruction, asm_builder, ctx),
        Instr::Load { .. } => generate_load_instruction(instruction, asm_builder, ctx),
        Instr::Br { .. } => generate_br_instruction(instruction, asm_builder, ctx),
        Instr::CondBr { .. } => generate_br_instruction(instruction, asm_builder, ctx),
        Instr::ZExt { .. } => generate_zext_instruction(instruction, asm_builder, ctx),
        Instr::Ret { .. } => generate_return_instruction(instruction, asm_builder, ctx),
        _ => {
            assert(asm_builder@ =~= old(asm_builder)@ + instr_text(*instruction, ctx@));
        }
    }
}


// ---------------------------------------------------------------------------
// Laws of operand lowering and frames.
// ---------------------------------------------------------------------------

/// Loading a value into a given register emits what making it available
/// emits, followed by a move into that register when it is available
/// elsewhere; this holds for constants and for every value that has a place,
/// whatever register other than `x0` is asked for.
pub proof fn lemma_load_is_fetch_then_move(v: IrValue, c: CtxView, reg: Seq<char>)
    requires
        reg != reg_x0(),
        v is Named ==> c.locations.contains_key(value_name(v)),
    ensures
        load_text(v, c, reg) == fetch_text(v, c, reg) + if fetch_reg(v, c, reg) != reg {
            op2_line(seq!['m', 'v'], reg, fetch_reg(v, c, reg))
        } else {
            Seq::<char>::empty()
        },
{
    match v {
        IrValue::Const(k) => {
            if k == 0 {
                assert(load_text(v, c, reg) =~= Seq::<char>::empty() + op2_line(seq!['m', 'v'], reg, reg_x0()));
            } else {
                assert(load_text(v, c, reg) =~= fetch_text(v, c, reg) + Seq::<char>::empty());
            }
        }
        IrValue::Named(n) => {
            match c.locations[n@] {
                Loc::Reg(r) => {
                    if r != reg {
                        assert(load_text(v, c, reg) =~= Seq::<char>::empty() + op2_line(seq!['m', 'v'], reg, r));
                    } else {
                        assert(load_text(v, c, reg) =~= Seq::<char>::empty() + Seq::<char>::empty());
                    }
                }
                _ => {
                    assert(load_text(v, c, reg) =~= fetch_text(v, c, reg) + Seq::<char>::empty());
                }
            }
        }
    }
}

/// Making a value available emits nothing when it is left outside the
/// requested register (zero, or a value in a register of its own); whenever
/// something is emitted, the value ends up in the requested register.
pub proof fn lemma_fetch_emits_only_into_reg(v: IrValue, c: CtxView, reg: Seq<char>)
    ensures
        fetch_reg(v, c, reg) != reg ==> fetch_text(v, c, reg) == Seq::<char>::empty(),
        fetch_text(v, c, reg).len() > 0 ==> fetch_reg(v, c, reg) == reg,
{
}

/// The frame reserved and released is the frame asked for rounded up to a
/// multiple of 16: never smaller, and less than 16 bytes larger.
pub proof fn lemma_aligned_frame(size: nat)
    ensures
        aligned_frame(size) % 16 == 0,
        size <= aligned_frame(size),
        aligned_frame(size) < size + 16,
{
    if size > 0 {
        assert((size + 15) / 16 * 16 <= size + 15) by (nonlinear_arith);
        assert((size + 15) / 16 * 16 > size - 1) by (nonlinear_arith);
        assert(((size + 15) / 16 * 16) % 16 == 0) by (nonlinear_arith);
    }
}

} // verus!

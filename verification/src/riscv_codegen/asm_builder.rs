//! A text buffer that accumulates RISC-V assembly, one line per call.
use vstd::prelude::*;
use crate::text::{int_text, dec_digits, i64_text, push_nat};

verus! {

/// Two spaces of indentation, as every instruction line starts with.
pub open spec fn indent() -> Seq<char> {
    seq![' ', ' ']
}

/// A line with an operation and no operand: `  op`.
pub open spec fn op0_line(op: Seq<char>) -> Seq<char> {
    indent() + op + seq!['\n']
}

/// A line with an operation and one operand: `  op a`.
pub open spec fn op1_line(op: Seq<char>, a: Seq<char>) -> Seq<char> {
    indent() + op + seq![' '] + a + seq!['\n']
}

/// A line with an operation and two operands: `  op a, b`.
pub open spec fn op2_line(op: Seq<char>, a: Seq<char>, b: Seq<char>) -> Seq<char> {
    indent() + op + seq![' '] + a + seq![',', ' '] + b + seq!['\n']
}

/// A line with an operation and three operands: `  op a, b, c`.
pub open spec fn op3_line(op: Seq<char>, a: Seq<char>, b: Seq<char>, c: Seq<char>) -> Seq<char> {
    indent() + op + seq![' '] + a + seq![',', ' '] + b + seq![',', ' '] + c + seq!['\n']
}

/// A memory access line: `  op reg, offset(base)`.
pub open spec fn mem_line(op: Seq<char>, reg: Seq<char>, offset: int, base: Seq<char>) -> Seq<char> {
    op2_line(op, reg, int_text(offset) + seq!['('] + base + seq![')'])
}

/// A label line: `label:`.
pub open spec fn label_line(label: Seq<char>) -> Seq<char> {
    label + seq![':', '\n']
}

/// The two lines that end the program through the exit system call.
pub open spec fn exit_lines() -> Seq<char> {
    op2_line(seq!['l', 'i'], seq!['a', '7'], seq!['9', '3']) + op0_line(seq!['e', 'c', 'a', 'l', 'l'])
}

pub(crate) fn push_op0(buf: &mut String, op: &str)
    ensures
        final(buf)@ == old(buf)@ + op0_line(op@),
{
    proof { reveal_strlit("  "); reveal_strlit("\n"); }
    buf.append("  ");
    buf.append(op);
    buf.append("\n");
    assert(final(buf)@ =~= old(buf)@ + op0_line(op@));
}

pub(crate) fn push_op1(buf: &mut String, op: &str, a: &str)
    ensures
        final(buf)@ == old(buf)@ + op1_line(op@, a@),
{
    proof { reveal_strlit("  "); reveal_strlit(" "); reveal_strlit("\n"); }
    buf.append("  ");
    buf.append(op);
    buf.append(" ");
    buf.append(a);
    buf.append("\n");
    assert(final(buf)@ =~= old(buf)@ + op1_line(op@, a@));
}

pub(crate) fn push_op2(buf: &mut String, op: &str, a: &str, b: &str)
    ensures
        final(buf)@ == old(buf)@ + op2_line(op@, a@, b@),
{
    proof { reveal_strlit("  "); reveal_strlit(" "); reveal_strlit(", "); reveal_strlit("\n"); }
    buf.append("  ");
    buf.append(op);
    buf.append(" ");
    buf.append(a);
    buf.append(", ");
    buf.append(b);
    buf.append("\n");
    assert(final(buf)@ =~= old(buf)@ + op2_line(op@, a@, b@));
}

pub(crate) fn push_op3(buf: &mut String, op: &str, a: &str, b: &str, c: &str)
    ensures
        final(buf)@ == old(buf)@ + op3_line(op@, a@, b@, c@),
{
    proof { reveal_strlit("  "); reveal_strlit(" "); reveal_strlit(", "); reveal_strlit("\n"); }
    buf.append("  ");
    buf.append(op);
    buf.append(" ");
    buf.append(a);
    buf.append(", ");
    buf.append(b);
    buf.append(", ");
    buf.append(c);
    buf.append("\n");
    assert(final(buf)@ =~= old(buf)@ + op3_line(op@, a@, b@, c@));
}

pub(crate) fn push_mem(buf: &mut String, op: &str, reg: &str, offset: i32, base: &str)
    ensures
        final(buf)@ == old(buf)@ + mem_line(op@, reg@, offset as int, base@),
{
    proof { reveal_strlit("("); reveal_strlit(")"); }
    let mut addr = i64_text(offset as i64);
    addr.append("(");
    addr.append(base);
    addr.append(")");
    assert(addr@ =~= int_text(offset as int) + seq!['('] + base@ + seq![')']);
    push_op2(buf, op, reg, addr.as_str());
}

/// Accumulates RISC-V assembly text.
pub struct AsmBuilder {
    buf: String,
}

impl View for AsmBuilder {
    type V = Seq<char>;

    open spec fn view(&self) -> Seq<char> {
        self.text()
    }
}

impl AsmBuilder {
    /// The text accumulated so far.
    pub closed spec fn text(&self) -> Seq<char> {
        self.buf@
    }

    /// An empty builder.
    pub fn new() -> (r: Self)
        ensures
            r@ == Seq::<char>::empty(),
    {
        Self { buf: String::new() }
    }

    /// Opens the data section: `  .data`.
    pub fn emit_data_section(&mut self)
        ensures
            final(self)@ == old(self)@ + op0_line(seq!['.', 'd', 'a', 't', 'a']),
    {
        proof { reveal_strlit(".data"); }
        push_op0(&mut self.buf, ".data");
    }

    /// Opens the text section: `  .text`.
    pub fn emit_text_section(&mut self)
        ensures
            final(self)@ == old(self)@ + op0_line(seq!['.', 't', 'e', 'x', 't']),
    {
        proof { reveal_strlit(".text"); }
        push_op0(&mut self.buf, ".text");
    }

    /// Declares a global symbol: `  .globl  symbol` (two spaces before the symbol).
    pub fn emit_global_symbol(&mut self, symbol: &str)
        ensures
            final(self)@ == old(self)@ + op1_line(seq!['.', 'g', 'l', 'o', 'b', 'l', ' '], symbol@),
    {
        proof { reveal_strlit(".globl "); }
        push_op1(&mut self.buf, ".globl ", symbol);
    }

    /// A label line: `label:`.
    pub fn emit_label(&mut self, label: &str)
        ensures
            final(self)@ == old(self)@ + label_line(label@),
    {
        proof { reveal_strlit(":\n"); }
        self.buf.append(label);
        self.buf.append(":\n");
        assert(self.buf@ =~= old(self)@ + label_line(label@));
    }

    /// A data word: `  .word value`.
    pub fn emit_word(&mut self, value: i32)
        ensures
            final(self)@ == old(self)@ + op1_line(seq!['.', 'w', 'o', 'r', 'd'], int_text(value as int)),
    {
        proof { reveal_strlit(".word"); }
        let v = i64_text(value as i64);
        push_op1(&mut self.buf, ".word", v.as_str());
    }

    /// Reserves the frame: `  addi sp, sp, -stack_size`.
    pub fn emit_function_prologue(&mut self, stack_size: usize)
        ensures
            final(self)@ == old(self)@ + op3_line(seq!['a', 'd', 'd', 'i'], seq!['s', 'p'], seq!['s', 'p'],
                seq!['-'] + dec_digits(stack_size as nat)),
    {
        proof { reveal_strlit("addi"); reveal_strlit("sp"); reveal_strlit("-"); }
        let mut imm = String::from_str("-");
        push_nat(&mut imm, stack_size as u64);
        push_op3(&mut self.buf, "addi", "sp", "sp", imm.as_str());
    }

    /// Releases the frame: `  addi sp, sp, stack_size`.
    pub fn emit_function_epilogue(&mut self, stack_size: usize)
        ensures
            final(self)@ == old(self)@ + op3_line(seq!['a', 'd', 'd', 'i'], seq!['s', 'p'], seq!['s', 'p'],
                dec_digits(stack_size as nat)),
    {
        proof { reveal_strlit("addi"); reveal_strlit("sp"); }
        let mut imm = String::new();
        push_nat(&mut imm, stack_size as u64);
        assert(imm@ =~= dec_digits(stack_size as nat));
        push_op3(&mut self.buf, "addi", "sp", "sp", imm.as_str());
    }

    /// Ends the program: `  li a7, 93` then `  ecall`.
    pub fn emit_exit_syscall(&mut self)
        ensures
            final(self)@ == old(self)@ + exit_lines(),
    {
        proof { reveal_strlit("li"); reveal_strlit("a7"); reveal_strlit("93"); reveal_strlit("ecall"); }
        push_op2(&mut self.buf, "li", "a7", "93");
        push_op0(&mut self.buf, "ecall");
        assert(self.buf@ =~= old(self)@ + exit_lines());
    }

    /// Loads an immediate: `  li reg, value`.
    pub fn emit_li(&mut self, reg: &str, value: i32)
        ensures
            final(self)@ == old(self)@ + op2_line(seq!['l', 'i'], reg@, int_text(value as int)),
    {
        proof { reveal_strlit("li"); }
        let v = i64_text(value as i64);
        push_op2(&mut self.buf, "li", reg, v.as_str());
    }

    /// Loads an address: `  la reg, label`.
    pub fn emit_la(&mut self, reg: &str, label: &str)
        ensures
            final(self)@ == old(self)@ + op2_line(seq!['l', 'a'], reg@, label@),
    {
        proof { reveal_strlit("la"); }
        push_op2(&mut self.buf, "la", reg, label);
    }

    /// `  add dest, src1, src2`.
    pub fn emit_add(&mut self, dest: &str, src1: &str, src2: &str)
        ensures
            final(self)@ == old(self)@ + op3_line(seq!['a', 'd', 'd'], dest@, src1@, src2@),
    {
        proof { reveal_strlit("add"); }
        push_op3(&mut self.buf, "add", dest, src1, src2);
    }

    /// `  sub dest, src1, src2`.
    pub fn emit_sub(&mut self, dest: &str, src1: &str, src2: &str)
        ensures
            final(self)@ == old(self)@ + op3_line(seq!['s', 'u', 'b'], dest@, src1@, src2@),
    {
        proof { reveal_strlit("sub"); }
        push_op3(&mut self.buf, "sub", dest, src1, src2);
    }

    /// `  mul dest, src1, src2`.
    pub fn emit_mul(&mut self, dest: &str, src1: &str, src2: &str)
        ensures
            final(self)@ == old(self)@ + op3_line(seq!['m', 'u', 'l'], dest@, src1@, src2@),
    {
        proof { reveal_strlit("mul"); }
        push_op3(&mut self.buf, "mul", dest, src1, src2);
    }

    /// `  div dest, src1, src2`.
    pub fn emit_div(&mut self, dest: &str, src1: &str, src2: &str)
        ensures
            final(self)@ == old(self)@ + op3_line(seq!['d', 'i', 'v'], dest@, src1@, src2@),
    {
        proof { reveal_strlit("div"); }
        push_op3(&mut self.buf, "div", dest, src1, src2);
    }

    /// `  rem dest, src1, src2`.
    pub fn emit_rem(&mut self, dest: &str, src1: &str, src2: &str)
        ensures
            final(self)@ == old(self)@ + op3_line(seq!['r', 'e', 'm'], dest@, src1@, src2@),
    {
        proof { reveal_strlit("rem"); }
        push_op3(&mut self.buf, "rem", dest, src1, src2);
    }

    /// `  addi dest, src, imm`.
    pub fn emit_addi(&mut self, dest: &str, src: &str, imm: i32)
        ensures
            final(self)@ == old(self)@ + op3_line(seq!['a', 'd', 'd', 'i'], dest@, src@, int_text(imm as int)),
    {
        proof { reveal_strlit("addi"); }
        let v = i64_text(imm as i64);
        push_op3(&mut self.buf, "addi", dest, src, v.as_str());
    }

    /// `  subi dest, src, imm`.
    pub fn emit_subi(&mut self, dest: &str, src: &str, imm: i32)
        ensures
            final(self)@ == old(self)@ + op3_line(seq!['s', 'u', 'b', 'i'], dest@, src@, int_text(imm as int)),
    {
        proof { reveal_strlit("subi"); }
        let v = i64_text(imm as i64);
        push_op3(&mut self.buf, "subi", dest, src, v.as_str());
    }

    /// Loads a word: `  lw dest, offset(base)`.
    pub fn emit_lw(&mut self, dest: &str, offset: i32, base: &str)
        ensures
            final(self)@ == old(self)@ + mem_line(seq!['l', 'w'], dest@, offset as int, base@),
    {
        proof { reveal_strlit("lw"); }
        push_mem(&mut self.buf, "lw", dest, offset, base);
    }

    /// Stores a word: `  sw src, offset(base)`.
    pub fn emit_sw(&mut self, src: &str, offset: i32, base: &str)
        ensures
            final(self)@ == old(self)@ + mem_line(seq!['s', 'w'], src@, offset as int, base@),
    {
        proof { reveal_strlit("sw"); }
        push_mem(&mut self.buf, "sw", src, offset, base);
    }

    /// `  beq src1, src2, label`.
    pub fn emit_beq(&mut self, src1: &str, src2: &str, label: &str)
        ensures
            final(self)@ == old(self)@ + op3_line(seq!['b', 'e', 'q'], src1@, src2@, label@),
    {
        proof { reveal_strlit("beq"); }
        push_op3(&mut self.buf, "beq", src1, src2, label);
    }

    /// `  bne src1, src2, label`.
    pub fn emit_bne(&mut self, src1: &str, src2: &str, label: &str)
        ensures
            final(self)@ == old(self)@ + op3_line(seq!['b', 'n', 'e'], src1@, src2@, label@),
    {
        proof { reveal_strlit("bne"); }
        push_op3(&mut self.buf, "bne", src1, src2, label);
    }

    /// `  blt src1, src2, label`.
    pub fn emit_blt(&mut self, src1: &str, src2: &str, label: &str)
        ensures
            final(self)@ == old(self)@ + op3_line(seq!['b', 'l', 't'], src1@, src2@, label@),
    {
        proof { reveal_strlit("blt"); }
        push_op3(&mut self.buf, "blt", src1, src2, label);
    }

    /// `  bgt src1, src2, label`.
    pub fn emit_bgt(&mut self, src1: &str, src2: &str, label: &str)
        ensures
            final(self)@ == old(self)@ + op3_line(seq!['b', 'g', 't'], src1@, src2@, label@),
    {
        proof { reveal_strlit("bgt"); }
        push_op3(&mut self.buf, "bgt", src1, src2, label);
    }

    /// `  ble src1, src2, label`.
    pub fn emit_ble(&mut self, src1: &str, src2: &str, label: &str)
        ensures
            final(self)@ == old(self)@ + op3_line(seq!['b', 'l', 'e'], src1@, src2@, label@),
    {
        proof { reveal_strlit("ble"); }
        push_op3(&mut self.buf, "ble", src1, src2, label);
    }

    /// `  bge src1, src2, label`.
    pub fn emit_bge(&mut self, src1: &str, src2: &str, label: &str)
        ensures
            final(self)@ == old(self)@ + op3_line(seq!['b', 'g', 'e'], src1@, src2@, label@),
    {
        proof { reveal_strlit("bge"); }
        push_op3(&mut self.buf, "bge", src1, src2, label);
    }

    /// `  sgt src1, src2, src3`.
    pub fn emit_sgt(&mut self, src1: &str, src2: &str, src3: &str)
        ensures
            final(self)@ == old(self)@ + op3_line(seq!['s', 'g', 't'], src1@, src2@, src3@),
    {
        proof { reveal_strlit("sgt"); }
        push_op3(&mut self.buf, "sgt", src1, src2, src3);
    }

    /// `  seqz src1, src2`.
    pub fn emit_seqz(&mut self, src1: &str, src2: &str)
        ensures
            final(self)@ == old(self)@ + op2_line(seq!['s', 'e', 'q', 'z'], src1@, src2@),
    {
        proof { reveal_strlit("seqz"); }
        push_op2(&mut self.buf, "seqz", src1, src2);
    }

    /// `  snez src1, src2`.
    pub fn emit_snez(&mut self, src1: &str, src2: &str)
        ensures
            final(self)@ == old(self)@ + op2_line(seq!['s', 'n', 'e', 'z'], src1@, src2@),
    {
        proof { reveal_strlit("snez"); }
        push_op2(&mut self.buf, "snez", src1, src2);
    }

    /// `  slt src1, src2, src3`.
    pub fn emit_slt(&mut self, src1: &str, src2: &str, src3: &str)
        ensures
            final(self)@ == old(self)@ + op3_line(seq!['s', 'l', 't'], src1@, src2@, src3@),
    {
        proof { reveal_strlit("slt"); }
        push_op3(&mut self.buf, "slt", src1, src2, src3);
    }

    /// `  sle src1, src2, src3`.
    pub fn emit_sle(&mut self, src1: &str, src2: &str, src3: &str)
        ensures
            final(self)@ == old(self)@ + op3_line(seq!['s', 'l', 'e'], src1@, src2@, src3@),
    {
        proof { reveal_strlit("sle"); }
        push_op3(&mut self.buf, "sle", src1, src2, src3);
    }

    /// `  sge src1, src2, src3`.
    pub fn emit_sge(&mut self, src1: &str, src2: &str, src3: &str)
        ensures
            final(self)@ == old(self)@ + op3_line(seq!['s', 'g', 'e'], src1@, src2@, src3@),
    {
        proof { reveal_strlit("sge"); }
        push_op3(&mut self.buf, "sge", src1, src2, src3);
    }

    /// Unconditional jump: `  j label`.
    pub fn emit_j(&mut self, label: &str)
        ensures
            final(self)@ == old(self)@ + op1_line(seq!['j'], label@),
    {
        proof { reveal_strlit("j"); }
        push_op1(&mut self.buf, "j", label);
    }

    /// Jump and link: `  jal label`.
    pub fn emit_jal(&mut self, label: &str)
        ensures
            final(self)@ == old(self)@ + op1_line(seq!['j', 'a', 'l'], label@),
    {
        proof { reveal_strlit("jal"); }
        push_op1(&mut self.buf, "jal", label);
    }

    /// Jump to a register: `  jr reg`.
    pub fn emit_jr(&mut self, reg: &str)
        ensures
            final(self)@ == old(self)@ + op1_line(seq!['j', 'r'], reg@),
    {
        proof { reveal_strlit("jr"); }
        push_op1(&mut self.buf, "jr", reg);
    }

    /// Register move: `  mv dest, src`.
    pub fn emit_mv(&mut self, dest: &str, src: &str)
        ensures
            final(self)@ == old(self)@ + op2_line(seq!['m', 'v'], dest@, src@),
    {
        proof { reveal_strlit("mv"); }
        push_op2(&mut self.buf, "mv", dest, src);
    }

    /// `  ecall`.
    pub fn emit_ecall(&mut self)
        ensures
            final(self)@ == old(self)@ + op0_line(seq!['e', 'c', 'a', 'l', 'l']),
    {
        proof { reveal_strlit("ecall"); }
        push_op0(&mut self.buf, "ecall");
    }

    /// `  syscall`.
    pub fn emit_syscall(&mut self)
        ensures
            final(self)@ == old(self)@ + op0_line(seq!['s', 'y', 's', 'c', 'a', 'l', 'l']),
    {
        proof { reveal_strlit("syscall"); }
        push_op0(&mut self.buf, "syscall");
    }

    /// The text accumulated so far.
    pub fn emit(&self) -> (r: String)
        ensures
            r@ == self@,
    {
        self.buf.clone()
    }

    /// An empty line.
    pub fn emit_empty_line(&mut self)
        ensures
            final(self)@ == old(self)@ + seq!['\n'],
    {
        proof { reveal_strlit("\n"); }
        self.buf.append("\n");
    }
}

} // verus!

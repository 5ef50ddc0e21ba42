//! A minimal text builder for three-operand RISC-V instructions.
use vstd::prelude::*;
use crate::riscv_codegen::asm_builder::{op3_line, push_op3};
use crate::text::{int_text, i64_text};

verus! {

/// Accumulates instruction lines.
pub struct AsmBuilder {
    buf: String,
}

impl View for AsmBuilder {
    type V = Seq<char>;

    closed spec fn view(&self) -> Seq<char> {
        self.buf@
    }
}

impl AsmBuilder {
    /// An empty builder.
    pub fn new() -> (r: Self)
        ensures
            r@ == Seq::<char>::empty(),
    {
        Self { buf: String::new() }
    }

    /// Appends `  op dest, lhs, rhs`.
    pub fn op2(&mut self, op: &str, dest: &str, lhs: &str, rhs: &str)
        ensures
            final(self)@ == old(self)@ + op3_line(op@, dest@, lhs@, rhs@),
    {
        push_op3(&mut self.buf, op, dest, lhs, rhs);
    }

    /// Appends `  addi dest, src, imm`.
    pub fn addi(&mut self, dest: &str, src: &str, imm: i32)
        ensures
            final(self)@ == old(self)@ + op3_line(seq!['a', 'd', 'd', 'i'], dest@, src@, int_text(imm as int)),
    {
        proof { reveal_strlit("addi"); }
        let v = i64_text(imm as i64);
        push_op3(&mut self.buf, "addi", dest, src, v.as_str());
    }

    /// The text accumulated so far.
    pub fn emit(&self) -> (r: &str)
        ensures
            r@ == self@,
    {
        self.buf.as_str()
    }
}

} // verus!

use sysy_compiler::register_strategy::strategy::{LinearScan, Location, NoAlloc, RegisterAllocator, VarId};
use sysy_compiler::riscv_codegen::asm_builder::AsmBuilder;
use sysy_compiler::simple_asm::AsmBuilder as SimpleAsmBuilder;

#[test]
fn simple_builder_writes_three_operand_lines() {
    let mut b = SimpleAsmBuilder::new();
    b.op2("add", "t0", "t1", "t2");
    b.addi("sp", "sp", -16);
    assert_eq!(b.emit(), "  add t0, t1, t2\n  addi sp, sp, -16\n");
}

#[test]
fn no_alloc_puts_everything_at_offset_zero() {
    let mut a = NoAlloc;
    assert!(matches!(a.allocate(VarId(7)), Location::Stack(0)));
    assert_eq!(a.stack_size(), 0);
    let _unused = LinearScan {};
}

#[test]
fn assembly_lines() {
    let mut b = AsmBuilder::new();
    b.emit_text_section();
    b.emit_global_symbol("main");
    b.emit_label("main");
    b.emit_function_prologue(32);
    b.emit_li("t0", -5);
    b.emit_lw("t1", -4, "sp");
    b.emit_sw("t1", 8, "sp");
    b.emit_beq("t0", "t1", "L1");
    b.emit_blt("t0", "t1", "L2");
    b.emit_addi("t0", "t0", 1);
    b.emit_subi("t0", "t0", 2);
    b.emit_jal("f");
    b.emit_jr("ra");
    b.emit_syscall();
    b.emit_function_epilogue(32);
    b.emit_exit_syscall();
    assert_eq!(
        b.emit(),
        "  .text\n  .globl  main\nmain:\n  addi sp, sp, -32\n  li t0, -5\n  lw t1, -4(sp)\n  sw t1, 8(sp)\n  beq t0, t1, L1\n  blt t0, t1, L2\n  addi t0, t0, 1\n  subi t0, t0, 2\n  jal f\n  jr ra\n  syscall\n  addi sp, sp, 32\n  li a7, 93\n  ecall\n"
    );
}

use sysy_compiler::riscv_codegen::asm_builder::AsmBuilder;
use sysy_compiler::riscv_codegen::register_alloc::{InnerVar, LinearScan, Location, NoAlloc, RegisterAllocator};
use sysy_compiler::riscv_codegen::{
    align_frame, build_global_variable, check_loop_branch, collect_uses, generate_instruction, get_value_from_reg,
    get_value_name, load_value_to_reg, lower_module, BinOp, CmpPred, FunctionState, GenContext, Instr, IrBlock,
    IrFunction, IrGlobal, IrModule, IrValue,
};

fn mocks() -> Vec<InnerVar> {
    vec![
        InnerVar::new("a".to_string(), 0, 10),
        InnerVar::new("b".to_string(), 5, 20),
        InnerVar::new("c".to_string(), 21, 30),
        InnerVar::new("d".to_string(), 5, 40),
        InnerVar::new("e".to_string(), 20, 50),
        InnerVar::new("f".to_string(), 3, 60),
    ]
}

fn named(n: &str) -> IrValue {
    IrValue::Named(n.to_string())
}

#[test]
fn test_record_loc() {
    let mut allocator = LinearScan::new();
    let mocks: Vec<InnerVar> = vec![
        InnerVar::new("a".to_string(), 0, 10),
        InnerVar::new("b".to_string(), 5, 20),
        InnerVar::new("c".to_string(), 21, 30),
        InnerVar::new("d".to_string(), 22, 40),
        InnerVar::new("e".to_string(), 20, 50),
        InnerVar::new("f".to_string(), 11, 60),
    ];
    let (allocation_map, stack_size) = allocator.allocate(mocks);
    let mut gen_context = GenContext::new();
    gen_context.record_alloc_vars(allocation_map, stack_size);
    assert_eq!(gen_context.get_location("a"), Some(&Location::Reg("t3".to_string())));
    assert_eq!(gen_context.get_location("f"), Some(&Location::Reg("t3".to_string())));
    assert_eq!(gen_context.get_location("d"), Some(&Location::Reg("t6".to_string())));
    assert_eq!(gen_context.get_stack_size(), 0);
}

#[test]
fn test_record_loc1() {
    let mut allocator = NoAlloc::default();
    let (allocation_map, stack_size) = allocator.allocate(mocks());
    allocation_map.iter().for_each(|map| {
        println!("{:?}", map);
    });
    let mut gen_context = GenContext::new();
    gen_context.record_alloc_vars(allocation_map, stack_size);
    // taken by start: a f b d e c
    assert_eq!(gen_context.get_location("a"), Some(&Location::Stack(12)));
    assert_eq!(gen_context.get_location("f"), Some(&Location::Stack(8)));
    assert_eq!(gen_context.get_location("b"), Some(&Location::Stack(4)));
    assert_eq!(gen_context.get_location("d"), Some(&Location::Stack(0)));
    assert_eq!(gen_context.get_location("e"), Some(&Location::Stack(12)));
    assert_eq!(gen_context.get_location("c"), Some(&Location::Stack(4)));
    assert_eq!(gen_context.get_stack_size(), 16);
}

#[test]
fn test_get_val_from_reg() {
    let mut allocator = LinearScan::new();
    let mut only_stack_alloc = NoAlloc::default();
    let (allocation_map, stack_size) = allocator.allocate(mocks());
    let mut gen_context = GenContext::new();
    gen_context.record_alloc_vars(allocation_map, stack_size);

    let (stack_allocation_map, stack_size) = only_stack_alloc.allocate(mocks());
    let mut stack_gen_context = GenContext::new();
    stack_gen_context.record_alloc_vars(stack_allocation_map, stack_size);

    let mut asm_builder = AsmBuilder::new();

    // zero needs no instruction
    let reg_zero = get_value_from_reg(&IrValue::Const(0), &gen_context, "t0", &mut asm_builder);
    assert_eq!(reg_zero, "x0");

    // li t0, 1
    let _ = get_value_from_reg(&IrValue::Const(1), &gen_context, "t0", &mut asm_builder);

    // a global: la t1, global_var then lw t1, 0(t1)
    gen_context.add_global("global_var".to_string());
    let _ = get_value_from_reg(&named("global_var"), &gen_context, "t1", &mut asm_builder);

    // a value on the stack: lw t1, 8(sp)
    let _ = get_value_from_reg(&named("f"), &stack_gen_context, "t1", &mut asm_builder);

    // a value in a register: the linear scan gave f t4
    let var_reg = get_value_from_reg(&named("f"), &gen_context, "t1", &mut asm_builder);
    assert_eq!(var_reg, "t4");

    // an unknown value: li t1, 0
    let var_reg = get_value_from_reg(&named("fb"), &gen_context, "t1", &mut asm_builder);
    assert_eq!(var_reg, "t1");

    let asm_code = asm_builder.emit();
    println!("\n{}", asm_code);
    assert!(asm_code.contains("li t0, 1"));
    assert!(asm_code.contains("la t1, global_var"));
    assert!(asm_code.contains("lw t1, 0(t1)"));
    assert!(asm_code.contains("lw t1, 8(sp)"));
    assert!(asm_code.contains("li t1, 0"));
}

#[test]
fn test_load_val_to_reg() {
    let mut allocator = LinearScan::new();
    let mut only_stack_alloc = NoAlloc::default();
    let (allocation_map, _) = allocator.allocate(mocks());
    let (stack_allocation_map, stack_size) = only_stack_alloc.allocate(mocks());
    let mut gen_context = GenContext::new();
    gen_context.record_alloc_vars(allocation_map, stack_size);
    let mut stack_gen_context = GenContext::new();
    stack_gen_context.record_alloc_vars(stack_allocation_map, stack_size);

    let mut asm_builder = AsmBuilder::new();
    // mv t0, x0
    load_value_to_reg(&IrValue::Const(0), &gen_context, "t0", &mut asm_builder);
    // li t0, 10
    load_value_to_reg(&IrValue::Const(10), &gen_context, "t0", &mut asm_builder);
    // la t1, global_var and lw t1, 0(t1)
    gen_context.add_global("global_var".to_string());
    load_value_to_reg(&named("global_var"), &gen_context, "t1", &mut asm_builder);
    // lw t1, 8(sp)
    load_value_to_reg(&named("f"), &stack_gen_context, "t1", &mut asm_builder);
    // mv t1, t4
    load_value_to_reg(&named("f"), &gen_context, "t1", &mut asm_builder);
    // mv t1, x0
    load_value_to_reg(&named("fb"), &gen_context, "t1", &mut asm_builder);

    let asm_code = asm_builder.emit();
    println!("\n{}", asm_code);
    assert!(asm_code.contains("mv t0, x0"));
    assert!(asm_code.contains("li t0, 10"));
    assert!(asm_code.contains("la t1, global_var"));
    assert!(asm_code.contains("lw t1, 0(t1)"));
    assert!(asm_code.contains("lw t1, 8(sp)"));
    assert!(asm_code.contains("mv t1, t4"));
    assert!(asm_code.contains("mv t1, x0"));
}

#[test]
fn record_alloc_vars_reads_places_and_keeps_globals() {
    let mut ctx = GenContext::new();
    ctx.add_global("g".to_string());
    let allocation = vec![
        ("var1".to_string(), "t0".to_string()),
        ("var2".to_string(), "4(sp)".to_string()),
        ("var3".to_string(), "s1".to_string()),
        ("g".to_string(), "t5".to_string()),
    ];
    ctx.record_alloc_vars(allocation, 16);
    assert_eq!(ctx.get_location("var1"), Some(&Location::Reg("t0".to_string())));
    assert_eq!(ctx.get_location("var2"), Some(&Location::Stack(4)));
    assert_eq!(ctx.get_location("var3"), Some(&Location::Reg("s1".to_string())));
    assert_eq!(ctx.get_location("g"), Some(&Location::Global("g".to_string())));
    assert_eq!(ctx.get_location("nothing"), None);
    assert_eq!(ctx.get_stack_size(), 16);
    assert!(ctx.is_global("g"));
    assert!(!ctx.is_global("var1"));
}

#[test]
fn context_flags() {
    let mut ctx = GenContext::new();
    ctx.set_allocated_vals(vec!["a".to_string()]);
    assert!(ctx.is_alloc("a"));
    assert!(!ctx.is_alloc("b"));
    ctx.set_pure_stack_mode(true);
    assert!(!ctx.is_alloc("a"));
    assert_eq!(ctx.get_allocated_vals(), &vec!["a".to_string()]);
}

fn sample_module() -> IrModule {
    IrModule {
        globals: vec![IrGlobal { name: "g".to_string(), init: Some(5) }],
        functions: vec![IrFunction {
            name: "main".to_string(),
            blocks: vec![IrBlock {
                name: "entry".to_string(),
                instrs: vec![
                    Instr::Alloca { result: "a".to_string() },
                    Instr::Store { value: IrValue::Const(1), ptr: named("a") },
                    Instr::Load { result: "v".to_string(), ptr: named("a") },
                    Instr::Load { result: "w".to_string(), ptr: named("g") },
                    Instr::Binary { op: BinOp::Add, result: "r".to_string(), lhs: named("v"), rhs: named("w") },
                    Instr::Ret { returned: Some(named("r")) },
                ],
            }],
        }],
    }
}

#[test]
fn lower_module_emits_globals_then_functions() {
    let text = lower_module(&sample_module());
    let expected = "  .data\ng:\n  .word 5\n\n  .text\n  .globl  main\nmain:\n  addi sp, sp, -0\nentry:\n  li t3, 1\n  mv t4, t3\n  la t3, g\n  lw t3, 0(t3)\n  add t5, t4, t3\n  mv a0, t5\n  addi sp, sp, 0\n  li a7, 93\n  ecall\n";
    assert_eq!(text, expected);
}

#[test]
fn global_without_initializer_is_zero() {
    let mut asm_builder = AsmBuilder::new();
    build_global_variable(&IrGlobal { name: "z".to_string(), init: None }, &mut asm_builder);
    assert_eq!(asm_builder.emit(), "  .data\nz:\n  .word 0\n\n");
}

fn stack_context() -> GenContext {
    let mut ctx = GenContext::new();
    ctx.add_global("g".to_string());
    ctx.record_alloc_vars(
        vec![
            ("x".to_string(), "t3".to_string()),
            ("y".to_string(), "8(sp)".to_string()),
            ("z".to_string(), "s0".to_string()),
            ("c".to_string(), "4(sp)".to_string()),
        ],
        20,
    );
    ctx
}

fn lowered(i: &Instr, ctx: &GenContext) -> String {
    let mut asm_builder = AsmBuilder::new();
    generate_instruction(i, &mut asm_builder, ctx);
    asm_builder.emit()
}

#[test]
fn arithmetic_goes_to_the_result_place() {
    let ctx = stack_context();
    let to_reg = Instr::Binary { op: BinOp::Sub, result: "z".to_string(), lhs: named("x"), rhs: IrValue::Const(3) };
    assert_eq!(lowered(&to_reg, &ctx), "  li t1, 3\n  sub s0, t3, t1\n");
    let to_stack = Instr::Binary { op: BinOp::Mul, result: "y".to_string(), lhs: named("x"), rhs: named("z") };
    assert_eq!(lowered(&to_stack, &ctx), "  mul t2, t3, s0\n  sw t2, 8(sp)\n");
    let to_global = Instr::Binary { op: BinOp::SRem, result: "g".to_string(), lhs: named("y"), rhs: named("x") };
    assert_eq!(lowered(&to_global, &ctx), "  lw t0, 8(sp)\n  rem t2, t0, t3\n  la t3, g\n  sw t2, 0(t3)\n");
    let div = Instr::Binary { op: BinOp::SDiv, result: "z".to_string(), lhs: named("x"), rhs: named("x") };
    assert_eq!(lowered(&div, &ctx), "  div s0, t3, t3\n");
}

#[test]
fn comparisons_set_their_register() {
    let ctx = stack_context();
    let eq = Instr::ICmp { pred: CmpPred::Eq, result: "z".to_string(), lhs: named("x"), rhs: IrValue::Const(0) };
    assert_eq!(lowered(&eq, &ctx), "  sub s0, t3, x0\n  seqz s0, s0\n");
    let ne = Instr::ICmp { pred: CmpPred::Ne, result: "c".to_string(), lhs: named("x"), rhs: named("z") };
    assert_eq!(lowered(&ne, &ctx), "  sub t2, t3, s0\n  snez t2, t2\n");
    let sgt = Instr::ICmp { pred: CmpPred::Sgt, result: "z".to_string(), lhs: named("x"), rhs: IrValue::Const(3) };
    assert_eq!(lowered(&sgt, &ctx), "  li t1, 3\n  sgt s0, t3, t1\n");
    let sle = Instr::ICmp { pred: CmpPred::Sle, result: "z".to_string(), lhs: named("x"), rhs: named("x") };
    assert_eq!(lowered(&sle, &ctx), "  sle s0, t3, t3\n");
    let other = Instr::ICmp { pred: CmpPred::Other, result: "z".to_string(), lhs: named("x"), rhs: named("x") };
    assert_eq!(lowered(&other, &ctx), "");
}

#[test]
fn branches_jump_to_the_true_target_on_non_zero() {
    let ctx = stack_context();
    let br = Instr::CondBr { cond: named("y"), true_target: "body".to_string(), false_target: "next".to_string() };
    assert_eq!(lowered(&br, &ctx), "  lw t0, 8(sp)\n  bne t0, x0, body\n  j next\n");
    let j = Instr::Br { target: "head".to_string() };
    assert_eq!(lowered(&j, &ctx), "  j head\n");
}

#[test]
fn loads_stores_and_extensions_move_between_places() {
    let ctx = stack_context();
    let load = Instr::Load { result: "c".to_string(), ptr: named("y") };
    assert_eq!(lowered(&load, &ctx), "  lw t0, 8(sp)\n  sw t0, 4(sp)\n");
    let load_same = Instr::Load { result: "z".to_string(), ptr: named("z") };
    assert_eq!(lowered(&load_same, &ctx), "");
    let store_global = Instr::Store { value: named("x"), ptr: named("g") };
    assert_eq!(lowered(&store_global, &ctx), "  la t2, g\n  sw t3, 0(t2)\n");
    let store_stack = Instr::Store { value: IrValue::Const(7), ptr: named("y") };
    assert_eq!(lowered(&store_stack, &ctx), "  li t0, 7\n  sw t0, 8(sp)\n");
    let zext = Instr::ZExt { result: "y".to_string(), value: named("z") };
    assert_eq!(lowered(&zext, &ctx), "  sw s0, 8(sp)\n");
}

#[test]
fn return_releases_the_aligned_frame_and_exits() {
    let ctx = stack_context();
    let ret = Instr::Ret { returned: Some(named("y")) };
    assert_eq!(lowered(&ret, &ctx), "  lw a0, 8(sp)\n  addi sp, sp, 32\n  li a7, 93\n  ecall\n");
    let ret_void = Instr::Ret { returned: None };
    assert_eq!(lowered(&ret_void, &ctx), "  addi sp, sp, 32\n  li a7, 93\n  ecall\n");
}

#[test]
fn frames_are_aligned_to_sixteen() {
    assert_eq!(align_frame(0), 0);
    assert_eq!(align_frame(1), 16);
    assert_eq!(align_frame(16), 16);
    assert_eq!(align_frame(20), 32);
}

#[test]
fn load_is_fetch_then_move() {
    let ctx = stack_context();
    for v in [named("x"), named("y"), named("g"), IrValue::Const(0), IrValue::Const(9)] {
        let mut fetched = AsmBuilder::new();
        let reg = get_value_from_reg(&v, &ctx, "a1", &mut fetched);
        let mut expected = fetched.emit();
        if reg != "a1" {
            expected.push_str(&format!("  mv a1, {}\n", reg));
        }
        let mut loaded = AsmBuilder::new();
        load_value_to_reg(&v, &ctx, "a1", &mut loaded);
        assert_eq!(loaded.emit(), expected);
    }
}

#[test]
fn liveness_follows_first_and_last_occurrence() {
    let mut state = FunctionState::new();
    state.record_instruction(0, "a".to_string(), vec![]);
    state.record_allocated_val("a".to_string());
    state.record_instruction(1, "b".to_string(), vec!["a".to_string()]);
    state.record_instruction(3, "".to_string(), vec!["b".to_string()]);
    state.record_instruction(5, "c".to_string(), vec!["b".to_string(), "".to_string()]);
    let vars = state.compute_liveness();
    let spans: Vec<(String, usize, usize)> =
        vars.iter().map(|v| (v.get_name().clone(), v.get_start_offset(), v.get_end_offset())).collect();
    assert_eq!(spans, vec![("a".to_string(), 0, 1), ("b".to_string(), 1, 5), ("c".to_string(), 5, 5)]);

    // with a loop, an alloca slot lives to the last instruction
    state.mark_loop();
    assert!(state.has_loop());
    let vars = state.compute_liveness();
    assert_eq!((vars[0].get_start_offset(), vars[0].get_end_offset()), (0, 5));
    assert_eq!((vars[1].get_start_offset(), vars[1].get_end_offset()), (1, 5));
    assert_eq!(state.get_allocated_vals(), &vec!["a".to_string()]);
}

#[test]
fn loops_are_branches_back() {
    let mut state = FunctionState::new();
    state.record_block_start("head".to_string(), 2);
    state.record_block_start("exit".to_string(), 7);
    assert_eq!(state.get_block_idx("head"), Some(2));
    assert_eq!(state.get_block_idx("nowhere"), None);
    assert_eq!(state.current_idx(), 0);
    let back = Instr::Br { target: "head".to_string() };
    assert!(check_loop_branch(&back, &3, &state));
    assert!(!check_loop_branch(&back, &1, &state));
    let cond = Instr::CondBr { cond: named("c"), true_target: "exit".to_string(), false_target: "head".to_string() };
    assert!(check_loop_branch(&cond, &4, &state));
    assert!(!check_loop_branch(&cond, &0, &state));
}

#[test]
fn names_and_uses_of_instructions() {
    let i = Instr::Binary { op: BinOp::Add, result: "r".to_string(), lhs: named("a"), rhs: IrValue::Const(2) };
    assert_eq!(get_value_name(&i), "r");
    assert_eq!(collect_uses(&i), vec!["a".to_string()]);
    let s = Instr::Store { value: named("v"), ptr: named("p") };
    assert_eq!(get_value_name(&s), "");
    assert_eq!(collect_uses(&s), vec!["v".to_string(), "p".to_string()]);
}

#[test]
fn a_function_with_a_loop_keeps_its_slot_live() {
    // entry: %i = alloca; store 0, %i; br head
    // head: %v = load %i; %c = icmp slt %v, 10; br %c, body, exit
    // body: %n = add %v, 1; store %n, %i; br head
    // exit: ret %v
    let m = IrModule {
        globals: vec![],
        functions: vec![IrFunction {
            name: "main".to_string(),
            blocks: vec![
                IrBlock {
                    name: "entry".to_string(),
                    instrs: vec![
                        Instr::Alloca { result: "i".to_string() },
                        Instr::Store { value: IrValue::Const(0), ptr: named("i") },
                        Instr::Br { target: "head".to_string() },
                    ],
                },
                IrBlock {
                    name: "head".to_string(),
                    instrs: vec![
                        Instr::Load { result: "v".to_string(), ptr: named("i") },
                        Instr::ICmp { pred: CmpPred::Slt, result: "c".to_string(), lhs: named("v"), rhs: IrValue::Const(10) },
                        Instr::CondBr { cond: named("c"), true_target: "body".to_string(), false_target: "exit".to_string() },
                    ],
                },
                IrBlock {
                    name: "body".to_string(),
                    instrs: vec![
                        Instr::Binary { op: BinOp::Add, result: "n".to_string(), lhs: named("v"), rhs: IrValue::Const(1) },
                        Instr::Store { value: named("n"), ptr: named("i") },
                        Instr::Br { target: "head".to_string() },
                    ],
                },
                IrBlock { name: "exit".to_string(), instrs: vec![Instr::Ret { returned: Some(named("v")) }] },
            ],
        }],
    };
    let text = lower_module(&m);
    // i lives to the end of the loop (index 6), so n cannot take t3; it
    // takes t5, released by c
    let expected = "  .text\n  .globl  main\nmain:\n  addi sp, sp, -0\nentry:\n  mv t3, x0\n  j head\nhead:\n  mv t4, t3\n  li t1, 10\n  slt t5, t4, t1\n  bne t5, x0, body\n  j exit\nbody:\n  li t1, 1\n  add t5, t4, t1\n  mv t3, t5\n  j head\nexit:\n  mv a0, t4\n  addi sp, sp, 0\n  li a7, 93\n  ecall\n";
    assert_eq!(text, expected);
}

#[test]
fn a_store_is_recorded_with_its_uses() {
    let mut state = FunctionState::new();
    state.record_instruction(4, String::new(), vec!["x".to_string()]);
    assert_eq!(state.compute_liveness(), vec![InnerVar::new("x".to_string(), 4, 4)]);
}

#[test]
fn alloca_names_are_kept_once() {
    let mut state = FunctionState::new();
    state.record_allocated_val("a".to_string());
    state.record_allocated_val("b".to_string());
    state.record_allocated_val("a".to_string());
    assert_eq!(state.get_allocated_vals(), &vec!["a".to_string(), "b".to_string()]);
    let mut ctx = GenContext::new();
    ctx.set_allocated_vals(vec!["p".to_string(), "q".to_string(), "p".to_string()]);
    assert_eq!(ctx.get_allocated_vals(), &vec!["p".to_string(), "q".to_string()]);
}

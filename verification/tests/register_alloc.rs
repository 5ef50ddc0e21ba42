use std::collections::{BTreeSet, HashMap};

use sysy_compiler::riscv_codegen::register_alloc::{
    AllocatedInnerVar, InnerVar, LinearScan, Location, NoAlloc, RegisterAllocator,
};

fn as_map(pairs: Vec<(String, String)>) -> HashMap<String, String> {
    pairs.into_iter().collect()
}

fn mocks_overlapping() -> Vec<InnerVar> {
    vec![
        InnerVar::new("a".to_string(), 0, 10),
        InnerVar::new("b".to_string(), 5, 20),
        InnerVar::new("c".to_string(), 21, 30),
        InnerVar::new("d".to_string(), 5, 40),
        InnerVar::new("e".to_string(), 20, 50),
        InnerVar::new("f".to_string(), 3, 60),
    ]
}

#[test]
fn test_only_stack1() {
    let mut allocator = NoAlloc::default();
    let mocks: Vec<InnerVar> = vec![
        InnerVar::new("a".to_string(), 0, 10),
        InnerVar::new("b".to_string(), 11, 20),
        InnerVar::new("c".to_string(), 21, 30),
        InnerVar::new("d".to_string(), 31, 40),
        InnerVar::new("e".to_string(), 41, 50),
        InnerVar::new("f".to_string(), 51, 60),
    ];
    let (allocation_map, stack_size) = allocator.allocate(mocks);
    assert_eq!(
        as_map(allocation_map),
        HashMap::<String, String>::from([
            ("a".to_string(), "0(sp)".to_string()),
            ("b".to_string(), "0(sp)".to_string()),
            ("c".to_string(), "0(sp)".to_string()),
            ("d".to_string(), "0(sp)".to_string()),
            ("e".to_string(), "0(sp)".to_string()),
            ("f".to_string(), "0(sp)".to_string()),
        ])
    );
    assert_eq!(stack_size, 4);
}

#[test]
fn test_only_stack2() {
    let mut allocator = NoAlloc::default();
    let mocks: Vec<InnerVar> = vec![
        InnerVar::new("a".to_string(), 0, 10),
        InnerVar::new("b".to_string(), 5, 20),
        InnerVar::new("c".to_string(), 21, 30),
        InnerVar::new("d".to_string(), 5, 40),
        InnerVar::new("e".to_string(), 20, 50),
        InnerVar::new("f".to_string(), 3, 60),
    ];
    let (_, stack_size) = allocator.allocate(mocks);
    assert_eq!(stack_size, 16);
}

#[test]
fn test_check_sort() {
    let active_vars = BTreeSet::<InnerVar>::from([
        InnerVar::new("a".to_string(), 0, 10),
        InnerVar::new("b".to_string(), 5, 20),
        InnerVar::new("c".to_string(), 21, 30),
        InnerVar::new("d".to_string(), 5, 40),
        InnerVar::new("e".to_string(), 20, 50),
        InnerVar::new("f".to_string(), 3, 60),
    ]);
    println!("{:?}", active_vars);
    let names: Vec<String> = active_vars.iter().map(|v| v.get_name().clone()).collect();
    assert_eq!(names, vec!["a", "b", "c", "d", "e", "f"]);
}

#[test]
fn test_linear_scan2() {
    let mut allocator = LinearScan::new();
    let mocks: Vec<InnerVar> = vec![
        InnerVar::new("a".to_string(), 0, 10),
        InnerVar::new("b".to_string(), 5, 20),
        InnerVar::new("c".to_string(), 21, 30),
        InnerVar::new("d".to_string(), 22, 40),
        InnerVar::new("e".to_string(), 20, 50),
        InnerVar::new("f".to_string(), 11, 60),
    ];
    let (allocation_map, stack_size) = allocator.allocate(mocks);
    assert_eq!(
        as_map(allocation_map),
        HashMap::<String, String>::from([
            ("a".to_string(), "t3".to_string()),
            ("b".to_string(), "t4".to_string()),
            ("c".to_string(), "t4".to_string()),
            ("d".to_string(), "t6".to_string()),
            ("e".to_string(), "t5".to_string()),
            ("f".to_string(), "t3".to_string()),
        ])
    );
    assert_eq!(stack_size, 0);
}

#[test]
fn test_linear_scan1() {
    let mut allocator = LinearScan::new();
    let mocks: Vec<InnerVar> = vec![
        InnerVar::new("a".to_string(), 0, 10),
        InnerVar::new("b".to_string(), 5, 20),
        InnerVar::new("c".to_string(), 21, 30),
        InnerVar::new("d".to_string(), 5, 40),
        InnerVar::new("e".to_string(), 20, 50),
        InnerVar::new("f".to_string(), 3, 60),
    ];
    // taken by start: a(0,10) f(3,60) b(5,20) d(5,40) e(20,50) c(21,30)
    let (allocation_map, stack_size) = allocator.allocate(mocks);
    assert_eq!(
        as_map(allocation_map),
        HashMap::<String, String>::from([
            ("a".to_string(), "t3".to_string()),
            ("b".to_string(), "t5".to_string()),
            ("c".to_string(), "s1".to_string()),
            ("d".to_string(), "t6".to_string()),
            ("e".to_string(), "s0".to_string()),
            ("f".to_string(), "t4".to_string()),
        ])
    );
    assert_eq!(stack_size, 0);
}

#[test]
fn linear_scan_reuses_any_class_once_every_register_was_used() {
    let mut vars = Vec::new();
    for i in 0..22 {
        vars.push(InnerVar::new(format!("v{}", i), i, 50));
    }
    vars.push(InnerVar::new("x".to_string(), 60, 70));
    let mut allocator = LinearScan::new();
    let (allocation, stack_size) = allocator.allocate(vars);
    let map = as_map(allocation);
    assert_eq!(map["v0"], "t3");
    assert_eq!(map["v4"], "s0");
    assert_eq!(map["v21"], "a7");
    // every register has been used: the first free one of any class
    assert_eq!(map["x"], "t3");
    assert_eq!(stack_size, 0);
}

#[test]
fn linear_scan_spills_the_value_ending_last() {
    // 23 values live at once: 22 registers, then a spill.
    let mut vars = Vec::new();
    for i in 0..22 {
        vars.push(InnerVar::new(format!("v{}", i), i, 100));
    }
    vars.push(InnerVar::new("late".to_string(), 30, 200));
    vars.push(InnerVar::new("short".to_string(), 31, 40));
    let mut allocator = LinearScan::new();
    let (allocation, stack_size) = allocator.allocate(vars);
    let map = as_map(allocation);
    // `late` ends after every live value: it goes to the first slot.
    assert_eq!(map["late"], "4(sp)");
    // `short` ends before `v0`..`v21`: the one ending last (the last taken
    // among equals) gives up its register, a2-a7 being the last ones.
    assert_eq!(map["short"], "a7");
    assert_eq!(map["v21"], "0(sp)");
    assert_eq!(stack_size, 8);
    // no two values share a stack slot
    assert_ne!(map["late"], map["v21"]);
}

#[test]
fn linear_scan_never_shares_a_register_between_overlapping_values() {
    let vars = mocks_overlapping();
    let mut allocator = LinearScan::new();
    let (allocation, _) = allocator.allocate(vars.clone());
    let spans: HashMap<String, (usize, usize)> = vars
        .iter()
        .map(|v| (v.get_name().clone(), (v.get_start_offset(), v.get_end_offset())))
        .collect();
    for (i, (n1, l1)) in allocation.iter().enumerate() {
        for (n2, l2) in allocation.iter().skip(i + 1) {
            if l1 == l2 {
                let (s1, e1) = spans[n1];
                let (s2, e2) = spans[n2];
                assert!(e1 < s2 || e2 < s1, "{} and {} overlap in {}", n1, n2, l1);
            }
        }
    }
}

#[test]
fn no_alloc_shares_slots_between_disjoint_values() {
    let mut allocator = NoAlloc::default();
    let (allocation, stack_size) = allocator.allocate(mocks_overlapping());
    // Taken by start: a f b d e c; e reuses a's slot, c reuses b's slot.
    assert_eq!(
        allocation,
        vec![
            ("a".to_string(), "12(sp)".to_string()),
            ("f".to_string(), "8(sp)".to_string()),
            ("b".to_string(), "4(sp)".to_string()),
            ("d".to_string(), "0(sp)".to_string()),
            ("e".to_string(), "12(sp)".to_string()),
            ("c".to_string(), "4(sp)".to_string()),
        ]
    );
    assert_eq!(stack_size, 16);
}

#[test]
fn allocated_inner_var_chooses_the_allocator() {
    let chooser = AllocatedInnerVar::default();
    let (on_stack, size_stack) = chooser.allocate(mocks_overlapping(), true);
    let (in_regs, size_regs) = chooser.allocate(mocks_overlapping(), false);
    assert_eq!(size_stack, 16);
    assert_eq!(size_regs, 0);
    assert!(on_stack.iter().all(|(_, l)| l.ends_with("(sp)")));
    assert!(in_regs.iter().all(|(_, l)| !l.ends_with("(sp)")));
}

#[test]
fn empty_allocation() {
    let mut allocator = LinearScan::new();
    let (allocation, stack_size) = allocator.allocate(Vec::new());
    assert!(allocation.is_empty());
    assert_eq!(stack_size, 0);
}

#[test]
fn location_names() {
    assert_eq!(Location::Reg("t3".to_string()).get_name(), "t3");
    assert_eq!(Location::Stack(-8).get_name(), "-8");
    assert_eq!(Location::Global("g".to_string()).get_name(), "g");
}

#[test]
fn inner_var_accessors() {
    let v = InnerVar::new("x".to_string(), 3, 9);
    assert_eq!(v.get_name(), "x");
    assert_eq!(v.get_start_offset(), 3);
    assert_eq!(v.get_end_offset(), 9);
}

#[test]
fn repeated_names_get_the_later_location() {
    let vars = vec![InnerVar::new("a".to_string(), 0, 5), InnerVar::new("a".to_string(), 10, 20)];
    let chooser = AllocatedInnerVar;
    let (in_regs, regs_frame) = chooser.allocate(vars.clone(), false);
    let (direct, direct_frame) = LinearScan::new().allocate(vars.clone());
    assert_eq!(in_regs, direct);
    assert_eq!(regs_frame, direct_frame);
    assert_eq!(in_regs, vec![("a".to_string(), "t3".to_string())]);
    let (on_stack, stack_frame) = chooser.allocate(vars.clone(), true);
    let (direct, direct_frame) = NoAlloc::default().allocate(vars);
    assert_eq!(on_stack, direct);
    assert_eq!(stack_frame, direct_frame);
    assert_eq!(as_map(on_stack), HashMap::from([("a".to_string(), "0(sp)".to_string())]));
    assert_eq!(stack_frame, 4);
    // a name given to two live values keeps the later one's register
    let overlapping = vec![
        InnerVar::new("a".to_string(), 0, 10),
        InnerVar::new("a".to_string(), 5, 20),
        InnerVar::new("b".to_string(), 6, 8),
    ];
    let (m, n) = LinearScan::new().allocate(overlapping);
    assert_eq!(as_map(m), HashMap::from([("a".to_string(), "t4".to_string()), ("b".to_string(), "t5".to_string())]));
    assert_eq!(n, 0);
}

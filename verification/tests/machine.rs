use stacklang::virtual_machine::Operation as Op;
use stacklang::virtual_machine::{Function, RunOutcome, VirtualMachine};

const BUDGET: u64 = 1_000_000;

fn machine_of(ops: Vec<Op>) -> VirtualMachine {
    VirtualMachine::from_functions(vec![Function::from_operations("main".to_string(), ops)])
}

fn run_main(ops: Vec<Op>) -> RunOutcome {
    machine_of(ops).run(BUDGET)
}

fn reference_fib(n: u32) -> u32 {
    let mut a = 0;
    let mut b = 1;
    for _ in 0..n {
        std::mem::swap(&mut a, &mut b);
        b += a;
    }
    return b;
}

#[test]
fn fibonacci() {
    for i in 0..30 {
        let mut program = VirtualMachine::from_functions(vec![Function::from_operations(
            "main".to_string(),
            vec![
                Op::Push(0),         // 0
                Op::Push(1),         // 1
                Op::Push(i),         // 2
                Op::Get(0),          // 3
                Op::JumpIfNot(13),   // 4
                Op::Get(2),          // 5
                Op::Get(2),          // 6
                Op::Add,             // 7
                Op::Get(2),          // 8
                Op::Put(3),          // 9
                Op::Put(1),          // 10
                Op::SubImmediate(1), // 11
                Op::Jump(3),         // 12
                Op::Pop,             // 13
                Op::Put(3),          // 14
                Op::Pop,             // 15
                Op::Return,          // 16
            ],
        )]);
        assert_eq!(RunOutcome::Exit(reference_fib(i)), program.run(BUDGET));
    }
}

#[test]
fn add_wraps_modulo() {
    let r = run_main(vec![Op::Push(u32::MAX), Op::Push(1), Op::Add, Op::Put(2), Op::Return]);
    assert_eq!(r, RunOutcome::Exit(0));
}

#[test]
fn sub_wraps_modulo() {
    let r = run_main(vec![Op::Push(0), Op::Push(1), Op::Sub, Op::Put(2), Op::Return]);
    assert_eq!(r, RunOutcome::Exit(u32::MAX));
}

#[test]
fn mul_wraps_modulo() {
    let r = run_main(vec![
        Op::Push(0x1_0000),
        Op::Push(0x1_0000),
        Op::Mul,
        Op::Put(2),
        Op::Return,
    ]);
    assert_eq!(r, RunOutcome::Exit(0));
}

#[test]
fn div_and_mod_by_zero_are_zero() {
    let r = run_main(vec![Op::Push(5), Op::Push(0), Op::Div, Op::Put(2), Op::Return]);
    assert_eq!(r, RunOutcome::Exit(0));
    let r = run_main(vec![Op::Push(5), Op::Push(0), Op::Mod, Op::Put(2), Op::Return]);
    assert_eq!(r, RunOutcome::Exit(0));
    let r = run_main(vec![Op::Push(5), Op::DivImmediate(0), Op::Put(2), Op::Return]);
    assert_eq!(r, RunOutcome::Exit(0));
    let r = run_main(vec![Op::Push(5), Op::ModImmediate(0), Op::Put(2), Op::Return]);
    assert_eq!(r, RunOutcome::Exit(0));
}

#[test]
fn div_and_mod_truncate() {
    let r = run_main(vec![Op::Push(17), Op::Push(5), Op::Div, Op::Put(2), Op::Return]);
    assert_eq!(r, RunOutcome::Exit(3));
    let r = run_main(vec![Op::Push(17), Op::Push(5), Op::Mod, Op::Put(2), Op::Return]);
    assert_eq!(r, RunOutcome::Exit(2));
}

#[test]
fn immediate_operand_sides() {
    // the plain immediates put the immediate on the right
    let r = run_main(vec![Op::Push(40), Op::AddImmediate(2), Op::Put(2), Op::Return]);
    assert_eq!(r, RunOutcome::Exit(42));
    let r = run_main(vec![Op::Push(40), Op::SubImmediate(2), Op::Put(2), Op::Return]);
    assert_eq!(r, RunOutcome::Exit(38));
    let r = run_main(vec![Op::Push(6), Op::MulImmediate(7), Op::Put(2), Op::Return]);
    assert_eq!(r, RunOutcome::Exit(42));
    // the By forms put the immediate on the left
    let r = run_main(vec![Op::Push(3), Op::SubImmediateBy(10), Op::Put(2), Op::Return]);
    assert_eq!(r, RunOutcome::Exit(7));
    let r = run_main(vec![Op::Push(4), Op::DivImmediateBy(20), Op::Put(2), Op::Return]);
    assert_eq!(r, RunOutcome::Exit(5));
    let r = run_main(vec![Op::Push(7), Op::ModImmediateBy(20), Op::Put(2), Op::Return]);
    assert_eq!(r, RunOutcome::Exit(6));
    // and their divisor-by-zero cases are zero
    let r = run_main(vec![Op::Push(0), Op::DivImmediateBy(20), Op::Put(2), Op::Return]);
    assert_eq!(r, RunOutcome::Exit(0));
    let r = run_main(vec![Op::Push(0), Op::ModImmediateBy(20), Op::Put(2), Op::Return]);
    assert_eq!(r, RunOutcome::Exit(0));
}

#[test]
fn jump_if_not_lands_exactly_on_target() {
    let r = run_main(vec![
        Op::Push(0),       // 0: condition
        Op::JumpIfNot(4),  // 1: taken, must land exactly on 4
        Op::Push(11),      // 2: skipped
        Op::Jump(6),       // 3: skipped
        Op::Push(22),      // 4: target
        Op::Put(2),        // 5
        Op::Return,        // 6
    ]);
    assert_eq!(r, RunOutcome::Exit(22));
}

#[test]
fn jump_if_not_falls_through_on_nonzero() {
    let r = run_main(vec![
        Op::Push(1),       // 0: condition
        Op::JumpIfNot(4),  // 1: not taken
        Op::Push(11),      // 2: executed
        Op::Jump(5),       // 3
        Op::Push(22),      // 4: skipped
        Op::Put(2),        // 5
        Op::Return,        // 6
    ]);
    assert_eq!(r, RunOutcome::Exit(11));
}

#[test]
fn jump_zero_at_start_loops_forever() {
    let mut program = machine_of(vec![Op::Jump(0), Op::Return]);
    assert_eq!(program.run(10_000), RunOutcome::Exhausted);
    // still looping: another budget is exhausted too
    assert_eq!(program.run(10_000), RunOutcome::Exhausted);
}

#[test]
fn get_duplicates_and_put_writes_back() {
    let r = run_main(vec![
        Op::Push(10),
        Op::Push(20),
        Op::Get(1),   // duplicates the 10
        Op::Put(4),   // writes it to the exit slot
        Op::Pop,
        Op::Pop,
        Op::Return,
    ]);
    assert_eq!(r, RunOutcome::Exit(10));
}

#[test]
fn allocate_bumps_addresses_by_size() {
    // Allocate(3) yields address 0; the next Allocate(2) yields 3
    let r = run_main(vec![
        Op::Allocate(3),
        Op::Pop,
        Op::Allocate(2),
        Op::Put(2),
        Op::Return,
    ]);
    assert_eq!(r, RunOutcome::Exit(3));
}

#[test]
fn store_load_round_trips() {
    let r = run_main(vec![
        Op::Allocate(3),
        Op::Pop,
        Op::Push(77),
        Op::Store(1),
        Op::Load(1),
        Op::Put(2),
        Op::Return,
    ]);
    assert_eq!(r, RunOutcome::Exit(77));
}

#[test]
fn call_restores_caller_and_relocates_result() {
    // callee: one local, returns 9 into the last argument's slot
    let callee = Function::from_operations(
        "callee".to_string(),
        vec![Op::Push(5), Op::Push(9), Op::Put(3), Op::Pop, Op::Return],
    );
    let main = Function::from_operations(
        "main".to_string(),
        vec![
            Op::Push(1),  // first argument: stays behind as a residual word
            Op::Push(2),  // second argument: replaced by the result
            Op::Call(1),
            Op::Put(3),
            Op::Pop,
            Op::Return,
        ],
    );
    let mut program = VirtualMachine::from_functions(vec![main, callee]);
    assert_eq!(program.run(BUDGET), RunOutcome::Exit(9));
}

#[test]
fn call_fn_pointer_uses_popped_identity() {
    let callee = Function::from_operations(
        "callee".to_string(),
        vec![Op::Push(33), Op::Put(2), Op::Return],
    );
    let main = Function::from_operations(
        "main".to_string(),
        vec![
            Op::Push(0),  // slot the callee's result lands in
            Op::Push(1),  // the function pointer
            Op::CallFnPointer,
            Op::Put(2),
            Op::Return,
        ],
    );
    let mut program = VirtualMachine::from_functions(vec![main, callee]);
    assert_eq!(program.run(BUDGET), RunOutcome::Exit(33));
}

#[test]
fn main_function_is_selected_by_name() {
    let decoy = Function::from_operations(
        "decoy".to_string(),
        vec![Op::Push(1), Op::Put(2), Op::Return],
    );
    let main = Function::from_operations(
        "main".to_string(),
        vec![Op::Push(2), Op::Put(2), Op::Return],
    );
    let mut program = VirtualMachine::from_functions(vec![decoy, main]);
    assert_eq!(program.run(BUDGET), RunOutcome::Exit(2));
}

#[test]
fn missing_main_falls_back_to_first_function() {
    let first = Function::from_operations(
        "first".to_string(),
        vec![Op::Push(7), Op::Put(2), Op::Return],
    );
    let mut program = VirtualMachine::from_functions(vec![first]);
    assert_eq!(program.run(BUDGET), RunOutcome::Exit(7));
}

#[test]
fn out_of_range_accesses_fault() {
    assert_eq!(run_main(vec![Op::Get(10)]), RunOutcome::Fault);
    assert_eq!(run_main(vec![Op::Load(0)]), RunOutcome::Fault);
    assert_eq!(run_main(vec![Op::Store(0)]), RunOutcome::Fault);
    // calling an undefined function index faults on the next fetch
    assert_eq!(run_main(vec![Op::Call(7)]), RunOutcome::Fault);
    // running past the end of the operation sequence faults
    assert_eq!(run_main(vec![Op::Push(1)]), RunOutcome::Fault);
    assert_eq!(run_main(vec![]), RunOutcome::Fault);
}

#[test]
fn free_discards_the_address() {
    let r = run_main(vec![
        Op::Allocate(4),
        Op::Free(0),
        Op::Push(3),
        Op::Put(2),
        Op::Return,
    ]);
    assert_eq!(r, RunOutcome::Exit(3));
}

#[test]
fn builtin_pauses_and_resumes() {
    let main = Function::from_operations(
        "main".to_string(),
        vec![Op::Call(1), Op::Put(2), Op::Return],
    );
    let helper = Function::from_builtin("helper".to_string());
    let mut program = VirtualMachine::from_functions(vec![main, helper]);
    assert_eq!(program.run(BUDGET), RunOutcome::PendingBuiltin(1));
    // the host routine returns 42: it slips the value under the two
    // saved control words, then performs the synthesized return
    let saved_identity = program.stack_pop().unwrap();
    let saved_counter = program.stack_pop().unwrap();
    program.stack_push(42);
    program.stack_push(saved_counter);
    program.stack_push(saved_identity);
    assert!(program.finish_builtin());
    assert_eq!(program.run(BUDGET), RunOutcome::Exit(42));
}

#[test]
fn heap_accessors_bounds() {
    let main = Function::from_operations(
        "main".to_string(),
        vec![Op::Allocate(2), Op::Pop, Op::Push(5), Op::Store(0), Op::Put(2), Op::Return],
    );
    let mut program = VirtualMachine::from_functions(vec![main]);
    program.run(BUDGET);
    assert_eq!(program.heap_read(0), Some(5));
    assert_eq!(program.heap_read(1), Some(0));
    assert_eq!(program.heap_read(2), None);
    assert!(program.heap_write(1, 7));
    assert_eq!(program.heap_read(1), Some(7));
    assert!(!program.heap_write(9, 1));
}

//! The stack virtual machine: its instruction set and execution semantics.
//!
//! The machine holds one operand stack of 32-bit words, a bump heap, a
//! function table and a cursor (current function identity, program counter).
//! The whole semantics is written down as the spec function [`machine_step`];
//! the executable interpreter is proved to follow it step for step.

use vstd::prelude::*;

verus! {

/// The sentinel function identity: a `Return` that restores it ends execution.
pub const SENTINEL: u32 = u32::MAX;

/// One machine instruction. Arithmetic wraps modulo 2^32; division and
/// modulo by zero yield 0. The `Immediate` variants take the second operand
/// from the instruction itself; the `By` forms put the immediate on the left.
#[derive(Debug, Clone, Copy, PartialEq, Eq, Structural)]
pub enum Operation {
    // Stack operations
    Push(u32),
    Pop,
    Get(u32),
    Put(u32),
    // Heap operations
    Store(u32),
    Load(u32),
    Allocate(u32),
    Free(u32),
    // Function operations
    Call(u32),
    CallFnPointer,
    Return,
    // Arithmetic operations
    AddImmediate(u32),
    Add,
    SubImmediate(u32),
    SubImmediateBy(u32),
    Sub,
    MulImmediate(u32),
    Mul,
    DivImmediate(u32),
    DivImmediateBy(u32),
    Div,
    ModImmediate(u32),
    ModImmediateBy(u32),
    Mod,
    // Control flow
    Jump(u32),
    JumpIf(u32),
    JumpIfNot(u32),
    Goto,
    GotoIf,
    GotoIfNot,
}

/// A callee is either a compiled operation sequence or a marker for a
/// host-provided routine. The machine cannot run a host routine itself:
/// `run` pauses on one and the host resumes with `finish_builtin`.
pub enum FunctionData {
    Code(Vec<Operation>),
    Builtin,
}

/// One entry of the function table: a name and an implementation.
pub struct Function {
    name: String,
    implementation: FunctionData,
}

/// The mathematical image of a function table entry.
pub ghost enum FunctionBodyView {
    Code(Seq<Operation>),
    Builtin,
}

#[verifier::ext_equal]
pub ghost struct FunctionView {
    pub name: Seq<char>,
    pub body: FunctionBodyView,
}

impl View for Function {
    type V = FunctionView;

    closed spec fn view(&self) -> FunctionView {
        FunctionView {
            name: self.name@,
            body: match self.implementation {
                FunctionData::Code(ops) => FunctionBodyView::Code(ops@),
                FunctionData::Builtin => FunctionBodyView::Builtin,
            },
        }
    }
}

impl Function {
    pub fn from_operations(name: String, operations: Vec<Operation>) -> (r: Self)
        ensures
            r@ == (FunctionView { name: name@, body: FunctionBodyView::Code(operations@) }),
    {
        Self { name, implementation: FunctionData::Code(operations) }
    }

    pub fn from_builtin(name: String) -> (r: Self)
        ensures
            r@ == (FunctionView { name: name@, body: FunctionBodyView::Builtin }),
    {
        Self { name, implementation: FunctionData::Builtin }
    }
}

/// The whole machine state as mathematics: the view of [`VirtualMachine`].
#[verifier::ext_equal]
pub ghost struct VmSnap {
    pub fid: u32,
    pub pc: u32,
    pub functions: Seq<FunctionView>,
    pub stack: Seq<u32>,
    pub heap: Seq<u32>,
}

/// What one fetch-decode-execute step does to a machine state.
pub ghost enum StepSpec {
    /// An instruction was executed; this is the state after it.
    Continue(VmSnap),
    /// The current identity is the sentinel: execution is over with this value.
    Exit(u32),
    /// The step would read out of range or call a missing function.
    Fault,
    /// The current function is a host routine with this identity.
    Builtin(u32),
}

/// The value execution yields once the sentinel identity is reached:
/// the top of the stack, or the sentinel value if the stack is empty.
pub open spec fn exit_value(s: VmSnap) -> u32 {
    if s.stack.len() > 0 {
        s.stack.last()
    } else {
        SENTINEL
    }
}

/// The effect of one operation on the state, before the uniform program
/// counter increment. `None` is a fault: a stack or heap access out of
/// range. Jump-class operations set the counter to target - 1 so that the
/// increment lands exactly on the target.
pub open spec fn op_effect(s: VmSnap, op: Operation) -> Option<VmSnap> {
    match op {
        Operation::Push(n) => Some(VmSnap { stack: s.stack.push(n), ..s }),
        Operation::Pop => if s.stack.len() > 0 {
            Some(VmSnap { stack: s.stack.drop_last(), ..s })
        } else {
            // popping an empty stack discards nothing and is not a fault
            Some(s)
        },
        Operation::Get(depth) => if depth < s.stack.len() {
            Some(VmSnap { stack: s.stack.push(s.stack[s.stack.len() - 1 - depth]), ..s })
        } else {
            None
        },
        Operation::Put(depth) => if s.stack.len() > 0 && depth < s.stack.len() - 1 {
            Some(VmSnap {
                stack: s.stack.drop_last().update(
                    s.stack.len() - 2 - depth,
                    s.stack.last(),
                ),
                ..s
            })
        } else {
            None
        },
        Operation::Store(address) => if s.stack.len() > 0 && address < s.heap.len() {
            Some(VmSnap {
                stack: s.stack.drop_last(),
                heap: s.heap.update(address as int, s.stack.last()),
                ..s
            })
        } else {
            None
        },
        Operation::Load(address) => if address < s.heap.len() {
            Some(VmSnap { stack: s.stack.push(s.heap[address as int]), ..s })
        } else {
            None
        },
        Operation::Allocate(size) => Some(VmSnap {
            // the pushed base address is the heap length, truncated to a word
            stack: s.stack.push(((s.heap.len() as int % 0x1_0000_0000) as u32)),
            heap: s.heap + Seq::new(size as nat, |i: int| 0u32),
            ..s
        }),
        Operation::Free(_address) => if s.stack.len() > 0 {
            Some(VmSnap { stack: s.stack.drop_last(), ..s })
        } else {
            None
        },
        Operation::Call(function_id) => Some(VmSnap {
            stack: s.stack.push(s.pc).push(s.fid),
            fid: function_id,
            pc: SENTINEL,
            ..s
        }),
        Operation::CallFnPointer => if s.stack.len() > 0 {
            Some(VmSnap {
                stack: s.stack.drop_last().push(s.pc).push(s.fid),
                fid: s.stack.last(),
                pc: SENTINEL,
                ..s
            })
        } else {
            None
        },
        Operation::Return => if s.stack.len() >= 2 {
            Some(VmSnap {
                stack: s.stack.drop_last().drop_last(),
                fid: s.stack.last(),
                pc: s.stack[s.stack.len() - 2],
                ..s
            })
        } else {
            None
        },
        Operation::AddImmediate(i) => arith1(s, |b: u32| b.wrapping_add(i)),
        Operation::Add => arith2(s, |a: u32, b: u32| a.wrapping_add(b)),
        Operation::SubImmediate(i) => arith1(s, |b: u32| b.wrapping_sub(i)),
        Operation::SubImmediateBy(i) => arith1(s, |b: u32| i.wrapping_sub(b)),
        Operation::Sub => arith2(s, |a: u32, b: u32| a.wrapping_sub(b)),
        Operation::MulImmediate(i) => arith1(s, |b: u32| b.wrapping_mul(i)),
        Operation::Mul => arith2(s, |a: u32, b: u32| a.wrapping_mul(b)),
        Operation::DivImmediate(i) => arith1(s, |b: u32| if i != 0 { b / i } else { 0 }),
        Operation::DivImmediateBy(i) => arith1(s, |b: u32| if b != 0 { i / b } else { 0 }),
        Operation::Div => arith2(s, |a: u32, b: u32| if b != 0 { a / b } else { 0 }),
        Operation::ModImmediate(i) => arith1(s, |b: u32| if i != 0 { b % i } else { 0 }),
        Operation::ModImmediateBy(i) => arith1(s, |b: u32| if b != 0 { i % b } else { 0 }),
        Operation::Mod => arith2(s, |a: u32, b: u32| if b != 0 { a % b } else { 0 }),
        Operation::Jump(location) => Some(VmSnap { pc: location.wrapping_sub(1), ..s }),
        Operation::JumpIf(location) => if s.stack.len() > 0 {
            Some(VmSnap {
                stack: s.stack.drop_last(),
                pc: if s.stack.last() != 0 { location.wrapping_sub(1) } else { s.pc },
                ..s
            })
        } else {
            None
        },
        Operation::JumpIfNot(location) => if s.stack.len() > 0 {
            Some(VmSnap {
                stack: s.stack.drop_last(),
                pc: if s.stack.last() == 0 { location.wrapping_sub(1) } else { s.pc },
                ..s
            })
        } else {
            None
        },
        Operation::Goto => if s.stack.len() > 0 {
            Some(VmSnap {
                stack: s.stack.drop_last(),
                pc: s.stack.last().wrapping_sub(1),
                ..s
            })
        } else {
            None
        },
        Operation::GotoIf => if s.stack.len() >= 2 {
            Some(VmSnap {
                stack: s.stack.drop_last().drop_last(),
                pc: if s.stack[s.stack.len() - 2] != 0 {
                    s.stack.last().wrapping_sub(1)
                } else {
                    s.pc
                },
                ..s
            })
        } else {
            None
        },
        Operation::GotoIfNot => if s.stack.len() >= 2 {
            Some(VmSnap {
                stack: s.stack.drop_last().drop_last(),
                pc: if s.stack[s.stack.len() - 2] == 0 {
                    s.stack.last().wrapping_sub(1)
                } else {
                    s.pc
                },
                ..s
            })
        } else {
            None
        },
    }
}

/// Pop one operand, push `f` of it.
pub open spec fn arith1(s: VmSnap, f: spec_fn(u32) -> u32) -> Option<VmSnap> {
    if s.stack.len() > 0 {
        Some(VmSnap { stack: s.stack.drop_last().push(f(s.stack.last())), ..s })
    } else {
        None
    }
}

/// Pop the right operand, pop the left operand, push `f` of both.
pub open spec fn arith2(s: VmSnap, f: spec_fn(u32, u32) -> u32) -> Option<VmSnap> {
    if s.stack.len() >= 2 {
        Some(VmSnap {
            stack: s.stack.drop_last().drop_last().push(
                f(s.stack[s.stack.len() - 2], s.stack.last()),
            ),
            ..s
        })
    } else {
        None
    }
}

/// One iteration of the fetch-decode-execute loop, as mathematics.
/// This spec function is the machine's semantics: everything the executable
/// interpreter does is stated against it.
pub open spec fn machine_step(s: VmSnap) -> StepSpec {
    if s.fid == SENTINEL {
        StepSpec::Exit(exit_value(s))
    } else if s.fid >= s.functions.len() {
        StepSpec::Fault
    } else {
        match s.functions[s.fid as int].body {
            FunctionBodyView::Builtin => StepSpec::Builtin(s.fid),
            FunctionBodyView::Code(ops) => if s.pc >= ops.len() {
                StepSpec::Fault
            } else {
                match op_effect(s, ops[s.pc as int]) {
                    Option::None => StepSpec::Fault,
                    Option::Some(s2) => StepSpec::Continue(
                        VmSnap { pc: s2.pc.wrapping_add(1), ..s2 },
                    ),
                }
            },
        }
    }
}

/// The state after `n` executed instructions, or `None` if execution
/// exits, faults or reaches a host routine within those `n` steps.
pub open spec fn steps_to(s0: VmSnap, n: nat) -> Option<VmSnap>
    decreases n,
{
    if n == 0 {
        Some(s0)
    } else {
        match steps_to(s0, (n - 1) as nat) {
            Option::None => None,
            Option::Some(s) => match machine_step(s) {
                StepSpec::Continue(s2) => Some(s2),
                _ => None,
            },
        }
    }
}

/// Why `run` stopped.
#[derive(Debug, Clone, Copy, PartialEq, Eq, Structural)]
pub enum RunOutcome {
    /// The sentinel identity was assumed: execution is over with this value.
    Exit(u32),
    /// A stack or heap access out of range, a missing function, or a program
    /// counter past the end of an operation sequence.
    Fault,
    /// The function with this identity is host-provided: the host must do its
    /// work and then call `finish_builtin` before running on.
    PendingBuiltin(u32),
    /// The step budget ran out; execution can go on with another call.
    Exhausted,
}

/// The arithmetic operations follow wraparound modular arithmetic on
/// 32-bit words: `Add`, `Sub` and `Mul` push the mathematical result
/// reduced modulo 2^32, and `Div` and `Mod` push the integer quotient and
/// remainder, with division or modulo by zero defined as 0.
pub proof fn lemma_arithmetic_ops(s: VmSnap, a: u32, b: u32)
    requires
        s.stack.len() >= 2,
        s.stack[s.stack.len() - 2] == a,
        s.stack.last() == b,
    ensures
        op_effect(s, Operation::Add) == Some(
            (VmSnap { stack: s.stack.drop_last().drop_last().push((((a + b) % 0x1_0000_0000) as u32)), ..s }),
        ),
        op_effect(s, Operation::Sub) == Some(
            (VmSnap { stack: s.stack.drop_last().drop_last().push((((a - b) % 0x1_0000_0000) as u32)), ..s }),
        ),
        op_effect(s, Operation::Mul) == Some(
            (VmSnap { stack: s.stack.drop_last().drop_last().push((((a * b) % 0x1_0000_0000) as u32)), ..s }),
        ),
        op_effect(s, Operation::Div) == Some(
            (VmSnap { stack: s.stack.drop_last().drop_last().push((if b == 0 { 0u32 } else { (a / b) as u32 })), ..s }),
        ),
        op_effect(s, Operation::Mod) == Some(
            (VmSnap { stack: s.stack.drop_last().drop_last().push((if b == 0 { 0u32 } else { (a % b) as u32 })), ..s }),
        ),
{
}

/// A valid `Get(d)` grows the stack by exactly one word, the copy of the
/// word at depth `d`; a `Put` right after it shrinks it back, so the pair
/// leaves the stack length unchanged; and `Get(d)` followed by `Put(d)`
/// writes the copy back where it came from, restoring the state exactly.
pub proof fn lemma_get_put(s: VmSnap, d: u32, d2: u32)
    requires
        d < s.stack.len(),
    ensures
        op_effect(s, Operation::Get(d)).unwrap().stack.len() == s.stack.len() + 1,
        op_effect(s, Operation::Get(d)).unwrap().stack.last()
            == s.stack[s.stack.len() - 1 - d],
        d2 < s.stack.len() ==> op_effect(
            op_effect(s, Operation::Get(d)).unwrap(),
            Operation::Put(d2),
        ).unwrap().stack.len() == s.stack.len(),
        op_effect(op_effect(s, Operation::Get(d)).unwrap(), Operation::Put(d))
            == Some(s),
{
    let s1 = op_effect(s, Operation::Get(d)).unwrap();
    assert(s1.stack.drop_last() =~= s.stack);
    if d2 < s.stack.len() {
        let s2 = op_effect(s1, Operation::Put(d2)).unwrap();
        assert(s2.stack.len() == s.stack.len());
    }
    let s3 = op_effect(s1, Operation::Put(d)).unwrap();
    assert(s3.stack =~= s.stack);
    assert(s3 =~= s);
}

/// A conditional jump lands exactly on the encoded target: after the
/// uniform program counter increment of the fetch loop, `JumpIfNot(t)`
/// taken on a zero top word leaves the counter at `t`, so the instruction
/// at `t` executes next; not taken, execution falls through to the next
/// instruction. There is no off-by-one drift.
pub proof fn lemma_jump_if_not_exact(s: VmSnap, target: u32, ops: Seq<Operation>)
    requires
        s.fid != SENTINEL,
        s.fid < s.functions.len(),
        s.functions[s.fid as int].body == FunctionBodyView::Code(ops),
        s.pc < ops.len(),
        ops[s.pc as int] == Operation::JumpIfNot(target),
        s.stack.len() > 0,
    ensures
        s.stack.last() == 0 ==> machine_step(s) == StepSpec::Continue(
            (VmSnap { pc: target, stack: s.stack.drop_last(), ..s }),
        ),
        s.stack.last() != 0 ==> machine_step(s) == StepSpec::Continue(
            (VmSnap { pc: s.pc.wrapping_add(1), stack: s.stack.drop_last(), ..s }),
        ),
{
}

/// An unguarded `Jump(0)` as the first instruction loops forever: the
/// machine re-enters the same state after every step, so no number of
/// steps exits, faults, or reaches anything else.
pub proof fn lemma_jump_zero_loops(s: VmSnap, ops: Seq<Operation>, n: nat)
    requires
        s.fid != SENTINEL,
        s.fid < s.functions.len(),
        s.functions[s.fid as int].body == FunctionBodyView::Code(ops),
        s.pc == 0,
        ops.len() > 0,
        ops[0] == Operation::Jump(0),
    ensures
        steps_to(s, n) == Some(s),
    decreases n,
{
    assert(machine_step(s) == StepSpec::Continue(s)) by {
        let s2 = op_effect(s, ops[0]).unwrap();
        assert(s2.pc == 0u32.wrapping_sub(1));
        assert(s2.pc.wrapping_add(1) == 0);
        assert((VmSnap { pc: s2.pc.wrapping_add(1), ..s2 }) =~= s);
    }
    if n > 0 {
        lemma_jump_zero_loops(s, ops, (n - 1) as nat);
    }
}

/// Allocation is a bump: `Allocate(n1)` immediately followed by
/// `Allocate(n2)` pushes two base addresses exactly `n1` apart, and each
/// allocation extends the heap with that many zero words.
pub proof fn lemma_allocate_addresses(s: VmSnap, n1: u32, n2: u32)
    requires
        s.heap.len() + n1 <= u32::MAX,
    ensures
        op_effect(s, Operation::Allocate(n1)).unwrap().stack.last() == s.heap.len(),
        op_effect(
            op_effect(s, Operation::Allocate(n1)).unwrap(),
            Operation::Allocate(n2),
        ).unwrap().stack.last() == s.heap.len() + n1,
        op_effect(s, Operation::Allocate(n1)).unwrap().heap
            == s.heap + Seq::new(n1 as nat, |i: int| 0u32),
{
    let s1 = op_effect(s, Operation::Allocate(n1)).unwrap();
    assert(s1.heap.len() == s.heap.len() + n1);
}

/// `Store` then `Load` at the same in-range address round-trips the
/// written word: the load pushes exactly the word the store consumed.
pub proof fn lemma_store_load_round_trip(s: VmSnap, address: u32)
    requires
        s.stack.len() > 0,
        address < s.heap.len(),
    ensures
        op_effect(s, Operation::Store(address)).unwrap().heap[address as int]
            == s.stack.last(),
        op_effect(
            op_effect(s, Operation::Store(address)).unwrap(),
            Operation::Load(address),
        ).unwrap().stack == s.stack.drop_last().push(s.stack.last()),
{
}

/// Step counts compose: running `n1` steps and then `n2` more is running
/// `n1 + n2` steps.
pub proof fn lemma_steps_to_trans(s: VmSnap, t: VmSnap, n1: nat, n2: nat)
    requires
        steps_to(s, n1) == Some(t),
    ensures
        steps_to(s, n1 + n2) == steps_to(t, n2),
    decreases n2,
{
    if n2 > 0 {
        lemma_steps_to_trans(s, t, n1, (n2 - 1) as nat);
    }
}

/// A run of `Push` instructions appends exactly the pushed words, one
/// step per word, advancing the program counter across the run.
pub proof fn lemma_push_run(s: VmSnap, ops: Seq<Operation>, ws: Seq<u32>)
    requires
        s.fid != SENTINEL,
        s.fid < s.functions.len(),
        s.functions[s.fid as int].body == FunctionBodyView::Code(ops),
        s.pc + ws.len() <= ops.len(),
        s.pc + ws.len() <= u32::MAX,
        forall|i: int| 0 <= i < ws.len() ==> ops[s.pc + i] == Operation::Push(ws[i]),
    ensures
        steps_to(s, ws.len()) == Some(
            (VmSnap { pc: (s.pc + ws.len()) as u32, stack: s.stack + ws, ..s }),
        ),
    decreases ws.len(),
{
    if ws.len() == 0 {
        assert((VmSnap { pc: (s.pc + 0) as u32, stack: s.stack + ws, ..s }) =~= s);
    } else {
        assert(ops[s.pc as int] == Operation::Push(ws[0]));
        let s1 = VmSnap { pc: (s.pc + 1) as u32, stack: s.stack.push(ws[0]), ..s };
        assert(machine_step(s) == StepSpec::Continue(s1));
        assert(forall|i: int| 0 <= i < ws.drop_first().len()
            ==> ops[s1.pc + i] == Operation::Push(#[trigger] ws.drop_first()[i]));
        lemma_push_run(s1, ops, ws.drop_first());
        assert(steps_to(s, 0nat) == Some(s));
        assert(steps_to(s, 1) == Some(s1));
        lemma_steps_to_trans(s, s1, 1, (ws.len() - 1) as nat);
        assert(s1.stack + ws.drop_first() =~= s.stack + ws);
        assert(steps_to(s, 1) == Some(s1));
        assert(steps_to(s, ws.len()) == steps_to(s1, (ws.len() - 1) as nat));
    }
}

/// A run of `Pop` instructions discards exactly that many words, one step
/// per word, advancing the program counter across the run.
pub proof fn lemma_pop_run(s: VmSnap, ops: Seq<Operation>, k: nat)
    requires
        s.fid != SENTINEL,
        s.fid < s.functions.len(),
        s.functions[s.fid as int].body == FunctionBodyView::Code(ops),
        s.pc + k <= ops.len(),
        s.pc + k <= u32::MAX,
        k <= s.stack.len(),
        forall|i: int| 0 <= i < k ==> #[trigger] ops[s.pc + i] == Operation::Pop,
    ensures
        steps_to(s, k) == Some(
            (VmSnap {
                pc: (s.pc + k) as u32,
                stack: s.stack.take(s.stack.len() - k),
                ..s
            }),
        ),
    decreases k,
{
    if k == 0 {
        assert(s.stack.take(s.stack.len() as int) =~= s.stack);
        assert((VmSnap { pc: (s.pc + 0) as u32, stack: s.stack.take(s.stack.len() - 0), ..s })
            =~= s);
    } else {
        assert(ops[s.pc as int] == Operation::Pop);
        let s1 = VmSnap { pc: (s.pc + 1) as u32, stack: s.stack.drop_last(), ..s };
        assert(machine_step(s) == StepSpec::Continue(s1));
        assert(forall|i: int| 0 <= i < k - 1 ==> #[trigger] ops[s1.pc + i] == ops[s.pc + (i + 1)]);
        lemma_pop_run(s1, ops, (k - 1) as nat);
        assert(steps_to(s, 0nat) == Some(s));
        assert(steps_to(s, 1) == Some(s1));
        lemma_steps_to_trans(s, s1, 1, (k - 1) as nat);
        assert(s1.stack.take(s1.stack.len() - (k - 1)) =~= s.stack.take(s.stack.len() - k));
        assert(steps_to(s, 1) == Some(s1));
    }
}

/// Does any entry of the table carry the name "main"?
pub open spec fn has_main(fns: Seq<FunctionView>) -> bool {
    exists|i: int| 0 <= i < fns.len() && fns[i].name == "main"@
}

/// The position of the first entry named "main"; meaningful under `has_main`.
pub open spec fn first_main(fns: Seq<FunctionView>) -> int
    decreases fns.len(),
{
    if fns.len() == 0 {
        0
    } else if fns[0].name == "main"@ {
        0
    } else {
        1 + first_main(fns.drop_first())
    }
}

/// The initial activation: the first entry named "main", else entry 0.
pub open spec fn main_index(fns: Seq<FunctionView>) -> int {
    if has_main(fns) {
        first_main(fns)
    } else {
        0
    }
}

proof fn lemma_first_main(fns: Seq<FunctionView>, i: int)
    requires
        0 <= i < fns.len(),
        fns[i].name == "main"@,
        forall|j: int| 0 <= j < i ==> fns[j].name != "main"@,
    ensures
        has_main(fns),
        first_main(fns) == i,
    decreases i,
{
    assert(has_main(fns));
    if i == 0 {
    } else {
        lemma_first_main(fns.drop_first(), i - 1);
    }
}

/// The machine: function table, operand stack, bump heap, and the cursor.
pub struct VirtualMachine {
    function_id: u32,
    program_counter: u32,
    functions: Vec<Function>,
    stack: Vec<u32>,
    heap: Vec<u32>,
}

impl View for VirtualMachine {
    type V = VmSnap;

    closed spec fn view(&self) -> VmSnap {
        VmSnap {
            fid: self.function_id,
            pc: self.program_counter,
            functions: self.functions@.map_values(|f: Function| f@),
            stack: self.stack@,
            heap: self.heap@,
        }
    }
}

impl VirtualMachine {
    /// Build a machine over a function table. The initial activation is the
    /// function named "main", falling back to index 0; the stack is seeded
    /// with two zero control words and the sentinel caller identity, so that
    /// a top-level return ends execution.
    pub fn from_functions(functions: Vec<Function>) -> (r: Self)
        requires
            functions@.len() <= u32::MAX,
        ensures
            r@.functions == functions@.map_values(|f: Function| f@),
            r@.fid == main_index(r@.functions),
            r@.pc == 0,
            r@.stack == seq![0u32, 0u32, SENTINEL],
            r@.heap == Seq::<u32>::empty(),
    {
        let ghost fns_view = functions@.map_values(|f: Function| f@);
        let needle: String = "main".to_owned();
        let mut main_index: u32 = 0;
        let mut i: usize = 0;
        let mut found = false;
        while i < functions.len() && !found
            invariant
                functions@.len() <= u32::MAX,
                fns_view == functions@.map_values(|f: Function| f@),
                needle@ == "main"@,
                0 <= i <= functions.len(),
                !found ==> forall|j: int| 0 <= j < i ==> fns_view[j].name != "main"@,
                !found ==> main_index == 0,
                found ==> i < functions.len() && main_index == i
                    && fns_view[i as int].name == "main"@
                    && (forall|j: int| 0 <= j < i ==> fns_view[j].name != "main"@),
            decreases functions@.len() - i + (if found { 0int } else { 1int }),
        {
            if functions[i].name == needle {
                found = true;
                main_index = i as u32;
            } else {
                i = i + 1;
            }
        }
        proof {
            if found {
                lemma_first_main(fns_view, i as int);
            } else {
                assert(!has_main(fns_view));
            }
        }
        let mut stack: Vec<u32> = Vec::new();
        stack.push(0);
        stack.push(0);
        stack.push(SENTINEL);
        proof {
            assert(stack@ =~= seq![0u32, 0u32, SENTINEL]);
        }
        Self {
            function_id: main_index,
            program_counter: 0,
            functions,
            stack,
            heap: Vec::new(),
        }
    }

    /// One iteration of the fetch-decode-execute loop. `None` means an
    /// instruction was executed; `Some` reports why nothing more can run,
    /// with the state left exactly as it was.
    fn step(&mut self) -> (r: Option<RunOutcome>)
        ensures
            match r {
                Option::None => machine_step(old(self)@) == StepSpec::Continue(final(self)@),
                Option::Some(o) => final(self)@ == old(self)@ && match o {
                    RunOutcome::Exit(v) => machine_step(old(self)@) == StepSpec::Exit(v),
                    RunOutcome::Fault => machine_step(old(self)@) == StepSpec::Fault,
                    RunOutcome::PendingBuiltin(f) => machine_step(old(self)@) == StepSpec::Builtin(f),
                    RunOutcome::Exhausted => false,
                },
            },
    {
        if self.function_id == SENTINEL {
            let v = if self.stack.len() > 0 {
                self.stack[self.stack.len() - 1]
            } else {
                SENTINEL
            };
            return Some(RunOutcome::Exit(v));
        }
        if self.function_id as usize >= self.functions.len() {
            return Some(RunOutcome::Fault);
        }
        let op: Operation;
        match &self.functions[self.function_id as usize].implementation {
            FunctionData::Builtin => {
                return Some(RunOutcome::PendingBuiltin(self.function_id));
            },
            FunctionData::Code(operations) => {
                if self.program_counter as usize >= operations.len() {
                    return Some(RunOutcome::Fault);
                }
                op = operations[self.program_counter as usize];
            },
        }
        match op {
            Operation::Push(n) => {
                self.stack.push(n);
            },
            Operation::Pop => {
                self.stack.pop();
            },
            Operation::Get(depth) => {
                if depth as usize >= self.stack.len() {
                    return Some(RunOutcome::Fault);
                }
                let n = self.stack[self.stack.len() - 1 - depth as usize];
                self.stack.push(n);
            },
            Operation::Put(depth) => {
                if self.stack.len() == 0 || depth as usize >= self.stack.len() - 1 {
                    return Some(RunOutcome::Fault);
                }
                let v = self.stack.pop().unwrap();
                let index = self.stack.len() - 1 - depth as usize;
                self.stack[index] = v;
            },
            Operation::Store(address) => {
                if self.stack.len() == 0 || address as usize >= self.heap.len() {
                    return Some(RunOutcome::Fault);
                }
                let v = self.stack.pop().unwrap();
                self.heap[address as usize] = v;
            },
            Operation::Load(address) => {
                if address as usize >= self.heap.len() {
                    return Some(RunOutcome::Fault);
                }
                let n = self.heap[address as usize];
                self.stack.push(n);
            },
            Operation::Allocate(size) => {
                let modulus: u64 = 0x1_0000_0000;
                let base = (self.heap.len() as u64 % modulus) as u32;
                self.stack.push(base);
                Self::push_zeros(&mut self.heap, size);
            },
            Operation::Free(_address) => {
                if self.stack.len() == 0 {
                    return Some(RunOutcome::Fault);
                }
                self.stack.pop().unwrap();
                // no reclamation: the heap is a bump region
            },
            Operation::Call(function_id) => {
                self.stack.push(self.program_counter);
                self.stack.push(self.function_id);
                self.function_id = function_id;
                self.program_counter = SENTINEL;
            },
            Operation::CallFnPointer => {
                if self.stack.len() == 0 {
                    return Some(RunOutcome::Fault);
                }
                let function_id = self.stack.pop().unwrap();
                self.stack.push(self.program_counter);
                self.stack.push(self.function_id);
                self.function_id = function_id;
                self.program_counter = SENTINEL;
            },
            Operation::Return => {
                if self.stack.len() < 2 {
                    return Some(RunOutcome::Fault);
                }
                self.function_id = self.stack.pop().unwrap();
                self.program_counter = self.stack.pop().unwrap();
            },
            Operation::AddImmediate(i) => {
                if self.stack.len() == 0 {
                    return Some(RunOutcome::Fault);
                }
                let b = self.stack.pop().unwrap();
                self.stack.push(b.wrapping_add(i));
            },
            Operation::Add => {
                if self.stack.len() < 2 {
                    return Some(RunOutcome::Fault);
                }
                let b = self.stack.pop().unwrap();
                let a = self.stack.pop().unwrap();
                self.stack.push(a.wrapping_add(b));
            },
            Operation::SubImmediate(i) => {
                if self.stack.len() == 0 {
                    return Some(RunOutcome::Fault);
                }
                let b = self.stack.pop().unwrap();
                self.stack.push(b.wrapping_sub(i));
            },
            Operation::SubImmediateBy(i) => {
                if self.stack.len() == 0 {
                    return Some(RunOutcome::Fault);
                }
                let b = self.stack.pop().unwrap();
                self.stack.push(i.wrapping_sub(b));
            },
            Operation::Sub => {
                if self.stack.len() < 2 {
                    return Some(RunOutcome::Fault);
                }
                let b = self.stack.pop().unwrap();
                let a = self.stack.pop().unwrap();
                self.stack.push(a.wrapping_sub(b));
            },
            Operation::MulImmediate(i) => {
                if self.stack.len() == 0 {
                    return Some(RunOutcome::Fault);
                }
                let b = self.stack.pop().unwrap();
                self.stack.push(b.wrapping_mul(i));
            },
            Operation::Mul => {
                if self.stack.len() < 2 {
                    return Some(RunOutcome::Fault);
                }
                let b = self.stack.pop().unwrap();
                let a = self.stack.pop().unwrap();
                self.stack.push(a.wrapping_mul(b));
            },
            Operation::DivImmediate(i) => {
                if self.stack.len() == 0 {
                    return Some(RunOutcome::Fault);
                }
                let b = self.stack.pop().unwrap();
                self.stack.push(if i != 0 { b / i } else { 0 });
            },
            Operation::DivImmediateBy(i) => {
                if self.stack.len() == 0 {
                    return Some(RunOutcome::Fault);
                }
                let b = self.stack.pop().unwrap();
                self.stack.push(if b != 0 { i / b } else { 0 });
            },
            Operation::Div => {
                if self.stack.len() < 2 {
                    return Some(RunOutcome::Fault);
                }
                let b = self.stack.pop().unwrap();
                let a = self.stack.pop().unwrap();
                self.stack.push(if b != 0 { a / b } else { 0 });
            },
            Operation::ModImmediate(i) => {
                if self.stack.len() == 0 {
                    return Some(RunOutcome::Fault);
                }
                let b = self.stack.pop().unwrap();
                self.stack.push(if i != 0 { b % i } else { 0 });
            },
            Operation::ModImmediateBy(i) => {
                if self.stack.len() == 0 {
                    return Some(RunOutcome::Fault);
                }
                let b = self.stack.pop().unwrap();
                self.stack.push(if b != 0 { i % b } else { 0 });
            },
            Operation::Mod => {
                if self.stack.len() < 2 {
                    return Some(RunOutcome::Fault);
                }
                let b = self.stack.pop().unwrap();
                let a = self.stack.pop().unwrap();
                self.stack.push(if b != 0 { a % b } else { 0 });
            },
            Operation::Jump(location) => {
                self.program_counter = location.wrapping_sub(1);
            },
            Operation::JumpIf(location) => {
                if self.stack.len() == 0 {
                    return Some(RunOutcome::Fault);
                }
                let c = self.stack.pop().unwrap();
                if c != 0 {
                    self.program_counter = location.wrapping_sub(1);
                }
            },
            Operation::JumpIfNot(location) => {
                if self.stack.len() == 0 {
                    return Some(RunOutcome::Fault);
                }
                let c = self.stack.pop().unwrap();
                if c == 0 {
                    self.program_counter = location.wrapping_sub(1);
                }
            },
            Operation::Goto => {
                if self.stack.len() == 0 {
                    return Some(RunOutcome::Fault);
                }
                let location = self.stack.pop().unwrap();
                self.program_counter = location.wrapping_sub(1);
            },
            Operation::GotoIf => {
                if self.stack.len() < 2 {
                    return Some(RunOutcome::Fault);
                }
                let location = self.stack.pop().unwrap();
                let c = self.stack.pop().unwrap();
                if c != 0 {
                    self.program_counter = location.wrapping_sub(1);
                }
            },
            Operation::GotoIfNot => {
                if self.stack.len() < 2 {
                    return Some(RunOutcome::Fault);
                }
                let location = self.stack.pop().unwrap();
                let c = self.stack.pop().unwrap();
                if c == 0 {
                    self.program_counter = location.wrapping_sub(1);
                }
            },
        }
        self.program_counter = self.program_counter.wrapping_add(1);
        None
    }

    /// Append `size` zero words to the heap region.
    fn push_zeros(heap: &mut Vec<u32>, size: u32)
        ensures
            final(heap)@ == old(heap)@ + Seq::new(size as nat, |i: int| 0u32),
    {
        let mut k: u32 = 0;
        while k < size
            invariant
                k <= size,
                heap@ == old(heap)@ + Seq::new(k as nat, |i: int| 0u32),
            decreases size - k,
        {
            heap.push(0);
            k = k + 1;
            proof {
                assert(heap@ =~= old(heap)@ + Seq::new(k as nat, |i: int| 0u32));
            }
        }
        proof {
            assert(heap@ =~= old(heap)@ + Seq::new(size as nat, |i: int| 0u32));
        }
    }

    /// Run until execution is over, faults, reaches a host-provided routine,
    /// or `budget` instructions have been executed. The final state is
    /// reachable from the starting one by the machine semantics, and the
    /// outcome is exactly what `machine_step` says of that final state.
    pub fn run(&mut self, budget: u64) -> (r: RunOutcome)
        ensures
            exists|n: nat| n <= budget && steps_to(old(self)@, n) == Some(final(self)@),
            match r {
                RunOutcome::Exit(v) => machine_step(final(self)@) == StepSpec::Exit(v),
                RunOutcome::Fault => machine_step(final(self)@) == StepSpec::Fault,
                RunOutcome::PendingBuiltin(f) => machine_step(final(self)@) == StepSpec::Builtin(f),
                RunOutcome::Exhausted => steps_to(old(self)@, budget as nat)
                    == Some(final(self)@),
            },
    {
        let ghost init = self@;
        let mut k: u64 = 0;
        while k < budget
            invariant
                init == old(self)@,
                k <= budget,
                steps_to(init, k as nat) == Some(self@),
            decreases budget - k,
        {
            let ghost pre = self@;
            match self.step() {
                Option::None => {
                    k = k + 1;
                    proof {
                        assert(steps_to(init, k as nat) == Some(self@));
                    }
                },
                Option::Some(outcome) => {
                    proof {
                        assert(steps_to(old(self)@, k as nat) == Some(self@));
                    }
                    return outcome;
                },
            }
        }
        proof {
            assert(steps_to(old(self)@, budget as nat) == Some(self@));
        }
        RunOutcome::Exhausted
    }

    /// The synthesized return after a host-provided routine: pop the saved
    /// caller identity and program counter and resume the caller. Returns
    /// false, changing nothing, if the two control words are missing.
    pub fn finish_builtin(&mut self) -> (r: bool)
        ensures
            old(self)@.stack.len() >= 2 ==> r && final(self)@ == (VmSnap {
                fid: old(self)@.stack.last(),
                pc: old(self)@.stack[old(self)@.stack.len() - 2].wrapping_add(1),
                stack: old(self)@.stack.drop_last().drop_last(),
                ..old(self)@
            }),
            old(self)@.stack.len() < 2 ==> !r && final(self)@ == old(self)@,
    {
        if self.stack.len() < 2 {
            return false;
        }
        self.function_id = self.stack.pop().unwrap();
        self.program_counter = self.stack.pop().unwrap();
        self.program_counter = self.program_counter.wrapping_add(1);
        true
    }

    /// Push one word; for host-provided routines working on the stack.
    pub fn stack_push(&mut self, value: u32)
        ensures
            final(self)@ == (VmSnap { stack: old(self)@.stack.push(value), ..old(self)@ }),
    {
        self.stack.push(value);
    }

    /// Pop one word, if any; for host-provided routines working on the stack.
    pub fn stack_pop(&mut self) -> (r: Option<u32>)
        ensures
            old(self)@.stack.len() > 0 ==> r == Some(old(self)@.stack.last())
                && final(self)@ == (VmSnap { stack: old(self)@.stack.drop_last(), ..old(self)@ }),
            old(self)@.stack.len() == 0 ==> r.is_none() && final(self)@ == old(self)@,
    {
        self.stack.pop()
    }

    /// Read a heap word; for host-provided routines.
    pub fn heap_read(&self, address: u32) -> (r: Option<u32>)
        ensures
            address < self@.heap.len() ==> r == Some(self@.heap[address as int]),
            address >= self@.heap.len() ==> r.is_none(),
    {
        if (address as usize) < self.heap.len() {
            Some(self.heap[address as usize])
        } else {
            None
        }
    }

    /// Overwrite a heap word; for host-provided routines. Returns false,
    /// changing nothing, if the address is out of range.
    pub fn heap_write(&mut self, address: u32, value: u32) -> (r: bool)
        ensures
            address < old(self)@.heap.len() ==> r && final(self)@ == (VmSnap {
                heap: old(self)@.heap.update(address as int, value),
                ..old(self)@
            }),
            address >= old(self)@.heap.len() ==> !r && final(self)@ == old(self)@,
    {
        if (address as usize) < self.heap.len() {
            self.heap[address as usize] = value;
            true
        } else {
            false
        }
    }
}

} // verus!

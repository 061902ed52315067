//! The bytecode compiler: one operation sequence per declared function.
//!
//! Per function the compiler keeps an ordered list of optional local slot
//! names that mirrors, slot for slot, the words the machine will hold above
//! the two reserved control words at that point of execution. The whole
//! lowering is written down as spec functions (`compile_expr_spec` and
//! friends); the executable compiler is proved to emit exactly those
//! operations.

use vstd::prelude::*;
use crate::ast::{Declaration, Expression, Statement, Type};
use crate::virtual_machine::{
    lemma_pop_run, lemma_push_run, lemma_steps_to_trans, machine_step, main_index, steps_to,
    Function, FunctionBodyView, FunctionView, Operation, StepSpec, VirtualMachine, VmSnap,
    SENTINEL,
};

verus! {

/// The machine word size of a value of this type: one word for every type
/// of the surface language.
pub open spec fn size_of_spec(t: Type) -> u32 {
    match t {
        Type::Fun(_, _) => 1u32,
        Type::U32 => 1u32,
    }
}

/// The name of a declaration.
pub open spec fn decl_name(d: Declaration) -> String {
    match d {
        Declaration::Function { name, .. } => name,
    }
}

/// The parameter list of a declaration.
pub open spec fn decl_args(d: Declaration) -> Seq<(String, Type)> {
    match d {
        Declaration::Function { arguments, .. } => arguments@,
    }
}

/// The statement list of a declaration.
pub open spec fn decl_body(d: Declaration) -> Seq<Statement> {
    match d {
        Declaration::Function { body, .. } => body@,
    }
}

/// Remove the most recent bookkeeping slot, if any; like the slot list
/// itself, removal on an empty list does nothing.
pub open spec fn pop_slot(slots: Seq<Option<String>>) -> Seq<Option<String>> {
    if slots.len() > 0 {
        slots.drop_last()
    } else {
        slots
    }
}

/// Re-label the most recent bookkeeping slot with a binding's name; with
/// no slot to label, nothing happens.
pub open spec fn relabel_last(slots: Seq<Option<String>>, name: String) -> Seq<Option<String>> {
    if slots.len() > 0 {
        slots.update(slots.len() - 1, Some(name))
    } else {
        slots
    }
}

/// The depth of the most recent slot carrying `name`, counted from the
/// end: the newest matching binding shadows older ones.
pub open spec fn resolve_local(slots: Seq<Option<String>>, name: Seq<char>) -> Option<int>
    decreases slots.len(),
{
    if slots.len() == 0 {
        None
    } else if slots.last() matches Some(s) && s@ == name {
        Some(0)
    } else {
        match resolve_local(slots.drop_last(), name) {
            Some(i) => Some(i + 1),
            None => None,
        }
    }
}

/// The position of `name` in the parameter list, counted from the end.
pub open spec fn resolve_argument(args: Seq<(String, Type)>, name: Seq<char>) -> Option<int>
    decreases args.len(),
{
    if args.len() == 0 {
        None
    } else if args.last().0@ == name {
        Some(0)
    } else {
        match resolve_argument(args.drop_last(), name) {
            Some(i) => Some(i + 1),
            None => None,
        }
    }
}

/// A variable reference resolves to a stack depth: declared locals are
/// searched newest first; a parameter's depth is its position from the end
/// of the parameter list, past all current slots and the two reserved
/// control words.
pub open spec fn resolve_variable(
    slots: Seq<Option<String>>,
    args: Seq<(String, Type)>,
    name: Seq<char>,
) -> Option<int> {
    match resolve_local(slots, name) {
        Some(i) => Some(i),
        None => match resolve_argument(args, name) {
            Some(i) => Some(i + slots.len() + 2),
            None => None,
        },
    }
}

/// The first position of `name` in the declared function list.
pub open spec fn position_of(names: Seq<String>, name: Seq<char>) -> Option<int>
    decreases names.len(),
{
    if names.len() == 0 {
        None
    } else if names[0]@ == name {
        Some(0)
    } else {
        match position_of(names.drop_first(), name) {
            Some(i) => Some(1 + i),
            None => None,
        }
    }
}

/// What lowering one expression emits, and the slot list it leaves behind.
/// Every lowered expression pushes one net word and one net slot, except a
/// call, which leaves one slot per argument (its control transfer
/// repurposes the argument region instead of discarding it).
pub open spec fn compile_expr_spec(
    e: Expression,
    slots: Seq<Option<String>>,
    args: Seq<(String, Type)>,
    fnames: Seq<String>,
) -> (Seq<Operation>, Seq<Option<String>>)
    decreases e, 0nat,
{
    match e {
        Expression::NumLiteral(n) => (seq![Operation::Push(n)], slots.push(None)),
        Expression::Variable(name) => match resolve_variable(slots, args, name@) {
            Some(d) => (seq![Operation::Get(d as u32)], slots.push(None)),
            None => (seq![], slots),
        },
        Expression::Add(a, b) => compile_binary_spec(
            compile_expr_spec(*a, slots, args, fnames),
            *b,
            args,
            fnames,
            Operation::Add,
        ),
        Expression::Sub(a, b) => compile_binary_spec(
            compile_expr_spec(*a, slots, args, fnames),
            *b,
            args,
            fnames,
            Operation::Sub,
        ),
        Expression::Mul(a, b) => compile_binary_spec(
            compile_expr_spec(*a, slots, args, fnames),
            *b,
            args,
            fnames,
            Operation::Mul,
        ),
        Expression::Div(a, b) => compile_binary_spec(
            compile_expr_spec(*a, slots, args, fnames),
            *b,
            args,
            fnames,
            Operation::Div,
        ),
        Expression::Mod(a, b) => compile_binary_spec(
            compile_expr_spec(*a, slots, args, fnames),
            *b,
            args,
            fnames,
            Operation::Mod,
        ),
        Expression::Call(fname, exprs) => {
            let lowered = compile_exprs_spec(exprs@, slots, args, fnames);
            match position_of(fnames, fname@) {
                Some(i) => (lowered.0 + seq![Operation::Call(i as u32)], lowered.1),
                None => lowered,
            }
        },
    }
}

/// Lower the second operand from where the first left off, emit the
/// operation, and collapse the two operand slots into one.
pub open spec fn compile_binary_spec(
    lowered_a: (Seq<Operation>, Seq<Option<String>>),
    b: Expression,
    args: Seq<(String, Type)>,
    fnames: Seq<String>,
    op: Operation,
) -> (Seq<Operation>, Seq<Option<String>>)
    decreases b, 1nat,
{
    let lowered_b = compile_expr_spec(b, lowered_a.1, args, fnames);
    (lowered_a.0 + lowered_b.0 + seq![op], pop_slot(lowered_b.1))
}

/// Lower a list of argument expressions in declaration order, each from
/// where the previous one left off.
pub open spec fn compile_exprs_spec(
    es: Seq<Expression>,
    slots: Seq<Option<String>>,
    args: Seq<(String, Type)>,
    fnames: Seq<String>,
) -> (Seq<Operation>, Seq<Option<String>>)
    decreases es,
{
    if es.len() == 0 {
        (Seq::empty(), slots)
    } else {
        let first = compile_exprs_spec(es.drop_last(), slots, args, fnames);
        let last = compile_expr_spec(es.last(), first.1, args, fnames);
        (first.0 + last.0, last.1)
    }
}

/// What lowering one statement emits, and the slot list it leaves behind.
pub open spec fn compile_stmt_spec(
    st: Statement,
    slots: Seq<Option<String>>,
    args: Seq<(String, Type)>,
    fnames: Seq<String>,
) -> (Seq<Operation>, Seq<Option<String>>)
    decreases st,
{
    match st {
        Statement::Let(name, _var_type, e) => {
            // the initializer is lowered in the scope as at entry; the one
            // slot it leaves is then re-labelled with the binding's name
            let lowered = compile_expr_spec(e, slots, args, fnames);
            (lowered.0, relabel_last(lowered.1, name))
        },
        Statement::Expr(e) => {
            let lowered = compile_expr_spec(e, slots, args, fnames);
            (lowered.0 + seq![Operation::Pop], pop_slot(lowered.1))
        },
        Statement::Return(e) => {
            let lowered = compile_expr_spec(e, slots, args, fnames);
            let remaining = pop_slot(lowered.1);
            (
                lowered.0 + seq![Operation::Put((remaining.len() + 2) as u32)]
                    + Seq::new(remaining.len(), |i: int| Operation::Pop)
                    + seq![Operation::Return],
                remaining,
            )
        },
    }
}

/// What lowering a whole body emits, statement after statement, starting
/// from an empty slot list.
pub open spec fn compile_body_spec(
    sts: Seq<Statement>,
    args: Seq<(String, Type)>,
    fnames: Seq<String>,
) -> (Seq<Operation>, Seq<Option<String>>)
    decreases sts,
{
    if sts.len() == 0 {
        (Seq::empty(), Seq::empty())
    } else {
        let first = compile_body_spec(sts.drop_last(), args, fnames);
        let last = compile_stmt_spec(sts.last(), first.1, args, fnames);
        (first.0 + last.0, last.1)
    }
}

/// A lowered expression is well formed when every variable reference
/// resolves to a depth that fits in an operand, and every called name is
/// declared at a position that fits. Resolution is judged against the slot
/// list exactly as lowering threads it.
pub open spec fn expr_wf(
    e: Expression,
    slots: Seq<Option<String>>,
    args: Seq<(String, Type)>,
    fnames: Seq<String>,
) -> bool
    decreases e, 0nat,
{
    match e {
        Expression::NumLiteral(_) => true,
        Expression::Variable(name) => resolve_variable(slots, args, name@) matches Some(d)
            && d <= u32::MAX,
        Expression::Add(a, b) => expr_wf(*a, slots, args, fnames) && binary_rhs_wf(
            *b,
            compile_expr_spec(*a, slots, args, fnames).1,
            args,
            fnames,
        ),
        Expression::Sub(a, b) => expr_wf(*a, slots, args, fnames) && binary_rhs_wf(
            *b,
            compile_expr_spec(*a, slots, args, fnames).1,
            args,
            fnames,
        ),
        Expression::Mul(a, b) => expr_wf(*a, slots, args, fnames) && binary_rhs_wf(
            *b,
            compile_expr_spec(*a, slots, args, fnames).1,
            args,
            fnames,
        ),
        Expression::Div(a, b) => expr_wf(*a, slots, args, fnames) && binary_rhs_wf(
            *b,
            compile_expr_spec(*a, slots, args, fnames).1,
            args,
            fnames,
        ),
        Expression::Mod(a, b) => expr_wf(*a, slots, args, fnames) && binary_rhs_wf(
            *b,
            compile_expr_spec(*a, slots, args, fnames).1,
            args,
            fnames,
        ),
        Expression::Call(fname, exprs) => exprs_wf(exprs@, slots, args, fnames)
            && (position_of(fnames, fname@) matches Some(i) && i <= u32::MAX),
    }
}

/// Well-formedness of a right operand, judged from where the left operand
/// left the slot list.
pub open spec fn binary_rhs_wf(
    b: Expression,
    slots: Seq<Option<String>>,
    args: Seq<(String, Type)>,
    fnames: Seq<String>,
) -> bool
    decreases b, 1nat,
{
    expr_wf(b, slots, args, fnames)
}

/// Well-formedness of an argument list, each judged from where the
/// previous argument left the slot list.
pub open spec fn exprs_wf(
    es: Seq<Expression>,
    slots: Seq<Option<String>>,
    args: Seq<(String, Type)>,
    fnames: Seq<String>,
) -> bool
    decreases es,
{
    if es.len() == 0 {
        true
    } else {
        exprs_wf(es.drop_last(), slots, args, fnames) && expr_wf(
            es.last(),
            compile_exprs_spec(es.drop_last(), slots, args, fnames).1,
            args,
            fnames,
        )
    }
}

/// Well-formedness of a statement: a let carries its declared type, its
/// expression is well formed, and a return's remaining slot count fits in
/// an operand.
pub open spec fn stmt_wf(
    st: Statement,
    slots: Seq<Option<String>>,
    args: Seq<(String, Type)>,
    fnames: Seq<String>,
) -> bool {
    match st {
        Statement::Let(_name, var_type, e) => var_type.is_some() && expr_wf(
            e,
            slots,
            args,
            fnames,
        ),
        Statement::Expr(e) => expr_wf(e, slots, args, fnames),
        Statement::Return(e) => expr_wf(e, slots, args, fnames) && pop_slot(
            compile_expr_spec(e, slots, args, fnames).1,
        ).len() + 2 <= u32::MAX,
    }
}

/// Well-formedness of a body, statement after statement.
pub open spec fn body_wf(
    sts: Seq<Statement>,
    args: Seq<(String, Type)>,
    fnames: Seq<String>,
) -> bool
    decreases sts,
{
    if sts.len() == 0 {
        true
    } else {
        body_wf(sts.drop_last(), args, fnames) && stmt_wf(
            sts.last(),
            compile_body_spec(sts.drop_last(), args, fnames).1,
            args,
            fnames,
        )
    }
}

/// A declaration list the compiler accepts: it fits the function table and
/// every body is well formed against the declared names. The upstream type
/// checker is expected to have established this already.
pub open spec fn program_wf(decls: Seq<Declaration>) -> bool {
    &&& decls.len() <= u32::MAX
    &&& forall|i: int| 0 <= i < decls.len() ==> body_wf(
        decl_body(#[trigger] decls[i]),
        decl_args(decls[i]),
        program_names(decls),
    )
}

/// The declared function names, in declaration order.
pub open spec fn program_names(decls: Seq<Declaration>) -> Seq<String> {
    decls.map_values(|d: Declaration| decl_name(d))
}

/// The function table the compiler produces for a declaration list.
pub open spec fn compile_spec(decls: Seq<Declaration>) -> Seq<FunctionView> {
    Seq::new(
        decls.len(),
        |i: int| FunctionView {
            name: decl_name(decls[i])@,
            body: FunctionBodyView::Code(
                compile_body_spec(
                    decl_body(decls[i]),
                    decl_args(decls[i]),
                    program_names(decls),
                ).0,
            ),
        },
    )
}

/// The machine word size of a value of this type.
pub fn size_of(t: &Type) -> (r: u32)
    ensures
        r == size_of_spec(*t),
{
    match t {
        Type::Fun(_items, _) => 1,
        Type::U32 => 1,
    }
}

/// Search the slot list for `name`, newest slot first.
fn find_local(local_vars: &Vec<Option<String>>, name: &String) -> (r: Option<usize>)
    ensures
        match r {
            Some(i) => resolve_local(local_vars@, name@) == Some(i as int),
            None => resolve_local(local_vars@, name@) is None,
        },
{
    let ghost full = local_vars@;
    let len = local_vars.len();
    proof {
        assert(full.take(len as int) =~= full);
    }
    let mut k: usize = 0;
    while k < len
        invariant
            full == local_vars@,
            len == full.len(),
            0 <= k <= len,
            match resolve_local(full, name@) {
                Some(i) => resolve_local(full.take(len - k), name@) == Some(i - k),
                None => resolve_local(full.take(len - k), name@) is None,
            },
        decreases len - k,
    {
        let ghost before = full.take(len - k);
        proof {
            assert(before.len() == len - k);
            assert(before.drop_last() =~= full.take(len - k - 1));
            assert(before.last() == full[len - k - 1]);
        }
        let matched = match &local_vars[len - 1 - k] {
            Some(s) => *s == *name,
            None => false,
        };
        if matched {
            proof {
                assert(resolve_local(before, name@) == Some(0int));
            }
            return Some(k);
        }
        k = k + 1;
    }
    proof {
        assert(full.take(0) =~= Seq::<Option<String>>::empty());
        assert(resolve_local(full.take(0), name@) is None);
    }
    None
}

/// Search the parameter list for `name`, last parameter first.
fn find_argument(arguments: &Vec<(String, Type)>, name: &String) -> (r: Option<usize>)
    ensures
        match r {
            Some(i) => resolve_argument(arguments@, name@) == Some(i as int),
            None => resolve_argument(arguments@, name@) is None,
        },
{
    let ghost full = arguments@;
    let len = arguments.len();
    proof {
        assert(full.take(len as int) =~= full);
    }
    let mut k: usize = 0;
    while k < len
        invariant
            full == arguments@,
            len == full.len(),
            0 <= k <= len,
            match resolve_argument(full, name@) {
                Some(i) => resolve_argument(full.take(len - k), name@) == Some(i - k),
                None => resolve_argument(full.take(len - k), name@) is None,
            },
        decreases len - k,
    {
        let ghost before = full.take(len - k);
        proof {
            assert(before.len() == len - k);
            assert(before.drop_last() =~= full.take(len - k - 1));
            assert(before.last() == full[len - k - 1]);
        }
        if arguments[len - 1 - k].0 == *name {
            proof {
                assert(resolve_argument(before, name@) == Some(0int));
            }
            return Some(k);
        }
        k = k + 1;
    }
    proof {
        assert(full.take(0) =~= Seq::<(String, Type)>::empty());
    }
    None
}

/// Search the declared function names for `name`, first declaration first.
fn find_name(function_names: &Vec<String>, name: &String) -> (r: Option<usize>)
    ensures
        match r {
            Some(i) => position_of(function_names@, name@) == Some(i as int),
            None => position_of(function_names@, name@) is None,
        },
{
    let ghost full = function_names@;
    let len = function_names.len();
    proof {
        assert(full.skip(0) =~= full);
    }
    let mut k: usize = 0;
    while k < len
        invariant
            full == function_names@,
            len == full.len(),
            0 <= k <= len,
            match position_of(full, name@) {
                Some(i) => position_of(full.skip(k as int), name@) == Some(i - k),
                None => position_of(full.skip(k as int), name@) is None,
            },
        decreases len - k,
    {
        let ghost rest = full.skip(k as int);
        proof {
            assert(rest.len() == len - k);
            assert(rest.drop_first() =~= full.skip(k + 1));
            assert(rest[0] == full[k as int]);
        }
        if function_names[k] == *name {
            proof {
                assert(position_of(rest, name@) == Some(0int));
            }
            return Some(k);
        }
        k = k + 1;
    }
    proof {
        assert(full.skip(len as int) =~= Seq::<String>::empty());
    }
    None
}

/// Resolve a variable reference to its stack depth, if it resolves and
/// the depth fits in an operand.
fn resolve_depth(
    local_vars: &Vec<Option<String>>,
    arguments: &Vec<(String, Type)>,
    name: &String,
) -> (r: Option<u32>)
    ensures
        match r {
            Some(d) => resolve_variable(local_vars@, arguments@, name@) == Some(d as int),
            None => !(resolve_variable(local_vars@, arguments@, name@) matches Some(d)
                && d <= u32::MAX),
        },
{
    match find_local(local_vars, name) {
        Some(i) => {
            if i <= u32::MAX as usize {
                Some(i as u32)
            } else {
                None
            }
        },
        None => match find_argument(arguments, name) {
            Some(i) => {
                let depth: u128 = i as u128 + local_vars.len() as u128 + 2;
                if depth <= u32::MAX as u128 {
                    Some(depth as u32)
                } else {
                    None
                }
            },
            None => None,
        },
    }
}

/// Every element of a well-formed argument list is well formed against
/// the slot list its predecessors leave behind.
proof fn lemma_exprs_wf_at(
    es: Seq<Expression>,
    slots: Seq<Option<String>>,
    args: Seq<(String, Type)>,
    fnames: Seq<String>,
    j: int,
)
    requires
        exprs_wf(es, slots, args, fnames),
        0 <= j < es.len(),
    ensures
        expr_wf(es[j], compile_exprs_spec(es.take(j), slots, args, fnames).1, args, fnames),
    decreases es.len(),
{
    if j == es.len() - 1 {
        assert(es.take(j) =~= es.drop_last());
    } else {
        lemma_exprs_wf_at(es.drop_last(), slots, args, fnames, j);
        assert(es.drop_last().take(j) =~= es.take(j));
    }
}

/// Lower one expression onto the end of `operations`, keeping the slot
/// list in step. Fails, possibly mid-way, exactly when the expression is
/// not well formed against the current slot list.
fn compile_expression(
    expression: &Expression,
    operations: &mut Vec<Operation>,
    local_vars: &mut Vec<Option<String>>,
    arguments: &Vec<(String, Type)>,
    function_names: &Vec<String>,
) -> (ok: bool)
    ensures
        ok == expr_wf(*expression, old(local_vars)@, arguments@, function_names@),
        ok ==> final(operations)@ == old(operations)@
            + compile_expr_spec(*expression, old(local_vars)@, arguments@, function_names@).0,
        ok ==> final(local_vars)@
            == compile_expr_spec(*expression, old(local_vars)@, arguments@, function_names@).1,
    decreases *expression,
{
    let ghost slots0 = local_vars@;
    let ghost ops0 = operations@;
    match expression {
        Expression::NumLiteral(n) => {
            operations.push(Operation::Push(*n));
            local_vars.push(None);
            proof {
                assert(operations@ =~= ops0 + seq![Operation::Push(*n)]);
            }
            true
        },
        Expression::Variable(name) => {
            match resolve_depth(local_vars, arguments, name) {
                Some(d) => {
                    operations.push(Operation::Get(d));
                    local_vars.push(None);
                    proof {
                        assert(operations@ =~= ops0 + seq![Operation::Get(d)]);
                    }
                    true
                },
                None => false,
            }
        },
        Expression::Add(a, b) => {
            proof {
                lemma_binary_unfold(*expression, slots0, arguments@, function_names@);
            }
            if !compile_expression(&**a, operations, local_vars, arguments, function_names) {
                return false;
            }
            if !compile_expression(&**b, operations, local_vars, arguments, function_names) {
                return false;
            }
            operations.push(Operation::Add);
            local_vars.pop();
            proof {
                let lowered_a = compile_expr_spec(**a, slots0, arguments@, function_names@);
                let lowered_b = compile_expr_spec(**b, lowered_a.1, arguments@, function_names@);
                assert(operations@ =~= ops0 + (lowered_a.0 + lowered_b.0 + seq![Operation::Add]));
            }
            true
        },
        Expression::Sub(a, b) => {
            proof {
                lemma_binary_unfold(*expression, slots0, arguments@, function_names@);
            }
            if !compile_expression(&**a, operations, local_vars, arguments, function_names) {
                return false;
            }
            if !compile_expression(&**b, operations, local_vars, arguments, function_names) {
                return false;
            }
            operations.push(Operation::Sub);
            local_vars.pop();
            proof {
                let lowered_a = compile_expr_spec(**a, slots0, arguments@, function_names@);
                let lowered_b = compile_expr_spec(**b, lowered_a.1, arguments@, function_names@);
                assert(operations@ =~= ops0 + (lowered_a.0 + lowered_b.0 + seq![Operation::Sub]));
            }
            true
        },
        Expression::Mul(a, b) => {
            proof {
                lemma_binary_unfold(*expression, slots0, arguments@, function_names@);
            }
            if !compile_expression(&**a, operations, local_vars, arguments, function_names) {
                return false;
            }
            if !compile_expression(&**b, operations, local_vars, arguments, function_names) {
                return false;
            }
            operations.push(Operation::Mul);
            local_vars.pop();
            proof {
                let lowered_a = compile_expr_spec(**a, slots0, arguments@, function_names@);
                let lowered_b = compile_expr_spec(**b, lowered_a.1, arguments@, function_names@);
                assert(operations@ =~= ops0 + (lowered_a.0 + lowered_b.0 + seq![Operation::Mul]));
            }
            true
        },
        Expression::Div(a, b) => {
            proof {
                lemma_binary_unfold(*expression, slots0, arguments@, function_names@);
            }
            if !compile_expression(&**a, operations, local_vars, arguments, function_names) {
                return false;
            }
            if !compile_expression(&**b, operations, local_vars, arguments, function_names) {
                return false;
            }
            operations.push(Operation::Div);
            local_vars.pop();
            proof {
                let lowered_a = compile_expr_spec(**a, slots0, arguments@, function_names@);
                let lowered_b = compile_expr_spec(**b, lowered_a.1, arguments@, function_names@);
                assert(operations@ =~= ops0 + (lowered_a.0 + lowered_b.0 + seq![Operation::Div]));
            }
            true
        },
        Expression::Mod(a, b) => {
            proof {
                lemma_binary_unfold(*expression, slots0, arguments@, function_names@);
            }
            if !compile_expression(&**a, operations, local_vars, arguments, function_names) {
                return false;
            }
            if !compile_expression(&**b, operations, local_vars, arguments, function_names) {
                return false;
            }
            operations.push(Operation::Mod);
            local_vars.pop();
            proof {
                let lowered_a = compile_expr_spec(**a, slots0, arguments@, function_names@);
                let lowered_b = compile_expr_spec(**b, lowered_a.1, arguments@, function_names@);
                assert(operations@ =~= ops0 + (lowered_a.0 + lowered_b.0 + seq![Operation::Mod]));
            }
            true
        },
        Expression::Call(fname, expressions) => {
            let mut idx: usize = 0;
            while idx < expressions.len()
                invariant
                    *expression == Expression::Call(*fname, *expressions),
                    slots0 == old(local_vars)@,
                    ops0 == old(operations)@,
                    idx <= expressions@.len(),
                    exprs_wf(expressions@.take(idx as int), slots0, arguments@, function_names@),
                    operations@ == ops0 + compile_exprs_spec(
                        expressions@.take(idx as int),
                        slots0,
                        arguments@,
                        function_names@,
                    ).0,
                    local_vars@ == compile_exprs_spec(
                        expressions@.take(idx as int),
                        slots0,
                        arguments@,
                        function_names@,
                    ).1,
                decreases expressions@.len() - idx,
            {
                let ghost done = expressions@.take(idx as int);
                proof {
                    let e_snap = *expression;
                    match e_snap {
                        Expression::Call(_f2, es2) => {
                            assert(decreases_to!(e_snap => es2));
                            assert(decreases_to!(es2 => es2@));
                            assert(decreases_to!(es2@ => es2@[idx as int]));
                            assert(es2@ == expressions@);
                        },
                        _ => {
                            assert(false);
                        },
                    }
                }
                if !compile_expression(
                    &expressions[idx],
                    operations,
                    local_vars,
                    arguments,
                    function_names,
                ) {
                    proof {
                        if exprs_wf(expressions@, slots0, arguments@, function_names@) {
                            lemma_exprs_wf_at(
                                expressions@,
                                slots0,
                                arguments@,
                                function_names@,
                                idx as int,
                            );
                        }
                        assert(!expr_wf(*expression, slots0, arguments@, function_names@));
                    }
                    return false;
                }
                proof {
                    let next = expressions@.take(idx + 1);
                    assert(next.drop_last() =~= done);
                    assert(next.last() == expressions@[idx as int]);
                    assert(operations@ =~= ops0 + compile_exprs_spec(
                        next,
                        slots0,
                        arguments@,
                        function_names@,
                    ).0);
                }
                idx = idx + 1;
            }
            proof {
                assert(expressions@.take(expressions@.len() as int) =~= expressions@);
            }
            match find_name(function_names, fname) {
                Some(i) => {
                    if i <= u32::MAX as usize {
                        operations.push(Operation::Call(i as u32));
                        proof {
                            let lowered = compile_exprs_spec(
                                expressions@,
                                slots0,
                                arguments@,
                                function_names@,
                            );
                            assert(operations@ =~= ops0 + (lowered.0 + seq![
                                Operation::Call(i as u32),
                            ]));
                            assert(expr_wf(*expression, slots0, arguments@, function_names@));
                            assert(compile_expr_spec(*expression, slots0, arguments@, function_names@)
                                == (lowered.0 + seq![Operation::Call(i as u32)], lowered.1));
                        }
                        true
                    } else {
                        proof {
                            assert(position_of(function_names@, fname@) == Some(i as int));
                            assert(i as int > u32::MAX);
                            assert(!expr_wf(*expression, slots0, arguments@, function_names@));
                        }
                        false
                    }
                },
                None => {
                    proof {
                        assert(!expr_wf(*expression, slots0, arguments@, function_names@));
                    }
                    false
                },
            }
        },
    }
}

/// The spec value a binary expression splits into, if it is one.
pub open spec fn binary_parts(e: Expression) -> Option<(Expression, Expression, Operation)> {
    match e {
        Expression::Add(a, b) => Some((*a, *b, Operation::Add)),
        Expression::Sub(a, b) => Some((*a, *b, Operation::Sub)),
        Expression::Mul(a, b) => Some((*a, *b, Operation::Mul)),
        Expression::Div(a, b) => Some((*a, *b, Operation::Div)),
        Expression::Mod(a, b) => Some((*a, *b, Operation::Mod)),
        _ => None,
    }
}

/// How lowering and well-formedness unfold on a binary expression.
proof fn lemma_binary_unfold(
    e: Expression,
    slots: Seq<Option<String>>,
    args: Seq<(String, Type)>,
    fnames: Seq<String>,
)
    requires
        binary_parts(e) is Some,
    ensures
        expr_wf(e, slots, args, fnames) == {
            let (a, b, op) = binary_parts(e).unwrap();
            expr_wf(a, slots, args, fnames) && expr_wf(
                b,
                compile_expr_spec(a, slots, args, fnames).1,
                args,
                fnames,
            )
        },
        compile_expr_spec(e, slots, args, fnames) == {
            let (a, b, op) = binary_parts(e).unwrap();
            let lowered_a = compile_expr_spec(a, slots, args, fnames);
            let lowered_b = compile_expr_spec(b, lowered_a.1, args, fnames);
            (lowered_a.0 + lowered_b.0 + seq![op], pop_slot(lowered_b.1))
        },
{
    reveal_with_fuel(compile_expr_spec, 2);
    reveal_with_fuel(compile_binary_spec, 2);
    match e {
        Expression::Add(a, b) => {
            assert(binary_parts(e) == Some((*a, *b, Operation::Add)));
            assert(binary_rhs_wf(*b, compile_expr_spec(*a, slots, args, fnames).1, args, fnames)
                == expr_wf(*b, compile_expr_spec(*a, slots, args, fnames).1, args, fnames));
        },
        Expression::Sub(a, b) => {
            assert(binary_parts(e) == Some((*a, *b, Operation::Sub)));
            assert(binary_rhs_wf(*b, compile_expr_spec(*a, slots, args, fnames).1, args, fnames)
                == expr_wf(*b, compile_expr_spec(*a, slots, args, fnames).1, args, fnames));
        },
        Expression::Mul(a, b) => {
            assert(binary_parts(e) == Some((*a, *b, Operation::Mul)));
            assert(binary_rhs_wf(*b, compile_expr_spec(*a, slots, args, fnames).1, args, fnames)
                == expr_wf(*b, compile_expr_spec(*a, slots, args, fnames).1, args, fnames));
        },
        Expression::Div(a, b) => {
            assert(binary_parts(e) == Some((*a, *b, Operation::Div)));
            assert(binary_rhs_wf(*b, compile_expr_spec(*a, slots, args, fnames).1, args, fnames)
                == expr_wf(*b, compile_expr_spec(*a, slots, args, fnames).1, args, fnames));
        },
        Expression::Mod(a, b) => {
            assert(binary_parts(e) == Some((*a, *b, Operation::Mod)));
            assert(binary_rhs_wf(*b, compile_expr_spec(*a, slots, args, fnames).1, args, fnames)
                == expr_wf(*b, compile_expr_spec(*a, slots, args, fnames).1, args, fnames));
        },
        _ => {},
    }
}

/// Lower one statement onto the end of `operations`, keeping the slot
/// list in step. Fails, possibly mid-way, exactly when the statement is
/// not well formed against the current slot list.
fn compile_statement(
    statement: &Statement,
    operations: &mut Vec<Operation>,
    local_vars: &mut Vec<Option<String>>,
    arguments: &Vec<(String, Type)>,
    function_names: &Vec<String>,
) -> (ok: bool)
    ensures
        ok == stmt_wf(*statement, old(local_vars)@, arguments@, function_names@),
        ok ==> final(operations)@ == old(operations)@
            + compile_stmt_spec(*statement, old(local_vars)@, arguments@, function_names@).0,
        ok ==> final(local_vars)@
            == compile_stmt_spec(*statement, old(local_vars)@, arguments@, function_names@).1,
{
    let ghost slots0 = local_vars@;
    let ghost ops0 = operations@;
    match statement {
        Statement::Let(name, var_type, expression) => {
            if var_type.is_none() {
                return false;
            }
            if !compile_expression(expression, operations, local_vars, arguments, function_names)
            {
                return false;
            }
            if local_vars.len() > 0 {
                // the initializer's net slot becomes the binding's
                let last = local_vars.len() - 1;
                local_vars[last] = Some(name.clone());
            }
            proof {
                let lowered = compile_expr_spec(*expression, slots0, arguments@, function_names@);
                assert(local_vars@ =~= relabel_last(lowered.1, *name));
            }
            true
        },
        Statement::Expr(expression) => {
            if !compile_expression(expression, operations, local_vars, arguments, function_names)
            {
                return false;
            }
            operations.push(Operation::Pop);
            local_vars.pop();
            proof {
                let lowered = compile_expr_spec(*expression, slots0, arguments@, function_names@);
                assert(operations@ =~= ops0 + (lowered.0 + seq![Operation::Pop]));
            }
            true
        },
        Statement::Return(expression) => {
            if !compile_expression(expression, operations, local_vars, arguments, function_names)
            {
                return false;
            }
            local_vars.pop();
            if local_vars.len() as u128 + 2 > u32::MAX as u128 {
                return false;
            }
            let relocation_depth = (local_vars.len() as u128 + 2) as u32;
            operations.push(Operation::Put(relocation_depth));
            let ghost with_put = operations@;
            let remaining = local_vars.len();
            let mut j: usize = 0;
            while j < remaining
                invariant
                    j <= remaining,
                    operations@ == with_put + Seq::new(j as nat, |i: int| Operation::Pop),
                decreases remaining - j,
            {
                operations.push(Operation::Pop);
                j = j + 1;
                proof {
                    assert(operations@ =~= with_put + Seq::new(
                        j as nat,
                        |i: int| Operation::Pop,
                    ));
                }
            }
            operations.push(Operation::Return);
            proof {
                let lowered = compile_expr_spec(*expression, slots0, arguments@, function_names@);
                let remaining_slots = pop_slot(lowered.1);
                assert(local_vars@ == remaining_slots);
                assert(remaining == remaining_slots.len());
                assert(operations@ =~= ops0 + (lowered.0 + seq![
                    Operation::Put((remaining_slots.len() + 2) as u32),
                ] + Seq::new(remaining_slots.len(), |i: int| Operation::Pop) + seq![
                    Operation::Return,
                ]));
            }
            true
        },
    }
}

/// Every statement of a well-formed body is well formed against the slot
/// list its predecessors leave behind.
proof fn lemma_body_wf_at(
    sts: Seq<Statement>,
    args: Seq<(String, Type)>,
    fnames: Seq<String>,
    j: int,
)
    requires
        body_wf(sts, args, fnames),
        0 <= j < sts.len(),
    ensures
        stmt_wf(sts[j], compile_body_spec(sts.take(j), args, fnames).1, args, fnames),
    decreases sts.len(),
{
    if j == sts.len() - 1 {
        assert(sts.take(j) =~= sts.drop_last());
    } else {
        lemma_body_wf_at(sts.drop_last(), args, fnames, j);
        assert(sts.drop_last().take(j) =~= sts.take(j));
    }
}

/// Lower a whole declaration list into a ready-to-run machine: one
/// operation sequence per function, the function named "main" (else the
/// first) selected as the initial activation, the stack seeded with two
/// zero control words and the sentinel caller identity. Yields `None`
/// exactly when some name does not resolve or a limit of the operation
/// encoding is exceeded; the upstream type checker rules that out for
/// the programs it accepts.
pub fn compile(ast: &Vec<Declaration>) -> (r: Option<VirtualMachine>)
    ensures
        r is Some <==> program_wf(ast@),
        r matches Some(vm) ==> {
            &&& vm@.functions == compile_spec(ast@)
            &&& vm@.fid == main_index(vm@.functions)
            &&& vm@.pc == 0
            &&& vm@.stack == seq![0u32, 0u32, SENTINEL]
            &&& vm@.heap == Seq::<u32>::empty()
        },
{
    if ast.len() as u128 > u32::MAX as u128 {
        return None;
    }
    let mut function_names: Vec<String> = Vec::new();
    let mut i: usize = 0;
    while i < ast.len()
        invariant
            i <= ast@.len(),
            function_names@ == program_names(ast@.take(i as int)),
        decreases ast@.len() - i,
    {
        match &ast[i] {
            Declaration::Function { name, .. } => {
                function_names.push(name.clone());
            },
        }
        i = i + 1;
        proof {
            assert(function_names@ =~= program_names(ast@.take(i as int)));
        }
    }
    proof {
        assert(ast@.take(ast@.len() as int) =~= ast@);
        assert(function_names@ == program_names(ast@));
    }
    let mut functions: Vec<Function> = Vec::new();
    let mut i: usize = 0;
    while i < ast.len()
        invariant
            i <= ast@.len(),
            ast@.len() <= u32::MAX,
            function_names@ == program_names(ast@),
            functions@.len() == i,
            forall|k: int| 0 <= k < i ==> functions@[k]@ == compile_spec(ast@)[k],
            forall|k: int| 0 <= k < i ==> body_wf(
                decl_body(#[trigger] ast@[k]),
                decl_args(ast@[k]),
                program_names(ast@),
            ),
        decreases ast@.len() - i,
    {
        match &ast[i] {
            Declaration::Function { name, arguments, return_type: _, body } => {
                let mut local_vars: Vec<Option<String>> = Vec::new();
                let mut operations: Vec<Operation> = Vec::new();
                let mut j: usize = 0;
                while j < body.len()
                    invariant
                        i < ast@.len(),
                        body@ == decl_body(ast@[i as int]),
                        arguments@ == decl_args(ast@[i as int]),
                        function_names@ == program_names(ast@),
                        j <= body@.len(),
                        body_wf(body@.take(j as int), arguments@, function_names@),
                        operations@ == compile_body_spec(
                            body@.take(j as int),
                            arguments@,
                            function_names@,
                        ).0,
                        local_vars@ == compile_body_spec(
                            body@.take(j as int),
                            arguments@,
                            function_names@,
                        ).1,
                    decreases body@.len() - j,
                {
                    let ghost done = body@.take(j as int);
                    if !compile_statement(
                        &body[j],
                        &mut operations,
                        &mut local_vars,
                        arguments,
                        &function_names,
                    ) {
                        proof {
                            if body_wf(body@, arguments@, function_names@) {
                                lemma_body_wf_at(body@, arguments@, function_names@, j as int);
                            }
                            assert(!body_wf(
                                decl_body(ast@[i as int]),
                                decl_args(ast@[i as int]),
                                program_names(ast@),
                            ));
                            assert(!program_wf(ast@));
                        }
                        return None;
                    }
                    proof {
                        let next = body@.take(j + 1);
                        assert(next.drop_last() =~= done);
                        assert(next.last() == body@[j as int]);
                        assert(operations@ =~= compile_body_spec(
                            next,
                            arguments@,
                            function_names@,
                        ).0);
                    }
                    j = j + 1;
                }
                proof {
                    assert(body@.take(body@.len() as int) =~= body@);
                    assert(decl_name(ast@[i as int]) == *name);
                }
                functions.push(Function::from_operations(name.clone(), operations));
                proof {
                    assert(functions@[i as int]@ == compile_spec(ast@)[i as int]);
                }
            },
        }
        i = i + 1;
    }
    proof {
        assert(program_wf(ast@));
        assert(functions@.map_values(|f: Function| f@) =~= compile_spec(ast@));
    }
    Some(VirtualMachine::from_functions(functions))
}


/// A body of `k` let-bound literal locals followed by a literal return.
pub open spec fn literal_body(names: Seq<String>, inits: Seq<u32>, v: u32) -> Seq<Statement> {
    Seq::new(
        names.len(),
        |i: int| Statement::Let(names[i], Some(Type::U32), Expression::NumLiteral(inits[i])),
    ).push(Statement::Return(Expression::NumLiteral(v)))
}

/// What the lets of such a body compile to: one push per local, and one
/// named slot per local.
proof fn lemma_literal_lets_compiled(
    names: Seq<String>,
    inits: Seq<u32>,
    args: Seq<(String, Type)>,
    fnames: Seq<String>,
)
    requires
        names.len() == inits.len(),
    ensures
        compile_body_spec(
            Seq::new(
                names.len(),
                |i: int| Statement::Let(names[i], Some(Type::U32), Expression::NumLiteral(inits[i])),
            ),
            args,
            fnames,
        ) == (
            Seq::new(names.len(), |i: int| Operation::Push(inits[i])),
            Seq::new(names.len(), |i: int| Some(names[i])),
        ),
    decreases names.len(),
{
    let k = names.len() as int;
    let lets = Seq::new(
        k as nat,
        |i: int| Statement::Let(names[i], Some(Type::U32), Expression::NumLiteral(inits[i])),
    );
    if k == 0 {
        assert(lets.len() == 0);
        assert(compile_body_spec(lets, args, fnames).0 =~= Seq::new(0nat, |i: int| Operation::Push(inits[i])));
        assert(compile_body_spec(lets, args, fnames).1 =~= Seq::new(0nat, |i: int| Some(names[i])));
    } else {
        lemma_literal_lets_compiled(names.drop_last(), inits.drop_last(), args, fnames);
        let prev = Seq::new(
            (k - 1) as nat,
            |i: int| Statement::Let(
                names.drop_last()[i],
                Some(Type::U32),
                Expression::NumLiteral(inits.drop_last()[i]),
            ),
        );
        assert(lets.drop_last() =~= prev);
        assert(lets.last() == Statement::Let(
            names.last(),
            Some(Type::U32),
            Expression::NumLiteral(inits.last()),
        ));
        let slots_prev = Seq::new((k - 1) as nat, |i: int| Some(names.drop_last()[i]));
        let lowered = compile_stmt_spec(lets.last(), slots_prev, args, fnames);
        assert(lowered.0 =~= seq![Operation::Push(inits.last())]);
        assert(lowered.1 =~= slots_prev.push(Some(names.last())));
        assert(compile_body_spec(lets, args, fnames).0 =~= Seq::new(
            k as nat,
            |i: int| Operation::Push(inits[i]),
        ));
        assert(compile_body_spec(lets, args, fnames).1 =~= Seq::new(k as nat, |i: int| Some(names[i])));
    }
}

/// What the whole literal body compiles to: the pushes, the relocation of
/// the result into the slot above the two control words, the discards of
/// the locals, and the return.
proof fn lemma_literal_body_compiled(
    names: Seq<String>,
    inits: Seq<u32>,
    v: u32,
    args: Seq<(String, Type)>,
    fnames: Seq<String>,
)
    requires
        names.len() == inits.len(),
        names.len() + 2 <= u32::MAX,
    ensures
        compile_body_spec(literal_body(names, inits, v), args, fnames).0 == Seq::new(
            names.len(),
            |i: int| Operation::Push(inits[i]),
        ) + seq![
            Operation::Push(v),
            Operation::Put((names.len() + 2) as u32),
        ] + Seq::new(names.len(), |i: int| Operation::Pop) + seq![Operation::Return],
{
    let k = names.len() as int;
    let body = literal_body(names, inits, v);
    let lets = Seq::new(
        k as nat,
        |i: int| Statement::Let(names[i], Some(Type::U32), Expression::NumLiteral(inits[i])),
    );
    lemma_literal_lets_compiled(names, inits, args, fnames);
    assert(body.drop_last() =~= lets);
    assert(body.last() == Statement::Return(Expression::NumLiteral(v)));
    let slots_k = Seq::new(k as nat, |i: int| Some(names[i]));
    let lowered = compile_stmt_spec(body.last(), slots_k, args, fnames);
    assert(pop_slot(slots_k.push(None)) =~= slots_k);
    assert(lowered.0 =~= seq![
        Operation::Push(v),
        Operation::Put((k + 2) as u32),
    ] + Seq::new(k as nat, |i: int| Operation::Pop) + seq![Operation::Return]);
    assert(compile_body_spec(body, args, fnames).0 =~= Seq::new(
        k as nat,
        |i: int| Operation::Push(inits[i]),
    ) + seq![
        Operation::Push(v),
        Operation::Put((names.len() + 2) as u32),
    ] + Seq::new(k as nat, |i: int| Operation::Pop) + seq![Operation::Return]);
}

/// The calling convention round-trips: calling a compiled function with
/// any number of declared locals, from any call site and over any operand
/// stack (which carries whatever arguments were pushed), runs the callee
/// to completion and resumes the caller with its program counter and its
/// activation identity restored bit for bit; the returned value lands in
/// the stack slot just above where the two control words stood — the slot
/// of the last pushed argument.
pub proof fn lemma_call_round_trip(
    s: VmSnap,
    caller_ops: Seq<Operation>,
    g: u32,
    names: Seq<String>,
    inits: Seq<u32>,
    v: u32,
    args: Seq<(String, Type)>,
    fnames: Seq<String>,
)
    requires
        s.fid != SENTINEL,
        s.fid < s.functions.len(),
        s.functions[s.fid as int].body == FunctionBodyView::Code(caller_ops),
        s.pc < caller_ops.len(),
        caller_ops[s.pc as int] == Operation::Call(g),
        g != SENTINEL,
        g < s.functions.len(),
        s.functions[g as int].body == FunctionBodyView::Code(
            compile_body_spec(literal_body(names, inits, v), args, fnames).0,
        ),
        names.len() == inits.len(),
        2 * names.len() + 4 <= u32::MAX,
        s.stack.len() >= 1,
    ensures
        steps_to(s, (2 * names.len() + 4) as nat) == Some(
            (VmSnap {
                pc: s.pc.wrapping_add(1),
                stack: s.stack.update(s.stack.len() - 1, v),
                ..s
            }),
        ),
{
    let k = names.len() as int;
    let base = s.stack.len() as int;
    let ops = compile_body_spec(literal_body(names, inits, v), args, fnames).0;
    lemma_literal_body_compiled(names, inits, v, args, fnames);
    assert(ops.len() == 2 * k + 3);
    let pushes = Seq::new(k as nat, |i: int| Operation::Push(inits[i]));
    let pops = Seq::new(k as nat, |i: int| Operation::Pop);
    assert forall|i: int| 0 <= i < k implies ops[i] == Operation::Push(inits[i]) by {
        assert(ops[i] == pushes[i]);
    }
    assert(ops[k] == Operation::Push(v));
    assert(ops[k + 1] == Operation::Put((names.len() + 2) as u32));
    assert forall|i: int| 0 <= i < k implies #[trigger] ops[k + 2 + i] == Operation::Pop by {
        assert(ops[k + 2 + i] == pops[i]);
    }
    assert(ops[2 * k + 2] == Operation::Return);

    // the call transfers control to instruction 0 of the callee
    let s1 = VmSnap { fid: g, pc: 0, stack: s.stack.push(s.pc).push(s.fid), ..s };
    assert(machine_step(s) == StepSpec::Continue(s1)) by {
        assert(SENTINEL.wrapping_add(1) == 0);
        assert((VmSnap { pc: SENTINEL.wrapping_add(1), ..op_effect_call(s, g) }) =~= s1);
    }
    assert(steps_to(s, 0nat) == Some(s));
    assert(steps_to(s, 1nat) == Some(s1));

    // the locals and the result value are pushed, one step each
    let ws = inits.push(v);
    assert forall|i: int| 0 <= i < ws.len() implies ops[s1.pc + i] == Operation::Push(ws[i]) by {
        if i < k {
            assert(ops[i] == Operation::Push(inits[i]));
        } else {
            assert(ops[k] == Operation::Push(v));
        }
    }
    lemma_push_run(s1, ops, ws);
    let s2 = VmSnap { pc: (k + 1) as u32, stack: s1.stack + ws, ..s1 };
    assert(steps_to(s1, (k + 1) as nat) == Some(s2));
    lemma_steps_to_trans(s, s1, 1nat, (k + 1) as nat);
    assert(steps_to(s, (k + 2) as nat) == Some(s2));

    // the relocation overwrites the word just below the control words
    let relocated = s.stack.update(base - 1, v).push(s.pc).push(s.fid) + inits;
    let s3 = VmSnap { pc: (k + 2) as u32, stack: relocated, ..s2 };
    assert(machine_step(s2) == StepSpec::Continue(s3)) by {
        assert(s2.stack.len() == base + k + 3);
        assert(s2.stack.last() == v);
        assert(s2.stack.drop_last().update(base - 1, v) =~= relocated);
    }
    lemma_steps_to_trans(s, s2, (k + 2) as nat, 1nat);
    assert(steps_to(s2, 0nat) == Some(s2));
    assert(steps_to(s2, 1nat) == Some(s3));
    assert(steps_to(s, (k + 3) as nat) == Some(s3));

    // the locals are discarded, one step each
    assert forall|i: int| 0 <= i < k implies #[trigger] ops[s3.pc + i] == Operation::Pop by {
        assert(ops[k + 2 + i] == Operation::Pop);
    }
    lemma_pop_run(s3, ops, k as nat);
    let s4 = VmSnap {
        pc: (2 * k + 2) as u32,
        stack: s.stack.update(base - 1, v).push(s.pc).push(s.fid),
        ..s3
    };
    assert(s3.stack.take(s3.stack.len() - k) =~= s4.stack);
    assert(steps_to(s3, k as nat) == Some(s4));
    lemma_steps_to_trans(s, s3, (k + 3) as nat, k as nat);
    assert(steps_to(s, (2 * k + 3) as nat) == Some(s4));

    // the return restores the caller's cursor exactly
    let s5 = VmSnap {
        fid: s.fid,
        pc: s.pc.wrapping_add(1),
        stack: s.stack.update(base - 1, v),
        ..s4
    };
    assert(machine_step(s4) == StepSpec::Continue(s5)) by {
        assert(s4.stack.len() == base + 2);
        assert(s4.stack.last() == s.fid);
        assert(s4.stack[base] == s.pc);
        assert(s4.stack.drop_last().drop_last() =~= s.stack.update(base - 1, v));
    }
    lemma_steps_to_trans(s, s4, (2 * k + 3) as nat, 1nat);
    assert(steps_to(s4, 0nat) == Some(s4));
    assert(steps_to(s4, 1nat) == Some(s5));
    assert(steps_to(s, (2 * k + 4) as nat) == Some(s5));
    assert(s5 =~= (VmSnap {
        pc: s.pc.wrapping_add(1),
        stack: s.stack.update(s.stack.len() - 1, v),
        ..s
    }));
}

/// The state a `Call` leaves before the counter increment.
pub open spec fn op_effect_call(s: VmSnap, g: u32) -> VmSnap {
    VmSnap { stack: s.stack.push(s.pc).push(s.fid), fid: g, pc: SENTINEL, ..s }
}

} // verus!


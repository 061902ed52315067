//! The type checker: validates a declaration list against a nominal type
//! environment before compilation. A collaborator of the machine core.
//! Its whole behaviour is written down as the spec functions [`check_spec`]
//! and [`check_expr_spec`], and the executable checker is proved to follow
//! them exactly. The environment is an association list searched newest
//! entry first, so a later binding shadows an earlier one of the same name.

use vstd::prelude::*;
use crate::ast::{Declaration, Expression, Statement, Type};

verus! {

/// Why type checking rejected a program.
#[derive(Debug)]
pub enum Error {
    UndeclaredVariable(String),
    CallingNonFunction(String, Type),
    NonMatchingTypes(Type, Type),
}

/// The mathematical image of a type: parameter lists as sequences.
#[verifier::ext_equal]
pub ghost enum TypeV {
    U32,
    Fun(Seq<TypeV>, Box<TypeV>),
}

/// The mathematical image of a type value.
pub open spec fn type_view(t: Type) -> TypeV
    decreases t,
{
    match t {
        Type::U32 => TypeV::U32,
        Type::Fun(args, ret) => TypeV::Fun(types_view(args@), Box::new(type_view(*ret))),
    }
}

/// The mathematical image of a type list.
pub open spec fn types_view(ts: Seq<Type>) -> Seq<TypeV>
    decreases ts,
{
    if ts.len() == 0 {
        Seq::empty()
    } else {
        types_view(ts.drop_last()).push(type_view(ts.last()))
    }
}

/// The mathematical image of a type error.
pub ghost enum ErrorV {
    UndeclaredVariable(Seq<char>),
    CallingNonFunction(Seq<char>, TypeV),
    NonMatchingTypes(TypeV, TypeV),
}

impl View for Error {
    type V = ErrorV;

    open spec fn view(&self) -> ErrorV {
        match self {
            Error::UndeclaredVariable(n) => ErrorV::UndeclaredVariable(n@),
            Error::CallingNonFunction(n, t) => ErrorV::CallingNonFunction(n@, type_view(*t)),
            Error::NonMatchingTypes(a, b) => ErrorV::NonMatchingTypes(type_view(*a), type_view(*b)),
        }
    }
}

/// The mathematical image of an environment: names and their types, in
/// binding order.
pub open spec fn env_view(env: Seq<(String, Type)>) -> Seq<(Seq<char>, TypeV)> {
    env.map_values(|b: (String, Type)| (b.0@, type_view(b.1)))
}

/// The index of the newest binding of `name`, searching from the end.
pub open spec fn env_lookup_spec(env: Seq<(Seq<char>, TypeV)>, name: Seq<char>) -> Option<int>
    decreases env.len(),
{
    if env.len() == 0 {
        None
    } else if env.last().0 == name {
        Some(env.len() - 1)
    } else {
        env_lookup_spec(env.drop_last(), name)
    }
}

/// What validating one expression against an expected type yields: the
/// type checker's behaviour on expressions as mathematics. Arguments are
/// checked in order up to the shorter of the argument list and the
/// declared parameter list, and the first failure is the error.
pub open spec fn check_expr_spec(
    e: Expression,
    t: TypeV,
    env: Seq<(Seq<char>, TypeV)>,
) -> Result<(), ErrorV>
    decreases e, 0nat,
{
    match e {
        Expression::Call(function, expressions) => match env_lookup_spec(env, function@) {
            None => Err(ErrorV::UndeclaredVariable(function@)),
            Some(i) => match env[i].1 {
                TypeV::Fun(arg_types, return_type) => {
                    let count = if expressions@.len() < arg_types.len() {
                        expressions@.len() as int
                    } else {
                        arg_types.len() as int
                    };
                    match check_args_spec(expressions@, arg_types, env, 0, count) {
                        Err(err) => Err(err),
                        Ok(()) => if t == *return_type {
                            Ok(())
                        } else {
                            Err(ErrorV::NonMatchingTypes(t, *return_type))
                        },
                    }
                },
                other => Err(ErrorV::CallingNonFunction(function@, other)),
            },
        },
        Expression::Variable(name) => match env_lookup_spec(env, name@) {
            Some(i) => if env[i].1 == t {
                Ok(())
            } else {
                Err(ErrorV::NonMatchingTypes(t, env[i].1))
            },
            None => Err(ErrorV::UndeclaredVariable(name@)),
        },
        Expression::NumLiteral(_) => if t == TypeV::U32 {
            Ok(())
        } else {
            Err(ErrorV::NonMatchingTypes(t, TypeV::U32))
        },
        Expression::Add(e1, e2) | Expression::Sub(e1, e2) | Expression::Mul(e1, e2)
            | Expression::Div(e1, e2) | Expression::Mod(e1, e2) => {
            if t == TypeV::U32 {
                match check_expr_spec(*e1, t, env) {
                    Ok(()) => check_expr_spec(*e2, t, env),
                    Err(err) => Err(err),
                }
            } else {
                Err(ErrorV::NonMatchingTypes(t, TypeV::U32))
            }
        },
    }
}

/// Validate argument expressions `k` to `count` against the declared
/// parameter types, first failure first.
pub open spec fn check_args_spec(
    es: Seq<Expression>,
    arg_types: Seq<TypeV>,
    env: Seq<(Seq<char>, TypeV)>,
    k: int,
    count: int,
) -> Result<(), ErrorV>
    decreases es, (if count - k >= 0 { count - k } else { 0 }) as nat,
{
    if k < 0 || k >= count || count > es.len() || count > arg_types.len() {
        Ok(())
    } else {
        match check_expr_spec(es[k], arg_types[k], env) {
            Ok(()) => check_args_spec(es, arg_types, env, k + 1, count),
            Err(err) => Err(err),
        }
    }
}


/// A type list and its view have the same length, element for element.
pub proof fn lemma_types_view_index(ts: Seq<Type>, i: int)
    requires
        0 <= i < ts.len(),
    ensures
        types_view(ts).len() == ts.len(),
        types_view(ts)[i] == type_view(ts[i]),
    decreases ts.len(),
{
    lemma_types_view_len(ts);
    if i == ts.len() - 1 {
    } else {
        lemma_types_view_index(ts.drop_last(), i);
    }
}

/// A type list and its view have the same length.
pub proof fn lemma_types_view_len(ts: Seq<Type>)
    ensures
        types_view(ts).len() == ts.len(),
    decreases ts.len(),
{
    if ts.len() > 0 {
        lemma_types_view_len(ts.drop_last());
    }
}

/// The programs this checker supports: every let-binding carries its
/// declared type.
pub open spec fn checkable(decls: Seq<Declaration>) -> bool {
    forall|i: int| 0 <= i < decls.len() ==> checkable_body(
        crate::compiler::decl_body(#[trigger] decls[i]),
    )
}

/// The statements of one body this checker supports.
pub open spec fn checkable_body(sts: Seq<Statement>) -> bool {
    forall|j: int| 0 <= j < sts.len() ==> match #[trigger] sts[j] {
        Statement::Let(_, var_type, _) => var_type is Some,
        Statement::Expr(_) => true,
        Statement::Return(_) => true,
    }
}

/// Does this checker support the program? `check` requires it.
pub fn is_checkable(ast: &Vec<Declaration>) -> (r: bool)
    ensures
        r == checkable(ast@),
{
    let mut i: usize = 0;
    while i < ast.len()
        invariant
            i <= ast@.len(),
            forall|k: int| 0 <= k < i ==> checkable_body(
                crate::compiler::decl_body(#[trigger] ast@[k]),
            ),
        decreases ast@.len() - i,
    {
        match &ast[i] {
            Declaration::Function { body, .. } => {
                let mut j: usize = 0;
                while j < body.len()
                    invariant
                        j <= body@.len(),
                        body@ == crate::compiler::decl_body(ast@[i as int]),
                        i < ast@.len(),
                        forall|k: int| 0 <= k < j ==> match #[trigger] body@[k] {
                            Statement::Let(_, var_type, _) => var_type is Some,
                            Statement::Expr(_) => true,
                            Statement::Return(_) => true,
                        },
                    decreases body@.len() - j,
                {
                    let supported = match &body[j] {
                        Statement::Let(_, var_type, _) => var_type.is_some(),
                        Statement::Expr(_) => true,
                        Statement::Return(_) => true,
                    };
                    if !supported {
                        return false;
                    }
                    j = j + 1;
                }
            },
        }
        i = i + 1;
    }
    true
}

/// A structural copy of a type: the copy has the same view.
fn clone_type(t: &Type) -> (r: Type)
    ensures
        type_view(r) == type_view(*t),
    decreases *t,
{
    match t {
        Type::U32 => Type::U32,
        Type::Fun(items, ret) => {
            let mut cloned: Vec<Type> = Vec::new();
            let mut i: usize = 0;
            while i < items.len()
                invariant
                    *t == Type::Fun(*items, *ret),
                    cloned@.len() == i,
                    i <= items@.len(),
                    types_view(cloned@) == types_view(items@.take(i as int)),
                decreases items@.len() - i,
            {
                proof {
                    let t_snap = *t;
                    match t_snap {
                        Type::Fun(items2, _ret2) => {
                            assert(decreases_to!(t_snap => items2));
                            assert(decreases_to!(items2 => items2@));
                            assert(decreases_to!(items2@ => items2@[i as int]));
                            assert(items2@ == items@);
                        },
                        _ => {
                            assert(false);
                        },
                    }
                }
                let ghost cloned_before = cloned@;
                cloned.push(clone_type(&items[i]));
                i = i + 1;
                proof {
                    let done = items@.take(i as int);
                    assert(done.drop_last() =~= items@.take(i - 1));
                    assert(done.last() == items@[i - 1]);
                    assert(cloned@.drop_last() =~= cloned_before);
                }
            }
            proof {
                assert(items@.take(items@.len() as int) =~= items@);
            }
            Type::Fun(cloned, Box::new(clone_type(&**ret)))
        },
    }
}

/// Structural equality of two types: true exactly when the views agree.
fn type_eq(a: &Type, b: &Type) -> (r: bool)
    ensures
        r == (type_view(*a) == type_view(*b)),
    decreases *a,
{
    match (a, b) {
        (Type::U32, Type::U32) => true,
        (Type::Fun(args1, ret1), Type::Fun(args2, ret2)) => {
            proof {
                lemma_types_view_len(args1@);
                lemma_types_view_len(args2@);
            }
            if args1.len() != args2.len() {
                return false;
            }
            let mut i: usize = 0;
            while i < args1.len()
                invariant
                    *a == Type::Fun(*args1, *ret1),
                    *b == Type::Fun(*args2, *ret2),
                    args1@.len() == args2@.len(),
                    i <= args1@.len(),
                    forall|k: int| 0 <= k < i ==> #[trigger] type_view(args1@[k])
                        == type_view(args2@[k]),
                decreases args1@.len() - i,
            {
                proof {
                    let a_snap = *a;
                    match a_snap {
                        Type::Fun(items2, _ret2) => {
                            assert(decreases_to!(a_snap => items2));
                            assert(decreases_to!(items2 => items2@));
                            assert(decreases_to!(items2@ => items2@[i as int]));
                            assert(items2@ == args1@);
                        },
                        _ => {
                            assert(false);
                        },
                    }
                }
                if !type_eq(&args1[i], &args2[i]) {
                    proof {
                        lemma_types_view_index(args1@, i as int);
                        lemma_types_view_index(args2@, i as int);
                        assert(types_view(args1@) != types_view(args2@));
                    }
                    return false;
                }
                i = i + 1;
            }
            let rets_equal = type_eq(&**ret1, &**ret2);
            proof {
                assert forall|k: int| 0 <= k < args1@.len() implies #[trigger] types_view(
                    args1@,
                )[k] == types_view(args2@)[k] by {
                    lemma_types_view_index(args1@, k);
                    lemma_types_view_index(args2@, k);
                }
                assert(types_view(args1@) =~= types_view(args2@));
                if rets_equal {
                    assert(type_view(*a) =~= type_view(*b));
                }
            }
            rets_equal
        },
        _ => false,
    }
}

/// Find the newest binding of `name`, searching from the end so that a
/// later binding shadows an earlier one.
fn env_lookup(env: &Vec<(String, Type)>, name: &String) -> (r: Option<usize>)
    ensures
        match r {
            Some(i) => i < env@.len() && env_lookup_spec(env_view(env@), name@)
                == Some(i as int),
            None => env_lookup_spec(env_view(env@), name@) is None,
        },
{
    let ghost full = env_view(env@);
    proof {
        assert(full.take(env@.len() as int) =~= full);
    }
    let mut k: usize = env.len();
    while k > 0
        invariant
            full == env_view(env@),
            k <= env@.len(),
            env_lookup_spec(full, name@) == env_lookup_spec(full.take(k as int), name@),
        decreases k,
    {
        k = k - 1;
        let ghost tried = full.take(k + 1);
        proof {
            assert(tried.last() == full[k as int]);
            assert(tried.drop_last() =~= full.take(k as int));
        }
        if env[k].0 == *name {
            return Some(k);
        }
    }
    proof {
        assert(full.take(0) =~= Seq::<(Seq<char>, TypeV)>::empty());
    }
    None
}

/// Validate one expression against an expected type in an environment.
pub fn check_expression(
    expression: &Expression,
    typ: &Type,
    env: &Vec<(String, Type)>,
) -> (r: Result<(), Error>)
    ensures
        match r {
            Ok(()) => check_expr_spec(*expression, type_view(*typ), env_view(env@))
                == Ok::<(), ErrorV>(()),
            Err(e) => check_expr_spec(*expression, type_view(*typ), env_view(env@))
                == Err::<(), ErrorV>(e@),
        },
    decreases *expression,
{
    let ghost env_v = env_view(env@);
    let ghost t_v = type_view(*typ);
    match expression {
        Expression::Call(function, expressions) => {
            let idx = match env_lookup(env, function) {
                Some(i) => i,
                None => {
                    return Err(Error::UndeclaredVariable(function.clone()));
                },
            };
            proof {
                assert(env_v[idx as int] == (env@[idx as int].0@, type_view(env@[idx as int].1)));
            }
            let is_fun = matches!(&env[idx].1, Type::Fun(_, _));
            if !is_fun {
                return Err(Error::CallingNonFunction(function.clone(), clone_type(&env[idx].1)));
            }
            let ghost fun_view = type_view(env@[idx as int].1);
            let ghost ats = fun_view->Fun_0;
            let ghost rt = fun_view->Fun_1;
            let count = match &env[idx].1 {
                Type::Fun(arg_types, _) => {
                    proof {
                        lemma_types_view_len(arg_types@);
                        assert(ats == types_view(arg_types@));
                    }
                    if expressions.len() < arg_types.len() {
                        expressions.len()
                    } else {
                        arg_types.len()
                    }
                },
                _ => 0,
            };
            let mut i: usize = 0;
            while i < count
                invariant
                    *expression == Expression::Call(*function, *expressions),
                    env_v == env_view(env@),
                    t_v == type_view(*typ),
                    idx < env@.len(),
                    env_lookup_spec(env_v, function@) == Some(idx as int),
                    type_view(env@[idx as int].1) == TypeV::Fun(ats, rt),
                    count <= expressions@.len(),
                    count <= ats.len(),
                    count as int == (if expressions@.len() < ats.len() {
                        expressions@.len() as int
                    } else {
                        ats.len() as int
                    }),
                    i <= count,
                    check_args_spec(expressions@, ats, env_v, 0, count as int)
                        == check_args_spec(expressions@, ats, env_v, i as int, count as int),
                decreases count - i,
            {
                proof {
                    let e_snap = *expression;
                    match e_snap {
                        Expression::Call(_f2, es2) => {
                            assert(decreases_to!(e_snap => es2));
                            assert(decreases_to!(es2 => es2@));
                            assert(decreases_to!(es2@ => es2@[i as int]));
                            assert(es2@ == expressions@);
                        },
                        _ => {
                            assert(false);
                        },
                    }
                }
                let arg_type = match &env[idx].1 {
                    Type::Fun(arg_types, _) => {
                        proof {
                            assert(ats == types_view(arg_types@));
                            lemma_types_view_len(arg_types@);
                            lemma_types_view_index(arg_types@, i as int);
                        }
                        if i < arg_types.len() {
                            clone_type(&arg_types[i])
                        } else {
                            Type::U32
                        }
                    },
                    _ => Type::U32,
                };
                proof {
                    assert(type_view(arg_type) == ats[i as int]);
                }
                match check_expression(&expressions[i], &arg_type, env) {
                    Ok(()) => {},
                    Err(e) => {
                        proof {
                            assert(check_args_spec(expressions@, ats, env_v, i as int, count as int)
                                == Err::<(), ErrorV>(e@));
                            assert(check_expr_spec(*expression, t_v, env_v)
                                == Err::<(), ErrorV>(e@));
                        }
                        return Err(e);
                    },
                }
                i = i + 1;
            }
            proof {
                assert(check_args_spec(expressions@, ats, env_v, count as int, count as int)
                    == Ok::<(), ErrorV>(()));
            }
            match &env[idx].1 {
                Type::Fun(_, return_type) => {
                    proof {
                        assert(*rt == type_view(**return_type));
                    }
                    if !type_eq(typ, return_type) {
                        return Err(Error::NonMatchingTypes(
                            clone_type(typ),
                            clone_type(return_type),
                        ));
                    }
                },
                _ => {
                    proof {
                        assert(false);
                    }
                },
            }
            Ok(())
        },
        Expression::Variable(name) => {
            match env_lookup(env, name) {
                Some(i) => {
                    proof {
                        assert(env_v[i as int]
                            == (env@[i as int].0@, type_view(env@[i as int].1)));
                    }
                    if type_eq(&env[i].1, typ) {
                        Ok(())
                    } else {
                        Err(Error::NonMatchingTypes(clone_type(typ), clone_type(&env[i].1)))
                    }
                },
                None => Err(Error::UndeclaredVariable(name.clone())),
            }
        },
        Expression::NumLiteral(_) => {
            if matches!(typ, Type::U32) {
                Ok(())
            } else {
                Err(Error::NonMatchingTypes(clone_type(typ), Type::U32))
            }
        },
        Expression::Add(e1, e2) | Expression::Sub(e1, e2) | Expression::Mul(e1, e2)
            | Expression::Div(e1, e2) | Expression::Mod(e1, e2) => {
            if matches!(typ, Type::U32) {
                match check_expression(&**e1, typ, env) {
                    Ok(()) => check_expression(&**e2, typ, env),
                    Err(e) => Err(e),
                }
            } else {
                Err(Error::NonMatchingTypes(clone_type(typ), Type::U32))
            }
        },
    }
}


/// The return type of a declaration.
pub open spec fn decl_return(d: Declaration) -> Type {
    match d {
        Declaration::Function { return_type, .. } => return_type,
    }
}

/// The declared parameter types of a parameter list, as views.
pub open spec fn arg_types_view(args: Seq<(String, Type)>) -> Seq<TypeV>
    decreases args,
{
    if args.len() == 0 {
        Seq::empty()
    } else {
        arg_types_view(args.drop_last()).push(type_view(args.last().1))
    }
}

/// The environment entries a parameter list contributes.
pub open spec fn env_of_args(args: Seq<(String, Type)>) -> Seq<(Seq<char>, TypeV)>
    decreases args,
{
    if args.len() == 0 {
        Seq::empty()
    } else {
        env_of_args(args.drop_last()).push((args.last().0@, type_view(args.last().1)))
    }
}

/// The global environment: every declared function under its name, with
/// its function type.
pub open spec fn global_env_spec(decls: Seq<Declaration>) -> Seq<(Seq<char>, TypeV)>
    decreases decls,
{
    if decls.len() == 0 {
        Seq::empty()
    } else {
        global_env_spec(decls.drop_last()).push((
            crate::compiler::decl_name(decls.last())@,
            TypeV::Fun(
                arg_types_view(crate::compiler::decl_args(decls.last())),
                Box::new(type_view(decl_return(decls.last()))),
            ),
        ))
    }
}

/// Validate the statements of one body from `j` on: a let checks its
/// initializer against its declared type and binds it, a bare expression
/// statement checks its expression as a machine word (the one value type;
/// its lowering computes a word and discards it), and a return checks its
/// expression against the declared return type. An untyped let yields
/// nothing here; `check` requires that none occurs.
pub open spec fn check_body_from(
    sts: Seq<Statement>,
    ret: TypeV,
    env: Seq<(Seq<char>, TypeV)>,
    j: int,
) -> Result<(), ErrorV>
    decreases sts.len() - j when j <= sts.len()
{
    if j < 0 || j >= sts.len() {
        Ok(())
    } else {
        match sts[j] {
            Statement::Let(name, var_type, e) => match var_type {
                None => Ok(()),
                Some(t) => match check_expr_spec(e, type_view(t), env) {
                    Err(err) => Err(err),
                    Ok(()) => check_body_from(
                        sts,
                        ret,
                        env.push((name@, type_view(t))),
                        j + 1,
                    ),
                },
            },
            Statement::Expr(e) => match check_expr_spec(e, TypeV::U32, env) {
                Err(err) => Err(err),
                Ok(()) => check_body_from(sts, ret, env, j + 1),
            },
            Statement::Return(e) => match check_expr_spec(e, ret, env) {
                Err(err) => Err(err),
                Ok(()) => check_body_from(sts, ret, env, j + 1),
            },
        }
    }
}

/// Validate the declarations from `j` on, each body in the global
/// environment extended with its own parameters.
pub open spec fn check_decls_from(
    decls: Seq<Declaration>,
    genv: Seq<(Seq<char>, TypeV)>,
    j: int,
) -> Result<(), ErrorV>
    decreases decls.len() - j when j <= decls.len()
{
    if j < 0 || j >= decls.len() {
        Ok(())
    } else {
        let local = genv + env_of_args(crate::compiler::decl_args(decls[j]));
        match check_body_from(
            crate::compiler::decl_body(decls[j]),
            type_view(decl_return(decls[j])),
            local,
            0,
        ) {
            Err(err) => Err(err),
            Ok(()) => check_decls_from(decls, genv, j + 1),
        }
    }
}

/// What validating a whole declaration list yields: the type checker's
/// behaviour as mathematics.
pub open spec fn check_spec(decls: Seq<Declaration>) -> Result<(), ErrorV> {
    check_decls_from(decls, global_env_spec(decls), 0)
}

/// Validate a declaration list: every function body must check against
/// the declared parameter and return types, with all declared functions
/// in scope.
pub fn check(ast: &Vec<Declaration>) -> (r: Result<(), Error>)
    requires
        checkable(ast@),
    ensures
        match r {
            Ok(()) => check_spec(ast@) == Ok::<(), ErrorV>(()),
            Err(e) => check_spec(ast@) == Err::<(), ErrorV>(e@),
        },
{
    let ghost genv = global_env_spec(ast@);
    let mut global_types: Vec<(String, Type)> = Vec::new();
    let mut i: usize = 0;
    while i < ast.len()
        invariant
            i <= ast@.len(),
            env_view(global_types@) == global_env_spec(ast@.take(i as int)),
        decreases ast@.len() - i,
    {
        let ghost globals_before = global_types@;
        match &ast[i] {
            Declaration::Function { name, arguments, return_type, body: _ } => {
                let mut arg_types: Vec<Type> = Vec::new();
                let mut j: usize = 0;
                while j < arguments.len()
                    invariant
                        j <= arguments@.len(),
                        types_view(arg_types@) == arg_types_view(arguments@.take(j as int)),
                    decreases arguments@.len() - j,
                {
                    let ghost args_before = arg_types@;
                    arg_types.push(clone_type(&arguments[j].1));
                    j = j + 1;
                    proof {
                        let done = arguments@.take(j as int);
                        assert(done.drop_last() =~= arguments@.take(j - 1));
                        assert(done.last() == arguments@[j - 1]);
                        assert(arg_types@.drop_last() =~= args_before);
                    }
                }
                proof {
                    assert(arguments@.take(arguments@.len() as int) =~= arguments@);
                }
                global_types.push((
                    name.clone(),
                    Type::Fun(arg_types, Box::new(clone_type(return_type))),
                ));
            },
        }
        i = i + 1;
        proof {
            let done = ast@.take(i as int);
            assert(done.drop_last() =~= ast@.take(i - 1));
            assert(done.last() == ast@[i - 1]);
            assert(env_view(global_types@).drop_last() =~= env_view(globals_before));
            assert(env_view(global_types@) =~= global_env_spec(done));
        }
    }
    proof {
        assert(ast@.take(ast@.len() as int) =~= ast@);
        assert(env_view(global_types@) == genv);
    }
    let mut i: usize = 0;
    while i < ast.len()
        invariant
            i <= ast@.len(),
            checkable(ast@),
            genv == global_env_spec(ast@),
            env_view(global_types@) == genv,
            check_decls_from(ast@, genv, 0) == check_decls_from(ast@, genv, i as int),
        decreases ast@.len() - i,
    {
        match &ast[i] {
            Declaration::Function { name: _, arguments, return_type, body } => {
                let mut local_vars: Vec<(String, Type)> = Vec::new();
                let mut j: usize = 0;
                while j < global_types.len()
                    invariant
                        j <= global_types@.len(),
                        env_view(global_types@) == genv,
                        env_view(local_vars@) == genv.take(j as int),
                    decreases global_types@.len() - j,
                {
                    let ghost locals_before = local_vars@;
                    local_vars.push((global_types[j].0.clone(), clone_type(&global_types[j].1)));
                    j = j + 1;
                    proof {
                        assert(env_view(local_vars@).drop_last() =~= env_view(locals_before));
                        assert(genv.take(j as int).drop_last() =~= genv.take(j - 1));
                        assert(env_view(local_vars@) =~= genv.take(j as int));
                    }
                }
                proof {
                    assert(genv.take(genv.len() as int) =~= genv);
                }
                let mut j: usize = 0;
                while j < arguments.len()
                    invariant
                        j <= arguments@.len(),
                        genv == global_env_spec(ast@),
                        env_view(local_vars@) == genv + env_of_args(arguments@.take(j as int)),
                    decreases arguments@.len() - j,
                {
                    let ghost locals_before = local_vars@;
                    local_vars.push((arguments[j].0.clone(), clone_type(&arguments[j].1)));
                    j = j + 1;
                    proof {
                        let done = arguments@.take(j as int);
                        assert(done.drop_last() =~= arguments@.take(j - 1));
                        assert(done.last() == arguments@[j - 1]);
                        assert(env_view(local_vars@).drop_last() =~= env_view(locals_before));
                        assert(env_view(local_vars@).last()
                            == (arguments@[j - 1].0@, type_view(arguments@[j - 1].1)));
                        assert(env_of_args(done).last()
                            == (arguments@[j - 1].0@, type_view(arguments@[j - 1].1)));
                        assert(env_of_args(done).drop_last() =~= env_of_args(arguments@.take(
                            j - 1,
                        )));
                        assert(env_of_args(done).len() == env_of_args(arguments@.take(j - 1)).len() + 1);
                        assert(env_view(locals_before).len() == genv.len() + env_of_args(arguments@.take(j - 1)).len());
                        assert(env_view(local_vars@).len() == env_view(locals_before).len() + 1);
                        assert(env_view(local_vars@).len() == (genv + env_of_args(done)).len());
                        assert forall|k: int| 0 <= k < env_view(local_vars@).len() implies
                            env_view(local_vars@)[k] == (genv + env_of_args(done))[k] by {
                            if k < env_view(locals_before).len() {
                                assert(env_view(local_vars@)[k] == env_view(locals_before)[k]);
                                assert((genv + env_of_args(done))[k]
                                    == (genv + env_of_args(arguments@.take(j - 1)))[k]);
                            } else {
                                assert(env_view(local_vars@)[k] == env_view(local_vars@).last());
                                assert((genv + env_of_args(done))[k] == env_of_args(done).last());
                            }
                        }
                        assert(env_view(local_vars@) =~= genv + env_of_args(done));
                    }
                }
                proof {
                    assert(arguments@.take(arguments@.len() as int) =~= arguments@);
                }
                let ghost local0 = env_view(local_vars@);
                let ghost ret_v = type_view(*return_type);
                let mut j: usize = 0;
                while j < body.len()
                    invariant
                        j <= body@.len(),
                        i < ast@.len(),
                        checkable(ast@),
                        genv == global_env_spec(ast@),
                        check_decls_from(ast@, genv, 0) == check_decls_from(ast@, genv, i as int),
                        body@ == crate::compiler::decl_body(ast@[i as int]),
                        arguments@ == crate::compiler::decl_args(ast@[i as int]),
                        *return_type == decl_return(ast@[i as int]),
                        ret_v == type_view(decl_return(ast@[i as int])),
                        local0 == genv + env_of_args(arguments@),
                        check_body_from(body@, ret_v, local0, 0) == check_body_from(
                            body@,
                            ret_v,
                            env_view(local_vars@),
                            j as int,
                        ),
                    decreases body@.len() - j,
                {
                    match &body[j] {
                        Statement::Let(name, typ, expression) => {
                            let t = match typ {
                                Some(t) => t,
                                None => {
                                    proof {
                                        assert(false);
                                    }
                                    return Ok(());
                                },
                            };
                            match check_expression(expression, t, &local_vars) {
                                Ok(()) => {},
                                Err(e) => {
                                    proof {
                                        assert(check_body_from(
                                            body@,
                                            ret_v,
                                            env_view(local_vars@),
                                            j as int,
                                        ) == Err::<(), ErrorV>(e@));
                                        assert(check_body_from(body@, ret_v, local0, 0)
                                            == Err::<(), ErrorV>(e@));
                                        assert(check_decls_from(ast@, genv, i as int)
                                            == Err::<(), ErrorV>(e@));
                                    }
                                    return Err(e);
                                },
                            }
                            let ghost locals_before = local_vars@;
                            local_vars.push((name.clone(), clone_type(t)));
                            proof {
                                assert(env_view(local_vars@).drop_last()
                                    =~= env_view(locals_before));
                                assert(env_view(local_vars@).last() == (name@, type_view(*t)));
                                assert(env_view(local_vars@) =~= env_view(locals_before).push(
                                    (name@, type_view(*t)),
                                ));
                                assert(check_body_from(
                                    body@,
                                    ret_v,
                                    env_view(locals_before),
                                    j as int,
                                ) == check_body_from(body@, ret_v, env_view(local_vars@), j + 1));
                            }
                        },
                        Statement::Expr(expression) => {
                            let word = Type::U32;
                            match check_expression(expression, &word, &local_vars) {
                                Ok(()) => {
                                    proof {
                                        assert(check_body_from(
                                            body@,
                                            ret_v,
                                            env_view(local_vars@),
                                            j as int,
                                        ) == check_body_from(
                                            body@,
                                            ret_v,
                                            env_view(local_vars@),
                                            j + 1,
                                        ));
                                    }
                                },
                                Err(e) => {
                                    proof {
                                        assert(check_body_from(
                                            body@,
                                            ret_v,
                                            env_view(local_vars@),
                                            j as int,
                                        ) == Err::<(), ErrorV>(e@));
                                        assert(check_body_from(body@, ret_v, local0, 0)
                                            == Err::<(), ErrorV>(e@));
                                        assert(check_decls_from(ast@, genv, i as int)
                                            == Err::<(), ErrorV>(e@));
                                    }
                                    return Err(e);
                                },
                            }
                        },
                        Statement::Return(expression) => {
                            match check_expression(expression, return_type, &local_vars) {
                                Ok(()) => {
                                    proof {
                                        assert(check_body_from(
                                            body@,
                                            ret_v,
                                            env_view(local_vars@),
                                            j as int,
                                        ) == check_body_from(
                                            body@,
                                            ret_v,
                                            env_view(local_vars@),
                                            j + 1,
                                        ));
                                    }
                                },
                                Err(e) => {
                                    proof {
                                        assert(check_body_from(
                                            body@,
                                            ret_v,
                                            env_view(local_vars@),
                                            j as int,
                                        ) == Err::<(), ErrorV>(e@));
                                        assert(check_body_from(body@, ret_v, local0, 0)
                                            == Err::<(), ErrorV>(e@));
                                        assert(check_decls_from(ast@, genv, i as int)
                                            == Err::<(), ErrorV>(e@));
                                    }
                                    return Err(e);
                                },
                            }
                        },
                    }
                    j = j + 1;
                }
                proof {
                    assert(check_body_from(body@, ret_v, env_view(local_vars@), body@.len() as int)
                        == Ok::<(), ErrorV>(()));
                    assert(check_body_from(body@, ret_v, local0, 0) == Ok::<(), ErrorV>(()));
                }
            },
        }
        i = i + 1;
        proof {
            assert(check_decls_from(ast@, genv, i - 1) == check_decls_from(ast@, genv, i as int));
        }
    }
    proof {
        assert(check_decls_from(ast@, genv, ast@.len() as int) == Ok::<(), ErrorV>(()));
    }
    Ok(())
}

} // verus!

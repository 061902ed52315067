//! The abstract syntax of the surface language: functions over 32-bit
//! unsigned integers with let-bindings, calls and returns. Trees of this
//! shape arrive already type-checked; the compiler lowers them to
//! operation sequences.

use vstd::prelude::*;

verus! {

/// A top-level declaration: a named function with its parameters, return
/// type and body.
#[derive(Debug)]
pub enum Declaration {
    Function {
        name: String,
        arguments: Vec<(String, Type)>,
        return_type: Type,
        body: Vec<Statement>,
    },
}

/// A surface-language type: the primitive 32-bit unsigned integer, or a
/// function type. Types only matter upstream; compiled code is type-erased.
#[derive(Debug, PartialEq, Eq)]
pub enum Type {
    Fun(Vec<Type>, Box<Type>),
    U32,
}

/// One statement of a function body.
#[derive(Debug)]
pub enum Statement {
    Let(String, Option<Type>, Expression),
    Expr(Expression),
    Return(Expression),
}

/// An expression: literals, variable references, calls, and the four
/// arithmetic operators (with modulo).
#[derive(Debug)]
pub enum Expression {
    Call(String, Vec<Expression>),
    Variable(String),
    Add(Box<Expression>, Box<Expression>),
    Sub(Box<Expression>, Box<Expression>),
    Mul(Box<Expression>, Box<Expression>),
    Div(Box<Expression>, Box<Expression>),
    Mod(Box<Expression>, Box<Expression>),
    NumLiteral(u32),
}

} // verus!

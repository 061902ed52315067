//! A small statically-typed expression language over 32-bit unsigned
//! integers — functions, let-bindings, calls and returns — compiled to
//! bytecode for a stack virtual machine, and the machine itself.
//!
//! The machine's semantics and the compiler's lowering rules are written
//! down as spec functions, and the executable interpreter and compiler are
//! proved to follow them exactly: the operand stack multiplexes source
//! values, temporaries and the two saved control words of each activation,
//! and every variable reference resolves to a stack depth computed at
//! compile time. The lexer, the recursive-descent parser and the type
//! checker are likewise proved against their own specifications.

pub mod ast;
pub mod compiler;
pub mod parser;
pub mod typechecker;
pub mod virtual_machine;

use stacklang::ast::{Declaration, Expression, Statement, Type};
use stacklang::compiler::compile;
use stacklang::parser::{parse, Error as ParseError, Token};
use stacklang::typechecker::{check, check_expression, is_checkable, Error as TypeError};
use stacklang::virtual_machine::RunOutcome;

const BUDGET: u64 = 1_000_000;

fn run_source(source: &str) -> RunOutcome {
    let program = parse(source).unwrap();
    assert!(is_checkable(&program));
    check(&program).unwrap();
    let mut vm = compile(&program).unwrap();
    vm.run(BUDGET)
}

#[test]
fn add_function_returns_seven() {
    let source = "\
fn add(a: u32, b: u32): u32 { return a + b; }
fn main(): u32 { return add(3, 4); }
";
    assert_eq!(run_source(source), RunOutcome::Exit(7));
}

#[test]
fn reference_to_first_let_survives_second_let() {
    // the second binding shifts all depths by one; the reference to the
    // first must still resolve correctly
    let source = "fn main(): u32 { let x: u32 = 41; let y: u32 = 1; return x; }";
    assert_eq!(run_source(source), RunOutcome::Exit(41));
}

#[test]
fn arithmetic_follows_precedence() {
    let source = "fn main(): u32 { return 2 + 3 * 4; }";
    assert_eq!(run_source(source), RunOutcome::Exit(14));
    let source = "fn main(): u32 { return (2 + 3) * 4; }";
    assert_eq!(run_source(source), RunOutcome::Exit(20));
    let source = "fn main(): u32 { return 17 / 5 + 17 % 5; }";
    assert_eq!(run_source(source), RunOutcome::Exit(5));
    let source = "fn main(): u32 { return 10 - 3 - 2; }";
    assert_eq!(run_source(source), RunOutcome::Exit(5));
}

#[test]
fn let_bindings_feed_later_expressions() {
    let source = "fn main(): u32 { let a: u32 = 6; let b: u32 = 7; return a * b; }";
    assert_eq!(run_source(source), RunOutcome::Exit(42));
}

#[test]
fn calls_thread_arguments_through_the_stack() {
    let source = "\
fn double(x: u32): u32 { return x + x; }
fn main(): u32 { return double(double(double(5))); }
";
    assert_eq!(run_source(source), RunOutcome::Exit(40));
}

#[test]
fn parameters_resolve_past_locals() {
    let source = "\
fn mix(a: u32, b: u32): u32 { let c: u32 = 100; return a * 10 + b + c; }
fn main(): u32 { return mix(2, 3); }
";
    assert_eq!(run_source(source), RunOutcome::Exit(123));
}

#[test]
fn largest_literal_survives() {
    let source = "fn main(): u32 { return 4294967295; }";
    assert_eq!(run_source(source), RunOutcome::Exit(u32::MAX));
}

#[test]
fn empty_program_parses_and_faults_at_run() {
    let program = parse("").unwrap();
    assert_eq!(program.len(), 0);
    assert!(check(&program).is_ok());
    let mut vm = compile(&program).unwrap();
    // there is no function to run: the first fetch faults
    assert_eq!(vm.run(BUDGET), RunOutcome::Fault);
}

#[test]
fn parse_reports_unexpected_eof() {
    assert!(matches!(parse("fn"), Err(ParseError::UnexpectedEof)));
    assert!(matches!(parse("fn main("), Err(ParseError::UnexpectedEof)));
    assert!(matches!(
        parse("fn main(): u32 { return 1"),
        Err(ParseError::UnexpectedEof)
    ));
}

#[test]
fn parse_reports_unexpected_token() {
    assert!(matches!(
        parse("let x"),
        Err(ParseError::UnexpectedToken(Token::KwLet))
    ));
    assert!(matches!(
        parse("fn main(): u32 { return ); }"),
        Err(ParseError::UnexpectedToken(Token::CloseParen))
    ));
    // a comment lexes to a token of its own, which no grammar rule accepts
    assert!(matches!(
        parse("// banner\nfn main(): u32 { return 1; }"),
        Err(ParseError::UnexpectedToken(Token::Comment))
    ));
}

#[test]
fn parse_reports_unknown_character() {
    assert!(matches!(parse("@"), Err(ParseError::UnknownCharacter('@'))));
    assert!(matches!(
        parse("fn main(): u32 { return \"a\\q\"; }"),
        Err(ParseError::UnknownCharacter('q'))
    ));
}

#[test]
fn string_literals_lex_but_do_not_parse() {
    assert!(matches!(
        parse("fn main(): u32 { return \"a\\n\\\\\\\"b\"; }"),
        Err(ParseError::UnexpectedToken(Token::StringLiteral(_)))
    ));
}

#[test]
fn check_rejects_undeclared_names() {
    let program = parse("fn main(): u32 { return zzz; }").unwrap();
    assert!(matches!(check(&program), Err(TypeError::UndeclaredVariable(_))));
    let program = parse("fn main(): u32 { return zzz(1); }").unwrap();
    assert!(matches!(check(&program), Err(TypeError::UndeclaredVariable(_))));
}

#[test]
fn check_rejects_calling_a_number() {
    let program = parse("fn main(a: u32): u32 { return a(1); }").unwrap();
    assert!(matches!(check(&program), Err(TypeError::CallingNonFunction(_, _))));
}

#[test]
fn check_rejects_type_mismatches() {
    // a function name used as a plain value has a function type, not u32
    let program = parse("fn main(): u32 { return main; }").unwrap();
    assert!(matches!(check(&program), Err(TypeError::NonMatchingTypes(_, _))));
}

#[test]
fn check_expression_accepts_a_literal_as_u32() {
    let env: Vec<(String, Type)> = Vec::new();
    assert!(check_expression(&Expression::NumLiteral(3), &Type::U32, &env).is_ok());
    let fun = Type::Fun(vec![], Box::new(Type::U32));
    assert!(matches!(
        check_expression(&Expression::NumLiteral(3), &fun, &env),
        Err(TypeError::NonMatchingTypes(_, _))
    ));
}

#[test]
fn bare_expression_statements_check_and_run() {
    // an expression statement eats one semicolon itself and the body
    // loop expects another, hence the pair; it checks as a machine word
    // and lowers to a computation whose word is discarded
    let source = "fn main(): u32 { 5;; return 3; }";
    assert_eq!(run_source(source), RunOutcome::Exit(3));
}

#[test]
fn bare_expression_statements_are_validated() {
    let program = parse("fn main(): u32 { zzz;; return 0; }").unwrap();
    assert!(is_checkable(&program));
    assert!(matches!(check(&program), Err(TypeError::UndeclaredVariable(_))));
}

#[test]
fn untyped_lets_are_unsupported_by_check() {
    // the parser always writes the declared type; a tree built by hand
    // may omit it, and the checker does not infer
    let program = vec![Declaration::Function {
        name: "main".to_string(),
        arguments: vec![],
        return_type: Type::U32,
        body: vec![
            Statement::Let("x".to_string(), None, Expression::NumLiteral(1)),
            Statement::Return(Expression::NumLiteral(0)),
        ],
    }];
    assert!(!is_checkable(&program));
}

#[test]
fn compile_rejects_unresolved_names() {
    // the compiler assumes a checked tree; an unresolved reference is
    // reported rather than compiled to undefined addressing
    let program = vec![Declaration::Function {
        name: "main".to_string(),
        arguments: vec![],
        return_type: Type::U32,
        body: vec![Statement::Return(Expression::Variable("zzz".to_string()))],
    }];
    assert!(compile(&program).is_none());
    let program = vec![Declaration::Function {
        name: "main".to_string(),
        arguments: vec![],
        return_type: Type::U32,
        body: vec![Statement::Return(Expression::Call("zzz".to_string(), vec![]))],
    }];
    assert!(compile(&program).is_none());
}

#[test]
fn compile_accepts_a_checked_tree() {
    let program = parse("fn main(): u32 { return 3; }").unwrap();
    assert!(check(&program).is_ok());
    assert!(compile(&program).is_some());
}

#[test]
fn number_literals_wrap_modulo() {
    // one past the largest word wraps to zero, like all arithmetic here
    let source = "fn main(): u32 { return 4294967296; }";
    assert_eq!(run_source(source), RunOutcome::Exit(0));
}

#[test]
fn division_by_zero_is_zero_at_the_surface() {
    let source = "fn main(): u32 { return 5 / 0 + 7 % 0; }";
    assert_eq!(run_source(source), RunOutcome::Exit(0));
}

#[test]
fn subtraction_wraps_at_the_surface() {
    let source = "fn main(): u32 { return 0 - 1; }";
    assert_eq!(run_source(source), RunOutcome::Exit(u32::MAX));
}

#[test]
fn only_u32_is_a_type_name() {
    assert!(matches!(
        parse("fn main(): u64 { return 1; }"),
        Err(ParseError::UnexpectedToken(Token::Identifier(_)))
    ));
}

#[test]
fn identifiers_may_hold_digits_and_underscores() {
    let source = "\
fn f_1(x: u32): u32 { return x; }
fn main(): u32 { return f_1(2); }
";
    assert_eq!(run_source(source), RunOutcome::Exit(2));
}

#[test]
fn zero_argument_call_clobbers_the_word_below_the_frame() {
    // a call's result relocates into the slot of its last argument; with
    // no arguments that is the caller's word just below the two control
    // words, here the seeded sentinel region, and the caller's own
    // relocation then runs out of stack
    let source = "\
fn two(): u32 { return 2; }
fn main(): u32 { return two(); }
";
    assert_eq!(run_source(source), RunOutcome::Fault);
}

#[test]
fn mixed_whitespace_is_skipped() {
    let source = "fn\tmain (\t)\r\n:\nu32 {\r\n\treturn\t8 ;\n}\n";
    assert_eq!(run_source(source), RunOutcome::Exit(8));
}

#[test]
fn shadowing_resolves_to_newest_binding() {
    let source = "fn main(): u32 { let x: u32 = 1; let x: u32 = 2; return x; }";
    assert_eq!(run_source(source), RunOutcome::Exit(2));
}

#[test]
fn multi_argument_call_leaves_residual_words() {
    // the call lowering leaves one stack word per argument and the result
    // replaces only the last argument's word; the let re-labels that last
    // slot, so the binding sees the result 6 while the two residual words
    // beneath it stay on the stack, and offsets after the call line up
    let source = "\
fn three(a: u32, b: u32, c: u32): u32 { return a + b + c; }
fn main(): u32 { let r: u32 = three(1, 2, 3); return r + 10; }
";
    assert_eq!(run_source(source), RunOutcome::Exit(16));
}

#[test]
fn single_argument_call_binds_its_result() {
    // with exactly one argument the relocated result is the one slot the
    // let labels, so the binding sees the returned value
    let source = "\
fn inc(x: u32): u32 { return x + 1; }
fn main(): u32 { let r: u32 = inc(5); return r * 2; }
";
    assert_eq!(run_source(source), RunOutcome::Exit(12));
}

#[test]
fn parse_yields_the_declared_tree() {
    let program = parse("fn add(a: u32, b: u32): u32 { return a + b; }").unwrap();
    assert_eq!(program.len(), 1);
    let Declaration::Function { name, arguments, return_type, body } = &program[0];
    assert_eq!(name, "add");
    assert_eq!(arguments.len(), 2);
    assert_eq!(arguments[0].0, "a");
    assert_eq!(arguments[0].1, Type::U32);
    assert_eq!(arguments[1].0, "b");
    assert_eq!(arguments[1].1, Type::U32);
    assert_eq!(*return_type, Type::U32);
    assert_eq!(body.len(), 1);
    match &body[0] {
        Statement::Return(Expression::Add(lhs, rhs)) => {
            assert!(matches!(&**lhs, Expression::Variable(v) if v == "a"));
            assert!(matches!(&**rhs, Expression::Variable(v) if v == "b"));
        }
        other => panic!("unexpected statement {other:?}"),
    }
}

#[test]
fn parse_applies_precedence_and_associativity() {
    let program = parse("fn f(): u32 { return 1 + 2 * 3 - 4; }").unwrap();
    let Declaration::Function { body, .. } = &program[0];
    match &body[0] {
        Statement::Return(Expression::Sub(lhs, rhs)) => {
            assert!(matches!(&**rhs, Expression::NumLiteral(4)));
            match &**lhs {
                Expression::Add(one, mul) => {
                    assert!(matches!(&**one, Expression::NumLiteral(1)));
                    assert!(matches!(
                        &**mul,
                        Expression::Mul(two, three)
                            if matches!(&**two, Expression::NumLiteral(2))
                                && matches!(&**three, Expression::NumLiteral(3))
                    ));
                }
                other => panic!("unexpected lhs {other:?}"),
            }
        }
        other => panic!("unexpected statement {other:?}"),
    }
}

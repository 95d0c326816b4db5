use minicomp::ast::{Expr, Function, Ident, IdentTable, Statement, SysArg};
use minicomp::emitter::emit;
use minicomp::error::CompileError;
use minicomp::lexer::tokenize;
use minicomp::parser::{expr, parse};
use minicomp::token::{Token, Type};

fn toks(src: &str) -> Vec<Token> {
    tokenize(src).unwrap()
}

fn funcs(src: &str) -> Vec<Function> {
    parse(toks(src)).unwrap()
}

#[test]
fn tokenize_symbols() {
    assert_eq!(
        toks("+-*/=;"),
        vec![Token::Add, Token::Sub, Token::Mul, Token::Div, Token::Assign, Token::Eot]
    );
}

#[test]
fn tokenize_keywords_and_idents() {
    assert_eq!(
        toks("function sys int integer _x x1"),
        vec![
            Token::Func,
            Token::SysCall,
            Token::Type(Type::Int),
            Token::Ident("integer".to_string()),
            Token::Ident("_x".to_string()),
            Token::Ident("x1".to_string()),
        ]
    );
}

#[test]
fn tokenize_call_marker() {
    assert_eq!(
        toks("@main @ ;"),
        vec![
            Token::FuncCall("main".to_string()),
            Token::FuncCall(String::new()),
            Token::Eot,
        ]
    );
}

#[test]
fn tokenize_numbers() {
    assert_eq!(
        toks("0 42 4294967295"),
        vec![Token::Int(0), Token::Int(42), Token::Int(4294967295)]
    );
}

#[test]
fn tokenize_overflow() {
    assert_eq!(tokenize("4294967296"), Err(CompileError::IntegerOverflow));
}

#[test]
fn tokenize_unsupported_character() {
    assert_eq!(tokenize("#"), Err(CompileError::UnsupportedCharacter));
    assert_eq!(tokenize("int x ? 5"), Err(CompileError::UnsupportedCharacter));
}

#[test]
fn tokenize_nonascii_digit_rejected() {
    // a Unicode numeric character that is not a decimal digit
    assert_eq!(tokenize("\u{0663}"), Err(CompileError::UnsupportedCharacter));
}

#[test]
fn tokenize_unicode_identifier() {
    assert_eq!(toks("caf\u{e9}"), vec![Token::Ident("caf\u{e9}".to_string())]);
}

#[test]
fn tokenize_whitespace_only() {
    assert_eq!(toks(" \t\r\n "), vec![]);
}

#[test]
fn round_trip_minimal_program() {
    let fs = funcs("function f ; int x = 5 ;");
    assert_eq!(fs.len(), 1);
    let f = &fs[0];
    assert_eq!(f.name, "f");
    assert!(f.params.is_empty());
    assert_eq!(f.idents.len(), 1);
    assert_eq!(f.idents.lookup(&"x".to_string()), Some(Ident { index: 0 }));
    assert_eq!(f.statements.len(), 1);
    match &f.statements[0] {
        Statement::Assign(id, Expr::Int(5)) => assert_eq!(id.index, 0),
        other => panic!("unexpected statement: {other:?}"),
    }
}

#[test]
fn syscall_resolves_parameter() {
    let fs = funcs("function f a b ; sys 1 a ;");
    assert_eq!(fs.len(), 1);
    match &fs[0].statements[0] {
        Statement::SysCall(1, args) => {
            assert_eq!(args.as_slice(), &[SysArg::Ident(Ident { index: 0 })]);
        }
        other => panic!("unexpected statement: {other:?}"),
    }
}

#[test]
fn parameters_seed_table_in_order() {
    let fs = funcs("function g a b c ;");
    let f = &fs[0];
    assert_eq!(f.params, vec!["a", "b", "c"]);
    assert_eq!(f.idents.len(), 3);
    assert_eq!(f.idents.lookup(&"a".to_string()), Some(Ident { index: 0 }));
    assert_eq!(f.idents.lookup(&"b".to_string()), Some(Ident { index: 1 }));
    assert_eq!(f.idents.lookup(&"c".to_string()), Some(Ident { index: 2 }));
    assert_eq!(f.idents.lookup(&"d".to_string()), None);
}

#[test]
fn rebinding_keeps_slot() {
    let fs = funcs("function f ; int x = 1 ; int x = 2 ; int y = 3 ;");
    let f = &fs[0];
    let slots: Vec<usize> = f
        .statements
        .iter()
        .map(|s| match s {
            Statement::Assign(id, _) => id.index,
            other => panic!("unexpected statement: {other:?}"),
        })
        .collect();
    assert_eq!(slots, vec![0, 0, 1]);
    assert_eq!(f.idents.len(), 2);
}

#[test]
fn assign_add_emits_accumulator_sequence() {
    let fs = funcs("function f ; int x = + 1 2 ;");
    match &fs[0].statements[0] {
        Statement::Assign(id, Expr::Add(l, r)) => {
            assert_eq!(id.index, 0);
            assert!(matches!(**l, Expr::Int(1)));
            assert!(matches!(**r, Expr::Int(2)));
        }
        other => panic!("unexpected statement: {other:?}"),
    }
    let line = fs[0].statements[0].emit().unwrap();
    assert_eq!(line, "mov rax, 1\nadd rax, 2\nmov [rbp-0*8], rax");
    let text = emit(&fs).unwrap();
    assert_eq!(
        text,
        "global _start\nsection .text\nf:\npush rbp\nmov rbp, rsp\n\
         mov rax, 1\nadd rax, 2\nmov [rbp-0*8], rax\n\nmov rsp, rbp\npop rbp\nret\n"
    );
}

#[test]
fn assign_literal_uses_qword_move() {
    let fs = funcs("function f ; int x = 7 ;");
    assert_eq!(fs[0].statements[0].emit().unwrap(), "mov qword[rbp-0*8], 7");
}

#[test]
fn assign_identifier_moves_between_slots() {
    let fs = funcs("function f a ; int x = a ;");
    assert_eq!(fs[0].statements[0].emit().unwrap(), "mov [rbp-1*8], [rbp-0*8]");
}

#[test]
fn nested_expression_emission() {
    let fs = funcs("function f ; int x = + * 2 3 4 ;");
    let e = match &fs[0].statements[0] {
        Statement::Assign(_, e) => e,
        other => panic!("unexpected statement: {other:?}"),
    };
    assert_eq!(e.emit(), "mov rax, mov rax, 2\nmul rax, 3\nadd rax, 4");
}

#[test]
fn call_statement_emission() {
    let fs = funcs("function f ; @g @");
    match &fs[0].statements[0] {
        Statement::Call(name) => assert_eq!(name, "g"),
        other => panic!("unexpected statement: {other:?}"),
    }
    assert_eq!(fs[0].statements[0].emit().unwrap(), "call g");
    assert_eq!(fs[0].statements[1].emit().unwrap(), "call ");
}

#[test]
fn undeclared_identifier_in_expression() {
    assert!(matches!(
        parse(toks("function f ; int x = y ;")),
        Err(CompileError::UndeclaredIdentifier)
    ));
}

#[test]
fn undeclared_identifier_in_syscall() {
    assert!(matches!(
        parse(toks("function f ; sys 1 y ;")),
        Err(CompileError::UndeclaredIdentifier)
    ));
}

#[test]
fn assignment_target_not_visible_in_its_own_expression() {
    // the expression is read before the target is bound
    assert!(matches!(
        parse(toks("function f ; int x = x ;")),
        Err(CompileError::UndeclaredIdentifier)
    ));
}

#[test]
fn seven_syscall_arguments_parse_but_fail_emission() {
    let fs = funcs("function f ; sys 0 1 2 3 4 5 6 7 ;");
    match &fs[0].statements[0] {
        Statement::SysCall(0, args) => assert_eq!(args.len(), 7),
        other => panic!("unexpected statement: {other:?}"),
    }
    assert!(matches!(emit(&fs), Err(CompileError::TooManyArguments)));
}

#[test]
fn six_syscall_arguments_emit_all_registers() {
    let fs = funcs("function f ; sys 60 1 2 3 4 5 6 ;");
    assert_eq!(
        fs[0].statements[0].emit().unwrap(),
        "mov rax, 60\nmov rdi, 1\nmov rsi, 2\nmov rdx, 3\nmov r10, 4\nmov r8, 5\nmov r9, 6\nsyscall"
    );
}

#[test]
fn statement_before_any_function_is_rejected() {
    assert!(matches!(parse(toks("@f")), Err(CompileError::UnexpectedToken)));
    assert!(matches!(parse(toks("int x = 5 ;")), Err(CompileError::UnexpectedToken)));
    assert!(matches!(parse(toks("sys 1 ;")), Err(CompileError::UnexpectedToken)));
}

#[test]
fn truncated_declarations_are_rejected() {
    assert!(matches!(parse(toks("function")), Err(CompileError::UnexpectedEnd)));
    assert!(matches!(parse(toks("function ;")), Err(CompileError::UnexpectedToken)));
    assert!(matches!(parse(toks("function f ; int x")), Err(CompileError::UnexpectedEnd)));
    assert!(matches!(parse(toks("function f ; int x =")), Err(CompileError::UnexpectedEnd)));
}

#[test]
fn expression_errors() {
    assert!(matches!(
        parse(toks("function f ; int x = + 1")),
        Err(CompileError::UnexpectedEnd)
    ));
    assert!(matches!(
        parse(toks("function f ; int x = ;")),
        Err(CompileError::UnexpectedToken)
    ));
    assert!(matches!(
        parse(toks("function f ; int x = 5 @g")),
        Err(CompileError::UnexpectedToken)
    ));
}

#[test]
fn expression_reader_consumes_exactly_one_tree() {
    let table = IdentTable::new();
    let tokens = toks("+ 1 2 ; 9");
    let (e, next) = expr(&tokens, 0, &table).unwrap();
    assert!(matches!(e, Expr::Add(_, _)));
    assert_eq!(next, 3);

    let tokens = toks("+ * 1 2 3 ;");
    let (_, next) = expr(&tokens, 0, &table).unwrap();
    assert_eq!(next, 5);

    let tokens = toks("7 8");
    let (e, next) = expr(&tokens, 0, &table).unwrap();
    assert!(matches!(e, Expr::Int(7)));
    assert_eq!(next, 1);
}

#[test]
fn functions_emit_in_declaration_order() {
    let fs = funcs("function a ; function b ;");
    assert_eq!(fs.len(), 2);
    assert_eq!(fs[0].name, "a");
    assert_eq!(fs[1].name, "b");
    let text = emit(&fs).unwrap();
    let a_pos = text.find("a:").unwrap();
    let b_pos = text.find("b:").unwrap();
    assert!(a_pos < b_pos);
}

#[test]
fn empty_source_compiles_to_header_only() {
    let fs = funcs("");
    assert!(fs.is_empty());
    assert_eq!(emit(&fs).unwrap(), "global _start\nsection .text\n");
}

#[test]
fn syscall_slot_argument_emission() {
    let fs = funcs("function f a ; sys 1 a ;");
    assert_eq!(
        fs[0].statements[0].emit().unwrap(),
        "mov rax, 1\nmov rdi, [rbp-0*8]\nsyscall"
    );
}

#[test]
fn subtraction_and_division_mnemonics() {
    let fs = funcs("function f ; int x = - 9 3 ; int y = / 8 2 ;");
    assert_eq!(
        fs[0].statements[0].emit().unwrap(),
        "mov rax, 9\nsub rax, 3\nmov [rbp-0*8], rax"
    );
    assert_eq!(
        fs[0].statements[1].emit().unwrap(),
        "mov rax, 8\ndiv rax, 2\nmov [rbp-1*8], rax"
    );
}

use pyroc::{compile, BinOp, CompileError, Expr, LexError, Module, ParseError, Parser, Stmt};

fn parse(src: &str) -> Module {
    let mut p = Parser::new(src).expect("lexing failed");
    p.parse_module().expect("parsing failed")
}

#[test]
fn precedence_parses_mul_above_add() {
    let m = parse("2 + 3 * 4");
    assert_eq!(m.stmts.len(), 1);
    match &m.stmts[0] {
        Stmt::Expr(Expr::Binary { op, lhs, rhs }) => {
            assert!(matches!(op, BinOp::Add));
            match &**lhs {
                Expr::Number(n) => assert_eq!(n, "2"),
                other => panic!("expected number, got {:?}", other),
            }
            match &**rhs {
                Expr::Binary { op, lhs, rhs } => {
                    assert!(matches!(op, BinOp::Mul));
                    assert!(matches!(&**lhs, Expr::Number(n) if n == "3"));
                    assert!(matches!(&**rhs, Expr::Number(n) if n == "4"));
                },
                other => panic!("expected binary, got {:?}", other),
            }
        },
        other => panic!("expected binary expression statement, got {:?}", other),
    }
}

#[test]
fn precedence_generated_text() {
    let out = compile("print(2 + 3 * 4)").expect("compile failed");
    assert_eq!(out, "fn main() {\n    println!(\"{}\", (2 + (3 * 4)));\n}\n");
}

#[test]
fn subtraction_is_left_associative() {
    let m = parse("10 - 3 - 2");
    assert_eq!(m.stmts.len(), 1);
    match &m.stmts[0] {
        Stmt::Expr(Expr::Binary { op, lhs, rhs }) => {
            assert!(matches!(op, BinOp::Sub));
            assert!(matches!(&**rhs, Expr::Number(n) if n == "2"));
            match &**lhs {
                Expr::Binary { op, lhs, rhs } => {
                    assert!(matches!(op, BinOp::Sub));
                    assert!(matches!(&**lhs, Expr::Number(n) if n == "10"));
                    assert!(matches!(&**rhs, Expr::Number(n) if n == "3"));
                },
                other => panic!("expected binary, got {:?}", other),
            }
        },
        other => panic!("expected binary expression statement, got {:?}", other),
    }
}

#[test]
fn let_then_print_in_order() {
    let out = compile("letpr x = 5\nprint(x)\n").expect("compile failed");
    assert_eq!(out, "fn main() {\n    let x = 5;\n    println!(\"{}\", x);\n}\n");
}

#[test]
fn comment_line_is_a_blank_line() {
    let with_comment = compile("print(1)\n# hello\nprint(2)\n").expect("compile failed");
    let with_blank = compile("print(1)\n\nprint(2)\n").expect("compile failed");
    assert_eq!(with_comment, with_blank);
    let m = parse("print(1)\n# hello\nprint(2)\n");
    assert_eq!(m.stmts.len(), 2);
}

#[test]
fn unterminated_string_fails_lexing() {
    let err = compile("\"abc").unwrap_err();
    match &err {
        CompileError::Lex(LexError::UnterminatedString) => {},
        other => panic!("expected unterminated string, got {:?}", other),
    }
    assert_eq!(err.message(), "unterminated string");
}

#[test]
fn print_without_arguments_emits_placeholder() {
    let out = compile("print()\n").expect("compile failed");
    assert_eq!(out, "fn main() {\n    println!(\"<print: missing arg>\");\n}\n");
}

#[test]
fn call_as_let_initializer_emits_placeholder_literal() {
    let out = compile("letpr x = foo(1, 2)\n").expect("compile failed");
    assert_eq!(out, "fn main() {\n    let x = \"<unsupported call>\";\n}\n");
}

#[test]
fn number_literals_render_canonically() {
    let out = compile("print(2.50)").expect("compile failed");
    assert_eq!(out, "fn main() {\n    println!(\"{}\", 2.5);\n}\n");
    let out = compile("print(007)").expect("compile failed");
    assert_eq!(out, "fn main() {\n    println!(\"{}\", 7);\n}\n");
    let out = compile("print(5.0)").expect("compile failed");
    assert_eq!(out, "fn main() {\n    println!(\"{}\", 5);\n}\n");
    let out = compile("print(12.)").expect("compile failed");
    assert_eq!(out, "fn main() {\n    println!(\"{}\", 12);\n}\n");
    let out = compile("print(0.0)").expect("compile failed");
    assert_eq!(out, "fn main() {\n    println!(\"{}\", 0);\n}\n");
}

#[test]
fn malformed_number_fails_lexing() {
    let err = compile("print(1.2.3)").unwrap_err();
    match &err {
        CompileError::Lex(LexError::InvalidNumber(text)) => assert_eq!(text, "1.2.3"),
        other => panic!("expected invalid number, got {:?}", other),
    }
    assert_eq!(err.message(), "invalid number literal: 1.2.3");
}

#[test]
fn unterminated_escape_fails_lexing() {
    let err = compile("\"abc\\").unwrap_err();
    match &err {
        CompileError::Lex(LexError::UnterminatedEscape) => {},
        other => panic!("expected unterminated escape, got {:?}", other),
    }
    assert_eq!(err.message(), "unterminated escape");
}

#[test]
fn unexpected_character_fails_lexing() {
    let err = compile("@").unwrap_err();
    match &err {
        CompileError::Lex(LexError::UnexpectedChar(c)) => assert_eq!(*c, '@'),
        other => panic!("expected unexpected char, got {:?}", other),
    }
    assert_eq!(err.message(), "unexpected char: @");
}

#[test]
fn letpr_without_name_fails_parsing() {
    let err = compile("letpr 5").unwrap_err();
    match &err {
        CompileError::Parse(ParseError::ExpectedIdentAfterLetpr) => {},
        other => panic!("expected missing identifier error, got {:?}", other),
    }
    assert_eq!(err.message(), "expected identifier after letpr");
}

#[test]
fn letpr_without_equals_fails_parsing() {
    let err = compile("letpr x 5").unwrap_err();
    match &err {
        CompileError::Parse(ParseError::ExpectedEqAfterIdent) => {},
        other => panic!("expected missing '=' error, got {:?}", other),
    }
    assert_eq!(err.message(), "expected '=' after identifier");
}

#[test]
fn unclosed_call_fails_parsing() {
    let err = compile("print(1").unwrap_err();
    assert!(matches!(&err, CompileError::Parse(ParseError::ExpectedCommaOrRParen(_))));
}

#[test]
fn unclosed_group_fails_parsing() {
    let err = compile("(1 + 2").unwrap_err();
    assert!(matches!(&err, CompileError::Parse(ParseError::ExpectedRParen)));
}

#[test]
fn stray_token_fails_parsing() {
    let err = compile(")").unwrap_err();
    assert!(matches!(&err, CompileError::Parse(ParseError::UnexpectedToken(_))));
    assert_eq!(err.message(), "unexpected token");
}

#[test]
fn string_contents_are_reescaped() {
    let out = compile("print(\"a\\nb\\t\\\"c\\\\d\")").expect("compile failed");
    assert_eq!(
        out,
        "fn main() {\n    println!(\"{}\", \"a\\nb\\t\\\"c\\\\d\");\n}\n"
    );
}

#[test]
fn unknown_escape_keeps_the_character() {
    let out = compile("print(\"a\\qb\")").expect("compile failed");
    assert_eq!(out, "fn main() {\n    println!(\"{}\", \"aqb\");\n}\n");
}

#[test]
fn empty_source_compiles_to_empty_main() {
    let out = compile("").expect("compile failed");
    assert_eq!(out, "fn main() {\n\n}\n");
}

#[test]
fn bare_expression_statement_is_a_no_op() {
    let out = compile("1 + 2\n").expect("compile failed");
    assert_eq!(out, "fn main() {\n\n}\n");
}

#[test]
fn non_print_call_statement_is_a_no_op() {
    let out = compile("foo(1)\n").expect("compile failed");
    assert_eq!(out, "fn main() {\n\n}\n");
}

#[test]
fn print_uses_only_its_first_argument() {
    let out = compile("print(1, 2)").expect("compile failed");
    assert_eq!(out, "fn main() {\n    println!(\"{}\", 1);\n}\n");
}

#[test]
fn parenthesized_grouping_overrides_precedence() {
    let out = compile("print((2 + 3) * 4)").expect("compile failed");
    assert_eq!(out, "fn main() {\n    println!(\"{}\", ((2 + 3) * 4));\n}\n");
}

#[test]
fn division_renders_parenthesized() {
    let out = compile("print(8 / 2 / 2)").expect("compile failed");
    assert_eq!(out, "fn main() {\n    println!(\"{}\", ((8 / 2) / 2));\n}\n");
}

#[test]
fn leading_and_trailing_blank_lines_are_elided() {
    let m = parse("\n\nprint(1)\n\n\n");
    assert_eq!(m.stmts.len(), 1);
}

#[test]
fn whitespace_is_skipped_outside_literals() {
    let out = compile("  print( \t 1 )  ").expect("compile failed");
    assert_eq!(out, "fn main() {\n    println!(\"{}\", 1);\n}\n");
}

#[test]
fn identifiers_may_hold_digits_and_underscores() {
    let out = compile("letpr x_1 = 2.5\nprint(x_1)\n").expect("compile failed");
    assert_eq!(out, "fn main() {\n    let x_1 = 2.5;\n    println!(\"{}\", x_1);\n}\n");
}

#[test]
fn nested_parentheses_group_correctly() {
    let out = compile("print(((1 + 2)) * (3 - 4))").expect("compile failed");
    assert_eq!(out, "fn main() {\n    println!(\"{}\", ((1 + 2) * (3 - 4)));\n}\n");
}

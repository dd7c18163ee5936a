use pyroc::ast::{BinOp, Expr, Module, Stmt};
use pyroc::gen::{escape_rust, generate, generate_stmt, indent, op_char};
use pyroc::lexer::{is_ident_cont, is_ident_start, Lexer};

#[test]
fn ident_start_characters() {
    assert!(is_ident_start('a'));
    assert!(is_ident_start('Z'));
    assert!(is_ident_start('_'));
    assert!(!is_ident_start('1'));
    assert!(!is_ident_start('#'));
}

#[test]
fn ident_continuation_characters() {
    assert!(is_ident_cont('a'));
    assert!(is_ident_cont('_'));
    assert!(is_ident_cont('7'));
    assert!(!is_ident_cont('.'));
    assert!(!is_ident_cont(' '));
}

#[test]
fn lexer_peek_and_bump() {
    let mut lx = Lexer::new("ab");
    assert_eq!(lx.peek(), Some('a'));
    assert_eq!(lx.peek(), Some('a'));
    assert_eq!(lx.bump(), Some('a'));
    assert_eq!(lx.bump(), Some('b'));
    assert_eq!(lx.peek(), None);
    assert_eq!(lx.bump(), None);
}

#[test]
fn escape_rust_reescapes_special_characters() {
    assert_eq!(escape_rust("a\"b\\c\nd\te"), "a\\\"b\\\\c\\nd\\te");
    assert_eq!(escape_rust(""), "");
    assert_eq!(escape_rust("plain"), "plain");
}

#[test]
fn indent_pads_each_line_and_drops_final_newline() {
    assert_eq!(indent("a\nb\n", 4), "    a\n    b");
    assert_eq!(indent("a", 2), "  a");
    assert_eq!(indent("", 4), "");
    assert_eq!(indent("a\r\nb", 4), "    a\n    b");
    assert_eq!(indent("a\n\nb", 4), "    a\n    \n    b");
}

#[test]
fn op_char_renders_operators() {
    assert_eq!(op_char(BinOp::Add), '+');
    assert_eq!(op_char(BinOp::Sub), '-');
    assert_eq!(op_char(BinOp::Mul), '*');
    assert_eq!(op_char(BinOp::Div), '/');
}

fn print_stmt(arg: Expr) -> Stmt {
    Stmt::Expr(Expr::Call { callee: String::from("print"), args: vec![arg] })
}

#[test]
fn if_statement_generates_truthiness_guard() {
    let stmt = Stmt::If {
        cond: Expr::Ident(String::from("x")),
        then_block: vec![print_stmt(Expr::Number(String::from("1")))],
        else_block: vec![],
    };
    let code = generate_stmt(&stmt);
    assert_eq!(code, "if (x as f64) != 0.0 {\n    println!(\"{}\", 1);}\n");
}

#[test]
fn if_statement_with_else_block() {
    let stmt = Stmt::If {
        cond: Expr::Number(String::from("0")),
        then_block: vec![print_stmt(Expr::Number(String::from("1")))],
        else_block: vec![print_stmt(Expr::Number(String::from("2")))],
    };
    let code = generate_stmt(&stmt);
    assert_eq!(
        code,
        "if (0 as f64) != 0.0 {\n    println!(\"{}\", 1);}\nelse {\n    println!(\"{}\", 2);}\n"
    );
}

#[test]
fn generate_wraps_statements_in_main() {
    let m = Module {
        stmts: vec![
            Stmt::Let { name: String::from("x"), expr: Expr::Number(String::from("3")) },
            print_stmt(Expr::Ident(String::from("x"))),
        ],
    };
    assert_eq!(generate(&m), "fn main() {\n    let x = 3;\n    println!(\"{}\", x);\n}\n");
}

#[test]
fn call_in_value_position_renders_placeholder() {
    let m = Module {
        stmts: vec![Stmt::Let {
            name: String::from("y"),
            expr: Expr::Call { callee: String::from("foo"), args: vec![] },
        }],
    };
    assert_eq!(generate(&m), "fn main() {\n    let y = \"<unsupported call>\";\n}\n");
}

use vstd::prelude::*;
use crate::ast::{BinOp, Expr, ExprM, Module, Stmt, StmtM, exprs_view, stmts_view};
use crate::strbuf::push_char;

verus! {

use vstd::string::StrSliceExecFns;
use vstd::string::StringExecFns;

broadcast use vstd::seq::axiom_seq_index_decreases, vstd::std_specs::vec::axiom_vec_decreases_to_view;

pub open spec fn op_char_of(op: BinOp) -> char {
    match op {
        BinOp::Add => '+',
        BinOp::Sub => '-',
        BinOp::Mul => '*',
        BinOp::Div => '/',
    }
}

/// The source character of an operator.
pub fn op_char(op: BinOp) -> (c: char)
    ensures
        c == op_char_of(op),
{
    match op {
        BinOp::Add => '+',
        BinOp::Sub => '-',
        BinOp::Mul => '*',
        BinOp::Div => '/',
    }
}

/// How one character is escaped in a host-language string literal.
pub open spec fn esc_seq(c: char) -> Seq<char> {
    if c == '\\' {
        seq!['\\', '\\']
    } else if c == '"' {
        seq!['\\', '"']
    } else if c == '\n' {
        seq!['\\', 'n']
    } else if c == '\t' {
        seq!['\\', 't']
    } else {
        seq![c]
    }
}

pub open spec fn escape_from(s: Seq<char>, i: int) -> Seq<char>
    decreases s.len() - i,
{
    if i < 0 || i >= s.len() {
        Seq::empty()
    } else {
        esc_seq(s[i]) + escape_from(s, i + 1)
    }
}

/// The text of `s` with backslash, quote, newline and tab re-escaped.
pub open spec fn spec_escape(s: Seq<char>) -> Seq<char> {
    escape_from(s, 0)
}

/// Re-escapes decoded string contents for a host-language literal.
pub fn escape_rust(s: &str) -> (r: String)
    ensures
        r@ == spec_escape(s@),
{
    let n = s.unicode_len();
    let mut r = String::new();
    let mut i: usize = 0;
    while i < n
        invariant
            0 <= i <= n,
            n == s@.len(),
            spec_escape(s@) =~= r@ + escape_from(s@, i as int),
        decreases n - i,
    {
        let c = s.get_char(i);
        let ghost r0 = r@;
        if c == '\\' {
            r.append("\\\\");
            proof {
                reveal_strlit("\\\\");
                assert(r@ =~= r0 + esc_seq(c));
            }
        } else if c == '"' {
            r.append("\\\"");
            proof {
                reveal_strlit("\\\"");
                assert(r@ =~= r0 + esc_seq(c));
            }
        } else if c == '\n' {
            r.append("\\n");
            proof {
                reveal_strlit("\\n");
                assert(r@ =~= r0 + esc_seq(c));
            }
        } else if c == '\t' {
            r.append("\\t");
            proof {
                reveal_strlit("\\t");
                assert(r@ =~= r0 + esc_seq(c));
            }
        } else {
            push_char(&mut r, c);
            proof {
                assert(r@ =~= r0 + esc_seq(c));
            }
        }
        proof {
            assert(escape_from(s@, i as int) == esc_seq(s@[i as int]) + escape_from(s@, i + 1));
            assert(r0 + escape_from(s@, i as int) =~= r@ + escape_from(s@, i + 1));
        }
        i = i + 1;
    }
    proof {
        assert(escape_from(s@, n as int) =~= Seq::<char>::empty());
        assert(r@ + Seq::<char>::empty() =~= r@);
    }
    r
}

pub open spec fn spec_spaces(n: nat) -> Seq<char>
    decreases n,
{
    if n == 0 {
        Seq::empty()
    } else {
        spec_spaces((n - 1) as nat).push(' ')
    }
}

/// Indentation of the text after its first line: a newline that ends the
/// text is dropped, every other newline is followed by the pad, and a
/// carriage return directly before a newline is dropped, as the host
/// line iterator does.
pub open spec fn indent_from(s: Seq<char>, pad: Seq<char>, i: int) -> Seq<char>
    decreases s.len() - i,
{
    if i < 0 || i >= s.len() {
        Seq::empty()
    } else if s[i] == '\r' && i + 1 < s.len() && s[i + 1] == '\n' {
        indent_from(s, pad, i + 1)
    } else if s[i] == '\n' {
        if i + 1 < s.len() {
            seq!['\n'] + pad + indent_from(s, pad, i + 1)
        } else {
            Seq::empty()
        }
    } else {
        seq![s[i]] + indent_from(s, pad, i + 1)
    }
}

/// Every line of `s` prefixed with `n` spaces; empty text stays empty.
pub open spec fn spec_indent(s: Seq<char>, n: nat) -> Seq<char> {
    if s.len() == 0 {
        Seq::empty()
    } else {
        spec_spaces(n) + indent_from(s, spec_spaces(n), 0)
    }
}

/// Prefixes each line of `s` with `n` spaces.
pub fn indent(s: &str, n: usize) -> (r: String)
    ensures
        r@ == spec_indent(s@, n as nat),
{
    let len = s.unicode_len();
    if len == 0 {
        let r = String::new();
        return r;
    }
    let mut pad = String::new();
    let mut k: usize = 0;
    while k < n
        invariant
            0 <= k <= n,
            pad@ =~= spec_spaces(k as nat),
        decreases n - k,
    {
        push_char(&mut pad, ' ');
        k = k + 1;
    }
    let mut r = pad.clone();
    let mut i: usize = 0;
    while i < len
        invariant
            0 <= i <= len,
            len == s@.len(),
            pad@ =~= spec_spaces(n as nat),
            spec_indent(s@, n as nat) =~= r@ + indent_from(s@, pad@, i as int),
        decreases len - i,
    {
        let c = s.get_char(i);
        let ghost r0 = r@;
        if c == '\r' && i + 1 < len && s.get_char(i + 1) == '\n' {
            proof {
                assert(r0 + indent_from(s@, pad@, i as int) =~= r@ + indent_from(
                    s@,
                    pad@,
                    i + 1,
                ));
            }
        } else if c == '\n' {
            if i + 1 < len {
                push_char(&mut r, '\n');
                r.append(pad.as_str());
                proof {
                    assert(r@ =~= r0 + seq!['\n'] + pad@);
                    assert(r0 + indent_from(s@, pad@, i as int) =~= r@ + indent_from(
                        s@,
                        pad@,
                        i + 1,
                    ));
                }
            } else {
                proof {
                    assert(indent_from(s@, pad@, i as int) =~= Seq::<char>::empty());
                    assert(indent_from(s@, pad@, i + 1) =~= Seq::<char>::empty());
                }
            }
        } else {
            push_char(&mut r, c);
            proof {
                assert(r@ =~= r0 + seq![s@[i as int]]);
                assert(r0 + indent_from(s@, pad@, i as int) =~= r@ + indent_from(
                    s@,
                    pad@,
                    i + 1,
                ));
            }
        }
        i = i + 1;
    }
    proof {
        assert(indent_from(s@, pad@, len as int) =~= Seq::<char>::empty());
        assert(r@ + Seq::<char>::empty() =~= r@);
    }
    r
}

/// What a call in value position renders to: a fixed placeholder
/// literal, never a working call.
pub open spec fn call_placeholder() -> Seq<char> {
    "\"<unsupported call>\""@
}

/// The host-language text of an expression: literals in their textual or
/// quoted form, binary operations fully parenthesized, a value-position
/// call as the placeholder literal.
pub open spec fn expr_text(e: ExprM) -> Seq<char>
    decreases e,
{
    match e {
        ExprM::Number(s) => s,
        ExprM::Str(s) => seq!['"'] + spec_escape(s) + seq!['"'],
        ExprM::Ident(s) => s,
        ExprM::Binary { op, lhs, rhs } => seq!['('] + expr_text(*lhs) + seq![
            ' ',
            op_char_of(op),
            ' ',
        ] + expr_text(*rhs) + seq![')'],
        ExprM::Call { callee, args } => call_placeholder(),
    }
}

/// Renders one expression as host-language text.
pub fn expr_to_rust(e: &Expr) -> (r: String)
    ensures
        r@ == expr_text(e@),
    decreases e,
{
    match e {
        Expr::Number(s) => s.clone(),
        Expr::Str(s) => {
            let mut r = String::from_str("\"");
            let esc = escape_rust(s.as_str());
            r.append(esc.as_str());
            r.append("\"");
            proof {
                reveal_strlit("\"");
                assert(r@ =~= expr_text(e@));
            }
            r
        },
        Expr::Ident(s) => s.clone(),
        Expr::Binary { op, lhs, rhs } => {
            let l = expr_to_rust(lhs);
            let rr = expr_to_rust(rhs);
            let mut r = String::from_str("(");
            r.append(l.as_str());
            push_char(&mut r, ' ');
            push_char(&mut r, op_char(*op));
            push_char(&mut r, ' ');
            r.append(rr.as_str());
            r.append(")");
            proof {
                reveal_strlit("(");
                reveal_strlit(")");
                assert(r@ =~= expr_text(e@));
            }
            r
        },
        Expr::Call { callee, args } => String::from_str("\"<unsupported call>\""),
    }
}

/// The host-language code of one statement. A `print` call statement is
/// the builtin print; any other expression statement is a no-op; an `if`
/// tests the numeric value against zero and indents its blocks.
pub open spec fn stmt_code(st: StmtM) -> Seq<char>
    decreases st, 0int,
{
    match st {
        StmtM::Expr(e) => match e {
            ExprM::Call { callee, args } => if callee == "print"@ {
                if args.len() > 0 {
                    "println!(\"{}\", "@ + expr_text(args[0]) + ");\n"@
                } else {
                    "println!(\"<print: missing arg>\");\n"@
                }
            } else {
                Seq::empty()
            },
            _ => Seq::empty(),
        },
        StmtM::Let { name, expr } => "let "@ + name + " = "@ + expr_text(expr) + ";\n"@,
        StmtM::If { cond, then_block, else_block } => {
            let head = "if ("@ + expr_text(cond) + " as f64) != 0.0 {\n"@ + block_code(
                then_block,
                0,
            ) + "}\n"@;
            if else_block.len() > 0 {
                head + "else {\n"@ + block_code(else_block, 0) + "}\n"@
            } else {
                head
            }
        },
    }
}

/// The code of a nested block: each statement's code indented.
pub open spec fn block_code(ss: Seq<StmtM>, k: int) -> Seq<char>
    decreases ss, ss.len() - k,
{
    if k < 0 || k >= ss.len() {
        Seq::empty()
    } else {
        spec_indent(stmt_code(ss[k]), 4) + block_code(ss, k + 1)
    }
}

/// Whether a string holds exactly the name of the builtin print.
fn is_print(s: &String) -> (r: bool)
    ensures
        r == (s@ == "print"@),
{
    proof {
        reveal_strlit("print");
    }
    let st = s.as_str();
    if st.unicode_len() != 5 {
        return false;
    }
    let r = st.get_char(0) == 'p' && st.get_char(1) == 'r' && st.get_char(2) == 'i'
        && st.get_char(3) == 'n' && st.get_char(4) == 't';
    proof {
        if r {
            assert(s@ =~= "print"@);
        }
    }
    r
}

/// Renders one statement as host-language code.
#[verifier::loop_isolation(false)]
pub fn generate_stmt(stmt: &Stmt) -> (r: String)
    ensures
        r@ == stmt_code(stmt@),
    decreases stmt,
{
    match stmt {
        Stmt::Expr(e) => match e {
            Expr::Call { callee, args } => {
                if is_print(callee) {
                    if args.len() > 0 {
                        let mut r = String::from_str("println!(\"{}\", ");
                        let at = expr_to_rust(&args[0]);
                        r.append(at.as_str());
                        r.append(");\n");
                        proof {
                            assert(exprs_view(args@)[0] == args@[0]@);
                            assert(r@ =~= stmt_code(stmt@));
                        }
                        r
                    } else {
                        let r = String::from_str("println!(\"<print: missing arg>\");\n");
                        proof {
                            assert(stmt@ == StmtM::Expr(
                                ExprM::Call { callee: callee@, args: exprs_view(args@) },
                            ));
                            assert(exprs_view(args@).len() == 0);
                            assert(stmt_code(stmt@) == "println!(\"<print: missing arg>\");\n"@);
                            assert(r@ == "println!(\"<print: missing arg>\");\n"@);
                            assert(r@ =~= stmt_code(stmt@));
                        }
                        r
                    }
                } else {
                    let r = String::new();
                    proof {
                        assert(r@ =~= Seq::<char>::empty());
                    }
                    r
                }
            },
            _ => {
                let r = String::new();
                proof {
                    assert(r@ =~= Seq::<char>::empty());
                }
                r
            },
        },
        Stmt::Let { name, expr } => {
            let mut r = String::from_str("let ");
            r.append(name.as_str());
            r.append(" = ");
            let et = expr_to_rust(expr);
            r.append(et.as_str());
            r.append(";\n");
            proof {
                assert(r@ =~= stmt_code(stmt@));
            }
            r
        },
        Stmt::If { cond, then_block, else_block } => {
            let mut r = String::from_str("if (");
            let ct = expr_to_rust(cond);
            r.append(ct.as_str());
            r.append(" as f64) != 0.0 {\n");
            let ghost head0 = r@;
            let ghost tbv = stmts_view(then_block@);
            let mut k: usize = 0;
            while k < then_block.len()
                invariant
                    0 <= k <= then_block.len(),
                    tbv == stmts_view(then_block@),
                    tbv.len() == then_block@.len(),
                    head0 + block_code(tbv, 0) =~= r@ + block_code(tbv, k as int),
                decreases then_block.len() - k,
            {
                proof {
                    assert(decreases_to!(*stmt => (*stmt)->If_then_block));
                    assert(decreases_to!(*stmt => then_block@[k as int]));
                }
                let sc = generate_stmt(&then_block[k]);
                let ind = indent(sc.as_str(), 4);
                let ghost r0 = r@;
                r.append(ind.as_str());
                proof {
                    assert(tbv[k as int] == then_block@[k as int]@);
                    assert(block_code(tbv, k as int) == spec_indent(stmt_code(tbv[k as int]), 4)
                        + block_code(tbv, k + 1));
                    assert(r0 + block_code(tbv, k as int) =~= r@ + block_code(tbv, k + 1));
                }
                k = k + 1;
            }
            proof {
                assert(block_code(tbv, then_block@.len() as int) =~= Seq::<char>::empty());
                assert(r@ =~= head0 + block_code(tbv, 0));
            }
            r.append("}\n");
            let ghost ebv = stmts_view(else_block@);
            if else_block.len() > 0 {
                r.append("else {\n");
                let ghost head1 = r@;
                let mut k2: usize = 0;
                while k2 < else_block.len()
                    invariant
                        0 <= k2 <= else_block.len(),
                        ebv == stmts_view(else_block@),
                        ebv.len() == else_block@.len(),
                        head1 + block_code(ebv, 0) =~= r@ + block_code(ebv, k2 as int),
                    decreases else_block.len() - k2,
                {
                    proof {
                        assert(decreases_to!(*stmt => (*stmt)->If_else_block));
                        assert(decreases_to!(*stmt => else_block@[k2 as int]));
                    }
                    let sc = generate_stmt(&else_block[k2]);
                    let ind = indent(sc.as_str(), 4);
                    let ghost r0 = r@;
                    r.append(ind.as_str());
                    proof {
                        assert(ebv[k2 as int] == else_block@[k2 as int]@);
                        assert(block_code(ebv, k2 as int) == spec_indent(
                            stmt_code(ebv[k2 as int]),
                            4,
                        ) + block_code(ebv, k2 + 1));
                        assert(r0 + block_code(ebv, k2 as int) =~= r@ + block_code(ebv, k2 + 1));
                    }
                    k2 = k2 + 1;
                }
                proof {
                    assert(block_code(ebv, else_block@.len() as int) =~= Seq::<char>::empty());
                }
                r.append("}\n");
                proof {
                    assert(r@ =~= stmt_code(stmt@));
                }
                r
            } else {
                proof {
                    assert(r@ =~= stmt_code(stmt@));
                }
                r
            }
        },
    }
}

/// The body of the program: the statements' code in source order.
pub open spec fn body_from(ss: Seq<StmtM>, k: int) -> Seq<char>
    decreases ss.len() - k,
{
    if k < 0 || k >= ss.len() {
        Seq::empty()
    } else {
        stmt_code(ss[k]) + body_from(ss, k + 1)
    }
}

/// The whole translation unit: one entry function holding the indented
/// body.
pub open spec fn spec_generate(m: Seq<StmtM>) -> Seq<char> {
    "fn main() {\n"@ + spec_indent(body_from(m, 0), 4) + "\n}\n"@
}

/// Renders a module as one host-language translation unit.
pub fn generate(m: &Module) -> (r: String)
    ensures
        r@ == spec_generate(m@),
{
    let mut body = String::new();
    let ghost mv = stmts_view(m.stmts@);
    let mut k: usize = 0;
    while k < m.stmts.len()
        invariant
            0 <= k <= m.stmts.len(),
            mv == stmts_view(m.stmts@),
            mv.len() == m.stmts@.len(),
            body_from(mv, 0) =~= body@ + body_from(mv, k as int),
        decreases m.stmts.len() - k,
    {
        let sc = generate_stmt(&m.stmts[k]);
        let ghost b0 = body@;
        body.append(sc.as_str());
        proof {
            assert(mv[k as int] == m.stmts@[k as int]@);
            assert(body_from(mv, k as int) == stmt_code(mv[k as int]) + body_from(mv, k + 1));
            assert(b0 + body_from(mv, k as int) =~= body@ + body_from(mv, k + 1));
        }
        k = k + 1;
    }
    proof {
        assert(body_from(mv, m.stmts@.len() as int) =~= Seq::<char>::empty());
        assert(body@ =~= body_from(mv, 0));
    }
    let ind = indent(body.as_str(), 4);
    let mut r = String::from_str("fn main() {\n");
    r.append(ind.as_str());
    r.append("\n}\n");
    proof {
        assert(r@ =~= spec_generate(m@));
    }
    r
}

} // verus!

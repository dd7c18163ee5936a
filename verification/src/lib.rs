use vstd::prelude::*;

pub mod ast;
pub mod gen;
pub mod lexer;
pub mod numlit;
pub mod parser;
mod strbuf;

pub use ast::{BinOp, Expr, ExprM, Module, Stmt, StmtM};
pub use gen::{escape_rust, generate, generate_stmt, indent, op_char};
pub use lexer::{LexError, Lexer};
pub use parser::{ParseError, Parser};

use crate::gen::{call_placeholder, expr_text, spec_generate, stmt_code};
use crate::lexer::{
    LexErrorM, LexStep, TokM, lemma_comment_line_is_blank_line, lex_error_message, next_token_at,
    spec_tokenize,
};
use crate::numlit::{canon_num, lemma_canon_num_equiv, num_equiv, valid_number};
use crate::parser::{ParseErrorM, parse_error_message, parse_module_at};

verus! {

/// Why a compilation failed: in lexing or in parsing. Code generation is
/// total and never fails.
#[derive(Debug, Clone)]
pub enum CompileError {
    Lex(LexError),
    Parse(ParseError),
}

/// Mathematical model of a compilation failure.
pub ghost enum CompileErrorM {
    Lex(LexErrorM),
    Parse(ParseErrorM),
}

impl View for CompileError {
    type V = CompileErrorM;

    open spec fn view(&self) -> CompileErrorM {
        match self {
            CompileError::Lex(e) => CompileErrorM::Lex(e@),
            CompileError::Parse(e) => CompileErrorM::Parse(e@),
        }
    }
}

pub open spec fn compile_error_message(e: CompileErrorM) -> Seq<char> {
    match e {
        CompileErrorM::Lex(le) => lex_error_message(le),
        CompileErrorM::Parse(pe) => parse_error_message(pe),
    }
}

impl CompileError {
    /// The human-readable message for this failure.
    pub fn message(&self) -> (r: String)
        ensures
            r@ == compile_error_message(self@),
    {
        match self {
            CompileError::Lex(e) => e.message(),
            CompileError::Parse(e) => e.message(),
        }
    }
}

/// The whole pipeline on a source text: tokens, then the statement list,
/// then the generated host-language text. The first failure is the
/// compilation's failure; generation itself cannot fail.
pub open spec fn spec_compile(s: Seq<char>) -> Result<Seq<char>, CompileErrorM> {
    match spec_tokenize(s) {
        Err(e) => Err(CompileErrorM::Lex(e)),
        Ok(toks) => match parse_module_at(toks, 0) {
            Err(pe) => Err(CompileErrorM::Parse(pe)),
            Ok(stmts) => Ok(spec_generate(stmts)),
        },
    }
}

/// Translates one source text into host-language source text, or fails
/// with the first lexing or parsing error.
pub fn compile(src: &str) -> (r: Result<String, CompileError>)
    requires
        src@.len() < usize::MAX,
    ensures
        match r {
            Ok(out) => spec_compile(src@) == Ok::<Seq<char>, CompileErrorM>(out@),
            Err(e) => spec_compile(src@) == Err::<Seq<char>, CompileErrorM>(e@),
        },
{
    let mut p = match Parser::new(src) {
        Ok(p) => p,
        Err(e) => {
            return Err(CompileError::Lex(e));
        },
    };
    let m = match p.parse_module() {
        Ok(m) => m,
        Err(e) => {
            return Err(CompileError::Parse(e));
        },
    };
    Ok(generate(&m))
}

// What follows states, once and for all inputs, laws the library is
// built around; each is proved from the specifications above.

/// A source text that is exactly one valid numeric literal lexes to a
/// number token holding the canonical text, and that text — which the
/// code generator renders verbatim for a number expression — denotes
/// the same rational number as the source literal.
pub proof fn lemma_number_round_trip(s: Seq<char>)
    requires
        valid_number(s),
    ensures
        next_token_at(s, 0) == LexStep::Tok(TokM::Num(canon_num(s)), s.len() as int),
        expr_text(ExprM::Number(canon_num(s))) == canon_num(s),
        num_equiv(canon_num(s), s),
{
    lemma_num_end_is_len(s, 1);
    assert(s.subrange(0, s.len() as int) =~= s);
    lemma_canon_num_equiv(s);
}

proof fn lemma_num_end_is_len(s: Seq<char>, i: int)
    requires
        0 <= i <= s.len(),
        forall|k: int|
            0 <= k < s.len() ==> crate::numlit::is_digit_char(#[trigger] s[k]) || s[k] == '.',
    ensures
        crate::lexer::num_end(s, i) == s.len(),
    decreases s.len() - i,
{
    if i < s.len() {
        lemma_num_end_is_len(s, i + 1);
    }
}

/// An unterminated string fails lexing — and so the whole compilation,
/// before any parsing — with the unterminated-string error: a source
/// text that opens a quote never closed, with no backslash after it,
/// cannot be tokenized.
pub proof fn lemma_unterminated_string(s: Seq<char>)
    requires
        s.len() > 0,
        s[0] == '"',
        forall|k: int| 0 < k < s.len() ==> s[k] != '"' && s[k] != '\\',
    ensures
        spec_tokenize(s) == Err::<Seq<TokM>, LexErrorM>(LexErrorM::UnterminatedString),
        spec_compile(s) == Err::<Seq<char>, CompileErrorM>(
            CompileErrorM::Lex(LexErrorM::UnterminatedString),
        ),
{
    lemma_lex_string_unterminated(s, 1, Seq::empty());
}

proof fn lemma_lex_string_unterminated(s: Seq<char>, i: int, acc: Seq<char>)
    requires
        0 < i <= s.len(),
        forall|k: int| 0 < k < s.len() ==> s[k] != '"' && s[k] != '\\',
    ensures
        crate::lexer::lex_string_from(s, i, acc) == LexStep::Fail(LexErrorM::UnterminatedString),
    decreases s.len() - i,
{
    if i < s.len() {
        lemma_lex_string_unterminated(s, i + 1, acc.push(s[i]));
    }
}

/// A source text that begins with a comment line tokenizes — and so
/// compiles — exactly as the same text with the comment line replaced
/// by a blank line: the comment never becomes a statement of its own.
pub proof fn lemma_comment_line_compiles_like_blank_line(c: Seq<char>, rest: Seq<char>)
    requires
        forall|k: int| 0 <= k < c.len() ==> c[k] != '\n',
    ensures
        spec_compile(seq!['#'] + c + seq!['\n'] + rest) == spec_compile(seq!['\n'] + rest),
{
    lemma_comment_line_is_blank_line(c, rest);
}

/// A print statement with no arguments generates the fixed placeholder
/// print, rather than failing: generation is total.
pub proof fn lemma_print_no_args(callee: Seq<char>)
    requires
        callee == "print"@,
    ensures
        stmt_code(StmtM::Expr(ExprM::Call { callee: callee, args: Seq::empty() }))
            == "println!(\"<print: missing arg>\");\n"@,
{
}

/// A call expression in value position — for every callee and every
/// argument list — renders as the fixed placeholder literal, not a
/// working call; in particular a call on the right-hand side of a
/// binding renders as that placeholder.
pub proof fn lemma_call_value_placeholder(callee: Seq<char>, args: Seq<ExprM>, name: Seq<char>)
    ensures
        expr_text(ExprM::Call { callee, args }) == call_placeholder(),
        stmt_code(StmtM::Let { name, expr: ExprM::Call { callee, args } }) == "let "@ + name
            + " = "@ + call_placeholder() + ";\n"@,
{
}

} // verus!

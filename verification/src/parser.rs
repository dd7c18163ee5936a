use vstd::prelude::*;
use crate::ast::{BinOp, Expr, ExprM, Module, Stmt, StmtM, exprs_view, stmts_view};
use crate::lexer::{
    LexError, LexErrorM, Lexer, Tok, TokM, lemma_next_token_progress, spec_tokenize, tokenize_from,
};

verus! {

use vstd::string::StrSliceExecFns;
use vstd::string::StringExecFns;

/// A token stream that does not match the grammar: the reasons parsing
/// can fail, some carrying the offending token.
#[derive(Debug, Clone)]
pub enum ParseError {
    ExpectedIdentAfterLetpr,
    ExpectedEqAfterIdent,
    ExpectedCommaOrRParen(Tok),
    ExpectedRParen,
    UnexpectedToken(Tok),
}

/// Mathematical model of a parsing failure.
pub ghost enum ParseErrorM {
    ExpectedIdentAfterLetpr,
    ExpectedEqAfterIdent,
    ExpectedCommaOrRParen(TokM),
    ExpectedRParen,
    UnexpectedToken(TokM),
}

impl View for ParseError {
    type V = ParseErrorM;

    open spec fn view(&self) -> ParseErrorM {
        match self {
            ParseError::ExpectedIdentAfterLetpr => ParseErrorM::ExpectedIdentAfterLetpr,
            ParseError::ExpectedEqAfterIdent => ParseErrorM::ExpectedEqAfterIdent,
            ParseError::ExpectedCommaOrRParen(t) => ParseErrorM::ExpectedCommaOrRParen(t@),
            ParseError::ExpectedRParen => ParseErrorM::ExpectedRParen,
            ParseError::UnexpectedToken(t) => ParseErrorM::UnexpectedToken(t@),
        }
    }
}

pub open spec fn parse_error_message(e: ParseErrorM) -> Seq<char> {
    match e {
        ParseErrorM::ExpectedIdentAfterLetpr => "expected identifier after letpr"@,
        ParseErrorM::ExpectedEqAfterIdent => "expected '=' after identifier"@,
        ParseErrorM::ExpectedCommaOrRParen(_) => "expected ',' or ')'"@,
        ParseErrorM::ExpectedRParen => "expected ')'"@,
        ParseErrorM::UnexpectedToken(_) => "unexpected token"@,
    }
}

impl ParseError {
    /// The human-readable message for this failure.
    pub fn message(&self) -> (r: String)
        ensures
            r@ == parse_error_message(self@),
    {
        match self {
            ParseError::ExpectedIdentAfterLetpr => String::from_str(
                "expected identifier after letpr",
            ),
            ParseError::ExpectedEqAfterIdent => String::from_str("expected '=' after identifier"),
            ParseError::ExpectedCommaOrRParen(_) => String::from_str("expected ',' or ')'"),
            ParseError::ExpectedRParen => String::from_str("expected ')'"),
            ParseError::UnexpectedToken(_) => String::from_str("unexpected token"),
        }
    }
}

/// The models of a token sequence.
pub open spec fn toks_view(ts: Seq<Tok>) -> Seq<TokM> {
    Seq::new(ts.len(), |k: int| ts[k]@)
}

/// The token at `i`, or end-of-input beyond the stream.
pub open spec fn tok_at(t: Seq<TokM>, i: int) -> TokM {
    if 0 <= i < t.len() {
        t[i]
    } else {
        TokM::Eof
    }
}

/// Binding power of an operator token: multiplicative above additive.
pub open spec fn prec_of(t: TokM) -> Option<int> {
    match t {
        TokM::Plus => Some(10int),
        TokM::Minus => Some(10int),
        TokM::Star => Some(20int),
        TokM::Slash => Some(20int),
        _ => None,
    }
}

/// The operator an operator token denotes. Only meaningful where
/// `prec_of` is `Some`.
pub open spec fn op_of(t: TokM) -> BinOp {
    match t {
        TokM::Minus => BinOp::Sub,
        TokM::Star => BinOp::Mul,
        TokM::Slash => BinOp::Div,
        _ => BinOp::Add,
    }
}

/// One step of expression parsing: the expression found and the position
/// after it, or a failure.
pub ghost enum ExpStep {
    Exp(ExprM, int),
    Fail(ParseErrorM),
}

// The position guards (`i < j`) in the following definitions carry to the
// termination checker what holds of every reachable call: a successful
// sub-parse consumes at least one token. The guarded failure branches are
// never reached.

/// Parsing of a primary expression at `i`: a literal, an identifier, a
/// call, or a parenthesized sub-expression.
pub open spec fn parse_primary_at(t: Seq<TokM>, i: int) -> ExpStep
    decreases t.len() - i, 1int,
{
    match tok_at(t, i) {
        TokM::Num(s) => ExpStep::Exp(ExprM::Number(s), i + 1),
        TokM::Str(s) => ExpStep::Exp(ExprM::Str(s), i + 1),
        TokM::Ident(name) => if tok_at(t, i + 1) is LParen {
            if tok_at(t, i + 2) is RParen {
                ExpStep::Exp(ExprM::Call { callee: name, args: Seq::empty() }, i + 3)
            } else {
                parse_args_at(t, i + 2, name, Seq::empty())
            }
        } else {
            ExpStep::Exp(ExprM::Ident(name), i + 1)
        },
        TokM::LParen => match parse_expr_at(t, i + 1, 0) {
            ExpStep::Exp(e, j) => if tok_at(t, j) is RParen {
                ExpStep::Exp(e, j + 1)
            } else {
                ExpStep::Fail(ParseErrorM::ExpectedRParen)
            },
            ExpStep::Fail(pe) => ExpStep::Fail(pe),
        },
        other => ExpStep::Fail(ParseErrorM::UnexpectedToken(other)),
    }
}

/// Parsing of call arguments from `i`, with `acc` the arguments already
/// parsed: comma-separated expressions up to the closing parenthesis.
pub open spec fn parse_args_at(t: Seq<TokM>, i: int, callee: Seq<char>, acc: Seq<ExprM>) -> ExpStep
    decreases t.len() - i, 3int,
{
    match parse_expr_at(t, i, 0) {
        ExpStep::Fail(pe) => ExpStep::Fail(pe),
        ExpStep::Exp(a, j) => {
            let acc2 = acc.push(a);
            match tok_at(t, j) {
                TokM::Comma => if i < j + 1 && j + 1 <= t.len() {
                    parse_args_at(t, j + 1, callee, acc2)
                } else {
                    ExpStep::Fail(ParseErrorM::ExpectedRParen)
                },
                TokM::RParen => ExpStep::Exp(ExprM::Call { callee, args: acc2 }, j + 1),
                other => ExpStep::Fail(ParseErrorM::ExpectedCommaOrRParen(other)),
            }
        },
    }
}

/// Precedence climbing: a primary expression followed by operators of
/// binding power at least `min_bp`, recursing right with one more than
/// the operator's power, which makes both levels left-associative.
pub open spec fn parse_expr_at(t: Seq<TokM>, i: int, min_bp: int) -> ExpStep
    decreases t.len() - i, 2int,
{
    match parse_primary_at(t, i) {
        ExpStep::Fail(pe) => ExpStep::Fail(pe),
        ExpStep::Exp(lhs, j) => if i < j && j <= t.len() {
            parse_binops_at(t, j, lhs, min_bp)
        } else {
            ExpStep::Fail(ParseErrorM::ExpectedRParen)
        },
    }
}

/// The operator loop of precedence climbing, with `lhs` the expression
/// parsed so far.
pub open spec fn parse_binops_at(t: Seq<TokM>, i: int, lhs: ExprM, min_bp: int) -> ExpStep
    decreases t.len() - i, 4int,
{
    match prec_of(tok_at(t, i)) {
        None => ExpStep::Exp(lhs, i),
        Some(p) => if p < min_bp {
            ExpStep::Exp(lhs, i)
        } else {
            match parse_expr_at(t, i + 1, p + 1) {
                ExpStep::Fail(pe) => ExpStep::Fail(pe),
                ExpStep::Exp(rhs, k) => {
                    let combined = ExprM::Binary {
                        op: op_of(tok_at(t, i)),
                        lhs: Box::new(lhs),
                        rhs: Box::new(rhs),
                    };
                    if i < k && k <= t.len() {
                        parse_binops_at(t, k, combined, min_bp)
                    } else {
                        ExpStep::Fail(ParseErrorM::ExpectedRParen)
                    }
                },
            }
        },
    }
}

/// Parsing of one statement at `i`: a `letpr` binding, or an expression
/// statement.
pub open spec fn parse_stmt_at(t: Seq<TokM>, i: int) -> Result<(StmtM, int), ParseErrorM> {
    let is_letpr = tok_at(t, i) matches TokM::Ident(n) && n == "letpr"@;
    if is_letpr {
        match tok_at(t, i + 1) {
            TokM::Ident(name) => if tok_at(t, i + 2) is Eq {
                match parse_expr_at(t, i + 3, 0) {
                    ExpStep::Exp(e, j) => Ok((StmtM::Let { name, expr: e }, j)),
                    ExpStep::Fail(pe) => Err(pe),
                }
            } else {
                Err(ParseErrorM::ExpectedEqAfterIdent)
            },
            _ => Err(ParseErrorM::ExpectedIdentAfterLetpr),
        }
    } else {
        match parse_expr_at(t, i, 0) {
            ExpStep::Exp(e, j) => Ok((StmtM::Expr(e), j)),
            ExpStep::Fail(pe) => Err(pe),
        }
    }
}

/// Parsing of the statement list from `i` to end-of-input, newline
/// separators elided.
pub open spec fn parse_module_at(t: Seq<TokM>, i: int) -> Result<Seq<StmtM>, ParseErrorM>
    decreases t.len() - i,
{
    match tok_at(t, i) {
        TokM::Eof => Ok(Seq::empty()),
        TokM::Newline => parse_module_at(t, i + 1),
        _ => match parse_stmt_at(t, i) {
            Err(pe) => Err(pe),
            Ok((st, j)) => if i < j && j <= t.len() {
                match parse_module_at(t, j) {
                    Err(pe) => Err(pe),
                    Ok(rest) => Ok(seq![st] + rest),
                }
            } else {
                Err(ParseErrorM::ExpectedRParen)
            },
        },
    }
}

/// Whether a string holds exactly the keyword that introduces a binding.
fn is_letpr(s: &String) -> (r: bool)
    ensures
        r == (s@ == "letpr"@),
{
    proof {
        reveal_strlit("letpr");
    }
    let st = s.as_str();
    if st.unicode_len() != 5 {
        return false;
    }
    let r = st.get_char(0) == 'l' && st.get_char(1) == 'e' && st.get_char(2) == 't'
        && st.get_char(3) == 'p' && st.get_char(4) == 'r';
    proof {
        if r {
            assert(s@ =~= "letpr"@);
        }
    }
    r
}

/// An owned copy of a token.
fn clone_tok(t: &Tok) -> (r: Tok)
    ensures
        r@ == t@,
{
    match t {
        Tok::Ident(s) => Tok::Ident(s.clone()),
        Tok::Str(s) => Tok::Str(s.clone()),
        Tok::Num(s) => Tok::Num(s.clone()),
        Tok::LParen => Tok::LParen,
        Tok::RParen => Tok::RParen,
        Tok::Comma => Tok::Comma,
        Tok::Plus => Tok::Plus,
        Tok::Minus => Tok::Minus,
        Tok::Star => Tok::Star,
        Tok::Slash => Tok::Slash,
        Tok::Newline => Tok::Newline,
        Tok::Eof => Tok::Eof,
        Tok::Eq => Tok::Eq,
    }
}

/// Binding power of an operator token, if it is one.
fn prec_of_tok(t: &Tok) -> (r: Option<u8>)
    ensures
        match r {
            Some(p) => prec_of(t@) == Some(p as int),
            None => prec_of(t@) is None,
        },
{
    match t {
        Tok::Plus => Some(10),
        Tok::Minus => Some(10),
        Tok::Star => Some(20),
        Tok::Slash => Some(20),
        _ => None,
    }
}

/// The operator an operator token denotes.
fn op_of_tok(t: &Tok) -> (r: BinOp)
    requires
        prec_of(t@) is Some,
    ensures
        r == op_of(t@),
{
    match t {
        Tok::Minus => BinOp::Sub,
        Tok::Star => BinOp::Mul,
        Tok::Slash => BinOp::Div,
        _ => BinOp::Add,
    }
}

/// The parser: a materialized token stream and a cursor into it.
pub struct Parser {
    pub toks: Vec<Tok>,
    pub i: usize,
}

impl Parser {
    /// The modelled token stream.
    pub open spec fn tm(self) -> Seq<TokM> {
        toks_view(self.toks@)
    }

    pub open spec fn wf(self) -> bool {
        self.i <= self.toks@.len()
    }

    /// Tokenizes the whole source text; the stream ends with the
    /// end-of-input token.
    pub fn new(src: &str) -> (r: Result<Parser, LexError>)
        requires
            src@.len() < usize::MAX,
        ensures
            match r {
                Ok(p) => {
                    &&& spec_tokenize(src@) == Ok::<Seq<TokM>, LexErrorM>(p.tm())
                    &&& p.i == 0
                    &&& p.wf()
                },
                Err(e) => spec_tokenize(src@) == Err::<Seq<TokM>, LexErrorM>(e@),
            },
    {
        let mut lx = Lexer::new(src);
        let mut toks: Vec<Tok> = Vec::new();
        loop
            invariant
                lx.wf(),
                lx.src@ == src@,
                tokenize_from(src@, 0) == (match tokenize_from(src@, lx.pos as int) {
                    Ok(rest) => Ok::<Seq<TokM>, LexErrorM>(toks_view(toks@) + rest),
                    Err(e) => Err::<Seq<TokM>, LexErrorM>(e),
                }),
            decreases src@.len() - lx.pos,
        {
            let ghost pos0 = lx.pos as int;
            let t = match lx.next_token() {
                Ok(t) => t,
                Err(e) => {
                    proof {
                        assert(tokenize_from(src@, pos0) == Err::<Seq<TokM>, LexErrorM>(e@));
                    }
                    return Err(e);
                },
            };
            proof {
                lemma_next_token_progress(src@, pos0);
            }
            let is_eof = matches!(t, Tok::Eof);
            let ghost old_toks = toks@;
            toks.push(t);
            proof {
                assert(toks_view(toks@) =~= toks_view(old_toks).push(t@));
            }
            if is_eof {
                proof {
                    assert(tokenize_from(src@, pos0) == Ok::<Seq<TokM>, LexErrorM>(
                        seq![TokM::Eof],
                    ));
                    assert(toks_view(old_toks) + seq![TokM::Eof] =~= toks_view(toks@));
                }
                return Ok(Parser { toks, i: 0 });
            }
            proof {
                assert(!(t@ is Eof));
                assert(tokenize_from(src@, pos0) == (match tokenize_from(src@, lx.pos as int) {
                    Ok(rest) => Ok::<Seq<TokM>, LexErrorM>(seq![t@] + rest),
                    Err(e) => Err::<Seq<TokM>, LexErrorM>(e),
                }));
                assert forall|rest: Seq<TokM>|
                    toks_view(old_toks) + (seq![t@] + rest) =~= toks_view(toks@) + rest by {}
            }
        }
    }

    /// Parses the whole token stream into a module: statements separated
    /// by newlines, ending at end-of-input.
    pub fn parse_module(&mut self) -> (r: Result<Module, ParseError>)
        requires
            old(self).wf(),
        ensures
            final(self).toks@ == old(self).toks@,
            final(self).wf(),
            match r {
                Ok(m) => parse_module_at(old(self).tm(), old(self).i as int) == Ok::<
                    Seq<StmtM>,
                    ParseErrorM,
                >(m@),
                Err(e) => parse_module_at(old(self).tm(), old(self).i as int) == Err::<
                    Seq<StmtM>,
                    ParseErrorM,
                >(e@),
            },
    {
        let ghost t = self.tm();
        let ghost i0 = self.i as int;
        let mut stmts: Vec<Stmt> = Vec::new();
        loop
            invariant
                t == old(self).tm(),
                i0 == old(self).i as int,
                self.toks@ == old(self).toks@,
                self.wf(),
                parse_module_at(t, i0) == (match parse_module_at(t, self.i as int) {
                    Ok(rest) => Ok::<Seq<StmtM>, ParseErrorM>(stmts_view(stmts@) + rest),
                    Err(e) => Err::<Seq<StmtM>, ParseErrorM>(e),
                }),
            decreases t.len() - self.i,
        {
            if self.i >= self.toks.len() {
                proof {
                    assert(tok_at(t, self.i as int) is Eof);
                    assert(stmts_view(stmts@) + Seq::<StmtM>::empty() =~= stmts_view(stmts@));
                }
                return Ok(Module { stmts });
            }
            let is_eof = matches!(&self.toks[self.i], Tok::Eof);
            if is_eof {
                proof {
                    assert(tok_at(t, self.i as int) is Eof);
                    assert(stmts_view(stmts@) + Seq::<StmtM>::empty() =~= stmts_view(stmts@));
                }
                return Ok(Module { stmts });
            }
            let is_nl = matches!(&self.toks[self.i], Tok::Newline);
            if is_nl {
                self.i = self.i + 1;
                continue ;
            }
            let ghost icur = self.i as int;
            let st = match self.parse_stmt() {
                Ok(st) => st,
                Err(e) => {
                    return Err(e);
                },
            };
            let ghost old_stmts = stmts@;
            stmts.push(st);
            proof {
                assert(stmts_view(stmts@) =~= stmts_view(old_stmts).push(st@));
                assert forall|rest: Seq<StmtM>|
                    stmts_view(old_stmts) + (seq![st@] + rest) =~= stmts_view(stmts@) + rest by {}
            }
        }
    }

    /// Parses one statement: a `letpr` binding or an expression statement.
    fn parse_stmt(&mut self) -> (r: Result<Stmt, ParseError>)
        requires
            old(self).wf(),
        ensures
            final(self).toks@ == old(self).toks@,
            final(self).wf(),
            match r {
                Ok(st) => parse_stmt_at(old(self).tm(), old(self).i as int) == Ok::<
                    (StmtM, int),
                    ParseErrorM,
                >((st@, final(self).i as int)) && old(self).i < final(self).i,
                Err(e) => parse_stmt_at(old(self).tm(), old(self).i as int) == Err::<
                    (StmtM, int),
                    ParseErrorM,
                >(e@),
            },
    {
        let ghost t = self.tm();
        let ghost i0 = self.i as int;
        let mut is_let = false;
        if self.i < self.toks.len() {
            if let Tok::Ident(n) = &self.toks[self.i] {
                if is_letpr(n) {
                    is_let = true;
                }
            }
        }
        proof {
            assert(is_let == (tok_at(t, i0) matches TokM::Ident(n) && n == "letpr"@));
        }
        if is_let {
            self.i = self.i + 1;
            // the bound name
            let name: String;
            if self.i < self.toks.len() {
                match &self.toks[self.i] {
                    Tok::Ident(n) => {
                        name = n.clone();
                    },
                    _ => {
                        return Err(ParseError::ExpectedIdentAfterLetpr);
                    },
                }
            } else {
                return Err(ParseError::ExpectedIdentAfterLetpr);
            }
            self.i = self.i + 1;
            // '='
            let has_eq = self.i < self.toks.len() && matches!(&self.toks[self.i], Tok::Eq);
            if !has_eq {
                return Err(ParseError::ExpectedEqAfterIdent);
            }
            self.i = self.i + 1;
            let e = match self.parse_expr(0) {
                Ok(e) => e,
                Err(pe) => {
                    return Err(pe);
                },
            };
            Ok(Stmt::Let { name, expr: e })
        } else {
            let e = match self.parse_expr(0) {
                Ok(e) => e,
                Err(pe) => {
                    return Err(pe);
                },
            };
            Ok(Stmt::Expr(e))
        }
    }

    /// Precedence climbing from binding power `min_bp`.
    fn parse_expr(&mut self, min_bp: u8) -> (r: Result<Expr, ParseError>)
        requires
            old(self).wf(),
        ensures
            final(self).toks@ == old(self).toks@,
            final(self).wf(),
            match r {
                Ok(e) => parse_expr_at(old(self).tm(), old(self).i as int, min_bp as int)
                    == ExpStep::Exp(e@, final(self).i as int) && old(self).i < final(self).i,
                Err(pe) => parse_expr_at(old(self).tm(), old(self).i as int, min_bp as int)
                    == ExpStep::Fail(pe@),
            },
        decreases old(self).toks@.len() - old(self).i, 2int,
    {
        let ghost t = self.tm();
        let ghost i0 = self.i as int;
        let mut lhs = match self.parse_primary() {
            Ok(e) => e,
            Err(pe) => {
                return Err(pe);
            },
        };
        loop
            invariant
                t == old(self).tm(),
                i0 == old(self).i as int,
                self.toks@ == old(self).toks@,
                self.wf(),
                i0 < self.i,
                parse_expr_at(t, i0, min_bp as int) == parse_binops_at(
                    t,
                    self.i as int,
                    lhs@,
                    min_bp as int,
                ),
            decreases t.len() - self.i,
        {
            let prec: u8;
            if self.i < self.toks.len() {
                match prec_of_tok(&self.toks[self.i]) {
                    Some(p) => {
                        prec = p;
                    },
                    None => {
                        return Ok(lhs);
                    },
                }
            } else {
                proof {
                    assert(tok_at(t, self.i as int) is Eof);
                }
                return Ok(lhs);
            }
            if prec < min_bp {
                return Ok(lhs);
            }
            let op = op_of_tok(&self.toks[self.i]);
            let ghost iop = self.i as int;
            self.i = self.i + 1;
            let rhs = match self.parse_expr(prec + 1) {
                Ok(e) => e,
                Err(pe) => {
                    return Err(pe);
                },
            };
            lhs = Expr::Binary { op, lhs: Box::new(lhs), rhs: Box::new(rhs) };
        }
    }

    /// Parses a primary expression: a literal, an identifier or call, or
    /// a parenthesized sub-expression.
    fn parse_primary(&mut self) -> (r: Result<Expr, ParseError>)
        requires
            old(self).wf(),
        ensures
            final(self).toks@ == old(self).toks@,
            final(self).wf(),
            match r {
                Ok(e) => parse_primary_at(old(self).tm(), old(self).i as int) == ExpStep::Exp(
                    e@,
                    final(self).i as int,
                ) && old(self).i < final(self).i,
                Err(pe) => parse_primary_at(old(self).tm(), old(self).i as int) == ExpStep::Fail(
                    pe@,
                ),
            },
        decreases old(self).toks@.len() - old(self).i, 1int,
    {
        let ghost t = self.tm();
        let ghost i0 = self.i as int;
        if self.i >= self.toks.len() {
            proof {
                assert(tok_at(t, i0) is Eof);
            }
            return Err(ParseError::UnexpectedToken(Tok::Eof));
        }
        match &self.toks[self.i] {
            Tok::Num(s) => {
                let v = s.clone();
                self.i = self.i + 1;
                Ok(Expr::Number(v))
            },
            Tok::Str(s) => {
                let v = s.clone();
                self.i = self.i + 1;
                Ok(Expr::Str(v))
            },
            Tok::Ident(s) => {
                let name = s.clone();
                self.i = self.i + 1;
                let has_lp = self.i < self.toks.len() && matches!(
                    &self.toks[self.i],
                    Tok::LParen,
                );
                if !has_lp {
                    return Ok(Expr::Ident(name));
                }
                self.i = self.i + 1;
                // a call: arguments up to the closing parenthesis
                let at_rp = self.i < self.toks.len() && matches!(&self.toks[self.i], Tok::RParen);
                if at_rp {
                    self.i = self.i + 1;
                    let args0: Vec<Expr> = Vec::new();
                    proof {
                        assert(exprs_view(args0@) =~= Seq::<ExprM>::empty());
                    }
                    return Ok(Expr::Call { callee: name, args: args0 });
                }
                let mut args: Vec<Expr> = Vec::new();
                proof {
                    assert(exprs_view(args@) =~= Seq::<ExprM>::empty());
                }
                loop
                    invariant
                        t == old(self).tm(),
                        i0 == old(self).i as int,
                        self.toks@ == old(self).toks@,
                        self.wf(),
                        i0 + 2 <= self.i,
                        parse_primary_at(t, i0) == parse_args_at(
                            t,
                            self.i as int,
                            name@,
                            exprs_view(args@),
                        ),
                    decreases t.len() - self.i,
                {
                    let a = match self.parse_expr(0) {
                        Ok(e) => e,
                        Err(pe) => {
                            return Err(pe);
                        },
                    };
                    let ghost old_args = args@;
                    args.push(a);
                    proof {
                        assert(exprs_view(args@) =~= exprs_view(old_args).push(a@));
                    }
                    if self.i < self.toks.len() {
                        let is_comma = matches!(&self.toks[self.i], Tok::Comma);
                        if is_comma {
                            self.i = self.i + 1;
                            continue ;
                        }
                        let is_rp = matches!(&self.toks[self.i], Tok::RParen);
                        if is_rp {
                            self.i = self.i + 1;
                            return Ok(Expr::Call { callee: name, args });
                        }
                        let bad = clone_tok(&self.toks[self.i]);
                        return Err(ParseError::ExpectedCommaOrRParen(bad));
                    } else {
                        proof {
                            assert(tok_at(t, self.i as int) is Eof);
                        }
                        return Err(ParseError::ExpectedCommaOrRParen(Tok::Eof));
                    }
                }
            },
            Tok::LParen => {
                self.i = self.i + 1;
                let e = match self.parse_expr(0) {
                    Ok(e) => e,
                    Err(pe) => {
                        return Err(pe);
                    },
                };
                let at_rp = self.i < self.toks.len() && matches!(&self.toks[self.i], Tok::RParen);
                if !at_rp {
                    return Err(ParseError::ExpectedRParen);
                }
                self.i = self.i + 1;
                Ok(e)
            },
            other => {
                let tk = clone_tok(other);
                Err(ParseError::UnexpectedToken(tk))
            },
        }
    }
}

} // verus!

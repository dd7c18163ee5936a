use vstd::prelude::*;
use crate::numlit::{canon_num, canon_number, count_dots, dots_in, is_digit_char, num_shape};
use crate::strbuf::push_char;

verus! {

use vstd::string::StrSliceExecFns;
use vstd::string::StringExecFns;

/// One token of the surface language. Number literals carry their
/// canonical decimal text.
#[derive(Debug, Clone)]
pub enum Tok {
    Ident(String),
    Str(String),
    Num(String),
    LParen,
    RParen,
    Comma,
    Plus,
    Minus,
    Star,
    Slash,
    Newline,
    Eof,
    Eq,
}

/// Mathematical model of a token.
pub ghost enum TokM {
    Ident(Seq<char>),
    Str(Seq<char>),
    Num(Seq<char>),
    LParen,
    RParen,
    Comma,
    Plus,
    Minus,
    Star,
    Slash,
    Newline,
    Eof,
    Eq,
}

impl View for Tok {
    type V = TokM;

    open spec fn view(&self) -> TokM {
        match self {
            Tok::Ident(s) => TokM::Ident(s@),
            Tok::Str(s) => TokM::Str(s@),
            Tok::Num(s) => TokM::Num(s@),
            Tok::LParen => TokM::LParen,
            Tok::RParen => TokM::RParen,
            Tok::Comma => TokM::Comma,
            Tok::Plus => TokM::Plus,
            Tok::Minus => TokM::Minus,
            Tok::Star => TokM::Star,
            Tok::Slash => TokM::Slash,
            Tok::Newline => TokM::Newline,
            Tok::Eof => TokM::Eof,
            Tok::Eq => TokM::Eq,
        }
    }
}

/// A malformed token: the reasons lexing can fail.
#[derive(Debug, Clone)]
pub enum LexError {
    InvalidNumber(String),
    UnterminatedString,
    UnterminatedEscape,
    UnexpectedChar(char),
}

/// Mathematical model of a lexing failure.
pub ghost enum LexErrorM {
    InvalidNumber(Seq<char>),
    UnterminatedString,
    UnterminatedEscape,
    UnexpectedChar(char),
}

impl View for LexError {
    type V = LexErrorM;

    open spec fn view(&self) -> LexErrorM {
        match self {
            LexError::InvalidNumber(s) => LexErrorM::InvalidNumber(s@),
            LexError::UnterminatedString => LexErrorM::UnterminatedString,
            LexError::UnterminatedEscape => LexErrorM::UnterminatedEscape,
            LexError::UnexpectedChar(c) => LexErrorM::UnexpectedChar(*c),
        }
    }
}

pub open spec fn lex_error_message(e: LexErrorM) -> Seq<char> {
    match e {
        LexErrorM::InvalidNumber(s) => "invalid number literal: "@ + s,
        LexErrorM::UnterminatedString => "unterminated string"@,
        LexErrorM::UnterminatedEscape => "unterminated escape"@,
        LexErrorM::UnexpectedChar(c) => "unexpected char: "@.push(c),
    }
}

impl LexError {
    /// The human-readable message for this failure.
    pub fn message(&self) -> (r: String)
        ensures
            r@ == lex_error_message(self@),
    {
        match self {
            LexError::InvalidNumber(s) => {
                let mut r = String::from_str("invalid number literal: ");
                r.append(s.as_str());
                r
            },
            LexError::UnterminatedString => String::from_str("unterminated string"),
            LexError::UnterminatedEscape => String::from_str("unterminated escape"),
            LexError::UnexpectedChar(c) => {
                let mut r = String::from_str("unexpected char: ");
                push_char(&mut r, *c);
                r
            },
        }
    }
}

pub open spec fn is_ident_start_char(c: char) -> bool {
    ('A' as u32 <= c as u32 && c as u32 <= 'Z' as u32) || ('a' as u32 <= c as u32 && c as u32
        <= 'z' as u32) || c == '_'
}

pub open spec fn is_ident_cont_char(c: char) -> bool {
    is_ident_start_char(c) || is_digit_char(c)
}

/// An identifier may start with an ASCII letter or underscore.
pub fn is_ident_start(c: char) -> (r: bool)
    ensures
        r == is_ident_start_char(c),
{
    let u = c as u32;
    (65 <= u && u <= 90) || (97 <= u && u <= 122) || c == '_'
}

/// An identifier continues with an ASCII letter, digit or underscore.
pub fn is_ident_cont(c: char) -> (r: bool)
    ensures
        r == is_ident_cont_char(c),
{
    let u = c as u32;
    is_ident_start(c) || (48 <= u && u <= 57)
}

/// A space, tab or carriage return: skipped outside literals.
pub open spec fn is_space_char(c: char) -> bool {
    c == ' ' || c == '\t' || c == '\r'
}

fn is_space(c: char) -> (r: bool)
    ensures
        r == is_space_char(c),
{
    c == ' ' || c == '\t' || c == '\r'
}

fn is_num_cont(c: char) -> (r: bool)
    ensures
        r == (is_digit_char(c) || c == '.'),
{
    let u = c as u32;
    (48 <= u && u <= 57) || c == '.'
}

/// One step of lexing: the token found and the position after it, or a
/// failure.
pub ghost enum LexStep {
    Tok(TokM, int),
    Fail(LexErrorM),
}

/// Position after a comment that starts at `i` (just past the '#'): all
/// characters through the next newline, or to the end of input.
pub open spec fn comment_end(s: Seq<char>, i: int) -> int
    decreases s.len() - i,
{
    if i < 0 {
        i
    } else if i >= s.len() {
        s.len() as int
    } else if s[i] == '\n' {
        i + 1
    } else {
        comment_end(s, i + 1)
    }
}

/// End of an identifier whose continuation characters start at `i`.
pub open spec fn ident_end(s: Seq<char>, i: int) -> int
    decreases s.len() - i,
{
    if 0 <= i < s.len() && is_ident_cont_char(s[i]) {
        ident_end(s, i + 1)
    } else {
        i
    }
}

/// End of a number literal whose continuation characters start at `i`.
pub open spec fn num_end(s: Seq<char>, i: int) -> int
    decreases s.len() - i,
{
    if 0 <= i < s.len() && (is_digit_char(s[i]) || s[i] == '.') {
        num_end(s, i + 1)
    } else {
        i
    }
}

/// What a backslash escape decodes to: \n and \t become control
/// characters, any other character stands for itself.
pub open spec fn esc_char(c: char) -> char {
    if c == 'n' {
        '\n'
    } else if c == 't' {
        '\t'
    } else {
        c
    }
}

/// Lexing of a string literal body from `i` (just past the opening
/// quote), with `acc` the text decoded so far.
pub open spec fn lex_string_from(s: Seq<char>, i: int, acc: Seq<char>) -> LexStep
    decreases s.len() - i,
{
    if i < 0 || i >= s.len() {
        LexStep::Fail(LexErrorM::UnterminatedString)
    } else if s[i] == '\\' {
        if i + 1 >= s.len() {
            LexStep::Fail(LexErrorM::UnterminatedEscape)
        } else {
            lex_string_from(s, i + 2, acc.push(esc_char(s[i + 1])))
        }
    } else if s[i] == '"' {
        LexStep::Tok(TokM::Str(acc), i + 1)
    } else {
        lex_string_from(s, i + 1, acc.push(s[i]))
    }
}

/// The next token of `s` starting at `i`: spaces, tabs and carriage
/// returns are skipped; a comment is one newline token; otherwise the
/// token is decided by its first character.
pub open spec fn next_token_at(s: Seq<char>, i: int) -> LexStep
    decreases s.len() - i,
{
    if i < 0 || i >= s.len() {
        LexStep::Tok(TokM::Eof, if i < 0 { i } else { s.len() as int })
    } else {
        let c = s[i];
        if c == ' ' || c == '\t' || c == '\r' {
            next_token_at(s, i + 1)
        } else if c == '#' {
            LexStep::Tok(TokM::Newline, comment_end(s, i + 1))
        } else if c == '\n' {
            LexStep::Tok(TokM::Newline, i + 1)
        } else if c == '(' {
            LexStep::Tok(TokM::LParen, i + 1)
        } else if c == ')' {
            LexStep::Tok(TokM::RParen, i + 1)
        } else if c == ',' {
            LexStep::Tok(TokM::Comma, i + 1)
        } else if c == '+' {
            LexStep::Tok(TokM::Plus, i + 1)
        } else if c == '-' {
            LexStep::Tok(TokM::Minus, i + 1)
        } else if c == '*' {
            LexStep::Tok(TokM::Star, i + 1)
        } else if c == '/' {
            LexStep::Tok(TokM::Slash, i + 1)
        } else if c == '=' {
            LexStep::Tok(TokM::Eq, i + 1)
        } else if c == '"' {
            lex_string_from(s, i + 1, Seq::empty())
        } else if is_ident_start_char(c) {
            let j = ident_end(s, i + 1);
            LexStep::Tok(TokM::Ident(s.subrange(i, j)), j)
        } else if is_digit_char(c) {
            let j = num_end(s, i + 1);
            let text = s.subrange(i, j);
            if count_dots(text) <= 1 {
                LexStep::Tok(TokM::Num(canon_num(text)), j)
            } else {
                LexStep::Fail(LexErrorM::InvalidNumber(text))
            }
        } else {
            LexStep::Fail(LexErrorM::UnexpectedChar(c))
        }
    }
}

proof fn lemma_comment_end_bounds(s: Seq<char>, i: int)
    requires
        0 <= i <= s.len(),
    ensures
        i <= comment_end(s, i) <= s.len(),
    decreases s.len() - i,
{
    if i < s.len() && s[i] != '\n' {
        lemma_comment_end_bounds(s, i + 1);
    }
}

proof fn lemma_ident_end_bounds(s: Seq<char>, i: int)
    requires
        0 <= i <= s.len(),
    ensures
        i <= ident_end(s, i) <= s.len(),
        forall|k: int| i <= k < ident_end(s, i) ==> is_ident_cont_char(#[trigger] s[k]),
    decreases s.len() - i,
{
    if i < s.len() && is_ident_cont_char(s[i]) {
        lemma_ident_end_bounds(s, i + 1);
    }
}

proof fn lemma_num_end_bounds(s: Seq<char>, i: int)
    requires
        0 <= i <= s.len(),
    ensures
        i <= num_end(s, i) <= s.len(),
        forall|k: int| i <= k < num_end(s, i) ==> is_digit_char(#[trigger] s[k]) || s[k] == '.',
    decreases s.len() - i,
{
    if i < s.len() && (is_digit_char(s[i]) || s[i] == '.') {
        lemma_num_end_bounds(s, i + 1);
    }
}

proof fn lemma_lex_string_bounds(s: Seq<char>, i: int, acc: Seq<char>)
    requires
        0 <= i <= s.len(),
    ensures
        match lex_string_from(s, i, acc) {
            LexStep::Tok(t, j) => i < j <= s.len() && t is Str,
            LexStep::Fail(_) => true,
        },
    decreases s.len() - i,
{
    if i < s.len() {
        if s[i] == '\\' {
            if i + 1 < s.len() {
                lemma_lex_string_bounds(s, i + 2, acc.push(esc_char(s[i + 1])));
            }
        } else if s[i] != '"' {
            lemma_lex_string_bounds(s, i + 1, acc.push(s[i]));
        }
    }
}

/// Every token other than end-of-input takes at least one character.
pub proof fn lemma_next_token_progress(s: Seq<char>, i: int)
    requires
        0 <= i <= s.len(),
    ensures
        match next_token_at(s, i) {
            LexStep::Tok(t, j) => i <= j <= s.len() && (!(t is Eof) ==> i < j),
            LexStep::Fail(_) => true,
        },
    decreases s.len() - i,
{
    if i < s.len() {
        let c = s[i];
        if c == ' ' || c == '\t' || c == '\r' {
            lemma_next_token_progress(s, i + 1);
        } else if c == '#' {
            lemma_comment_end_bounds(s, i + 1);
        } else if c == '"' {
            lemma_lex_string_bounds(s, i + 1, Seq::empty());
        } else if is_ident_start_char(c) {
            lemma_ident_end_bounds(s, i + 1);
        } else if is_digit_char(c) {
            lemma_num_end_bounds(s, i + 1);
        }
    }
}

/// The token stream of `s` from position `i`: the materialized sequence
/// ends with the end-of-input token, or lexing fails.
pub open spec fn tokenize_from(s: Seq<char>, i: int) -> Result<Seq<TokM>, LexErrorM>
    decreases s.len() - i,
    when 0 <= i <= s.len()
    via tokenize_from_dec
{
    match next_token_at(s, i) {
        LexStep::Fail(e) => Err(e),
        LexStep::Tok(t, j) => {
            if t is Eof {
                Ok(seq![TokM::Eof])
            } else {
                match tokenize_from(s, j) {
                    Err(e) => Err(e),
                    Ok(rest) => Ok(seq![t] + rest),
                }
            }
        },
    }
}

#[via_fn]
proof fn tokenize_from_dec(s: Seq<char>, i: int) {
    lemma_next_token_progress(s, i);
}

/// The token stream of a whole source text.
pub open spec fn spec_tokenize(s: Seq<char>) -> Result<Seq<TokM>, LexErrorM> {
    tokenize_from(s, 0)
}


/// The characters of `s1` from `i1` and of `s2` from `i2` are the same
/// text.
pub open spec fn suffix_eq(s1: Seq<char>, i1: int, s2: Seq<char>, i2: int) -> bool {
    &&& 0 <= i1 <= s1.len()
    &&& 0 <= i2 <= s2.len()
    &&& s1.len() - i1 == s2.len() - i2
    &&& forall|k: int| 0 <= k < s1.len() - i1 ==> #[trigger] s1[i1 + k] == s2[i2 + k]
}

proof fn lemma_suffix_eq_step(s1: Seq<char>, i1: int, s2: Seq<char>, i2: int)
    requires
        suffix_eq(s1, i1, s2, i2),
        i1 < s1.len(),
    ensures
        suffix_eq(s1, i1 + 1, s2, i2 + 1),
{
    assert forall|k: int|
        0 <= k < s1.len() - (i1 + 1) implies #[trigger] s1[i1 + 1 + k] == s2[i2 + 1 + k] by {
        assert(s1[i1 + (k + 1)] == s2[i2 + (k + 1)]);
    }
}

proof fn lemma_comment_end_shift(s1: Seq<char>, i1: int, s2: Seq<char>, i2: int)
    requires
        suffix_eq(s1, i1, s2, i2),
    ensures
        comment_end(s1, i1) - i1 == comment_end(s2, i2) - i2,
        i1 <= comment_end(s1, i1) <= s1.len(),
    decreases s1.len() - i1,
{
    if i1 < s1.len() {
        assert(s1[i1] == s2[i2]) by {
            assert(s1[i1 + 0] == s2[i2 + 0]);
        }
        if s1[i1] != '\n' {
            lemma_suffix_eq_step(s1, i1, s2, i2);
            lemma_comment_end_shift(s1, i1 + 1, s2, i2 + 1);
        }
    }
}

proof fn lemma_ident_end_shift(s1: Seq<char>, i1: int, s2: Seq<char>, i2: int)
    requires
        suffix_eq(s1, i1, s2, i2),
    ensures
        ident_end(s1, i1) - i1 == ident_end(s2, i2) - i2,
        i1 <= ident_end(s1, i1) <= s1.len(),
    decreases s1.len() - i1,
{
    if i1 < s1.len() {
        assert(s1[i1] == s2[i2]) by {
            assert(s1[i1 + 0] == s2[i2 + 0]);
        }
        if is_ident_cont_char(s1[i1]) {
            lemma_suffix_eq_step(s1, i1, s2, i2);
            lemma_ident_end_shift(s1, i1 + 1, s2, i2 + 1);
        }
    }
}

proof fn lemma_num_end_shift(s1: Seq<char>, i1: int, s2: Seq<char>, i2: int)
    requires
        suffix_eq(s1, i1, s2, i2),
    ensures
        num_end(s1, i1) - i1 == num_end(s2, i2) - i2,
        i1 <= num_end(s1, i1) <= s1.len(),
    decreases s1.len() - i1,
{
    if i1 < s1.len() {
        assert(s1[i1] == s2[i2]) by {
            assert(s1[i1 + 0] == s2[i2 + 0]);
        }
        if is_digit_char(s1[i1]) || s1[i1] == '.' {
            lemma_suffix_eq_step(s1, i1, s2, i2);
            lemma_num_end_shift(s1, i1 + 1, s2, i2 + 1);
        }
    }
}

proof fn lemma_lex_string_shift(s1: Seq<char>, i1: int, s2: Seq<char>, i2: int, acc: Seq<char>)
    requires
        suffix_eq(s1, i1, s2, i2),
    ensures
        match (lex_string_from(s1, i1, acc), lex_string_from(s2, i2, acc)) {
            (LexStep::Fail(e1), LexStep::Fail(e2)) => e1 == e2,
            (LexStep::Tok(t1, j1), LexStep::Tok(t2, j2)) => t1 == t2 && j1 - i1 == j2 - i2 && i1
                < j1 <= s1.len(),
            _ => false,
        },
    decreases s1.len() - i1,
{
    if i1 < s1.len() {
        assert(s1[i1] == s2[i2]) by {
            assert(s1[i1 + 0] == s2[i2 + 0]);
        }
        if s1[i1] == '\\' {
            if i1 + 1 < s1.len() {
                assert(s1[i1 + 1] == s2[i2 + 1]);
                lemma_suffix_eq_step(s1, i1, s2, i2);
                lemma_suffix_eq_step(s1, i1 + 1, s2, i2 + 1);
                lemma_lex_string_shift(s1, i1 + 2, s2, i2 + 2, acc.push(esc_char(s1[i1 + 1])));
            }
        } else if s1[i1] != '"' {
            lemma_suffix_eq_step(s1, i1, s2, i2);
            lemma_lex_string_shift(s1, i1 + 1, s2, i2 + 1, acc.push(s1[i1]));
        }
    }
}

/// Lexing one token reads only the text ahead of the cursor: on equal
/// texts it finds the same token, advanced by the same distance.
pub proof fn lemma_next_token_shift(s1: Seq<char>, i1: int, s2: Seq<char>, i2: int)
    requires
        suffix_eq(s1, i1, s2, i2),
    ensures
        match (next_token_at(s1, i1), next_token_at(s2, i2)) {
            (LexStep::Fail(e1), LexStep::Fail(e2)) => e1 == e2,
            (LexStep::Tok(t1, j1), LexStep::Tok(t2, j2)) => t1 == t2 && j1 - i1 == j2 - i2 && i1
                <= j1 <= s1.len(),
            _ => false,
        },
    decreases s1.len() - i1,
{
    if i1 >= s1.len() {
        assert(i2 >= s2.len());
    } else {
        let c = s1[i1];
        assert(c == s2[i2]) by {
            assert(s1[i1 + 0] == s2[i2 + 0]);
        }
        if c == ' ' || c == '\t' || c == '\r' {
            lemma_suffix_eq_step(s1, i1, s2, i2);
            lemma_next_token_shift(s1, i1 + 1, s2, i2 + 1);
        } else if c == '#' {
            lemma_suffix_eq_step(s1, i1, s2, i2);
            lemma_comment_end_shift(s1, i1 + 1, s2, i2 + 1);
        } else if c == '"' {
            lemma_suffix_eq_step(s1, i1, s2, i2);
            lemma_lex_string_shift(s1, i1 + 1, s2, i2 + 1, Seq::empty());
        } else if is_ident_start_char(c) {
            lemma_suffix_eq_step(s1, i1, s2, i2);
            lemma_ident_end_shift(s1, i1 + 1, s2, i2 + 1);
            let j1 = ident_end(s1, i1 + 1);
            let j2 = ident_end(s2, i2 + 1);
            assert forall|k: int|
                0 <= k < j1 - i1 implies s1.subrange(i1, j1)[k] == s2.subrange(i2, j2)[k] by {
                assert(s1[i1 + k] == s2[i2 + k]);
            }
            assert(s1.subrange(i1, j1) =~= s2.subrange(i2, j2));
        } else if is_digit_char(c) {
            lemma_suffix_eq_step(s1, i1, s2, i2);
            lemma_num_end_shift(s1, i1 + 1, s2, i2 + 1);
            let j1 = num_end(s1, i1 + 1);
            let j2 = num_end(s2, i2 + 1);
            assert forall|k: int|
                0 <= k < j1 - i1 implies s1.subrange(i1, j1)[k] == s2.subrange(i2, j2)[k] by {
                assert(s1[i1 + k] == s2[i2 + k]);
            }
            assert(s1.subrange(i1, j1) =~= s2.subrange(i2, j2));
        }
    }
}

/// The token stream from a position depends only on the text from that
/// position.
pub proof fn lemma_tokenize_shift(s1: Seq<char>, i1: int, s2: Seq<char>, i2: int)
    requires
        suffix_eq(s1, i1, s2, i2),
    ensures
        tokenize_from(s1, i1) == tokenize_from(s2, i2),
    decreases s1.len() - i1,
{
    lemma_next_token_shift(s1, i1, s2, i2);
    lemma_next_token_progress(s1, i1);
    lemma_next_token_progress(s2, i2);
    match next_token_at(s1, i1) {
        LexStep::Fail(_) => {},
        LexStep::Tok(t, j1) => {
            if !(t is Eof) {
                match next_token_at(s2, i2) {
                    LexStep::Tok(t2, j2) => {
                        assert(suffix_eq(s1, j1, s2, j2)) by {
                            assert forall|k: int|
                                0 <= k < s1.len() - j1 implies #[trigger] s1[j1 + k] == s2[j2
                                + k] by {
                                assert(s1[i1 + (j1 - i1 + k)] == s2[i2 + (j2 - i2 + k)]);
                            }
                        }
                        lemma_tokenize_shift(s1, j1, s2, j2);
                    },
                    LexStep::Fail(_) => {
                        assert(false);
                    },
                }
            }
        },
    }
}

proof fn lemma_comment_end_scan(s: Seq<char>, i: int, d: int)
    requires
        0 <= i <= d < s.len(),
        forall|k: int| i <= k < d ==> s[k] != '\n',
        s[d] == '\n',
    ensures
        comment_end(s, i) == d + 1,
    decreases d - i,
{
    if i < d {
        lemma_comment_end_scan(s, i + 1, d);
    }
}

/// A comment line is one newline token: a text that starts with '#', the
/// comment's characters, and the line end tokenizes exactly as the same
/// text with the comment line replaced by a blank line, whatever follows.
pub proof fn lemma_comment_line_is_blank_line(c: Seq<char>, rest: Seq<char>)
    requires
        forall|k: int| 0 <= k < c.len() ==> c[k] != '\n',
    ensures
        spec_tokenize(seq!['#'] + c + seq!['\n'] + rest) == spec_tokenize(seq!['\n'] + rest),
{
    let a = seq!['#'] + c + seq!['\n'] + rest;
    let b = seq!['\n'] + rest;
    assert(a[0] == '#');
    assert(a[1 + c.len() as int] == '\n');
    assert(forall|k: int| 1 <= k < 1 + c.len() as int ==> a[k] == c[k - 1] && a[k] != '\n');
    lemma_comment_end_scan(a, 1, 1 + c.len() as int);
    assert(next_token_at(a, 0) == LexStep::Tok(TokM::Newline, 2 + c.len() as int));
    assert(b[0] == '\n');
    assert(next_token_at(b, 0) == LexStep::Tok(TokM::Newline, 1int));
    assert(suffix_eq(a, 2 + c.len() as int, b, 1)) by {
        assert(forall|k: int| 0 <= k < rest.len() ==> a[2 + c.len() as int + k] == rest[k]);
        assert(forall|k: int| 0 <= k < rest.len() ==> b[1 + k] == rest[k]);
    }
    lemma_tokenize_shift(a, 2 + c.len() as int, b, 1);
}

/// A cursor over the source characters.
pub struct Lexer {
    pub src: Vec<char>,
    pub pos: usize,
}

impl Lexer {
    pub open spec fn wf(self) -> bool {
        self.pos <= self.src@.len() && self.src@.len() < usize::MAX
    }

    /// Materializes the characters of the source text.
    pub fn new(src: &str) -> (lx: Lexer)
        requires
            src@.len() < usize::MAX,
        ensures
            lx.src@ == src@,
            lx.pos == 0,
            lx.wf(),
    {
        let n = src.unicode_len();
        let mut v: Vec<char> = Vec::new();
        let mut i: usize = 0;
        while i < n
            invariant
                0 <= i <= n,
                n == src@.len(),
                v@ =~= src@.subrange(0, i as int),
            decreases n - i,
        {
            let c = src.get_char(i);
            v.push(c);
            proof {
                assert(src@.subrange(0, i + 1) =~= src@.subrange(0, i as int).push(src@[i as int]));
            }
            i = i + 1;
        }
        proof {
            assert(src@.subrange(0, n as int) =~= src@);
        }
        Lexer { src: v, pos: 0 }
    }

    /// The character under the cursor, if any.
    pub fn peek(&self) -> (r: Option<char>)
        ensures
            r == (if self.pos < self.src@.len() {
                Some(self.src@[self.pos as int])
            } else {
                None::<char>
            }),
    {
        if self.pos < self.src.len() {
            Some(self.src[self.pos])
        } else {
            None
        }
    }

    /// Consumes and returns the character under the cursor, if any.
    pub fn bump(&mut self) -> (r: Option<char>)
        ensures
            final(self).src@ == old(self).src@,
            r == (if old(self).pos < old(self).src@.len() {
                Some(old(self).src@[old(self).pos as int])
            } else {
                None::<char>
            }),
            final(self).pos == if r is Some {
                old(self).pos + 1
            } else {
                old(self).pos as int
            },
    {
        if self.pos < self.src.len() {
            let c = self.src[self.pos];
            self.pos = self.pos + 1;
            Some(c)
        } else {
            None
        }
    }

    /// Produces the next token, advancing the cursor past it.
    pub fn next_token(&mut self) -> (r: Result<Tok, LexError>)
        requires
            old(self).wf(),
        ensures
            final(self).src@ == old(self).src@,
            final(self).wf(),
            match r {
                Ok(t) => next_token_at(old(self).src@, old(self).pos as int) == LexStep::Tok(
                    t@,
                    final(self).pos as int,
                ),
                Err(e) => next_token_at(old(self).src@, old(self).pos as int) == LexStep::Fail(e@),
            },
    {
        let ghost s = self.src@;
        let ghost start = self.pos as int;
        let len = self.src.len();
        // skip spaces, tabs and carriage returns
        while self.pos < len && is_space(self.src[self.pos])
            invariant
                self.src@ == s,
                self.pos <= len,
                len == s.len() < usize::MAX,
                0 <= start <= self.pos,
                next_token_at(s, start) == next_token_at(s, self.pos as int),
            decreases len - self.pos,
        {
            self.pos = self.pos + 1;
        }
        if self.pos >= len {
            return Ok(Tok::Eof);
        }
        let c = self.src[self.pos];
        let ghost i = self.pos as int;
        if c == '#' {
            // the comment body through the line end counts as one newline
            self.pos = self.pos + 1;
            while self.pos < len && self.src[self.pos] != '\n'
                invariant
                    self.src@ == s,
                    self.pos <= len,
                    len == s.len() < usize::MAX,
                    i + 1 <= self.pos,
                    comment_end(s, i + 1) == comment_end(s, self.pos as int),
                decreases len - self.pos,
            {
                self.pos = self.pos + 1;
            }
            if self.pos < len {
                self.pos = self.pos + 1;
            }
            return Ok(Tok::Newline);
        }
        if c == '\n' {
            self.pos = self.pos + 1;
            return Ok(Tok::Newline);
        }
        if c == '(' {
            self.pos = self.pos + 1;
            return Ok(Tok::LParen);
        }
        if c == ')' {
            self.pos = self.pos + 1;
            return Ok(Tok::RParen);
        }
        if c == ',' {
            self.pos = self.pos + 1;
            return Ok(Tok::Comma);
        }
        if c == '+' {
            self.pos = self.pos + 1;
            return Ok(Tok::Plus);
        }
        if c == '-' {
            self.pos = self.pos + 1;
            return Ok(Tok::Minus);
        }
        if c == '*' {
            self.pos = self.pos + 1;
            return Ok(Tok::Star);
        }
        if c == '/' {
            self.pos = self.pos + 1;
            return Ok(Tok::Slash);
        }
        if c == '=' {
            self.pos = self.pos + 1;
            return Ok(Tok::Eq);
        }
        if c == '"' {
            self.pos = self.pos + 1;
            return self.lex_string();
        }
        if is_ident_start(c) {
            let mut buf = String::new();
            push_char(&mut buf, c);
            self.pos = self.pos + 1;
            while self.pos < len && is_ident_cont(self.src[self.pos])
                invariant
                    self.src@ == s,
                    self.pos <= len,
                    len == s.len() < usize::MAX,
                    0 <= i < self.pos,
                    buf@ =~= s.subrange(i, self.pos as int),
                    ident_end(s, i + 1) == ident_end(s, self.pos as int),
                decreases len - self.pos,
            {
                let nc = self.src[self.pos];
                push_char(&mut buf, nc);
                proof {
                    assert(s.subrange(i, self.pos + 1) =~= s.subrange(i, self.pos as int).push(
                        s[self.pos as int],
                    ));
                }
                self.pos = self.pos + 1;
            }
            proof {
                assert(ident_end(s, i + 1) == self.pos as int);
                assert(buf@ =~= s.subrange(i, ident_end(s, i + 1)));
            }
            return Ok(Tok::Ident(buf));
        }
        let u = c as u32;
        if 48 <= u && u <= 57 {
            let mut buf = String::new();
            push_char(&mut buf, c);
            self.pos = self.pos + 1;
            while self.pos < len && is_num_cont(self.src[self.pos])
                invariant
                    self.src@ == s,
                    self.pos <= len,
                    len == s.len() < usize::MAX,
                    0 <= i < self.pos,
                    buf@ =~= s.subrange(i, self.pos as int),
                    num_end(s, i + 1) == num_end(s, self.pos as int),
                decreases len - self.pos,
            {
                let nc = self.src[self.pos];
                push_char(&mut buf, nc);
                proof {
                    assert(s.subrange(i, self.pos + 1) =~= s.subrange(i, self.pos as int).push(
                        s[self.pos as int],
                    ));
                }
                self.pos = self.pos + 1;
            }
            let ghost j = num_end(s, i + 1);
            proof {
                assert(j == self.pos as int);
                assert(buf@ =~= s.subrange(i, j));
                lemma_num_end_bounds(s, i + 1);
                assert(num_shape(buf@));
            }
            let dots = dots_in(&buf);
            if dots > 1 {
                return Err(LexError::InvalidNumber(buf));
            }
            let canon = canon_number(&buf);
            return Ok(Tok::Num(canon));
        }
        Err(LexError::UnexpectedChar(c))
    }

    /// Lexes a string literal body; the opening quote is already consumed.
    fn lex_string(&mut self) -> (r: Result<Tok, LexError>)
        requires
            old(self).wf(),
        ensures
            final(self).src@ == old(self).src@,
            final(self).wf(),
            match r {
                Ok(t) => lex_string_from(old(self).src@, old(self).pos as int, Seq::empty())
                    == LexStep::Tok(t@, final(self).pos as int),
                Err(e) => lex_string_from(old(self).src@, old(self).pos as int, Seq::empty())
                    == LexStep::Fail(e@),
            },
    {
        let ghost s = self.src@;
        let ghost start = self.pos as int;
        let len = self.src.len();
        let mut acc = String::new();
        loop
            invariant
                s == old(self).src@,
                start == old(self).pos as int,
                self.src@ == s,
                self.pos <= len,
                len == s.len() < usize::MAX,
                0 <= start <= self.pos,
                lex_string_from(s, start, Seq::empty()) == lex_string_from(
                    s,
                    self.pos as int,
                    acc@,
                ),
            decreases len - self.pos,
        {
            if self.pos >= len {
                return Err(LexError::UnterminatedString);
            }
            let c = self.src[self.pos];
            if c == '\\' {
                if self.pos + 1 >= len {
                    return Err(LexError::UnterminatedEscape);
                }
                let e = self.src[self.pos + 1];
                let dec: char = if e == 'n' {
                    '\n'
                } else if e == 't' {
                    '\t'
                } else {
                    e
                };
                proof {
                    assert(dec == esc_char(s[self.pos + 1]));
                }
                push_char(&mut acc, dec);
                self.pos = self.pos + 2;
            } else if c == '"' {
                self.pos = self.pos + 1;
                return Ok(Tok::Str(acc));
            } else {
                push_char(&mut acc, c);
                self.pos = self.pos + 1;
            }
        }
    }
}

} // verus!

//! What is reported when a text cannot be parsed: the file, the line and a
//! message that names what was expected and what was found.

use vstd::prelude::*;
use std::path::PathBuf;
use crate::ast::{Keyword, OpCode};
use crate::parser::grammar::{Expected, SyntaxError, SyntaxErrorView};
use crate::parser::lexer::{LexError, LexErrorKind, TokenKind, TokenKindView};

verus! {

/// `std::path::PathBuf`: a path is carried into the error as it came.
#[verifier::external_type_specification]
#[verifier::external_body]
pub struct ExPathBuf(PathBuf);

/// Why a parse failed.
#[derive(Debug, PartialEq, Eq)]
pub enum ParseError {
    /// The text of `file` has its first lexical or syntax error on `line`.
    ParseErr { file: PathBuf, line: usize, msg: String },
}

/// The first error of a text: one of its characters, or one of its tokens.
#[derive(Debug, PartialEq, Eq)]
pub enum Failure {
    Lex(LexError),
    Syntax(SyntaxError),
}

/// What a `Failure` holds.
pub enum FailureView {
    Lex(LexError),
    Syntax(SyntaxErrorView),
}

impl View for Failure {
    type V = FailureView;

    open spec fn view(&self) -> FailureView {
        match *self {
            Failure::Lex(e) => FailureView::Lex(e),
            Failure::Syntax(e) => FailureView::Syntax(e@),
        }
    }
}

pub open spec fn operator_text(op: OpCode) -> Seq<char> {
    match op {
        OpCode::Add => "+"@,
        OpCode::Sub => "-"@,
        OpCode::Mul => "*"@,
        OpCode::Div => "/"@,
    }
}

pub open spec fn expected_text(expected: Expected) -> Seq<char> {
    match expected {
        Expected::Expression => "an expression"@,
        Expected::Name => "a name"@,
        Expected::TypeName => "a type name"@,
        Expected::Assign => "an assignment sign"@,
        Expected::Colon => "':'"@,
        Expected::BraceOpen => "'{'"@,
        Expected::ParenClose => "')'"@,
        Expected::Field => "a field or '}'"@,
        Expected::Separator => "',', '}' or a line break"@,
    }
}

pub open spec fn found_text(found: Option<TokenKindView>) -> Seq<char> {
    match found {
        None => "the end of the input"@,
        Some(TokenKindView::Number(n)) => "the number "@ + n,
        Some(TokenKindView::Text(s)) => "the text \""@ + s + "\""@,
        Some(TokenKindView::Iden(x)) => "the name "@ + x,
        Some(TokenKindView::Malformed(w)) => "the malformed word "@ + w,
        Some(TokenKindView::Keyword(Keyword::Local)) => "the keyword local"@,
        Some(TokenKindView::Keyword(Keyword::Mut)) => "the keyword mut"@,
        Some(TokenKindView::Struct) => "the keyword struct"@,
        Some(TokenKindView::Op(op)) => "'"@ + operator_text(op) + "'"@,
        Some(TokenKindView::Assign) => "'='"@,
        Some(TokenKindView::OpAssign(op)) => "'"@ + operator_text(op) + "='"@,
        Some(TokenKindView::ParenOpen) => "'('"@,
        Some(TokenKindView::ParenClose) => "')'"@,
        Some(TokenKindView::BraceOpen) => "'{'"@,
        Some(TokenKindView::BraceClose) => "'}'"@,
        Some(TokenKindView::Comma) => "','"@,
        Some(TokenKindView::Colon) => "':'"@,
    }
}

/// The message for a syntax error.
pub open spec fn syntax_message(e: SyntaxErrorView) -> Seq<char> {
    "expected "@ + expected_text(e.expected) + ", found "@ + found_text(e.found)
}

/// The message for a lexical error.
pub open spec fn lex_message(e: LexError) -> Seq<char> {
    match e.kind {
        LexErrorKind::UnexpectedChar(c) => "expected a token, found the character '"@.push(c)
            + "'"@,
        LexErrorKind::UnterminatedText => "expected a closing quote, found the end of the line"@,
    }
}

pub open spec fn failure_message(f: FailureView) -> Seq<char> {
    match f {
        FailureView::Lex(e) => lex_message(e),
        FailureView::Syntax(e) => syntax_message(e),
    }
}

/// The line that a failure is reported on.
pub open spec fn failure_line(f: FailureView) -> usize {
    match f {
        FailureView::Lex(e) => e.pos.line,
        FailureView::Syntax(e) => e.pos.line,
    }
}

fn operator_name(op: OpCode) -> (r: &'static str)
    ensures
        r@ == operator_text(op),
{
    match op {
        OpCode::Add => "+",
        OpCode::Sub => "-",
        OpCode::Mul => "*",
        OpCode::Div => "/",
    }
}

fn expected_name(expected: Expected) -> (r: &'static str)
    ensures
        r@ == expected_text(expected),
{
    match expected {
        Expected::Expression => "an expression",
        Expected::Name => "a name",
        Expected::TypeName => "a type name",
        Expected::Assign => "an assignment sign",
        Expected::Colon => "':'",
        Expected::BraceOpen => "'{'",
        Expected::ParenClose => "')'",
        Expected::Field => "a field or '}'",
        Expected::Separator => "',', '}' or a line break",
    }
}

/// Appends the words for `found` to `msg`.
fn append_found(msg: &mut String, found: &Option<TokenKind>)
    ensures
        final(msg)@ == old(msg)@ + found_text(
            match *found {
                Some(kind) => Some(kind@),
                None => None,
            },
        ),
{
    let ghost before = msg@;
    match found {
        None => msg.append("the end of the input"),
        Some(TokenKind::Number(n)) => {
            msg.append("the number ");
            msg.append(n.as_str());
            assert(msg@ == before + ("the number "@ + n@));
        },
        Some(TokenKind::Text(s)) => {
            msg.append("the text \"");
            msg.append(s.as_str());
            msg.append("\"");
            assert(msg@ == before + ("the text \""@ + s@ + "\""@));
        },
        Some(TokenKind::Iden(x)) => {
            msg.append("the name ");
            msg.append(x.as_str());
            assert(msg@ == before + ("the name "@ + x@));
        },
        Some(TokenKind::Malformed(w)) => {
            msg.append("the malformed word ");
            msg.append(w.as_str());
            assert(msg@ == before + ("the malformed word "@ + w@));
        },
        Some(TokenKind::Keyword(Keyword::Local)) => msg.append("the keyword local"),
        Some(TokenKind::Keyword(Keyword::Mut)) => msg.append("the keyword mut"),
        Some(TokenKind::Struct) => msg.append("the keyword struct"),
        Some(TokenKind::Op(op)) => {
            msg.append("'");
            msg.append(operator_name(*op));
            msg.append("'");
            assert(msg@ == before + ("'"@ + operator_text(*op) + "'"@));
        },
        Some(TokenKind::Assign) => msg.append("'='"),
        Some(TokenKind::OpAssign(op)) => {
            msg.append("'");
            msg.append(operator_name(*op));
            msg.append("='");
            assert(msg@ == before + ("'"@ + operator_text(*op) + "='"@));
        },
        Some(TokenKind::ParenOpen) => msg.append("'('"),
        Some(TokenKind::ParenClose) => msg.append("')'"),
        Some(TokenKind::BraceOpen) => msg.append("'{'"),
        Some(TokenKind::BraceClose) => msg.append("'}'"),
        Some(TokenKind::Comma) => msg.append("','"),
        Some(TokenKind::Colon) => msg.append("':'"),
    }
}

/// The message and the line for a failure.
pub fn build_error(failure: &Failure) -> (r: (String, usize))
    ensures
        r.0@ == failure_message(failure@),
        r.1 == failure_line(failure@),
{
    match failure {
        Failure::Lex(e) => {
            let msg = match e.kind {
                LexErrorKind::UnexpectedChar(c) => {
                    let mut msg = String::from_str("expected a token, found the character '");
                    msg.push(c);
                    msg.append("'");
                    msg
                },
                LexErrorKind::UnterminatedText => String::from_str(
                    "expected a closing quote, found the end of the line",
                ),
            };
            (msg, e.pos.line)
        },
        Failure::Syntax(e) => {
            let mut msg = String::from_str("expected ");
            msg.append(expected_name(e.expected));
            msg.append(", found ");
            append_found(&mut msg, &e.found);
            (msg, e.pos.line)
        },
    }
}

/// The error that is handed to the caller of the parser for a failure in
/// the text of `file`.
pub fn report(file: PathBuf, failure: &Failure) -> (r: ParseError)
    ensures
        r matches ParseError::ParseErr { file: f, line, msg } && f == file && line == failure_line(
            failure@,
        ) && msg@ == failure_message(failure@),
{
    let (msg, line) = build_error(failure);
    ParseError::ParseErr { file, line, msg }
}

} // verus!

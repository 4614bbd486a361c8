//! From source text to the syntax tree.

use vstd::prelude::*;
use std::path::PathBuf;
use crate::ast::{Ast, BlockView, NameRules};
use crate::parser::derivation::{derives_program, lemma_program_is_grammar};
use crate::parser::errors::{
    failure_line, failure_message, lex_message, report, Failure, FailureView, ParseError,
};
use crate::parser::grammar::{parse_tokens, program};
use crate::parser::lexer::{
    is_foreign, is_plain, lemma_foreign_character, lemma_lex_tiles, lemma_plain_text, lex,
    lex_spec, tiles, LexError, LexErrorKind,
};
use crate::text::{chars_of, line_of, position_at};

pub mod derivation;
pub mod errors;
pub mod grammar;
pub mod lexer;

verus! {

/// What the text `code` is: the blocks of its program, or its first
/// failure. A failure of the lexer comes before any of the grammar.
pub open spec fn parse_spec(rules: NameRules, code: Seq<char>) -> Result<
    Seq<BlockView>,
    FailureView,
> {
    match lex_spec(rules, code) {
        Ok(tokens) => match program(tokens) {
            Ok(blocks) => Ok(blocks),
            Err(e) => Err(FailureView::Syntax(e)),
        },
        Err(e) => Err(FailureView::Lex(e)),
    }
}

/// That `r` is what `parsed` asks for: the tree of those blocks, or the
/// error with the path `file`, and the line and the message of that
/// failure.
pub open spec fn parse_is(
    r: Result<Ast, ParseError>,
    file: PathBuf,
    parsed: Result<Seq<BlockView>, FailureView>,
) -> bool {
    match parsed {
        Ok(blocks) => r matches Ok(ast) && ast@ == blocks,
        Err(failure) => r matches Err(ParseError::ParseErr { file: f, line, msg }) && f == file
            && line == failure_line(failure) && msg@ == failure_message(failure),
    }
}

/// That the blocks `list` are the program of the text `code`: `code` has
/// tokens, and all of them write `list`.
pub open spec fn is_program_of(rules: NameRules, code: Seq<char>, list: Seq<BlockView>) -> bool {
    lex_spec(rules, code) matches Ok(t) && derives_program(t, list)
}

/// Parses the text `code` under the standard naming rules. `src_pth` is
/// where the text came from: it is not read, only named in the error.
///
/// The result is the tree of the whole text, or the first failure: the
/// first lexical fault if the text has one, and else the first token that
/// the grammar has no place for. The error names the path as it came, the
/// line of the failure and a message that says what was expected and what
/// was found.
pub fn parse_str(src_pth: PathBuf, code: &str) -> (r: Result<Ast, ParseError>)
    ensures
        parse_is(r, src_pth, parse_spec(NameRules::standard(), code@)),
        forall|list: Seq<BlockView>| #[trigger]
            is_program_of(NameRules::standard(), code@, list) <==> (r matches Ok(ast) && ast@
                == list),
{
    parse_str_with(src_pth, code, NameRules::standard())
}

/// Parses the text `code` under the naming rules `rules`.
pub fn parse_str_with(src_pth: PathBuf, code: &str, rules: NameRules) -> (r: Result<
    Ast,
    ParseError,
>)
    ensures
        parse_is(r, src_pth, parse_spec(rules, code@)),
        forall|list: Seq<BlockView>| #[trigger]
            is_program_of(rules, code@, list) <==> (r matches Ok(ast) && ast@ == list),
{
    proof {
        assert forall|list: Seq<BlockView>| #[trigger]
            is_program_of(rules, code@, list) <==> parse_spec(rules, code@) == Ok::<
                _,
                FailureView,
            >(list) by {
            lemma_no_partial_tree(rules, code@, list);
        }
    }
    let chars = chars_of(code);
    let tokens = match lex(chars.as_slice(), rules) {
        Ok(tokens) => tokens,
        Err(e) => {
            return Err(report(src_pth, &Failure::Lex(e)));
        },
    };
    match parse_tokens(tokens.as_slice()) {
        Ok(ast) => Ok(ast),
        Err(e) => Err(report(src_pth, &Failure::Syntax(e))),
    }
}

/// Parsing has no hidden state: whatever two calls return for the same
/// path, rules and text, they return the same, trees with equal views or
/// errors with the same path, line and message.
pub proof fn lemma_parse_deterministic(
    file: PathBuf,
    rules: NameRules,
    code: Seq<char>,
    first: Result<Ast, ParseError>,
    second: Result<Ast, ParseError>,
)
    requires
        parse_is(first, file, parse_spec(rules, code)),
        parse_is(second, file, parse_spec(rules, code)),
    ensures
        first is Ok <==> second is Ok,
        first matches Ok(a) ==> second matches Ok(b) && a@ == b@,
        first matches Err(ParseError::ParseErr { file: f1, line: l1, msg: m1 }) ==> second matches Err(
            ParseError::ParseErr { file: f2, line: l2, msg: m2 },
        ) && f1 == f2 && l1 == l2 && m1@ == m2@,
{
}

/// A character that no token can hold is reported on its own line: where
/// the text before it has its tokens, the parse fails with the line of
/// that character, one more than the line feeds before it, and with the
/// message for that character.
pub proof fn lemma_invalid_character_line(rules: NameRules, code: Seq<char>, n: int)
    requires
        0 <= n < code.len() <= usize::MAX,
        is_foreign(code[n]),
        lex_spec(rules, code.subrange(0, n)) is Ok,
    ensures
        parse_spec(rules, code) matches Err(failure) && failure_line(failure) == line_of(code, n)
            && failure_message(failure) == lex_message(
            LexError { kind: LexErrorKind::UnexpectedChar(code[n]), pos: position_at(code, n) },
        ),
{
    lemma_foreign_character(rules, code, n);
}

/// The same, for the first character of a text that is not plain: where
/// plain characters only stand before a character that no token can hold,
/// that character's line is the line of the error.
pub proof fn lemma_first_invalid_character(rules: NameRules, code: Seq<char>, n: int)
    requires
        0 <= n < code.len() <= usize::MAX,
        is_foreign(code[n]),
        forall|k: int| 0 <= k < n ==> is_plain(#[trigger] code[k]),
    ensures
        parse_spec(rules, code) matches Err(failure) && failure_line(failure) == line_of(code, n)
            && failure_message(failure) == lex_message(
            LexError { kind: LexErrorKind::UnexpectedChar(code[n]), pos: position_at(code, n) },
        ),
{
    let before = code.subrange(0, n);
    assert forall|k: int| 0 <= k < before.len() implies is_plain(#[trigger] before[k]) by {
        assert(before[k] == code[k]);
    }
    lemma_plain_text(rules, before, 0);
    lemma_invalid_character_line(rules, code, n);
}

/// A tree is never the tree of a part of the text. A text parses to the
/// blocks `list` if and only if it has tokens and all of them, from the
/// first to the last, write `list`; and these tokens are all that the text
/// holds besides white space, from its first character to its last.
pub proof fn lemma_no_partial_tree(rules: NameRules, code: Seq<char>, list: Seq<BlockView>)
    ensures
        parse_spec(rules, code) == Ok::<_, FailureView>(list) <==> is_program_of(rules, code, list),
        lex_spec(rules, code) matches Ok(t) ==> tiles(code, 0, t),
{
    if let Ok(t) = lex_spec(rules, code) {
        lemma_lex_tiles(rules, code, 0);
        lemma_program_is_grammar(t, list);
    }
}

} // verus!

//! The lexer: from the characters of a source text to its tokens.
//!
//! Blanks, tabs, carriage returns and line feeds separate tokens and are
//! dropped. A run of letters, digits and underscores is read as a whole:
//! it is `struct`, a keyword, a name, or, where the naming rule rejects
//! it, the digits of a number. A run that is none of these is still a
//! token, a malformed word, which the grammar has no place for. A text
//! literal stands between double quotes on one line and has no escapes.
//! The lexer itself fails on two things only: a character that starts no
//! token, and a text literal that its line does not close.

use vstd::prelude::*;
use vstd::pervasive::unreached;
use crate::ast::{
    all_digits, is_identifier_under, is_number, Identifier, Keyword, NameRules, Number, OpCode,
};
use crate::text::{
    col_of, collect, digit, in_class, is_digit, is_name_char, is_space, lemma_position_bounds,
    lemma_run_end, lemma_run_end_is, lemma_same_line, line_of, line_start, name_char,
    newlines_before, position_at, run_end, scan_run, space, spells, CharClass, Position,
};

verus! {

/// What a token is.
#[derive(Debug, PartialEq, Eq)]
pub enum TokenKind {
    Number(Number),
    /// A text literal, without its quotes.
    Text(String),
    Iden(Identifier),
    /// A run of letters, digits and underscores that is neither a name nor
    /// a number, such as `1abc`.
    Malformed(String),
    Keyword(Keyword),
    /// The word `struct`.
    Struct,
    /// `+`, `-`, `*` or `/`.
    Op(OpCode),
    /// `=`.
    Assign,
    /// `+=`, `-=`, `*=` or `/=`.
    OpAssign(OpCode),
    ParenOpen,
    ParenClose,
    BraceOpen,
    BraceClose,
    Comma,
    Colon,
}

/// What a `TokenKind` holds.
pub enum TokenKindView {
    Number(Seq<char>),
    Text(Seq<char>),
    Iden(Seq<char>),
    Malformed(Seq<char>),
    Keyword(Keyword),
    Struct,
    Op(OpCode),
    Assign,
    OpAssign(OpCode),
    ParenOpen,
    ParenClose,
    BraceOpen,
    BraceClose,
    Comma,
    Colon,
}

impl View for TokenKind {
    type V = TokenKindView;

    open spec fn view(&self) -> TokenKindView {
        match *self {
            TokenKind::Number(n) => TokenKindView::Number(n@),
            TokenKind::Text(s) => TokenKindView::Text(s@),
            TokenKind::Iden(x) => TokenKindView::Iden(x@),
            TokenKind::Malformed(w) => TokenKindView::Malformed(w@),
            TokenKind::Keyword(k) => TokenKindView::Keyword(k),
            TokenKind::Struct => TokenKindView::Struct,
            TokenKind::Op(op) => TokenKindView::Op(op),
            TokenKind::Assign => TokenKindView::Assign,
            TokenKind::OpAssign(op) => TokenKindView::OpAssign(op),
            TokenKind::ParenOpen => TokenKindView::ParenOpen,
            TokenKind::ParenClose => TokenKindView::ParenClose,
            TokenKind::BraceOpen => TokenKindView::BraceOpen,
            TokenKind::BraceClose => TokenKindView::BraceClose,
            TokenKind::Comma => TokenKindView::Comma,
            TokenKind::Colon => TokenKindView::Colon,
        }
    }
}

impl Clone for TokenKind {
    fn clone(&self) -> (r: Self)
        ensures
            r == *self,
    {
        match self {
            TokenKind::Number(n) => TokenKind::Number(n.clone()),
            TokenKind::Text(s) => TokenKind::Text(s.clone()),
            TokenKind::Iden(x) => TokenKind::Iden(x.clone()),
            TokenKind::Malformed(w) => TokenKind::Malformed(w.clone()),
            TokenKind::Keyword(k) => TokenKind::Keyword(*k),
            TokenKind::Struct => TokenKind::Struct,
            TokenKind::Op(op) => TokenKind::Op(*op),
            TokenKind::Assign => TokenKind::Assign,
            TokenKind::OpAssign(op) => TokenKind::OpAssign(*op),
            TokenKind::ParenOpen => TokenKind::ParenOpen,
            TokenKind::ParenClose => TokenKind::ParenClose,
            TokenKind::BraceOpen => TokenKind::BraceOpen,
            TokenKind::BraceClose => TokenKind::BraceClose,
            TokenKind::Comma => TokenKind::Comma,
            TokenKind::Colon => TokenKind::Colon,
        }
    }
}

/// A token and the position of its first character.
#[derive(Debug, PartialEq, Eq)]
pub struct Token {
    pub kind: TokenKind,
    pub pos: Position,
}

/// What a `Token` holds.
pub struct TokenView {
    pub kind: TokenKindView,
    pub pos: Position,
}

impl View for Token {
    type V = TokenView;

    open spec fn view(&self) -> TokenView {
        TokenView { kind: self.kind@, pos: self.pos }
    }
}

impl Clone for Token {
    fn clone(&self) -> (r: Self)
        ensures
            r == *self,
    {
        Token { kind: self.kind.clone(), pos: self.pos }
    }
}

pub open spec fn token_views(tokens: Seq<Token>) -> Seq<TokenView> {
    tokens.map_values(|t: Token| t@)
}

/// Why a text has no tokens.
#[derive(Debug, Clone, Copy, PartialEq, Eq, Structural)]
pub enum LexErrorKind {
    /// A character that starts no token.
    UnexpectedChar(char),
    /// A text literal whose line ends before its closing quote.
    UnterminatedText,
}

/// The first fault of a text, and where it is: for an unexpected
/// character its own position, for an unterminated text literal that of
/// the opening quote.
#[derive(Debug, Clone, Copy, PartialEq, Eq, Structural)]
pub struct LexError {
    pub kind: LexErrorKind,
    pub pos: Position,
}

/// What stands at an index: a token and the index after it, or a fault.
pub enum Scanned {
    Token { kind: TokenKindView, end: int },
    Error { fault: LexErrorKind },
}

pub open spec fn operator_of(c: char) -> Option<OpCode> {
    if c == '+' {
        Some(OpCode::Add)
    } else if c == '-' {
        Some(OpCode::Sub)
    } else if c == '*' {
        Some(OpCode::Mul)
    } else if c == '/' {
        Some(OpCode::Div)
    } else {
        None
    }
}

pub open spec fn punctuation_of(c: char) -> Option<TokenKindView> {
    if c == '=' {
        Some(TokenKindView::Assign)
    } else if c == '(' {
        Some(TokenKindView::ParenOpen)
    } else if c == ')' {
        Some(TokenKindView::ParenClose)
    } else if c == '{' {
        Some(TokenKindView::BraceOpen)
    } else if c == '}' {
        Some(TokenKindView::BraceClose)
    } else if c == ',' {
        Some(TokenKindView::Comma)
    } else if c == ':' {
        Some(TokenKindView::Colon)
    } else {
        None
    }
}

/// An operator, an operator with `=` directly behind it, or a single
/// punctuation character; any other character is a fault.
pub open spec fn scan_symbol(s: Seq<char>, i: int) -> Scanned {
    match operator_of(s[i]) {
        Some(op) => if i + 1 < s.len() && s[i + 1] == '=' {
            Scanned::Token { kind: TokenKindView::OpAssign(op), end: i + 2 }
        } else {
            Scanned::Token { kind: TokenKindView::Op(op), end: i + 1 }
        },
        None => match punctuation_of(s[i]) {
            Some(kind) => Scanned::Token { kind, end: i + 1 },
            None => Scanned::Error { fault: LexErrorKind::UnexpectedChar(s[i]) },
        },
    }
}

/// A text literal opens at `i`: it runs to the next double quote, which
/// must come before the line ends.
pub open spec fn scan_text(s: Seq<char>, i: int) -> Scanned {
    let close = run_end(s, i + 1, CharClass::TextBody);
    if close < s.len() && s[close] == '"' {
        Scanned::Token { kind: TokenKindView::Text(s.subrange(i + 1, close)), end: close + 1 }
    } else {
        Scanned::Error { fault: LexErrorKind::UnterminatedText }
    }
}

/// The digits `s[i..j]` are a number, or the whole part of one: a point
/// with a digit behind it starts the fraction, which is the run of name
/// characters from there. Where the fraction is not all digits, the whole
/// is a malformed word.
pub open spec fn scan_fraction(s: Seq<char>, i: int, j: int) -> Scanned {
    if j + 1 < s.len() && s[j] == '.' && is_digit(s[j + 1]) {
        let end = run_end(s, j + 1, CharClass::Name);
        if all_digits(s.subrange(j + 1, end)) {
            Scanned::Token { kind: TokenKindView::Number(s.subrange(i, end)), end }
        } else {
            Scanned::Token { kind: TokenKindView::Malformed(s.subrange(i, end)), end }
        }
    } else {
        Scanned::Token { kind: TokenKindView::Number(s.subrange(i, j)), end: j }
    }
}

/// A run of name characters starts at `i`. It is `struct`, a keyword or a
/// name. Where the naming rule rejects it, it is read as a number if it is
/// all digits, and else it is a malformed word.
pub open spec fn scan_word(rules: NameRules, s: Seq<char>, i: int) -> Scanned {
    let end = run_end(s, i, CharClass::Name);
    let word = s.subrange(i, end);
    if word == "struct"@ {
        Scanned::Token { kind: TokenKindView::Struct, end }
    } else if word == "local"@ {
        Scanned::Token { kind: TokenKindView::Keyword(Keyword::Local), end }
    } else if word == "mut"@ {
        Scanned::Token { kind: TokenKindView::Keyword(Keyword::Mut), end }
    } else if is_identifier_under(rules, word) {
        Scanned::Token { kind: TokenKindView::Iden(word), end }
    } else if all_digits(word) {
        scan_fraction(s, i, end)
    } else {
        Scanned::Token { kind: TokenKindView::Malformed(word), end }
    }
}

/// What stands at `i`. White space is no token: `lex_from` skips it, and
/// here it is a fault as any character that starts no token.
pub open spec fn scan(rules: NameRules, s: Seq<char>, i: int) -> Scanned {
    if is_name_char(s[i]) {
        scan_word(rules, s, i)
    } else if s[i] == '"' {
        scan_text(s, i)
    } else {
        scan_symbol(s, i)
    }
}

pub open spec fn prepend(
    head: Seq<TokenView>,
    rest: Result<Seq<TokenView>, LexError>,
) -> Result<Seq<TokenView>, LexError> {
    match rest {
        Ok(tokens) => Ok(head + tokens),
        Err(e) => Err(e),
    }
}

/// The tokens of `s` from index `i` on, or the first fault from there.
pub open spec fn lex_from(rules: NameRules, s: Seq<char>, i: int) -> Result<
    Seq<TokenView>,
    LexError,
>
    decreases s.len() - i,
{
    if i < 0 || i >= s.len() {
        Ok(Seq::empty())
    } else if is_space(s[i]) {
        lex_from(rules, s, i + 1)
    } else {
        match scan(rules, s, i) {
            Scanned::Token { kind, end } => {
                proof {
                    lemma_scan(rules, s, i);
                }
                prepend(
                    seq![TokenView { kind, pos: position_at(s, i) }],
                    lex_from(rules, s, end),
                )
            },
            Scanned::Error { fault } => Err(LexError { kind: fault, pos: position_at(s, i) }),
        }
    }
}

/// The tokens of `s`, or its first fault.
pub open spec fn lex_spec(rules: NameRules, s: Seq<char>) -> Result<Seq<TokenView>, LexError> {
    lex_from(rules, s, 0)
}

/// A token is not empty, ends within the text and holds no line feed.
pub proof fn lemma_scan(rules: NameRules, s: Seq<char>, i: int)
    requires
        0 <= i < s.len(),
        !is_space(s[i]),
    ensures
        scan(rules, s, i) matches Scanned::Token { kind, end } ==> i < end <= s.len()
            && forall|k: int| i <= k < end ==> #[trigger] s[k] != '\n',
{
    if is_name_char(s[i]) {
        let end = run_end(s, i, CharClass::Name);
        lemma_run_end(s, i, CharClass::Name);
        assert(end > i);
        if end + 1 < s.len() {
            lemma_run_end(s, end + 1, CharClass::Name);
        }
    } else if s[i] == '"' {
        lemma_run_end(s, i + 1, CharClass::TextBody);
    }
}

/// A character that stands for itself wherever it is: white space, a
/// letter, a digit, an underscore, an operator or a punctuation mark. A
/// double quote and a point are not plain: what they are depends on what
/// follows them.
pub open spec fn is_plain(c: char) -> bool {
    is_space(c) || is_name_char(c) || operator_of(c) is Some || punctuation_of(c) is Some
}

/// A text of plain characters has its tokens.
pub proof fn lemma_plain_text(rules: NameRules, s: Seq<char>, i: int)
    requires
        0 <= i,
        forall|k: int| i <= k < s.len() ==> is_plain(#[trigger] s[k]),
    ensures
        lex_from(rules, s, i) is Ok,
    decreases s.len() - i,
{
    if i < s.len() {
        assert(is_plain(s[i]));
        if is_space(s[i]) {
            lemma_plain_text(rules, s, i + 1);
        } else {
            lemma_scan(rules, s, i);
            if is_name_char(s[i]) {
                let end = run_end(s, i, CharClass::Name);
                lemma_run_end(s, i, CharClass::Name);
                if end < s.len() {
                    assert(is_plain(s[end]));
                }
            }
            lemma_plain_text(rules, s, scan(rules, s, i)->end);
        }
    }
}

/// A character that no token can hold, but for a text literal.
pub open spec fn is_foreign(c: char) -> bool {
    &&& !is_space(c)
    &&& !is_name_char(c)
    &&& c != '"'
    &&& c != '.'
    &&& operator_of(c) is None
    &&& punctuation_of(c) is None
}

/// A run in a text is the run in a prefix of the text, where the run ends
/// within the prefix, or where the text goes on behind the prefix with a
/// character that the run cannot hold.
proof fn lemma_run_end_of_prefix(s: Seq<char>, n: int, k: int, class: CharClass)
    requires
        0 <= k <= n <= s.len(),
        run_end(s.subrange(0, n), k, class) < n || (n < s.len() && !in_class(class, s[n])),
    ensures
        run_end(s, k, class) == run_end(s.subrange(0, n), k, class),
{
    let p = s.subrange(0, n);
    let end = run_end(p, k, class);
    lemma_run_end(p, k, class);
    assert forall|x: int| k <= x < end implies in_class(class, #[trigger] s[x]) by {
        assert(p[x] == s[x]);
    }
    if end < n {
        assert(p[end] == s[end]);
    }
    lemma_run_end_is(s, k, end, class);
}

/// What stands at `k` in the text before a foreign character stands there
/// in the whole text too, and ends at the same index.
proof fn lemma_scan_before_foreign(rules: NameRules, s: Seq<char>, n: int, k: int)
    requires
        0 <= k < n < s.len(),
        is_foreign(s[n]),
        !is_space(s[k]),
        scan(rules, s.subrange(0, n), k) is Token,
    ensures
        scan(rules, s, k) == scan(rules, s.subrange(0, n), k),
{
    let p = s.subrange(0, n);
    assert(p[k] == s[k]);
    lemma_scan(rules, p, k);
    if is_name_char(s[k]) {
        let end = run_end(p, k, CharClass::Name);
        lemma_run_end(p, k, CharClass::Name);
        lemma_run_end_of_prefix(s, n, k, CharClass::Name);
        assert(s.subrange(k, end) == p.subrange(k, end));
        if end + 1 < n {
            assert(p[end] == s[end]);
            assert(p[end + 1] == s[end + 1]);
            lemma_run_end(p, end + 1, CharClass::Name);
            lemma_run_end_of_prefix(s, n, end + 1, CharClass::Name);
            let last = run_end(p, end + 1, CharClass::Name);
            assert(s.subrange(k, last) == p.subrange(k, last));
            assert(s.subrange(end + 1, last) == p.subrange(end + 1, last));
        } else if end < n {
            assert(p[end] == s[end]);
        }
    } else if s[k] == '"' {
        lemma_run_end(p, k + 1, CharClass::TextBody);
        lemma_run_end_of_prefix(s, n, k + 1, CharClass::TextBody);
        let close = run_end(p, k + 1, CharClass::TextBody);
        assert(p[close] == s[close]);
        assert(s.subrange(k + 1, close) == p.subrange(k + 1, close));
    } else {
        if k + 1 < n {
            assert(p[k + 1] == s[k + 1]);
        }
    }
}

/// Lexing from `k` ends at a foreign character at `n`, if the text before
/// it has its tokens.
proof fn lemma_lex_reaches_foreign(rules: NameRules, s: Seq<char>, n: int, k: int)
    requires
        0 <= k <= n < s.len(),
        is_foreign(s[n]),
        lex_from(rules, s.subrange(0, n), k) is Ok,
    ensures
        lex_from(rules, s, k) == Err::<Seq<TokenView>, LexError>(
            LexError { kind: LexErrorKind::UnexpectedChar(s[n]), pos: position_at(s, n) },
        ),
    decreases n - k,
{
    let p = s.subrange(0, n);
    if k < n {
        assert(p[k] == s[k]);
        if is_space(s[k]) {
            lemma_lex_reaches_foreign(rules, s, n, k + 1);
        } else {
            lemma_scan(rules, p, k);
            lemma_scan_before_foreign(rules, s, n, k);
            let end = scan(rules, p, k)->end;
            lemma_lex_reaches_foreign(rules, s, n, end);
        }
    }
}

/// The first fault of a text is its first foreign character, where the
/// text before that character has its tokens: the error holds that
/// character and its position, so its line is one more than the line
/// feeds before the character.
pub proof fn lemma_foreign_character(rules: NameRules, s: Seq<char>, n: int)
    requires
        0 <= n < s.len() <= usize::MAX,
        is_foreign(s[n]),
        lex_spec(rules, s.subrange(0, n)) is Ok,
    ensures
        lex_spec(rules, s) matches Err(e) && e.kind == LexErrorKind::UnexpectedChar(s[n]) && e.pos
            == position_at(s, n) && e.pos.line == line_of(s, n) && e.pos.col == col_of(s, n),
{
    lemma_lex_reaches_foreign(rules, s, n, 0);
    lemma_position_bounds(s, n);
}

/// The character of an operator.
pub open spec fn operator_char(op: OpCode) -> char {
    match op {
        OpCode::Add => '+',
        OpCode::Sub => '-',
        OpCode::Mul => '*',
        OpCode::Div => '/',
    }
}

/// The characters that a token is written with.
pub open spec fn token_text(kind: TokenKindView) -> Seq<char> {
    match kind {
        TokenKindView::Number(n) => n,
        TokenKindView::Text(s) => seq!['"'] + s + seq!['"'],
        TokenKindView::Iden(x) => x,
        TokenKindView::Malformed(w) => w,
        TokenKindView::Keyword(Keyword::Local) => "local"@,
        TokenKindView::Keyword(Keyword::Mut) => "mut"@,
        TokenKindView::Struct => "struct"@,
        TokenKindView::Op(op) => seq![operator_char(op)],
        TokenKindView::Assign => seq!['='],
        TokenKindView::OpAssign(op) => seq![operator_char(op), '='],
        TokenKindView::ParenOpen => seq!['('],
        TokenKindView::ParenClose => seq![')'],
        TokenKindView::BraceOpen => seq!['{'],
        TokenKindView::BraceClose => seq!['}'],
        TokenKindView::Comma => seq![','],
        TokenKindView::Colon => seq![':'],
    }
}

/// From `i` to `k` the text `s` is white space, and at `k` stands
/// `token`, written out, with `k` as its position.
pub open spec fn token_stands(s: Seq<char>, i: int, k: int, token: TokenView) -> bool {
    &&& 0 <= i <= k
    &&& k + token_text(token.kind).len() <= s.len()
    &&& forall|x: int| i <= x < k ==> is_space(#[trigger] s[x])
    &&& token.pos == position_at(s, k)
    &&& s.subrange(k, k + token_text(token.kind).len()) == token_text(token.kind)
}

/// The text `s` from `i` on is `tokens` and nothing else: white space,
/// the first token, white space, the second, and so on, and white space
/// to the end.
pub open spec fn tiles(s: Seq<char>, i: int, tokens: Seq<TokenView>) -> bool
    decreases tokens.len(),
{
    if tokens.len() == 0 {
        forall|x: int| i <= x < s.len() ==> is_space(#[trigger] s[x])
    } else {
        exists|k: int| #[trigger]
            token_stands(s, i, k, tokens[0]) && tiles(
                s,
                k + token_text(tokens[0].kind).len(),
                tokens.drop_first(),
            )
    }
}

/// A token that is scanned is written in the text where it was scanned.
proof fn lemma_scan_text(rules: NameRules, s: Seq<char>, i: int)
    requires
        0 <= i < s.len(),
        !is_space(s[i]),
    ensures
        scan(rules, s, i) matches Scanned::Token { kind, end } ==> s.subrange(i, end)
            == token_text(kind),
{
    lemma_scan(rules, s, i);
    if let Scanned::Token { kind, end } = scan(rules, s, i) {
        if is_name_char(s[i]) {
            let word = s.subrange(i, run_end(s, i, CharClass::Name));
            if word == "struct"@ || word == "local"@ || word == "mut"@ || is_identifier_under(
                rules,
                word,
            ) || !all_digits(word) {
                assert(s.subrange(i, end) == word);
            }
        } else if s[i] == '"' {
            lemma_run_end(s, i + 1, CharClass::TextBody);
            let body = s.subrange(i + 1, end - 1);
            assert(s.subrange(i, end) =~= seq!['"'] + body + seq!['"']);
        } else {
            match operator_of(s[i]) {
                Some(op) => {
                    assert(s[i] == operator_char(op));
                    if end == i + 2 {
                        assert(s.subrange(i, end) =~= seq![operator_char(op), '=']);
                    } else {
                        assert(s.subrange(i, end) =~= seq![operator_char(op)]);
                    }
                },
                None => {
                    assert(s.subrange(i, end) =~= seq![s[i]]);
                },
            }
        }
    }
}

/// White space before what tiles a text tiles it too.
proof fn lemma_tiles_after_space(s: Seq<char>, i: int, tokens: Seq<TokenView>)
    requires
        0 <= i < s.len(),
        is_space(s[i]),
        tiles(s, i + 1, tokens),
    ensures
        tiles(s, i, tokens),
{
    if tokens.len() > 0 {
        let k = choose|k: int| #[trigger]
            token_stands(s, i + 1, k, tokens[0]) && tiles(
                s,
                k + token_text(tokens[0].kind).len(),
                tokens.drop_first(),
            );
        assert(token_stands(s, i, k, tokens[0]));
    }
}

/// The tokens of a text are all that the text holds besides white space,
/// in their order and at their positions.
pub proof fn lemma_lex_tiles(rules: NameRules, s: Seq<char>, i: int)
    requires
        0 <= i,
    ensures
        lex_from(rules, s, i) matches Ok(tokens) ==> tiles(s, i, tokens),
    decreases s.len() - i,
{
    if i < s.len() {
        if is_space(s[i]) {
            lemma_lex_tiles(rules, s, i + 1);
            if let Ok(tokens) = lex_from(rules, s, i + 1) {
                lemma_tiles_after_space(s, i, tokens);
            }
        } else {
            lemma_scan(rules, s, i);
            lemma_scan_text(rules, s, i);
            if let Scanned::Token { kind, end } = scan(rules, s, i) {
                lemma_lex_tiles(rules, s, end);
                if let Ok(rest) = lex_from(rules, s, end) {
                    let token = TokenView { kind, pos: position_at(s, i) };
                    let tokens = seq![token] + rest;
                    assert(tokens[0] == token);
                    assert(tokens.drop_first() == rest);
                    assert(token_stands(s, i, i, token));
                }
            }
        }
    }
}

/// `struct` and the keywords.
pub open spec fn is_reserved(word: Seq<char>) -> bool {
    word == "struct"@ || word == "local"@ || word == "mut"@
}

/// What holds of each token that the lexer gives under `rules`: a name
/// keeps the naming rule and is no reserved word, a number has the form of
/// a number, a malformed word is none of these, and a text holds neither a
/// double quote nor a line feed.
pub open spec fn token_valid(rules: NameRules, kind: TokenKindView) -> bool {
    match kind {
        TokenKindView::Iden(x) => is_identifier_under(rules, x) && !is_reserved(x),
        TokenKindView::Number(n) => is_number(n),
        TokenKindView::Malformed(w) => !is_identifier_under(rules, w) && !is_number(w)
            && !is_reserved(w),
        TokenKindView::Text(body) => forall|k: int|
            0 <= k < body.len() ==> in_class(CharClass::TextBody, #[trigger] body[k]),
        _ => true,
    }
}

/// A word with a character that is neither a digit nor a point, or with
/// one point and behind it something else than digits only, is no number.
proof fn lemma_no_number(w: Seq<char>, point: int)
    requires
        forall|k: int| 0 <= k < w.len() && k != point ==> #[trigger] w[k] != '.',
        !all_digits(w),
        0 <= point < w.len() ==> !all_digits(w.subrange(point + 1, w.len() as int)),
    ensures
        !is_number(w),
{
}

proof fn lemma_scan_valid(rules: NameRules, s: Seq<char>, i: int)
    requires
        0 <= i < s.len(),
        !is_space(s[i]),
    ensures
        scan(rules, s, i) matches Scanned::Token { kind, end } ==> token_valid(rules, kind),
{
    lemma_scan(rules, s, i);
    if is_name_char(s[i]) {
        let j = run_end(s, i, CharClass::Name);
        lemma_run_end(s, i, CharClass::Name);
        let word = s.subrange(i, j);
        assert forall|k: int| 0 <= k < word.len() implies #[trigger] word[k] != '.' by {
            assert(is_name_char(s[i + k]));
        }
        if is_reserved(word) {
        } else if is_identifier_under(rules, word) {
        } else if !all_digits(word) {
            lemma_no_number(word, -1);
        } else if j + 1 < s.len() && s[j] == '.' && is_digit(s[j + 1]) {
            let end = run_end(s, j + 1, CharClass::Name);
            lemma_run_end(s, j + 1, CharClass::Name);
            lemma_run_end(s, j + 2, CharClass::Name);
            let w = s.subrange(i, end);
            let p = j - i;
            assert(w.subrange(0, p) == word);
            assert(w.subrange(p + 1, w.len() as int) == s.subrange(j + 1, end));
            assert(w[p] == '.');
            if all_digits(s.subrange(j + 1, end)) {
                assert(0 < p < w.len() - 1 && w[p] == '.' && all_digits(w.subrange(0, p))
                    && all_digits(w.subrange(p + 1, w.len() as int)));
            } else {
                assert(!is_digit(w[p]));
                assert forall|k: int| 0 <= k < w.len() && k != p implies #[trigger] w[k]
                    != '.' by {
                    assert(is_name_char(s[i + k]));
                }
                lemma_no_number(w, p);
                assert(!is_reserved(w)) by {
                    reveal_strlit("struct");
                    reveal_strlit("local");
                    reveal_strlit("mut");
                    assert(is_digit(w[0]));
                }
                assert(!is_identifier_under(rules, w));
            }
        } else {
            assert(word.len() > 0);
        }
    } else if s[i] == '"' {
        let close = run_end(s, i + 1, CharClass::TextBody);
        lemma_run_end(s, i + 1, CharClass::TextBody);
        let body = s.subrange(i + 1, close);
        assert forall|k: int| 0 <= k < body.len() implies in_class(
            CharClass::TextBody,
            #[trigger] body[k],
        ) by {
            assert(in_class(CharClass::TextBody, s[i + 1 + k]));
        }
    }
}

/// Every token of a text is valid under the rules that it was read with.
pub proof fn lemma_lex_valid(rules: NameRules, s: Seq<char>, i: int)
    requires
        0 <= i,
    ensures
        lex_from(rules, s, i) matches Ok(tokens) ==> forall|k: int|
            0 <= k < tokens.len() ==> token_valid(rules, (#[trigger] tokens[k]).kind),
    decreases s.len() - i,
{
    if i < s.len() {
        if is_space(s[i]) {
            lemma_lex_valid(rules, s, i + 1);
        } else {
            lemma_scan(rules, s, i);
            lemma_scan_valid(rules, s, i);
            if let Scanned::Token { kind, end } = scan(rules, s, i) {
                lemma_lex_valid(rules, s, end);
            }
        }
    }
}

/// That `r` is what `scanned` asks for: the token with that view and the
/// same index behind it, or the same fault.
pub open spec fn scanned_as(r: Result<(TokenKind, usize), LexErrorKind>, scanned: Scanned) -> bool {
    match scanned {
        Scanned::Token { kind, end } => r matches Ok((k, e)) && k@ == kind && e == end,
        Scanned::Error { fault } => r == Err::<(TokenKind, usize), LexErrorKind>(fault),
    }
}

pub fn operator(c: char) -> (r: Option<OpCode>)
    ensures
        r == operator_of(c),
{
    if c == '+' {
        Some(OpCode::Add)
    } else if c == '-' {
        Some(OpCode::Sub)
    } else if c == '*' {
        Some(OpCode::Mul)
    } else if c == '/' {
        Some(OpCode::Div)
    } else {
        None
    }
}

fn read_symbol(src: &[char], i: usize) -> (r: Result<(TokenKind, usize), LexErrorKind>)
    requires
        i < src@.len(),
    ensures
        scanned_as(r, scan_symbol(src@, i as int)),
{
    let c = src[i];
    match operator(c) {
        Some(op) => {
            if i + 1 < src.len() && src[i + 1] == '=' {
                Ok((TokenKind::OpAssign(op), i + 2))
            } else {
                Ok((TokenKind::Op(op), i + 1))
            }
        },
        None => {
            if c == '=' {
                Ok((TokenKind::Assign, i + 1))
            } else if c == '(' {
                Ok((TokenKind::ParenOpen, i + 1))
            } else if c == ')' {
                Ok((TokenKind::ParenClose, i + 1))
            } else if c == '{' {
                Ok((TokenKind::BraceOpen, i + 1))
            } else if c == '}' {
                Ok((TokenKind::BraceClose, i + 1))
            } else if c == ',' {
                Ok((TokenKind::Comma, i + 1))
            } else if c == ':' {
                Ok((TokenKind::Colon, i + 1))
            } else {
                Err(LexErrorKind::UnexpectedChar(c))
            }
        },
    }
}

fn read_text(src: &[char], i: usize) -> (r: Result<(TokenKind, usize), LexErrorKind>)
    requires
        i < src@.len(),
        src@[i as int] == '"',
    ensures
        scanned_as(r, scan_text(src@, i as int)),
{
    let len = src.len();
    let close = scan_run(src, i + 1, CharClass::TextBody);
    if close < len && src[close] == '"' {
        Ok((TokenKind::Text(collect(src, i + 1, close)), close + 1))
    } else {
        Err(LexErrorKind::UnterminatedText)
    }
}

/// The number literal `src[from..to]`.
fn read_number(src: &[char], from: usize, to: usize) -> (r: Number)
    requires
        from <= to <= src@.len(),
        is_number(src@.subrange(from as int, to as int)),
    ensures
        r@ == src@.subrange(from as int, to as int),
{
    let text = collect(src, from, to);
    match Number::new(text.as_str()) {
        Some(n) => n,
        None => unreached(),
    }
}

/// Whether `src[from..to]` is all digits.
fn digits_only(src: &[char], from: usize, to: usize) -> (r: bool)
    requires
        from <= to <= src@.len(),
    ensures
        r == all_digits(src@.subrange(from as int, to as int)),
{
    let digits = scan_run(src, from, CharClass::Digit);
    proof {
        lemma_run_end(src@, from as int, CharClass::Digit);
        let part = src@.subrange(from as int, to as int);
        if digits >= to {
            assert forall|k: int| 0 <= k < part.len() implies is_digit(#[trigger] part[k]) by {
                assert(part[k] == src@[from + k]);
            }
        } else {
            assert(part[digits - from] == src@[digits as int]);
        }
    }
    digits >= to
}

fn read_fraction(src: &[char], i: usize, j: usize) -> (r: Result<(TokenKind, usize), LexErrorKind>)
    requires
        i < j <= src@.len(),
        all_digits(src@.subrange(i as int, j as int)),
    ensures
        scanned_as(r, scan_fraction(src@, i as int, j as int)),
{
    if j < src.len() && j + 1 < src.len() && src[j] == '.' && digit(src[j + 1]) {
        let end = scan_run(src, j + 1, CharClass::Name);
        if digits_only(src, j + 1, end) {
            proof {
                lemma_run_end(src@, j + 2, CharClass::Name);
                let s = src@.subrange(i as int, end as int);
                let p = j - i;
                assert(0 < p < s.len() - 1);
                assert(s[p] == '.');
                assert(s.subrange(0, p) == src@.subrange(i as int, j as int));
                assert(s.subrange(p + 1, s.len() as int) == src@.subrange(j + 1, end as int));
                assert(all_digits(s.subrange(0, p)));
                assert(all_digits(s.subrange(p + 1, s.len() as int)));
            }
            Ok((TokenKind::Number(read_number(src, i, end)), end))
        } else {
            Ok((TokenKind::Malformed(collect(src, i, end)), end))
        }
    } else {
        Ok((TokenKind::Number(read_number(src, i, j)), j))
    }
}

fn read_word(src: &[char], i: usize, rules: NameRules) -> (r: Result<(TokenKind, usize), LexErrorKind>)
    requires
        i < src@.len(),
        is_name_char(src@[i as int]),
    ensures
        scanned_as(r, scan_word(rules, src@, i as int)),
{
    let end = scan_run(src, i, CharClass::Name);
    if spells(src, i, end, "struct") {
        return Ok((TokenKind::Struct, end));
    }
    if spells(src, i, end, "local") {
        return Ok((TokenKind::Keyword(Keyword::Local), end));
    }
    if spells(src, i, end, "mut") {
        return Ok((TokenKind::Keyword(Keyword::Mut), end));
    }
    let word = collect(src, i, end);
    match Identifier::with_rules(word.as_str(), rules) {
        Some(name) => Ok((TokenKind::Iden(name), end)),
        None => {
            if digits_only(src, i, end) {
                proof {
                    lemma_run_end(src@, i as int, CharClass::Name);
                }
                read_fraction(src, i, end)
            } else {
                Ok((TokenKind::Malformed(word), end))
            }
        },
    }
}

/// Reads what stands at `i`: a token and the index behind it, or a fault.
fn read_token(src: &[char], i: usize, rules: NameRules) -> (r: Result<(TokenKind, usize), LexErrorKind>)
    requires
        i < src@.len(),
    ensures
        scanned_as(r, scan(rules, src@, i as int)),
{
    let c = src[i];
    if name_char(c) {
        read_word(src, i, rules)
    } else if c == '"' {
        read_text(src, i)
    } else {
        read_symbol(src, i)
    }
}

/// The tokens of `src`, each with the position of its first character, or
/// the first fault of `src`. Nothing is returned for the part before a
/// fault. The tokens are all that `src` holds besides white space, and
/// each of them is valid under `rules`.
pub fn lex(src: &[char], rules: NameRules) -> (r: Result<Vec<Token>, LexError>)
    ensures
        match lex_spec(rules, src@) {
            Ok(tokens) => r matches Ok(v) && token_views(v@) == tokens,
            Err(e) => r == Err::<Vec<Token>, LexError>(e),
        },
        r matches Ok(v) ==> tiles(src@, 0, token_views(v@)) && forall|k: int|
            0 <= k < v@.len() ==> token_valid(rules, (#[trigger] token_views(v@)[k]).kind),
{
    proof {
        lemma_lex_tiles(rules, src@, 0);
        lemma_lex_valid(rules, src@, 0);
    }
    let mut tokens: Vec<Token> = Vec::new();
    let mut i: usize = 0;
    // The line feeds before `i`, and the index at which the line of `i` starts.
    let mut lines: usize = 0;
    let mut start: usize = 0;
    while i < src.len()
        invariant
            i <= src@.len(),
            lines == newlines_before(src@, i as int),
            start == line_start(src@, i as int),
            lex_spec(rules, src@) == prepend(token_views(tokens@), lex_from(rules, src@, i as int)),
        decreases src@.len() - i,
    {
        let c = src[i];
        proof {
            lemma_position_bounds(src@, i as int);
        }
        if space(c) {
            if c == '\n' {
                lines = lines + 1;
                start = i + 1;
            }
            i = i + 1;
        } else {
            let pos = Position { line: lines + 1, col: i - start + 1 };
            proof {
                lemma_scan(rules, src@, i as int);
            }
            match read_token(src, i, rules) {
                Ok((kind, end)) => {
                    proof {
                        lemma_same_line(src@, i as int, end as int);
                        let head = token_views(tokens@);
                        let token = TokenView { kind: kind@, pos };
                        assert(pos == position_at(src@, i as int));
                        assert(token_views(tokens@.push(Token { kind, pos })) == head.push(token));
                        let rest = lex_from(rules, src@, end as int);
                        if let Ok(more) = rest {
                            assert(head + (seq![token] + more) == head.push(token) + more);
                        }
                    }
                    tokens.push(Token { kind, pos });
                    i = end;
                },
                Err(kind) => {
                    return Err(LexError { kind, pos });
                },
            }
        }
    }
    proof {
        assert(token_views(tokens@) + Seq::<TokenView>::empty() == token_views(tokens@));
    }
    Ok(tokens)
}

} // verus!

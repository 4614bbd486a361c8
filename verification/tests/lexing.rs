use steel_parser::ast::{Identifier, Keyword, NameRules, Number, OpCode};
use steel_parser::parser::lexer::{lex, operator, LexError, LexErrorKind, Token, TokenKind};
use steel_parser::text::{chars_of, digit, letter, name_char, space, Position};

fn tokens(code: &str) -> Result<Vec<Token>, LexError> {
    let chars: Vec<char> = code.chars().collect();
    lex(&chars, NameRules::standard())
}

fn kinds(code: &str) -> Vec<TokenKind> {
    tokens(code).unwrap().into_iter().map(|t| t.kind).collect()
}

fn iden(name: &str) -> TokenKind {
    TokenKind::Iden(Identifier::new(name).unwrap())
}

fn num(text: &str) -> TokenKind {
    TokenKind::Number(Number::new(text).unwrap())
}

fn at(line: usize, col: usize) -> Position {
    Position { line, col }
}

#[test]
fn empty_and_blank_texts_have_no_tokens() {
    assert_eq!(tokens(""), Ok(vec![]));
    assert_eq!(tokens(" \t\r\n  \n"), Ok(vec![]));
}

#[test]
fn words() {
    assert_eq!(
        kinds("x local mut struct _y locals Mut structs"),
        vec![
            iden("x"),
            TokenKind::Keyword(Keyword::Local),
            TokenKind::Keyword(Keyword::Mut),
            TokenKind::Struct,
            iden("_y"),
            iden("locals"),
            iden("Mut"),
            iden("structs"),
        ]
    );
}

#[test]
fn numbers() {
    assert_eq!(kinds("1 23 4.5 0.25 007"), vec![num("1"), num("23"), num("4.5"), num("0.25"), num("007")]);
}

#[test]
fn operators_and_punctuation() {
    assert_eq!(
        kinds("+ - * / = += -= *= /= ( ) { } , :"),
        vec![
            TokenKind::Op(OpCode::Add),
            TokenKind::Op(OpCode::Sub),
            TokenKind::Op(OpCode::Mul),
            TokenKind::Op(OpCode::Div),
            TokenKind::Assign,
            TokenKind::OpAssign(OpCode::Add),
            TokenKind::OpAssign(OpCode::Sub),
            TokenKind::OpAssign(OpCode::Mul),
            TokenKind::OpAssign(OpCode::Div),
            TokenKind::ParenOpen,
            TokenKind::ParenClose,
            TokenKind::BraceOpen,
            TokenKind::BraceClose,
            TokenKind::Comma,
            TokenKind::Colon,
        ]
    );
}

#[test]
fn tokens_need_no_space_between_them() {
    assert_eq!(
        kinds("a+=b*(c-1)"),
        vec![
            iden("a"),
            TokenKind::OpAssign(OpCode::Add),
            iden("b"),
            TokenKind::Op(OpCode::Mul),
            TokenKind::ParenOpen,
            iden("c"),
            TokenKind::Op(OpCode::Sub),
            num("1"),
            TokenKind::ParenClose,
        ]
    );
    assert_eq!(kinds("+ ="), vec![TokenKind::Op(OpCode::Add), TokenKind::Assign]);
    assert_eq!(kinds("=="), vec![TokenKind::Assign, TokenKind::Assign]);
}

#[test]
fn text_literals() {
    assert_eq!(
        kinds("\"\" \"abc\" \"a b + 1\" \"é#\""),
        vec![
            TokenKind::Text(String::new()),
            TokenKind::Text("abc".to_string()),
            TokenKind::Text("a b + 1".to_string()),
            TokenKind::Text("é#".to_string()),
        ]
    );
}

#[test]
fn positions_count_lines_and_columns_from_one() {
    let toks = tokens("x = 1\n  yy\t+ \"t\"\r\n\n z").unwrap();
    let places: Vec<Position> = toks.iter().map(|t| t.pos).collect();
    assert_eq!(places, vec![at(1, 1), at(1, 3), at(1, 5), at(2, 3), at(2, 6), at(2, 8), at(4, 2)]);
}

#[test]
fn columns_count_characters() {
    let toks = tokens("\"éé\" x").unwrap();
    assert_eq!(toks[1].pos, at(1, 6));
}

#[test]
fn unexpected_character() {
    assert_eq!(tokens("x = 1 # y"), Err(LexError { kind: LexErrorKind::UnexpectedChar('#'), pos: at(1, 7) }));
    assert_eq!(tokens("é"), Err(LexError { kind: LexErrorKind::UnexpectedChar('é'), pos: at(1, 1) }));
    assert_eq!(tokens("a.b"), Err(LexError { kind: LexErrorKind::UnexpectedChar('.'), pos: at(1, 2) }));
    assert_eq!(tokens("a;"), Err(LexError { kind: LexErrorKind::UnexpectedChar(';'), pos: at(1, 2) }));
}

#[test]
fn the_first_fault_is_reported() {
    assert_eq!(tokens("a\n b ? c\n ! \"x"), Err(LexError { kind: LexErrorKind::UnexpectedChar('?'), pos: at(2, 4) }));
}

#[test]
fn unterminated_text() {
    assert_eq!(tokens("x = \"abc"), Err(LexError { kind: LexErrorKind::UnterminatedText, pos: at(1, 5) }));
    assert_eq!(tokens("\n \"abc\ndef\""), Err(LexError { kind: LexErrorKind::UnterminatedText, pos: at(2, 2) }));
    assert_eq!(tokens("\""), Err(LexError { kind: LexErrorKind::UnterminatedText, pos: at(1, 1) }));
}

fn malformed(word: &str) -> TokenKind {
    TokenKind::Malformed(word.to_string())
}

#[test]
fn a_word_that_is_no_name_and_no_number_is_malformed() {
    assert_eq!(kinds("12ab"), vec![malformed("12ab")]);
    assert_eq!(kinds("1_"), vec![malformed("1_")]);
    assert_eq!(kinds("1.5x"), vec![malformed("1.5x")]);
    assert_eq!(kinds("0.1_2 + 3x"), vec![malformed("0.1_2"), TokenKind::Op(OpCode::Add), malformed("3x")]);
    assert_eq!(kinds("x1 1x"), vec![iden("x1"), malformed("1x")]);
    assert_eq!(tokens(" 7up").unwrap()[0].pos, at(1, 2));
}

#[test]
fn a_point_needs_digits_on_both_sides() {
    assert_eq!(tokens("1."), Err(LexError { kind: LexErrorKind::UnexpectedChar('.'), pos: at(1, 2) }));
    assert_eq!(tokens("1.x"), Err(LexError { kind: LexErrorKind::UnexpectedChar('.'), pos: at(1, 2) }));
    assert_eq!(tokens("1._"), Err(LexError { kind: LexErrorKind::UnexpectedChar('.'), pos: at(1, 2) }));
    assert_eq!(tokens("x.1"), Err(LexError { kind: LexErrorKind::UnexpectedChar('.'), pos: at(1, 2) }));
    assert_eq!(tokens(".5"), Err(LexError { kind: LexErrorKind::UnexpectedChar('.'), pos: at(1, 1) }));
    assert_eq!(tokens("1.2.3"), Err(LexError { kind: LexErrorKind::UnexpectedChar('.'), pos: at(1, 4) }));
}

#[test]
fn strict_rules_refuse_a_leading_underscore() {
    let chars: Vec<char> = "a _b _".chars().collect();
    let strict = NameRules { leading_underscore: false };
    let strictly: Vec<TokenKind> = lex(&chars, strict).unwrap().into_iter().map(|t| t.kind).collect();
    assert_eq!(strictly, vec![iden("a"), malformed("_b"), malformed("_")]);
    assert_eq!(kinds("a _b _"), vec![iden("a"), iden("_b"), iden("_")]);
    let ok: Vec<char> = "a b_ c_d".chars().collect();
    assert_eq!(lex(&ok, strict), lex(&ok, NameRules::standard()));
}

#[test]
fn characters_of_a_text() {
    let chars: Vec<char> = "héllo world".chars().collect();
    assert_eq!(chars_of("héllo world"), chars);
    assert_eq!(chars_of(""), Vec::<char>::new());
    assert_eq!(chars_of("a\n\"").len(), 3);
}

#[test]
fn classes_of_characters() {
    for c in ['a', 'z', 'A', 'Z', 'm'] {
        assert!(letter(c) && name_char(c) && !digit(c) && !space(c), "{}", c);
    }
    for c in ['0', '5', '9'] {
        assert!(digit(c) && name_char(c) && !letter(c) && !space(c), "{}", c);
    }
    assert!(name_char('_') && !letter('_') && !digit('_'));
    for c in [' ', '\t', '\r', '\n'] {
        assert!(space(c) && !name_char(c), "{:?}", c);
    }
    for c in ['é', '-', '.', '"', '٣', '@', '[', '`', '{', '/', ':'] {
        assert!(!letter(c) && !digit(c) && !name_char(c) && !space(c), "{}", c);
    }
    assert_eq!(operator('+'), Some(OpCode::Add));
    assert_eq!(operator('-'), Some(OpCode::Sub));
    assert_eq!(operator('*'), Some(OpCode::Mul));
    assert_eq!(operator('/'), Some(OpCode::Div));
    assert_eq!(operator('='), None);
    assert_eq!(operator('x'), None);
}

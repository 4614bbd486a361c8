use std::path::PathBuf;
use steel_parser::ast::{
    Assignment, AssignmentKw, Ast, Block, Expr, Identifier, NameRules, Number, OpCode, Type,
};
use steel_parser::parser::errors::{build_error, report, Failure, ParseError};
use steel_parser::parser::grammar::{parse_block, parse_expr, parse_tokens, Expected, SyntaxError};
use steel_parser::parser::lexer::{lex, LexError, LexErrorKind, Token, TokenKind};
use steel_parser::parser::{parse_str, parse_str_with};
use steel_parser::text::Position;

fn parse(code: &str) -> Result<Ast, ParseError> {
    parse_str(PathBuf::from("main.steel"), code)
}

fn blocks(code: &str) -> Vec<Block> {
    parse(code).unwrap().blocks
}

fn toks(code: &str) -> Vec<Token> {
    let chars: Vec<char> = code.chars().collect();
    lex(&chars, NameRules::standard()).unwrap()
}

fn syntax_error(code: &str) -> SyntaxError {
    parse_tokens(&toks(code)).unwrap_err()
}

fn failure(code: &str) -> (usize, String) {
    match parse(code) {
        Err(ParseError::ParseErr { file, line, msg }) => {
            assert_eq!(file, PathBuf::from("main.steel"));
            (line, msg)
        }
        Ok(ast) => panic!("parsed: {:?}", ast),
    }
}

fn id(name: &str) -> Identifier {
    Identifier::new(name).unwrap()
}

fn num(text: &str) -> Expr {
    Expr::Num(Number::new(text).unwrap())
}

fn var(name: &str) -> Expr {
    Expr::Iden(id(name))
}

fn bin(op: OpCode, l: Expr, r: Expr) -> Expr {
    Expr::BinOp(op, Box::new(l), Box::new(r))
}

fn assign(kw: AssignmentKw, target: &str, typ: Option<&str>, op: Option<OpCode>, value: Expr) -> Expr {
    Expr::Assign(Assignment {
        kw,
        target: id(target),
        typ: typ.map(|t| Type::new(id(t))),
        op,
        value: Box::new(value),
    })
}

fn expression(e: Expr) -> Block {
    Block::Expression(e)
}

fn structure(name: &str, fields: &[(&str, &str)]) -> Block {
    Block::Struct {
        iden: id(name),
        fields: fields.iter().map(|(n, t)| (id(n), Type::new(id(t)))).collect(),
    }
}

#[test]
fn an_empty_text_is_an_empty_program() {
    assert_eq!(blocks(""), vec![]);
    assert_eq!(blocks("  \n\t "), vec![]);
}

#[test]
fn multiplication_binds_tighter_than_addition() {
    assert_eq!(
        blocks("2 + 3 * 4"),
        vec![expression(bin(OpCode::Add, num("2"), bin(OpCode::Mul, num("3"), num("4"))))]
    );
    assert_eq!(
        blocks("2 * 3 + 4"),
        vec![expression(bin(OpCode::Add, bin(OpCode::Mul, num("2"), num("3")), num("4")))]
    );
    assert_eq!(
        blocks("8 - 6 / 2"),
        vec![expression(bin(OpCode::Sub, num("8"), bin(OpCode::Div, num("6"), num("2"))))]
    );
}

#[test]
fn parentheses_reset_precedence() {
    assert_eq!(
        blocks("(2 + 3) * 4"),
        vec![expression(bin(OpCode::Mul, bin(OpCode::Add, num("2"), num("3")), num("4")))]
    );
    assert_eq!(blocks("((7))"), vec![expression(num("7"))]);
    assert_eq!(
        blocks("2 * (3 + (4 - x))"),
        vec![expression(bin(
            OpCode::Mul,
            num("2"),
            bin(OpCode::Add, num("3"), bin(OpCode::Sub, num("4"), var("x")))
        ))]
    );
}

#[test]
fn operators_associate_to_the_left() {
    assert_eq!(
        blocks("1 - 2 - 3"),
        vec![expression(bin(OpCode::Sub, bin(OpCode::Sub, num("1"), num("2")), num("3")))]
    );
    assert_eq!(
        blocks("8 / 4 / 2 * 3"),
        vec![expression(bin(
            OpCode::Mul,
            bin(OpCode::Div, bin(OpCode::Div, num("8"), num("4")), num("2")),
            num("3")
        ))]
    );
    assert_eq!(
        blocks("1 + 2 - 3 + 4"),
        vec![expression(bin(
            OpCode::Add,
            bin(OpCode::Sub, bin(OpCode::Add, num("1"), num("2")), num("3")),
            num("4")
        ))]
    );
}

#[test]
fn primaries() {
    assert_eq!(blocks("1.5"), vec![expression(num("1.5"))]);
    assert_eq!(blocks("\"hi there\""), vec![expression(Expr::Text("hi there".to_string()))]);
    assert_eq!(blocks("name"), vec![expression(var("name"))]);
}

#[test]
fn plain_assignment() {
    assert_eq!(blocks("x = 1"), vec![expression(assign(AssignmentKw::Inferred, "x", None, None, num("1")))]);
}

#[test]
fn mutable_assignment() {
    assert_eq!(blocks("mut x = 1"), vec![expression(assign(AssignmentKw::Mut, "x", None, None, num("1")))]);
}

#[test]
fn local_typed_assignment() {
    assert_eq!(
        blocks("local x: Int = 1"),
        vec![expression(assign(AssignmentKw::Local, "x", Some("Int"), None, num("1")))]
    );
}

#[test]
fn compound_assignment() {
    assert_eq!(
        blocks("x += 1"),
        vec![expression(assign(AssignmentKw::Inferred, "x", None, Some(OpCode::Add), num("1")))]
    );
    assert_eq!(
        blocks("mut total: Float /= n * 2"),
        vec![expression(assign(
            AssignmentKw::Mut,
            "total",
            Some("Float"),
            Some(OpCode::Div),
            bin(OpCode::Mul, var("n"), num("2"))
        ))]
    );
    assert_eq!(
        blocks("x -= 1 y *= 2"),
        vec![
            expression(assign(AssignmentKw::Inferred, "x", None, Some(OpCode::Sub), num("1"))),
            expression(assign(AssignmentKw::Inferred, "y", None, Some(OpCode::Mul), num("2"))),
        ]
    );
}

#[test]
fn the_value_of_an_assignment_is_an_expression() {
    assert_eq!(
        blocks("x = y = 1 + 2"),
        vec![expression(assign(
            AssignmentKw::Inferred,
            "x",
            None,
            None,
            assign(AssignmentKw::Inferred, "y", None, None, bin(OpCode::Add, num("1"), num("2")))
        ))]
    );
    assert_eq!(
        blocks("2 * (x = 3)"),
        vec![expression(bin(OpCode::Mul, num("2"), assign(AssignmentKw::Inferred, "x", None, None, num("3"))))]
    );
}

#[test]
fn struct_with_fields_in_order() {
    assert_eq!(
        blocks("struct Point { x: Int, y: Int }"),
        vec![structure("Point", &[("x", "Int"), ("y", "Int")])]
    );
    assert_eq!(
        blocks("struct P { b: B, a: A, c: C }"),
        vec![structure("P", &[("b", "B"), ("a", "A"), ("c", "C")])]
    );
}

#[test]
fn struct_fields_on_lines_of_their_own() {
    assert_eq!(
        blocks("struct Point {\n  x: Int\n  y: Int\n}"),
        vec![structure("Point", &[("x", "Int"), ("y", "Int")])]
    );
    assert_eq!(
        blocks("struct Point {\n  x: Int,\n  y: Int,\n}"),
        vec![structure("Point", &[("x", "Int"), ("y", "Int")])]
    );
    assert_eq!(
        blocks("struct Point { x: Int\n y: Int, z: Int }"),
        vec![structure("Point", &[("x", "Int"), ("y", "Int"), ("z", "Int")])]
    );
}

#[test]
fn struct_with_a_trailing_comma_or_no_fields() {
    assert_eq!(blocks("struct Point { x: Int, }"), vec![structure("Point", &[("x", "Int")])]);
    assert_eq!(blocks("struct Unit {}"), vec![structure("Unit", &[])]);
    assert_eq!(blocks("struct Unit {\n}"), vec![structure("Unit", &[])]);
}

#[test]
fn struct_fields_on_one_line_need_a_comma() {
    let e = syntax_error("struct Point { x: Int y: Int }");
    assert_eq!(e.expected, Expected::Separator);
    assert_eq!(e.found, Some(TokenKind::Iden(id("y"))));
    assert_eq!(e.pos, Position { line: 1, col: 23 });
    assert_eq!(syntax_error("struct P { x: Int,, y: Int }").expected, Expected::Field);
    assert_eq!(syntax_error("struct P { , }").expected, Expected::Field);
    assert_eq!(
        blocks("struct P { x: Int\n, y: Int }"),
        vec![structure("P", &[("x", "Int"), ("y", "Int")])]
    );
}

#[test]
fn blocks_follow_each_other() {
    assert_eq!(
        blocks("struct A { }\nx = 1\ny\nstruct B { f: T }\n(1)"),
        vec![
            structure("A", &[]),
            expression(assign(AssignmentKw::Inferred, "x", None, None, num("1"))),
            expression(var("y")),
            structure("B", &[("f", "T")]),
            expression(num("1")),
        ]
    );
    assert_eq!(blocks("1 2 a"), vec![expression(num("1")), expression(num("2")), expression(var("a"))]);
}

#[test]
fn every_expected_construct_has_its_error() {
    assert_eq!(syntax_error(")").expected, Expected::Expression);
    assert_eq!(syntax_error("1 +").expected, Expected::Expression);
    assert_eq!(syntax_error("+= 1").expected, Expected::Expression);
    assert_eq!(syntax_error("local = 1").expected, Expected::Name);
    assert_eq!(syntax_error("struct { }").expected, Expected::Name);
    assert_eq!(syntax_error("x: = 1").expected, Expected::TypeName);
    assert_eq!(syntax_error("struct P { x: 1 }").expected, Expected::TypeName);
    assert_eq!(syntax_error("mut x 1").expected, Expected::Assign);
    assert_eq!(syntax_error("x: Int").expected, Expected::Assign);
    assert_eq!(syntax_error("struct P { x Int }").expected, Expected::Colon);
    assert_eq!(syntax_error("struct P x").expected, Expected::BraceOpen);
    assert_eq!(syntax_error("(1 + 2").expected, Expected::ParenClose);
    assert_eq!(syntax_error("(1 2)").expected, Expected::ParenClose);
    assert_eq!(syntax_error("struct P { x: Int").expected, Expected::Separator);
    assert_eq!(syntax_error("struct P {").expected, Expected::Field);
    assert_eq!(syntax_error("struct P { 1 }").expected, Expected::Field);
}

#[test]
fn an_error_names_the_token_and_its_position() {
    let e = syntax_error("x = 1\ny = * 2");
    assert_eq!(
        e,
        SyntaxError {
            expected: Expected::Expression,
            found: Some(TokenKind::Op(OpCode::Mul)),
            pos: Position { line: 2, col: 5 },
        }
    );
}

#[test]
fn at_the_end_the_last_token_gives_the_position() {
    let e = syntax_error("x = 1\n  y =\n\n");
    assert_eq!(
        e,
        SyntaxError { expected: Expected::Expression, found: None, pos: Position { line: 2, col: 5 } }
    );
    assert_eq!(failure("x = 1\n  y =\n\n").0, 2);
}

#[test]
fn the_error_line_is_the_line_of_the_invalid_character() {
    assert_eq!(failure("x = 1\ny = 2\nz = 3 $ 4\nw = 5").0, 3);
    assert_eq!(failure("@").0, 1);
    assert_eq!(failure("\n\n\n\n  ~").0, 5);
    assert_eq!(failure("a\r\nb\r\n?").0, 3);
    assert_eq!(failure("\"one\"\n\"two\n\"three\"").0, 2);
}

#[test]
fn a_lexical_error_comes_before_a_syntax_error() {
    let (line, msg) = failure("x = = 1\n?");
    assert_eq!(line, 2);
    assert_eq!(msg, "expected a token, found the character '?'");
}

#[test]
fn messages_name_what_was_expected_and_what_was_found() {
    assert_eq!(failure("x = )"), (1, "expected an expression, found ')'".to_string()));
    assert_eq!(failure("\n(1"), (2, "expected ')', found the end of the input".to_string()));
    assert_eq!(failure("(1 x"), (1, "expected ')', found the name x".to_string()));
    assert_eq!(failure("local 5"), (1, "expected a name, found the number 5".to_string()));
    assert_eq!(failure("x: \"t\""), (1, "expected a type name, found the text \"t\"".to_string()));
    assert_eq!(failure("x: T +"), (1, "expected an assignment sign, found '+'".to_string()));
    assert_eq!(failure("struct P { x = }"), (1, "expected ':', found '='".to_string()));
    assert_eq!(failure("struct P local"), (1, "expected '{', found the keyword local".to_string()));
    assert_eq!(failure("struct P { mut }"), (1, "expected a field or '}', found the keyword mut".to_string()));
    assert_eq!(
        failure("struct P { x: T struct }"),
        (1, "expected ',', '}' or a line break, found the keyword struct".to_string())
    );
    assert_eq!(failure("1 * -= 2"), (1, "expected an expression, found '-='".to_string()));
    assert_eq!(failure("1 * /"), (1, "expected an expression, found '/'".to_string()));
    assert_eq!(failure("1 * *= 2"), (1, "expected an expression, found '*='".to_string()));
    assert_eq!(failure("( ,"), (1, "expected an expression, found ','".to_string()));
    assert_eq!(failure("( :"), (1, "expected an expression, found ':'".to_string()));
    assert_eq!(failure("( {"), (1, "expected an expression, found '{'".to_string()));
    assert_eq!(failure("( }"), (1, "expected an expression, found '}'".to_string()));
    assert_eq!(failure("local ("), (1, "expected a name, found '('".to_string()));
    assert_eq!(failure("x = 1.25 \"a"), (1, "expected a closing quote, found the end of the line".to_string()));
}

#[test]
fn a_malformed_word_is_a_syntax_error() {
    assert_eq!(failure("x = 1abc"), (1, "expected an expression, found the malformed word 1abc".to_string()));
    assert_eq!(failure("x = 1\n2.5e3"), (2, "expected an expression, found the malformed word 2.5e3".to_string()));
    assert_eq!(failure("local 9lives = 1"), (1, "expected a name, found the malformed word 9lives".to_string()));
    assert_eq!(
        syntax_error("struct P { x: 3d }"),
        SyntaxError {
            expected: Expected::TypeName,
            found: Some(TokenKind::Malformed("3d".to_string())),
            pos: Position { line: 1, col: 15 },
        }
    );
    assert_eq!(failure("1abc $"), (1, "expected a token, found the character '$'".to_string()));
}

#[test]
fn reporting_a_failure() {
    let lexical = Failure::Lex(LexError {
        kind: LexErrorKind::UnexpectedChar('%'),
        pos: Position { line: 7, col: 3 },
    });
    assert_eq!(build_error(&lexical), ("expected a token, found the character '%'".to_string(), 7));
    let syntax = Failure::Syntax(SyntaxError {
        expected: Expected::ParenClose,
        found: Some(TokenKind::OpAssign(OpCode::Add)),
        pos: Position { line: 12, col: 1 },
    });
    assert_eq!(build_error(&syntax), ("expected ')', found '+='".to_string(), 12));
    assert_eq!(
        report(PathBuf::from("dir/a.steel"), &syntax),
        ParseError::ParseErr {
            file: PathBuf::from("dir/a.steel"),
            line: 12,
            msg: "expected ')', found '+='".to_string(),
        }
    );
}

#[test]
fn parsing_twice_gives_equal_trees() {
    let code = "struct P { x: Int\n y: Int }\nlocal p: P = (1 + 2) * 3 - \"t\"\np += 4 / q";
    let first = parse(code).unwrap();
    let second = parse(code).unwrap();
    assert_eq!(first, second);
    assert_eq!(first.blocks.len(), 3);
    let bad = "x = (1 +\n* 2)";
    assert_eq!(parse(bad), parse(bad));
    assert!(parse(bad).is_err());
}

#[test]
fn an_invalid_end_fails_the_whole_text() {
    assert!(parse("x = 1").is_ok());
    assert!(parse("x = 1 )").is_err());
    assert!(parse("x = 1 y = 2 z =").is_err());
    assert!(parse("x = 1\nstruct P { a: A }\n+").is_err());
    assert!(parse("x = 1\nstruct P { a: A }\n$").is_err());
    assert!(parse("struct P { a: A } }").is_err());
    assert_eq!(failure("x = 1\ny = 2\n)"), (3, "expected an expression, found ')'".to_string()));
}

#[test]
fn the_naming_rules_reach_the_parser() {
    let strict = NameRules { leading_underscore: false };
    let path = PathBuf::from("m.steel");
    assert!(parse_str_with(path.clone(), "_x = 1", NameRules::standard()).is_ok());
    assert_eq!(
        parse_str_with(path.clone(), "y = 2\n_x = 1", strict),
        Err(ParseError::ParseErr {
            file: path.clone(),
            line: 2,
            msg: "expected an expression, found the malformed word _x".to_string(),
        })
    );
    assert!(parse_str_with(path, "x_ = 1", strict).is_ok());
}

#[test]
fn expressions_and_blocks_from_the_middle_of_the_tokens() {
    let tokens = toks("a + b * c struct S { } d");
    assert_eq!(
        parse_expr(&tokens, 0),
        Ok((bin(OpCode::Add, var("a"), bin(OpCode::Mul, var("b"), var("c"))), 5))
    );
    assert_eq!(parse_expr(&tokens, 2), Ok((bin(OpCode::Mul, var("b"), var("c")), 5)));
    assert_eq!(parse_block(&tokens, 5), Ok((structure("S", &[]), 9)));
    assert_eq!(parse_block(&tokens, 9), Ok((expression(var("d")), 10)));
    assert_eq!(
        parse_expr(&tokens, 10),
        Err(SyntaxError { expected: Expected::Expression, found: None, pos: Position { line: 1, col: 24 } })
    );
    assert_eq!(
        parse_expr(&tokens, 99),
        Err(SyntaxError { expected: Expected::Expression, found: None, pos: Position { line: 1, col: 24 } })
    );
    assert_eq!(
        parse_expr(&[], 0),
        Err(SyntaxError { expected: Expected::Expression, found: None, pos: Position { line: 1, col: 1 } })
    );
}

#[test]
fn copies_of_trees_are_equal() {
    let ast = parse("x: T = (a + 1) * \"s\"").unwrap();
    assert_eq!(ast.clone(), ast);
    match &ast.blocks[0] {
        Block::Expression(e) => assert_eq!(&steel_parser::ast::copy_expr(e), e),
        other => panic!("{:?}", other),
    }
}

//! The grammar: from tokens to the syntax tree, by recursive descent.
//!
//! ```text
//! program    = block*
//! block      = "struct" NAME "{" fields "}" | expr
//! fields     = ( NAME ":" NAME separator )*
//! expr       = assignment | sum
//! assignment = ( "local" | "mut" )? NAME ( ":" NAME )? ( "=" | OP"=" ) expr
//! sum        = term ( ( "+" | "-" ) term )*
//! term       = primary ( ( "*" | "/" ) primary )*
//! primary    = NUMBER | TEXT | NAME | "(" expr ")"
//! ```
//!
//! An expression is an assignment where it starts with a keyword, or with
//! a name that `:`, `=` or a compound assignment sign follows. Operators of
//! one level associate to the left.
//!
//! The fields of a struct are separated by a comma or by a line break: a
//! field may follow another without a comma only where it starts on a later
//! line than the other's type. A comma may follow the last field. The
//! closing brace may stand anywhere.

use vstd::prelude::*;
use crate::ast::{
    field_view, type_view, Assignment, AssignmentKw, AssignmentView, Ast, Block, BlockView, Expr,
    ExprView, Identifier, Keyword, OpCode, Type,
};
use crate::parser::derivation::{
    derives_block, derives_expr, derives_program, lemma_block_complete, lemma_block_sound,
    lemma_expr_complete, lemma_expr_sound, lemma_program_is_grammar, no_operator,
};
use crate::parser::lexer::{token_views, Token, TokenKind, TokenKindView, TokenView};
use crate::text::Position;

verus! {

/// What the grammar asks for at some place.
#[derive(Debug, Clone, Copy, PartialEq, Eq, Structural)]
pub enum Expected {
    /// A number, a text, a name or an opening parenthesis.
    Expression,
    /// The name that an assignment or a struct declares.
    Name,
    /// The name of a type, behind a colon.
    TypeName,
    /// `=` or a compound assignment sign.
    Assign,
    /// The colon between a field and its type.
    Colon,
    /// The brace that opens the fields of a struct.
    BraceOpen,
    /// The parenthesis that closes a parenthesized expression.
    ParenClose,
    /// The name of a field, or the closing brace.
    Field,
    /// What ends a field: a comma, a line break or the closing brace.
    Separator,
}

/// A token where the grammar has no place for it.
#[derive(Debug, PartialEq, Eq)]
pub struct SyntaxError {
    pub expected: Expected,
    /// The token that stands there; `None` at the end of the input.
    pub found: Option<TokenKind>,
    /// The position of that token; at the end of the input, that of the
    /// last token.
    pub pos: Position,
}

/// What a `SyntaxError` holds.
pub struct SyntaxErrorView {
    pub expected: Expected,
    pub found: Option<TokenKindView>,
    pub pos: Position,
}

impl View for SyntaxError {
    type V = SyntaxErrorView;

    open spec fn view(&self) -> SyntaxErrorView {
        SyntaxErrorView {
            expected: self.expected,
            found: match self.found {
                Some(kind) => Some(kind@),
                None => None,
            },
            pos: self.pos,
        }
    }
}

/// The kind of the token at `i`, if there is one.
pub open spec fn kind_at(t: Seq<TokenView>, i: int) -> Option<TokenKindView> {
    if 0 <= i < t.len() {
        Some(t[i].kind)
    } else {
        None
    }
}

/// The error for index `i`, where something else was expected. Behind the
/// last token it takes the position of the last token, and in an empty
/// input the first position.
pub open spec fn unexpected(t: Seq<TokenView>, i: int, expected: Expected) -> SyntaxErrorView {
    if 0 <= i < t.len() {
        SyntaxErrorView { expected, found: Some(t[i].kind), pos: t[i].pos }
    } else if t.len() > 0 {
        SyntaxErrorView { expected, found: None, pos: t[t.len() - 1].pos }
    } else {
        SyntaxErrorView { expected, found: None, pos: Position { line: 1, col: 1 } }
    }
}

/// `*` and `/`.
pub open spec fn term_operator(kind: Option<TokenKindView>) -> Option<OpCode> {
    match kind {
        Some(TokenKindView::Op(OpCode::Mul)) => Some(OpCode::Mul),
        Some(TokenKindView::Op(OpCode::Div)) => Some(OpCode::Div),
        _ => None,
    }
}

/// `+` and `-`.
pub open spec fn sum_operator(kind: Option<TokenKindView>) -> Option<OpCode> {
    match kind {
        Some(TokenKindView::Op(OpCode::Add)) => Some(OpCode::Add),
        Some(TokenKindView::Op(OpCode::Sub)) => Some(OpCode::Sub),
        _ => None,
    }
}

/// `left`, where there is one, joined with `right` by its operator.
pub open spec fn join(left: Option<(ExprView, OpCode)>, right: ExprView) -> ExprView {
    match left {
        Some((l, op)) => ExprView::BinOp(op, Box::new(l), Box::new(right)),
        None => right,
    }
}

/// Whether the expression at `i` is an assignment.
pub open spec fn starts_assignment(t: Seq<TokenView>, i: int) -> bool {
    match kind_at(t, i) {
        Some(TokenKindView::Keyword(_)) => true,
        Some(TokenKindView::Iden(_)) => match kind_at(t, i + 1) {
            Some(TokenKindView::Colon) => true,
            Some(TokenKindView::Assign) => true,
            Some(TokenKindView::OpAssign(_)) => true,
            _ => false,
        },
        _ => false,
    }
}

/// A number, a text, a name or an expression in parentheses, at `i`: its
/// tree and the index behind it.
pub open spec fn primary(t: Seq<TokenView>, i: int) -> Result<(ExprView, int), SyntaxErrorView>
    decreases t.len() - i, 0int,
{
    match kind_at(t, i) {
        Some(TokenKindView::Number(n)) => Ok((ExprView::Num(n), i + 1)),
        Some(TokenKindView::Text(s)) => Ok((ExprView::Text(s), i + 1)),
        Some(TokenKindView::Iden(x)) => Ok((ExprView::Iden(x), i + 1)),
        Some(TokenKindView::ParenOpen) => match expr(t, i + 1) {
            Ok((inner, j)) => if kind_at(t, j) == Some(TokenKindView::ParenClose) {
                Ok((inner, j + 1))
            } else {
                Err(unexpected(t, j, Expected::ParenClose))
            },
            Err(e) => Err(e),
        },
        _ => Err(unexpected(t, i, Expected::Expression)),
    }
}

/// The rest of a term whose operands so far, joined, are `left`, with the
/// operator that follows them: the next operand stands at `i`. With no
/// `left`, a whole term at `i`.
///
/// The test `j > i` is always met: it only shows that this definition
/// ends. `lemma_term_chain` gives the definition without it.
pub open spec fn term_chain(t: Seq<TokenView>, left: Option<(ExprView, OpCode)>, i: int) -> Result<
    (ExprView, int),
    SyntaxErrorView,
>
    decreases t.len() - i, 1int,
{
    match primary(t, i) {
        Ok((operand, j)) => match term_operator(kind_at(t, j)) {
            Some(op) if j > i => term_chain(t, Some((join(left, operand), op)), j + 1),
            _ => Ok((join(left, operand), j)),
        },
        Err(e) => Err(e),
    }
}

/// As `term_chain`, one level up: the operands are terms and the
/// operators `+` and `-`. `lemma_sum_chain` gives the definition without
/// the test `j > i`.
pub open spec fn sum_chain(t: Seq<TokenView>, left: Option<(ExprView, OpCode)>, i: int) -> Result<
    (ExprView, int),
    SyntaxErrorView,
>
    decreases t.len() - i, 2int,
{
    match term_chain(t, None, i) {
        Ok((operand, j)) => match sum_operator(kind_at(t, j)) {
            Some(op) if j > i => sum_chain(t, Some((join(left, operand), op)), j + 1),
            _ => Ok((join(left, operand), j)),
        },
        Err(e) => Err(e),
    }
}

/// The assignment sign at `i` and the value behind it, for an assignment
/// whose keyword, target and type were read.
pub open spec fn assignment_tail(
    t: Seq<TokenView>,
    kw: AssignmentKw,
    target: Seq<char>,
    typ: Option<Seq<char>>,
    i: int,
) -> Result<(AssignmentView, int), SyntaxErrorView>
    decreases t.len() - i, 3int,
{
    let op = match kind_at(t, i) {
        Some(TokenKindView::Assign) => Some(None),
        Some(TokenKindView::OpAssign(op)) => Some(Some(op)),
        _ => None,
    };
    match op {
        Some(op) => match expr(t, i + 1) {
            Ok((value, j)) => Ok(
                (AssignmentView { kw, target, typ, op, value: Box::new(value) }, j),
            ),
            Err(e) => Err(e),
        },
        None => Err(unexpected(t, i, Expected::Assign)),
    }
}

/// An assignment at `i`.
pub open spec fn assignment(t: Seq<TokenView>, i: int) -> Result<
    (AssignmentView, int),
    SyntaxErrorView,
>
    decreases t.len() - i, 4int,
{
    let (kw, at) = match kind_at(t, i) {
        Some(TokenKindView::Keyword(Keyword::Local)) => (AssignmentKw::Local, i + 1),
        Some(TokenKindView::Keyword(Keyword::Mut)) => (AssignmentKw::Mut, i + 1),
        _ => (AssignmentKw::Inferred, i),
    };
    match kind_at(t, at) {
        Some(TokenKindView::Iden(target)) => match kind_at(t, at + 1) {
            Some(TokenKindView::Colon) => match kind_at(t, at + 2) {
                Some(TokenKindView::Iden(typ)) => assignment_tail(
                    t,
                    kw,
                    target,
                    Some(typ),
                    at + 3,
                ),
                _ => Err(unexpected(t, at + 2, Expected::TypeName)),
            },
            _ => assignment_tail(t, kw, target, None, at + 1),
        },
        _ => Err(unexpected(t, at, Expected::Name)),
    }
}

/// An expression at `i`.
pub open spec fn expr(t: Seq<TokenView>, i: int) -> Result<(ExprView, int), SyntaxErrorView>
    decreases t.len() - i, 5int,
{
    if starts_assignment(t, i) {
        match assignment(t, i) {
            Ok((a, j)) => Ok((ExprView::Assign(a), j)),
            Err(e) => Err(e),
        }
    } else {
        sum_chain(t, None, i)
    }
}

/// The fields of a struct from `i` on, behind the fields `done`, up to and
/// with the closing brace.
pub open spec fn fields(t: Seq<TokenView>, done: Seq<(Seq<char>, Seq<char>)>, i: int) -> Result<
    (Seq<(Seq<char>, Seq<char>)>, int),
    SyntaxErrorView,
>
    decreases t.len() - i,
{
    match kind_at(t, i) {
        Some(TokenKindView::BraceClose) => Ok((done, i + 1)),
        Some(TokenKindView::Iden(name)) => if kind_at(t, i + 1) != Some(TokenKindView::Colon) {
            Err(unexpected(t, i + 1, Expected::Colon))
        } else {
            match kind_at(t, i + 2) {
                Some(TokenKindView::Iden(typ)) => match kind_at(t, i + 3) {
                    Some(TokenKindView::Comma) => fields(t, done.push((name, typ)), i + 4),
                    Some(TokenKindView::BraceClose) => Ok((done.push((name, typ)), i + 4)),
                    Some(_) if t[i + 3].pos.line > t[i + 2].pos.line => fields(
                        t,
                        done.push((name, typ)),
                        i + 3,
                    ),
                    _ => Err(unexpected(t, i + 3, Expected::Separator)),
                },
                _ => Err(unexpected(t, i + 2, Expected::TypeName)),
            }
        },
        _ => Err(unexpected(t, i, Expected::Field)),
    }
}

/// A struct at `i`, where the word `struct` stands.
pub open spec fn struct_block(t: Seq<TokenView>, i: int) -> Result<(BlockView, int), SyntaxErrorView> {
    match kind_at(t, i + 1) {
        Some(TokenKindView::Iden(iden)) => if kind_at(t, i + 2) != Some(TokenKindView::BraceOpen) {
            Err(unexpected(t, i + 2, Expected::BraceOpen))
        } else {
            match fields(t, Seq::empty(), i + 3) {
                Ok((fields, j)) => Ok((BlockView::Struct { iden, fields }, j)),
                Err(e) => Err(e),
            }
        },
        _ => Err(unexpected(t, i + 1, Expected::Name)),
    }
}

/// A block at `i`: a struct where the word `struct` stands, else an
/// expression.
pub open spec fn block(t: Seq<TokenView>, i: int) -> Result<(BlockView, int), SyntaxErrorView> {
    if kind_at(t, i) == Some(TokenKindView::Struct) {
        struct_block(t, i)
    } else {
        match expr(t, i) {
            Ok((e, j)) => Ok((BlockView::Expression(e), j)),
            Err(e) => Err(e),
        }
    }
}

/// The blocks from `i` to the end of the input, behind the blocks `done`;
/// the first error where a block has one.
pub open spec fn blocks(t: Seq<TokenView>, done: Seq<BlockView>, i: int) -> Result<
    Seq<BlockView>,
    SyntaxErrorView,
>
    decreases t.len() - i,
{
    if i < 0 || i >= t.len() {
        Ok(done)
    } else {
        match block(t, i) {
            Ok((b, j)) => {
                proof {
                    lemma_block_advances(t, i);
                }
                blocks(t, done.push(b), j)
            },
            Err(e) => Err(e),
        }
    }
}

/// The program that the tokens `t` spell: its blocks in their order, or
/// the first error.
pub open spec fn program(t: Seq<TokenView>) -> Result<Seq<BlockView>, SyntaxErrorView> {
    blocks(t, Seq::empty(), 0)
}

/// What is parsed takes at least one token and ends within the input.
pub proof fn lemma_expr_advances(t: Seq<TokenView>, i: int)
    ensures
        expr(t, i) matches Ok((_, j)) ==> i < j <= t.len(),
    decreases t.len() - i, 5int,
{
    if starts_assignment(t, i) {
        lemma_assignment_advances(t, i);
    } else {
        lemma_sum_advances(t, None, i);
    }
}

pub proof fn lemma_primary_advances(t: Seq<TokenView>, i: int)
    ensures
        primary(t, i) matches Ok((_, j)) ==> i < j <= t.len(),
    decreases t.len() - i, 0int,
{
    if kind_at(t, i) == Some(TokenKindView::ParenOpen) {
        lemma_expr_advances(t, i + 1);
    }
}

pub proof fn lemma_term_advances(t: Seq<TokenView>, left: Option<(ExprView, OpCode)>, i: int)
    ensures
        term_chain(t, left, i) matches Ok((_, j)) ==> i < j <= t.len(),
    decreases t.len() - i, 1int,
{
    lemma_primary_advances(t, i);
    if let Ok((operand, j)) = primary(t, i) {
        if let Some(op) = term_operator(kind_at(t, j)) {
            lemma_term_advances(t, Some((join(left, operand), op)), j + 1);
        }
    }
}

pub proof fn lemma_sum_advances(t: Seq<TokenView>, left: Option<(ExprView, OpCode)>, i: int)
    ensures
        sum_chain(t, left, i) matches Ok((_, j)) ==> i < j <= t.len(),
    decreases t.len() - i, 2int,
{
    lemma_term_advances(t, None, i);
    if let Ok((operand, j)) = term_chain(t, None, i) {
        if let Some(op) = sum_operator(kind_at(t, j)) {
            lemma_sum_advances(t, Some((join(left, operand), op)), j + 1);
        }
    }
}

/// What `term_chain` is: an operand, and where `*` or `/` follows it, the
/// rest of the term with the operands so far on its left.
pub proof fn lemma_term_chain(t: Seq<TokenView>, left: Option<(ExprView, OpCode)>, i: int)
    ensures
        term_chain(t, left, i) == match primary(t, i) {
            Ok((operand, j)) => match term_operator(kind_at(t, j)) {
                Some(op) => term_chain(t, Some((join(left, operand), op)), j + 1),
                None => Ok((join(left, operand), j)),
            },
            Err(e) => Err(e),
        },
{
    lemma_primary_advances(t, i);
}

/// What `sum_chain` is: a term, and where `+` or `-` follows it, the rest
/// of the sum with the terms so far on its left.
pub proof fn lemma_sum_chain(t: Seq<TokenView>, left: Option<(ExprView, OpCode)>, i: int)
    ensures
        sum_chain(t, left, i) == match term_chain(t, None, i) {
            Ok((operand, j)) => match sum_operator(kind_at(t, j)) {
                Some(op) => sum_chain(t, Some((join(left, operand), op)), j + 1),
                None => Ok((join(left, operand), j)),
            },
            Err(e) => Err(e),
        },
{
    lemma_term_advances(t, None, i);
}

pub proof fn lemma_assignment_advances(t: Seq<TokenView>, i: int)
    ensures
        assignment(t, i) matches Ok((_, j)) ==> i < j <= t.len(),
    decreases t.len() - i, 4int,
{
    let at = if kind_at(t, i) is Some && kind_at(t, i)->0 is Keyword {
        i + 1
    } else {
        i
    };
    if kind_at(t, at) is Some {
        if kind_at(t, at + 1) == Some(TokenKindView::Colon) {
            if kind_at(t, at + 2) is Some && kind_at(t, at + 3) is Some {
                lemma_expr_advances(t, at + 4);
            }
        } else if kind_at(t, at + 1) is Some {
            lemma_expr_advances(t, at + 2);
        }
    }
}

pub proof fn lemma_fields_advance(t: Seq<TokenView>, done: Seq<(Seq<char>, Seq<char>)>, i: int)
    ensures
        fields(t, done, i) matches Ok((_, j)) ==> i < j <= t.len(),
    decreases t.len() - i,
{
    if let Some(TokenKindView::Iden(name)) = kind_at(t, i) {
        if let Some(TokenKindView::Iden(typ)) = kind_at(t, i + 2) {
            if kind_at(t, i + 3) is Some {
                lemma_fields_advance(t, done.push((name, typ)), i + 4);
                lemma_fields_advance(t, done.push((name, typ)), i + 3);
            }
        }
    }
}

pub proof fn lemma_block_advances(t: Seq<TokenView>, i: int)
    ensures
        block(t, i) matches Ok((_, j)) ==> i < j <= t.len(),
{
    if kind_at(t, i) == Some(TokenKindView::Struct) {
        lemma_fields_advance(t, Seq::empty(), i + 3);
    } else {
        lemma_expr_advances(t, i);
    }
}

/// The kind of the token at `i`, if there is one.
fn peek(tokens: &[Token], i: usize) -> (r: Option<&TokenKind>)
    ensures
        tokens@.len() <= usize::MAX,
        match r {
            Some(kind) => i < tokens@.len() && kind_at(token_views(tokens@), i as int) == Some(
                kind@,
            ),
            None => i >= tokens@.len() && kind_at(token_views(tokens@), i as int) is None,
        },
{
    if i < tokens.len() {
        Some(&tokens[i].kind)
    } else {
        None
    }
}

fn unexpected_at(tokens: &[Token], i: usize, expected: Expected) -> (r: SyntaxError)
    ensures
        r@ == unexpected(token_views(tokens@), i as int, expected),
{
    let n = tokens.len();
    if i < n {
        SyntaxError { expected, found: Some(tokens[i].kind.clone()), pos: tokens[i].pos }
    } else if n > 0 {
        SyntaxError { expected, found: None, pos: tokens[n - 1].pos }
    } else {
        SyntaxError { expected, found: None, pos: Position { line: 1, col: 1 } }
    }
}

fn term_operator_at(tokens: &[Token], i: usize) -> (r: Option<OpCode>)
    ensures
        tokens@.len() <= usize::MAX,
        r == term_operator(kind_at(token_views(tokens@), i as int)),
        r is Some ==> i < tokens@.len(),
{
    match peek(tokens, i) {
        Some(TokenKind::Op(OpCode::Mul)) => Some(OpCode::Mul),
        Some(TokenKind::Op(OpCode::Div)) => Some(OpCode::Div),
        _ => None,
    }
}

fn sum_operator_at(tokens: &[Token], i: usize) -> (r: Option<OpCode>)
    ensures
        tokens@.len() <= usize::MAX,
        r == sum_operator(kind_at(token_views(tokens@), i as int)),
        r is Some ==> i < tokens@.len(),
{
    match peek(tokens, i) {
        Some(TokenKind::Op(OpCode::Add)) => Some(OpCode::Add),
        Some(TokenKind::Op(OpCode::Sub)) => Some(OpCode::Sub),
        _ => None,
    }
}

fn assignment_starts(tokens: &[Token], i: usize) -> (r: bool)
    ensures
        r == starts_assignment(token_views(tokens@), i as int),
{
    match peek(tokens, i) {
        Some(TokenKind::Keyword(_)) => true,
        Some(TokenKind::Iden(_)) => match peek(tokens, i + 1) {
            Some(TokenKind::Colon) => true,
            Some(TokenKind::Assign) => true,
            Some(TokenKind::OpAssign(_)) => true,
            _ => false,
        },
        _ => false,
    }
}

/// That `r` is what `parsed` asks for: the tree with that view and the
/// same index, or the error with that view.
pub open spec fn expr_is(
    r: Result<(Expr, usize), SyntaxError>,
    parsed: Result<(ExprView, int), SyntaxErrorView>,
) -> bool {
    match parsed {
        Ok((tree, next)) => r matches Ok((e, n)) && e@ == tree && n == next,
        Err(error) => r matches Err(e) && e@ == error,
    }
}

pub open spec fn assignment_is(
    r: Result<(Assignment, usize), SyntaxError>,
    parsed: Result<(AssignmentView, int), SyntaxErrorView>,
) -> bool {
    match parsed {
        Ok((tree, next)) => r matches Ok((a, n)) && a@ == tree && n == next,
        Err(error) => r matches Err(e) && e@ == error,
    }
}

pub open spec fn block_is(
    r: Result<(Block, usize), SyntaxError>,
    parsed: Result<(BlockView, int), SyntaxErrorView>,
) -> bool {
    match parsed {
        Ok((tree, next)) => r matches Ok((b, n)) && b@ == tree && n == next,
        Err(error) => r matches Err(e) && e@ == error,
    }
}

pub open spec fn field_views(fields: Seq<(Identifier, Type)>) -> Seq<(Seq<char>, Seq<char>)> {
    fields.map_values(|f: (Identifier, Type)| field_view(f))
}

pub open spec fn block_views(blocks: Seq<Block>) -> Seq<BlockView> {
    blocks.map_values(|b: Block| b@)
}

pub open spec fn left_view(left: Option<(Expr, OpCode)>) -> Option<(ExprView, OpCode)> {
    match left {
        Some((e, op)) => Some((e@, op)),
        None => None,
    }
}

fn join_with(left: Option<(Expr, OpCode)>, right: Expr) -> (r: Expr)
    ensures
        r@ == join(left_view(left), right@),
{
    match left {
        Some((l, op)) => Expr::BinOp(op, Box::new(l), Box::new(right)),
        None => right,
    }
}

fn parse_primary(tokens: &[Token], i: usize) -> (r: Result<(Expr, usize), SyntaxError>)
    ensures
        expr_is(r, primary(token_views(tokens@), i as int)),
        r matches Ok((_, j)) ==> i < j <= tokens@.len(),
    decreases tokens@.len() - i, 0int,
{
    proof {
        lemma_primary_advances(token_views(tokens@), i as int);
    }
    match peek(tokens, i) {
        Some(TokenKind::Number(n)) => Ok((Expr::Num(n.clone()), i + 1)),
        Some(TokenKind::Text(s)) => Ok((Expr::Text(s.clone()), i + 1)),
        Some(TokenKind::Iden(x)) => Ok((Expr::Iden(x.clone()), i + 1)),
        Some(TokenKind::ParenOpen) => match parse_expr(tokens, i + 1) {
            Ok((inner, j)) => match peek(tokens, j) {
                Some(TokenKind::ParenClose) => Ok((inner, j + 1)),
                _ => Err(unexpected_at(tokens, j, Expected::ParenClose)),
            },
            Err(e) => Err(e),
        },
        _ => Err(unexpected_at(tokens, i, Expected::Expression)),
    }
}

fn parse_term(tokens: &[Token], start: usize) -> (r: Result<(Expr, usize), SyntaxError>)
    ensures
        expr_is(r, term_chain(token_views(tokens@), None, start as int)),
        r matches Ok((_, j)) ==> start < j <= tokens@.len(),
    decreases tokens@.len() - start, 1int,
{
    let ghost t = token_views(tokens@);
    let mut left: Option<(Expr, OpCode)> = None;
    let mut i: usize = start;
    if start > tokens.len() {
        proof {
            assert(kind_at(t, start as int) is None);
            assert(primary(t, start as int) == Err::<(ExprView, int), SyntaxErrorView>(
                unexpected(t, start as int, Expected::Expression),
            ));
            assert(term_chain(t, None, start as int) == primary(t, start as int));
        }
        return Err(unexpected_at(tokens, start, Expected::Expression));
    }
    loop
        invariant
            t == token_views(tokens@),
            start <= i <= tokens@.len() <= usize::MAX,
            term_chain(t, None, start as int) == term_chain(t, left_view(left), i as int),
        decreases tokens@.len() - i,
    {
        match parse_primary(tokens, i) {
            Ok((operand, j)) => {
                let joined = join_with(left, operand);
                match term_operator_at(tokens, j) {
                    Some(op) => {
                        left = Some((joined, op));
                        i = j + 1;
                    },
                    None => {
                        return Ok((joined, j));
                    },
                }
            },
            Err(e) => {
                return Err(e);
            },
        }
    }
}

fn parse_sum(tokens: &[Token], start: usize) -> (r: Result<(Expr, usize), SyntaxError>)
    ensures
        expr_is(r, sum_chain(token_views(tokens@), None, start as int)),
        r matches Ok((_, j)) ==> start < j <= tokens@.len(),
    decreases tokens@.len() - start, 2int,
{
    let ghost t = token_views(tokens@);
    let mut left: Option<(Expr, OpCode)> = None;
    let mut i: usize = start;
    if start > tokens.len() {
        proof {
            assert(kind_at(t, start as int) is None);
            assert(primary(t, start as int) == Err::<(ExprView, int), SyntaxErrorView>(
                unexpected(t, start as int, Expected::Expression),
            ));
            assert(term_chain(t, None, start as int) == primary(t, start as int));
        }
        return Err(unexpected_at(tokens, start, Expected::Expression));
    }
    loop
        invariant
            t == token_views(tokens@),
            start <= i <= tokens@.len() <= usize::MAX,
            sum_chain(t, None, start as int) == sum_chain(t, left_view(left), i as int),
        decreases tokens@.len() - i,
    {
        match parse_term(tokens, i) {
            Ok((operand, j)) => {
                let joined = join_with(left, operand);
                match sum_operator_at(tokens, j) {
                    Some(op) => {
                        left = Some((joined, op));
                        i = j + 1;
                    },
                    None => {
                        return Ok((joined, j));
                    },
                }
            },
            Err(e) => {
                return Err(e);
            },
        }
    }
}

fn parse_assignment_tail(
    tokens: &[Token],
    kw: AssignmentKw,
    target: Identifier,
    typ: Option<Type>,
    i: usize,
) -> (r: Result<(Assignment, usize), SyntaxError>)
    ensures
        assignment_is(
            r,
            assignment_tail(token_views(tokens@), kw, target@, type_view(typ), i as int),
        ),
        r matches Ok((_, j)) ==> i < j <= tokens@.len(),
    decreases tokens@.len() - i, 3int,
{
    let op = match peek(tokens, i) {
        Some(TokenKind::Assign) => None,
        Some(TokenKind::OpAssign(op)) => Some(*op),
        _ => {
            return Err(unexpected_at(tokens, i, Expected::Assign));
        },
    };
    match parse_expr(tokens, i + 1) {
        Ok((value, j)) => Ok((Assignment { kw, target, typ, op, value: Box::new(value) }, j)),
        Err(e) => Err(e),
    }
}

fn parse_assignment(tokens: &[Token], i: usize) -> (r: Result<(Assignment, usize), SyntaxError>)
    ensures
        assignment_is(r, assignment(token_views(tokens@), i as int)),
        r matches Ok((_, j)) ==> i < j <= tokens@.len(),
    decreases tokens@.len() - i, 4int,
{
    let (kw, at) = match peek(tokens, i) {
        Some(TokenKind::Keyword(Keyword::Local)) => (AssignmentKw::Local, i + 1),
        Some(TokenKind::Keyword(Keyword::Mut)) => (AssignmentKw::Mut, i + 1),
        _ => (AssignmentKw::Inferred, i),
    };
    match peek(tokens, at) {
        Some(TokenKind::Iden(target)) => match peek(tokens, at + 1) {
            Some(TokenKind::Colon) => match peek(tokens, at + 2) {
                Some(TokenKind::Iden(typ)) => parse_assignment_tail(
                    tokens,
                    kw,
                    target.clone(),
                    Some(Type::new(typ.clone())),
                    at + 3,
                ),
                _ => Err(unexpected_at(tokens, at + 2, Expected::TypeName)),
            },
            _ => parse_assignment_tail(tokens, kw, target.clone(), None, at + 1),
        },
        _ => Err(unexpected_at(tokens, at, Expected::Name)),
    }
}

/// Parses the expression that starts at token `i`: its tree and the index
/// of the token behind it, or the first error. The tree is the one
/// expression that the tokens from `i` on write in full, and there is an
/// error only where they write none.
pub fn parse_expr(tokens: &[Token], i: usize) -> (r: Result<(Expr, usize), SyntaxError>)
    ensures
        expr_is(r, expr(token_views(tokens@), i as int)),
        r matches Ok((_, j)) ==> i < j <= tokens@.len(),
        forall|e: ExprView, j: int|
            (#[trigger] derives_expr(token_views(tokens@), i as int, j, e) && no_operator(
                kind_at(token_views(tokens@), j),
            )) <==> (r matches Ok((tree, next)) && tree@ == e && next == j),
    decreases tokens@.len() - i, 5int,
{
    proof {
        let t = token_views(tokens@);
        lemma_expr_sound(t, i as int);
        assert forall|e: ExprView, j: int|
            (#[trigger] derives_expr(t, i as int, j, e) && no_operator(kind_at(t, j))) implies expr(
            t,
            i as int,
        ) == Ok::<_, SyntaxErrorView>((e, j)) by {
            lemma_expr_complete(t, i as int, j, e);
        }
    }
    if assignment_starts(tokens, i) {
        match parse_assignment(tokens, i) {
            Ok((a, j)) => Ok((Expr::Assign(a), j)),
            Err(e) => Err(e),
        }
    } else {
        parse_sum(tokens, i)
    }
}

/// Parses the fields of a struct from token `start` on, up to and with the
/// closing brace.
fn parse_fields(tokens: &[Token], start: usize) -> (r: Result<
    (Vec<(Identifier, Type)>, usize),
    SyntaxError,
>)
    ensures
        match fields(token_views(tokens@), Seq::empty(), start as int) {
            Ok((list, next)) => r matches Ok((v, n)) && field_views(v@) == list && n == next,
            Err(error) => r matches Err(e) && e@ == error,
        },
{
    let ghost t = token_views(tokens@);
    let mut done: Vec<(Identifier, Type)> = Vec::new();
    let mut i: usize = start;
    assert(field_views(done@) == Seq::<(Seq<char>, Seq<char>)>::empty());
    loop
        invariant
            t == token_views(tokens@),
            fields(t, Seq::empty(), start as int) == fields(t, field_views(done@), i as int),
        decreases tokens@.len() - i,
    {
        match peek(tokens, i) {
            Some(TokenKind::BraceClose) => {
                return Ok((done, i + 1));
            },
            Some(TokenKind::Iden(name)) => {
                match peek(tokens, i + 1) {
                    Some(TokenKind::Colon) => {},
                    _ => {
                        return Err(unexpected_at(tokens, i + 1, Expected::Colon));
                    },
                }
                let typ = match peek(tokens, i + 2) {
                    Some(TokenKind::Iden(typ)) => typ,
                    _ => {
                        return Err(unexpected_at(tokens, i + 2, Expected::TypeName));
                    },
                };
                let ghost before = field_views(done@);
                let field = (name.clone(), Type::new(typ.clone()));
                proof {
                    assert(field_views(done@.push(field)) == before.push((name@, typ@)));
                }
                match peek(tokens, i + 3) {
                    Some(TokenKind::Comma) => {
                        done.push(field);
                        i = i + 4;
                    },
                    Some(TokenKind::BraceClose) => {
                        done.push(field);
                        return Ok((done, i + 4));
                    },
                    Some(_) => {
                        if tokens[i + 3].pos.line > tokens[i + 2].pos.line {
                            done.push(field);
                            i = i + 3;
                        } else {
                            return Err(unexpected_at(tokens, i + 3, Expected::Separator));
                        }
                    },
                    None => {
                        return Err(unexpected_at(tokens, i + 3, Expected::Separator));
                    },
                }
            },
            _ => {
                return Err(unexpected_at(tokens, i, Expected::Field));
            },
        }
    }
}

/// Parses the block that starts at token `i`: its tree and the index of
/// the token behind it, or the first error. The tree is a block that the
/// tokens from `i` on write, and the one that they write with no operator
/// behind it.
pub fn parse_block(tokens: &[Token], i: usize) -> (r: Result<(Block, usize), SyntaxError>)
    ensures
        block_is(r, block(token_views(tokens@), i as int)),
        r matches Ok((_, j)) ==> i < j <= tokens@.len(),
        r matches Ok((tree, j)) ==> derives_block(token_views(tokens@), i as int, j as int, tree@),
        forall|b: BlockView, j: int|
            (#[trigger] derives_block(token_views(tokens@), i as int, j, b) && no_operator(
                kind_at(token_views(tokens@), j),
            )) ==> (r matches Ok((tree, next)) && tree@ == b && next == j),
{
    proof {
        let t = token_views(tokens@);
        lemma_block_advances(t, i as int);
        lemma_block_sound(t, i as int);
        assert forall|b: BlockView, j: int|
            (#[trigger] derives_block(t, i as int, j, b) && no_operator(kind_at(t, j))) implies block(
            t,
            i as int,
        ) == Ok::<_, SyntaxErrorView>((b, j)) by {
            lemma_block_complete(t, i as int, j, b);
        }
    }
    match peek(tokens, i) {
        Some(TokenKind::Struct) => {
            let iden = match peek(tokens, i + 1) {
                Some(TokenKind::Iden(iden)) => iden.clone(),
                _ => {
                    return Err(unexpected_at(tokens, i + 1, Expected::Name));
                },
            };
            match peek(tokens, i + 2) {
                Some(TokenKind::BraceOpen) => {},
                _ => {
                    return Err(unexpected_at(tokens, i + 2, Expected::BraceOpen));
                },
            }
            match parse_fields(tokens, i + 3) {
                Ok((fields, j)) => Ok((Block::Struct { iden, fields }, j)),
                Err(e) => Err(e),
            }
        },
        _ => match parse_expr(tokens, i) {
            Ok((e, j)) => Ok((Block::Expression(e), j)),
            Err(e) => Err(e),
        },
    }
}

/// Parses a whole program. Every token must belong to a block: where one
/// does not fit, the result is the error for it, and no tree. The tree is
/// the one program that all the tokens write, and there is an error only
/// where they write none.
pub fn parse_tokens(tokens: &[Token]) -> (r: Result<Ast, SyntaxError>)
    ensures
        match program(token_views(tokens@)) {
            Ok(blocks) => r matches Ok(ast) && ast@ == blocks,
            Err(error) => r matches Err(e) && e@ == error,
        },
        forall|list: Seq<BlockView>| #[trigger]
            derives_program(token_views(tokens@), list) <==> (r matches Ok(ast) && ast@ == list),
{
    let ghost t = token_views(tokens@);
    proof {
        assert forall|list: Seq<BlockView>| #[trigger]
            derives_program(t, list) <==> program(t) == Ok::<_, SyntaxErrorView>(list) by {
            lemma_program_is_grammar(t, list);
        }
    }
    let mut done: Vec<Block> = Vec::new();
    let mut i: usize = 0;
    assert(block_views(done@) == Seq::<BlockView>::empty());
    while i < tokens.len()
        invariant
            t == token_views(tokens@),
            i <= tokens@.len(),
            program(t) == blocks(t, block_views(done@), i as int),
            forall|list: Seq<BlockView>| #[trigger]
                derives_program(t, list) <==> program(t) == Ok::<_, SyntaxErrorView>(list),
        decreases tokens@.len() - i,
    {
        match parse_block(tokens, i) {
            Ok((b, j)) => {
                proof {
                    assert(block_views(done@.push(b)) == block_views(done@).push(b@));
                }
                done.push(b);
                i = j;
            },
            Err(e) => {
                return Err(e);
            },
        }
    }
    Ok(Ast { blocks: done })
}

} // verus!

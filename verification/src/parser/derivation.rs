//! The grammar as a relation between tokens and trees, and the proof that
//! the parser returns a tree exactly where the grammar derives one.
//!
//! `derives_expr(t, i, j, e)` and its companions say that the tokens
//! `t[i..j]`, all of them and in their order, are a way to write `e`.
//! They say nothing of how a parser goes about it. An expression is
//! written in full where no operator follows it: `lemma_expr_sound` and
//! `lemma_expr_complete` show that the expression parsed at `i` is the one
//! written in full from `i`, and `lemma_program_is_grammar` that the
//! program of a text is the one sequence of blocks that all of its tokens
//! write.

use vstd::prelude::*;
use crate::ast::{AssignmentKw, AssignmentView, BlockView, ExprView, Keyword, OpCode};
use crate::parser::grammar::{
    assignment, assignment_tail, block, blocks, expr, fields, join, kind_at, lemma_block_advances,
    lemma_expr_advances, lemma_fields_advance, lemma_primary_advances, lemma_term_advances,
    primary, program, starts_assignment, sum_chain, sum_operator, term_chain, term_operator,
    SyntaxErrorView,
};
use crate::parser::lexer::{TokenKindView, TokenView};

verus! {

/// `*` and `/`, which bind tighter.
pub open spec fn is_term_op(op: OpCode) -> bool {
    op == OpCode::Mul || op == OpCode::Div
}

/// `+` and `-`.
pub open spec fn is_sum_op(op: OpCode) -> bool {
    op == OpCode::Add || op == OpCode::Sub
}

/// The sign of an assignment with the compound operator `op`.
pub open spec fn assignment_sign(op: Option<OpCode>) -> TokenKindView {
    match op {
        Some(op) => TokenKindView::OpAssign(op),
        None => TokenKindView::Assign,
    }
}

/// The index of the first token of the value of the assignment `a` that
/// starts at `i`: behind the keyword if it has one, the target, the colon
/// and the type if it has one, and the sign.
pub open spec fn value_start(i: int, a: AssignmentView) -> int {
    i + (if a.kw == AssignmentKw::Inferred {
        0int
    } else {
        1int
    }) + (if a.typ is Some {
        4int
    } else {
        2int
    })
}

/// The tokens from `i` to the value of `a` are those of `a`: its keyword,
/// its target, its type and its sign.
pub open spec fn derives_assignment_head(t: Seq<TokenView>, i: int, a: AssignmentView) -> bool {
    let at = value_start(i, a) - (if a.typ is Some {
        4int
    } else {
        2int
    });
    &&& match a.kw {
        AssignmentKw::Local => kind_at(t, i) == Some(TokenKindView::Keyword(Keyword::Local)),
        AssignmentKw::Mut => kind_at(t, i) == Some(TokenKindView::Keyword(Keyword::Mut)),
        AssignmentKw::Inferred => !(kind_at(t, i) matches Some(TokenKindView::Keyword(_))),
    }
    &&& kind_at(t, at) == Some(TokenKindView::Iden(a.target))
    &&& match a.typ {
        Some(typ) => kind_at(t, at + 1) == Some(TokenKindView::Colon) && kind_at(t, at + 2)
            == Some(TokenKindView::Iden(typ)),
        None => kind_at(t, at + 1) != Some(TokenKindView::Colon),
    }
    &&& kind_at(t, value_start(i, a) - 1) == Some(assignment_sign(a.op))
}

/// `t[i..j]` writes `e` as a primary: the one token of a number, a text or
/// a name, or an expression in parentheses.
pub open spec fn derives_primary(t: Seq<TokenView>, i: int, j: int, e: ExprView) -> bool
    decreases e, j - i, 0int,
{
    match kind_at(t, i) {
        Some(TokenKindView::Number(n)) => j == i + 1 && e == ExprView::Num(n),
        Some(TokenKindView::Text(s)) => j == i + 1 && e == ExprView::Text(s),
        Some(TokenKindView::Iden(x)) => j == i + 1 && e == ExprView::Iden(x),
        Some(TokenKindView::ParenOpen) => i + 2 <= j && kind_at(t, j - 1) == Some(
            TokenKindView::ParenClose,
        ) && derives_expr(t, i + 1, j - 1, e),
        _ => false,
    }
}

/// `t[i..j]` writes `e` as a term: a primary, or a term, `*` or `/`, and a
/// primary.
pub open spec fn derives_term(t: Seq<TokenView>, i: int, j: int, e: ExprView) -> bool
    decreases e, j - i, 1int,
{
    ||| derives_primary(t, i, j, e)
    ||| e matches ExprView::BinOp(op, l, r) && is_term_op(op) && exists|m: int|
        i < m < j && derives_term(t, i, m, *l) && #[trigger] kind_at(t, m) == Some(
            TokenKindView::Op(op),
        ) && derives_primary(t, m + 1, j, *r)
}

/// `t[i..j]` writes `e` as a sum: a term, or a sum, `+` or `-`, and a
/// term.
pub open spec fn derives_sum(t: Seq<TokenView>, i: int, j: int, e: ExprView) -> bool
    decreases e, j - i, 2int,
{
    ||| derives_term(t, i, j, e)
    ||| e matches ExprView::BinOp(op, l, r) && is_sum_op(op) && exists|m: int|
        i < m < j && derives_sum(t, i, m, *l) && #[trigger] kind_at(t, m) == Some(
            TokenKindView::Op(op),
        ) && derives_term(t, m + 1, j, *r)
}

/// `t[i..j]` writes the expression `e`: where an assignment starts at `i`,
/// the assignment `e` with its value, and else the sum `e`.
pub open spec fn derives_expr(t: Seq<TokenView>, i: int, j: int, e: ExprView) -> bool
    decreases e, j - i, 3int,
{
    if starts_assignment(t, i) {
        e matches ExprView::Assign(a) && derives_assignment_head(t, i, a) && derives_expr(
            t,
            value_start(i, a),
            j,
            *a.value,
        )
    } else {
        derives_sum(t, i, j, e)
    }
}

/// No operator stands at the index of `kind`: what ends before it is
/// written in full.
pub open spec fn no_operator(kind: Option<TokenKindView>) -> bool {
    !(kind matches Some(TokenKindView::Op(_)))
}

/// That `left`, where there is one, is a term written from `start` up to
/// its operator `*` or `/`, which is the token before `i`.
pub open spec fn term_left(
    t: Seq<TokenView>,
    left: Option<(ExprView, OpCode)>,
    start: int,
    i: int,
) -> bool {
    match left {
        Some((l, op)) => start < i - 1 && derives_term(t, start, i - 1, l) && kind_at(t, i - 1)
            == Some(TokenKindView::Op(op)) && is_term_op(op),
        None => start == i,
    }
}

/// That `left`, where there is one, is a sum written from `start` up to
/// its operator `+` or `-`, which is the token before `i`.
pub open spec fn sum_left(
    t: Seq<TokenView>,
    left: Option<(ExprView, OpCode)>,
    start: int,
    i: int,
) -> bool {
    match left {
        Some((l, op)) => start < i - 1 && derives_sum(t, start, i - 1, l) && kind_at(t, i - 1)
            == Some(TokenKindView::Op(op)) && is_sum_op(op),
        None => start == i,
    }
}

proof fn lemma_join_term(
    t: Seq<TokenView>,
    left: Option<(ExprView, OpCode)>,
    start: int,
    i: int,
    operand: ExprView,
    j: int,
)
    requires
        term_left(t, left, start, i),
        derives_primary(t, i, j, operand),
        i < j,
    ensures
        derives_term(t, start, j, join(left, operand)),
{
    if let Some((l, op)) = left {
        let l_box = Box::new(l);
        let r_box = Box::new(operand);
        assert(join(left, operand) == ExprView::BinOp(op, l_box, r_box));
        assert(start < i - 1 < j && derives_term(t, start, i - 1, *l_box) && kind_at(t, i - 1)
            == Some(TokenKindView::Op(op)) && derives_primary(t, (i - 1) + 1, j, *r_box));
    }
}

proof fn lemma_join_sum(
    t: Seq<TokenView>,
    left: Option<(ExprView, OpCode)>,
    start: int,
    i: int,
    operand: ExprView,
    j: int,
)
    requires
        sum_left(t, left, start, i),
        derives_term(t, i, j, operand),
        i < j,
    ensures
        derives_sum(t, start, j, join(left, operand)),
{
    if let Some((l, op)) = left {
        let l_box = Box::new(l);
        let r_box = Box::new(operand);
        assert(join(left, operand) == ExprView::BinOp(op, l_box, r_box));
        assert(start < i - 1 < j && derives_sum(t, start, i - 1, *l_box) && kind_at(t, i - 1)
            == Some(TokenKindView::Op(op)) && derives_term(t, (i - 1) + 1, j, *r_box));
    }
}

pub proof fn lemma_primary_sound(t: Seq<TokenView>, i: int)
    ensures
        primary(t, i) matches Ok((e, j)) ==> derives_primary(t, i, j, e),
    decreases t.len() - i, 0int,
{
    if kind_at(t, i) == Some(TokenKindView::ParenOpen) {
        lemma_expr_sound(t, i + 1);
        lemma_expr_advances(t, i + 1);
    }
}

pub proof fn lemma_term_sound(
    t: Seq<TokenView>,
    left: Option<(ExprView, OpCode)>,
    start: int,
    i: int,
)
    requires
        term_left(t, left, start, i),
    ensures
        term_chain(t, left, i) matches Ok((e, j)) ==> derives_term(t, start, j, e)
            && term_operator(kind_at(t, j)) is None,
    decreases t.len() - i, 1int,
{
    lemma_primary_sound(t, i);
    lemma_primary_advances(t, i);
    if let Ok((operand, j)) = primary(t, i) {
        lemma_join_term(t, left, start, i, operand, j);
        if let Some(op) = term_operator(kind_at(t, j)) {
            lemma_term_sound(t, Some((join(left, operand), op)), start, j + 1);
        }
    }
}

pub proof fn lemma_sum_sound(
    t: Seq<TokenView>,
    left: Option<(ExprView, OpCode)>,
    start: int,
    i: int,
)
    requires
        sum_left(t, left, start, i),
    ensures
        sum_chain(t, left, i) matches Ok((e, j)) ==> derives_sum(t, start, j, e) && no_operator(
            kind_at(t, j),
        ),
    decreases t.len() - i, 2int,
{
    lemma_term_sound(t, None, i, i);
    lemma_term_advances(t, None, i);
    if let Ok((operand, j)) = term_chain(t, None, i) {
        lemma_join_sum(t, left, start, i, operand, j);
        if let Some(op) = sum_operator(kind_at(t, j)) {
            lemma_sum_sound(t, Some((join(left, operand), op)), start, j + 1);
        }
    }
}

pub proof fn lemma_assignment_sound(t: Seq<TokenView>, i: int)
    ensures
        assignment(t, i) matches Ok((a, j)) ==> derives_assignment_head(t, i, a) && derives_expr(
            t,
            value_start(i, a),
            j,
            *a.value,
        ) && no_operator(kind_at(t, j)),
    decreases t.len() - i, 4int,
{
    if let Ok((a, j)) = assignment(t, i) {
        lemma_expr_sound(t, value_start(i, a));
    }
}

/// The expression that is parsed at `i` is written in full by the tokens
/// from `i` to where the parse ends.
pub proof fn lemma_expr_sound(t: Seq<TokenView>, i: int)
    ensures
        expr(t, i) matches Ok((e, j)) ==> derives_expr(t, i, j, e) && no_operator(kind_at(t, j)),
    decreases t.len() - i, 5int,
{
    if starts_assignment(t, i) {
        lemma_assignment_sound(t, i);
    } else {
        lemma_sum_sound(t, None, i, i);
    }
}

/// What the parser goes on to, when it has read the term `e` up to `j`:
/// the rest of the term where `*` or `/` follows, and else `e`.
pub open spec fn term_goes_on(t: Seq<TokenView>, e: ExprView, j: int) -> Result<
    (ExprView, int),
    SyntaxErrorView,
> {
    match term_operator(kind_at(t, j)) {
        Some(op) => term_chain(t, Some((e, op)), j + 1),
        None => Ok((e, j)),
    }
}

/// What the parser goes on to, when it has read the sum `e` up to `j`:
/// the rest of the sum where `+` or `-` follows, and else `e`.
pub open spec fn sum_goes_on(t: Seq<TokenView>, e: ExprView, j: int) -> Result<
    (ExprView, int),
    SyntaxErrorView,
> {
    match sum_operator(kind_at(t, j)) {
        Some(op) => sum_chain(t, Some((e, op)), j + 1),
        None => Ok((e, j)),
    }
}

pub proof fn lemma_primary_complete(t: Seq<TokenView>, i: int, j: int, e: ExprView)
    requires
        derives_primary(t, i, j, e),
    ensures
        primary(t, i) == Ok::<_, SyntaxErrorView>((e, j)),
    decreases e, j - i, 0int,
{
    if kind_at(t, i) == Some(TokenKindView::ParenOpen) {
        lemma_expr_complete(t, i + 1, j - 1, e);
    }
}

/// A term that is written from `i` to `j` is what the parser has read when
/// it comes to `j`.
pub proof fn lemma_term_complete(t: Seq<TokenView>, i: int, j: int, e: ExprView)
    requires
        derives_term(t, i, j, e),
    ensures
        term_chain(t, None, i) == term_goes_on(t, e, j),
    decreases e, j - i, 1int,
{
    if derives_primary(t, i, j, e) {
        lemma_primary_complete(t, i, j, e);
        lemma_primary_advances(t, i);
    } else {
        let (op, l, r) = match e {
            ExprView::BinOp(op, l, r) => (op, l, r),
            _ => arbitrary(),
        };
        let m = choose|m: int|
            i < m < j && derives_term(t, i, m, *l) && #[trigger] kind_at(t, m) == Some(
                TokenKindView::Op(op),
            ) && derives_primary(t, m + 1, j, *r);
        lemma_term_complete(t, i, m, *l);
        lemma_primary_complete(t, m + 1, j, *r);
        lemma_primary_advances(t, m + 1);
        assert(term_operator(kind_at(t, m)) == Some(op));
        assert(join(Some((*l, op)), *r) == e);
        assert(term_chain(t, Some((*l, op)), m + 1) == term_goes_on(t, e, j));
    }
}

/// A sum that is written from `i` to `j`, with neither `*` nor `/` behind
/// it, is what the parser has read when it comes to `j`.
pub proof fn lemma_sum_complete(t: Seq<TokenView>, i: int, j: int, e: ExprView)
    requires
        derives_sum(t, i, j, e),
        term_operator(kind_at(t, j)) is None,
    ensures
        sum_chain(t, None, i) == sum_goes_on(t, e, j),
    decreases e, j - i, 2int,
{
    if derives_term(t, i, j, e) {
        lemma_term_complete(t, i, j, e);
        lemma_term_advances(t, None, i);
    } else {
        let (op, l, r) = match e {
            ExprView::BinOp(op, l, r) => (op, l, r),
            _ => arbitrary(),
        };
        let m = choose|m: int|
            i < m < j && derives_sum(t, i, m, *l) && #[trigger] kind_at(t, m) == Some(
                TokenKindView::Op(op),
            ) && derives_term(t, m + 1, j, *r);
        lemma_sum_complete(t, i, m, *l);
        lemma_term_complete(t, m + 1, j, *r);
        lemma_term_advances(t, None, m + 1);
        assert(sum_operator(kind_at(t, m)) == Some(op));
        assert(join(Some((*l, op)), *r) == e);
        assert(sum_chain(t, Some((*l, op)), m + 1) == sum_goes_on(t, e, j));
    }
}

/// An expression that is written in full from `i` to `j` is the one that
/// is parsed at `i`, and the parse ends at `j`.
pub proof fn lemma_expr_complete(t: Seq<TokenView>, i: int, j: int, e: ExprView)
    requires
        derives_expr(t, i, j, e),
        no_operator(kind_at(t, j)),
    ensures
        expr(t, i) == Ok::<_, SyntaxErrorView>((e, j)),
    decreases e, j - i, 3int,
{
    if starts_assignment(t, i) {
        let a = match e {
            ExprView::Assign(a) => a,
            _ => arbitrary(),
        };
        lemma_expr_complete(t, value_start(i, a), j, *a.value);
        let sign = value_start(i, a) - 1;
        assert(assignment_tail(t, a.kw, a.target, a.typ, sign) == Ok::<
            _,
            SyntaxErrorView,
        >((a, j)));
        assert(assignment(t, i) == assignment_tail(t, a.kw, a.target, a.typ, sign));
    } else {
        lemma_sum_complete(t, i, j, e);
    }
}

/// `t[i..j]` writes the field `f`: its name, a colon and its type, and
/// then a comma, or nothing where the closing brace follows or where the
/// next token stands on a later line than the type.
pub open spec fn derives_field(t: Seq<TokenView>, i: int, j: int, f: (Seq<char>, Seq<char>)) -> bool {
    &&& kind_at(t, i) == Some(TokenKindView::Iden(f.0))
    &&& kind_at(t, i + 1) == Some(TokenKindView::Colon)
    &&& kind_at(t, i + 2) == Some(TokenKindView::Iden(f.1))
    &&& match kind_at(t, i + 3) {
        Some(TokenKindView::Comma) => j == i + 4,
        Some(TokenKindView::BraceClose) => j == i + 3,
        Some(_) => j == i + 3 && t[i + 3].pos.line > t[i + 2].pos.line,
        None => false,
    }
}

/// `t[i..j]` writes the fields `list`, one after the other.
pub open spec fn derives_fields(
    t: Seq<TokenView>,
    i: int,
    j: int,
    list: Seq<(Seq<char>, Seq<char>)>,
) -> bool
    decreases list.len(),
{
    if list.len() == 0 {
        i == j
    } else {
        exists|m: int|
            derives_fields(t, i, m, list.drop_last()) && #[trigger] derives_field(
                t,
                m,
                j,
                list.last(),
            )
    }
}

/// `t[i..j]` writes the block `b`: a struct with its name and, in braces,
/// its fields, or an expression that is no struct.
pub open spec fn derives_block(t: Seq<TokenView>, i: int, j: int, b: BlockView) -> bool {
    match b {
        BlockView::Expression(e) => kind_at(t, i) != Some(TokenKindView::Struct) && derives_expr(
            t,
            i,
            j,
            e,
        ),
        BlockView::Struct { iden, fields } => {
            &&& i + 4 <= j
            &&& kind_at(t, i) == Some(TokenKindView::Struct)
            &&& kind_at(t, i + 1) == Some(TokenKindView::Iden(iden))
            &&& kind_at(t, i + 2) == Some(TokenKindView::BraceOpen)
            &&& derives_fields(t, i + 3, j - 1, fields)
            &&& kind_at(t, j - 1) == Some(TokenKindView::BraceClose)
        },
    }
}

/// `t[i..j]` writes the blocks `list`, one after the other, with nothing
/// between them.
pub open spec fn derives_blocks(t: Seq<TokenView>, i: int, j: int, list: Seq<BlockView>) -> bool
    decreases list.len(),
{
    if list.len() == 0 {
        i == j
    } else {
        exists|m: int|
            derives_blocks(t, i, m, list.drop_last()) && #[trigger] derives_block(
                t,
                m,
                j,
                list.last(),
            )
    }
}

/// The tokens `t`, from the first to the last, write the program `list`.
pub open spec fn derives_program(t: Seq<TokenView>, list: Seq<BlockView>) -> bool {
    derives_blocks(t, 0, t.len() as int, list)
}

pub proof fn lemma_fields_sound(
    t: Seq<TokenView>,
    done: Seq<(Seq<char>, Seq<char>)>,
    start: int,
    i: int,
)
    requires
        derives_fields(t, start, i, done),
    ensures
        fields(t, done, i) matches Ok((list, j)) ==> derives_fields(t, start, j - 1, list)
            && kind_at(t, j - 1) == Some(TokenKindView::BraceClose),
    decreases t.len() - i,
{
    if let Some(TokenKindView::Iden(name)) = kind_at(t, i) {
        if kind_at(t, i + 1) == Some(TokenKindView::Colon) {
            if let Some(TokenKindView::Iden(typ)) = kind_at(t, i + 2) {
                let more = done.push((name, typ));
                assert(more.drop_last() == done);
                assert(more.last() == (name, typ));
                if kind_at(t, i + 3) == Some(TokenKindView::Comma) {
                    assert(derives_fields(t, start, i + 4, more)) by {
                        assert(derives_fields(t, start, i, more.drop_last()) && derives_field(
                            t,
                            i,
                            i + 4,
                            more.last(),
                        ));
                    }
                    lemma_fields_sound(t, more, start, i + 4);
                } else if kind_at(t, i + 3) == Some(TokenKindView::BraceClose) || (kind_at(
                    t,
                    i + 3,
                ) is Some && t[i + 3].pos.line > t[i + 2].pos.line) {
                    assert(derives_fields(t, start, i + 3, more)) by {
                        assert(derives_fields(t, start, i, more.drop_last()) && derives_field(
                            t,
                            i,
                            i + 3,
                            more.last(),
                        ));
                    }
                    if kind_at(t, i + 3) != Some(TokenKindView::BraceClose) {
                        lemma_fields_sound(t, more, start, i + 3);
                    }
                }
            }
        }
    }
}

/// The block that is parsed at `i` is written by the tokens from `i` to
/// where the parse ends.
pub proof fn lemma_block_sound(t: Seq<TokenView>, i: int)
    ensures
        block(t, i) matches Ok((b, j)) ==> derives_block(t, i, j, b),
{
    if kind_at(t, i) == Some(TokenKindView::Struct) {
        lemma_fields_sound(t, Seq::empty(), i + 3, i + 3);
        lemma_fields_advance(t, Seq::empty(), i + 3);
    } else {
        lemma_expr_sound(t, i);
    }
}

proof fn lemma_blocks_sound(t: Seq<TokenView>, done: Seq<BlockView>, i: int)
    requires
        0 <= i <= t.len(),
        derives_blocks(t, 0, i, done),
    ensures
        blocks(t, done, i) matches Ok(list) ==> derives_program(t, list),
    decreases t.len() - i,
{
    if i < t.len() {
        lemma_block_sound(t, i);
        lemma_block_advances(t, i);
        if let Ok((b, j)) = block(t, i) {
            let more = done.push(b);
            assert(more.drop_last() == done);
            assert(more.last() == b);
            assert(derives_blocks(t, 0, j, more)) by {
                assert(derives_blocks(t, 0, i, more.drop_last()) && derives_block(
                    t,
                    i,
                    j,
                    more.last(),
                ));
            }
            lemma_blocks_sound(t, more, j);
        }
    }
}

/// What starts a sum is no operator.
proof fn lemma_sum_start(t: Seq<TokenView>, i: int, j: int, e: ExprView)
    requires
        derives_sum(t, i, j, e),
    ensures
        kind_at(t, i) is Some,
        no_operator(kind_at(t, i)),
    decreases e, 1int,
{
    if !derives_term(t, i, j, e) {
        let (op, l, r) = match e {
            ExprView::BinOp(op, l, r) => (op, l, r),
            _ => arbitrary(),
        };
        let m = choose|m: int|
            i < m < j && derives_sum(t, i, m, *l) && #[trigger] kind_at(t, m) == Some(
                TokenKindView::Op(op),
            ) && derives_term(t, m + 1, j, *r);
        lemma_sum_start(t, i, m, *l);
    } else {
        lemma_term_start(t, i, j, e);
    }
}

proof fn lemma_term_start(t: Seq<TokenView>, i: int, j: int, e: ExprView)
    requires
        derives_term(t, i, j, e),
    ensures
        kind_at(t, i) is Some,
        no_operator(kind_at(t, i)),
    decreases e, 0int,
{
    if !derives_primary(t, i, j, e) {
        let (op, l, r) = match e {
            ExprView::BinOp(op, l, r) => (op, l, r),
            _ => arbitrary(),
        };
        let m = choose|m: int|
            i < m < j && derives_term(t, i, m, *l) && #[trigger] kind_at(t, m) == Some(
                TokenKindView::Op(op),
            ) && derives_primary(t, m + 1, j, *r);
        lemma_term_start(t, i, m, *l);
    }
}

/// What starts a block is a token that is no operator.
proof fn lemma_block_start(t: Seq<TokenView>, i: int, j: int, b: BlockView)
    requires
        derives_block(t, i, j, b),
    ensures
        0 <= i < t.len(),
        no_operator(kind_at(t, i)),
{
    if let BlockView::Expression(e) = b {
        if !starts_assignment(t, i) {
            lemma_sum_start(t, i, j, e);
        }
    }
}

/// Fields that are written from `start` to `i` are what the parser has
/// read when it comes to `i`.
proof fn lemma_fields_complete(
    t: Seq<TokenView>,
    start: int,
    i: int,
    list: Seq<(Seq<char>, Seq<char>)>,
)
    requires
        derives_fields(t, start, i, list),
    ensures
        fields(t, Seq::empty(), start) == fields(t, list, i),
    decreases list.len(),
{
    if list.len() == 0 {
        assert(list == Seq::<(Seq<char>, Seq<char>)>::empty());
    } else {
        let m = choose|m: int|
            derives_fields(t, start, m, list.drop_last()) && #[trigger] derives_field(
                t,
                m,
                i,
                list.last(),
            );
        lemma_fields_complete(t, start, m, list.drop_last());
        assert(list.drop_last().push(list.last()) == list);
    }
}

/// A block that is written from `i` to `j`, with no operator behind it, is
/// the one that is parsed at `i`, and the parse ends at `j`.
pub proof fn lemma_block_complete(t: Seq<TokenView>, i: int, j: int, b: BlockView)
    requires
        derives_block(t, i, j, b),
        no_operator(kind_at(t, j)),
    ensures
        block(t, i) == Ok::<_, SyntaxErrorView>((b, j)),
{
    match b {
        BlockView::Expression(e) => {
            lemma_expr_complete(t, i, j, e);
        },
        BlockView::Struct { iden, fields: list } => {
            lemma_fields_complete(t, i + 3, j - 1, list);
        },
    }
}

/// Blocks that are written from the first token to `j`, with no operator
/// behind them, are what the parser has read when it comes to `j`.
proof fn lemma_blocks_complete(t: Seq<TokenView>, j: int, list: Seq<BlockView>)
    requires
        derives_blocks(t, 0, j, list),
        no_operator(kind_at(t, j)),
    ensures
        0 <= j,
        program(t) == blocks(t, list, j),
    decreases list.len(),
{
    if list.len() == 0 {
        assert(list == Seq::<BlockView>::empty());
    } else {
        let m = choose|m: int|
            derives_blocks(t, 0, m, list.drop_last()) && #[trigger] derives_block(
                t,
                m,
                j,
                list.last(),
            );
        lemma_block_start(t, m, j, list.last());
        lemma_blocks_complete(t, m, list.drop_last());
        lemma_block_complete(t, m, j, list.last());
        lemma_block_advances(t, m);
        assert(list.drop_last().push(list.last()) == list);
    }
}

/// The parser and the grammar agree. The tokens `t` have the program
/// `list` if and only if all of them, from the first to the last, write
/// `list`. So a tree is never the tree of a part of the input: tokens that
/// fit no block, wherever they stand, leave the input without a tree. And
/// an input has an error only where nothing is written by it: no sequence
/// of blocks at all.
pub proof fn lemma_program_is_grammar(t: Seq<TokenView>, list: Seq<BlockView>)
    ensures
        program(t) == Ok::<_, SyntaxErrorView>(list) <==> derives_program(t, list),
{
    lemma_blocks_sound(t, Seq::empty(), 0);
    if derives_program(t, list) {
        lemma_blocks_complete(t, t.len() as int, list);
    }
}

/// The first block that has an error ends the parse with that error,
/// however many blocks were read before it.
pub proof fn lemma_error_ends_program(t: Seq<TokenView>, done: Seq<BlockView>, i: int)
    requires
        0 <= i < t.len(),
        program(t) == blocks(t, done, i),
        block(t, i) is Err,
    ensures
        program(t) == Err::<Seq<BlockView>, _>(block(t, i)->Err_0),
{
}

} // verus!

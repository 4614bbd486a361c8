//! The syntax tree, and the validated names and literals it is built from.

use vstd::prelude::*;
use crate::text::{
    digit, is_digit, is_letter, is_name_char, lemma_run_end, lemma_run_end_is, letter, name_char,
    run_end, CharClass,
};

verus! {

/// An arithmetic operator. It stands between the two sides of a binary
/// expression, and on an assignment it makes the assignment a compound one
/// (`Add` on an assignment is add-and-assign).
#[derive(Debug, Clone, Copy, PartialEq, Eq, Structural)]
pub enum OpCode {
    Add,
    Sub,
    Mul,
    Div,
}

/// A reserved word; it cannot be used as a name.
#[derive(Debug, Clone, Copy, PartialEq, Eq, Structural)]
pub enum Keyword {
    Local,
    Mut,
}

/// How an assignment binds its target.
#[derive(Debug, Clone, Copy, PartialEq, Eq, Structural)]
pub enum AssignmentKw {
    /// No keyword: a later stage infers whether this is a new binding or a
    /// reassignment.
    Inferred,
    /// The binding is mutable.
    Mut,
    /// This forces the assignment to be a declaration even if a binding of
    /// that name exists in an outer scope: it is shadowed, not reassigned.
    Local,
}

/// The one choice that the naming rule leaves open.
#[derive(Debug, Clone, Copy, PartialEq, Eq, Structural)]
pub struct NameRules {
    /// Whether a name may start with an underscore.
    pub leading_underscore: bool,
}

impl NameRules {
    /// The rules in use where none are given: a leading underscore is
    /// accepted.
    pub open spec fn spec_standard() -> NameRules {
        NameRules { leading_underscore: true }
    }

    #[verifier::when_used_as_spec(spec_standard)]
    pub fn standard() -> (r: NameRules)
        ensures
            r == NameRules::spec_standard(),
    {
        NameRules { leading_underscore: true }
    }
}

pub open spec fn all_name_chars(s: Seq<char>) -> bool {
    forall|i: int| 0 <= i < s.len() ==> is_name_char(#[trigger] s[i])
}

pub open spec fn is_name_start(rules: NameRules, c: char) -> bool {
    is_letter(c) || (rules.leading_underscore && c == '_')
}

/// The naming rule: only letters, digits and underscores, the first of them
/// no digit and, where `rules` say so, no underscore.
pub open spec fn is_identifier_under(rules: NameRules, s: Seq<char>) -> bool {
    &&& s.len() > 0
    &&& all_name_chars(s)
    &&& is_name_start(rules, s[0])
}

/// The naming rule under the standard rules: `[A-Za-z_][A-Za-z0-9_]*`.
pub open spec fn is_identifier(s: Seq<char>) -> bool {
    is_identifier_under(NameRules::standard(), s)
}

/// Why a text is no name.
#[derive(Debug, Clone, Copy, PartialEq, Eq, Structural)]
pub enum Rejection {
    /// It holds a character that is no letter, digit or underscore.
    Contains(char),
    /// It is empty.
    Empty,
    /// Its first character cannot start a name.
    StartsWith(char),
}

/// Why `s` is no name, if it is none. The characters are looked at first,
/// all of them: the first that no name can hold is the reason. Only then
/// comes the first character.
pub open spec fn rejection(rules: NameRules, s: Seq<char>) -> Option<Rejection> {
    let bad = run_end(s, 0, CharClass::Name);
    if bad < s.len() {
        Some(Rejection::Contains(s[bad]))
    } else if s.len() == 0 {
        Some(Rejection::Empty)
    } else if !is_name_start(rules, s[0]) {
        Some(Rejection::StartsWith(s[0]))
    } else {
        None
    }
}

/// A text has a reason to be rejected if and only if it breaks the naming
/// rule.
pub proof fn lemma_rejection(rules: NameRules, s: Seq<char>)
    ensures
        rejection(rules, s) is None <==> is_identifier_under(rules, s),
{
    lemma_run_end(s, 0, CharClass::Name);
}

/// A validated name. Its view is the name.
#[derive(Debug, PartialEq, Eq)]
pub struct Identifier {
    name: String,
}

impl View for Identifier {
    type V = Seq<char>;

    closed spec fn view(&self) -> Seq<char> {
        self.name@
    }
}

impl Clone for Identifier {
    fn clone(&self) -> (r: Self)
        ensures
            r == *self,
    {
        proof {
            use_type_invariant(self);
        }
        Identifier { name: self.name.clone() }
    }
}

impl Identifier {
    #[verifier::type_invariant]
    spec fn valid(self) -> bool {
        is_identifier(self.name@)
    }

    /// Validates `name` under the standard rules.
    pub fn new(name: &str) -> (r: Option<Identifier>)
        ensures
            r is Some <==> is_identifier(name@),
            r matches Some(id) ==> id@ == name@,
    {
        Identifier::with_rules(name, NameRules::standard())
    }

    /// Validates `name`: a name, or `None` where `name` breaks the naming
    /// rule. `None` is an answer, not a failure: the caller may go on to
    /// read the characters as something else.
    pub fn with_rules(name: &str, rules: NameRules) -> (r: Option<Identifier>)
        ensures
            r is Some <==> is_identifier_under(rules, name@),
            r matches Some(id) ==> id@ == name@,
    {
        match Identifier::check(name, rules) {
            Ok(id) => Some(id),
            Err(_) => None,
        }
    }

    /// Validates `name`, and says why where it is rejected.
    pub fn check(name: &str, rules: NameRules) -> (r: Result<Identifier, Rejection>)
        ensures
            r is Ok <==> is_identifier_under(rules, name@),
            match rejection(rules, name@) {
                Some(why) => r == Err::<Identifier, Rejection>(why),
                None => r matches Ok(id) && id@ == name@,
            },
    {
        let mut first: Option<char> = None;
        for c in it: name.chars()
            invariant
                it.seq() == name@,
                forall|i: int| 0 <= i < it.index() ==> is_name_char(#[trigger] name@[i]),
                match first {
                    Some(f) => it.index() > 0 && f == name@[0],
                    None => it.index() == 0,
                },
        {
            if !name_char(c) {
                proof {
                    lemma_run_end_is(name@, 0, it.index() as int, CharClass::Name);
                }
                return Err(Rejection::Contains(c));
            }
            if first.is_none() {
                first = Some(c);
            }
        }
        proof {
            lemma_run_end_is(name@, 0, name@.len() as int, CharClass::Name);
            lemma_rejection(rules, name@);
        }
        match first {
            None => Err(Rejection::Empty),
            Some(f) => {
                if letter(f) || (rules.leading_underscore && f == '_') {
                    Ok(Identifier { name: String::from_str(name) })
                } else {
                    Err(Rejection::StartsWith(f))
                }
            },
        }
    }

    /// The name, which keeps the naming rule.
    pub fn as_str(&self) -> (r: &str)
        ensures
            r@ == self@,
            is_identifier(r@),
    {
        proof {
            use_type_invariant(self);
        }
        self.name.as_str()
    }
}

/// A type, as written in the source: for now the name of one.
/// Its view is that name.
#[derive(Debug, Clone, PartialEq, Eq)]
pub struct Type {
    iden: Identifier,
}

impl View for Type {
    type V = Seq<char>;

    closed spec fn view(&self) -> Seq<char> {
        self.iden@
    }
}

impl Type {
    pub fn new(iden: Identifier) -> (r: Self)
        ensures
            r@ == iden@,
    {
        Type { iden }
    }

    pub fn iden(&self) -> (r: &Identifier)
        ensures
            r@ == self@,
    {
        &self.iden
    }
}

pub open spec fn all_digits(s: Seq<char>) -> bool {
    forall|i: int| 0 <= i < s.len() ==> is_digit(#[trigger] s[i])
}

/// The form of a number literal: digits, or digits, a point and digits.
pub open spec fn is_number(s: Seq<char>) -> bool {
    ||| s.len() > 0 && all_digits(s)
    ||| exists|p: int|
        0 < p < s.len() - 1 && #[trigger] s[p] == '.' && all_digits(s.subrange(0, p))
            && all_digits(s.subrange(p + 1, s.len() as int))
}

/// A number literal, kept as it was written: digits, or digits, a point
/// and digits. Its view is that text.
#[derive(Debug, PartialEq, Eq)]
pub struct Number {
    text: String,
}

impl View for Number {
    type V = Seq<char>;

    closed spec fn view(&self) -> Seq<char> {
        self.text@
    }
}

impl Clone for Number {
    fn clone(&self) -> (r: Self)
        ensures
            r == *self,
    {
        proof {
            use_type_invariant(self);
        }
        Number { text: self.text.clone() }
    }
}

impl Number {
    #[verifier::type_invariant]
    spec fn valid(self) -> bool {
        is_number(self.text@)
    }

    /// Validates `text` as a number literal.
    pub fn new(text: &str) -> (r: Option<Number>)
        ensures
            r is Some <==> is_number(text@),
            r matches Some(n) ==> n@ == text@,
    {
        // The index of the point, once one was read.
        let ghost mut point: Option<int> = None;
        let mut seen_point = false;
        // Whether the last character read was a digit.
        let mut after_digit = false;
        for c in it: text.chars()
            invariant
                it.seq() == text@,
                seen_point == point is Some,
                point matches Some(p) ==> 0 < p < it.index() && text@[p] == '.' && all_digits(
                    text@.subrange(0, p),
                ) && all_digits(text@.subrange(p + 1, it.index() as int)),
                point is None ==> all_digits(text@.subrange(0, it.index() as int)),
                after_digit == (it.index() > 0 && is_digit(text@[it.index() - 1])),
        {
            let ghost k = it.index() as int;
            if digit(c) {
                after_digit = true;
                proof {
                    match point {
                        Some(p) => {
                            assert forall|i: int| 0 <= i < k + 1 - (p + 1) implies is_digit(
                                #[trigger] text@.subrange(p + 1, k + 1)[i],
                            ) by {
                                if i < k - (p + 1) {
                                    assert(text@.subrange(p + 1, k)[i] == text@[p + 1 + i]);
                                }
                            }
                        },
                        None => {
                            assert forall|i: int| 0 <= i < k + 1 implies is_digit(
                                #[trigger] text@.subrange(0, k + 1)[i],
                            ) by {
                                if i < k {
                                    assert(text@.subrange(0, k)[i] == text@[i]);
                                }
                            }
                        },
                    }
                }
            } else if c == '.' && after_digit && !seen_point {
                seen_point = true;
                after_digit = false;
                proof {
                    point = Some(k);
                }
            } else {
                proof {
                    if c == '.' && k > 0 {
                        // A point here follows a point: what came before
                        // is all digits but for `point`.
                        match point {
                            Some(p) => {
                                if p < k - 1 {
                                    assert(text@.subrange(p + 1, k)[k - 1 - (p + 1)] == text@[k
                                        - 1]);
                                }
                                assert(text@[p] == '.');
                            },
                            None => {
                                assert(text@.subrange(0, k)[k - 1] == text@[k - 1]);
                            },
                        }
                    }
                    lemma_not_number(text@, k);
                }
                return None;
            }
        }
        if !after_digit {
            proof {
                let n = text@.len() as int;
                if n > 0 {
                    lemma_not_number(text@, n - 1);
                }
            }
            return None;
        }
        proof {
            if let Some(p) = point {
                assert(0 < p < text@.len() - 1);
            } else {
                assert(text@.subrange(0, text@.len() as int) == text@);
            }
        }
        Some(Number { text: String::from_str(text) })
    }

    /// The literal, which has the form of a number.
    pub fn as_str(&self) -> (r: &str)
        ensures
            r@ == self@,
            is_number(r@),
    {
        proof {
            use_type_invariant(self);
        }
        self.text.as_str()
    }
}

/// A text is no number literal if the character at `k` cannot stand where
/// it does: it is neither a digit nor a point, or it is a point that is
/// the first or the last character, or that follows another point.
proof fn lemma_not_number(s: Seq<char>, k: int)
    requires
        0 <= k < s.len(),
        !is_digit(s[k]),
        s[k] != '.' || k == 0 || k == s.len() - 1 || exists|q: int|
            0 <= q < k && #[trigger] s[q] == '.',
    ensures
        !is_number(s),
{
    if is_number(s) {
        if s.len() > 0 && all_digits(s) {
            assert(is_digit(s[k]));
        } else {
            let p = choose|p: int|
                0 < p < s.len() - 1 && #[trigger] s[p] == '.' && all_digits(s.subrange(0, p))
                    && all_digits(s.subrange(p + 1, s.len() as int));
            if k < p {
                assert(s.subrange(0, p)[k] == s[k]);
            } else if k > p {
                assert(s.subrange(p + 1, s.len() as int)[k - p - 1] == s[k]);
                assert(false);
            } else {
                let q = choose|q: int| 0 <= q < k && #[trigger] s[q] == '.';
                assert(s.subrange(0, p)[q] == s[q]);
            }
        }
    }
}

/// An expression. Each node owns its children.
#[derive(Debug, PartialEq, Eq)]
pub enum Expr {
    /// A number literal, as it was written: the tree does not round it.
    Num(Number),
    /// A text literal, without its quotes.
    Text(String),
    /// A name that is used.
    Iden(Identifier),
    /// An operator with its left and its right side.
    BinOp(OpCode, Box<Expr>, Box<Expr>),
    Assign(Assignment),
}

/// An assignment. Without `mut` and without a type it can still be a
/// declaration, with an inferred type.
#[derive(Debug, PartialEq, Eq)]
pub struct Assignment {
    pub kw: AssignmentKw,
    pub target: Identifier,
    pub typ: Option<Type>,
    /// The operator of a compound assignment.
    pub op: Option<OpCode>,
    pub value: Box<Expr>,
}

/// A top-level unit of a program.
#[derive(Debug, Clone, PartialEq, Eq)]
pub enum Block {
    Expression(Expr),
    Struct { iden: Identifier, fields: Vec<(Identifier, Type)> },
}

/// A program: its blocks in source order.
#[derive(Debug, Clone, PartialEq, Eq)]
pub struct Ast {
    pub blocks: Vec<Block>,
}

/// A copy of the tree under `e`.
pub fn copy_expr(e: &Expr) -> (r: Expr)
    ensures
        r == *e,
    decreases *e,
{
    match e {
        Expr::Num(n) => Expr::Num(n.clone()),
        Expr::Text(s) => Expr::Text(s.clone()),
        Expr::Iden(x) => Expr::Iden(x.clone()),
        Expr::BinOp(op, l, r) => Expr::BinOp(*op, Box::new(copy_expr(l)), Box::new(copy_expr(r))),
        Expr::Assign(a) => Expr::Assign(
            Assignment {
                kw: a.kw,
                target: a.target.clone(),
                typ: copy_type(&a.typ),
                op: a.op,
                value: Box::new(copy_expr(&a.value)),
            },
        ),
    }
}

fn copy_type(typ: &Option<Type>) -> (r: Option<Type>)
    ensures
        r == *typ,
{
    match typ {
        Some(t) => Some(Type { iden: t.iden.clone() }),
        None => None,
    }
}

impl Clone for Expr {
    fn clone(&self) -> (r: Self)
        ensures
            r == *self,
    {
        copy_expr(self)
    }
}

impl Clone for Assignment {
    fn clone(&self) -> (r: Self)
        ensures
            r == *self,
    {
        Assignment {
            kw: self.kw,
            target: self.target.clone(),
            typ: copy_type(&self.typ),
            op: self.op,
            value: Box::new(copy_expr(&self.value)),
        }
    }
}

/// What an `Expr` holds.
pub enum ExprView {
    Num(Seq<char>),
    Text(Seq<char>),
    Iden(Seq<char>),
    BinOp(OpCode, Box<ExprView>, Box<ExprView>),
    Assign(AssignmentView),
}

/// What an `Assignment` holds.
pub struct AssignmentView {
    pub kw: AssignmentKw,
    pub target: Seq<char>,
    pub typ: Option<Seq<char>>,
    pub op: Option<OpCode>,
    pub value: Box<ExprView>,
}

/// What a `Block` holds.
pub enum BlockView {
    Expression(ExprView),
    Struct { iden: Seq<char>, fields: Seq<(Seq<char>, Seq<char>)> },
}

pub open spec fn type_view(typ: Option<Type>) -> Option<Seq<char>> {
    match typ {
        Some(t) => Some(t@),
        None => None,
    }
}

pub open spec fn expr_view(e: Expr) -> ExprView
    decreases e,
{
    match e {
        Expr::Num(n) => ExprView::Num(n@),
        Expr::Text(s) => ExprView::Text(s@),
        Expr::Iden(x) => ExprView::Iden(x@),
        Expr::BinOp(op, l, r) => ExprView::BinOp(
            op,
            Box::new(expr_view(*l)),
            Box::new(expr_view(*r)),
        ),
        Expr::Assign(a) => ExprView::Assign(
            AssignmentView {
                kw: a.kw,
                target: a.target@,
                typ: type_view(a.typ),
                op: a.op,
                value: Box::new(expr_view(*a.value)),
            },
        ),
    }
}

impl View for Expr {
    type V = ExprView;

    open spec fn view(&self) -> ExprView {
        expr_view(*self)
    }
}

impl View for Assignment {
    type V = AssignmentView;

    open spec fn view(&self) -> AssignmentView {
        AssignmentView {
            kw: self.kw,
            target: self.target@,
            typ: type_view(self.typ),
            op: self.op,
            value: Box::new(expr_view(*self.value)),
        }
    }
}

pub open spec fn field_view(f: (Identifier, Type)) -> (Seq<char>, Seq<char>) {
    (f.0@, f.1@)
}

impl View for Block {
    type V = BlockView;

    open spec fn view(&self) -> BlockView {
        match *self {
            Block::Expression(e) => BlockView::Expression(e@),
            Block::Struct { iden, fields } => BlockView::Struct {
                iden: iden@,
                fields: fields@.map_values(|f: (Identifier, Type)| field_view(f)),
            },
        }
    }
}

impl View for Ast {
    type V = Seq<BlockView>;

    open spec fn view(&self) -> Seq<BlockView> {
        self.blocks@.map_values(|b: Block| b@)
    }
}

} // verus!

//! The parser: tokens to a tree of points and expressions.

use crate::compiler::tokenizer::{
    kind_label, kind_str, name_label, name_str, tokens_view, Kind, Name, Token, TokenV,
};
use crate::text::{chars_of, debug_quote, debug_quoted, decimal, push_decimal, string_of};
use vstd::string::StringExecFns;
use vstd::prelude::*;

verus! {

broadcast use vstd::string::group_string_axioms;

/// A cursor over a list of tokens.
pub struct Tokens<'a> {
    cursor: usize,
    tokens: &'a Vec<Token>,
}

/// The numeric type of a number.
#[derive(Debug, Clone)]
pub enum Number {
    Integer,
    Decimal,
    Boolean,
    I8,
    I16,
    I32,
    I64,
    I128,
    U8,
    U16,
    U32,
    U64,
    U128,
    F32,
    F64,
    F128,
}

/// A parsed tree: points (label, index, whether it returns, value) in
/// graphs, expressions and literals.
#[derive(Debug)]
pub enum AST {
    Nothing,
    Number(Number, String),
    String(String),
    Graph(Vec<AST>),
    Array(Vec<AST>),
    Tuple(Vec<AST>),
    Point(String, u16, bool, Box<AST>),
    Op2(Name, Box<AST>, Box<AST>),
    Op1(Name, Box<AST>),
    Ref(String),
    Arg(Box<AST>),
    Rep(Box<AST>, Box<AST>),
}

/// A tree as a value.
pub enum AstV {
    Nothing,
    Number(Number, Seq<char>),
    String(Seq<char>),
    Graph(Seq<AstV>),
    Array(Seq<AstV>),
    Tuple(Seq<AstV>),
    Point(Seq<char>, u16, bool, Box<AstV>),
    Op2(Name, Box<AstV>, Box<AstV>),
    Op1(Name, Box<AstV>),
    Ref(Seq<char>),
    Arg(Box<AstV>),
    Rep(Box<AstV>, Box<AstV>),
}

pub open spec fn ast_view(a: AST) -> AstV
    decreases a,
{
    match a {
        AST::Nothing => AstV::Nothing,
        AST::Number(n, s) => AstV::Number(n, s@),
        AST::String(s) => AstV::String(s@),
        AST::Graph(v) => AstV::Graph(asts_view(v@)),
        AST::Array(v) => AstV::Array(asts_view(v@)),
        AST::Tuple(v) => AstV::Tuple(asts_view(v@)),
        AST::Point(l, i, r, b) => AstV::Point(l@, i, r, Box::new(ast_view(*b))),
        AST::Op2(n, a, b) => AstV::Op2(n, Box::new(ast_view(*a)), Box::new(ast_view(*b))),
        AST::Op1(n, a) => AstV::Op1(n, Box::new(ast_view(*a))),
        AST::Ref(s) => AstV::Ref(s@),
        AST::Arg(a) => AstV::Arg(Box::new(ast_view(*a))),
        AST::Rep(a, b) => AstV::Rep(Box::new(ast_view(*a)), Box::new(ast_view(*b))),
    }
}

pub open spec fn asts_view(s: Seq<AST>) -> Seq<AstV>
    decreases s,
{
    if s.len() == 0 {
        Seq::empty()
    } else {
        asts_view(s.drop_last()).push(ast_view(s.last()))
    }
}

/// A connection: `:` and what it connects.
pub open spec fn is_connection(a: AstV) -> bool {
    a matches AstV::Op1(n, _) && n == Name::Colon
}

/// How many points a list holds.
pub open spec fn point_count(s: Seq<AstV>) -> nat
    decreases s.len(),
{
    if s.len() == 0 {
        0
    } else {
        point_count(s.drop_last()) + if s.last() is Point {
            1nat
        } else {
            0
        }
    }
}

/// Every item of the list is a connection or a point, and the points are
/// numbered 0, 1, 2, … in order.
pub open spec fn indexed_points(s: Seq<AstV>) -> bool {
    forall|i: int|
        0 <= i < s.len() ==> is_connection(#[trigger] s[i]) || (s[i] matches AstV::Point(_, n, _, _)
            && n == point_count(s.take(i)))
}

/// Every graph in the tree is indexed (see `indexed_points`).
pub open spec fn well_indexed(a: AstV) -> bool
    decreases a,
{
    match a {
        AstV::Graph(v) => indexed_points(v) && all_well_indexed(v),
        AstV::Array(v) => all_well_indexed(v),
        AstV::Tuple(v) => all_well_indexed(v),
        AstV::Point(_, _, _, b) => well_indexed(*b),
        AstV::Op2(_, x, y) => well_indexed(*x) && well_indexed(*y),
        AstV::Op1(_, x) => well_indexed(*x),
        AstV::Arg(x) => well_indexed(*x),
        AstV::Rep(x, y) => well_indexed(*x) && well_indexed(*y),
        _ => true,
    }
}

pub open spec fn all_well_indexed(s: Seq<AstV>) -> bool
    decreases s,
{
    if s.len() == 0 {
        true
    } else {
        all_well_indexed(s.drop_last()) && well_indexed(s.last())
    }
}

proof fn lemma_push_indexed(s: Seq<AstV>, x: AstV)
    ensures
        all_well_indexed(s.push(x)) == (all_well_indexed(s) && well_indexed(x)),
        point_count(s.push(x)) == point_count(s) + if x is Point {
            1nat
        } else {
            0
        },
        indexed_points(s) && (is_connection(x) || (x matches AstV::Point(_, n, _, _) && n
            == point_count(s))) ==> indexed_points(s.push(x)),
{
    assert(s.push(x).drop_last() =~= s);
    if indexed_points(s) && (is_connection(x) || (x matches AstV::Point(_, n, _, _) && n
        == point_count(s))) {
        assert forall|i: int| 0 <= i < s.len() + 1 implies is_connection(#[trigger] s.push(x)[i])
            || (s.push(x)[i] matches AstV::Point(_, n, _, _) && n == point_count(
            s.push(x).take(i),
        )) by {
            if i < s.len() {
                assert(s.push(x).take(i) =~= s.take(i));
                assert(s.push(x)[i] == s[i]);
            } else {
                assert(s.push(x).take(i) =~= s);
            }
        }
    }
}

fn copy_number(n: &Number) -> (r: Number)
    ensures
        r == *n,
{
    match n {
        Number::Integer => Number::Integer,
        Number::Decimal => Number::Decimal,
        Number::Boolean => Number::Boolean,
        Number::I8 => Number::I8,
        Number::I16 => Number::I16,
        Number::I32 => Number::I32,
        Number::I64 => Number::I64,
        Number::I128 => Number::I128,
        Number::U8 => Number::U8,
        Number::U16 => Number::U16,
        Number::U32 => Number::U32,
        Number::U64 => Number::U64,
        Number::U128 => Number::U128,
        Number::F32 => Number::F32,
        Number::F64 => Number::F64,
        Number::F128 => Number::F128,
    }
}

impl AST {
    /// A copy of the tree, equal to it as a value.
    pub fn copy(&self) -> (r: AST)
        ensures
            r@ == self@,
        decreases self,
    {
        match self {
            AST::Nothing => AST::Nothing,
            AST::Number(n, s) => AST::Number(copy_number(n), s.clone()),
            AST::String(s) => AST::String(s.clone()),
            AST::Graph(v) => AST::Graph(copy_list(v)),
            AST::Array(v) => AST::Array(copy_list(v)),
            AST::Tuple(v) => AST::Tuple(copy_list(v)),
            AST::Point(l, i, r, b) => AST::Point(l.clone(), *i, *r, Box::new(b.copy())),
            AST::Op2(n, a, b) => AST::Op2(*n, Box::new(a.copy()), Box::new(b.copy())),
            AST::Op1(n, a) => AST::Op1(*n, Box::new(a.copy())),
            AST::Ref(s) => AST::Ref(s.clone()),
            AST::Arg(a) => AST::Arg(Box::new(a.copy())),
            AST::Rep(a, b) => AST::Rep(Box::new(a.copy()), Box::new(b.copy())),
        }
    }
}

/// A copy of each tree of the list, in order.
fn copy_list(v: &Vec<AST>) -> (r: Vec<AST>)
    ensures
        asts_view(r@) == asts_view(v@),
    decreases v,
{
    let mut r: Vec<AST> = Vec::new();
    let mut k: usize = 0;
    while k < v.len()
        invariant
            k <= v@.len(),
            asts_view(r@) == asts_view(v@.take(k as int)),
        decreases v@.len() - k,
    {
        let item = v[k].copy();
        proof {
            lemma_asts_push(r@, item);
            lemma_asts_push(v@.take(k as int), v@[k as int]);
            assert(v@.take(k as int).push(v@[k as int]) =~= v@.take(k + 1));
        }
        r.push(item);
        k += 1;
    }
    assert(v@.take(k as int) =~= v@);
    r
}

impl Clone for AST {
    fn clone(&self) -> Self {
        self.copy()
    }
}

impl View for AST {
    type V = AstV;

    open spec fn view(&self) -> AstV {
        ast_view(*self)
    }
}

/// How a parse from a position ends: with a value and the position after
/// it, with an error message and the position where the cursor stands after
/// the failure, or where the program would stop (panic).
pub enum Parsed<T> {
    Done(T, int),
    Fail(Seq<char>, int),
    Abort,
}

/// How many tokens are left from `pos` on.
pub open spec fn rest(toks: Seq<TokenV>, pos: int) -> nat {
    if 0 <= pos < toks.len() {
        (toks.len() - pos) as nat
    } else {
        0
    }
}

pub open spec fn tok_is(toks: Seq<TokenV>, pos: int, name: Name) -> bool {
    0 <= pos < toks.len() && toks[pos].name == name
}

pub open spec fn tok_of(toks: Seq<TokenV>, pos: int, kind: Kind) -> bool {
    0 <= pos < toks.len() && toks[pos].kind == kind
}

pub open spec fn tok_any(toks: Seq<TokenV>, pos: int, names: Seq<Name>) -> bool {
    0 <= pos < toks.len() && names.contains(toks[pos].name)
}

/// There is a token at `pos`, and it is none of the stops.
pub open spec fn tok_until(toks: Seq<TokenV>, pos: int, stops: Seq<Name>) -> bool {
    0 <= pos < toks.len() && !stops.contains(toks[pos].name)
}

/// The first position from `pos` on that holds no `Stop` token.
pub open spec fn skip_stops(toks: Seq<TokenV>, pos: int) -> int
    decreases rest(toks, pos),
{
    if tok_of(toks, pos, Kind::Stop) {
        skip_stops(toks, pos + 1)
    } else {
        pos
    }
}

pub proof fn lemma_skip_stops(toks: Seq<TokenV>, pos: int)
    requires
        0 <= pos <= toks.len(),
    ensures
        pos <= skip_stops(toks, pos) <= toks.len(),
        rest(toks, skip_stops(toks, pos)) <= rest(toks, pos),
    decreases rest(toks, pos),
{
    if tok_of(toks, pos, Kind::Stop) {
        lemma_skip_stops(toks, pos + 1);
    }
}

/// "UnexpectedToken: `text` on line `line`".
pub open spec fn unexpected(t: TokenV) -> Seq<char> {
    "UnexpectedToken: "@ + debug_quoted(t.text) + " on line "@ + decimal(t.line)
}

/// The error of a token whose name was not the expected one. The message
/// names the name that the token has.
pub open spec fn name_error(t: TokenV) -> Seq<char> {
    unexpected(t) + "\nExpected token of name: "@ + name_label(t.name)
}

/// The error of a token whose kind was not the expected one. The message
/// names the kind that the token has.
pub open spec fn kind_error(t: TokenV) -> Seq<char> {
    unexpected(t) + "\nExpected token of kind: "@ + kind_label(t.kind)
}

pub open spec fn end_error() -> Seq<char> {
    "UnexpectedEndOfInput"@
}

/// The error of eating a token of the name at `pos`, if it is not there.
pub open spec fn eat_error(toks: Seq<TokenV>, pos: int, name: Name) -> Option<Seq<char>> {
    if 0 <= pos < toks.len() {
        if toks[pos].name == name {
            None
        } else {
            Some(name_error(toks[pos]))
        }
    } else {
        Some(end_error())
    }
}

/// The numeric type that a number token's name stands for.
pub open spec fn number_of(name: Name) -> Number {
    match name {
        Name::Decimal => Number::Decimal,
        Name::Integer => Number::Integer,
        _ => Number::Boolean,
    }
}

pub open spec fn is_number_name(name: Name) -> bool {
    name == Name::Decimal || name == Name::Integer || name == Name::Boolean
}

/// A number or a string. A number token must be named `Integer`, `Decimal`
/// or `Boolean`; with another name the program stops.
pub open spec fn p_literal(toks: Seq<TokenV>, pos: int) -> Parsed<AstV> {
    if 0 <= pos < toks.len() {
        let t = toks[pos];
        if t.kind == Kind::Number {
            if is_number_name(t.name) {
                Parsed::Done(AstV::Number(number_of(t.name), t.text), pos + 1)
            } else {
                Parsed::Abort
            }
        } else if t.kind == Kind::String {
            Parsed::Done(AstV::String(t.text), pos + 1)
        } else {
            Parsed::Fail(unexpected(t), pos)
        }
    } else {
        Parsed::Fail(end_error(), pos)
    }
}

/// Where the cursor stands after eating at `pos`: one token on, unless the
/// tokens have run out.
pub open spec fn after_eat(toks: Seq<TokenV>, pos: int) -> int {
    if 0 <= pos < toks.len() {
        pos + 1
    } else {
        pos
    }
}

/// A reference: a `Ref` token.
pub open spec fn p_reference(toks: Seq<TokenV>, pos: int) -> Parsed<AstV> {
    match eat_error(toks, pos, Name::Ref) {
        Some(m) => Parsed::Fail(m, after_eat(toks, pos)),
        None => Parsed::Done(AstV::Ref(toks[pos].text), pos + 1),
    }
}

/// The operators of the binary levels, from the weakest: `|`, `&`,
/// equality, relations, `+ -`, `* /`, `^`, ranges, selection.
pub open spec fn level_has(toks: Seq<TokenV>, pos: int, level: nat) -> bool {
    if level == 0 {
        tok_is(toks, pos, Name::Or)
    } else if level == 1 {
        tok_is(toks, pos, Name::And)
    } else if level == 2 {
        tok_any(toks, pos, seq![Name::Eq, Name::Ne])
    } else if level == 3 {
        tok_any(toks, pos, seq![Name::Gt, Name::Ge, Name::Lt, Name::Le])
    } else if level == 4 {
        tok_any(toks, pos, seq![Name::Add, Name::Sub])
    } else if level == 5 {
        tok_any(toks, pos, seq![Name::Mul, Name::Div])
    } else if level == 6 {
        tok_is(toks, pos, Name::Exp)
    } else if level == 7 {
        tok_is(toks, pos, Name::Range)
    } else {
        tok_is(toks, pos, Name::Select)
    }
}

pub open spec fn level_rank(level: nat) -> nat {
    if level >= 8 {
        2
    } else {
        (12 - level) as nat
    }
}

/// A binary level: an operand, then any number of operators of the level
/// each with an operand, grouped from the left. The operator must be of
/// kind `Binary` on the equality, relation, additive and multiplicative
/// levels (the last stops the program if it is not).
pub open spec fn p_binary(toks: Seq<TokenV>, pos: int, level: nat) -> Parsed<AstV>
    decreases rest(toks, pos), level_rank(level),
{
    let first = if level < 7 {
        p_binary(toks, pos, level + 1)
    } else if level == 7 {
        p_unary(toks, pos)
    } else {
        p_primary(toks, pos)
    };
    match first {
        Parsed::Done(left, p1) => if rest(toks, p1) <= rest(toks, pos) {
            p_binary_tail(toks, p1, level, left)
        } else {
            Parsed::Abort
        },
        Parsed::Fail(m, q) => Parsed::Fail(m, q),
        Parsed::Abort => Parsed::Abort,
    }
}

/// The operators of a binary level after the `left` operand.
pub open spec fn p_binary_tail(toks: Seq<TokenV>, pos: int, level: nat, left: AstV) -> Parsed<AstV>
    decreases rest(toks, pos), 0nat,
{
    if level_has(toks, pos, level) {
        let t = toks[pos];
        if 2 <= level <= 5 && t.kind != Kind::Binary {
            if level == 5 {
                Parsed::Abort
            } else {
                Parsed::Fail(kind_error(t), pos + 1)
            }
        } else {
            let right = if level < 7 {
                p_binary(toks, pos + 1, level + 1)
            } else if level == 7 {
                p_unary(toks, pos + 1)
            } else {
                p_primary(toks, pos + 1)
            };
            match right {
                Parsed::Done(r, p2) => if rest(toks, p2) < rest(toks, pos) {
                    p_binary_tail(
                        toks,
                        p2,
                        level,
                        AstV::Op2(t.name, Box::new(left), Box::new(r)),
                    )
                } else {
                    Parsed::Abort
                },
                Parsed::Fail(m, q) => Parsed::Fail(m, q),
                Parsed::Abort => Parsed::Abort,
            }
        }
    } else {
        Parsed::Done(left, pos)
    }
}

/// The prefix operators.
pub open spec fn unary_names() -> Seq<Name> {
    seq![
        Name::Add,
        Name::Sub,
        Name::Not,
        Name::Range,
        Name::Colon,
        Name::Gt,
        Name::Lt,
        Name::Length,
    ]
}

/// Any number of prefix operators before a replicate-or-select.
pub open spec fn p_unary(toks: Seq<TokenV>, pos: int) -> Parsed<AstV>
    decreases rest(toks, pos), 4nat,
{
    if tok_any(toks, pos, unary_names()) {
        match p_unary(toks, pos + 1) {
            Parsed::Done(e, p1) => Parsed::Done(
                AstV::Op1(toks[pos].name, Box::new(e)),
                p1,
            ),
            Parsed::Fail(m, q) => Parsed::Fail(m, q),
            Parsed::Abort => Parsed::Abort,
        }
    } else {
        p_replicate(toks, pos)
    }
}

/// A selection, and if an opening bracket follows, an expression that it
/// replicates.
pub open spec fn p_replicate(toks: Seq<TokenV>, pos: int) -> Parsed<AstV>
    decreases rest(toks, pos), 3nat,
{
    match p_binary(toks, pos, 8) {
        Parsed::Done(r, p1) => if tok_any(
            toks,
            p1,
            seq![Name::ParenLF, Name::SquarenLF, Name::BracketLF],
        ) {
            if rest(toks, p1) < rest(toks, pos) {
                match p_expression(toks, p1) {
                    Parsed::Done(e, p2) => Parsed::Done(
                        AstV::Rep(Box::new(r), Box::new(e)),
                        p2,
                    ),
                    Parsed::Fail(m, q) => Parsed::Fail(m, q),
                    Parsed::Abort => Parsed::Abort,
                }
            } else {
                Parsed::Abort
            }
        } else {
            Parsed::Done(r, p1)
        },
        Parsed::Fail(m, q) => Parsed::Fail(m, q),
        Parsed::Abort => Parsed::Abort,
    }
}

/// A parenthesized expression, an array, a graph, a reference or a literal,
/// by the name of the token at `pos`.
pub open spec fn p_primary(toks: Seq<TokenV>, pos: int) -> Parsed<AstV>
    decreases rest(toks, pos), 1nat,
{
    if 0 <= pos < toks.len() {
        let name = toks[pos].name;
        if name == Name::ParenLF {
            p_paren(toks, pos)
        } else if name == Name::SquarenLF {
            p_array(toks, pos)
        } else if name == Name::BracketLF {
            p_graph(toks, pos)
        } else if name == Name::Ref {
            p_reference(toks, pos)
        } else {
            p_literal(toks, pos)
        }
    } else {
        p_literal(toks, pos)
    }
}

/// `( expression )`.
pub open spec fn p_paren(toks: Seq<TokenV>, pos: int) -> Parsed<AstV>
    decreases rest(toks, pos), 0nat,
{
    match eat_error(toks, pos, Name::ParenLF) {
        Some(m) => Parsed::Fail(m, after_eat(toks, pos)),
        None => match p_expression(toks, pos + 1) {
            Parsed::Done(e, p1) => match eat_error(toks, p1, Name::ParenRT) {
                Some(m) => Parsed::Fail(m, after_eat(toks, p1)),
                None => Parsed::Done(e, p1 + 1),
            },
            Parsed::Fail(m, q) => Parsed::Fail(m, q),
            Parsed::Abort => Parsed::Abort,
        },
    }
}

/// `[ expressions ]`.
pub open spec fn p_array(toks: Seq<TokenV>, pos: int) -> Parsed<AstV>
    decreases rest(toks, pos), 0nat,
{
    match eat_error(toks, pos, Name::SquarenLF) {
        Some(m) => Parsed::Fail(m, after_eat(toks, pos)),
        None => match p_exp_list(toks, pos + 1, seq![Name::SquarenRT]) {
            Parsed::Done(es, p1) => match eat_error(toks, p1, Name::SquarenRT) {
                Some(m) => Parsed::Fail(m, after_eat(toks, p1)),
                None => Parsed::Done(AstV::Array(es), p1 + 1),
            },
            Parsed::Fail(m, q) => Parsed::Fail(m, q),
            Parsed::Abort => Parsed::Abort,
        },
    }
}

/// `{ points }`.
pub open spec fn p_graph(toks: Seq<TokenV>, pos: int) -> Parsed<AstV>
    decreases rest(toks, pos), 0nat,
{
    match eat_error(toks, pos, Name::BracketLF) {
        Some(m) => Parsed::Fail(m, after_eat(toks, pos)),
        None => match p_point_list(toks, pos + 1, seq![Name::BracketRT]) {
            Parsed::Done(ps, p1) => match eat_error(toks, p1, Name::BracketRT) {
                Some(m) => Parsed::Fail(m, after_eat(toks, p1)),
                None => Parsed::Done(AstV::Graph(ps), p1 + 1),
            },
            Parsed::Fail(m, q) => Parsed::Fail(m, q),
            Parsed::Abort => Parsed::Abort,
        },
    }
}

/// Arrays, tuples, graphs and replications: what a pattern can match.
pub open spec fn is_replicant(a: AstV) -> bool {
    a is Array || a is Tuple || a is Graph || a is Rep
}

/// An or-expression, and if it is a replicant and `~` follows, the pattern
/// that it is matched against.
pub open spec fn p_pattern(toks: Seq<TokenV>, pos: int) -> Parsed<AstV>
    decreases rest(toks, pos), 13nat,
{
    match p_binary(toks, pos, 0) {
        Parsed::Done(left, p1) => if is_replicant(left) && tok_is(toks, p1, Name::Pattern) {
            if rest(toks, p1) <= rest(toks, pos) {
                match p_binary(toks, p1 + 1, 0) {
                    Parsed::Done(right, p2) => Parsed::Done(
                        AstV::Op2(Name::Pattern, Box::new(left), Box::new(right)),
                        p2,
                    ),
                    Parsed::Fail(m, q) => Parsed::Fail(m, q),
                    Parsed::Abort => Parsed::Abort,
                }
            } else {
                Parsed::Abort
            }
        } else {
            Parsed::Done(left, p1)
        },
        Parsed::Fail(m, q) => Parsed::Fail(m, q),
        Parsed::Abort => Parsed::Abort,
    }
}

pub open spec fn p_expression(toks: Seq<TokenV>, pos: int) -> Parsed<AstV>
    decreases rest(toks, pos), 14nat,
{
    p_pattern(toks, pos)
}

/// Expressions up to a stop, each followed by any `Stop` tokens.
pub open spec fn p_exp_list(toks: Seq<TokenV>, pos: int, stops: Seq<Name>) -> Parsed<Seq<AstV>>
    decreases rest(toks, pos), 16nat,
{
    if 0 <= pos <= toks.len() {
        proof {
            lemma_skip_stops(toks, pos);
        }
        p_exp_items(toks, skip_stops(toks, pos), stops, Seq::empty())
    } else {
        Parsed::Done(Seq::empty(), pos)
    }
}

pub open spec fn p_exp_items(
    toks: Seq<TokenV>,
    pos: int,
    stops: Seq<Name>,
    acc: Seq<AstV>,
) -> Parsed<Seq<AstV>>
    decreases rest(toks, pos), 15nat,
{
    if tok_until(toks, pos, stops) {
        match p_expression(toks, pos) {
            Parsed::Done(e, p1) => {
                let p2 = skip_stops(toks, p1);
                if rest(toks, p2) < rest(toks, pos) {
                    p_exp_items(toks, p2, stops, acc.push(e))
                } else {
                    Parsed::Abort
                }
            },
            Parsed::Fail(m, q) => Parsed::Fail(m, q),
            Parsed::Abort => Parsed::Abort,
        }
    } else {
        Parsed::Done(acc, pos)
    }
}

/// Points up to a stop. Each point that is no connection gets the next
/// index, from 0; the program stops when the indexes run out.
pub open spec fn p_point_list(toks: Seq<TokenV>, pos: int, stops: Seq<Name>) -> Parsed<Seq<AstV>>
    decreases rest(toks, pos), 18nat,
{
    if 0 <= pos <= toks.len() {
        proof {
            lemma_skip_stops(toks, pos);
        }
        p_points(toks, skip_stops(toks, pos), stops, 0, Seq::empty())
    } else {
        Parsed::Done(Seq::empty(), pos)
    }
}

pub open spec fn p_points(
    toks: Seq<TokenV>,
    pos: int,
    stops: Seq<Name>,
    index: u16,
    acc: Seq<AstV>,
) -> Parsed<Seq<AstV>>
    decreases rest(toks, pos), 17nat,
{
    if tok_until(toks, pos, stops) {
        match p_point(toks, pos, index) {
            Parsed::Done((a, is_point), p1) => if is_point && index == u16::MAX {
                Parsed::Abort
            } else {
                let p2 = skip_stops(toks, p1);
                if rest(toks, p2) < rest(toks, pos) {
                    p_points(
                        toks,
                        p2,
                        stops,
                        if is_point {
                            (index + 1) as u16
                        } else {
                            index
                        },
                        acc.push(a),
                    )
                } else {
                    Parsed::Abort
                }
            },
            Parsed::Fail(m, q) => Parsed::Fail(m, q),
            Parsed::Abort => Parsed::Abort,
        }
    } else {
        Parsed::Done(acc, pos)
    }
}

/// A point: either a connection (`:` and what it connects, no index), or
/// an optional `->` (a return), an optional key (its label: the key's text
/// without the closing `:`, which must be an ASCII character or the program
/// stops), and an expression, which is `Nothing` where another key follows.
pub open spec fn p_point(toks: Seq<TokenV>, pos: int, index: u16) -> Parsed<(AstV, bool)>
    decreases rest(toks, pos), 16nat,
{
    if 0 <= pos <= toks.len() {
        proof {
            lemma_skip_stops(toks, pos);
        }
        let p0 = skip_stops(toks, pos);
        if tok_is(toks, p0, Name::Colon) {
            match p_unary(toks, p0) {
                Parsed::Done(c, p1) => Parsed::Done((c, false), skip_stops(toks, p1)),
                Parsed::Fail(m, q) => Parsed::Fail(m, q),
                Parsed::Abort => Parsed::Abort,
            }
        } else {
            let is_return = tok_is(toks, p0, Name::Arrow);
            let p1 = if is_return {
                p0 + 1
            } else {
                p0
            };
            let has_key = tok_is(toks, p1, Name::Key);
            let p2 = if has_key {
                p1 + 1
            } else {
                p1
            };
            let text = toks[p1].text;
            if has_key && (text.len() == 0 || (text.last() as u32) >= 128) {
                Parsed::Abort
            } else {
                let label = if has_key {
                    text.drop_last()
                } else {
                    Seq::empty()
                };
                p_point_value(toks, p2, index, is_return, label)
            }
        }
    } else {
        Parsed::Fail(end_error(), pos)
    }
}

/// The value of a point after its arrow and key: `Nothing` where another
/// key follows, else an expression and any `Stop` tokens after it.
pub open spec fn p_point_value(
    toks: Seq<TokenV>,
    pos: int,
    index: u16,
    is_return: bool,
    label: Seq<char>,
) -> Parsed<(AstV, bool)>
    decreases rest(toks, pos), 15nat,
{
    if tok_is(toks, pos, Name::Key) {
        Parsed::Done((AstV::Point(label, index, is_return, Box::new(AstV::Nothing)), true), pos)
    } else {
        match p_expression(toks, pos) {
            Parsed::Done(e, p1) => Parsed::Done(
                (AstV::Point(label, index, is_return, Box::new(e)), true),
                skip_stops(toks, p1),
            ),
            Parsed::Fail(m, q) => Parsed::Fail(m, q),
            Parsed::Abort => Parsed::Abort,
        }
    }
}

/// The program: the point "Program", index 0, no return, holding the graph
/// of all the points of the tokens.
pub open spec fn p_program(toks: Seq<TokenV>) -> Parsed<AstV> {
    match p_point_list(toks, 0, Seq::empty()) {
        Parsed::Done(ps, p) => Parsed::Done(
            AstV::Point("Program"@, 0, false, Box::new(AstV::Graph(ps))),
            p,
        ),
        Parsed::Fail(m, q) => Parsed::Fail(m, q),
        Parsed::Abort => Parsed::Abort,
    }
}

/// Why a parse stopped early: an error to report, or a point where the
/// program halts.
enum Fault {
    Message(String),
    Halt,
}

spec fn agrees(r: Result<AST, Fault>, cursor: usize, expected: Parsed<AstV>) -> bool {
    match expected {
        Parsed::Done(v, p) => r matches Ok(a) && a@ == v && cursor == p,
        Parsed::Fail(m, q) => r matches Err(Fault::Message(e)) && e@ == m && cursor == q,
        Parsed::Abort => r matches Err(Fault::Halt),
    }
}

spec fn agrees_list(
    r: Result<Vec<AST>, Fault>,
    cursor: usize,
    expected: Parsed<Seq<AstV>>,
) -> bool {
    match expected {
        Parsed::Done(v, p) => r matches Ok(a) && asts_view(a@) == v && cursor == p,
        Parsed::Fail(m, q) => r matches Err(Fault::Message(e)) && e@ == m && cursor == q,
        Parsed::Abort => r matches Err(Fault::Halt),
    }
}

spec fn agrees_point(
    r: Result<(AST, bool), Fault>,
    cursor: usize,
    expected: Parsed<(AstV, bool)>,
) -> bool {
    match expected {
        Parsed::Done(v, p) => r matches Ok(a) && a.0@ == v.0 && a.1 == v.1 && cursor == p,
        Parsed::Fail(m, q) => r matches Err(Fault::Message(e)) && e@ == m && cursor == q,
        Parsed::Abort => r matches Err(Fault::Halt),
    }
}

proof fn lemma_asts_push(v: Seq<AST>, a: AST)
    ensures
        asts_view(v.push(a)) == asts_view(v).push(a@),
{
    assert(v.push(a).drop_last() =~= v);
}

/// The error of eating a token of the kind at `pos`, if it is not there.
pub open spec fn eat_of_error(toks: Seq<TokenV>, pos: int, kind: Kind) -> Option<Seq<char>> {
    if 0 <= pos < toks.len() {
        if toks[pos].kind == kind {
            None
        } else {
            Some(kind_error(toks[pos]))
        }
    } else {
        Some(end_error())
    }
}

/// The error of eating a token of one of the names at `pos`, if it is not
/// there.
pub open spec fn eats_error(toks: Seq<TokenV>, pos: int, names: Seq<Name>) -> Option<Seq<char>> {
    if 0 <= pos < toks.len() {
        if names.contains(toks[pos].name) {
            None
        } else {
            Some(name_error(toks[pos]))
        }
    } else {
        Some(end_error())
    }
}

fn unexpected_message(t: &Token) -> (m: String)
    ensures
        m@ == unexpected(t@),
{
    let mut m = "UnexpectedToken: ".to_string();
    let quoted = debug_quote(t.meta.text.as_str());
    m.append(quoted.as_str());
    m.append(" on line ");
    push_decimal(&mut m, t.meta.line as u64);
    m
}

fn name_message(t: &Token) -> (m: String)
    ensures
        m@ == name_error(t@),
{
    let mut m = unexpected_message(t);
    m.append("\nExpected token of name: ");
    m.append(name_str(t.of.name));
    m
}

fn kind_message(t: &Token) -> (m: String)
    ensures
        m@ == kind_error(t@),
{
    let mut m = unexpected_message(t);
    m.append("\nExpected token of kind: ");
    m.append(kind_str(t.of.kind));
    m
}

fn end_message() -> (m: String)
    ensures
        m@ == end_error(),
{
    "UnexpectedEndOfInput".to_string()
}

fn name_to_number(name: Name) -> (n: Number)
    requires
        is_number_name(name),
    ensures
        n == number_of(name),
{
    match name {
        Name::Decimal => Number::Decimal,
        Name::Integer => Number::Integer,
        _ => Number::Boolean,
    }
}

impl<'a> Tokens<'a> {
    /// The tokens, as values.
    spec fn toks(&self) -> Seq<TokenV> {
        tokens_view(self.tokens@)
    }

    /// The position of the cursor.
    spec fn pos(&self) -> int {
        self.cursor as int
    }

    spec fn wf(&self) -> bool {
        self.cursor <= self.tokens@.len() <= usize::MAX
    }

    /// The cursor only moves on, over the same tokens, and stays within them.
    spec fn moved(&self, after: &Self) -> bool {
        &&& after.tokens == self.tokens
        &&& self.cursor <= after.cursor <= after.tokens@.len() <= usize::MAX
    }

    fn get(&self, offset: usize) -> (r: Option<&'a Token>)
        requires
            self.cursor + offset <= usize::MAX,
        ensures
            match r {
                Some(t) => self.cursor + offset < self.tokens@.len()
                    && *t == self.tokens@[self.cursor + offset],
                None => self.cursor + offset >= self.tokens@.len(),
            },
            self.tokens@.len() <= usize::MAX,
    {
        let toks: &'a Vec<Token> = self.tokens;
        if self.cursor + offset < toks.len() {
            Some(&toks[self.cursor + offset])
        } else {
            None
        }
    }

    fn is(&self, offset: usize, stop: Name) -> (b: bool)
        requires
            self.cursor + offset <= usize::MAX,
        ensures
            b == tok_is(self.toks(), self.cursor + offset, stop),
    {
        match self.get(offset) {
            Some(t) => t.of.name == stop,
            None => false,
        }
    }

    fn of(&self, offset: usize, stop: Kind) -> (b: bool)
        requires
            self.cursor + offset <= usize::MAX,
        ensures
            b == tok_of(self.toks(), self.cursor + offset, stop),
            self.tokens@.len() <= usize::MAX,
    {
        match self.get(offset) {
            Some(t) => t.of.kind == stop,
            None => false,
        }
    }

    fn any(&self, offset: usize, names: &[Name]) -> (b: bool)
        requires
            self.cursor + offset <= usize::MAX,
        ensures
            b == tok_any(self.toks(), self.cursor + offset, names@),
    {
        let mut k: usize = 0;
        while k < names.len()
            invariant
                k <= names@.len(),
                self.cursor + offset <= usize::MAX,
                forall|j: int| 0 <= j < k ==> !tok_is(self.toks(), self.cursor + offset, names@[j]),
            decreases names@.len() - k,
        {
            if self.is(offset, names[k]) {
                assert(names@[k as int] == self.tokens@[self.cursor + offset].of.name);
                return true;
            }
            k += 1;
        }
        proof {
            if tok_any(self.toks(), self.cursor + offset, names@) {
                let name = self.tokens@[self.cursor + offset].of.name;
                let j = choose|j: int| 0 <= j < names@.len() && names@[j] == name;
                assert(tok_is(self.toks(), self.cursor + offset, names@[j]));
            }
        }
        false
    }

    fn until(&self, offset: usize, stops: &[Name]) -> (b: bool)
        requires
            self.cursor + offset <= usize::MAX,
        ensures
            b == tok_until(self.toks(), self.cursor + offset, stops@),
    {
        match self.get(offset) {
            Some(t) => {
                let mut k: usize = 0;
                while k < stops.len()
                    invariant
                        k <= stops@.len(),
                        self.cursor + offset < self.tokens@.len(),
                        *t == self.tokens@[self.cursor + offset],
                        forall|j: int| 0 <= j < k ==> stops@[j] != t.of.name,
                    decreases stops@.len() - k,
                {
                    if t.of.name == stops[k] {
                        assert(stops@[k as int] == t.of.name);
                        assert(stops@.contains(t.of.name));
                        return false;
                    }
                    k += 1;
                }
                true
            },
            None => false,
        }
    }

    fn clear_stops(&mut self)
        requires
            old(self).cursor <= old(self).tokens@.len(),
        ensures
            old(self).moved(final(self)),
            final(self).cursor == skip_stops(old(self).toks(), old(self).pos()),
    {
        let ghost start = self.cursor as int;
        assert(self.tokens@.len() == self.tokens.len());
        while self.of(0, Kind::Stop)
            invariant
                self.tokens == old(self).tokens,
                start <= self.cursor <= self.tokens@.len() <= usize::MAX,
                skip_stops(self.toks(), self.pos()) == skip_stops(self.toks(), start),
            decreases self.tokens@.len() - self.cursor,
        {
            self.cursor = self.cursor + 1;
        }
    }

    fn eat(&mut self, name: Name) -> (r: Result<&'a Token, Fault>)
        requires
            old(self).cursor <= old(self).tokens@.len(),
        ensures
            old(self).moved(final(self)),
            final(self).cursor == if old(self).cursor < old(self).tokens@.len() {
                old(self).cursor + 1
            } else {
                old(self).cursor as int
            },
            match eat_error(old(self).toks(), old(self).pos(), name) {
                None => r matches Ok(t) && *t == old(self).tokens@[old(self).cursor as int],
                Some(m) => r matches Err(Fault::Message(e)) && e@ == m,
            },
    {
        match self.get(0) {
            Some(t) => {
                self.cursor = self.cursor + 1;
                if t.of.name == name {
                    Ok(t)
                } else {
                    Err(Fault::Message(name_message(t)))
                }
            },
            None => Err(Fault::Message(end_message())),
        }
    }

    fn eat_of(&mut self, kind: Kind) -> (r: Result<&'a Token, Fault>)
        requires
            old(self).cursor <= old(self).tokens@.len(),
        ensures
            old(self).moved(final(self)),
            final(self).cursor == if old(self).cursor < old(self).tokens@.len() {
                old(self).cursor + 1
            } else {
                old(self).cursor as int
            },
            match eat_of_error(old(self).toks(), old(self).pos(), kind) {
                None => r matches Ok(t) && *t == old(self).tokens@[old(self).cursor as int],
                Some(m) => r matches Err(Fault::Message(e)) && e@ == m,
            },
    {
        match self.get(0) {
            Some(t) => {
                self.cursor = self.cursor + 1;
                if t.of.kind == kind {
                    Ok(t)
                } else {
                    Err(Fault::Message(kind_message(t)))
                }
            },
            None => Err(Fault::Message(end_message())),
        }
    }

    fn eats(&mut self, names: &[Name]) -> (r: Result<&'a Token, Fault>)
        requires
            old(self).cursor <= old(self).tokens@.len(),
        ensures
            old(self).moved(final(self)),
            final(self).cursor == if old(self).cursor < old(self).tokens@.len() {
                old(self).cursor + 1
            } else {
                old(self).cursor as int
            },
            match eats_error(old(self).toks(), old(self).pos(), names@) {
                None => r matches Ok(t) && *t == old(self).tokens@[old(self).cursor as int],
                Some(m) => r matches Err(Fault::Message(e)) && e@ == m,
            },
    {
        match self.get(0) {
            Some(t) => {
                let ret = if self.any(0, names) {
                    Ok(t)
                } else {
                    Err(Fault::Message(name_message(t)))
                };
                self.cursor = self.cursor + 1;
                ret
            },
            None => Err(Fault::Message(end_message())),
        }
    }
}

impl<'a> Tokens<'a> {
    fn program(&mut self) -> (r: Result<AST, Fault>)
        requires
            old(self).wf(),
            old(self).cursor == 0,
        ensures
            old(self).moved(final(self)),
            r matches Ok(a) ==> well_indexed(a@),
            r is Ok ==> final(self).cursor == final(self).tokens@.len(),
            agrees(r, final(self).cursor, p_program(old(self).toks())),
    {
        let stops: &[Name] = &[];
        assert(stops@ =~= Seq::<Name>::empty());
        let points = self.point_list(stops)?;
        let graph = AST::Graph(points);
        assert(graph@ == AstV::Graph(asts_view(points@)));
        assert(well_indexed(graph@));
        Ok(AST::Point("Program".to_string(), 0, false, Box::new(graph)))
    }

    fn point_list(&mut self, stops: &[Name]) -> (r: Result<Vec<AST>, Fault>)
        requires
            old(self).wf(),
        ensures
            old(self).moved(final(self)),
            r matches Ok(v) ==> indexed_points(asts_view(v@)),
            r matches Ok(v) ==> all_well_indexed(asts_view(v@)),
            r is Ok && stops@.len() == 0 ==> final(self).cursor == final(self).tokens@.len(),
            agrees_list(
                r,
                final(self).cursor,
                p_point_list(old(self).toks(), old(self).pos(), stops@),
            ),
        decreases rest(old(self).toks(), old(self).pos()), 18nat,
    {
        let ghost toks = tokens_view(self.tokens@);
        let ghost start = self.cursor as int;
        let mut points: Vec<AST> = Vec::new();
        proof {
            lemma_skip_stops(toks, start);
        }
        self.clear_stops();
        let mut index: u16 = 0;
        while self.until(0, stops)
            invariant
                old(self).moved(self),
                self.tokens == old(self).tokens,
                toks == tokens_view(old(self).tokens@),
                start == old(self).cursor,
                all_well_indexed(asts_view(points@)),
                indexed_points(asts_view(points@)),
                index == point_count(asts_view(points@)),
                p_points(toks, self.pos(), stops@, index, asts_view(points@))
                    == p_point_list(toks, start, stops@),
            decreases self.tokens@.len() - self.cursor,
        {
            let (ast, ispoint) = self.point(index)?;
            if ispoint && index == u16::MAX {
                return Err(Fault::Halt);
            }
            index += if ispoint {
                1
            } else {
                0
            };
            proof {
                lemma_asts_push(points@, ast);
                lemma_push_indexed(asts_view(points@), ast@);
                lemma_skip_stops(toks, self.cursor as int);
            }
            points.push(ast);
            self.clear_stops();
        }
        Ok(points)
    }

    fn point(&mut self, index: u16) -> (r: Result<(AST, bool), Fault>)
        requires
            old(self).wf(),
        ensures
            old(self).moved(final(self)),
            r is Ok ==> final(self).cursor > old(self).cursor,
            r matches Ok(p) ==> well_indexed(p.0@) && if p.1 {
                p.0@ matches AstV::Point(_, i, _, _) && i == index
            } else {
                is_connection(p.0@)
            },
            agrees_point(r, final(self).cursor, p_point(old(self).toks(), old(self).pos(), index)),
        decreases rest(old(self).toks(), old(self).pos()), 16nat,
    {
        let ghost toks = tokens_view(self.tokens@);
        proof {
            lemma_skip_stops(toks, self.cursor as int);
        }
        self.clear_stops();
        if self.is(0, Name::Colon) {
            let connection = self.unary_exp()?;
            proof {
                lemma_skip_stops(toks, self.cursor as int);
            }
            self.clear_stops();
            return Ok((connection, false));
        }
        let isreturn = self.is(0, Name::Arrow);
        if isreturn {
            self.eat(Name::Arrow)?;
        }
        let ghost p1 = self.cursor as int;
        let label = if self.is(0, Name::Key) {
            let text = &self.eat(Name::Key)?.meta.text;
            let cs = chars_of(text.as_str());
            if cs.len() == 0 || (cs[cs.len() - 1] as u32) >= 128 {
                return Err(Fault::Halt);
            }
            let label = string_of(&cs, 0, cs.len() - 1);
            assert(label@ =~= toks[p1].text.drop_last());
            label
        } else {
            String::new()
        };
        self.point_value(index, isreturn, label)
    }

    fn point_value(&mut self, index: u16, isreturn: bool, label: String) -> (r: Result<
        (AST, bool),
        Fault,
    >)
        requires
            old(self).wf(),
        ensures
            old(self).moved(final(self)),
            r is Ok && !tok_is(old(self).toks(), old(self).pos(), Name::Key)
                ==> final(self).cursor > old(self).cursor,
            r matches Ok(p) ==> well_indexed(p.0@) && p.1 && (p.0@ matches AstV::Point(_, i, _, _)
                && i == index),
            agrees_point(
                r,
                final(self).cursor,
                p_point_value(
                    tokens_view(old(self).tokens@),
                    old(self).cursor as int,
                    index,
                    isreturn,
                    label@,
                ),
            ),
        decreases rest(old(self).toks(), old(self).pos()), 15nat,
    {
        let ghost toks = tokens_view(self.tokens@);
        let expression = if self.is(0, Name::Key) {
            let nothing = AST::Nothing;
            assert(nothing@ == AstV::Nothing);
            nothing
        } else {
            let x = self.expression()?;
            proof {
                lemma_skip_stops(toks, self.cursor as int);
            }
            self.clear_stops();
            x
        };
        assert(well_indexed(expression@));
        let ghost label_view = label@;
        let point = AST::Point(label, index, isreturn, Box::new(expression));
        assert(point@ == AstV::Point(label_view, index, isreturn, Box::new(expression@)));
        assert(well_indexed(point@));
        Ok((point, true))
    }

    fn expression(&mut self) -> (r: Result<AST, Fault>)
        requires
            old(self).wf(),
        ensures
            old(self).moved(final(self)),
            r is Ok ==> final(self).cursor > old(self).cursor,
            r matches Ok(a) ==> well_indexed(a@),
            agrees(r, final(self).cursor, p_expression(old(self).toks(), old(self).pos())),
        decreases rest(old(self).toks(), old(self).pos()), 14nat,
    {
        self.pattern_exp()
    }

    fn pattern_exp(&mut self) -> (r: Result<AST, Fault>)
        requires
            old(self).wf(),
        ensures
            old(self).moved(final(self)),
            r is Ok ==> final(self).cursor > old(self).cursor,
            r matches Ok(a) ==> well_indexed(a@),
            agrees(r, final(self).cursor, p_pattern(old(self).toks(), old(self).pos())),
        decreases rest(old(self).toks(), old(self).pos()), 13nat,
    {
        let mut left = self.or_exp()?;
        match left {
            AST::Array(_) | AST::Tuple(_) | AST::Graph(_) | AST::Rep(_, _) => {
                if self.is(0, Name::Pattern) {
                    self.eat(Name::Pattern)?;
                    let right = self.or_exp()?;
                    left = AST::Op2(Name::Pattern, Box::new(left), Box::new(right));
                }
            },
            _ => {},
        }
        Ok(left)
    }

    fn or_exp(&mut self) -> (r: Result<AST, Fault>)
        requires
            old(self).wf(),
        ensures
            old(self).moved(final(self)),
            r is Ok ==> final(self).cursor > old(self).cursor,
            r matches Ok(a) ==> well_indexed(a@),
            agrees(r, final(self).cursor, p_binary(old(self).toks(), old(self).pos(), 0)),
        decreases rest(old(self).toks(), old(self).pos()), 12nat,
    {
        let ghost toks = tokens_view(self.tokens@);
        let ghost start = self.cursor as int;
        let mut left = self.and_exp()?;
        while self.is(0, Name::Or)
            invariant
                old(self).moved(self),
                self.tokens == old(self).tokens,
                toks == tokens_view(old(self).tokens@),
                start == old(self).cursor,
                start < self.cursor,
                well_indexed(left@),
                p_binary_tail(toks, self.cursor as int, 0, left@) == p_binary(toks, start, 0),
            decreases self.tokens@.len() - self.cursor,
        {
            self.eat(Name::Or)?;
            let right = self.and_exp()?;
            left = AST::Op2(Name::Or, Box::new(left), Box::new(right));
        }
        Ok(left)
    }

    fn and_exp(&mut self) -> (r: Result<AST, Fault>)
        requires
            old(self).wf(),
        ensures
            old(self).moved(final(self)),
            r is Ok ==> final(self).cursor > old(self).cursor,
            r matches Ok(a) ==> well_indexed(a@),
            agrees(r, final(self).cursor, p_binary(old(self).toks(), old(self).pos(), 1)),
        decreases rest(old(self).toks(), old(self).pos()), 11nat,
    {
        let ghost toks = tokens_view(self.tokens@);
        let ghost start = self.cursor as int;
        let mut left = self.equality_exp()?;
        while self.is(0, Name::And)
            invariant
                old(self).moved(self),
                self.tokens == old(self).tokens,
                toks == tokens_view(old(self).tokens@),
                start == old(self).cursor,
                start < self.cursor,
                well_indexed(left@),
                p_binary_tail(toks, self.cursor as int, 1, left@) == p_binary(toks, start, 1),
            decreases self.tokens@.len() - self.cursor,
        {
            self.eat(Name::And)?;
            let right = self.equality_exp()?;
            left = AST::Op2(Name::And, Box::new(left), Box::new(right));
        }
        Ok(left)
    }

    fn equality_exp(&mut self) -> (r: Result<AST, Fault>)
        requires
            old(self).wf(),
        ensures
            old(self).moved(final(self)),
            r is Ok ==> final(self).cursor > old(self).cursor,
            r matches Ok(a) ==> well_indexed(a@),
            agrees(r, final(self).cursor, p_binary(old(self).toks(), old(self).pos(), 2)),
        decreases rest(old(self).toks(), old(self).pos()), 10nat,
    {
        let ghost toks = tokens_view(self.tokens@);
        let ghost start = self.cursor as int;
        let mut left = self.relation_exp()?;
        while self.any(0, &[Name::Eq, Name::Ne])
            invariant
                old(self).moved(self),
                self.tokens == old(self).tokens,
                toks == tokens_view(old(self).tokens@),
                start == old(self).cursor,
                start < self.cursor,
                well_indexed(left@),
                p_binary_tail(toks, self.cursor as int, 2, left@) == p_binary(toks, start, 2),
            decreases self.tokens@.len() - self.cursor,
        {
            let t = self.eat_of(Kind::Binary)?;
            let right = self.relation_exp()?;
            left = AST::Op2(t.of.name, Box::new(left), Box::new(right));
        }
        Ok(left)
    }

    fn relation_exp(&mut self) -> (r: Result<AST, Fault>)
        requires
            old(self).wf(),
        ensures
            old(self).moved(final(self)),
            r is Ok ==> final(self).cursor > old(self).cursor,
            r matches Ok(a) ==> well_indexed(a@),
            agrees(r, final(self).cursor, p_binary(old(self).toks(), old(self).pos(), 3)),
        decreases rest(old(self).toks(), old(self).pos()), 9nat,
    {
        let ghost toks = tokens_view(self.tokens@);
        let ghost start = self.cursor as int;
        let mut left = self.additive_exp()?;
        while self.any(0, &[Name::Gt, Name::Ge, Name::Lt, Name::Le])
            invariant
                old(self).moved(self),
                self.tokens == old(self).tokens,
                toks == tokens_view(old(self).tokens@),
                start == old(self).cursor,
                start < self.cursor,
                well_indexed(left@),
                p_binary_tail(toks, self.cursor as int, 3, left@) == p_binary(toks, start, 3),
            decreases self.tokens@.len() - self.cursor,
        {
            let t = self.eat_of(Kind::Binary)?;
            let right = self.additive_exp()?;
            left = AST::Op2(t.of.name, Box::new(left), Box::new(right));
        }
        Ok(left)
    }

    fn additive_exp(&mut self) -> (r: Result<AST, Fault>)
        requires
            old(self).wf(),
        ensures
            old(self).moved(final(self)),
            r is Ok ==> final(self).cursor > old(self).cursor,
            r matches Ok(a) ==> well_indexed(a@),
            agrees(r, final(self).cursor, p_binary(old(self).toks(), old(self).pos(), 4)),
        decreases rest(old(self).toks(), old(self).pos()), 8nat,
    {
        let ghost toks = tokens_view(self.tokens@);
        let ghost start = self.cursor as int;
        let mut left = self.multiplicative_exp()?;
        while self.any(0, &[Name::Add, Name::Sub])
            invariant
                old(self).moved(self),
                self.tokens == old(self).tokens,
                toks == tokens_view(old(self).tokens@),
                start == old(self).cursor,
                start < self.cursor,
                well_indexed(left@),
                p_binary_tail(toks, self.cursor as int, 4, left@) == p_binary(toks, start, 4),
            decreases self.tokens@.len() - self.cursor,
        {
            let t = self.eat_of(Kind::Binary)?;
            let right = self.multiplicative_exp()?;
            left = AST::Op2(t.of.name, Box::new(left), Box::new(right));
        }
        Ok(left)
    }

    fn multiplicative_exp(&mut self) -> (r: Result<AST, Fault>)
        requires
            old(self).wf(),
        ensures
            old(self).moved(final(self)),
            r is Ok ==> final(self).cursor > old(self).cursor,
            r matches Ok(a) ==> well_indexed(a@),
            agrees(r, final(self).cursor, p_binary(old(self).toks(), old(self).pos(), 5)),
        decreases rest(old(self).toks(), old(self).pos()), 7nat,
    {
        let ghost toks = tokens_view(self.tokens@);
        let ghost start = self.cursor as int;
        let mut left = self.exponential_exp()?;
        while self.any(0, &[Name::Mul, Name::Div])
            invariant
                old(self).moved(self),
                self.tokens == old(self).tokens,
                toks == tokens_view(old(self).tokens@),
                start == old(self).cursor,
                start < self.cursor,
                well_indexed(left@),
                p_binary_tail(toks, self.cursor as int, 5, left@) == p_binary(toks, start, 5),
            decreases self.tokens@.len() - self.cursor,
        {
            let t = match self.eat_of(Kind::Binary) {
                Ok(t) => t,
                Err(_) => return Err(Fault::Halt),
            };
            let right = self.exponential_exp()?;
            left = AST::Op2(t.of.name, Box::new(left), Box::new(right));
        }
        Ok(left)
    }

    fn exponential_exp(&mut self) -> (r: Result<AST, Fault>)
        requires
            old(self).wf(),
        ensures
            old(self).moved(final(self)),
            r is Ok ==> final(self).cursor > old(self).cursor,
            r matches Ok(a) ==> well_indexed(a@),
            agrees(r, final(self).cursor, p_binary(old(self).toks(), old(self).pos(), 6)),
        decreases rest(old(self).toks(), old(self).pos()), 6nat,
    {
        let ghost toks = tokens_view(self.tokens@);
        let ghost start = self.cursor as int;
        let mut left = self.range_exp()?;
        while self.is(0, Name::Exp)
            invariant
                old(self).moved(self),
                self.tokens == old(self).tokens,
                toks == tokens_view(old(self).tokens@),
                start == old(self).cursor,
                start < self.cursor,
                well_indexed(left@),
                p_binary_tail(toks, self.cursor as int, 6, left@) == p_binary(toks, start, 6),
            decreases self.tokens@.len() - self.cursor,
        {
            self.eat(Name::Exp)?;
            let right = self.range_exp()?;
            left = AST::Op2(Name::Exp, Box::new(left), Box::new(right));
        }
        Ok(left)
    }

    fn range_exp(&mut self) -> (r: Result<AST, Fault>)
        requires
            old(self).wf(),
        ensures
            old(self).moved(final(self)),
            r is Ok ==> final(self).cursor > old(self).cursor,
            r matches Ok(a) ==> well_indexed(a@),
            agrees(r, final(self).cursor, p_binary(old(self).toks(), old(self).pos(), 7)),
        decreases rest(old(self).toks(), old(self).pos()), 5nat,
    {
        let ghost toks = tokens_view(self.tokens@);
        let ghost start = self.cursor as int;
        let mut left = self.unary_exp()?;
        while self.is(0, Name::Range)
            invariant
                old(self).moved(self),
                self.tokens == old(self).tokens,
                toks == tokens_view(old(self).tokens@),
                start == old(self).cursor,
                start < self.cursor,
                well_indexed(left@),
                p_binary_tail(toks, self.cursor as int, 7, left@) == p_binary(toks, start, 7),
            decreases self.tokens@.len() - self.cursor,
        {
            self.eat(Name::Range)?;
            let right = self.unary_exp()?;
            left = AST::Op2(Name::Range, Box::new(left), Box::new(right));
        }
        Ok(left)
    }

    fn select_exp(&mut self) -> (r: Result<AST, Fault>)
        requires
            old(self).wf(),
        ensures
            old(self).moved(final(self)),
            r is Ok ==> final(self).cursor > old(self).cursor,
            r matches Ok(a) ==> well_indexed(a@),
            agrees(r, final(self).cursor, p_binary(old(self).toks(), old(self).pos(), 8)),
        decreases rest(old(self).toks(), old(self).pos()), 2nat,
    {
        let ghost toks = tokens_view(self.tokens@);
        let ghost start = self.cursor as int;
        let mut left = self.primary_exp()?;
        while self.is(0, Name::Select)
            invariant
                old(self).moved(self),
                self.tokens == old(self).tokens,
                toks == tokens_view(old(self).tokens@),
                start == old(self).cursor,
                start < self.cursor,
                well_indexed(left@),
                p_binary_tail(toks, self.cursor as int, 8, left@) == p_binary(toks, start, 8),
            decreases self.tokens@.len() - self.cursor,
        {
            let t = self.eat(Name::Select)?;
            let right = self.primary_exp()?;
            left = AST::Op2(t.of.name, Box::new(left), Box::new(right));
        }
        Ok(left)
    }

    fn unary_exp(&mut self) -> (r: Result<AST, Fault>)
        requires
            old(self).wf(),
        ensures
            old(self).moved(final(self)),
            r is Ok ==> final(self).cursor > old(self).cursor,
            r matches Ok(a) ==> well_indexed(a@),
            agrees(r, final(self).cursor, p_unary(old(self).toks(), old(self).pos())),
        decreases rest(old(self).toks(), old(self).pos()), 4nat,
    {
        if self.any(
            0,
            &[
                Name::Add,
                Name::Sub,
                Name::Not,
                Name::Range,
                Name::Colon,
                Name::Gt,
                Name::Lt,
                Name::Length,
            ],
        ) {
            let operator = self.eats(
                &[
                    Name::Add,
                    Name::Sub,
                    Name::Not,
                    Name::Range,
                    Name::Colon,
                    Name::Gt,
                    Name::Lt,
                    Name::Length,
                ],
            )?;
            let operand = self.unary_exp()?;
            Ok(AST::Op1(operator.of.name, Box::new(operand)))
        } else {
            self.replicate_or_select()
        }
    }

    fn replicate_or_select(&mut self) -> (r: Result<AST, Fault>)
        requires
            old(self).wf(),
        ensures
            old(self).moved(final(self)),
            r is Ok ==> final(self).cursor > old(self).cursor,
            r matches Ok(a) ==> well_indexed(a@),
            agrees(r, final(self).cursor, p_replicate(old(self).toks(), old(self).pos())),
        decreases rest(old(self).toks(), old(self).pos()), 3nat,
    {
        let mut ret = self.select_exp()?;
        if self.any(0, &[Name::ParenLF, Name::SquarenLF, Name::BracketLF]) {
            let replicated = self.expression()?;
            ret = AST::Rep(Box::new(ret), Box::new(replicated));
        }
        Ok(ret)
    }

    fn primary_exp(&mut self) -> (r: Result<AST, Fault>)
        requires
            old(self).wf(),
        ensures
            old(self).moved(final(self)),
            r is Ok ==> final(self).cursor > old(self).cursor,
            r matches Ok(a) ==> well_indexed(a@),
            agrees(r, final(self).cursor, p_primary(old(self).toks(), old(self).pos())),
        decreases rest(old(self).toks(), old(self).pos()), 1nat,
    {
        match self.get(0) {
            Some(t) => match t.of.name {
                Name::ParenLF => self.paren_exp(),
                Name::SquarenLF => self.array_exp(),
                Name::BracketLF => self.graph_exp(),
                Name::Ref => self.reference(),
                _ => self.literal(),
            },
            None => self.literal(),
        }
    }

    fn reference(&mut self) -> (r: Result<AST, Fault>)
        requires
            old(self).wf(),
        ensures
            old(self).moved(final(self)),
            r is Ok ==> final(self).cursor > old(self).cursor,
            r matches Ok(a) ==> well_indexed(a@),
            agrees(r, final(self).cursor, p_reference(old(self).toks(), old(self).pos())),
        decreases rest(old(self).toks(), old(self).pos()), 0nat,
    {
        let t = self.eat(Name::Ref)?;
        Ok(AST::Ref(t.meta.text.clone()))
    }

    fn exp_list(&mut self, stops: &[Name]) -> (r: Result<Vec<AST>, Fault>)
        requires
            old(self).wf(),
        ensures
            old(self).moved(final(self)),
            r matches Ok(v) ==> all_well_indexed(asts_view(v@)),
            agrees_list(
                r,
                final(self).cursor,
                p_exp_list(old(self).toks(), old(self).pos(), stops@),
            ),
        decreases rest(old(self).toks(), old(self).pos()), 16nat,
    {
        let ghost toks = tokens_view(self.tokens@);
        let ghost start = self.cursor as int;
        let mut exps: Vec<AST> = Vec::new();
        proof {
            lemma_skip_stops(toks, start);
        }
        self.clear_stops();
        while self.until(0, stops)
            invariant
                old(self).moved(self),
                self.tokens == old(self).tokens,
                toks == tokens_view(old(self).tokens@),
                start == old(self).cursor,
                all_well_indexed(asts_view(exps@)),
                p_exp_items(toks, self.cursor as int, stops@, asts_view(exps@)) == p_exp_list(
                    toks,
                    start,
                    stops@,
                ),
            decreases self.tokens@.len() - self.cursor,
        {
            let e = self.expression()?;
            proof {
                lemma_asts_push(exps@, e);
                lemma_push_indexed(asts_view(exps@), e@);
                lemma_skip_stops(toks, self.cursor as int);
            }
            exps.push(e);
            self.clear_stops();
        }
        Ok(exps)
    }

    fn paren_exp(&mut self) -> (r: Result<AST, Fault>)
        requires
            old(self).wf(),
        ensures
            old(self).moved(final(self)),
            r is Ok ==> final(self).cursor > old(self).cursor,
            r matches Ok(a) ==> well_indexed(a@),
            agrees(r, final(self).cursor, p_paren(old(self).toks(), old(self).pos())),
        decreases rest(old(self).toks(), old(self).pos()), 0nat,
    {
        self.eat(Name::ParenLF)?;
        let expression = self.expression()?;
        self.eat(Name::ParenRT)?;
        Ok(expression)
    }

    fn array_exp(&mut self) -> (r: Result<AST, Fault>)
        requires
            old(self).wf(),
        ensures
            old(self).moved(final(self)),
            r is Ok ==> final(self).cursor > old(self).cursor,
            r matches Ok(a) ==> well_indexed(a@),
            agrees(r, final(self).cursor, p_array(old(self).toks(), old(self).pos())),
        decreases rest(old(self).toks(), old(self).pos()), 0nat,
    {
        self.eat(Name::SquarenLF)?;
        let stops: &[Name] = &[Name::SquarenRT];
        assert(stops@ =~= seq![Name::SquarenRT]);
        let inner = self.exp_list(stops)?;
        self.eat(Name::SquarenRT)?;
        Ok(AST::Array(inner))
    }

    fn graph_exp(&mut self) -> (r: Result<AST, Fault>)
        requires
            old(self).wf(),
        ensures
            old(self).moved(final(self)),
            r is Ok ==> final(self).cursor > old(self).cursor,
            r matches Ok(a) ==> well_indexed(a@),
            agrees(r, final(self).cursor, p_graph(old(self).toks(), old(self).pos())),
        decreases rest(old(self).toks(), old(self).pos()), 0nat,
    {
        self.eat(Name::BracketLF)?;
        let stops: &[Name] = &[Name::BracketRT];
        assert(stops@ =~= seq![Name::BracketRT]);
        let inner = self.point_list(stops)?;
        self.eat(Name::BracketRT)?;
        Ok(AST::Graph(inner))
    }

    fn literal(&mut self) -> (r: Result<AST, Fault>)
        requires
            old(self).wf(),
        ensures
            old(self).moved(final(self)),
            r is Ok ==> final(self).cursor > old(self).cursor,
            r matches Ok(a) ==> well_indexed(a@),
            agrees(r, final(self).cursor, p_literal(old(self).toks(), old(self).pos())),
        decreases rest(old(self).toks(), old(self).pos()), 0nat,
    {
        match self.get(0) {
            Some(t) => match t.of.kind {
                Kind::Number => self.number(),
                Kind::String => self.string(),
                _ => Err(Fault::Message(unexpected_message(t))),
            },
            None => Err(Fault::Message(end_message())),
        }
    }

    fn number(&mut self) -> (r: Result<AST, Fault>)
        requires
            old(self).wf(),
            tok_of(old(self).toks(), old(self).pos(), Kind::Number),
        ensures
            old(self).moved(final(self)),
            r is Ok ==> final(self).cursor > old(self).cursor,
            r matches Ok(a) ==> well_indexed(a@),
            agrees(r, final(self).cursor, p_literal(old(self).toks(), old(self).pos())),
        decreases rest(old(self).toks(), old(self).pos()), 0nat,
    {
        let t = self.eat_of(Kind::Number)?;
        let name = t.of.name;
        if !(name == Name::Decimal || name == Name::Integer || name == Name::Boolean) {
            return Err(Fault::Halt);
        }
        Ok(AST::Number(name_to_number(t.of.name), t.meta.text.clone()))
    }

    fn string(&mut self) -> (r: Result<AST, Fault>)
        requires
            old(self).wf(),
            tok_of(old(self).toks(), old(self).pos(), Kind::String),
        ensures
            old(self).moved(final(self)),
            r is Ok ==> final(self).cursor > old(self).cursor,
            r matches Ok(a) ==> well_indexed(a@),
            agrees(r, final(self).cursor, p_literal(old(self).toks(), old(self).pos())),
        decreases rest(old(self).toks(), old(self).pos()), 0nat,
    {
        let t = self.eat_of(Kind::String)?;
        Ok(AST::String(t.meta.text.clone()))
    }
}

/// What the parser gives for a parse: the tree, or the error message.
pub open spec fn parsed_as(r: Result<AST, String>, expected: Parsed<AstV>) -> bool {
    match expected {
        Parsed::Done(v, _) => r matches Ok(a) && a@ == v,
        Parsed::Fail(m, _) => r matches Err(e) && e@ == m,
        Parsed::Abort => false,
    }
}

/// Parses the tokens into the program (see `p_program`). The tokens must
/// not lead the parse to a point where the program stops (`try_parser`
/// tells). In the tree, every graph holds connections and points, and its
/// points are numbered 0, 1, 2, … in order. A parse that succeeds reads
/// every token.
pub fn parser(tokens: &Vec<Token>) -> (r: Result<AST, String>)
    requires
        !(p_program(tokens_view(tokens@)) is Abort),
    ensures
        parsed_as(r, p_program(tokens_view(tokens@))),
        r matches Ok(a) ==> well_indexed(a@),
        p_program(tokens_view(tokens@)) matches Parsed::Done(_, p) ==> p == tokens@.len(),
{
    assert(tokens@.len() == tokens.len());
    let mut cursor = Tokens { cursor: 0, tokens };
    match cursor.program() {
        Ok(ast) => Ok(ast),
        Err(Fault::Message(m)) => Err(m),
        Err(Fault::Halt) => Err(String::new()),
    }
}

/// Parses the tokens, or gives `None` where `parser` would stop the
/// program.
pub fn try_parser(tokens: &Vec<Token>) -> (r: Option<Result<AST, String>>)
    ensures
        r is None <==> p_program(tokens_view(tokens@)) is Abort,
        r matches Some(res) ==> parsed_as(res, p_program(tokens_view(tokens@))),
        r matches Some(Ok(a)) ==> well_indexed(a@),
        p_program(tokens_view(tokens@)) matches Parsed::Done(_, p) ==> p == tokens@.len(),
{
    assert(tokens@.len() == tokens.len());
    let mut cursor = Tokens { cursor: 0, tokens };
    match cursor.program() {
        Ok(ast) => Some(Ok(ast)),
        Err(Fault::Message(m)) => Some(Err(m)),
        Err(Fault::Halt) => None,
    }
}

} // verus!

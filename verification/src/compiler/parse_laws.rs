//! Laws of the grammar: what tokens before and after a program change,
//! what every result of a parse looks like, and on which tokens a parse
//! never stops the program.

use crate::compiler::parser::{
    after_eat, eat_error, end_error, is_replicant, kind_error, lemma_skip_stops, level_has,
    name_error, p_array, p_binary, p_binary_tail, p_exp_items, p_exp_list, p_expression, p_graph,
    level_rank, p_literal, p_paren, p_pattern, p_point, p_point_list, p_point_value, p_points, p_primary,
    p_program, p_reference, p_replicate, p_unary, rest, skip_stops, tok_any, tok_is, tok_of,
    tok_until, unary_names, unexpected, AstV, Parsed,
};
use crate::compiler::tokenizer::{law_tokens_well_formed, tokenize, Kind, Name, TokenV};
use vstd::prelude::*;

verus! {

/// The same outcome with every position moved on by `k`.
pub open spec fn shifted<T>(r: Parsed<T>, k: int) -> Parsed<T> {
    match r {
        Parsed::Done(v, p) => Parsed::Done(v, p + k),
        Parsed::Fail(m, p) => Parsed::Fail(m, p + k),
        Parsed::Abort => Parsed::Abort,
    }
}

/// A message that the parser gives: the end of the input, or an unexpected
/// token.
pub open spec fn is_message(m: Seq<char>) -> bool {
    m == end_error() || "UnexpectedToken: "@.is_prefix_of(m)
}

/// A parse that fails gives one of the parser's messages.
pub open spec fn fails_well<T>(r: Parsed<T>) -> bool {
    r matches Parsed::Fail(m, _) ==> is_message(m)
}

/// A parse that succeeds ends no earlier than it started.
pub open spec fn ends_after<T>(r: Parsed<T>, pos: int) -> bool {
    r matches Parsed::Done(_, p) ==> pos <= p
}

proof fn lemma_messages(t: TokenV)
    ensures
        is_message(unexpected(t)),
        is_message(name_error(t)),
        is_message(kind_error(t)),
        is_message(end_error()),
{
    reveal_strlit("UnexpectedToken: ");
    let a = "UnexpectedToken: "@;
    let u = unexpected(t);
    assert(u.subrange(0, a.len() as int) =~= a);
    assert(name_error(t).subrange(0, a.len() as int) =~= a);
    assert(kind_error(t).subrange(0, a.len() as int) =~= a);
}

/// What the tokens at `pos` of `toks` and at `pos + k` of `pre + toks`
/// have in common, for `k` the length of `pre`.
proof fn lemma_at(pre: Seq<TokenV>, toks: Seq<TokenV>, pos: int)
    requires
        0 <= pos,
    ensures
        rest(pre + toks, pos + pre.len()) == rest(toks, pos),
        0 <= pos < toks.len() ==> (pre + toks)[pos + pre.len()] == toks[pos],
        forall|n: Name| #[trigger] tok_is(pre + toks, pos + pre.len(), n) == tok_is(toks, pos, n),
        forall|d: Kind| #[trigger] tok_of(pre + toks, pos + pre.len(), d) == tok_of(toks, pos, d),
        forall|ns: Seq<Name>| #[trigger]
            tok_any(pre + toks, pos + pre.len(), ns) == tok_any(toks, pos, ns),
        forall|ns: Seq<Name>| #[trigger]
            tok_until(pre + toks, pos + pre.len(), ns) == tok_until(toks, pos, ns),
        forall|l: nat| #[trigger]
            level_has(pre + toks, pos + pre.len(), l) == level_has(toks, pos, l),
        forall|n: Name| #[trigger]
            eat_error(pre + toks, pos + pre.len(), n) == eat_error(toks, pos, n),
        after_eat(pre + toks, pos + pre.len()) == after_eat(toks, pos) + pre.len(),
        p_literal(pre + toks, pos + pre.len()) == shifted(p_literal(toks, pos), pre.len() as int),
        p_reference(pre + toks, pos + pre.len()) == shifted(
            p_reference(toks, pos),
            pre.len() as int,
        ),
        ends_after(p_literal(toks, pos), pos),
        ends_after(p_reference(toks, pos), pos),
        fails_well(p_literal(toks, pos)),
        fails_well(p_reference(toks, pos)),
{
    if 0 <= pos < toks.len() {
        lemma_messages(toks[pos]);
    }
    lemma_messages(TokenV { kind: Kind::Invalid, name: Name::Invalid, line: 0, text: seq![] });
}

/// Skipping stops commutes with the move.
proof fn lemma_skip_shift(pre: Seq<TokenV>, toks: Seq<TokenV>, pos: int)
    requires
        0 <= pos,
    ensures
        skip_stops(pre + toks, pos + pre.len()) == skip_stops(toks, pos) + pre.len(),
        pos <= skip_stops(toks, pos),
    decreases rest(toks, pos),
{
    lemma_at(pre, toks, pos);
    if tok_of(toks, pos, Kind::Stop) {
        lemma_skip_shift(pre, toks, pos + 1);
    }
}

proof fn shift_binary(pre: Seq<TokenV>, toks: Seq<TokenV>, pos: int, level: nat)
    requires
        0 <= pos,
    ensures
        p_binary(pre + toks, pos + pre.len(), level) == shifted(
            p_binary(toks, pos, level),
            pre.len() as int,
        ),
        ends_after(p_binary(toks, pos, level), pos),
        fails_well(p_binary(toks, pos, level)),
    decreases rest(toks, pos), level_rank(level),
{
    lemma_at(pre, toks, pos);
    let first = if level < 7 {
        shift_binary(pre, toks, pos, level + 1);
        p_binary(toks, pos, level + 1)
    } else if level == 7 {
        shift_unary(pre, toks, pos);
        p_unary(toks, pos)
    } else {
        shift_primary(pre, toks, pos);
        p_primary(toks, pos)
    };
    match first {
        Parsed::Done(left, p1) => {
            if rest(toks, p1) <= rest(toks, pos) {
                shift_binary_tail(pre, toks, p1, level, left);
            }
        },
        _ => {},
    }
}

proof fn shift_binary_tail(pre: Seq<TokenV>, toks: Seq<TokenV>, pos: int, level: nat, left: AstV)
    requires
        0 <= pos,
    ensures
        p_binary_tail(pre + toks, pos + pre.len(), level, left) == shifted(
            p_binary_tail(toks, pos, level, left),
            pre.len() as int,
        ),
        ends_after(p_binary_tail(toks, pos, level, left), pos),
        fails_well(p_binary_tail(toks, pos, level, left)),
    decreases rest(toks, pos), 0nat,
{
    lemma_at(pre, toks, pos);
    if level_has(toks, pos, level) {
        let t = toks[pos];
        lemma_messages(t);
        if 2 <= level <= 5 && t.kind != Kind::Binary {
        } else {
            let right = if level < 7 {
                shift_binary(pre, toks, pos + 1, level + 1);
                p_binary(toks, pos + 1, level + 1)
            } else if level == 7 {
                shift_unary(pre, toks, pos + 1);
                p_unary(toks, pos + 1)
            } else {
                shift_primary(pre, toks, pos + 1);
                p_primary(toks, pos + 1)
            };
            match right {
                Parsed::Done(r, p2) => {
                    if rest(toks, p2) < rest(toks, pos) {
                        shift_binary_tail(
                            pre,
                            toks,
                            p2,
                            level,
                            AstV::Op2(t.name, Box::new(left), Box::new(r)),
                        );
                    }
                },
                _ => {},
            }
        }
    }
}

proof fn shift_unary(pre: Seq<TokenV>, toks: Seq<TokenV>, pos: int)
    requires
        0 <= pos,
    ensures
        p_unary(pre + toks, pos + pre.len()) == shifted(p_unary(toks, pos), pre.len() as int),
        ends_after(p_unary(toks, pos), pos),
        fails_well(p_unary(toks, pos)),
    decreases rest(toks, pos), 4nat,
{
    lemma_at(pre, toks, pos);
    if tok_any(toks, pos, unary_names()) {
        shift_unary(pre, toks, pos + 1);
    } else {
        shift_replicate(pre, toks, pos);
    }
}

proof fn shift_replicate(pre: Seq<TokenV>, toks: Seq<TokenV>, pos: int)
    requires
        0 <= pos,
    ensures
        p_replicate(pre + toks, pos + pre.len()) == shifted(
            p_replicate(toks, pos),
            pre.len() as int,
        ),
        ends_after(p_replicate(toks, pos), pos),
        fails_well(p_replicate(toks, pos)),
    decreases rest(toks, pos), 3nat,
{
    shift_binary(pre, toks, pos, 8);
    match p_binary(toks, pos, 8) {
        Parsed::Done(r, p1) => {
            lemma_at(pre, toks, p1);
            if rest(toks, p1) < rest(toks, pos) {
                shift_expression(pre, toks, p1);
            }
        },
        _ => {},
    }
}

proof fn shift_primary(pre: Seq<TokenV>, toks: Seq<TokenV>, pos: int)
    requires
        0 <= pos,
    ensures
        p_primary(pre + toks, pos + pre.len()) == shifted(p_primary(toks, pos), pre.len() as int),
        ends_after(p_primary(toks, pos), pos),
        fails_well(p_primary(toks, pos)),
    decreases rest(toks, pos), 1nat,
{
    lemma_at(pre, toks, pos);
    shift_paren(pre, toks, pos);
    shift_array(pre, toks, pos);
    shift_graph(pre, toks, pos);
}

proof fn shift_paren(pre: Seq<TokenV>, toks: Seq<TokenV>, pos: int)
    requires
        0 <= pos,
    ensures
        p_paren(pre + toks, pos + pre.len()) == shifted(p_paren(toks, pos), pre.len() as int),
        ends_after(p_paren(toks, pos), pos),
        fails_well(p_paren(toks, pos)),
    decreases rest(toks, pos), 0nat,
{
    lemma_at(pre, toks, pos);
    if eat_error(toks, pos, Name::ParenLF) is None {
        shift_expression(pre, toks, pos + 1);
        if let Parsed::Done(e, p1) = p_expression(toks, pos + 1) {
            lemma_at(pre, toks, p1);
            if 0 <= p1 < toks.len() {
                lemma_messages(toks[p1]);
            }
        }
    } else {
        lemma_messages(toks[pos]);
    }
}

proof fn shift_array(pre: Seq<TokenV>, toks: Seq<TokenV>, pos: int)
    requires
        0 <= pos,
    ensures
        p_array(pre + toks, pos + pre.len()) == shifted(p_array(toks, pos), pre.len() as int),
        ends_after(p_array(toks, pos), pos),
        fails_well(p_array(toks, pos)),
    decreases rest(toks, pos), 0nat,
{
    lemma_at(pre, toks, pos);
    if eat_error(toks, pos, Name::SquarenLF) is None {
        shift_exp_list(pre, toks, pos + 1, seq![Name::SquarenRT]);
        if let Parsed::Done(es, p1) = p_exp_list(toks, pos + 1, seq![Name::SquarenRT]) {
            lemma_at(pre, toks, p1);
            if 0 <= p1 < toks.len() {
                lemma_messages(toks[p1]);
            }
        }
    } else {
        lemma_messages(toks[pos]);
    }
}

proof fn shift_graph(pre: Seq<TokenV>, toks: Seq<TokenV>, pos: int)
    requires
        0 <= pos,
    ensures
        p_graph(pre + toks, pos + pre.len()) == shifted(p_graph(toks, pos), pre.len() as int),
        ends_after(p_graph(toks, pos), pos),
        fails_well(p_graph(toks, pos)),
    decreases rest(toks, pos), 0nat,
{
    lemma_at(pre, toks, pos);
    if eat_error(toks, pos, Name::BracketLF) is None {
        shift_point_list(pre, toks, pos + 1, seq![Name::BracketRT]);
        if let Parsed::Done(ps, p1) = p_point_list(toks, pos + 1, seq![Name::BracketRT]) {
            lemma_at(pre, toks, p1);
            if 0 <= p1 < toks.len() {
                lemma_messages(toks[p1]);
            }
        }
    } else {
        lemma_messages(toks[pos]);
    }
}

proof fn shift_pattern(pre: Seq<TokenV>, toks: Seq<TokenV>, pos: int)
    requires
        0 <= pos,
    ensures
        p_pattern(pre + toks, pos + pre.len()) == shifted(p_pattern(toks, pos), pre.len() as int),
        ends_after(p_pattern(toks, pos), pos),
        fails_well(p_pattern(toks, pos)),
    decreases rest(toks, pos), 13nat,
{
    shift_binary(pre, toks, pos, 0);
    match p_binary(toks, pos, 0) {
        Parsed::Done(left, p1) => {
            lemma_at(pre, toks, p1);
            if is_replicant(left) && tok_is(toks, p1, Name::Pattern) && rest(toks, p1) <= rest(
                toks,
                pos,
            ) {
                shift_binary(pre, toks, p1 + 1, 0);
            }
        },
        _ => {},
    }
}

proof fn shift_expression(pre: Seq<TokenV>, toks: Seq<TokenV>, pos: int)
    requires
        0 <= pos,
    ensures
        p_expression(pre + toks, pos + pre.len()) == shifted(
            p_expression(toks, pos),
            pre.len() as int,
        ),
        ends_after(p_expression(toks, pos), pos),
        fails_well(p_expression(toks, pos)),
    decreases rest(toks, pos), 14nat,
{
    shift_pattern(pre, toks, pos);
}

proof fn shift_exp_list(pre: Seq<TokenV>, toks: Seq<TokenV>, pos: int, stops: Seq<Name>)
    requires
        0 <= pos,
    ensures
        p_exp_list(pre + toks, pos + pre.len(), stops) == shifted(
            p_exp_list(toks, pos, stops),
            pre.len() as int,
        ),
        ends_after(p_exp_list(toks, pos, stops), pos),
        fails_well(p_exp_list(toks, pos, stops)),
    decreases rest(toks, pos), 16nat,
{
    if pos <= toks.len() {
        lemma_skip_stops(toks, pos);
        lemma_skip_shift(pre, toks, pos);
        shift_exp_items(pre, toks, skip_stops(toks, pos), stops, Seq::empty());
    }
}

proof fn shift_exp_items(
    pre: Seq<TokenV>,
    toks: Seq<TokenV>,
    pos: int,
    stops: Seq<Name>,
    acc: Seq<AstV>,
)
    requires
        0 <= pos,
    ensures
        p_exp_items(pre + toks, pos + pre.len(), stops, acc) == shifted(
            p_exp_items(toks, pos, stops, acc),
            pre.len() as int,
        ),
        ends_after(p_exp_items(toks, pos, stops, acc), pos),
        fails_well(p_exp_items(toks, pos, stops, acc)),
    decreases rest(toks, pos), 15nat,
{
    lemma_at(pre, toks, pos);
    if tok_until(toks, pos, stops) {
        shift_expression(pre, toks, pos);
        if let Parsed::Done(e, p1) = p_expression(toks, pos) {
            lemma_skip_shift(pre, toks, p1);
            let p2 = skip_stops(toks, p1);
            if rest(toks, p2) < rest(toks, pos) {
                shift_exp_items(pre, toks, p2, stops, acc.push(e));
            }
        }
    }
}

proof fn shift_point_list(pre: Seq<TokenV>, toks: Seq<TokenV>, pos: int, stops: Seq<Name>)
    requires
        0 <= pos,
    ensures
        p_point_list(pre + toks, pos + pre.len(), stops) == shifted(
            p_point_list(toks, pos, stops),
            pre.len() as int,
        ),
        ends_after(p_point_list(toks, pos, stops), pos),
        fails_well(p_point_list(toks, pos, stops)),
    decreases rest(toks, pos), 18nat,
{
    if pos <= toks.len() {
        lemma_skip_stops(toks, pos);
        lemma_skip_shift(pre, toks, pos);
        shift_points(pre, toks, skip_stops(toks, pos), stops, 0, Seq::empty());
    }
}

proof fn shift_points(
    pre: Seq<TokenV>,
    toks: Seq<TokenV>,
    pos: int,
    stops: Seq<Name>,
    index: u16,
    acc: Seq<AstV>,
)
    requires
        0 <= pos,
    ensures
        p_points(pre + toks, pos + pre.len(), stops, index, acc) == shifted(
            p_points(toks, pos, stops, index, acc),
            pre.len() as int,
        ),
        ends_after(p_points(toks, pos, stops, index, acc), pos),
        fails_well(p_points(toks, pos, stops, index, acc)),
    decreases rest(toks, pos), 17nat,
{
    lemma_at(pre, toks, pos);
    if tok_until(toks, pos, stops) {
        shift_point(pre, toks, pos, index);
        if let Parsed::Done((a, is_point), p1) = p_point(toks, pos, index) {
            if !(is_point && index == u16::MAX) {
                lemma_skip_shift(pre, toks, p1);
                let p2 = skip_stops(toks, p1);
                if rest(toks, p2) < rest(toks, pos) {
                    shift_points(
                        pre,
                        toks,
                        p2,
                        stops,
                        if is_point {
                            (index + 1) as u16
                        } else {
                            index
                        },
                        acc.push(a),
                    );
                }
            }
        }
    }
}

proof fn shift_point(pre: Seq<TokenV>, toks: Seq<TokenV>, pos: int, index: u16)
    requires
        0 <= pos,
    ensures
        p_point(pre + toks, pos + pre.len(), index) == shifted(
            p_point(toks, pos, index),
            pre.len() as int,
        ),
        ends_after(p_point(toks, pos, index), pos),
        fails_well(p_point(toks, pos, index)),
    decreases rest(toks, pos), 16nat,
{
    lemma_messages(TokenV { kind: Kind::Invalid, name: Name::Invalid, line: 0, text: seq![] });
    if pos <= toks.len() {
        lemma_skip_stops(toks, pos);
        lemma_skip_shift(pre, toks, pos);
        let p0 = skip_stops(toks, pos);
        lemma_at(pre, toks, p0);
        if tok_is(toks, p0, Name::Colon) {
            shift_unary(pre, toks, p0);
            if let Parsed::Done(c, p1) = p_unary(toks, p0) {
                lemma_skip_shift(pre, toks, p1);
            }
        } else {
            let is_return = tok_is(toks, p0, Name::Arrow);
            let p1 = if is_return {
                p0 + 1
            } else {
                p0
            };
            lemma_at(pre, toks, p1);
            let has_key = tok_is(toks, p1, Name::Key);
            let p2 = if has_key {
                p1 + 1
            } else {
                p1
            };
            let text = toks[p1].text;
            if has_key && (text.len() == 0 || (text.last() as u32) >= 128) {
            } else {
                let label = if has_key {
                    text.drop_last()
                } else {
                    Seq::empty()
                };
                shift_point_value(pre, toks, p2, index, is_return, label);
            }
        }
    }
}

proof fn shift_point_value(
    pre: Seq<TokenV>,
    toks: Seq<TokenV>,
    pos: int,
    index: u16,
    is_return: bool,
    label: Seq<char>,
)
    requires
        0 <= pos,
    ensures
        p_point_value(pre + toks, pos + pre.len(), index, is_return, label) == shifted(
            p_point_value(toks, pos, index, is_return, label),
            pre.len() as int,
        ),
        ends_after(p_point_value(toks, pos, index, is_return, label), pos),
        fails_well(p_point_value(toks, pos, index, is_return, label)),
    decreases rest(toks, pos), 15nat,
{
    lemma_at(pre, toks, pos);
    if !tok_is(toks, pos, Name::Key) {
        shift_expression(pre, toks, pos);
        if let Parsed::Done(e, p1) = p_expression(toks, pos) {
            lemma_skip_shift(pre, toks, p1);
        }
    }
}

/// Stops before the first stop-free position all lead there.
proof fn lemma_skip_leading(pre: Seq<TokenV>, toks: Seq<TokenV>, pos: int)
    requires
        0 <= pos <= pre.len(),
        forall|j: int| 0 <= j < pre.len() ==> #[trigger] pre[j].kind == Kind::Stop,
    ensures
        skip_stops(pre + toks, pos) == skip_stops(pre + toks, pre.len() as int),
    decreases pre.len() - pos,
{
    if pos < pre.len() {
        assert((pre + toks)[pos] == pre[pos]);
        lemma_skip_leading(pre, toks, pos + 1);
    }
}

/// Stop tokens (newlines and commas) before a program change nothing but
/// the positions: the parse of `pre + toks`, where `pre` holds only stops,
/// gives the tree or the message that the parse of `toks` gives, with every
/// position moved on by the length of `pre`. So a list of stops alone
/// parses as an empty list does.
pub proof fn law_leading_stops(pre: Seq<TokenV>, toks: Seq<TokenV>)
    requires
        forall|j: int| 0 <= j < pre.len() ==> #[trigger] pre[j].kind == Kind::Stop,
    ensures
        p_program(pre + toks) == shifted(p_program(toks), pre.len() as int),
{
    let w = pre + toks;
    let k = pre.len() as int;
    lemma_skip_leading(pre, toks, 0);
    lemma_skip_shift(pre, toks, 0);
    lemma_skip_stops(toks, 0);
    shift_points(pre, toks, skip_stops(toks, 0), Seq::empty(), 0, Seq::empty());
    assert(skip_stops(w, 0) == skip_stops(toks, 0) + k);
    assert(p_point_list(w, 0, Seq::empty()) == shifted(p_point_list(toks, 0, Seq::empty()), k));
}

/// Every parse of a program gives the point "Program" with index 0 and no
/// return, holding a graph; or it fails with "UnexpectedEndOfInput" or a
/// message that starts with "UnexpectedToken: "; or it reaches a point
/// where the program stops.
pub proof fn law_program_shape(toks: Seq<TokenV>)
    ensures
        p_program(toks) matches Parsed::Done(a, _) ==> a matches AstV::Point(l, i, r, b) && l
            == "Program"@ && i == 0 && !r && *b matches AstV::Graph(_),
        p_program(toks) matches Parsed::Fail(m, _) ==> m == end_error()
            || "UnexpectedToken: "@.is_prefix_of(m),
{
    shift_point_list(Seq::empty(), toks, 0, Seq::empty());
}


/// Token lists on which no parse reaches a point where the program stops:
/// no more tokens than there are point indexes, no number token (no number
/// name is ever given one), `*` and `/` only of kind `Binary`, and every key
/// ending in an ASCII character.
pub open spec fn never_stops(toks: Seq<TokenV>) -> bool {
    &&& toks.len() <= u16::MAX
    &&& forall|j: int| 0 <= j < toks.len() ==> (#[trigger] toks[j]).kind != Kind::Number
    &&& forall|j: int|
        0 <= j < toks.len() && ((#[trigger] toks[j]).name == Name::Mul || toks[j].name
            == Name::Div) ==> toks[j].kind == Kind::Binary
    &&& forall|j: int|
        0 <= j < toks.len() && (#[trigger] toks[j]).name == Name::Key ==> toks[j].text.len() > 0
            && (toks[j].text.last() as u32) < 128
}

/// A parse that succeeds started at a token and took at least that one.
pub open spec fn moves_on<T>(r: Parsed<T>, pos: int, len: int) -> bool {
    r matches Parsed::Done(_, p) ==> pos < p && pos < len
}

proof fn lemma_skip_ahead(toks: Seq<TokenV>, pos: int)
    requires
        0 <= pos,
    ensures
        pos <= skip_stops(toks, pos),
{
    lemma_skip_shift(Seq::empty(), toks, pos);
}

proof fn safe_binary(toks: Seq<TokenV>, pos: int, level: nat)
    requires
        never_stops(toks),
        0 <= pos,
    ensures
        !(p_binary(toks, pos, level) is Abort),
        moves_on(p_binary(toks, pos, level), pos, toks.len() as int),
    decreases rest(toks, pos), level_rank(level),
{
    let first = if level < 7 {
        safe_binary(toks, pos, level + 1);
        p_binary(toks, pos, level + 1)
    } else if level == 7 {
        safe_unary(toks, pos);
        p_unary(toks, pos)
    } else {
        safe_primary(toks, pos);
        p_primary(toks, pos)
    };
    if let Parsed::Done(left, p1) = first {
        safe_tail(toks, p1, level, left);
    }
}

proof fn safe_tail(toks: Seq<TokenV>, pos: int, level: nat, left: AstV)
    requires
        never_stops(toks),
        0 <= pos,
    ensures
        !(p_binary_tail(toks, pos, level, left) is Abort),
        ends_after(p_binary_tail(toks, pos, level, left), pos),
    decreases rest(toks, pos), 0nat,
{
    if level_has(toks, pos, level) {
        let t = toks[pos];
        if 2 <= level <= 5 && t.kind != Kind::Binary {
            if level == 5 {
                assert(t.name == Name::Mul || t.name == Name::Div);
            }
        } else {
            let right = if level < 7 {
                safe_binary(toks, pos + 1, level + 1);
                p_binary(toks, pos + 1, level + 1)
            } else if level == 7 {
                safe_unary(toks, pos + 1);
                p_unary(toks, pos + 1)
            } else {
                safe_primary(toks, pos + 1);
                p_primary(toks, pos + 1)
            };
            if let Parsed::Done(r, p2) = right {
                safe_tail(toks, p2, level, AstV::Op2(t.name, Box::new(left), Box::new(r)));
            }
        }
    }
}

proof fn safe_unary(toks: Seq<TokenV>, pos: int)
    requires
        never_stops(toks),
        0 <= pos,
    ensures
        !(p_unary(toks, pos) is Abort),
        moves_on(p_unary(toks, pos), pos, toks.len() as int),
    decreases rest(toks, pos), 4nat,
{
    if tok_any(toks, pos, unary_names()) {
        safe_unary(toks, pos + 1);
    } else {
        safe_replicate(toks, pos);
    }
}

proof fn safe_replicate(toks: Seq<TokenV>, pos: int)
    requires
        never_stops(toks),
        0 <= pos,
    ensures
        !(p_replicate(toks, pos) is Abort),
        moves_on(p_replicate(toks, pos), pos, toks.len() as int),
    decreases rest(toks, pos), 3nat,
{
    safe_binary(toks, pos, 8);
    if let Parsed::Done(r, p1) = p_binary(toks, pos, 8) {
        if tok_any(toks, p1, seq![Name::ParenLF, Name::SquarenLF, Name::BracketLF]) {
            safe_expression(toks, p1);
        }
    }
}

proof fn safe_primary(toks: Seq<TokenV>, pos: int)
    requires
        never_stops(toks),
        0 <= pos,
    ensures
        !(p_primary(toks, pos) is Abort),
        moves_on(p_primary(toks, pos), pos, toks.len() as int),
    decreases rest(toks, pos), 1nat,
{
    if 0 <= pos < toks.len() {
        assert(toks[pos].kind != Kind::Number);
        safe_paren(toks, pos);
        safe_array(toks, pos);
        safe_graph(toks, pos);
    }
}

proof fn safe_paren(toks: Seq<TokenV>, pos: int)
    requires
        never_stops(toks),
        0 <= pos,
    ensures
        !(p_paren(toks, pos) is Abort),
        moves_on(p_paren(toks, pos), pos, toks.len() as int),
    decreases rest(toks, pos), 0nat,
{
    if eat_error(toks, pos, Name::ParenLF) is None {
        safe_expression(toks, pos + 1);
    }
}

proof fn safe_array(toks: Seq<TokenV>, pos: int)
    requires
        never_stops(toks),
        0 <= pos,
    ensures
        !(p_array(toks, pos) is Abort),
        moves_on(p_array(toks, pos), pos, toks.len() as int),
    decreases rest(toks, pos), 0nat,
{
    if eat_error(toks, pos, Name::SquarenLF) is None {
        safe_exp_list(toks, pos + 1, seq![Name::SquarenRT]);
    }
}

proof fn safe_graph(toks: Seq<TokenV>, pos: int)
    requires
        never_stops(toks),
        0 <= pos,
    ensures
        !(p_graph(toks, pos) is Abort),
        moves_on(p_graph(toks, pos), pos, toks.len() as int),
    decreases rest(toks, pos), 0nat,
{
    if eat_error(toks, pos, Name::BracketLF) is None {
        safe_point_list(toks, pos + 1, seq![Name::BracketRT]);
    }
}

proof fn safe_pattern(toks: Seq<TokenV>, pos: int)
    requires
        never_stops(toks),
        0 <= pos,
    ensures
        !(p_pattern(toks, pos) is Abort),
        moves_on(p_pattern(toks, pos), pos, toks.len() as int),
    decreases rest(toks, pos), 13nat,
{
    safe_binary(toks, pos, 0);
    if let Parsed::Done(left, p1) = p_binary(toks, pos, 0) {
        if is_replicant(left) && tok_is(toks, p1, Name::Pattern) {
            safe_binary(toks, p1 + 1, 0);
        }
    }
}

proof fn safe_expression(toks: Seq<TokenV>, pos: int)
    requires
        never_stops(toks),
        0 <= pos,
    ensures
        !(p_expression(toks, pos) is Abort),
        moves_on(p_expression(toks, pos), pos, toks.len() as int),
    decreases rest(toks, pos), 14nat,
{
    safe_pattern(toks, pos);
}

proof fn safe_exp_list(toks: Seq<TokenV>, pos: int, stops: Seq<Name>)
    requires
        never_stops(toks),
        0 <= pos,
    ensures
        !(p_exp_list(toks, pos, stops) is Abort),
        ends_after(p_exp_list(toks, pos, stops), pos),
    decreases rest(toks, pos), 16nat,
{
    if pos <= toks.len() {
        lemma_skip_stops(toks, pos);
        safe_exp_items(toks, skip_stops(toks, pos), stops, Seq::empty());
    }
}

proof fn safe_exp_items(toks: Seq<TokenV>, pos: int, stops: Seq<Name>, acc: Seq<AstV>)
    requires
        never_stops(toks),
        0 <= pos,
    ensures
        !(p_exp_items(toks, pos, stops, acc) is Abort),
        ends_after(p_exp_items(toks, pos, stops, acc), pos),
    decreases rest(toks, pos), 15nat,
{
    if tok_until(toks, pos, stops) {
        safe_expression(toks, pos);
        if let Parsed::Done(e, p1) = p_expression(toks, pos) {
            lemma_skip_ahead(toks, p1);
            safe_exp_items(toks, skip_stops(toks, p1), stops, acc.push(e));
        }
    }
}

proof fn safe_point_list(toks: Seq<TokenV>, pos: int, stops: Seq<Name>)
    requires
        never_stops(toks),
        0 <= pos,
    ensures
        !(p_point_list(toks, pos, stops) is Abort),
        ends_after(p_point_list(toks, pos, stops), pos),
    decreases rest(toks, pos), 18nat,
{
    if pos <= toks.len() {
        lemma_skip_stops(toks, pos);
        safe_points(toks, skip_stops(toks, pos), stops, 0, Seq::empty());
    }
}

proof fn safe_points(toks: Seq<TokenV>, pos: int, stops: Seq<Name>, index: u16, acc: Seq<AstV>)
    requires
        never_stops(toks),
        0 <= pos,
        index <= pos,
    ensures
        !(p_points(toks, pos, stops, index, acc) is Abort),
        ends_after(p_points(toks, pos, stops, index, acc), pos),
    decreases rest(toks, pos), 17nat,
{
    if tok_until(toks, pos, stops) {
        safe_point(toks, pos, index);
        if let Parsed::Done((a, is_point), p1) = p_point(toks, pos, index) {
            lemma_skip_ahead(toks, p1);
            safe_points(
                toks,
                skip_stops(toks, p1),
                stops,
                if is_point {
                    (index + 1) as u16
                } else {
                    index
                },
                acc.push(a),
            );
        }
    }
}

#[verifier::rlimit(40)]
proof fn safe_point(toks: Seq<TokenV>, pos: int, index: u16)
    requires
        never_stops(toks),
        0 <= pos,
    ensures
        !(p_point(toks, pos, index) is Abort),
        moves_on(p_point(toks, pos, index), pos, toks.len() as int),
    decreases rest(toks, pos), 16nat,
{
    if pos <= toks.len() {
        lemma_skip_stops(toks, pos);
        let p0 = skip_stops(toks, pos);
        if tok_is(toks, p0, Name::Colon) {
            safe_unary(toks, p0);
            if let Parsed::Done(c, p1) = p_unary(toks, p0) {
                lemma_skip_ahead(toks, p1);
            }
        } else {
            let is_return = tok_is(toks, p0, Name::Arrow);
            let p1 = if is_return {
                p0 + 1
            } else {
                p0
            };
            let has_key = tok_is(toks, p1, Name::Key);
            let p2 = if has_key {
                p1 + 1
            } else {
                p1
            };
            if has_key {
                assert(toks[p1].name == Name::Key);
            }
            let label = if has_key {
                toks[p1].text.drop_last()
            } else {
                Seq::empty()
            };
            safe_point_value(toks, p2, index, is_return, label);
            assert(p_point(toks, pos, index) == p_point_value(toks, p2, index, is_return, label));
            if has_key {
                assert(p0 < p2);
            } else {
                assert(!tok_is(toks, p2, Name::Key));
            }
        }
    }
}

proof fn safe_point_value(
    toks: Seq<TokenV>,
    pos: int,
    index: u16,
    is_return: bool,
    label: Seq<char>,
)
    requires
        never_stops(toks),
        0 <= pos,
    ensures
        !(p_point_value(toks, pos, index, is_return, label) is Abort),
        p_point_value(toks, pos, index, is_return, label) matches Parsed::Done(_, p) ==> (pos < p
            && pos < toks.len()) || (pos == p && tok_is(toks, pos, Name::Key)),
    decreases rest(toks, pos), 15nat,
{
    if !tok_is(toks, pos, Name::Key) {
        safe_expression(toks, pos);
        if let Parsed::Done(e, p1) = p_expression(toks, pos) {
            lemma_skip_ahead(toks, p1);
        }
    }
}

/// On a token list that holds no number token, no more tokens than there
/// are point indexes, `*` and `/` only as binary operators and only keys
/// that end in an ASCII character, the parse never reaches a point where
/// the program stops: `parser` may be called on it.
pub proof fn law_parse_never_stops(toks: Seq<TokenV>)
    requires
        never_stops(toks),
    ensures
        !(p_program(toks) is Abort),
{
    safe_point_list(toks, 0, Seq::empty());
}

/// What the tokenizer makes of a source never stops the parse, as long as
/// it holds no number token and no more tokens than there are point
/// indexes: its `*` and `/` are binary operators and its keys end in `:`.
pub proof fn law_tokens_never_stop_the_parse(s: Seq<char>)
    requires
        tokenize(s).len() <= u16::MAX,
        forall|j: int| 0 <= j < tokenize(s).len() ==> (#[trigger] tokenize(s)[j]).kind != Kind::Number,
    ensures
        never_stops(tokenize(s)),
        !(p_program(tokenize(s)) is Abort),
{
    let ts = tokenize(s);
    law_tokens_well_formed(s);
    assert forall|j: int| 0 <= j < ts.len() && (#[trigger] ts[j]).name == Name::Key implies ts[j].text.len()
        > 0 && (ts[j].text.last() as u32) < 128 by {
        assert(ts[j].text.last() == ':');
    }
    law_parse_never_stops(ts);
}

/// Tokens that may follow a program and change nothing of a parse that
/// succeeds: newline and comma stops.
pub open spec fn trailing_stops(s: Seq<TokenV>) -> bool {
    forall|j: int|
        0 <= j < s.len() ==> #[trigger] s[j].kind == Kind::Stop && (s[j].name == Name::Newline
            || s[j].name == Name::Comma)
}

/// Position `p` of a list of length `n` and position `q` of that list with
/// trailing stops up to length `m` stand at the same place: the same token,
/// or both at the end of the first list (among the stops).
pub open spec fn same_place(n: int, m: int, p: int, q: int) -> bool {
    (0 <= p < n && q == p) || (p == n && n <= q <= m)
}

/// Where the first parse succeeds, the second one succeeds with the same
/// value, at the same place.
pub open spec fn extends<T>(r: Parsed<T>, r2: Parsed<T>, n: int, m: int) -> bool {
    r matches Parsed::Done(a, p) ==> (r2 matches Parsed::Done(b, q) && b == a && same_place(
        n,
        m,
        p,
        q,
    ))
}

proof fn lemma_not_in(x: Name)
    requires
        x == Name::Newline || x == Name::Comma,
    ensures
        !unary_names().contains(x),
        !seq![Name::ParenLF, Name::SquarenLF, Name::BracketLF].contains(x),
        !seq![Name::Eq, Name::Ne].contains(x),
        !seq![Name::Gt, Name::Ge, Name::Lt, Name::Le].contains(x),
        !seq![Name::Add, Name::Sub].contains(x),
        !seq![Name::Mul, Name::Div].contains(x),
{
    let u = unary_names();
    assert forall|i: int| 0 <= i < u.len() implies u[i] != x by {}
    let b = seq![Name::ParenLF, Name::SquarenLF, Name::BracketLF];
    assert forall|i: int| 0 <= i < b.len() implies b[i] != x by {}
    let e = seq![Name::Eq, Name::Ne];
    assert forall|i: int| 0 <= i < e.len() implies e[i] != x by {}
    let r = seq![Name::Gt, Name::Ge, Name::Lt, Name::Le];
    assert forall|i: int| 0 <= i < r.len() implies r[i] != x by {}
    let a = seq![Name::Add, Name::Sub];
    assert forall|i: int| 0 <= i < a.len() implies a[i] != x by {}
    let m = seq![Name::Mul, Name::Div];
    assert forall|i: int| 0 <= i < m.len() implies m[i] != x by {}
}

/// What the tokens at two places that are the same have in common.
proof fn ext_at(v: Seq<TokenV>, s: Seq<TokenV>, p: int, q: int)
    requires
        trailing_stops(s),
        same_place(v.len() as int, (v + s).len() as int, p, q),
    ensures
        p < v.len() ==> q == p && (v + s)[q] == v[p],
        forall|l: nat| #[trigger] level_has(v + s, q, l) == level_has(v, p, l),
        forall|x: Name|
            x != Name::Newline && x != Name::Comma ==> #[trigger] tok_is(v + s, q, x) == tok_is(
                v,
                p,
                x,
            ),
        tok_any(v + s, q, unary_names()) == tok_any(v, p, unary_names()),
        tok_any(v + s, q, seq![Name::ParenLF, Name::SquarenLF, Name::BracketLF]) == tok_any(
            v,
            p,
            seq![Name::ParenLF, Name::SquarenLF, Name::BracketLF],
        ),
        p_literal(v, p) is Done ==> p < v.len(),
        p_reference(v, p) is Done ==> p < v.len(),
        forall|x: Name| #[trigger] eat_error(v, p, x) is None ==> p < v.len(),
{
    let w = v + s;
    if p == v.len() && q < w.len() {
        let t = s[q - v.len()];
        assert(w[q] == t);
        assert(t.kind == Kind::Stop);
        lemma_not_in(t.name);
    }
}

/// Skipping stops from the same place ends at the same place, and at the
/// very end of the longer list where the shorter one has run out.
proof fn ext_skip_end(v: Seq<TokenV>, s: Seq<TokenV>, q: int)
    requires
        trailing_stops(s),
        v.len() <= q <= (v + s).len(),
    ensures
        skip_stops(v + s, q) == (v + s).len(),
    decreases (v + s).len() - q,
{
    if q < (v + s).len() {
        assert((v + s)[q] == s[q - v.len()]);
        ext_skip_end(v, s, q + 1);
    }
}

proof fn ext_skip(v: Seq<TokenV>, s: Seq<TokenV>, p: int, q: int)
    requires
        trailing_stops(s),
        same_place(v.len() as int, (v + s).len() as int, p, q),
    ensures
        same_place(v.len() as int, (v + s).len() as int, skip_stops(v, p), skip_stops(v + s, q)),
        skip_stops(v, p) == v.len() ==> skip_stops(v + s, q) == (v + s).len(),
        !tok_of(v + s, skip_stops(v + s, q), Kind::Stop),
        p <= skip_stops(v, p),
    decreases v.len() - p,
{
    let w = v + s;
    if p < v.len() {
        assert(w[p] == v[p]);
        if tok_of(v, p, Kind::Stop) {
            ext_skip(v, s, p + 1, q + 1);
        }
    } else {
        ext_skip_end(v, s, q);
    }
}

proof fn ext_binary(v: Seq<TokenV>, s: Seq<TokenV>, p: int, q: int, level: nat)
    requires
        trailing_stops(s),
        same_place(v.len() as int, (v + s).len() as int, p, q),
    ensures
        extends(p_binary(v, p, level), p_binary(v + s, q, level), v.len() as int, (v + s).len() as int),
        p_binary(v, p, level) is Done ==> p < v.len(),
    decreases rest(v, p), level_rank(level),
{
    ext_at(v, s, p, q);
    let first = if level < 7 {
        ext_binary(v, s, p, q, level + 1);
        p_binary(v, p, level + 1)
    } else if level == 7 {
        ext_unary(v, s, p, q);
        p_unary(v, p)
    } else {
        ext_primary(v, s, p, q);
        p_primary(v, p)
    };
    if p < v.len() {
        shift_binary(Seq::empty(), v, p, level);
        shift_binary(Seq::empty(), v, p, level + 1);
        shift_unary(Seq::empty(), v, p);
        shift_primary(Seq::empty(), v, p);
        assert(Seq::<TokenV>::empty() + v =~= v);
    }
    match first {
        Parsed::Done(left, p1) => {
            let q1 = match if level < 7 {
                p_binary(v + s, q, level + 1)
            } else if level == 7 {
                p_unary(v + s, q)
            } else {
                p_primary(v + s, q)
            } {
                Parsed::Done(_, q1) => q1,
                _ => 0,
            };
            if rest(v, p1) <= rest(v, p) {
                ext_tail(v, s, p1, q1, level, left);
            }
        },
        _ => {},
    }
}

proof fn ext_tail(v: Seq<TokenV>, s: Seq<TokenV>, p: int, q: int, level: nat, left: AstV)
    requires
        trailing_stops(s),
        same_place(v.len() as int, (v + s).len() as int, p, q),
    ensures
        extends(
            p_binary_tail(v, p, level, left),
            p_binary_tail(v + s, q, level, left),
            v.len() as int,
            (v + s).len() as int,
        ),
    decreases rest(v, p), 0nat,
{
    ext_at(v, s, p, q);
    if level_has(v, p, level) {
        let t = v[p];
        if 2 <= level <= 5 && t.kind != Kind::Binary {
        } else {
            let right = if level < 7 {
                ext_binary(v, s, p + 1, q + 1, level + 1);
                p_binary(v, p + 1, level + 1)
            } else if level == 7 {
                ext_unary(v, s, p + 1, q + 1);
                p_unary(v, p + 1)
            } else {
                ext_primary(v, s, p + 1, q + 1);
                p_primary(v, p + 1)
            };
            let right2 = if level < 7 {
                p_binary(v + s, q + 1, level + 1)
            } else if level == 7 {
                p_unary(v + s, q + 1)
            } else {
                p_primary(v + s, q + 1)
            };
            match right {
                Parsed::Done(r, p2) => {
                    if rest(v, p2) < rest(v, p) {
                        let q2 = match right2 {
                            Parsed::Done(_, q2) => q2,
                            _ => 0,
                        };
                        ext_tail(
                            v,
                            s,
                            p2,
                            q2,
                            level,
                            AstV::Op2(t.name, Box::new(left), Box::new(r)),
                        );
                    }
                },
                _ => {},
            }
        }
    }
}

proof fn ext_unary(v: Seq<TokenV>, s: Seq<TokenV>, p: int, q: int)
    requires
        trailing_stops(s),
        same_place(v.len() as int, (v + s).len() as int, p, q),
    ensures
        extends(p_unary(v, p), p_unary(v + s, q), v.len() as int, (v + s).len() as int),
        p_unary(v, p) is Done ==> p < v.len(),
    decreases rest(v, p), 4nat,
{
    ext_at(v, s, p, q);
    if tok_any(v, p, unary_names()) {
        ext_unary(v, s, p + 1, q + 1);
    } else {
        ext_replicate(v, s, p, q);
    }
}

proof fn ext_replicate(v: Seq<TokenV>, s: Seq<TokenV>, p: int, q: int)
    requires
        trailing_stops(s),
        same_place(v.len() as int, (v + s).len() as int, p, q),
    ensures
        extends(p_replicate(v, p), p_replicate(v + s, q), v.len() as int, (v + s).len() as int),
        p_replicate(v, p) is Done ==> p < v.len(),
    decreases rest(v, p), 3nat,
{
    ext_binary(v, s, p, q, 8);
    if let Parsed::Done(r, p1) = p_binary(v, p, 8) {
        let q1 = match p_binary(v + s, q, 8) {
            Parsed::Done(_, q1) => q1,
            _ => 0,
        };
        ext_at(v, s, p1, q1);
        if tok_any(v, p1, seq![Name::ParenLF, Name::SquarenLF, Name::BracketLF]) && rest(v, p1)
            < rest(v, p) {
            ext_expression(v, s, p1, q1);
        }
    }
}

proof fn ext_primary(v: Seq<TokenV>, s: Seq<TokenV>, p: int, q: int)
    requires
        trailing_stops(s),
        same_place(v.len() as int, (v + s).len() as int, p, q),
    ensures
        extends(p_primary(v, p), p_primary(v + s, q), v.len() as int, (v + s).len() as int),
        p_primary(v, p) is Done ==> p < v.len(),
    decreases rest(v, p), 1nat,
{
    ext_at(v, s, p, q);
    if p < v.len() {
        ext_paren(v, s, p, q);
        ext_array(v, s, p, q);
        ext_graph(v, s, p, q);
    }
}

proof fn ext_paren(v: Seq<TokenV>, s: Seq<TokenV>, p: int, q: int)
    requires
        trailing_stops(s),
        same_place(v.len() as int, (v + s).len() as int, p, q),
        p < v.len(),
    ensures
        extends(p_paren(v, p), p_paren(v + s, q), v.len() as int, (v + s).len() as int),
    decreases rest(v, p), 0nat,
{
    ext_at(v, s, p, q);
    if eat_error(v, p, Name::ParenLF) is None {
        ext_expression(v, s, p + 1, q + 1);
        if let Parsed::Done(e, p1) = p_expression(v, p + 1) {
            let q1 = match p_expression(v + s, q + 1) {
                Parsed::Done(_, q1) => q1,
                _ => 0,
            };
            ext_at(v, s, p1, q1);
        }
    }
}

proof fn ext_array(v: Seq<TokenV>, s: Seq<TokenV>, p: int, q: int)
    requires
        trailing_stops(s),
        same_place(v.len() as int, (v + s).len() as int, p, q),
        p < v.len(),
    ensures
        extends(p_array(v, p), p_array(v + s, q), v.len() as int, (v + s).len() as int),
    decreases rest(v, p), 0nat,
{
    ext_at(v, s, p, q);
    if eat_error(v, p, Name::SquarenLF) is None {
        ext_exp_list(v, s, p + 1, q + 1, seq![Name::SquarenRT]);
        if let Parsed::Done(e, p1) = p_exp_list(v, p + 1, seq![Name::SquarenRT]) {
            let q1 = match p_exp_list(v + s, q + 1, seq![Name::SquarenRT]) {
                Parsed::Done(_, q1) => q1,
                _ => 0,
            };
            ext_at(v, s, p1, q1);
        }
    }
}

#[verifier::rlimit(40)]
proof fn ext_graph(v: Seq<TokenV>, s: Seq<TokenV>, p: int, q: int)
    requires
        trailing_stops(s),
        same_place(v.len() as int, (v + s).len() as int, p, q),
        p < v.len(),
    ensures
        extends(p_graph(v, p), p_graph(v + s, q), v.len() as int, (v + s).len() as int),
    decreases rest(v, p), 0nat,
{
    ext_at(v, s, p, q);
    if eat_error(v, p, Name::BracketLF) is None {
        ext_point_list(v, s, p + 1, q + 1, seq![Name::BracketRT]);
        if let Parsed::Done(e, p1) = p_point_list(v, p + 1, seq![Name::BracketRT]) {
            let q1 = match p_point_list(v + s, q + 1, seq![Name::BracketRT]) {
                Parsed::Done(_, q1) => q1,
                _ => 0,
            };
            ext_at(v, s, p1, q1);
        }
    }
}

proof fn ext_pattern(v: Seq<TokenV>, s: Seq<TokenV>, p: int, q: int)
    requires
        trailing_stops(s),
        same_place(v.len() as int, (v + s).len() as int, p, q),
    ensures
        extends(p_pattern(v, p), p_pattern(v + s, q), v.len() as int, (v + s).len() as int),
        p_pattern(v, p) is Done ==> p < v.len(),
    decreases rest(v, p), 13nat,
{
    ext_binary(v, s, p, q, 0);
    if let Parsed::Done(left, p1) = p_binary(v, p, 0) {
        let q1 = match p_binary(v + s, q, 0) {
            Parsed::Done(_, q1) => q1,
            _ => 0,
        };
        ext_at(v, s, p1, q1);
        if is_replicant(left) && tok_is(v, p1, Name::Pattern) && rest(v, p1) <= rest(v, p) {
            ext_binary(v, s, p1 + 1, q1 + 1, 0);
        }
    }
}

proof fn ext_expression(v: Seq<TokenV>, s: Seq<TokenV>, p: int, q: int)
    requires
        trailing_stops(s),
        same_place(v.len() as int, (v + s).len() as int, p, q),
    ensures
        extends(p_expression(v, p), p_expression(v + s, q), v.len() as int, (v + s).len() as int),
        p_expression(v, p) is Done ==> p < v.len(),
    decreases rest(v, p), 14nat,
{
    ext_pattern(v, s, p, q);
}

proof fn ext_exp_list(v: Seq<TokenV>, s: Seq<TokenV>, p: int, q: int, stops: Seq<Name>)
    requires
        trailing_stops(s),
        same_place(v.len() as int, (v + s).len() as int, p, q),
    ensures
        extends(
            p_exp_list(v, p, stops),
            p_exp_list(v + s, q, stops),
            v.len() as int,
            (v + s).len() as int,
        ),
    decreases rest(v, p), 16nat,
{
    lemma_skip_stops(v, p);
    lemma_skip_stops(v + s, q);
    ext_skip(v, s, p, q);
    ext_exp_items(v, s, skip_stops(v, p), skip_stops(v + s, q), stops, Seq::empty());
}

proof fn ext_exp_items(
    v: Seq<TokenV>,
    s: Seq<TokenV>,
    p: int,
    q: int,
    stops: Seq<Name>,
    acc: Seq<AstV>,
)
    requires
        trailing_stops(s),
        same_place(v.len() as int, (v + s).len() as int, p, q),
        !tok_of(v + s, q, Kind::Stop),
    ensures
        extends(
            p_exp_items(v, p, stops, acc),
            p_exp_items(v + s, q, stops, acc),
            v.len() as int,
            (v + s).len() as int,
        ),
    decreases rest(v, p), 15nat,
{
    ext_at(v, s, p, q);
    if p == v.len() && q < (v + s).len() {
        assert((v + s)[q] == s[q - v.len()]);
    }
    if tok_until(v, p, stops) {
        ext_expression(v, s, p, q);
        if let Parsed::Done(e, p1) = p_expression(v, p) {
            let q1 = match p_expression(v + s, q) {
                Parsed::Done(_, q1) => q1,
                _ => 0,
            };
            ext_skip(v, s, p1, q1);
            lemma_skip_stops(v, p1);
            let p2 = skip_stops(v, p1);
            let q2 = skip_stops(v + s, q1);
            if rest(v, p2) < rest(v, p) {
                ext_exp_items(v, s, p2, q2, stops, acc.push(e));
            }
        }
    }
}

proof fn ext_point_list(v: Seq<TokenV>, s: Seq<TokenV>, p: int, q: int, stops: Seq<Name>)
    requires
        trailing_stops(s),
        same_place(v.len() as int, (v + s).len() as int, p, q),
    ensures
        extends(
            p_point_list(v, p, stops),
            p_point_list(v + s, q, stops),
            v.len() as int,
            (v + s).len() as int,
        ),
    decreases rest(v, p), 18nat,
{
    lemma_skip_stops(v, p);
    lemma_skip_stops(v + s, q);
    ext_skip(v, s, p, q);
    ext_points(v, s, skip_stops(v, p), skip_stops(v + s, q), stops, 0, Seq::empty());
}

proof fn ext_points(
    v: Seq<TokenV>,
    s: Seq<TokenV>,
    p: int,
    q: int,
    stops: Seq<Name>,
    index: u16,
    acc: Seq<AstV>,
)
    requires
        trailing_stops(s),
        same_place(v.len() as int, (v + s).len() as int, p, q),
        !tok_of(v + s, q, Kind::Stop),
    ensures
        extends(
            p_points(v, p, stops, index, acc),
            p_points(v + s, q, stops, index, acc),
            v.len() as int,
            (v + s).len() as int,
        ),
    decreases rest(v, p), 17nat,
{
    ext_at(v, s, p, q);
    if p == v.len() && q < (v + s).len() {
        assert((v + s)[q] == s[q - v.len()]);
    }
    if tok_until(v, p, stops) {
        ext_point(v, s, p, q, index);
        if let Parsed::Done((a, is_point), p1) = p_point(v, p, index) {
            if !(is_point && index == u16::MAX) {
                let q1 = match p_point(v + s, q, index) {
                    Parsed::Done(_, q1) => q1,
                    _ => 0,
                };
                ext_skip(v, s, p1, q1);
                lemma_skip_stops(v, p1);
                let p2 = skip_stops(v, p1);
                let q2 = skip_stops(v + s, q1);
                if rest(v, p2) < rest(v, p) {
                    ext_points(
                        v,
                        s,
                        p2,
                        q2,
                        stops,
                        if is_point {
                            (index + 1) as u16
                        } else {
                            index
                        },
                        acc.push(a),
                    );
                }
            }
        }
    }
}

#[verifier::rlimit(40)]
proof fn ext_point(v: Seq<TokenV>, s: Seq<TokenV>, p: int, q: int, index: u16)
    requires
        trailing_stops(s),
        same_place(v.len() as int, (v + s).len() as int, p, q),
        p < v.len(),
    ensures
        extends(p_point(v, p, index), p_point(v + s, q, index), v.len() as int, (v + s).len() as int),
    decreases rest(v, p), 16nat,
{
    lemma_skip_stops(v, p);
    lemma_skip_stops(v + s, q);
    ext_skip(v, s, p, q);
    let p0 = skip_stops(v, p);
    let q0 = skip_stops(v + s, q);
    ext_at(v, s, p0, q0);
    if tok_is(v, p0, Name::Colon) {
        ext_unary(v, s, p0, q0);
        if let Parsed::Done(c, p1) = p_unary(v, p0) {
            let q1 = match p_unary(v + s, q0) {
                Parsed::Done(_, q1) => q1,
                _ => 0,
            };
            ext_skip(v, s, p1, q1);
        }
    } else {
        let is_return = tok_is(v, p0, Name::Arrow);
        let p1 = if is_return {
            p0 + 1
        } else {
            p0
        };
        let q1 = if is_return {
            q0 + 1
        } else {
            q0
        };
        ext_at(v, s, p1, q1);
        let has_key = tok_is(v, p1, Name::Key);
        let p2 = if has_key {
            p1 + 1
        } else {
            p1
        };
        let q2 = if has_key {
            q1 + 1
        } else {
            q1
        };
        let text = v[p1].text;
        if has_key && (text.len() == 0 || (text.last() as u32) >= 128) {
        } else {
            let label = if has_key {
                text.drop_last()
            } else {
                Seq::empty()
            };
            ext_point_value(v, s, p2, q2, index, is_return, label);
        }
    }
}

proof fn ext_point_value(
    v: Seq<TokenV>,
    s: Seq<TokenV>,
    p: int,
    q: int,
    index: u16,
    is_return: bool,
    label: Seq<char>,
)
    requires
        trailing_stops(s),
        same_place(v.len() as int, (v + s).len() as int, p, q),
    ensures
        extends(
            p_point_value(v, p, index, is_return, label),
            p_point_value(v + s, q, index, is_return, label),
            v.len() as int,
            (v + s).len() as int,
        ),
    decreases rest(v, p), 15nat,
{
    ext_at(v, s, p, q);
    if !tok_is(v, p, Name::Key) {
        ext_expression(v, s, p, q);
        if let Parsed::Done(e, p1) = p_expression(v, p) {
            let q1 = match p_expression(v + s, q) {
                Parsed::Done(_, q1) => q1,
                _ => 0,
            };
            ext_skip(v, s, p1, q1);
        }
    }
}

/// Newlines and commas after a program that parses change nothing of its
/// tree: where `toks` parses, `toks + s`, with `s` only newline and comma
/// stops, parses to the same tree.
pub proof fn law_trailing_stops(toks: Seq<TokenV>, s: Seq<TokenV>)
    requires
        trailing_stops(s),
    ensures
        p_program(toks) matches Parsed::Done(a, _) ==> p_program(toks + s) matches Parsed::Done(
            b,
            _,
        ) && b == a,
{
    ext_point_list(toks, s, 0, 0, Seq::empty());
}


/// The level at which the parser takes a binary operator, from the weakest:
/// `|`; `&`; `=` and `!=`; `>`, `>=`, `<`, `<=`; `+` and `-`; `*` and `/`;
/// `^`; ranges; selection. Other names are no binary operator (-1).
pub open spec fn operator_level(name: Name) -> int {
    match name {
        Name::Or => 0,
        Name::And => 1,
        Name::Eq | Name::Ne => 2,
        Name::Gt | Name::Ge | Name::Lt | Name::Le => 3,
        Name::Add | Name::Sub => 4,
        Name::Mul | Name::Div => 5,
        Name::Exp => 6,
        Name::Range => 7,
        Name::Select => 8,
        _ => -1,
    }
}

proof fn lemma_contains2(a: Name, b: Name, x: Name)
    ensures
        seq![a, b].contains(x) == (x == a || x == b),
{
    let q = seq![a, b];
    if x == a {
        assert(q[0] == x);
    } else if x == b {
        assert(q[1] == x);
    } else {
        assert forall|k: int| 0 <= k < q.len() implies q[k] != x by {}
    }
}

proof fn lemma_contains4(a: Name, b: Name, c: Name, d: Name, x: Name)
    ensures
        seq![a, b, c, d].contains(x) == (x == a || x == b || x == c || x == d),
{
    let q = seq![a, b, c, d];
    if x == a {
        assert(q[0] == x);
    } else if x == b {
        assert(q[1] == x);
    } else if x == c {
        assert(q[2] == x);
    } else if x == d {
        assert(q[3] == x);
    } else {
        assert forall|k: int| 0 <= k < q.len() implies q[k] != x by {}
    }
}

/// The binary level at `pos` holds the operator that the token's name is.
proof fn lemma_level_has(toks: Seq<TokenV>, pos: int, level: nat)
    requires
        level <= 8,
    ensures
        level_has(toks, pos, level) == (0 <= pos < toks.len() && operator_level(toks[pos].name)
            == level),
{
    if 0 <= pos < toks.len() {
        let x = toks[pos].name;
        lemma_contains2(Name::Eq, Name::Ne, x);
        lemma_contains4(Name::Gt, Name::Ge, Name::Lt, Name::Le, x);
        lemma_contains2(Name::Add, Name::Sub, x);
        lemma_contains2(Name::Mul, Name::Div, x);
    }
}

/// A reference token, as a tree.
pub open spec fn ref_of(t: TokenV) -> AstV {
    AstV::Ref(t.text)
}

pub open spec fn is_reference(t: TokenV) -> bool {
    t.kind == Kind::Label && t.name == Name::Ref
}

proof fn lemma_not_unary(t: TokenV)
    requires
        is_reference(t) || operator_level(t.name) >= 0,
    ensures
        is_reference(t) ==> !unary_names().contains(t.name),
        !seq![Name::ParenLF, Name::SquarenLF, Name::BracketLF].contains(t.name),
{
    let u = unary_names();
    if is_reference(t) {
        assert forall|k: int| 0 <= k < u.len() implies u[k] != t.name by {}
    }
    let b = seq![Name::ParenLF, Name::SquarenLF, Name::BracketLF];
    assert forall|k: int| 0 <= k < b.len() implies b[k] != t.name by {}
}

/// A reference that ends the list is, at every level, that reference.
proof fn lemma_last_reference(toks: Seq<TokenV>, pos: int, level: nat)
    requires
        0 <= pos,
        pos + 1 == toks.len(),
        is_reference(toks[pos]),
        level <= 8,
    ensures
        p_primary(toks, pos) == Parsed::Done(ref_of(toks[pos]), pos + 1),
        p_unary(toks, pos) == Parsed::Done(ref_of(toks[pos]), pos + 1),
        p_binary(toks, pos, level) == Parsed::Done(ref_of(toks[pos]), pos + 1),
    decreases 8 - level,
{
    lemma_not_unary(toks[pos]);
    lemma_level_has(toks, pos + 1, level);
    lemma_level_has(toks, pos + 1, 7);
    lemma_level_has(toks, pos + 1, 8);
    assert(p_primary(toks, pos) == Parsed::Done(ref_of(toks[pos]), pos + 1));
    assert(p_binary(toks, pos, 8) == Parsed::Done(ref_of(toks[pos]), pos + 1));
    assert(p_replicate(toks, pos) == Parsed::Done(ref_of(toks[pos]), pos + 1));
    assert(p_unary(toks, pos) == Parsed::Done(ref_of(toks[pos]), pos + 1));
    if level < 8 {
        lemma_last_reference(toks, pos, level + 1);
        assert(p_binary_tail(toks, pos + 1, level, ref_of(toks[pos])) == Parsed::Done(
            ref_of(toks[pos]),
            pos + 1,
        ));
    }
}

/// The tree of `l op r`.
pub open spec fn operation_of(l: TokenV, op: TokenV, r: TokenV) -> AstV {
    AstV::Op2(op.name, Box::new(ref_of(l)), Box::new(ref_of(r)))
}

/// At each level, `l op r` is `l` alone above the operator's level, and the
/// whole operation at and below it.
proof fn lemma_operation_levels(l: TokenV, op: TokenV, r: TokenV, level: nat)
    requires
        is_reference(l),
        is_reference(r),
        op.kind == Kind::Binary,
        0 <= operator_level(op.name) <= 8,
        level <= 8,
    ensures
        p_binary(seq![l, op, r], 0, level) == if level > operator_level(op.name) {
            Parsed::Done(ref_of(l), 1)
        } else {
            Parsed::Done(operation_of(l, op, r), 3)
        },
        level == 8 ==> p_unary(seq![l, op, r], 0) == p_binary(seq![l, op, r], 0, 8),
        p_primary(seq![l, op, r], 0) == Parsed::Done(ref_of(l), 1),
    decreases 8 - level,
{
    let toks = seq![l, op, r];
    let lv = operator_level(op.name);
    lemma_not_unary(l);
    lemma_not_unary(op);
    lemma_level_has(toks, 1, level);
    lemma_level_has(toks, 3, level);
    lemma_level_has(toks, 1, 8);
    lemma_level_has(toks, 3, 8);
    lemma_level_has(toks, 1, 7);
    lemma_level_has(toks, 3, 7);
    assert(toks[2] == r);
    if level < 8 {
        lemma_last_reference(toks, 2, level + 1);
    }
    lemma_last_reference(toks, 2, 8);
    assert(p_primary(toks, 0) == Parsed::Done(ref_of(l), 1));
    assert(p_primary(toks, 2) == Parsed::Done(ref_of(r), 3));
    assert(p_binary_tail(toks, 3, 8, operation_of(l, op, r)) == Parsed::Done(
        operation_of(l, op, r),
        3,
    ));
    if lv == 8 {
        assert(p_binary_tail(toks, 1, 8, ref_of(l)) == Parsed::Done(operation_of(l, op, r), 3));
    } else {
        assert(p_binary_tail(toks, 1, 8, ref_of(l)) == Parsed::Done(ref_of(l), 1));
    }
    let at8 = if 8 > lv {
        Parsed::Done(ref_of(l), 1)
    } else {
        Parsed::Done(operation_of(l, op, r), 3)
    };
    assert(p_binary(toks, 0, 8) == at8);
    assert(p_replicate(toks, 0) == at8);
    assert(p_unary(toks, 0) == at8);
    if level < 8 {
        lemma_operation_levels(l, op, r, level + 1);
        assert(p_unary(toks, 2) == Parsed::Done(ref_of(r), 3));
        assert(p_binary(toks, 2, level + 1) == Parsed::Done(ref_of(r), 3));
        assert(p_binary_tail(toks, 3, level, operation_of(l, op, r)) == Parsed::Done(
            operation_of(l, op, r),
            3,
        ));
        if level == lv {
            assert(p_binary_tail(toks, 1, level, ref_of(l)) == Parsed::Done(
                operation_of(l, op, r),
                3,
            ));
        } else if level > lv {
            assert(p_binary_tail(toks, 1, level, ref_of(l)) == Parsed::Done(ref_of(l), 1));
        }
    }
}

/// A binary operator between two references parses as the operation on
/// them: the program `l op r` is one point, with no label, index 0 and no
/// return, holding `Op2(op, l, r)`; for every operator of the parser's
/// levels, given as a token of kind `Binary`.
pub proof fn law_binary_operation(l: TokenV, op: TokenV, r: TokenV)
    requires
        is_reference(l),
        is_reference(r),
        op.kind == Kind::Binary,
        0 <= operator_level(op.name) <= 8,
    ensures
        p_program(seq![l, op, r]) == Parsed::Done(
            AstV::Point(
                "Program"@,
                0,
                false,
                Box::new(
                    AstV::Graph(
                        seq![AstV::Point(Seq::empty(), 0, false, Box::new(operation_of(l, op, r)))],
                    ),
                ),
            ),
            3,
        ),
{
    let toks = seq![l, op, r];
    let e = operation_of(l, op, r);
    let pt = AstV::Point(Seq::empty(), 0, false, Box::new(e));
    lemma_operation_levels(l, op, r, 0);
    assert(toks[0] == l);
    assert(skip_stops(toks, 0) == 0);
    assert(skip_stops(toks, 3) == 3);
    assert(p_expression(toks, 0) == Parsed::Done(e, 3));
    assert(p_point_value(toks, 0, 0, false, Seq::empty()) == Parsed::Done((pt, true), 3));
    assert(p_point(toks, 0, 0) == Parsed::Done((pt, true), 3));
    assert(Seq::<AstV>::empty().push(pt) =~= seq![pt]);
    assert(p_points(toks, 3, Seq::empty(), 1, seq![pt]) == Parsed::Done(seq![pt], 3));
    assert(p_points(toks, 0, Seq::empty(), 0, Seq::empty()) == Parsed::Done(seq![pt], 3));
    assert(p_point_list(toks, 0, Seq::empty()) == Parsed::Done(seq![pt], 3));
}

/// The label that a key at `pos` gives a point: the key's text without its
/// closing `:`, or no label where no key stands there.
pub open spec fn key_label(toks: Seq<TokenV>, pos: int) -> Seq<char> {
    if tok_is(toks, pos, Name::Key) {
        toks[pos].text.drop_last()
    } else {
        Seq::empty()
    }
}

/// The parts of a point. After the stops, a point that starts with `:` is a
/// connection, `Op1(Colon, ..)`. Any other point gets the index it is given;
/// it returns exactly where it starts with an arrow, with a key after the
/// arrow or not; and its label is that of the key after the arrow, if any.
pub proof fn law_point_parts(toks: Seq<TokenV>, pos: int, index: u16)
    requires
        0 <= pos,
    ensures
        p_point(toks, pos, index) matches Parsed::Done((a, is_point), _) ==> ({
            let p0 = skip_stops(toks, pos);
            let arrow = tok_is(toks, p0, Name::Arrow);
            let p1 = if arrow {
                p0 + 1
            } else {
                p0
            };
            if is_point {
                !tok_is(toks, p0, Name::Colon) && (a matches AstV::Point(label, i, r, _) && i
                    == index && r == arrow && label == key_label(toks, p1))
            } else {
                tok_is(toks, p0, Name::Colon) && (a matches AstV::Op1(n, _) && n == Name::Colon)
            }
        }),
{
    if pos <= toks.len() {
        let p0 = skip_stops(toks, pos);
        if tok_is(toks, p0, Name::Colon) {
            assert(unary_names()[4] == Name::Colon);
            assert(tok_any(toks, p0, unary_names()));
        }
    }
}

/// The tree of `a o1 b o2 c`: the operator of the stronger level takes its
/// operands first, and of two operators of one level the left one does.
pub open spec fn two_operations(a: TokenV, o1: TokenV, b: TokenV, o2: TokenV, c: TokenV) -> AstV {
    if operator_level(o1.name) >= operator_level(o2.name) {
        AstV::Op2(o2.name, Box::new(operation_of(a, o1, b)), Box::new(ref_of(c)))
    } else {
        AstV::Op2(o1.name, Box::new(ref_of(a)), Box::new(operation_of(b, o2, c)))
    }
}

pub open spec fn is_operator(t: TokenV) -> bool {
    t.kind == Kind::Binary && 0 <= operator_level(t.name) <= 8
}

/// What `b o2 c` parses to inside `a o1 b o2 c`, at each level.
proof fn lemma_right_part(a: TokenV, o1: TokenV, b: TokenV, o2: TokenV, c: TokenV, level: nat)
    requires
        is_reference(a),
        is_reference(b),
        is_reference(c),
        is_operator(o1),
        is_operator(o2),
        level <= 8,
    ensures
        p_binary(seq![a, o1, b, o2, c], 2, level) == if level > operator_level(o2.name) {
            Parsed::Done(ref_of(b), 3)
        } else {
            Parsed::Done(operation_of(b, o2, c), 5)
        },
        p_unary(seq![a, o1, b, o2, c], 2) == p_binary(seq![a, o1, b, o2, c], 2, 8),
        p_primary(seq![a, o1, b, o2, c], 2) == Parsed::Done(ref_of(b), 3),
        p_binary(seq![a, o1, b, o2, c], 4, level) == Parsed::Done(ref_of(c), 5),
        p_unary(seq![a, o1, b, o2, c], 4) == Parsed::Done(ref_of(c), 5),
        p_primary(seq![a, o1, b, o2, c], 4) == Parsed::Done(ref_of(c), 5),
{
    let w = seq![a, o1, b, o2, c];
    let pre = seq![a, o1];
    let toks = seq![b, o2, c];
    assert(pre + toks =~= w);
    lemma_operation_levels(b, o2, c, level);
    lemma_operation_levels(b, o2, c, 8);
    shift_binary(pre, toks, 0, level);
    shift_binary(pre, toks, 0, 8);
    shift_unary(pre, toks, 0);
    shift_primary(pre, toks, 0);
    assert(w[4] == c);
    lemma_last_reference(w, 4, level);
}

/// At each level, what `a o1 b o2 c` parses to from its start.
proof fn lemma_two_levels(a: TokenV, o1: TokenV, b: TokenV, o2: TokenV, c: TokenV, level: nat)
    requires
        is_reference(a),
        is_reference(b),
        is_reference(c),
        is_operator(o1),
        is_operator(o2),
        level <= 8,
    ensures
        p_binary(seq![a, o1, b, o2, c], 0, level) == ({
            let l1 = operator_level(o1.name);
            let l2 = operator_level(o2.name);
            if level > l1 {
                Parsed::Done(ref_of(a), 1)
            } else if l1 >= l2 && level > l2 {
                Parsed::Done(operation_of(a, o1, b), 3)
            } else {
                Parsed::Done(two_operations(a, o1, b, o2, c), 5)
            }
        }),
        level == 8 ==> p_unary(seq![a, o1, b, o2, c], 0) == p_binary(seq![a, o1, b, o2, c], 0, 8),
    decreases 8 - level,
{
    let w = seq![a, o1, b, o2, c];
    let l1 = operator_level(o1.name);
    let l2 = operator_level(o2.name);
    let ra = ref_of(a);
    let ab = operation_of(a, o1, b);
    let all = two_operations(a, o1, b, o2, c);
    lemma_not_unary(a);
    lemma_not_unary(o1);
    lemma_not_unary(o2);
    lemma_level_has(w, 1, level);
    lemma_level_has(w, 3, level);
    lemma_level_has(w, 5, level);
    lemma_level_has(w, 1, 8);
    lemma_level_has(w, 3, 8);
    lemma_level_has(w, 5, 8);
    assert(w[0] == a && w[1] == o1 && w[2] == b && w[3] == o2 && w[4] == c);
    lemma_right_part(a, o1, b, o2, c, level);
    if level < 8 {
        lemma_right_part(a, o1, b, o2, c, level + 1);
    }
    assert(p_primary(w, 0) == Parsed::Done(ra, 1));
    assert(p_binary_tail(w, 5, level, all) == Parsed::Done(all, 5));
    assert(p_binary_tail(w, 5, level, ab) == Parsed::Done(ab, 5));
    let c_op = AstV::Op2(o2.name, Box::new(ab), Box::new(ref_of(c)));
    assert(p_binary_tail(w, 5, level, c_op) == Parsed::Done(c_op, 5));
    assert(p_binary_tail(w, 3, level, ab) == if l2 == level {
        Parsed::Done(c_op, 5)
    } else {
        Parsed::Done(ab, 3)
    });
    let bc = operation_of(b, o2, c);
    let a_op = AstV::Op2(o1.name, Box::new(ra), Box::new(bc));
    assert(p_binary_tail(w, 5, level, a_op) == Parsed::Done(a_op, 5));
    assert(p_binary_tail(w, 1, level, ra) == if l1 != level {
        Parsed::Done(ra, 1)
    } else if l2 > level {
        Parsed::Done(a_op, 5)
    } else if l2 == level {
        Parsed::Done(c_op, 5)
    } else {
        Parsed::Done(ab, 3)
    });
    if level < 8 {
        lemma_two_levels(a, o1, b, o2, c, level + 1);
    } else {
        assert(p_binary(w, 0, 8) == p_binary_tail(w, 1, 8, ra));
        assert(p_replicate(w, 0) == p_binary(w, 0, 8));
    }
}

/// Two binary operators between three references group by their levels:
/// the program `a o1 b o2 c` is one point holding `(a o1 b) o2 c` where
/// `o1` is of the same level as `o2` or a stronger one, and `a o1 (b o2 c)`
/// where `o2` is of a stronger level.
pub proof fn law_operators_group_by_level(a: TokenV, o1: TokenV, b: TokenV, o2: TokenV, c: TokenV)
    requires
        is_reference(a),
        is_reference(b),
        is_reference(c),
        is_operator(o1),
        is_operator(o2),
    ensures
        p_program(seq![a, o1, b, o2, c]) == Parsed::Done(
            AstV::Point(
                "Program"@,
                0,
                false,
                Box::new(
                    AstV::Graph(
                        seq![
                            AstV::Point(
                                Seq::empty(),
                                0,
                                false,
                                Box::new(two_operations(a, o1, b, o2, c)),
                            ),
                        ],
                    ),
                ),
            ),
            5,
        ),
{
    let toks = seq![a, o1, b, o2, c];
    let e = two_operations(a, o1, b, o2, c);
    let pt = AstV::Point(Seq::empty(), 0, false, Box::new(e));
    lemma_two_levels(a, o1, b, o2, c, 0);
    assert(toks[0] == a);
    assert(skip_stops(toks, 0) == 0);
    assert(skip_stops(toks, 5) == 5);
    assert(p_expression(toks, 0) == Parsed::Done(e, 5));
    assert(p_point_value(toks, 0, 0, false, Seq::empty()) == Parsed::Done((pt, true), 5));
    assert(p_point(toks, 0, 0) == Parsed::Done((pt, true), 5));
    assert(Seq::<AstV>::empty().push(pt) =~= seq![pt]);
    assert(p_points(toks, 5, Seq::empty(), 1, seq![pt]) == Parsed::Done(seq![pt], 5));
    assert(p_points(toks, 0, Seq::empty(), 0, Seq::empty()) == Parsed::Done(seq![pt], 5));
    assert(p_point_list(toks, 0, Seq::empty()) == Parsed::Done(seq![pt], 5));
}

} // verus!

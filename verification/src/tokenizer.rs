//! A tokenizer that sorts text into broad categories.

use crate::scan::{
    any_char, any_char_len, block_comment, block_comment_len, lemma_close_bound, lemma_span_bound,
    line_comment, line_comment_len, number, number_len, one, one_len, reserved, reserved_len, sign,
    span, span_of, string, string_len, two, two_len, unicode_word_char, word, word_len, Class,
    lemma_span_run,
};
use crate::compiler::tokenizer::word_run;
use crate::text::{chars_of, string_of};
use vstd::prelude::*;

verus! {

/// The category of a piece of source text.
#[derive(Debug, Clone, Copy)]
pub enum Category {
    Skip,
    Newline,
    Comma,
    Semicolon,
    Arrow,
    Number,
    ReservedWord,
    Operator,
    Paren,
    Squaren,
    Bracket,
    Colon,
    String,
    Word,
    Invalid,
}

/// The rule that takes the text at `i`: the first that applies of, in
/// order, a run of newlines and carriage returns; blanks; `//` and `/* */`
/// comments; `,`; `;`; `→`; `->`; a number; the words `if`, `else`, `true`,
/// `false` when no word character follows; a run of operator characters;
/// brackets; `:`; a string; a word; any other character.
pub open spec fn category_at(s: Seq<char>, i: int) -> (Category, nat) {
    if span(s, i, Class::LineBreak) > 0 {
        (Category::Newline, span(s, i, Class::LineBreak))
    } else if span(s, i, Class::Blank) > 0 {
        (Category::Skip, span(s, i, Class::Blank))
    } else if line_comment(s, i) > 0 {
        (Category::Skip, line_comment(s, i))
    } else if block_comment(s, i) > 0 {
        (Category::Skip, block_comment(s, i))
    } else if one(s, i, ',') > 0 {
        (Category::Comma, one(s, i, ','))
    } else if one(s, i, ';') > 0 {
        (Category::Semicolon, one(s, i, ';'))
    } else if one(s, i, '→') > 0 {
        (Category::Arrow, one(s, i, '→'))
    } else if two(s, i, '-', '>') > 0 {
        (Category::Arrow, two(s, i, '-', '>'))
    } else if number(s, i) > 0 {
        (Category::Number, number(s, i))
    } else if reserved(s, i, seq!['i', 'f']) > 0 {
        (Category::ReservedWord, reserved(s, i, seq!['i', 'f']))
    } else if reserved(s, i, seq!['e', 'l', 's', 'e']) > 0 {
        (Category::ReservedWord, reserved(s, i, seq!['e', 'l', 's', 'e']))
    } else if reserved(s, i, seq!['t', 'r', 'u', 'e']) > 0 {
        (Category::ReservedWord, reserved(s, i, seq!['t', 'r', 'u', 'e']))
    } else if reserved(s, i, seq!['f', 'a', 'l', 's', 'e']) > 0 {
        (Category::ReservedWord, reserved(s, i, seq!['f', 'a', 'l', 's', 'e']))
    } else if span(s, i, Class::Operator) > 0 {
        (Category::Operator, span(s, i, Class::Operator))
    } else if one(s, i, '(') > 0 {
        (Category::Paren, one(s, i, '('))
    } else if one(s, i, ')') > 0 {
        (Category::Paren, one(s, i, ')'))
    } else if one(s, i, '[') > 0 {
        (Category::Squaren, one(s, i, '['))
    } else if one(s, i, ']') > 0 {
        (Category::Squaren, one(s, i, ']'))
    } else if one(s, i, '{') > 0 {
        (Category::Bracket, one(s, i, '{'))
    } else if one(s, i, '}') > 0 {
        (Category::Bracket, one(s, i, '}'))
    } else if one(s, i, ':') > 0 {
        (Category::Colon, one(s, i, ':'))
    } else if string(s, i) > 0 {
        (Category::String, string(s, i))
    } else if word(s, i) > 0 {
        (Category::Word, word(s, i))
    } else if any_char(s, i) > 0 {
        (Category::Invalid, any_char(s, i))
    } else {
        (Category::Invalid, 0)
    }
}

/// The rule that takes the text at `i` (see `category_at`).
pub fn next_category(s: &Vec<char>, i: usize) -> (r: (Category, usize))
    requires
        i <= s@.len(),
    ensures
        (r.0, r.1 as nat) == category_at(s@, i as int),
        i + r.1 <= s@.len(),
{
    let n = span_of(s, i, Class::LineBreak);
    if n > 0 {
        return (Category::Newline, n);
    }
    let n = span_of(s, i, Class::Blank);
    if n > 0 {
        return (Category::Skip, n);
    }
    let n = line_comment_len(s, i);
    if n > 0 {
        return (Category::Skip, n);
    }
    let n = block_comment_len(s, i);
    if n > 0 {
        return (Category::Skip, n);
    }
    let n = one_len(s, i, ',');
    if n > 0 {
        return (Category::Comma, n);
    }
    let n = one_len(s, i, ';');
    if n > 0 {
        return (Category::Semicolon, n);
    }
    let n = one_len(s, i, '→');
    if n > 0 {
        return (Category::Arrow, n);
    }
    let n = two_len(s, i, '-', '>');
    if n > 0 {
        return (Category::Arrow, n);
    }
    let n = number_len(s, i);
    if n > 0 {
        return (Category::Number, n);
    }
    let n = reserved_len(s, i, &['i', 'f']);
    if n > 0 {
        return (Category::ReservedWord, n);
    }
    let n = reserved_len(s, i, &['e', 'l', 's', 'e']);
    if n > 0 {
        return (Category::ReservedWord, n);
    }
    let n = reserved_len(s, i, &['t', 'r', 'u', 'e']);
    if n > 0 {
        return (Category::ReservedWord, n);
    }
    let n = reserved_len(s, i, &['f', 'a', 'l', 's', 'e']);
    if n > 0 {
        return (Category::ReservedWord, n);
    }
    let n = span_of(s, i, Class::Operator);
    if n > 0 {
        return (Category::Operator, n);
    }
    let n = one_len(s, i, '(');
    if n > 0 {
        return (Category::Paren, n);
    }
    let n = one_len(s, i, ')');
    if n > 0 {
        return (Category::Paren, n);
    }
    let n = one_len(s, i, '[');
    if n > 0 {
        return (Category::Squaren, n);
    }
    let n = one_len(s, i, ']');
    if n > 0 {
        return (Category::Squaren, n);
    }
    let n = one_len(s, i, '{');
    if n > 0 {
        return (Category::Bracket, n);
    }
    let n = one_len(s, i, '}');
    if n > 0 {
        return (Category::Bracket, n);
    }
    let n = one_len(s, i, ':');
    if n > 0 {
        return (Category::Colon, n);
    }
    let n = string_len(s, i);
    if n > 0 {
        return (Category::String, n);
    }
    let n = word_len(s, i);
    if n > 0 {
        return (Category::Word, n);
    }
    let n = any_char_len(s, i);
    if n > 0 {
        return (Category::Invalid, n);
    }
    (Category::Invalid, 0)
}

/// At every position some rule applies, and it takes at least one
/// character.
pub proof fn lemma_category_takes_text(s: Seq<char>, i: int)
    requires
        0 <= i < s.len(),
    ensures
        category_at(s, i).1 > 0,
{
}

/// The rule at `i` takes no more than the text that is left.
proof fn lemma_category_bound(s: Seq<char>, i: int)
    requires
        0 <= i < s.len(),
    ensures
        i + category_at(s, i).1 <= s.len(),
{
    lemma_span_bound(s, i, Class::LineBreak);
    lemma_span_bound(s, i, Class::Blank);
    lemma_span_bound(s, i, Class::Operator);
    lemma_span_bound(s, i + 1, Class::Alnum);
    lemma_span_bound(s, i + 1, Class::NotQuote);
    if i + 2 <= s.len() {
        lemma_span_bound(s, i + 2, Class::NotNewline);
    }
    lemma_close_bound(s, i + 2);
    let d = sign(s, i);
    lemma_span_bound(s, d, Class::Digit);
    let whole = span(s, d, Class::Digit);
    if d + whole + 1 <= s.len() {
        lemma_span_bound(s, d + whole + 1, Class::Digit);
    }
}

/// The text from `a` to `b` is skipped pieces one after another, as the
/// rules cut them: blanks and comments.
#[verifier::opaque]
pub open spec fn skipped(s: Seq<char>, a: int, b: int) -> bool
    decreases b - a,
{
    if a >= b {
        a == b
    } else {
        let (c, n) = category_at(s, a);
        if c == Category::Skip && n > 0 && a + n <= b {
            skipped(s, a + n, b)
        } else {
            false
        }
    }
}

proof fn lemma_skipped_step(s: Seq<char>, a: int, b: int)
    requires
        category_at(s, a).0 == Category::Skip,
        category_at(s, a).1 > 0,
        a + category_at(s, a).1 <= b,
        skipped(s, a + category_at(s, a).1, b),
    ensures
        skipped(s, a, b),
{
    reveal(skipped);
}

proof fn lemma_skipped_empty(s: Seq<char>, a: int)
    ensures
        skipped(s, a, a),
{
    reveal(skipped);
}

/// Where the text before piece `j` starts: at `from` for the first piece,
/// else at the end of piece `j - 1`.
pub open spec fn gap_start(ps: Seq<(Category, Seq<char>)>, starts: Seq<int>, j: int, from: int) -> int {
    if j == 0 {
        from
    } else {
        starts[j - 1] + ps[j - 1].1.len()
    }
}

/// The text left between the pieces, before the first and after the last,
/// is skipped text and nothing else.
pub open spec fn gaps_skipped(
    s: Seq<char>,
    ps: Seq<(Category, Seq<char>)>,
    starts: Seq<int>,
    from: int,
) -> bool {
    &&& forall|j: int|
        0 <= j < ps.len() ==> skipped(s, gap_start(ps, starts, j, from), #[trigger] starts[j])
    &&& skipped(s, gap_start(ps, starts, ps.len() as int, from), s.len() as int)
}

/// The category of a character that is a piece on its own, whatever
/// follows it: brackets, `:`, `,`, `;` and `→`.
pub open spec fn symbol_category(c: char) -> Option<Category> {
    if c == '(' || c == ')' {
        Some(Category::Paren)
    } else if c == '[' || c == ']' {
        Some(Category::Squaren)
    } else if c == '{' || c == '}' {
        Some(Category::Bracket)
    } else if c == ':' {
        Some(Category::Colon)
    } else if c == ',' {
        Some(Category::Comma)
    } else if c == ';' {
        Some(Category::Semicolon)
    } else if c == '→' {
        Some(Category::Arrow)
    } else {
        None
    }
}

/// Each of these characters is one piece of its own category.
pub proof fn law_symbol_piece(s: Seq<char>, i: int)
    requires
        0 <= i < s.len(),
        symbol_category(s[i]) is Some,
    ensures
        category_at(s, i) == (symbol_category(s[i]).unwrap(), 1nat),
{
}

/// A `"`, then `k` characters none of which is `"`, then a closing `"` or
/// the end of the text, is one string piece of all of them.
pub proof fn law_string_piece(s: Seq<char>, i: int, k: int)
    requires
        0 <= i,
        0 <= k,
        i + 1 + k <= s.len(),
        s[i] == '"',
        forall|j: int| i < j <= i + k ==> #[trigger] s[j] != '"',
        i + 1 + k < s.len() ==> s[i + 1 + k] == '"',
    ensures
        category_at(s, i) == (Category::String, (if i + 1 + k < s.len() {
            k + 2
        } else {
            k + 1
        }) as nat),
{
    lemma_span_run(s, i + 1, k, Class::NotQuote);
}

/// The word `w` stands at `i` as a whole word: no word character follows
/// it.
pub open spec fn whole_word_at(s: Seq<char>, i: int, w: Seq<char>) -> bool {
    0 <= i && i + w.len() <= s.len() && s.subrange(i, i + w.len()) == w && (i + w.len() == s.len()
        || !unicode_word_char(s[i + w.len()]))
}

/// None of the reserved words `if`, `else`, `true`, `false` stands at `i`
/// as a whole word.
pub open spec fn no_reserved_word_at(s: Seq<char>, i: int) -> bool {
    &&& !whole_word_at(s, i, seq!['i', 'f'])
    &&& !whole_word_at(s, i, seq!['e', 'l', 's', 'e'])
    &&& !whole_word_at(s, i, seq!['t', 'r', 'u', 'e'])
    &&& !whole_word_at(s, i, seq!['f', 'a', 'l', 's', 'e'])
}

/// A word that is no reserved word is one piece of category `Word`: the
/// whole word, whatever its letters.
pub proof fn law_word_is_one_piece(s: Seq<char>, i: int, n: int)
    requires
        word_run(s, i, n),
        no_reserved_word_at(s, i),
    ensures
        category_at(s, i) == (Category::Word, n as nat),
{
    lemma_span_run(s, i + 1, n - 1, Class::Alnum);
    assert(word(s, i) == n);
}

/// A text that is one word, and no reserved word, is categorized as
/// exactly one piece: `Word` and the whole text.
pub proof fn law_word_text(s: Seq<char>)
    requires
        word_run(s, 0, s.len() as int),
        no_reserved_word_at(s, 0),
    ensures
        categorize(s, 0) == seq![(Category::Word, s)],
{
    law_word_is_one_piece(s, 0, s.len() as int);
    assert(s.subrange(0, s.len() as int) =~= s);
    assert(categorize(s, s.len() as int) == Seq::<(Category, Seq<char>)>::empty());
    assert(seq![(Category::Word, s)] + Seq::<(Category, Seq<char>)>::empty() =~= seq![
        (Category::Word, s),
    ]);
}

/// The categorized pieces of the text from `i` to the end; skipped text
/// leaves no piece.
pub open spec fn categorize(s: Seq<char>, i: int) -> Seq<(Category, Seq<char>)>
    decreases s.len() - i,
{
    if i < 0 || i >= s.len() {
        Seq::empty()
    } else {
        let (c, n) = category_at(s, i);
        if n == 0 || i + n > s.len() {
            Seq::empty()
        } else if c == Category::Skip {
            categorize(s, i + n)
        } else {
            seq![(c, s.subrange(i, i + n))] + categorize(s, i + n)
        }
    }
}

/// No piece is skipped text (blanks, comments), and every piece holds some
/// text.
pub proof fn law_pieces_kept(s: Seq<char>, i: int)
    ensures
        forall|j: int|
            0 <= j < categorize(s, i).len() ==> (#[trigger] categorize(s, i)[j]).0
                != Category::Skip && categorize(s, i)[j].1.len() > 0,
    decreases s.len() - i,
{
    if 0 <= i < s.len() {
        let (c, n) = category_at(s, i);
        if n > 0 && i + n <= s.len() {
            law_pieces_kept(s, i + n);
            if c != Category::Skip {
                assert forall|j: int| 0 <= j < categorize(s, i).len() implies (
                #[trigger] categorize(s, i)[j]).0 != Category::Skip && categorize(s, i)[j].1.len()
                    > 0 by {
                    if j > 0 {
                        assert(categorize(s, i)[j] == categorize(s, i + n)[j - 1]);
                    }
                }
            }
        }
    }
}

/// The texts of the pieces are places of the source `s` from `from` on, in
/// order and without overlap: piece `j` is the text that starts at
/// `starts[j]`.
pub open spec fn in_place(
    s: Seq<char>,
    ps: Seq<(Category, Seq<char>)>,
    starts: Seq<int>,
    from: int,
) -> bool {
    &&& starts.len() == ps.len()
    &&& forall|j: int|
        0 <= j < ps.len() ==> from <= #[trigger] starts[j] && starts[j] + ps[j].1.len() <= s.len()
            && s.subrange(starts[j], starts[j] + ps[j].1.len()) == ps[j].1
    &&& forall|j: int, k: int|
        0 <= j < k < ps.len() ==> #[trigger] starts[j] + ps[j].1.len() <= #[trigger] starts[k]
}

proof fn lemma_in_place(s: Seq<char>, i: int) -> (starts: Seq<int>)
    requires
        0 <= i <= s.len(),
    ensures
        in_place(s, categorize(s, i), starts, i),
        gaps_skipped(s, categorize(s, i), starts, i),
    decreases s.len() - i,
{
    if i < s.len() {
        lemma_category_takes_text(s, i);
        lemma_category_bound(s, i);
        let (c, n) = category_at(s, i);
        let later = lemma_in_place(s, i + n);
        let lps = categorize(s, i + n);
        if c == Category::Skip {
            assert forall|j: int| 0 <= j < lps.len() implies skipped(
                s,
                gap_start(lps, later, j, i),
                #[trigger] later[j],
            ) by {
                assert(skipped(s, gap_start(lps, later, j, i + n), later[j]));
                if j == 0 {
                    lemma_skipped_step(s, i, later[0]);
                }
            }
            if lps.len() == 0 {
                lemma_skipped_step(s, i, s.len() as int);
            }
            later
        } else {
            let starts = seq![i] + later;
            let ps = categorize(s, i);
            assert forall|j: int| 0 < j < ps.len() implies ps[j] == lps[j - 1] && starts[j]
                == later[j - 1] by {}
            assert(in_place(s, ps, starts, i));
            lemma_skipped_empty(s, i);
            assert forall|j: int| 0 <= j < ps.len() implies skipped(
                s,
                gap_start(ps, starts, j, i),
                #[trigger] starts[j],
            ) by {
                if j > 0 {
                    assert(starts[j] == later[j - 1]);
                    assert(skipped(s, gap_start(lps, later, j - 1, i + n), later[j - 1]));
                }
            }
            assert(gap_start(ps, starts, ps.len() as int, i) == gap_start(
                lps,
                later,
                lps.len() as int,
                i + n,
            ));
            starts
        }
    } else {
        lemma_skipped_empty(s, i);
        Seq::empty()
    }
}

/// Every piece is a piece of the source text, and the pieces come in the
/// order of their places in it, without overlap; the text that no piece
/// holds is blanks and comments, and nothing else.
pub proof fn law_pieces_in_place(s: Seq<char>)
    ensures
        exists|starts: Seq<int>|
            in_place(s, categorize(s, 0), starts, 0) && gaps_skipped(
                s,
                categorize(s, 0),
                starts,
                0,
            ),
{
    let starts = lemma_in_place(s, 0);
    assert(in_place(s, categorize(s, 0), starts, 0) && gaps_skipped(
        s,
        categorize(s, 0),
        starts,
        0,
    ));
}

/// The pieces of a list, as values.
pub open spec fn pieces_view(v: Seq<(Category, String)>) -> Seq<(Category, Seq<char>)> {
    v.map_values(|p: (Category, String)| (p.0, p.1@))
}

/// Cuts source text into categorized pieces (see `category_at`).
pub fn tokenizer(input: &String) -> (tokens: Vec<(Category, String)>)
    ensures
        pieces_view(tokens@) == categorize(input@, 0),
{
    let s = chars_of(input.as_str());
    let mut tokens: Vec<(Category, String)> = Vec::new();
    let mut cursor: usize = 0;
    let length = s.len();
    while cursor < length
        invariant
            length == s@.len(),
            s@ == input@,
            cursor <= length,
            pieces_view(tokens@) + categorize(s@, cursor as int) == categorize(s@, 0),
        decreases length - cursor,
    {
        let (category, n) = next_category(&s, cursor);
        proof {
            lemma_category_takes_text(s@, cursor as int);
        }
        let ghost old_tokens = tokens@;
        match category {
            Category::Skip => {},
            _ => {
                let text = string_of(&s, cursor, cursor + n);
                tokens.push((category, text));
                assert(pieces_view(tokens@) =~= pieces_view(old_tokens).push(
                    (category, s@.subrange(cursor as int, cursor + n)),
                ));
            },
        }
        assert(pieces_view(tokens@) + categorize(s@, cursor + n) =~= categorize(s@, 0));
        cursor += n;
    }
    assert(pieces_view(tokens@) =~= pieces_view(tokens@) + categorize(s@, cursor as int));
    tokens
}

} // verus!

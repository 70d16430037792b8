//! The lexical rules shared by both tokenizers, each as a function that
//! tells how many characters a rule takes at a position (0: the rule does
//! not apply there), stated over the characters of the input.

use vstd::prelude::*;

verus! {

/// The character classes that the rules repeat.
#[derive(Clone, Copy, PartialEq, Eq, Structural)]
pub enum Class {
    /// `[[:blank:]]`: space or tab.
    Blank,
    /// `[0-9]`.
    Digit,
    /// `[A-Za-z0-9]`.
    Alnum,
    /// `,` or `;`.
    Separator,
    /// `\n` or `\r`.
    LineBreak,
    /// Anything but `\n` (what `.` matches).
    NotNewline,
    /// Anything but `"`.
    NotQuote,
    /// `[.>~<!*=/%÷×·^'∘+-]`.
    Operator,
}

pub open spec fn is_alpha(c: char) -> bool {
    ('a' <= c && c <= 'z') || ('A' <= c && c <= 'Z')
}

pub open spec fn is_digit(c: char) -> bool {
    '0' <= c && c <= '9'
}

pub open spec fn in_class(c: char, cl: Class) -> bool {
    match cl {
        Class::Blank => c == ' ' || c == '\t',
        Class::Digit => is_digit(c),
        Class::Alnum => is_alpha(c) || is_digit(c),
        Class::Separator => c == ',' || c == ';',
        Class::LineBreak => c == '\n' || c == '\r',
        Class::NotNewline => c != '\n',
        Class::NotQuote => c != '"',
        Class::Operator => c == '.' || c == '>' || c == '~' || c == '<' || c == '!' || c == '*'
            || c == '=' || c == '/' || c == '%' || c == '÷' || c == '×' || c == '·' || c == '^'
            || c == '\'' || c == '∘' || c == '+' || c == '-',
    }
}

pub fn is_alpha_char(c: char) -> (b: bool)
    ensures
        b == is_alpha(c),
{
    ('a' <= c && c <= 'z') || ('A' <= c && c <= 'Z')
}

pub fn class_has(c: char, cl: Class) -> (b: bool)
    ensures
        b == in_class(c, cl),
{
    match cl {
        Class::Blank => c == ' ' || c == '\t',
        Class::Digit => '0' <= c && c <= '9',
        Class::Alnum => is_alpha_char(c) || ('0' <= c && c <= '9'),
        Class::Separator => c == ',' || c == ';',
        Class::LineBreak => c == '\n' || c == '\r',
        Class::NotNewline => c != '\n',
        Class::NotQuote => c != '"',
        Class::Operator => c == '.' || c == '>' || c == '~' || c == '<' || c == '!' || c == '*'
            || c == '=' || c == '/' || c == '%' || c == '÷' || c == '×' || c == '·' || c == '^'
            || c == '\'' || c == '∘' || c == '+' || c == '-',
    }
}

/// `s[i]` exists and is `c`.
pub open spec fn at(s: Seq<char>, i: int, c: char) -> bool {
    0 <= i < s.len() && s[i] == c
}

/// How many characters from `i` on are in the class (a greedy `class*`).
pub open spec fn span(s: Seq<char>, i: int, cl: Class) -> nat
    decreases s.len() - i,
{
    if 0 <= i < s.len() && in_class(s[i], cl) {
        1 + span(s, i + 1, cl)
    } else {
        0
    }
}

pub proof fn lemma_span_bound(s: Seq<char>, i: int, cl: Class)
    requires
        0 <= i <= s.len(),
    ensures
        i + span(s, i, cl) <= s.len(),
        forall|k: int| i <= k < i + span(s, i, cl) ==> in_class(#[trigger] s[k], cl),
        i + span(s, i, cl) < s.len() ==> !in_class(s[i + span(s, i, cl)], cl),
    decreases s.len() - i,
{
    if i < s.len() && in_class(s[i], cl) {
        lemma_span_bound(s, i + 1, cl);
    }
}

/// A run of `m` class characters from `j`, that no class character follows,
/// is what `span` measures there.
pub proof fn lemma_span_run(s: Seq<char>, j: int, m: int, cl: Class)
    requires
        0 <= j,
        0 <= m,
        j + m <= s.len(),
        forall|k: int| j <= k < j + m ==> in_class(#[trigger] s[k], cl),
        j + m < s.len() ==> !in_class(s[j + m], cl),
    ensures
        span(s, j, cl) == m,
    decreases m,
{
    if m > 0 {
        assert(in_class(s[j], cl));
        lemma_span_run(s, j + 1, m - 1, cl);
    }
}

fn has(s: &Vec<char>, i: usize, c: char) -> (b: bool)
    ensures
        b == at(s@, i as int, c),
        s@.len() <= usize::MAX,
{
    let len = s.len();
    i < len && s[i] == c
}

/// Length of the run of class characters from `i`.
pub fn span_of(s: &Vec<char>, i: usize, cl: Class) -> (n: usize)
    requires
        i <= s@.len(),
    ensures
        n == span(s@, i as int, cl),
        i + n <= s@.len(),
{
    let mut j = i;
    while j < s.len() && class_has(s[j], cl)
        invariant
            i <= j <= s@.len(),
            span(s@, i as int, cl) == (j - i) + span(s@, j as int, cl),
        decreases s@.len() - j,
    {
        j += 1;
    }
    proof {
        lemma_span_bound(s@, i as int, cl);
    }
    j - i
}

/// The first `j >= k` where `*/` starts.
pub open spec fn close_from(s: Seq<char>, k: int) -> Option<int>
    decreases s.len() - k,
{
    if k < 0 || k + 1 >= s.len() {
        None
    } else if s[k] == '*' && s[k + 1] == '/' {
        Some(k)
    } else {
        close_from(s, k + 1)
    }
}

pub proof fn lemma_close_bound(s: Seq<char>, k: int)
    requires
        0 <= k,
    ensures
        close_from(s, k) matches Some(j) ==> k <= j && j + 1 < s.len(),
    decreases s.len() - k,
{
    if k + 1 < s.len() && !(s[k] == '*' && s[k + 1] == '/') {
        lemma_close_bound(s, k + 1);
    }
}

/// `^//.*`: a comment to the end of the line.
pub open spec fn line_comment(s: Seq<char>, i: int) -> nat {
    if at(s, i, '/') && at(s, i + 1, '/') {
        2 + span(s, i + 2, Class::NotNewline)
    } else {
        0
    }
}

/// `^/\*[\s\S]*?\*/`: a comment up to the first `*/` after the opening `/*`.
pub open spec fn block_comment(s: Seq<char>, i: int) -> nat {
    if at(s, i, '/') && at(s, i + 1, '*') {
        match close_from(s, i + 2) {
            Some(j) => (j + 2 - i) as nat,
            None => 0,
        }
    } else {
        0
    }
}

/// `^[A-Za-z][A-Za-z0-9]*`: a word.
pub open spec fn word(s: Seq<char>, i: int) -> nat {
    if 0 <= i < s.len() && is_alpha(s[i]) {
        1 + span(s, i + 1, Class::Alnum)
    } else {
        0
    }
}

/// `^[A-Za-z][A-Za-z0-9]*:`: a word and a colon.
pub open spec fn word_key(s: Seq<char>, i: int) -> nat {
    let w = word(s, i);
    if w > 0 && at(s, i + w, ':') {
        w + 1
    } else {
        0
    }
}

/// `^[*/+-]:`: an operator and a colon.
pub open spec fn operator_key(s: Seq<char>, i: int) -> nat {
    if 0 <= i < s.len() && (s[i] == '*' || s[i] == '/' || s[i] == '+' || s[i] == '-') && at(
        s,
        i + 1,
        ':',
    ) {
        2
    } else {
        0
    }
}

/// One character `c`.
pub open spec fn one(s: Seq<char>, i: int, c: char) -> nat {
    if at(s, i, c) {
        1
    } else {
        0
    }
}

/// The two characters `c` then `d`.
pub open spec fn two(s: Seq<char>, i: int, c: char, d: char) -> nat {
    if at(s, i, c) && at(s, i + 1, d) {
        2
    } else {
        0
    }
}

/// Where the digits of a number start: after an optional `-`.
pub open spec fn sign(s: Seq<char>, i: int) -> int {
    if at(s, i, '-') {
        i + 1
    } else {
        i
    }
}

/// The three number rules in their order: `^\-?[0-9]+\.[0-9]*`,
/// `^\-?[0-9]*\.[0-9]+`, `^\-?[0-9]+`.
pub open spec fn number(s: Seq<char>, i: int) -> nat {
    let d = sign(s, i);
    let whole = span(s, d, Class::Digit);
    let frac = span(s, d + whole + 1, Class::Digit);
    if whole > 0 && at(s, d + whole, '.') {
        (d + whole + 1 + frac - i) as nat
    } else if at(s, d + whole, '.') && frac > 0 {
        (d + whole + 1 + frac - i) as nat
    } else if whole > 0 {
        (d + whole - i) as nat
    } else {
        0
    }
}

/// `^"[^"]*("|$)`: a string, closed by a quote or by the end of the input.
pub open spec fn string(s: Seq<char>, i: int) -> nat {
    if at(s, i, '"') {
        let k = span(s, i + 1, Class::NotQuote);
        if i + 1 + k < s.len() {
            k + 2
        } else {
            k + 1
        }
    } else {
        0
    }
}

/// `^.`: any one character but a newline.
pub open spec fn any_char(s: Seq<char>, i: int) -> nat {
    if 0 <= i < s.len() && s[i] != '\n' {
        1
    } else {
        0
    }
}

/// `c` is a word character in the Unicode sense that `\b` uses.
pub uninterp spec fn unicode_word_char(c: char) -> bool;

/// Whether `c` is a Unicode word character (`\w`).
///
/// Trusted: calls `regex_syntax::is_word_character`, the definition of
/// `\w` that the `regex` crate uses. Its source answers from a table of
/// Unicode ranges, named by `unicode_word_char`; for an ASCII character the
/// table holds exactly `[0-9A-Za-z_]`, which is stated. It panics only
/// where the crate's `unicode-perl` feature is off, and that feature is on.
#[verifier::external_body]
pub(crate) fn is_word_char(c: char) -> (b: bool)
    ensures
        b == unicode_word_char(c),
        (c as u32) < 128 ==> (b <==> (is_alpha(c) || is_digit(c) || c == '_')),
{
    regex_syntax::is_word_character(c)
}

/// `^w\b` for a literal word `w`: the word, not followed by a word character.
pub open spec fn reserved(s: Seq<char>, i: int, w: Seq<char>) -> nat {
    if 0 <= i && i + w.len() <= s.len() && s.subrange(i, i + w.len()) == w && (i + w.len()
        == s.len() || !unicode_word_char(s[i + w.len()])) {
        w.len()
    } else {
        0
    }
}


/// Length of `^//.*` at `i`.
pub fn line_comment_len(s: &Vec<char>, i: usize) -> (n: usize)
    requires
        i <= s@.len(),
    ensures
        n == line_comment(s@, i as int),
        i + n <= s@.len(),
{
    if has(s, i, '/') && has(s, i + 1, '/') {
        2 + span_of(s, i + 2, Class::NotNewline)
    } else {
        0
    }
}

/// Length of `^/\*[\s\S]*?\*/` at `i`.
pub fn block_comment_len(s: &Vec<char>, i: usize) -> (n: usize)
    requires
        i <= s@.len(),
    ensures
        n == block_comment(s@, i as int),
        i + n <= s@.len(),
{
    if has(s, i, '/') && has(s, i + 1, '*') {
        let mut k = i + 2;
        while k < s.len() && k + 1 < s.len() && !(s[k] == '*' && s[k + 1] == '/')
            invariant
                i + 2 <= k <= s@.len(),
                close_from(s@, (i + 2) as int) == close_from(s@, k as int),
            decreases s@.len() - k,
        {
            k += 1;
        }
        proof {
            lemma_close_bound(s@, (i + 2) as int);
        }
        if k < s.len() && k + 1 < s.len() {
            k + 2 - i
        } else {
            0
        }
    } else {
        0
    }
}

/// Length of `^[A-Za-z][A-Za-z0-9]*` at `i`.
pub fn word_len(s: &Vec<char>, i: usize) -> (n: usize)
    requires
        i <= s@.len(),
    ensures
        n == word(s@, i as int),
        i + n <= s@.len(),
{
    if i < s.len() && is_alpha_char(s[i]) {
        1 + span_of(s, i + 1, Class::Alnum)
    } else {
        0
    }
}

/// Length of `^[A-Za-z][A-Za-z0-9]*:` at `i`.
pub fn word_key_len(s: &Vec<char>, i: usize) -> (n: usize)
    requires
        i <= s@.len(),
    ensures
        n == word_key(s@, i as int),
        i + n <= s@.len(),
{
    let w = word_len(s, i);
    if w > 0 && w < s.len() - i && s[i + w] == ':' {
        w + 1
    } else {
        0
    }
}

/// Length of `^[*/+-]:` at `i`.
pub fn operator_key_len(s: &Vec<char>, i: usize) -> (n: usize)
    requires
        i <= s@.len(),
    ensures
        n == operator_key(s@, i as int),
        i + n <= s@.len(),
{
    if i < s.len() && (s[i] == '*' || s[i] == '/' || s[i] == '+' || s[i] == '-') && has(
        s,
        i + 1,
        ':',
    ) {
        2
    } else {
        0
    }
}

/// Length of the one character `c` at `i`.
pub fn one_len(s: &Vec<char>, i: usize, c: char) -> (n: usize)
    requires
        i <= s@.len(),
    ensures
        n == one(s@, i as int, c),
        i + n <= s@.len(),
{
    if has(s, i, c) {
        1
    } else {
        0
    }
}

/// Length of the characters `c` then `d` at `i`.
pub fn two_len(s: &Vec<char>, i: usize, c: char, d: char) -> (n: usize)
    requires
        i <= s@.len(),
    ensures
        n == two(s@, i as int, c, d),
        i + n <= s@.len(),
{
    if has(s, i, c) && has(s, i + 1, d) {
        2
    } else {
        0
    }
}

/// Length of the first of the three number rules that applies at `i`.
pub fn number_len(s: &Vec<char>, i: usize) -> (n: usize)
    requires
        i <= s@.len(),
    ensures
        n == number(s@, i as int),
        i + n <= s@.len(),
{
    let d = if has(s, i, '-') {
        i + 1
    } else {
        i
    };
    let whole = span_of(s, d, Class::Digit);
    let point = has(s, d + whole, '.');
    let frac = if point {
        span_of(s, d + whole + 1, Class::Digit)
    } else {
        0
    };
    proof {
        if !point {
            if d + whole + 1 <= s@.len() {
                lemma_span_bound(s@, (d + whole + 1) as int, Class::Digit);
            }
            assert(span(s@, (d + whole + 1) as int, Class::Digit) == frac || !at(
                s@,
                (d + whole) as int,
                '.',
            ));
        }
    }
    if whole > 0 && point {
        d + whole + 1 + frac - i
    } else if point && frac > 0 {
        d + whole + 1 + frac - i
    } else if whole > 0 {
        d + whole - i
    } else {
        0
    }
}

/// Length of `^"[^"]*("|$)` at `i`.
pub fn string_len(s: &Vec<char>, i: usize) -> (n: usize)
    requires
        i <= s@.len(),
    ensures
        n == string(s@, i as int),
        i + n <= s@.len(),
{
    if has(s, i, '"') {
        let k = span_of(s, i + 1, Class::NotQuote);
        if i + 1 + k < s.len() {
            k + 2
        } else {
            k + 1
        }
    } else {
        0
    }
}

/// Length of `^.` at `i`.
pub fn any_char_len(s: &Vec<char>, i: usize) -> (n: usize)
    requires
        i <= s@.len(),
    ensures
        n == any_char(s@, i as int),
        i + n <= s@.len(),
{
    if i < s.len() && s[i] != '\n' {
        1
    } else {
        0
    }
}

/// Length of `^w\b` at `i`.
pub fn reserved_len(s: &Vec<char>, i: usize, w: &[char]) -> (n: usize)
    requires
        i <= s@.len(),
    ensures
        n == reserved(s@, i as int, w@),
        i + n <= s@.len(),
{
    let len = s.len();
    if w.len() > len - i {
        return 0;
    }
    let mut k: usize = 0;
    while k < w.len()
        invariant
            i + w@.len() <= s@.len() <= usize::MAX,
            k <= w@.len(),
            forall|j: int| 0 <= j < k ==> s@[i + j] == w@[j],
        decreases w@.len() - k,
    {
        if s[i + k] != w[k] {
            assert(s@.subrange(i as int, i + w@.len())[k as int] != w@[k as int]);
            return 0;
        }
        k += 1;
    }
    assert(s@.subrange(i as int, i + w@.len()) =~= w@);
    if i + w.len() == s.len() || !is_word_char(s[i + w.len()]) {
        w.len()
    } else {
        0
    }
}

} // verus!

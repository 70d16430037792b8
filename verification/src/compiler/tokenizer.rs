//! The tokenizer of the compiler: the kinds and names of tokens, their
//! binding strength, and the rules that cut source text into tokens.

use crate::scan::{
    lemma_span_run, any_char, any_char_len, block_comment, block_comment_len, line_comment, line_comment_len,
    number, number_len, one, one_len, operator_key, operator_key_len, reserved, reserved_len, span,
    span_of, string, string_len, two, two_len, word, word_key, word_key_len, word_len, Class,
};
use crate::text::{chars_of, string_of};
use vstd::prelude::*;

verus! {

/// The broad class of a token.
#[derive(Debug, Clone, Copy, PartialEq, Eq, Structural)]
pub enum Kind {
    Invalid,
    Skip,
    Stop,
    Binary,
    Unary,
    Select,
    Label,
    Reserved,
    Bool,
    String,
    Number,
    Paren,
    Squaren,
    Bracket,
}

/// What a token is within its kind.
#[derive(Debug, Clone, Copy, PartialEq, Eq, Structural)]
pub enum Name {
    Invalid,
    Skip,
    Newline,
    Comma,
    Colon,
    Pattern,
    Or,
    And,
    Add,
    Sub,
    Mul,
    Div,
    Exp,
    Not,
    Eq,
    Ne,
    Gt,
    Lt,
    Ge,
    Le,
    Select,
    Parent,
    Range,
    Length,
    Key,
    Ref,
    Arrow,
    Reserved,
    True,
    False,
    String,
    Number,
    Integer,
    Decimal,
    Boolean,
    ParenLF,
    ParenRT,
    SquarenLF,
    SquarenRT,
    BracketLF,
    BracketRT,
}

/// Where a token stands and what text it holds.
pub struct Meta {
    pub line: u32,
    pub text: String,
}

/// The kind and name of a token.
pub struct Of {
    pub kind: Kind,
    pub name: Name,
}

/// A token of the source text.
pub struct Token {
    pub of: Of,
    pub meta: Meta,
}

/// A token as a value: its kind, name, line and text.
pub struct TokenV {
    pub kind: Kind,
    pub name: Name,
    pub line: nat,
    pub text: Seq<char>,
}

impl View for Token {
    type V = TokenV;

    open spec fn view(&self) -> TokenV {
        TokenV {
            kind: self.of.kind,
            name: self.of.name,
            line: self.meta.line as nat,
            text: self.meta.text@,
        }
    }
}

/// The tokens of a list, as values.
pub open spec fn tokens_view(ts: Seq<Token>) -> Seq<TokenV> {
    ts.map_values(|t: Token| t@)
}

/// The binding strength of a name: 0 is the weakest and 255 the strongest.
/// Every name that is no binary operator binds at 255.
pub open spec fn binding(name: Name) -> u8 {
    match name {
        Name::Colon | Name::Arrow => 0,
        Name::Pattern => 1,
        Name::Or => 2,
        Name::And => 3,
        Name::Eq | Name::Ne => 4,
        Name::Gt | Name::Lt | Name::Ge | Name::Le => 5,
        Name::Add | Name::Sub => 6,
        Name::Mul | Name::Div => 7,
        Name::Exp => 8,
        Name::Select | Name::Parent => 9,
        _ => 255,
    }
}

pub fn precedence(token: &Token) -> (p: u8)
    ensures
        p == binding(token.of.name),
{
    match token.of.name {
        Name::Colon => 0,
        Name::Arrow => 0,
        Name::Pattern => 1,
        Name::Or => 2,
        Name::And => 3,
        Name::Eq => 4,
        Name::Ne => 4,
        Name::Gt => 5,
        Name::Lt => 5,
        Name::Ge => 5,
        Name::Le => 5,
        Name::Add => 6,
        Name::Sub => 6,
        Name::Mul => 7,
        Name::Div => 7,
        Name::Exp => 8,
        Name::Select => 9,
        Name::Parent => 9,
        _ => 255,
    }
}

/// The variant name of a kind, as `{:?}` prints it.
pub open spec fn kind_label(x: Kind) -> Seq<char> {
    match x {
        Kind::Invalid => "Invalid"@,
        Kind::Skip => "Skip"@,
        Kind::Stop => "Stop"@,
        Kind::Binary => "Binary"@,
        Kind::Unary => "Unary"@,
        Kind::Select => "Select"@,
        Kind::Label => "Label"@,
        Kind::Reserved => "Reserved"@,
        Kind::Bool => "Bool"@,
        Kind::String => "String"@,
        Kind::Number => "Number"@,
        Kind::Paren => "Paren"@,
        Kind::Squaren => "Squaren"@,
        Kind::Bracket => "Bracket"@,
    }
}

/// The variant name of a kind.
pub fn kind_str(x: Kind) -> (r: &'static str)
    ensures
        r@ == kind_label(x),
{
    match x {
        Kind::Invalid => "Invalid",
        Kind::Skip => "Skip",
        Kind::Stop => "Stop",
        Kind::Binary => "Binary",
        Kind::Unary => "Unary",
        Kind::Select => "Select",
        Kind::Label => "Label",
        Kind::Reserved => "Reserved",
        Kind::Bool => "Bool",
        Kind::String => "String",
        Kind::Number => "Number",
        Kind::Paren => "Paren",
        Kind::Squaren => "Squaren",
        Kind::Bracket => "Bracket",
    }
}

/// The variant name of a name, as `{:?}` prints it.
pub open spec fn name_label(x: Name) -> Seq<char> {
    match x {
        Name::Invalid => "Invalid"@,
        Name::Skip => "Skip"@,
        Name::Newline => "Newline"@,
        Name::Comma => "Comma"@,
        Name::Colon => "Colon"@,
        Name::Pattern => "Pattern"@,
        Name::Or => "Or"@,
        Name::And => "And"@,
        Name::Add => "Add"@,
        Name::Sub => "Sub"@,
        Name::Mul => "Mul"@,
        Name::Div => "Div"@,
        Name::Exp => "Exp"@,
        Name::Not => "Not"@,
        Name::Eq => "Eq"@,
        Name::Ne => "Ne"@,
        Name::Gt => "Gt"@,
        Name::Lt => "Lt"@,
        Name::Ge => "Ge"@,
        Name::Le => "Le"@,
        Name::Select => "Select"@,
        Name::Parent => "Parent"@,
        Name::Range => "Range"@,
        Name::Length => "Length"@,
        Name::Key => "Key"@,
        Name::Ref => "Ref"@,
        Name::Arrow => "Arrow"@,
        Name::Reserved => "Reserved"@,
        Name::True => "True"@,
        Name::False => "False"@,
        Name::String => "String"@,
        Name::Number => "Number"@,
        Name::Integer => "Integer"@,
        Name::Decimal => "Decimal"@,
        Name::Boolean => "Boolean"@,
        Name::ParenLF => "ParenLF"@,
        Name::ParenRT => "ParenRT"@,
        Name::SquarenLF => "SquarenLF"@,
        Name::SquarenRT => "SquarenRT"@,
        Name::BracketLF => "BracketLF"@,
        Name::BracketRT => "BracketRT"@,
    }
}

/// The variant name of a name.
pub fn name_str(x: Name) -> (r: &'static str)
    ensures
        r@ == name_label(x),
{
    match x {
        Name::Invalid => "Invalid",
        Name::Skip => "Skip",
        Name::Newline => "Newline",
        Name::Comma => "Comma",
        Name::Colon => "Colon",
        Name::Pattern => "Pattern",
        Name::Or => "Or",
        Name::And => "And",
        Name::Add => "Add",
        Name::Sub => "Sub",
        Name::Mul => "Mul",
        Name::Div => "Div",
        Name::Exp => "Exp",
        Name::Not => "Not",
        Name::Eq => "Eq",
        Name::Ne => "Ne",
        Name::Gt => "Gt",
        Name::Lt => "Lt",
        Name::Ge => "Ge",
        Name::Le => "Le",
        Name::Select => "Select",
        Name::Parent => "Parent",
        Name::Range => "Range",
        Name::Length => "Length",
        Name::Key => "Key",
        Name::Ref => "Ref",
        Name::Arrow => "Arrow",
        Name::Reserved => "Reserved",
        Name::True => "True",
        Name::False => "False",
        Name::String => "String",
        Name::Number => "Number",
        Name::Integer => "Integer",
        Name::Decimal => "Decimal",
        Name::Boolean => "Boolean",
        Name::ParenLF => "ParenLF",
        Name::ParenRT => "ParenRT",
        Name::SquarenLF => "SquarenLF",
        Name::SquarenRT => "SquarenRT",
        Name::BracketLF => "BracketLF",
        Name::BracketRT => "BracketRT",
    }
}

/// `^(->|→)`.
pub open spec fn arrow(s: Seq<char>, i: int) -> nat {
    if two(s, i, '-', '>') > 0 {
        2
    } else {
        one(s, i, '→')
    }
}

fn arrow_len(s: &Vec<char>, i: usize) -> (n: usize)
    requires
        i <= s@.len(),
    ensures
        n == arrow(s@, i as int),
        i + n <= s@.len(),
{
    if two_len(s, i, '-', '>') > 0 {
        2
    } else {
        one_len(s, i, '→')
    }
}

/// `^((==)|(=))`.
pub open spec fn equals(s: Seq<char>, i: int) -> nat {
    if two(s, i, '=', '=') > 0 {
        2
    } else {
        one(s, i, '=')
    }
}

fn equals_len(s: &Vec<char>, i: usize) -> (n: usize)
    requires
        i <= s@.len(),
    ensures
        n == equals(s@, i as int),
        i + n <= s@.len(),
{
    if two_len(s, i, '=', '=') > 0 {
        2
    } else {
        one_len(s, i, '=')
    }
}

/// The rule that takes the text at `i`: the first rule of the list that
/// applies there, with the kind and name of the token it makes and how many
/// characters it takes. The list, in order: newline; carriage return; a run
/// of `,` and `;`; blanks; `//` and `/* */` comments; an operator or a word
/// followed by `:` (a key); a word (a reference); `->` or `→`; a number; the
/// words `if`, `else`, `true`, `false` (never reached, as a word is taken
/// first); `:` `~` `|` `&` `==`/`=` `!=` `>=` `<=` `>` `<` `+` `-` `*` `/`
/// `^` `!` `..` `.`; brackets; a string; any other character.
pub open spec fn rule_at(s: Seq<char>, i: int) -> (Kind, Name, nat) {
    if one(s, i, '\n') > 0 {
        (Kind::Stop, Name::Newline, one(s, i, '\n'))
    } else if one(s, i, '\r') > 0 {
        (Kind::Skip, Name::Skip, one(s, i, '\r'))
    } else if span(s, i, Class::Separator) > 0 {
        (Kind::Stop, Name::Comma, span(s, i, Class::Separator))
    } else if span(s, i, Class::Blank) > 0 {
        (Kind::Skip, Name::Skip, span(s, i, Class::Blank))
    } else if line_comment(s, i) > 0 {
        (Kind::Skip, Name::Skip, line_comment(s, i))
    } else if block_comment(s, i) > 0 {
        (Kind::Skip, Name::Skip, block_comment(s, i))
    } else if operator_key(s, i) > 0 {
        (Kind::Label, Name::Key, operator_key(s, i))
    } else if word_key(s, i) > 0 {
        (Kind::Label, Name::Key, word_key(s, i))
    } else if word(s, i) > 0 {
        (Kind::Label, Name::Ref, word(s, i))
    } else if arrow(s, i) > 0 {
        (Kind::Label, Name::Arrow, arrow(s, i))
    } else if number(s, i) > 0 {
        (Kind::Number, Name::Number, number(s, i))
    } else if reserved(s, i, seq!['i', 'f']) > 0 {
        (Kind::Reserved, Name::Reserved, reserved(s, i, seq!['i', 'f']))
    } else if reserved(s, i, seq!['e', 'l', 's', 'e']) > 0 {
        (Kind::Reserved, Name::Reserved, reserved(s, i, seq!['e', 'l', 's', 'e']))
    } else if reserved(s, i, seq!['t', 'r', 'u', 'e']) > 0 {
        (Kind::Bool, Name::True, reserved(s, i, seq!['t', 'r', 'u', 'e']))
    } else if reserved(s, i, seq!['f', 'a', 'l', 's', 'e']) > 0 {
        (Kind::Bool, Name::False, reserved(s, i, seq!['f', 'a', 'l', 's', 'e']))
    } else if one(s, i, ':') > 0 {
        (Kind::Binary, Name::Colon, one(s, i, ':'))
    } else if one(s, i, '~') > 0 {
        (Kind::Binary, Name::Pattern, one(s, i, '~'))
    } else if one(s, i, '|') > 0 {
        (Kind::Binary, Name::Or, one(s, i, '|'))
    } else if one(s, i, '&') > 0 {
        (Kind::Binary, Name::And, one(s, i, '&'))
    } else if equals(s, i) > 0 {
        (Kind::Binary, Name::Eq, equals(s, i))
    } else if two(s, i, '!', '=') > 0 {
        (Kind::Binary, Name::Ne, two(s, i, '!', '='))
    } else if two(s, i, '>', '=') > 0 {
        (Kind::Binary, Name::Ge, two(s, i, '>', '='))
    } else if two(s, i, '<', '=') > 0 {
        (Kind::Binary, Name::Le, two(s, i, '<', '='))
    } else if one(s, i, '>') > 0 {
        (Kind::Binary, Name::Lt, one(s, i, '>'))
    } else if one(s, i, '<') > 0 {
        (Kind::Binary, Name::Le, one(s, i, '<'))
    } else if one(s, i, '+') > 0 {
        (Kind::Binary, Name::Add, one(s, i, '+'))
    } else if one(s, i, '-') > 0 {
        (Kind::Binary, Name::Sub, one(s, i, '-'))
    } else if one(s, i, '*') > 0 {
        (Kind::Binary, Name::Mul, one(s, i, '*'))
    } else if one(s, i, '/') > 0 {
        (Kind::Binary, Name::Div, one(s, i, '/'))
    } else if one(s, i, '^') > 0 {
        (Kind::Binary, Name::Exp, one(s, i, '^'))
    } else if one(s, i, '!') > 0 {
        (Kind::Unary, Name::Not, one(s, i, '!'))
    } else if two(s, i, '.', '.') > 0 {
        (Kind::Select, Name::Parent, two(s, i, '.', '.'))
    } else if one(s, i, '.') > 0 {
        (Kind::Select, Name::Select, one(s, i, '.'))
    } else if one(s, i, '(') > 0 {
        (Kind::Paren, Name::ParenLF, one(s, i, '('))
    } else if one(s, i, ')') > 0 {
        (Kind::Paren, Name::ParenRT, one(s, i, ')'))
    } else if one(s, i, '[') > 0 {
        (Kind::Squaren, Name::SquarenLF, one(s, i, '['))
    } else if one(s, i, ']') > 0 {
        (Kind::Squaren, Name::SquarenRT, one(s, i, ']'))
    } else if one(s, i, '{') > 0 {
        (Kind::Bracket, Name::BracketLF, one(s, i, '{'))
    } else if one(s, i, '}') > 0 {
        (Kind::Bracket, Name::BracketRT, one(s, i, '}'))
    } else if string(s, i) > 0 {
        (Kind::String, Name::String, string(s, i))
    } else if any_char(s, i) > 0 {
        (Kind::Invalid, Name::Invalid, any_char(s, i))
    } else {
        (Kind::Invalid, Name::Invalid, 0)
    }
}

/// The rule that takes the text at `i` (see `rule_at`).
pub fn next_rule(s: &Vec<char>, i: usize) -> (r: (Kind, Name, usize))
    requires
        i <= s@.len(),
    ensures
        (r.0, r.1, r.2 as nat) == rule_at(s@, i as int),
        i + r.2 <= s@.len(),
{
    let n = one_len(s, i, '\n');
    if n > 0 {
        return (Kind::Stop, Name::Newline, n);
    }
    let n = one_len(s, i, '\r');
    if n > 0 {
        return (Kind::Skip, Name::Skip, n);
    }
    let n = span_of(s, i, Class::Separator);
    if n > 0 {
        return (Kind::Stop, Name::Comma, n);
    }
    let n = span_of(s, i, Class::Blank);
    if n > 0 {
        return (Kind::Skip, Name::Skip, n);
    }
    let n = line_comment_len(s, i);
    if n > 0 {
        return (Kind::Skip, Name::Skip, n);
    }
    let n = block_comment_len(s, i);
    if n > 0 {
        return (Kind::Skip, Name::Skip, n);
    }
    let n = operator_key_len(s, i);
    if n > 0 {
        return (Kind::Label, Name::Key, n);
    }
    let n = word_key_len(s, i);
    if n > 0 {
        return (Kind::Label, Name::Key, n);
    }
    let n = word_len(s, i);
    if n > 0 {
        return (Kind::Label, Name::Ref, n);
    }
    let n = arrow_len(s, i);
    if n > 0 {
        return (Kind::Label, Name::Arrow, n);
    }
    let n = number_len(s, i);
    if n > 0 {
        return (Kind::Number, Name::Number, n);
    }
    let n = reserved_len(s, i, &['i', 'f']);
    if n > 0 {
        return (Kind::Reserved, Name::Reserved, n);
    }
    let n = reserved_len(s, i, &['e', 'l', 's', 'e']);
    if n > 0 {
        return (Kind::Reserved, Name::Reserved, n);
    }
    let n = reserved_len(s, i, &['t', 'r', 'u', 'e']);
    if n > 0 {
        return (Kind::Bool, Name::True, n);
    }
    let n = reserved_len(s, i, &['f', 'a', 'l', 's', 'e']);
    if n > 0 {
        return (Kind::Bool, Name::False, n);
    }
    let n = one_len(s, i, ':');
    if n > 0 {
        return (Kind::Binary, Name::Colon, n);
    }
    let n = one_len(s, i, '~');
    if n > 0 {
        return (Kind::Binary, Name::Pattern, n);
    }
    let n = one_len(s, i, '|');
    if n > 0 {
        return (Kind::Binary, Name::Or, n);
    }
    let n = one_len(s, i, '&');
    if n > 0 {
        return (Kind::Binary, Name::And, n);
    }
    let n = equals_len(s, i);
    if n > 0 {
        return (Kind::Binary, Name::Eq, n);
    }
    let n = two_len(s, i, '!', '=');
    if n > 0 {
        return (Kind::Binary, Name::Ne, n);
    }
    let n = two_len(s, i, '>', '=');
    if n > 0 {
        return (Kind::Binary, Name::Ge, n);
    }
    let n = two_len(s, i, '<', '=');
    if n > 0 {
        return (Kind::Binary, Name::Le, n);
    }
    let n = one_len(s, i, '>');
    if n > 0 {
        return (Kind::Binary, Name::Lt, n);
    }
    let n = one_len(s, i, '<');
    if n > 0 {
        return (Kind::Binary, Name::Le, n);
    }
    let n = one_len(s, i, '+');
    if n > 0 {
        return (Kind::Binary, Name::Add, n);
    }
    let n = one_len(s, i, '-');
    if n > 0 {
        return (Kind::Binary, Name::Sub, n);
    }
    let n = one_len(s, i, '*');
    if n > 0 {
        return (Kind::Binary, Name::Mul, n);
    }
    let n = one_len(s, i, '/');
    if n > 0 {
        return (Kind::Binary, Name::Div, n);
    }
    let n = one_len(s, i, '^');
    if n > 0 {
        return (Kind::Binary, Name::Exp, n);
    }
    let n = one_len(s, i, '!');
    if n > 0 {
        return (Kind::Unary, Name::Not, n);
    }
    let n = two_len(s, i, '.', '.');
    if n > 0 {
        return (Kind::Select, Name::Parent, n);
    }
    let n = one_len(s, i, '.');
    if n > 0 {
        return (Kind::Select, Name::Select, n);
    }
    let n = one_len(s, i, '(');
    if n > 0 {
        return (Kind::Paren, Name::ParenLF, n);
    }
    let n = one_len(s, i, ')');
    if n > 0 {
        return (Kind::Paren, Name::ParenRT, n);
    }
    let n = one_len(s, i, '[');
    if n > 0 {
        return (Kind::Squaren, Name::SquarenLF, n);
    }
    let n = one_len(s, i, ']');
    if n > 0 {
        return (Kind::Squaren, Name::SquarenRT, n);
    }
    let n = one_len(s, i, '{');
    if n > 0 {
        return (Kind::Bracket, Name::BracketLF, n);
    }
    let n = one_len(s, i, '}');
    if n > 0 {
        return (Kind::Bracket, Name::BracketRT, n);
    }
    let n = string_len(s, i);
    if n > 0 {
        return (Kind::String, Name::String, n);
    }
    let n = any_char_len(s, i);
    if n > 0 {
        return (Kind::Invalid, Name::Invalid, n);
    }
    (Kind::Invalid, Name::Invalid, 0)
}

/// At every position some rule applies, and it takes at least one
/// character.
pub proof fn lemma_rule_takes_text(s: Seq<char>, i: int)
    requires
        0 <= i < s.len(),
    ensures
        rule_at(s, i).2 > 0,
{
}

/// `c` is an ASCII letter.
pub open spec fn ascii_letter(c: char) -> bool {
    ('A' <= c && c <= 'Z') || ('a' <= c && c <= 'z')
}

/// `c` is an ASCII letter or digit.
pub open spec fn ascii_letter_or_digit(c: char) -> bool {
    ascii_letter(c) || ('0' <= c && c <= '9')
}

/// A word at `i` of `n` characters: a letter, then letters and digits, and
/// no letter or digit after it.
pub open spec fn word_run(s: Seq<char>, i: int, n: int) -> bool {
    &&& 0 <= i
    &&& 1 <= n
    &&& i + n <= s.len()
    &&& ascii_letter(s[i])
    &&& forall|k: int| i < k < i + n ==> ascii_letter_or_digit(#[trigger] s[k])
    &&& i + n < s.len() ==> !ascii_letter_or_digit(s[i + n])
}

/// A word that no `:` follows is one reference token: the whole word, of
/// kind `Label` and name `Ref`, whatever its letters.
pub proof fn law_word_is_reference(s: Seq<char>, i: int, n: int)
    requires
        word_run(s, i, n),
        i + n < s.len() ==> s[i + n] != ':',
    ensures
        rule_at(s, i) == (Kind::Label, Name::Ref, n as nat),
{
    lemma_span_run(s, i + 1, n - 1, Class::Alnum);
    assert(word(s, i) == n);
    assert(word_key(s, i) == 0);
}

/// A word that `:` follows is one key token: the word and the colon.
pub proof fn law_word_colon_is_key(s: Seq<char>, i: int, n: int)
    requires
        word_run(s, i, n),
        i + n < s.len(),
        s[i + n] == ':',
    ensures
        rule_at(s, i) == (Kind::Label, Name::Key, (n + 1) as nat),
{
    lemma_span_run(s, i + 1, n - 1, Class::Alnum);
    assert(word(s, i) == n);
}

/// The token that a character makes on its own, whatever follows it:
/// brackets, `~`, `|`, `&`, `^`, `:` and `→`.
pub open spec fn symbol_token(c: char) -> Option<(Kind, Name)> {
    if c == '(' {
        Some((Kind::Paren, Name::ParenLF))
    } else if c == ')' {
        Some((Kind::Paren, Name::ParenRT))
    } else if c == '[' {
        Some((Kind::Squaren, Name::SquarenLF))
    } else if c == ']' {
        Some((Kind::Squaren, Name::SquarenRT))
    } else if c == '{' {
        Some((Kind::Bracket, Name::BracketLF))
    } else if c == '}' {
        Some((Kind::Bracket, Name::BracketRT))
    } else if c == '~' {
        Some((Kind::Binary, Name::Pattern))
    } else if c == '|' {
        Some((Kind::Binary, Name::Or))
    } else if c == '&' {
        Some((Kind::Binary, Name::And))
    } else if c == '^' {
        Some((Kind::Binary, Name::Exp))
    } else if c == ':' {
        Some((Kind::Binary, Name::Colon))
    } else if c == '→' {
        Some((Kind::Label, Name::Arrow))
    } else {
        None
    }
}

/// Each of these characters is one token of its own kind and name.
pub proof fn law_symbol_token(s: Seq<char>, i: int)
    requires
        0 <= i < s.len(),
        symbol_token(s[i]) is Some,
    ensures
        rule_at(s, i) == (symbol_token(s[i]).unwrap().0, symbol_token(s[i]).unwrap().1, 1nat),
{
}

/// The `m` characters from `j` are digits, and no digit follows them.
pub open spec fn digit_run(s: Seq<char>, j: int, m: int) -> bool {
    &&& 0 <= j
    &&& 0 <= m
    &&& j + m <= s.len()
    &&& forall|k: int| j <= k < j + m ==> '0' <= #[trigger] s[k] <= '9'
    &&& j + m < s.len() ==> !('0' <= s[j + m] <= '9')
}

/// Digits, with a `-` before them or not, that no `.` follows are one
/// number token of all of them.
pub proof fn law_whole_number(s: Seq<char>, i: int, minus: bool, m: int)
    requires
        0 <= i,
        minus ==> i < s.len() && s[i] == '-',
        !minus ==> i < s.len() && s[i] != '-',
        digit_run(s, if minus { i + 1 } else { i }, m),
        m >= 1,
        ({
            let e = if minus { i + 1 + m } else { i + m };
            e < s.len() ==> s[e] != '.'
        }),
    ensures
        rule_at(s, i) == (Kind::Number, Name::Number, (if minus { m + 1 } else { m }) as nat),
{
    let d = if minus { i + 1 } else { i };
    lemma_span_run(s, d, m, Class::Digit);
}

/// Digits, a `.` and more digits (or none), with a `-` before them or not,
/// are one number token of all of them.
pub proof fn law_decimal_number(s: Seq<char>, i: int, minus: bool, m: int, f: int)
    requires
        0 <= i,
        minus ==> i < s.len() && s[i] == '-',
        !minus ==> i < s.len() && s[i] != '-',
        digit_run(s, if minus { i + 1 } else { i }, m),
        m >= 1,
        ({
            let e = if minus { i + 1 + m } else { i + m };
            e < s.len() && s[e] == '.' && digit_run(s, e + 1, f)
        }),
    ensures
        rule_at(s, i) == (Kind::Number, Name::Number, (if minus { m + 2 + f } else { m + 1 + f })
            as nat),
{
    let d = if minus { i + 1 } else { i };
    lemma_span_run(s, d, m, Class::Digit);
    lemma_span_run(s, d + m + 1, f, Class::Digit);
}

/// A `"`, then `k` characters none of which is `"`, then a closing `"` or
/// the end of the text, is one string token of all of them.
pub proof fn law_string_token(s: Seq<char>, i: int, k: int)
    requires
        0 <= i,
        0 <= k,
        i + 1 + k <= s.len(),
        s[i] == '"',
        forall|j: int| i < j <= i + k ==> #[trigger] s[j] != '"',
        i + 1 + k < s.len() ==> s[i + 1 + k] == '"',
    ensures
        rule_at(s, i) == (Kind::String, Name::String, (if i + 1 + k < s.len() {
            k + 2
        } else {
            k + 1
        }) as nat),
{
    lemma_span_run(s, i + 1, k, Class::NotQuote);
}

/// `//` and what follows it up to the end of the line (not the newline) is
/// skipped text.
pub proof fn law_line_comment_skipped(s: Seq<char>, i: int, k: int)
    requires
        0 <= i,
        0 <= k,
        i + 2 + k <= s.len(),
        s[i] == '/' && s[i + 1] == '/',
        forall|j: int| i + 2 <= j < i + 2 + k ==> #[trigger] s[j] != '\n',
        i + 2 + k < s.len() ==> s[i + 2 + k] == '\n',
    ensures
        rule_at(s, i) == (Kind::Skip, Name::Skip, (k + 2) as nat),
{
    lemma_span_run(s, i + 2, k, Class::NotNewline);
}

/// A kind and a name that go together in the rules: only skipped text is
/// named `Skip`, a stop is a newline or a comma, a newline is a stop, `*`
/// and `/` are binary operators, and a label is a key, a reference or an
/// arrow.
pub open spec fn rule_pair(kind: Kind, name: Name) -> bool {
    &&& (kind == Kind::Skip <==> name == Name::Skip)
    &&& kind == Kind::Stop ==> (name == Name::Newline || name == Name::Comma)
    &&& name == Name::Newline ==> kind == Kind::Stop
    &&& (name == Name::Mul || name == Name::Div) ==> kind == Kind::Binary
    &&& kind == Kind::Label ==> (name == Name::Key || name == Name::Ref || name == Name::Arrow)
}

/// Every rule gives a kind and a name that go together, the newline rule
/// takes exactly one newline character, and a key ends in `:`.
proof fn lemma_rule_pair(s: Seq<char>, i: int)
    ensures
        rule_pair(rule_at(s, i).0, rule_at(s, i).1),
        rule_at(s, i).0 == Kind::Stop && rule_at(s, i).1 == Name::Newline ==> rule_at(s, i).2 == 1
            && 0 <= i < s.len() && s[i] == '\n',
        rule_at(s, i).1 == Name::Key ==> rule_at(s, i).2 >= 1 && 0 <= i && i + rule_at(s, i).2
            <= s.len() && s[i + rule_at(s, i).2 - 1] == ':',
{
}

/// Where the tokenizer stands between two rules: the tokens so far, the
/// line, and what the last token that counted was.
pub struct LexState {
    pub tokens: Seq<TokenV>,
    pub line: nat,
    pub skip_initial_newlines: bool,
    pub last_token_was_newline: bool,
    pub last_token_was_comma: bool,
    pub last_token_was_operator: bool,
}

/// The state before the first rule.
pub open spec fn initial_state() -> LexState {
    LexState {
        tokens: Seq::empty(),
        line: 1,
        skip_initial_newlines: true,
        last_token_was_newline: false,
        last_token_was_comma: false,
        last_token_was_operator: false,
    }
}

/// `s` without its last token, if it has one.
pub open spec fn drop_last_token(s: Seq<TokenV>) -> Seq<TokenV> {
    if s.len() > 0 {
        s.drop_last()
    } else {
        s
    }
}

/// Binary, unary and select operators, keys and arrows: the tokens after
/// which a line goes on.
pub open spec fn continues_line(kind: Kind, name: Name) -> bool {
    kind == Kind::Binary || kind == Kind::Unary || kind == Kind::Select || (kind == Kind::Label
        && (name == Name::Key || name == Name::Arrow))
}

/// What one token that a rule made does to the state. Skipped text does
/// nothing. Right after a newline, a comma or an operator first drops the
/// last token of the list (the newline token, where it was kept). A comma
/// is then kept only if the last token was no comma. A newline token is
/// kept only right after a token that ends an expression, and never before
/// the first such token; each newline counts a line. Operators and any other
/// tokens are kept.
pub open spec fn step(st: LexState, kind: Kind, name: Name, text: Seq<char>) -> LexState {
    let t = TokenV { kind, name, line: st.line, text };
    if kind == Kind::Skip {
        st
    } else if kind == Kind::Stop && name == Name::Comma {
        let kept = if st.last_token_was_newline {
            drop_last_token(st.tokens)
        } else {
            st.tokens
        };
        LexState {
            tokens: if !st.last_token_was_comma {
                kept.push(t)
            } else {
                kept
            },
            last_token_was_operator: false,
            last_token_was_comma: true,
            last_token_was_newline: false,
            ..st
        }
    } else if kind == Kind::Stop && name == Name::Newline {
        LexState {
            tokens: if !st.last_token_was_operator && !st.last_token_was_comma
                && !st.last_token_was_newline && !st.skip_initial_newlines {
                st.tokens.push(t)
            } else {
                st.tokens
            },
            last_token_was_operator: false,
            last_token_was_comma: false,
            last_token_was_newline: true,
            line: st.line + 1,
            ..st
        }
    } else if continues_line(kind, name) {
        LexState {
            tokens: if st.last_token_was_newline {
                drop_last_token(st.tokens)
            } else {
                st.tokens
            }.push(t),
            last_token_was_operator: true,
            last_token_was_comma: false,
            last_token_was_newline: false,
            ..st
        }
    } else {
        LexState {
            tokens: st.tokens.push(t),
            last_token_was_operator: false,
            last_token_was_comma: false,
            last_token_was_newline: false,
            skip_initial_newlines: false,
            ..st
        }
    }
}

/// The state after the rules have taken the text from `i` to the end.
pub open spec fn run(s: Seq<char>, i: int, st: LexState) -> LexState
    decreases s.len() - i,
{
    if i < 0 || i >= s.len() {
        st
    } else {
        let (kind, name, n) = rule_at(s, i);
        if n == 0 || i + n > s.len() {
            st
        } else {
            run(s, i + n, step(st, kind, name, s.subrange(i, i + n)))
        }
    }
}

/// The tokens of the source text `s`.
pub open spec fn tokenize(s: Seq<char>) -> Seq<TokenV> {
    run(s, 0, initial_state()).tokens
}

/// A token after which an expression may end: anything but skipped
/// text, a comma, a newline and the tokens after which a line goes on.
pub open spec fn ends_expression(t: TokenV) -> bool {
    t.kind != Kind::Skip && !(t.kind == Kind::Stop && t.name == Name::Comma) && !(t.kind
        == Kind::Stop && t.name == Name::Newline) && !continues_line(t.kind, t.name)
}

pub open spec fn is_newline(t: TokenV) -> bool {
    t.kind == Kind::Stop && t.name == Name::Newline
}

/// A token that stands for a value: a number, a string, a bracket, a
/// reserved word, a boolean, an invalid character, or a reference.
pub open spec fn is_operand(t: TokenV) -> bool {
    t.kind == Kind::Number || t.kind == Kind::String || t.kind == Kind::Paren || t.kind
        == Kind::Squaren || t.kind == Kind::Bracket || t.kind == Kind::Reserved || t.kind
        == Kind::Bool || t.kind == Kind::Invalid || (t.kind == Kind::Label && t.name == Name::Ref)
}

/// What holds of every list of tokens that the tokenizer makes: no token is
/// of kind or name `Skip`; a token named `Newline` is a stop, `*` and `/`
/// are binary operators, and a key ends in `:`; each newline token stands
/// between two operands (or ends the list); lines never go back and start
/// at 1; no token is empty.
pub open spec fn well_formed_tokens(ts: Seq<TokenV>) -> bool {
    &&& forall|j: int|
        0 <= j < ts.len() ==> #[trigger] ts[j].kind != Kind::Skip && ts[j].name != Name::Skip
    &&& forall|j: int|
        0 <= j < ts.len() && (#[trigger] ts[j]).name == Name::Newline ==> ts[j].kind == Kind::Stop
    &&& forall|j: int|
        0 <= j < ts.len() && ((#[trigger] ts[j]).name == Name::Mul || ts[j].name == Name::Div)
            ==> ts[j].kind == Kind::Binary
    &&& forall|j: int|
        0 <= j < ts.len() && (#[trigger] ts[j]).name == Name::Key ==> ts[j].text.len() > 0
            && ts[j].text.last() == ':'
    &&& forall|j: int|
        0 <= j < ts.len() && (#[trigger] ts[j]).name == Name::Newline ==> 0 < j && is_operand(
            ts[j - 1],
        ) && (j + 1 == ts.len() || is_operand(ts[j + 1]))
    &&& forall|j: int, k: int|
        0 <= j <= k < ts.len() ==> 1 <= #[trigger] ts[j].line <= #[trigger] ts[k].line
    &&& forall|j: int| 0 <= j < ts.len() ==> #[trigger] ts[j].text.len() > 0
}

/// The invariant of the tokenizer's state between two rules.
spec fn state_inv(st: LexState) -> bool {
    let ts = st.tokens;
    &&& st.line >= 1
    &&& !(st.last_token_was_newline && st.last_token_was_comma)
    &&& !(st.last_token_was_newline && st.last_token_was_operator)
    &&& !(st.last_token_was_comma && st.last_token_was_operator)
    &&& forall|j: int| 0 <= j < ts.len() ==> #[trigger] ts[j].kind != Kind::Skip
    &&& forall|j: int| 0 <= j < ts.len() ==> rule_pair(#[trigger] ts[j].kind, ts[j].name)
    &&& forall|j: int|
        0 <= j < ts.len() && (#[trigger] ts[j]).name == Name::Key ==> ts[j].text.len() > 0
            && ts[j].text.last() == ':'
    &&& forall|j: int|
        0 <= j < ts.len() && is_newline(#[trigger] ts[j]) ==> 0 < j && ends_expression(ts[j - 1])
    &&& forall|j: int|
        0 <= j && j + 1 < ts.len() && is_newline(#[trigger] ts[j]) ==> ends_expression(ts[j + 1])
    &&& forall|j: int, k: int|
        0 <= j <= k < ts.len() ==> 1 <= #[trigger] ts[j].line <= #[trigger] ts[k].line
    &&& forall|j: int| 0 <= j < ts.len() ==> #[trigger] ts[j].line <= st.line
    &&& forall|j: int| 0 <= j < ts.len() ==> #[trigger] ts[j].text.len() > 0
    &&& st.last_token_was_newline ==> ts.len() == 0 || !ends_expression(ts.last())
    &&& ts.len() > 0 && is_newline(ts.last()) ==> st.last_token_was_newline
    &&& (!st.skip_initial_newlines && !st.last_token_was_operator && !st.last_token_was_comma
        && !st.last_token_was_newline) ==> ts.len() > 0 && ends_expression(ts.last())
    &&& st.last_token_was_operator ==> ts.len() > 0 && continues_line(
        ts.last().kind,
        ts.last().name,
    )
    &&& st.last_token_was_comma ==> ts.len() > 0 && ts.last().kind == Kind::Stop && ts.last().name
        == Name::Comma
    &&& st.skip_initial_newlines ==> forall|j: int|
        0 <= j < ts.len() ==> !ends_expression(#[trigger] ts[j])
}

proof fn lemma_step_inv(st: LexState, kind: Kind, name: Name, text: Seq<char>)
    requires
        state_inv(st),
        text.len() > 0,
        rule_pair(kind, name),
        name == Name::Key ==> text.last() == ':',
    ensures
        state_inv(step(st, kind, name, text)),
{
    let ts = st.tokens;
    let t = TokenV { kind, name, line: st.line, text };
    if st.last_token_was_newline && ts.len() > 0 {
        let d = ts.drop_last();
        assert(d.len() > 0 ==> !is_newline(d.last())) by {
            if d.len() > 0 && is_newline(d.last()) {
                assert(is_newline(ts[d.len() - 1]));
            }
        }
    }
    if !st.last_token_was_newline && ts.len() > 0 {
        assert(!is_newline(ts.last()));
    }
    let nst = step(st, kind, name, text);
    let nts = nst.tokens;
    assert forall|j: int|
        0 <= j && j + 1 < nts.len() && is_newline(#[trigger] nts[j]) implies ends_expression(
        nts[j + 1],
    ) by {
        if j + 1 < ts.len() {
            assert(nts[j] == ts[j]);
        }
    }
    assert forall|j: int|
        0 <= j < nts.len() && is_newline(#[trigger] nts[j]) implies 0 < j && ends_expression(
        nts[j - 1],
    ) by {
        if j < ts.len() && nts[j] == ts[j] {
            assert(0 < j);
            assert(nts[j - 1] == ts[j - 1]);
        }
    }
    assert forall|j: int, k: int| 0 <= j <= k < nts.len() implies 1 <= #[trigger] nts[j].line
        <= #[trigger] nts[k].line by {
        if k < ts.len() && nts[k] == ts[k] {
            assert(nts[j] == ts[j]);
        } else if j < ts.len() && nts[j] == ts[j] {
            assert(ts[j].line <= st.line);
        }
    }
}

proof fn lemma_run_inv(s: Seq<char>, i: int, st: LexState)
    requires
        state_inv(st),
    ensures
        state_inv(run(s, i, st)),
    decreases s.len() - i,
{
    if 0 <= i < s.len() {
        let (kind, name, n) = rule_at(s, i);
        if n > 0 && i + n <= s.len() {
            lemma_rule_pair(s, i);
            assert(s.subrange(i, i + n).last() == s[i + n - 1]);
            lemma_step_inv(st, kind, name, s.subrange(i, i + n));
            lemma_run_inv(s, i + n, step(st, kind, name, s.subrange(i, i + n)));
        }
    }
}

/// Line numbers do not run ahead of the newlines of the text.
proof fn lemma_run_lines(s: Seq<char>, i: int, st: LexState)
    requires
        0 <= i <= s.len(),
        st.line <= 1 + newlines(s.take(i)),
        forall|j: int| 0 <= j < st.tokens.len() ==> #[trigger] st.tokens[j].line <= st.line,
    ensures
        forall|j: int|
            0 <= j < run(s, i, st).tokens.len() ==> #[trigger] run(s, i, st).tokens[j].line <= 1
                + newlines(s),
    decreases s.len() - i,
{
    lemma_newlines_prefix(s, i, s.len() as int);
    assert(s.take(s.len() as int) =~= s);
    if i < s.len() {
        let (kind, name, n) = rule_at(s, i);
        if n > 0 && i + n <= s.len() {
            lemma_rule_pair(s, i);
            lemma_newlines_prefix(s, i, i + 1);
            lemma_newlines_prefix(s, i, i + n);
            let next = step(st, kind, name, s.subrange(i, i + n));
            assert forall|j: int| 0 <= j < next.tokens.len() implies #[trigger] next.tokens[j].line
                <= next.line by {
                if j < st.tokens.len() && next.tokens[j] == st.tokens[j] {
                } else {
                    if st.last_token_was_newline && st.tokens.len() > 0 && j
                        < st.tokens.drop_last().len() {
                        assert(next.tokens[j] == st.tokens[j]);
                    }
                }
            }
            lemma_run_lines(s, i + n, next);
        }
    }
}

/// The shape of every tokenizer output: no token is of kind or name `Skip`;
/// a newline token only ever separates two operands, so a line that ends in
/// an operator, a comma or a key goes on, and a source never starts with a
/// newline token; line numbers start at 1, never go back, and stay within
/// one more than the number of newlines of the source; every token holds
/// some text.
pub proof fn law_tokens_well_formed(s: Seq<char>)
    ensures
        well_formed_tokens(tokenize(s)),
        forall|j: int|
            0 <= j < tokenize(s).len() ==> #[trigger] tokenize(s)[j].line <= 1 + newlines(s),
{
    let ts = tokenize(s);
    lemma_run_inv(s, 0, initial_state());
    assert forall|j: int| 0 <= j < ts.len() && (#[trigger] ts[j]).name == Name::Newline implies 0
        < j && is_operand(ts[j - 1]) && (j + 1 == ts.len() || is_operand(ts[j + 1])) by {
        assert(rule_pair(ts[j].kind, ts[j].name));
        assert(is_newline(ts[j]));
        assert(rule_pair(ts[j - 1].kind, ts[j - 1].name));
        if j + 1 < ts.len() {
            assert(rule_pair(ts[j + 1].kind, ts[j + 1].name));
        }
    }
    assert forall|j: int| 0 <= j < ts.len() implies #[trigger] ts[j].kind != Kind::Skip
        && ts[j].name != Name::Skip && (ts[j].name == Name::Newline ==> ts[j].kind == Kind::Stop)
        && ((ts[j].name == Name::Mul || ts[j].name == Name::Div) ==> ts[j].kind
        == Kind::Binary) by {
        assert(rule_pair(ts[j].kind, ts[j].name));
    }
    assert(s.take(0) =~= Seq::<char>::empty());
    lemma_run_lines(s, 0, initial_state());
}

/// The tokens are pieces of the source `s` before `bound`, in order and
/// without overlap: token `j` is the text that starts at `starts[j]`.
pub open spec fn placed(s: Seq<char>, ts: Seq<TokenV>, starts: Seq<int>, bound: int) -> bool {
    &&& starts.len() == ts.len()
    &&& forall|j: int|
        0 <= j < ts.len() ==> 0 <= #[trigger] starts[j] && starts[j] + ts[j].text.len() <= bound
            && s.subrange(starts[j], starts[j] + ts[j].text.len()) == ts[j].text
    &&& forall|j: int, k: int|
        0 <= j < k < ts.len() ==> #[trigger] starts[j] + ts[j].text.len() <= #[trigger] starts[k]
}

proof fn lemma_step_placed(
    s: Seq<char>,
    st: LexState,
    starts: Seq<int>,
    i: int,
    n: int,
    kind: Kind,
    name: Name,
) -> (next: Seq<int>)
    requires
        0 <= i,
        0 < n,
        i + n <= s.len(),
        placed(s, st.tokens, starts, i),
    ensures
        placed(s, step(st, kind, name, s.subrange(i, i + n)).tokens, next, i + n),
{
    let ts = st.tokens;
    let text = s.subrange(i, i + n);
    let t = TokenV { kind, name, line: st.line, text };
    let nts = step(st, kind, name, text).tokens;
    let dropped = if starts.len() > 0 {
        starts.drop_last()
    } else {
        starts
    };
    let next = if nts.len() == ts.len() + 1 && nts == ts.push(t) {
        starts.push(i)
    } else if nts == ts {
        starts
    } else if nts == drop_last_token(ts) {
        dropped
    } else {
        dropped.push(i)
    };
    assert(placed(s, nts, next, i + n));
    next
}

proof fn lemma_run_placed(s: Seq<char>, i: int, st: LexState, starts: Seq<int>) -> (all: Seq<int>)
    requires
        0 <= i <= s.len(),
        placed(s, st.tokens, starts, i),
    ensures
        placed(s, run(s, i, st).tokens, all, s.len() as int),
    decreases s.len() - i,
{
    if i < s.len() {
        let (kind, name, n) = rule_at(s, i);
        if n > 0 && i + n <= s.len() {
            let next = lemma_step_placed(s, st, starts, i, n as int, kind, name);
            lemma_run_placed(s, i + n, step(st, kind, name, s.subrange(i, i + n)), next)
        } else {
            starts
        }
    } else {
        starts
    }
}

/// Every token is a piece of the source text, and the tokens come in the
/// order of their places in it, without overlap.
pub proof fn law_tokens_are_pieces(s: Seq<char>)
    ensures
        exists|starts: Seq<int>| placed(s, tokenize(s), starts, s.len() as int),
{
    let all = lemma_run_placed(s, 0, initial_state(), Seq::empty());
    assert(placed(s, tokenize(s), all, s.len() as int));
}

/// The operand tokens of a list, in order.
pub open spec fn operands(ts: Seq<TokenV>) -> Seq<TokenV>
    decreases ts.len(),
{
    if ts.len() == 0 {
        Seq::empty()
    } else if is_operand(ts.last()) {
        operands(ts.drop_last()).push(ts.last())
    } else {
        operands(ts.drop_last())
    }
}

/// Every piece that the rules cut from `i` on, in order, as a token on the
/// line it starts on (`line` at `i`; each newline piece counts one), before
/// any is dropped.
pub open spec fn lexemes(s: Seq<char>, i: int, line: nat) -> Seq<TokenV>
    decreases s.len() - i,
{
    if i < 0 || i >= s.len() {
        Seq::empty()
    } else {
        let (kind, name, n) = rule_at(s, i);
        if n == 0 || i + n > s.len() {
            Seq::empty()
        } else {
            let t = TokenV { kind, name, line, text: s.subrange(i, i + n) };
            let next = if kind == Kind::Stop && name == Name::Newline {
                line + 1
            } else {
                line
            };
            seq![t] + lexemes(s, i + n, next)
        }
    }
}

proof fn lemma_operands_push(ts: Seq<TokenV>, t: TokenV)
    ensures
        operands(ts.push(t)) == if is_operand(t) {
            operands(ts).push(t)
        } else {
            operands(ts)
        },
{
    assert(ts.push(t).drop_last() =~= ts);
}

proof fn lemma_operands_concat(a: Seq<TokenV>, b: Seq<TokenV>)
    ensures
        operands(a + b) == operands(a) + operands(b),
    decreases b.len(),
{
    if b.len() == 0 {
        assert(a + b =~= a);
        assert(operands(a) + operands(b) =~= operands(a));
    } else {
        lemma_operands_concat(a, b.drop_last());
        assert((a + b).drop_last() =~= a + b.drop_last());
        assert((a + b).last() == b.last());
        if is_operand(b.last()) {
            assert(operands(a) + operands(b.drop_last()).push(b.last()) =~= (operands(a)
                + operands(b.drop_last())).push(b.last()));
        }
    }
}

/// One step keeps the operands it had and adds the new token if it is one.
proof fn lemma_step_operands(st: LexState, kind: Kind, name: Name, text: Seq<char>)
    requires
        state_inv(st),
    ensures
        operands(step(st, kind, name, text).tokens) == operands(st.tokens) + operands(
            seq![TokenV { kind, name, line: st.line, text }],
        ),
{
    let ts = st.tokens;
    let t = TokenV { kind, name, line: st.line, text };
    lemma_operands_push(Seq::empty(), t);
    assert(Seq::<TokenV>::empty().push(t) =~= seq![t]);
    if st.last_token_was_newline && ts.len() > 0 {
        assert(!is_operand(ts.last()));
        assert(operands(drop_last_token(ts)) == operands(ts));
        lemma_operands_push(ts.drop_last(), t);
    }
    lemma_operands_push(ts, t);
    if is_operand(t) {
        assert(operands(ts) + seq![t] =~= operands(ts).push(t));
    } else {
        assert(operands(ts) + Seq::<TokenV>::empty() =~= operands(ts));
    }
}

proof fn lemma_run_operands(s: Seq<char>, i: int, st: LexState)
    requires
        state_inv(st),
    ensures
        operands(run(s, i, st).tokens) == operands(st.tokens) + operands(lexemes(s, i, st.line)),
    decreases s.len() - i,
{
    if 0 <= i < s.len() {
        let (kind, name, n) = rule_at(s, i);
        if n > 0 && i + n <= s.len() {
            let text = s.subrange(i, i + n);
            let t = TokenV { kind, name, line: st.line, text };
            let next = step(st, kind, name, text);
            lemma_rule_pair(s, i);
            lemma_step_inv(st, kind, name, text);
            lemma_step_operands(st, kind, name, text);
            lemma_run_operands(s, i + n, next);
            assert(next.line == if kind == Kind::Stop && name == Name::Newline {
                st.line + 1
            } else {
                st.line
            });
            lemma_operands_concat(seq![t], lexemes(s, i + n, next.line));
            assert(operands(st.tokens) + operands(seq![t]) + operands(lexemes(s, i + n, next.line))
                =~= operands(st.tokens) + (operands(seq![t]) + operands(
                lexemes(s, i + n, next.line),
            )));
        } else {
            assert(operands(st.tokens) + Seq::<TokenV>::empty() =~= operands(st.tokens));
        }
    } else {
        assert(operands(st.tokens) + Seq::<TokenV>::empty() =~= operands(st.tokens));
    }
}

/// Dropping newlines, repeated commas and newlines before operators never
/// drops, adds or moves an operand: the operand tokens of the output are
/// those of every piece that the rules cut, in order, with the same kind,
/// name, text and line.
pub proof fn law_operands_kept(s: Seq<char>)
    ensures
        operands(tokenize(s)) == operands(lexemes(s, 0, 1)),
{
    lemma_run_inv(s, 0, initial_state());
    lemma_run_operands(s, 0, initial_state());
    assert(operands(Seq::<TokenV>::empty()) + operands(lexemes(s, 0, 1)) =~= operands(
        lexemes(s, 0, 1),
    ));
}

/// How many newline characters `s` holds.
pub open spec fn newlines(s: Seq<char>) -> nat
    decreases s.len(),
{
    if s.len() == 0 {
        0
    } else {
        newlines(s.drop_last()) + if s.last() == '\n' {
            1nat
        } else {
            0
        }
    }
}

proof fn lemma_newlines_prefix(s: Seq<char>, i: int, j: int)
    requires
        0 <= i <= j <= s.len(),
    ensures
        newlines(s.take(i)) <= newlines(s.take(j)),
        j == i + 1 ==> newlines(s.take(j)) == newlines(s.take(i)) + if s[i] == '\n' {
            1nat
        } else {
            0
        },
    decreases j - i,
{
    if i < j {
        assert(s.take(j).drop_last() =~= s.take(j - 1));
        lemma_newlines_prefix(s, i, j - 1);
    }
}

proof fn lemma_view_push(v: Seq<Token>, t: Token)
    ensures
        tokens_view(v.push(t)) == tokens_view(v).push(t@),
{
    assert(tokens_view(v.push(t)) =~= tokens_view(v).push(t@));
}

proof fn lemma_view_drop_last(v: Seq<Token>)
    ensures
        tokens_view(if v.len() > 0 {
            v.drop_last()
        } else {
            v
        }) == drop_last_token(tokens_view(v)),
{
    assert(tokens_view(if v.len() > 0 {
        v.drop_last()
    } else {
        v
    }) =~= drop_last_token(tokens_view(v)));
}

/// Whether the source has few enough newlines for the 32-bit line count
/// that `tokenizer` keeps.
pub fn fits_line_counter(input: &String) -> (b: bool)
    ensures
        b == (newlines(input@) < u32::MAX),
{
    let s = chars_of(input.as_str());
    let mut count: usize = 0;
    let mut k: usize = 0;
    assert(s@.take(0) =~= Seq::<char>::empty());
    while k < s.len()
        invariant
            k <= s@.len(),
            count <= k,
            count == newlines(s@.take(k as int)),
        decreases s@.len() - k,
    {
        proof {
            lemma_newlines_prefix(s@, k as int, k + 1);
        }
        if s[k] == '\n' {
            count += 1;
        }
        k += 1;
    }
    assert(s@.take(s@.len() as int) =~= s@);
    count < u32::MAX as usize
}

spec fn state_of(
    tokens: Seq<Token>,
    line: u32,
    skip: bool,
    newline: bool,
    comma: bool,
    operator: bool,
) -> LexState {
    LexState {
        tokens: tokens_view(tokens),
        line: line as nat,
        skip_initial_newlines: skip,
        last_token_was_newline: newline,
        last_token_was_comma: comma,
        last_token_was_operator: operator,
    }
}

/// Cuts source text into tokens (see `rule_at` and `step`).
pub fn tokenizer(input: &String) -> (tokens: Vec<Token>)
    requires
        newlines(input@) < u32::MAX,
    ensures
        tokens_view(tokens@) == tokenize(input@),
{
    let s = chars_of(input.as_str());
    let mut tokens: Vec<Token> = Vec::new();
    let mut cursor: usize = 0;
    let mut line: u32 = 1;
    let length = s.len();
    let mut skip_initial_newlines = true;
    let mut last_token_was_newline = false;
    let mut last_token_was_comma = false;
    let mut last_token_was_operator = false;
    assert(tokens_view(tokens@) =~= Seq::<TokenV>::empty());
    assert(s@.take(0) =~= Seq::<char>::empty());
    while cursor < length
        invariant
            length == s@.len(),
            s@ == input@,
            cursor <= length,
            newlines(input@) < u32::MAX,
            line <= 1 + newlines(s@.take(cursor as int)),
            run(
                s@,
                cursor as int,
                state_of(
                    tokens@,
                    line,
                    skip_initial_newlines,
                    last_token_was_newline,
                    last_token_was_comma,
                    last_token_was_operator,
                ),
            ) == run(s@, 0, initial_state()),
        decreases length - cursor,
    {
        let (kind, name, n) = next_rule(&s, cursor);
        proof {
            lemma_rule_takes_text(s@, cursor as int);
        }
        let ghost before = state_of(
            tokens@,
            line,
            skip_initial_newlines,
            last_token_was_newline,
            last_token_was_comma,
            last_token_was_operator,
        );
        let text = string_of(&s, cursor, cursor + n);
        let t = Token { of: Of { kind, name }, meta: Meta { line, text } };
        let ghost tv = t@;
        match (kind, name) {
            (Kind::Skip, _) => {},
            (Kind::Stop, Name::Comma) => {
                if last_token_was_newline {
                    proof {
                        lemma_view_drop_last(tokens@);
                    }
                    tokens.pop();
                }
                if !last_token_was_comma {
                    proof {
                        lemma_view_push(tokens@, t);
                    }
                    tokens.push(t);
                }
                last_token_was_operator = false;
                last_token_was_comma = true;
                last_token_was_newline = false;
            },
            (Kind::Stop, Name::Newline) => {
                if !last_token_was_operator && !last_token_was_comma && !last_token_was_newline
                    && !skip_initial_newlines {
                    proof {
                        lemma_view_push(tokens@, t);
                    }
                    tokens.push(t);
                }
                last_token_was_operator = false;
                last_token_was_comma = false;
                last_token_was_newline = true;
                proof {
                    lemma_newlines_prefix(s@, cursor as int, cursor + 1);
                    lemma_newlines_prefix(s@, cursor + 1, s@.len() as int);
                    assert(s@.take(s@.len() as int) =~= s@);
                }
                line += 1;
            },
            (Kind::Binary, _)
            | (Kind::Unary, _)
            | (Kind::Select, _)
            | (Kind::Label, Name::Key)
            | (Kind::Label, Name::Arrow) => {
                if last_token_was_newline {
                    proof {
                        lemma_view_drop_last(tokens@);
                    }
                    tokens.pop();
                }
                proof {
                    lemma_view_push(tokens@, t);
                }
                tokens.push(t);
                last_token_was_operator = true;
                last_token_was_comma = false;
                last_token_was_newline = false;
            },
            _ => {
                proof {
                    lemma_view_push(tokens@, t);
                }
                tokens.push(t);
                last_token_was_operator = false;
                last_token_was_comma = false;
                last_token_was_newline = false;
                skip_initial_newlines = false;
            },
        }
        proof {
            assert(state_of(
                tokens@,
                line,
                skip_initial_newlines,
                last_token_was_newline,
                last_token_was_comma,
                last_token_was_operator,
            ) == step(before, kind, name, s@.subrange(cursor as int, cursor + n)));
            lemma_newlines_prefix(s@, cursor as int, cursor + n);
        }
        cursor += n;
    }
    tokens
}

} // verus!

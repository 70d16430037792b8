//! The tokenizers against the same rules written as regular expressions and
//! run through the `regex` crate, on many generated source texts.

use regex::Regex;
use reil::compiler::parser::try_parser;
use reil::compiler::tokenizer::{tokenizer, Kind, Name};
use reil::report::{ast_string, token_string};
use reil::tokenizer::{tokenizer as categorize, Category};

fn compiler_rules() -> Vec<(Kind, Name, Regex)> {
    let r = |s: &str| Regex::new(s).unwrap();
    vec![
        (Kind::Stop, Name::Newline, r(r"^\n")),
        (Kind::Skip, Name::Skip, r(r"^\r")),
        (Kind::Stop, Name::Comma, r(r"^(,|;)+")),
        (Kind::Skip, Name::Skip, r(r"^[[:blank:]]+")),
        (Kind::Skip, Name::Skip, r(r"^//.*")),
        (Kind::Skip, Name::Skip, r(r"^/\*[\s\S]*?\*/")),
        (Kind::Label, Name::Key, r(r"^[*/+-]:")),
        (Kind::Label, Name::Key, r(r"^[A-Za-z][A-Za-z0-9]*:")),
        (Kind::Label, Name::Ref, r(r"^[A-Za-z][A-Za-z0-9]*")),
        (Kind::Label, Name::Arrow, r(r"^(->|→)")),
        (Kind::Number, Name::Number, r(r"^\-?[0-9]+\.[0-9]*")),
        (Kind::Number, Name::Number, r(r"^\-?[0-9]*\.[0-9]+")),
        (Kind::Number, Name::Number, r(r"^\-?[0-9]+")),
        (Kind::Reserved, Name::Reserved, r(r"^if\b")),
        (Kind::Reserved, Name::Reserved, r(r"^else\b")),
        (Kind::Bool, Name::True, r(r"^true\b")),
        (Kind::Bool, Name::False, r(r"^false\b")),
        (Kind::Binary, Name::Colon, r(r"^[:]")),
        (Kind::Binary, Name::Pattern, r(r"^[~]")),
        (Kind::Binary, Name::Or, r(r"^[|]")),
        (Kind::Binary, Name::And, r(r"^[&]")),
        (Kind::Binary, Name::Eq, r(r"^((==)|(=))")),
        (Kind::Binary, Name::Ne, r(r"^(!=)")),
        (Kind::Binary, Name::Ge, r(r"^(>=)")),
        (Kind::Binary, Name::Le, r(r"^(<=)")),
        (Kind::Binary, Name::Lt, r(r"^(>)")),
        (Kind::Binary, Name::Le, r(r"^(<)")),
        (Kind::Binary, Name::Add, r(r"^(\+)")),
        (Kind::Binary, Name::Sub, r(r"^(-)")),
        (Kind::Binary, Name::Mul, r(r"^(\*)")),
        (Kind::Binary, Name::Div, r(r"^(/)")),
        (Kind::Binary, Name::Exp, r(r"^(\^)")),
        (Kind::Unary, Name::Not, r(r"^(!)")),
        (Kind::Select, Name::Parent, r(r"^[.][.]")),
        (Kind::Select, Name::Select, r(r"^[.]")),
        (Kind::Paren, Name::ParenLF, r(r"^\(")),
        (Kind::Paren, Name::ParenRT, r(r"^\)")),
        (Kind::Squaren, Name::SquarenLF, r(r"^\[")),
        (Kind::Squaren, Name::SquarenRT, r(r"^\]")),
        (Kind::Bracket, Name::BracketLF, r(r"^\{")),
        (Kind::Bracket, Name::BracketRT, r(r"^\}")),
        (Kind::String, Name::String, r(r#"^"[^"]*("|$)"#)),
        (Kind::Invalid, Name::Invalid, r(r"^.")),
    ]
}

type Listed = Vec<(Kind, Name, u32, String)>;

fn reference_tokens(rules: &[(Kind, Name, Regex)], input: &str) -> Listed {
    let mut tokens: Listed = Vec::new();
    let mut cursor = 0;
    let mut line = 1;
    let mut skip_initial_newlines = true;
    let mut last_token_was_newline = false;
    let mut last_token_was_comma = false;
    let mut last_token_was_operator = false;
    'outer: while cursor < input.len() {
        for (kind, name, re) in rules {
            if let Some(mat) = re.find(&input[cursor..]) {
                let t = (*kind, *name, line, input[cursor..cursor + mat.end()].to_string());
                match (kind, name) {
                    (Kind::Skip, _) => {}
                    (Kind::Stop, Name::Comma) => {
                        if last_token_was_newline {
                            tokens.pop();
                        }
                        if !last_token_was_comma {
                            tokens.push(t);
                        }
                        last_token_was_operator = false;
                        last_token_was_comma = true;
                        last_token_was_newline = false;
                    }
                    (Kind::Stop, Name::Newline) => {
                        if !last_token_was_operator
                            && !last_token_was_comma
                            && !last_token_was_newline
                            && !skip_initial_newlines
                        {
                            tokens.push(t);
                        }
                        last_token_was_operator = false;
                        last_token_was_comma = false;
                        last_token_was_newline = true;
                        line += 1;
                    }
                    (Kind::Binary, _)
                    | (Kind::Unary, _)
                    | (Kind::Select, _)
                    | (Kind::Label, Name::Key)
                    | (Kind::Label, Name::Arrow) => {
                        if last_token_was_newline {
                            tokens.pop();
                        }
                        tokens.push(t);
                        last_token_was_operator = true;
                        last_token_was_comma = false;
                        last_token_was_newline = false;
                    }
                    _ => {
                        tokens.push(t);
                        last_token_was_operator = false;
                        last_token_was_comma = false;
                        last_token_was_newline = false;
                        skip_initial_newlines = false;
                    }
                }
                cursor += mat.end();
                continue 'outer;
            }
        }
        panic!("no rule applies");
    }
    tokens
}

fn category_rules() -> Vec<(Category, Regex)> {
    let r = |s: &str| Regex::new(s).unwrap();
    vec![
        (Category::Newline, r(r"^(\n|\r)+")),
        (Category::Skip, r(r"^[[:blank:]]+")),
        (Category::Skip, r(r"^//.*")),
        (Category::Skip, r(r"^/\*[\s\S]*?\*/")),
        (Category::Comma, r(r"^[,]")),
        (Category::Semicolon, r(r"^[;]")),
        (Category::Arrow, r(r"^→")),
        (Category::Arrow, r(r"^->")),
        (Category::Number, r(r"^\-?[0-9]+\.[0-9]*")),
        (Category::Number, r(r"^\-?[0-9]*\.[0-9]+")),
        (Category::Number, r(r"^\-?[0-9]+")),
        (Category::ReservedWord, r(r"^if\b")),
        (Category::ReservedWord, r(r"^else\b")),
        (Category::ReservedWord, r(r"^true\b")),
        (Category::ReservedWord, r(r"^false\b")),
        (Category::Operator, r(r"^[.>~<!*=/%÷×·^'∘+-]+")),
        (Category::Paren, r(r"^\(")),
        (Category::Paren, r(r"^\)")),
        (Category::Squaren, r(r"^\[")),
        (Category::Squaren, r(r"^\]")),
        (Category::Bracket, r(r"^\{")),
        (Category::Bracket, r(r"^\}")),
        (Category::Colon, r(r"^:")),
        (Category::String, r(r#"^"[^"]*("|$)"#)),
        (Category::Word, r(r"^[A-Za-z][A-Za-z0-9]*")),
        (Category::Invalid, r(r"^.")),
    ]
}

fn reference_categories(rules: &[(Category, Regex)], input: &str) -> Vec<(Category, String)> {
    let mut tokens = Vec::new();
    let mut cursor = 0;
    'outer: while cursor < input.len() {
        for (category, re) in rules {
            if let Some(mat) = re.find(&input[cursor..]) {
                if !matches!(category, Category::Skip) {
                    tokens.push((*category, input[cursor..cursor + mat.end()].to_string()));
                }
                cursor += mat.end();
                continue 'outer;
            }
        }
        panic!("no rule applies");
    }
    tokens
}

const PIECES: &[&str] = &[
    "a", "b", "x1", "if", "else", "true", "false", "ifé", "if_", "0", "7", "42", ".", "..", "5.",
    ".5", "-", "->", "→", ">", "<", ">=", "<=", "=", "==", "!", "!=", "~", "|", "&", "+", "*",
    "/", "^", ":", "a:", "+:", ",", ";", ",;", " ", "\t", "\n", "\r", "\r\n", "\"", "\"s\"", "(",
    ")", "[", "]", "{", "}", "//c", "/*", "*/", "/* c */", "é", "÷", "×", "·", "∘", "'", "%", "_",
    "λ", "@", "#", "9x", "\u{300}",
];

struct Lcg(u64);

impl Lcg {
    fn next(&mut self, bound: usize) -> usize {
        self.0 = self.0.wrapping_mul(6364136223846793005).wrapping_add(1442695040888963407);
        ((self.0 >> 33) as usize) % bound
    }
}

fn sources(count: usize) -> Vec<String> {
    let mut rng = Lcg(0x5eed);
    let mut out = Vec::new();
    for _ in 0..count {
        let n = rng.next(24);
        let mut s = String::new();
        for _ in 0..n {
            s.push_str(PIECES[rng.next(PIECES.len())]);
        }
        out.push(s);
    }
    out
}

#[test]
fn tokenizer_agrees_with_regex_rules() {
    let rules = compiler_rules();
    for src in sources(4000) {
        let ours: Listed = tokenizer(&src)
            .into_iter()
            .map(|t| (t.of.kind, t.of.name, t.meta.line, t.meta.text))
            .collect();
        assert_eq!(ours, reference_tokens(&rules, &src), "source {:?}", src);
    }
}

#[test]
fn category_tokenizer_agrees_with_regex_rules() {
    let rules = category_rules();
    for src in sources(4000) {
        let ours = categorize(&src);
        let expected = reference_categories(&rules, &src);
        let ours_debug = format!("{:?}", ours);
        let expected_debug = format!("{:?}", expected);
        assert_eq!(ours_debug, expected_debug, "source {:?}", src);
    }
}

fn ends_expression(kind: Kind, name: Name) -> bool {
    !matches!(kind, Kind::Skip | Kind::Binary | Kind::Unary | Kind::Select)
        && !matches!((kind, name), (Kind::Stop, Name::Comma) | (Kind::Stop, Name::Newline))
        && !matches!((kind, name), (Kind::Label, Name::Key) | (Kind::Label, Name::Arrow))
}

#[test]
fn tokens_are_well_formed_on_generated_sources() {
    for src in sources(3000) {
        let ts = tokenizer(&src);
        for (j, t) in ts.iter().enumerate() {
            assert!(t.of.kind != Kind::Skip);
            assert!(!t.meta.text.is_empty());
            assert!(t.meta.line >= 1);
            if j > 0 {
                assert!(ts[j - 1].meta.line <= t.meta.line);
            }
            if t.of.name == Name::Newline {
                assert!(j > 0 && ends_expression(ts[j - 1].of.kind, ts[j - 1].of.name), "{:?}", src);
                if j + 1 < ts.len() {
                    assert!(ends_expression(ts[j + 1].of.kind, ts[j + 1].of.name), "{:?}", src);
                }
            }
        }
    }
}

#[test]
fn tokens_are_pieces_of_the_source_in_order() {
    for src in sources(3000) {
        let mut from = 0;
        for t in tokenizer(&src) {
            let at = src[from..].find(t.meta.text.as_str()).expect("the token is in the source");
            from += at + t.meta.text.len();
        }
    }
}

#[test]
fn listings_and_trees_match_the_printed_forms() {
    let mut trees = 0;
    for src in sources(3000) {
        let ts = tokenizer(&src);
        let mut expected = String::new();
        for group in &ts {
            expected.push_str(&format!(
                "{:<12} {:<12} {:<4} {:?}\n",
                format!("{:?}", group.of.kind),
                format!("{:?}", group.of.name),
                group.meta.line,
                group.meta.text,
            ));
        }
        assert_eq!(token_string(&ts), expected);
        if let Some(Ok(ast)) = try_parser(&ts) {
            assert_eq!(ast_string(&ast), format!("{:#?}", ast));
            trees += 1;
        }
    }
    assert!(trees > 100);
}

#[test]
fn category_pieces_are_places_of_the_source_in_order() {
    for src in sources(3000) {
        let mut from = 0;
        for (category, text) in categorize(&src) {
            assert!(!matches!(category, Category::Skip));
            assert!(!text.is_empty());
            let at = src[from..].find(text.as_str()).expect("the piece is in the source");
            from += at + text.len();
        }
    }
}

use reil::compiler::tokenizer::{
    fits_line_counter, precedence, tokenizer, Kind, Meta, Name, Of, Token,
};

fn tok(kind: Kind, name: Name) -> Token {
    Token { of: Of { kind, name }, meta: Meta { line: 1, text: String::new() } }
}

fn lex(src: &str) -> Vec<(Kind, Name, u32, String)> {
    tokenizer(&src.to_string())
        .into_iter()
        .map(|t| (t.of.kind, t.of.name, t.meta.line, t.meta.text))
        .collect()
}

fn names(src: &str) -> Vec<Name> {
    lex(src).into_iter().map(|t| t.1).collect()
}

fn texts(src: &str) -> Vec<String> {
    lex(src).into_iter().map(|t| t.3).collect()
}

#[test]
fn precedence_table() {
    let cases = [
        (Name::Colon, 0),
        (Name::Arrow, 0),
        (Name::Pattern, 1),
        (Name::Or, 2),
        (Name::And, 3),
        (Name::Eq, 4),
        (Name::Ne, 4),
        (Name::Gt, 5),
        (Name::Lt, 5),
        (Name::Ge, 5),
        (Name::Le, 5),
        (Name::Add, 6),
        (Name::Sub, 6),
        (Name::Mul, 7),
        (Name::Div, 7),
        (Name::Exp, 8),
        (Name::Select, 9),
        (Name::Parent, 9),
        (Name::Not, 255),
        (Name::Ref, 255),
        (Name::Range, 255),
    ];
    for (name, p) in cases {
        assert_eq!(precedence(&tok(Kind::Binary, name)), p, "{:?}", name);
    }
}

#[test]
fn words_and_numbers() {
    assert_eq!(
        lex("a: 12"),
        vec![
            (Kind::Label, Name::Key, 1, "a:".to_string()),
            (Kind::Number, Name::Number, 1, "12".to_string()),
        ]
    );
    assert_eq!(texts("-3.25 .5 7. 8"), vec!["-3.25", ".5", "7.", "8"]);
    assert_eq!(names("x1 -y"), vec![Name::Ref, Name::Sub, Name::Ref]);
}

#[test]
fn empty_source() {
    assert!(lex("").is_empty());
    assert!(lex(" \t\r\n\n// only a comment").is_empty());
}

#[test]
fn newline_between_operands_is_kept() {
    assert_eq!(
        lex("a\nb"),
        vec![
            (Kind::Label, Name::Ref, 1, "a".to_string()),
            (Kind::Stop, Name::Newline, 1, "\n".to_string()),
            (Kind::Label, Name::Ref, 2, "b".to_string()),
        ]
    );
}

#[test]
fn leading_newlines_are_skipped_but_counted() {
    assert_eq!(lex("\n\na"), vec![(Kind::Label, Name::Ref, 3, "a".to_string())]);
}

#[test]
fn newline_after_an_operator_continues_the_line() {
    assert_eq!(names("a +\nb"), vec![Name::Ref, Name::Add, Name::Ref]);
    assert_eq!(lex("a +\nb")[2].2, 2);
}

#[test]
fn operator_after_a_newline_replaces_it() {
    assert_eq!(names("a\n+ b"), vec![Name::Ref, Name::Add, Name::Ref]);
    assert_eq!(names("a\n\n\n* b"), vec![Name::Ref, Name::Mul, Name::Ref]);
}

#[test]
fn operator_on_both_lines_drops_the_first() {
    // The newline after `+` is not kept, so the `+` on the next line takes
    // the place of the first one.
    assert_eq!(texts("a +\n- b"), vec!["a", "-", "b"]);
}

#[test]
fn comma_replaces_a_newline_and_is_not_repeated() {
    assert_eq!(texts("a\n,b"), vec!["a", ",", "b"]);
    assert_eq!(texts("a,;,b"), vec!["a", ",;,", "b"]);
    assert_eq!(texts("a, ,b"), vec!["a", ",", "b"]);
    assert_eq!(texts("a,\nb"), vec!["a", ",", "b"]);
    assert_eq!(texts(",a"), vec![",", "a"]);
}

#[test]
fn comments_are_skipped_and_keep_their_newlines_uncounted() {
    assert_eq!(lex("a /* x\ny */ b"), vec![
        (Kind::Label, Name::Ref, 1, "a".to_string()),
        (Kind::Label, Name::Ref, 1, "b".to_string()),
    ]);
    assert_eq!(texts("a // rest\nb"), vec!["a", "\n", "b"]);
    assert_eq!(texts("a /*/ b"), vec!["a", "/", "*", "/", "b"]);
}

#[test]
fn strings() {
    assert_eq!(lex("\"a b\"c"), vec![
        (Kind::String, Name::String, 1, "\"a b\"".to_string()),
        (Kind::Label, Name::Ref, 1, "c".to_string()),
    ]);
    assert_eq!(texts("\"open\nstring"), vec!["\"open\nstring"]);
}

#[test]
fn operators() {
    assert_eq!(
        names(": ~ | & == = != >= <= > < + - * / ^ ! .. ."),
        vec![
            Name::Colon,
            Name::Pattern,
            Name::Or,
            Name::And,
            Name::Eq,
            Name::Eq,
            Name::Ne,
            Name::Ge,
            Name::Le,
            Name::Lt,
            Name::Le,
            Name::Add,
            Name::Sub,
            Name::Mul,
            Name::Div,
            Name::Exp,
            Name::Not,
            Name::Parent,
            Name::Select,
        ]
    );
    assert_eq!(lex("!")[0].0, Kind::Unary);
    assert_eq!(lex("..")[0].0, Kind::Select);
}

#[test]
fn keys_arrows_and_brackets() {
    assert_eq!(names("+: a: -> → ( ) [ ] { }"), vec![
        Name::Key,
        Name::Key,
        Name::Arrow,
        Name::Arrow,
        Name::ParenLF,
        Name::ParenRT,
        Name::SquarenLF,
        Name::SquarenRT,
        Name::BracketLF,
        Name::BracketRT,
    ]);
}

#[test]
fn reserved_words_are_references() {
    assert_eq!(names("if else true false"), vec![Name::Ref, Name::Ref, Name::Ref, Name::Ref]);
}

#[test]
fn unknown_characters_are_invalid() {
    assert_eq!(lex("@é"), vec![
        (Kind::Invalid, Name::Invalid, 1, "@".to_string()),
        (Kind::Invalid, Name::Invalid, 1, "é".to_string()),
    ]);
}

#[test]
fn line_counter_fits_ordinary_sources() {
    assert!(fits_line_counter(&"a\nb\n".to_string()));
    assert!(fits_line_counter(&String::new()));
}

#[test]
fn no_token_is_skipped_and_lines_stay_in_range() {
    let src = "\r\n a: b /* c\n d */ + \"e\nf\" // g\n\n h, ,i\n";
    let newlines = src.matches('\n').count() as u32;
    let tokens = lex(src);
    assert!(!tokens.is_empty());
    for (i, (kind, name, line, text)) in tokens.iter().enumerate() {
        assert!(*kind != Kind::Skip && *name != Name::Skip);
        assert!(!text.is_empty());
        assert!(1 <= *line && *line <= 1 + newlines);
        if i > 0 {
            assert!(tokens[i - 1].2 <= *line);
        }
    }
}

fn is_operand(kind: Kind, name: Name) -> bool {
    matches!(
        kind,
        Kind::Number
            | Kind::String
            | Kind::Paren
            | Kind::Squaren
            | Kind::Bracket
            | Kind::Reserved
            | Kind::Bool
            | Kind::Invalid
    ) || (kind == Kind::Label && name == Name::Ref)
}

#[test]
fn newlines_stand_between_operands_which_are_all_kept() {
    let src = "a\n+\nb\n\nc,\nd: e\n(f)\n";
    let tokens = lex(src);
    for (i, t) in tokens.iter().enumerate() {
        if t.1 == Name::Newline {
            assert!(i > 0 && is_operand(tokens[i - 1].0, tokens[i - 1].1));
            assert!(i + 1 == tokens.len() || is_operand(tokens[i + 1].0, tokens[i + 1].1));
        }
    }
    let operands: Vec<(String, u32)> = tokens
        .into_iter()
        .filter(|t| is_operand(t.0, t.1))
        .map(|t| (t.3, t.2))
        .collect();
    let expected: Vec<(String, u32)> = vec![
        ("a".to_string(), 1),
        ("b".to_string(), 3),
        ("c".to_string(), 5),
        ("e".to_string(), 6),
        ("(".to_string(), 7),
        ("f".to_string(), 7),
        (")".to_string(), 7),
    ];
    assert_eq!(operands, expected);
}

#[test]
fn newline_names_keys_and_products_have_their_kinds() {
    for (kind, name, _, text) in lex("a: b * c\n+: d / e\n f\n") {
        if name == Name::Newline {
            assert_eq!(kind, Kind::Stop);
        }
        if name == Name::Mul || name == Name::Div {
            assert_eq!(kind, Kind::Binary);
        }
        if name == Name::Key {
            assert!(text.ends_with(':'));
        }
    }
}

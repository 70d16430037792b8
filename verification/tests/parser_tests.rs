use reil::compiler::parser::{parser, try_parser, AST};
use reil::compiler::tokenizer::{tokenizer, Kind, Meta, Name, Of, Token};
use reil::compiler::typer::typer;

fn t(kind: Kind, name: Name, text: &str) -> Token {
    Token { of: Of { kind, name }, meta: Meta { line: 1, text: text.to_string() } }
}

fn parse(src: &str) -> Result<AST, String> {
    let tokens = tokenizer(&src.to_string());
    try_parser(&tokens).expect("the parse does not stop the program")
}

fn tree(src: &str) -> String {
    format!("{:?}", parse(src).unwrap())
}

fn program(points: &str) -> String {
    format!("Point(\"Program\", 0, false, Graph([{}]))", points)
}

#[test]
fn empty_program() {
    assert_eq!(tree(""), program(""));
    assert_eq!(tree("\n,\n"), program(""));
}

#[test]
fn operators_group_from_the_left() {
    assert_eq!(
        tree("x: a + b - c"),
        program("Point(\"x\", 0, false, Op2(Sub, Op2(Add, Ref(\"a\"), Ref(\"b\")), Ref(\"c\")))")
    );
    assert_eq!(
        tree("a | b | c"),
        program("Point(\"\", 0, false, Op2(Or, Op2(Or, Ref(\"a\"), Ref(\"b\")), Ref(\"c\")))")
    );
}

#[test]
fn levels_bind_in_order() {
    assert_eq!(
        tree("a + b * c ^ d"),
        program(
            "Point(\"\", 0, false, Op2(Add, Ref(\"a\"), Op2(Mul, Ref(\"b\"), Op2(Exp, Ref(\"c\"), Ref(\"d\")))))"
        )
    );
    assert_eq!(
        tree("a & b = c > d"),
        program(
            "Point(\"\", 0, false, Op2(And, Ref(\"a\"), Op2(Eq, Ref(\"b\"), Op2(Lt, Ref(\"c\"), Ref(\"d\")))))"
        )
    );
    assert_eq!(
        tree("a.b.c"),
        program("Point(\"\", 0, false, Op2(Select, Op2(Select, Ref(\"a\"), Ref(\"b\")), Ref(\"c\")))")
    );
}

#[test]
fn prefix_operators_and_parentheses() {
    assert_eq!(tree("-!a"), program("Point(\"\", 0, false, Op1(Sub, Op1(Not, Ref(\"a\"))))"));
    assert_eq!(
        tree("(a + b) * c"),
        program("Point(\"\", 0, false, Op2(Mul, Op2(Add, Ref(\"a\"), Ref(\"b\")), Ref(\"c\")))")
    );
}

#[test]
fn arrays_graphs_replication_and_patterns() {
    assert_eq!(
        tree("l: [a, b\n c]"),
        program("Point(\"l\", 0, false, Array([Ref(\"a\"), Ref(\"b\"), Ref(\"c\")]))")
    );
    assert_eq!(
        tree("g: {a: x, b: y}"),
        program(
            "Point(\"g\", 0, false, Graph([Point(\"a\", 0, false, Ref(\"x\")), Point(\"b\", 1, false, Ref(\"y\"))]))"
        )
    );
    assert_eq!(tree("f(a)"), program("Point(\"\", 0, false, Rep(Ref(\"f\"), Ref(\"a\")))"));
    assert_eq!(
        tree("[a] ~ [b]"),
        program("Point(\"\", 0, false, Op2(Pattern, Array([Ref(\"a\")]), Array([Ref(\"b\")])))")
    );
    // A pattern needs a replicant on its left.
    assert!(parse("a ~ b").is_err());
}

#[test]
fn points_are_indexed_and_connections_are_not() {
    assert_eq!(
        tree("a: x\n: y\nb: z\n-> w"),
        program(
            "Point(\"a\", 0, false, Ref(\"x\")), Op1(Colon, Ref(\"y\")), Point(\"b\", 1, false, Ref(\"z\")), Point(\"\", 2, true, Ref(\"w\"))"
        )
    );
    assert_eq!(
        tree("a: b: c"),
        program("Point(\"a\", 0, false, Nothing), Point(\"b\", 1, false, Ref(\"c\"))")
    );
}

#[test]
fn literals_and_numbers() {
    let tokens = vec![
        t(Kind::Label, Name::Key, "n:"),
        t(Kind::Number, Name::Integer, "5"),
        t(Kind::Number, Name::Decimal, "2.5"),
        t(Kind::Number, Name::Boolean, "1"),
        t(Kind::String, Name::String, "\"s\""),
    ];
    let ast = parser(&tokens).unwrap();
    assert_eq!(
        format!("{:?}", ast),
        program(
            "Point(\"n\", 0, false, Number(Integer, \"5\")), Point(\"\", 1, false, Number(Decimal, \"2.5\")), Point(\"\", 2, false, Number(Boolean, \"1\")), Point(\"\", 3, false, String(\"\\\"s\\\"\"))"
        )
    );
}

#[test]
fn error_messages() {
    assert_eq!(parse("a: )").unwrap_err(), "UnexpectedToken: \")\" on line 1");
    assert_eq!(parse("a: (b").unwrap_err(), "UnexpectedEndOfInput");
    // The message names the name that the token has, not the one expected.
    assert_eq!(
        parse("a: (b c").unwrap_err(),
        "UnexpectedToken: \"c\" on line 1\nExpected token of name: Ref"
    );
    assert_eq!(
        parse("a: (b\n\n c").unwrap_err(),
        "UnexpectedToken: \"\\n\" on line 1\nExpected token of name: Newline"
    );
    assert_eq!(parse("x: [a").unwrap_err(), "UnexpectedEndOfInput");
    assert_eq!(parse("x: +").unwrap_err(), "UnexpectedEndOfInput");
    let tokens = vec![
        t(Kind::Label, Name::Ref, "a"),
        t(Kind::Label, Name::Eq, "="),
        t(Kind::Label, Name::Ref, "b"),
    ];
    assert_eq!(
        parser(&tokens).unwrap_err(),
        "UnexpectedToken: \"=\" on line 1\nExpected token of kind: Label"
    );
}

#[test]
fn where_the_parse_stops_the_program() {
    // Number tokens from the tokenizer are named `Number`.
    assert!(try_parser(&tokenizer(&"a: 5".to_string())).is_none());
    // A multiplication sign that is no binary operator.
    let tokens = vec![
        t(Kind::Label, Name::Ref, "a"),
        t(Kind::Label, Name::Mul, "*"),
        t(Kind::Label, Name::Ref, "b"),
    ];
    assert!(try_parser(&tokens).is_none());
    // A key whose last character is no ASCII character, or an empty key.
    assert!(try_parser(&vec![t(Kind::Label, Name::Key, "aé")]).is_none());
    assert!(try_parser(&vec![t(Kind::Label, Name::Key, "")]).is_none());
    // An error that comes first wins.
    assert!(try_parser(&tokenizer(&"a: ) 5".to_string())).is_some());
}

#[test]
fn indexes_run_out_after_65536_points() {
    let many: Vec<Token> = (0..65536).map(|_| t(Kind::Label, Name::Ref, "a")).collect();
    assert!(try_parser(&many).is_none());
    let fewer: Vec<Token> = (0..65535).map(|_| t(Kind::Label, Name::Ref, "a")).collect();
    assert!(try_parser(&fewer).unwrap().is_ok());
}

#[test]
fn typer_answers_every_tree_with_an_error() {
    let ast = parse("a: b").unwrap();
    assert_eq!(typer(&ast).unwrap_err(), "nothing to see");
    assert_eq!(typer(&AST::Nothing).unwrap_err(), "nothing to see");
}

fn with_stops(before: &[Name], src: &str, after: &[Name]) -> Vec<Token> {
    let mut tokens: Vec<Token> = before
        .iter()
        .map(|n| t(Kind::Stop, *n, if *n == Name::Comma { "," } else { "\n" }))
        .collect();
    tokens.extend(tokenizer(&src.to_string()));
    for n in after {
        tokens.push(t(Kind::Stop, *n, if *n == Name::Comma { "," } else { "\n" }));
    }
    tokens
}

fn shown(r: Result<AST, String>) -> String {
    match r {
        Ok(a) => format!("Ok({:?})", a),
        Err(m) => format!("Err({})", m),
    }
}

#[test]
fn leading_stops_change_nothing() {
    for src in ["x: a + b", "{ a: b", "[a, b] ~ [c]", ")", ""] {
        let plain = shown(parser(&with_stops(&[], src, &[])));
        let stopped = shown(parser(&with_stops(&[Name::Newline, Name::Comma, Name::Newline], src, &[])));
        assert_eq!(plain, stopped, "{}", src);
    }
    assert_eq!(shown(parser(&with_stops(&[Name::Comma, Name::Comma], "", &[]))), shown(parser(&vec![])));
}

#[test]
fn trailing_stops_keep_a_parse() {
    for src in ["x: a + b", "a: b: c", "[a, b] ~ [c]", "{ p: (a) }", ""] {
        let plain = parser(&with_stops(&[], src, &[])).unwrap();
        let longer = parser(&with_stops(&[], src, &[Name::Comma, Name::Newline, Name::Comma])).unwrap();
        assert_eq!(format!("{:?}", plain), format!("{:?}", longer), "{}", src);
    }
}

#[test]
fn results_have_the_program_shape() {
    for src in ["a", "x: [a", ")", "a +", "{ b: c }"] {
        match parse(src) {
            Ok(a) => assert!(format!("{:?}", a).starts_with("Point(\"Program\", 0, false, Graph(")),
            Err(m) => assert!(m == "UnexpectedEndOfInput" || m.starts_with("UnexpectedToken: "), "{}", m),
        }
    }
}

#[test]
fn a_copied_tree_is_equal() {
    let a = parse("x: { y: [a, b] ~ c }\n-> z: !a.b(c)").unwrap();
    let b = a.clone();
    let c = a.copy();
    assert_eq!(format!("{:?}", a), format!("{:?}", b));
    assert_eq!(format!("{:?}", a), format!("{:?}", c));
}

#[test]
fn a_number_stops_the_parse() {
    assert!(try_parser(&tokenizer(&"1".to_string())).is_none());
}

#[test]
fn sources_without_numbers_never_stop_the_parse() {
    for src in ["a * b / c", "x: y: z", "-> k: [a, {b: c}] ~ d", "+: a", ")", "a.b(c)", "*: /: "] {
        let tokens = tokenizer(&src.to_string());
        assert!(tokens.iter().all(|t| t.of.kind != Kind::Number));
        assert!(try_parser(&tokens).is_some(), "{}", src);
    }
}

use reil::compiler::parser::{try_parser, Number, AST};
use reil::compiler::tokenizer::{tokenizer, Kind, Meta, Name, Of, Token};
use reil::driver::compile;
use reil::report::{ast_string, token_string};

fn listing_as_printed(tokens: &Vec<Token>) -> String {
    let mut output = String::new();
    for group in tokens {
        output.push_str(&format!(
            "{:<12} {:<12} {:<4} {:?}\n",
            format!("{:?}", group.of.kind),
            format!("{:?}", group.of.name),
            group.meta.line,
            group.meta.text,
        ));
    }
    output
}

#[test]
fn token_listing_lines() {
    let tokens = tokenizer(&"a: \"q\\\"\n\n\nb".to_string());
    assert_eq!(
        token_string(&tokens),
        "Label        Key          1    \"a:\"\nString       String       1    \"\\\"q\\\\\\\"\"\nStop         Newline      1    \"\\n\"\nLabel        Ref          4    \"b\"\n"
    );
    assert_eq!(token_string(&Vec::new()), "");
}

#[test]
fn token_listing_pads_wide_fields() {
    let tokens = vec![Token {
        of: Of { kind: Kind::Bracket, name: Name::BracketRT },
        meta: Meta { line: 123456, text: "}".to_string() },
    }];
    assert_eq!(token_string(&tokens), "Bracket      BracketRT    123456 \"}\"\n");
    assert_eq!(token_string(&tokens), listing_as_printed(&tokens));
}

#[test]
fn tree_text_is_the_pretty_debug_form() {
    let ast = try_parser(&tokenizer(&"g: {a: x, : y}\nl: [] ~ [p.q]".to_string())).unwrap().unwrap();
    assert_eq!(ast_string(&ast), format!("{:#?}", ast));
    let small = AST::Point("p".to_string(), 7, true, Box::new(AST::Array(vec![])));
    assert_eq!(
        ast_string(&small),
        "Point(\n    \"p\",\n    7,\n    true,\n    Array(\n        [],\n    ),\n)"
    );
}

#[test]
fn tree_text_of_every_variant() {
    let all = AST::Graph(vec![
        AST::Nothing,
        AST::Number(Number::I64, "3".to_string()),
        AST::Number(Number::F128, "1.0".to_string()),
        AST::String("s\n".to_string()),
        AST::Tuple(vec![AST::Ref("r".to_string())]),
        AST::Arg(Box::new(AST::Nothing)),
        AST::Rep(Box::new(AST::Nothing), Box::new(AST::Array(vec![AST::Nothing]))),
        AST::Op1(Name::Length, Box::new(AST::Nothing)),
        AST::Op2(Name::Range, Box::new(AST::Nothing), Box::new(AST::Nothing)),
    ]);
    assert_eq!(ast_string(&all), format!("{:#?}", all));
}

#[test]
fn compile_writes_tokens_tree_and_typer_error() {
    let out = compile(&"x: a + b".to_string());
    let tokens = tokenizer(&"x: a + b".to_string());
    assert_eq!(out.tokens, token_string(&tokens));
    let ast = try_parser(&tokens).unwrap().unwrap();
    assert_eq!(out.ast, Some(format!("{:#?}", ast)));
    assert_eq!(out.typed, Some("nothing to see".to_string()));
}

#[test]
fn compile_writes_the_parse_error_and_no_typed_text() {
    let out = compile(&"x: )".to_string());
    assert_eq!(out.ast, Some("UnexpectedToken: \")\" on line 1".to_string()));
    assert_eq!(out.typed, None);
}

#[test]
fn compile_where_the_parser_stops() {
    let out = compile(&"x: 1".to_string());
    assert_eq!(out.tokens, "Label        Key          1    \"x:\"\nNumber       Number       1    \"1\"\n");
    assert_eq!(out.ast, None);
    assert_eq!(out.typed, None);
}

#[test]
fn listing_of_joined_lists_is_joined() {
    let a = tokenizer(&"x: y".to_string());
    let b = tokenizer(&"\"s\" + t".to_string());
    let mut both = tokenizer(&"x: y".to_string());
    both.extend(tokenizer(&"\"s\" + t".to_string()));
    assert_eq!(token_string(&both), format!("{}{}", token_string(&a), token_string(&b)));
    assert_eq!(token_string(&both).matches('\n').count(), both.len());
}

use reil::tokenizer::{tokenizer, Category};

fn pieces(src: &str) -> String {
    format!("{:?}", tokenizer(&src.to_string()))
}

#[test]
fn reserved_words_need_a_boundary() {
    assert_eq!(pieces("if x"), r#"[(ReservedWord, "if"), (Word, "x")]"#);
    assert_eq!(pieces("else"), r#"[(ReservedWord, "else")]"#);
    assert_eq!(pieces("true)"), r#"[(ReservedWord, "true"), (Paren, ")")]"#);
    assert_eq!(pieces("iffy"), r#"[(Word, "iffy")]"#);
    // A Unicode letter or `_` after the word is a word character.
    assert_eq!(pieces("ifé"), r#"[(Word, "if"), (Invalid, "é")]"#);
    assert_eq!(pieces("if_"), r#"[(Word, "if"), (Invalid, "_")]"#);
    // A symbol is not.
    assert_eq!(pieces("if÷"), r#"[(ReservedWord, "if"), (Operator, "÷")]"#);
}

#[test]
fn lines_punctuation_and_operators() {
    assert_eq!(pieces("a\r\n\nb"), r#"[(Word, "a"), (Newline, "\r\n\n"), (Word, "b")]"#);
    assert_eq!(pieces(",;:"), r#"[(Comma, ","), (Semicolon, ";"), (Colon, ":")]"#);
    assert_eq!(pieces("a->b→c"), r#"[(Word, "a"), (Arrow, "->"), (Word, "b"), (Arrow, "→"), (Word, "c")]"#);
    assert_eq!(pieces("x +=- y"), r#"[(Word, "x"), (Operator, "+=-"), (Word, "y")]"#);
    assert_eq!(pieces("-1.5"), r#"[(Number, "-1.5")]"#);
}

#[test]
fn skipped_text_leaves_no_piece() {
    assert_eq!(pieces(" \t// x\n/* y */"), r#"[(Newline, "\n")]"#);
    assert!(tokenizer(&String::new()).is_empty());
}

#[test]
fn categories_of_brackets_and_strings() {
    let got = tokenizer(&"([{\"s\"}])".to_string());
    let cats: Vec<Category> = got.iter().map(|p| p.0).collect();
    assert_eq!(
        format!("{:?}", cats),
        "[Paren, Squaren, Bracket, String, Bracket, Squaren, Paren]"
    );
}

#[test]
fn only_blanks_and_comments_are_left_out() {
    let src = "a  // x\n\t/* y\n */b";
    let joined: String = tokenizer(&src.to_string()).into_iter().map(|p| p.1).collect();
    assert_eq!(joined, "a\nb");
    assert_eq!(pieces(src), r#"[(Word, "a"), (Newline, "\n"), (Word, "b")]"#);
}

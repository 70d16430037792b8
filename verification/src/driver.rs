//! One run of the compiler over a source text: what it writes out.

use crate::compiler::parser::{p_program, try_parser, Parsed};
use crate::compiler::tokenizer::{newlines, tokenize, tokenizer};
use crate::compiler::typer::{typer, typer_error};
use crate::report::{ast_string, pretty, token_lines, token_string};
use vstd::prelude::*;

verus! {

/// The texts that a run writes: the token listing, then the tree or the
/// parse error, then (only after a tree) the typed tree or the typer's
/// error.
pub struct Outputs {
    pub tokens: String,
    /// `None` where the parser stops the program.
    pub ast: Option<String>,
    pub typed: Option<String>,
}

/// Tokenizes, parses and types the source text, and gives the texts to
/// write out.
pub fn compile(input: &String) -> (out: Outputs)
    requires
        newlines(input@) < u32::MAX,
    ensures
        out.tokens@ == token_lines(tokenize(input@)),
        out.ast is None <==> p_program(tokenize(input@)) is Abort,
        match p_program(tokenize(input@)) {
            Parsed::Done(a, _) => (out.ast matches Some(s) && s@ == pretty(a, Seq::empty())) && (
            out.typed matches Some(t) && t@ == typer_error()),
            Parsed::Fail(m, _) => out.ast matches Some(s) && s@ == m && out.typed is None,
            Parsed::Abort => out.typed is None,
        },
{
    let tokens = tokenizer(input);
    let listing = token_string(&tokens);
    match try_parser(&tokens) {
        None => Outputs { tokens: listing, ast: None, typed: None },
        Some(Ok(parse)) => {
            let tree = ast_string(&parse);
            let typed = match typer(&parse) {
                Ok(typed_parse) => ast_string(&typed_parse),
                Err(msg) => msg,
            };
            Outputs { tokens: listing, ast: Some(tree), typed: Some(typed) }
        },
        Some(Err(msg)) => Outputs { tokens: listing, ast: Some(msg), typed: None },
    }
}

} // verus!

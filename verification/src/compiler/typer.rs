//! The typer, which gives types to a parsed program. No program gets
//! through it yet: it answers every tree with the same error.

use crate::compiler::parser::AST;
use vstd::prelude::*;

verus! {

broadcast use vstd::string::group_string_axioms;

/// The error that the typer gives.
pub open spec fn typer_error() -> Seq<char> {
    "nothing to see"@
}

pub fn typer(ast: &AST) -> (r: Result<AST, String>)
    ensures
        r matches Err(m) && m@ == typer_error(),
{
    Err("nothing to see".to_string())
}

} // verus!

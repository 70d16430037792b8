pub mod parse_laws;
pub mod parser;
pub mod tokenizer;
pub mod typer;

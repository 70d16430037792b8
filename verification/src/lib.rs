pub mod compiler;
pub mod report;
pub mod scan;
pub mod text;
pub mod tokenizer;
pub mod driver;

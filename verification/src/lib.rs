pub mod ast;
pub mod book;
pub mod lexer;
pub mod name;
pub mod parser;
pub mod pretty;

pub use book::{parse_definition_book, parse_term, rules_to_book, DefinitionBook};

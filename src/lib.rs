pub mod ast;
pub mod body;
pub mod checkpoint_iterator;
pub mod chars;
pub mod header;
pub mod header_printer;
pub mod lexer;
pub mod outside;
pub mod parser;
pub mod printer;

pub mod ast;
pub mod grammar;
pub mod lexer;
pub mod parser;
pub mod printer;
pub mod readback;

pub use parser::{parse_source, parse_source_file};
pub use printer::{PrintMode, Printer};

//! A dependency-light JSON front end: a lexer that turns text into a flat
//! token sequence, a recursive-descent parser that turns tokens into a tree
//! of values, and a printer that renders a tree as indented text.

pub mod lexer;
pub mod parser;
pub mod printer;

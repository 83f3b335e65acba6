pub mod ast;
pub mod builtins;
pub mod evaluator;
pub mod lexer;
pub mod line_editor;
pub mod object;
pub mod parser;
pub mod token;

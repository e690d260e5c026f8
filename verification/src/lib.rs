pub mod editor;
pub mod lexer;
pub mod interpreter;
pub mod number;
pub mod stylization;
pub mod text;

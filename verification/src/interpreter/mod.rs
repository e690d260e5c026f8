pub mod ast;
pub mod error;
pub mod execute;
pub mod operator;
pub mod parser;
pub mod scope;
pub mod value;

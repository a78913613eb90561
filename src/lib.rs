pub mod ast;
pub mod bf;
pub mod error;
pub mod evaluate;
pub mod frame;
pub mod interpreter;
pub mod parser;
pub mod scope;
pub mod simplify;

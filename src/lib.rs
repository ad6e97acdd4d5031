#![allow(non_snake_case)]

pub mod engine;
pub mod error;
pub mod expr;
pub mod interpreter;
pub mod laws;
pub mod lexer;
pub mod parser;
pub mod text;
pub mod types;
pub mod util;

pub mod calculate;
pub mod expression;
pub mod grammar;
pub mod lexer;
pub mod parse;
pub mod radix;
pub mod text;
pub mod token;
pub mod traits;
pub mod tree;

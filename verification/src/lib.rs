//! A grammar-driven token rewriting engine.
//!
//! Text is cut into one token per character; rules made of a matcher and an
//! action then rewrite the token list into a labelled forest.
pub mod bootstrap;
pub mod chars;
pub mod describe;
pub mod fixed_point;
pub mod meta;
pub mod sequence;
pub mod token;
pub mod transform;

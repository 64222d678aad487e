//! Lossless parsing front end for brace-delimited key/value "arena" blocks.
//!
//! Text is lexed into a gapless token sequence, the grammar records the
//! tree's shape as an event log, and the sink replays that log into a
//! preorder node arena whose leaves spell out the input exactly.
pub mod event;
pub mod lexer;
pub mod parse;
pub mod parser;
pub mod sink;
pub mod source;
pub mod span;
pub mod syntax;
pub mod tree;

//! Arithmetic over Roman numerals: a grammar-driven parser that turns an
//! expression such as `X + V * (II - I)` into a syntax tree, a recursive
//! evaluator that reduces the tree to an integer, and a codec between
//! integers and canonical Roman numerals. Every function is specified and
//! verified: the parser agrees with the grammar stated at the
//! specification level, the evaluator with a left-to-right fold over the
//! tree, and the codec round-trips over the whole representable range.

pub mod ast;
pub mod codec;
pub mod eval;
pub mod parser;

pub use ast::{AddLink, AddOp, MulLink, MulOp, Node, Rule, UnaryOp};
pub use codec::{int_to_roman, roman_to_int, CodecError};
pub use eval::{eval, EvalError};
pub use parser::{Grammar, Pair, SyntaxError, Tok, Token};

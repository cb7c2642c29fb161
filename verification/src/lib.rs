//! JSON text to MessagePack bytes, in three stages:
//!
//! 1. [`parser::token::tokenize`] splits the text into tokens;
//! 2. [`parser::parse`] builds a value tree from the tokens;
//! 3. [`message_pack::serialize::serialize`] writes the tree in the
//!    MessagePack binary format.
//!
//! Each stage is a pure function, and its contract says exactly which result
//! it gives for which input: the tokens of a text, the tree of a token
//! sequence and the bytes of a tree are defined over mathematical sequences,
//! and the code is proved to compute them.
//!
//! Numbers are IEEE-754 doubles. The library holds a double by its bit
//! pattern and works on it with integer arithmetic only; see [`number`].
//! Turning decimal text into a double is left to the caller:
//! [`parser::token::numeric_literals`] lists the literals of a text, the
//! caller reads each as a [`number::Number`], and `tokenize` takes the
//! readings along with the text.

pub mod cursor;
pub mod message_pack;
pub mod model;
pub mod number;
pub mod parser;

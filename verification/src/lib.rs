//! A compiler for arithmetic, comparison and assignment expressions: a
//! recursive-descent parser that turns the text of a program into binary
//! syntax trees, and a generator that turns a tree into assembly for a stack
//! machine.
//!
//! The grammar is defined on sequences of characters in [`grammar`]; the
//! parser in [`lexer`] is proved to compute it. The generator in
//! [`codegenerator`] is proved to emit the code that is defined there, and
//! [`machine`] shows that this code computes the value of the tree.

pub mod codegenerator;
pub mod framing;
pub mod grammar;
pub mod lexer;
pub mod machine;
pub mod node;
pub mod precedence;
pub mod stack;
pub mod utils;

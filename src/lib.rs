//! Context-free grammars in a small line-oriented notation: a parser that
//! builds a `Grammar`, and the FIRST and FOLLOW sets of its states.
use vstd::prelude::*;

pub mod symbol;
pub mod text;
pub mod grammar;
pub mod charset;
pub mod first;
pub mod follow;
pub mod parser;
pub mod render;
pub mod roundtrip;

pub use symbol::Symbol;
pub use grammar::{Grammar, GrammarError, Rule};
pub use charset::CharSets;
pub use first::EPSILON;
pub use follow::END_MARKER;
pub use parser::GrammarParser;

verus! {

} // verus!

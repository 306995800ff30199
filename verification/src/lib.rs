//! The astatine compiler's library: the lexer, the parser, the symbol tables
//! and the assembly generator.
use vstd::prelude::*;

pub mod cli;
pub mod generator;
pub mod lexer;
pub mod lexer_laws;
pub mod parser;
pub mod symbols;
pub mod syntax;
pub mod text;

verus! {

} // verus!

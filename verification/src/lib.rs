//! An LL(1) grammar analyzer and predictive parser.
//!
//! The crate models a context-free grammar over classified symbols, computes
//! FIRST and FOLLOW sets as least fixed points, decides LL(1) membership,
//! builds the predictive parsing table, and runs a stack-driven parser with
//! panic-mode error recovery over a stream of input symbols.

pub mod error;
pub mod first_follow;
pub mod grammar;
pub mod language;
pub mod parser;
pub mod symbols;
pub mod table;
pub mod validation;

pub use error::Ll1Error;
pub use error::ParseError;
pub use grammar::Grammar;
pub use grammar::Production;
pub use parser::Parser;
pub use symbols::Symbol;
pub use table::ParsingTable;

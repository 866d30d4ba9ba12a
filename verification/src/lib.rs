//! Analysis of context-free grammars given in an EBNF-like notation.
//!
//! A grammar is built as an indexed rule table, simplified and brought into
//! Chomsky Normal Form, and then queried: membership of a word via the CYK
//! algorithm, enumeration of the language in length order, and a bounded
//! comparison of the languages of two grammars.

pub mod grammar;
pub mod order;
pub mod simplify;
pub mod reach;
pub mod normalize;
pub mod chomsky;
pub mod producer;
pub mod compare;
pub mod bnf;
pub mod lex;
pub mod parse;

//! An Earley recognizer for context-free grammars: it decides whether a
//! sequence of terminal symbols is derived by a grammar's start symbol.
pub mod grammar;
pub mod derivation;
pub mod earley;

//! Symbols, production rules and grammars.
//!
//! Nonterminal and terminal symbols are small integer identifiers; a grammar
//! owns its rules in one table and everything else refers to a rule by its
//! index in that table.
use vstd::prelude::*;

verus! {

/// A symbol on the right-hand side of a rule.
#[derive(Clone, Copy, Debug, PartialEq, Eq, Structural)]
pub enum Sigma {
    Nonterminal(u32),
    Terminal(u32),
}

/// Builds a nonterminal symbol.
pub fn nt(x: u32) -> (r: Sigma)
    ensures
        r == Sigma::Nonterminal(x),
{
    Sigma::Nonterminal(x)
}

/// Builds a terminal symbol.
pub fn tm(x: u32) -> (r: Sigma)
    ensures
        r == Sigma::Terminal(x),
{
    Sigma::Terminal(x)
}

/// A production `lhs -> rhs`.
#[derive(Clone, Debug)]
pub struct Rule {
    pub lhs: u32,
    pub rhs: Vec<Sigma>,
}

impl Rule {
    pub fn new(lhs: u32, rhs: Vec<Sigma>) -> (r: Rule)
        ensures
            r.lhs == lhs,
            r.rhs@ == rhs@,
    {
        Rule { lhs, rhs }
    }
}

/// A grammar: its rules and the start nonterminal. No validation is made:
/// a nonterminal that no rule defines simply never derives anything.
pub struct T {
    pub rules: Vec<Rule>,
    pub start: u32,
}

} // verus!

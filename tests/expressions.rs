use ::earley::earley;
use ::earley::grammar::{self, nt, tm, Rule};

const S: u32 = 0;
const T: u32 = 1;

const ZERO: u32 = 0;
const PLUS: u32 = 1;
const LPAREN: u32 = 2;
const RPAREN: u32 = 3;

// S -> S '+' T | T
// T -> '0' | '(' S ')'
fn grammar() -> grammar::T {
    grammar::T {
        rules: vec![
            Rule::new(S, vec![nt(S), tm(PLUS), nt(T)]),
            Rule::new(S, vec![nt(T)]),
            Rule::new(T, vec![tm(ZERO)]),
            Rule::new(T, vec![tm(LPAREN), nt(S), tm(RPAREN)]),
        ],
        start: S,
    }
}

#[test]
fn simpler_test() {
    let grammar = grammar();
    let input = vec![ZERO];

    assert!(earley::run(&grammar, &input));
}

#[test]
fn simple_test() {
    let grammar = grammar();
    let input = vec![ZERO, PLUS, LPAREN, ZERO, PLUS, ZERO, RPAREN];

    assert!(earley::run(&grammar, &input));
}

#[test]
fn missing_paren() {
    let grammar = grammar();
    let input = vec![ZERO, PLUS, LPAREN, ZERO, PLUS, ZERO];

    assert!(!earley::run(&grammar, &input));
}

#[test]
fn truncated() {
    let grammar = grammar();
    let input = vec![ZERO, PLUS];

    assert!(!earley::run(&grammar, &input));
}

#[test]
fn too_long() {
    let grammar = grammar();
    let input = vec![ZERO, PLUS, LPAREN, ZERO, PLUS, ZERO, RPAREN, ZERO];

    assert!(!earley::run(&grammar, &input));
}

#[test]
fn empty_input_rejected_when_start_not_nullable() {
    let grammar = grammar();
    let input: Vec<u32> = vec![];

    assert!(!earley::run(&grammar, &input));
}

use ::earley::earley::run;
use ::earley::grammar::{self, nt, tm, Rule};

fn g(rules: Vec<Rule>, start: u32) -> grammar::T {
    grammar::T { rules, start }
}

const S: u32 = 0;
const A: u32 = 1;
const B: u32 = 2;

const X: u32 = 10;
const LA: u32 = 11;
const LB: u32 = 12;
const LC: u32 = 13;

// S -> A A 'x'; A -> ε | 'a'
fn nullable() -> grammar::T {
    g(
        vec![
            Rule::new(S, vec![nt(A), nt(A), tm(X)]),
            Rule::new(A, vec![]),
            Rule::new(A, vec![tm(LA)]),
        ],
        S,
    )
}

#[test]
fn nullable_symbols_may_vanish() {
    let gr = nullable();
    assert!(run(&gr, &[X]));
    assert!(run(&gr, &[LA, X]));
    assert!(run(&gr, &[LA, LA, X]));
    assert!(!run(&gr, &[LA, LA, LA, X]));
    assert!(!run(&gr, &[]));
}

#[test]
fn nullable_start_accepts_empty_input() {
    let gr = g(vec![Rule::new(S, vec![nt(A)]), Rule::new(A, vec![nt(B)]), Rule::new(B, vec![])], S);
    assert!(run(&gr, &[]));
    assert!(!run(&gr, &[X]));
}

#[test]
fn nullable_completion_seen_by_later_item() {
    // S -> B A; A -> B 'x'; B -> ε: the item waiting for B inside A is
    // predicted after B has already been completed in the same column.
    let gr = g(
        vec![
            Rule::new(S, vec![nt(B), nt(A)]),
            Rule::new(A, vec![nt(B), tm(X)]),
            Rule::new(B, vec![]),
        ],
        S,
    );
    assert!(run(&gr, &[X]));
    assert!(!run(&gr, &[]));
}

#[test]
fn direct_left_recursion() {
    let gr = g(vec![Rule::new(S, vec![nt(S), tm(LA)]), Rule::new(S, vec![tm(LA)])], S);
    assert!(run(&gr, &[LA]));
    assert!(run(&gr, &[LA, LA, LA, LA]));
    assert!(!run(&gr, &[]));
    assert!(!run(&gr, &[LA, LB]));
}

#[test]
fn mutual_left_recursion() {
    // S -> A 'b' | 'c'; A -> S 'a'
    let gr = g(
        vec![
            Rule::new(S, vec![nt(A), tm(LB)]),
            Rule::new(S, vec![tm(LC)]),
            Rule::new(A, vec![nt(S), tm(LA)]),
        ],
        S,
    );
    assert!(run(&gr, &[LC]));
    assert!(run(&gr, &[LC, LA, LB]));
    assert!(run(&gr, &[LC, LA, LB, LA, LB]));
    assert!(!run(&gr, &[LC, LA]));
    assert!(!run(&gr, &[LA, LB]));
}

#[test]
fn grammar_without_rules_accepts_nothing() {
    let gr = g(vec![], S);
    assert!(!run(&gr, &[]));
    assert!(!run(&gr, &[X]));
}

#[test]
fn undefined_nonterminal_never_completes() {
    let gr = g(vec![Rule::new(S, vec![nt(B), tm(X)])], S);
    assert!(!run(&gr, &[X]));
    assert!(!run(&gr, &[]));
}

#[test]
fn other_start_symbol_is_ignored() {
    let gr = g(vec![Rule::new(A, vec![tm(X)])], S);
    assert!(!run(&gr, &[X]));
    let gr = g(vec![Rule::new(A, vec![tm(X)])], A);
    assert!(run(&gr, &[X]));
}

#[test]
fn repeated_runs_agree_and_leave_grammar_alone() {
    let gr = nullable();
    let first = run(&gr, &[LA, X]);
    let second = run(&gr, &[LA, X]);
    assert_eq!(first, second);
    assert_eq!(gr.rules.len(), 3);
    assert_eq!(gr.rules[0].rhs, vec![nt(A), nt(A), tm(X)]);
    assert_eq!(gr.start, S);
}

#[test]
fn truncation_accepts_only_derivable_prefixes() {
    // S -> S '+' '0' | '0'
    let plus = 20;
    let zero = 21;
    let gr = g(vec![Rule::new(S, vec![nt(S), tm(plus), tm(zero)]), Rule::new(S, vec![tm(zero)])], S);
    let full = [zero, plus, zero, plus, zero];
    assert!(run(&gr, &full));
    assert!(!run(&gr, &full[..4]));
    assert!(run(&gr, &full[..3]));
    assert!(!run(&gr, &full[..2]));
    assert!(run(&gr, &full[..1]));
    assert!(!run(&gr, &full[..0]));
}

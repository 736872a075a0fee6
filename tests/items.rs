use ::earley::earley::entry::{self, T};
use ::earley::grammar::{nt, tm, Rule, Sigma};

const S: u32 = 0;
const E: u32 = 1;
const ZERO: u32 = 0;
const PLUS: u32 = 1;
const LPAREN: u32 = 2;
const RPAREN: u32 = 3;

fn rules() -> Vec<Rule> {
    vec![
        Rule::new(S, vec![nt(S), tm(PLUS), nt(E)]),
        Rule::new(S, vec![nt(E)]),
        Rule::new(E, vec![tm(ZERO)]),
        Rule::new(E, vec![tm(LPAREN), nt(S), tm(RPAREN)]),
    ]
}

fn item(rule: usize, cur_pos: usize, started_at: usize) -> T {
    T { rule, cur_pos, started_at }
}

#[test]
fn symbol_constructors() {
    assert_eq!(nt(4), Sigma::Nonterminal(4));
    assert_eq!(tm(4), Sigma::Terminal(4));
    assert_ne!(nt(4), tm(4));
    let r = Rule::new(S, vec![nt(E), tm(PLUS)]);
    assert_eq!(r.lhs, S);
    assert_eq!(r.rhs, vec![nt(E), tm(PLUS)]);
}

#[test]
fn new_item_starts_at_dot_zero() {
    assert_eq!(entry::new(2, 5), item(2, 0, 5));
}

#[test]
fn next_symbol_after_dot() {
    let rs = rules();
    assert_eq!(item(0, 0, 0).next(&rs), Some(nt(S)));
    assert_eq!(item(0, 1, 0).next(&rs), Some(tm(PLUS)));
    assert_eq!(item(0, 3, 0).next(&rs), None);
}

#[test]
fn step_over_matching_terminal_only() {
    let rs = rules();
    assert_eq!(item(0, 1, 2).step(&rs, PLUS), Some(item(0, 2, 2)));
    assert_eq!(item(0, 1, 2).step(&rs, ZERO), None);
    assert_eq!(item(0, 0, 2).step(&rs, S), None);
    assert_eq!(item(2, 1, 2).step(&rs, ZERO), None);
}

#[test]
fn recurse_predicts_each_rule_at_current_column() {
    let rs = rules();
    let p = item(0, 2, 1).recurse(&rs, 4);
    assert_eq!(p.len(), 2);
    assert!(p.contains(&item(2, 0, 4)));
    assert!(p.contains(&item(3, 0, 4)));
    assert!(item(0, 1, 1).recurse(&rs, 4).is_empty());
    assert!(item(0, 3, 1).recurse(&rs, 4).is_empty());
}

#[test]
fn reduce_resumes_waiting_items_of_origin() {
    let rs = rules();
    let origin = vec![item(0, 2, 0), item(1, 0, 0), item(2, 0, 0), item(3, 1, 0)];
    let r = item(2, 1, 0).reduce(&rs, &origin);
    assert_eq!(r.len(), 2);
    assert!(r.contains(&item(0, 3, 0)));
    assert!(r.contains(&item(1, 1, 0)));
    let r = item(1, 1, 0).reduce(&rs, &origin);
    assert_eq!(r, vec![item(3, 2, 0)]);
    assert!(item(2, 0, 0).reduce(&rs, &origin).is_empty());
}

#[test]
fn recurse_yields_rules_in_table_order() {
    let rs = rules();
    assert_eq!(item(0, 2, 1).recurse(&rs, 4), vec![item(2, 0, 4), item(3, 0, 4)]);
    assert_eq!(item(3, 1, 0).recurse(&rs, 1), vec![item(0, 0, 1), item(1, 0, 1)]);
}

#[test]
fn reduce_yields_one_item_per_waiting_item() {
    let rs = rules();
    let fresh = vec![item(0, 0, 0), item(1, 0, 0), item(2, 0, 0), item(3, 0, 0)];
    assert_eq!(item(2, 1, 0).reduce(&rs, &fresh), vec![item(1, 1, 0)]);
    let origin = vec![item(0, 2, 0), item(1, 0, 0), item(2, 0, 0), item(3, 1, 0)];
    assert_eq!(item(2, 1, 0).reduce(&rs, &origin), vec![item(0, 3, 0), item(1, 1, 0)]);
}

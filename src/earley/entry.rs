//! Earley items: a rule, how much of its right-hand side has been matched,
//! and the chart column at which the match began.
use vstd::prelude::*;
use crate::grammar::{Rule, Sigma};

verus! {

broadcast use vstd::seq_lib::lemma_seq_contains_after_push;

/// An item of an Earley chart column. `rule` indexes the grammar's rule
/// table, `cur_pos` is the dot, `started_at` the origin column.
#[derive(Clone, Copy, Debug, PartialEq, Eq, Hash, Structural)]
pub struct T {
    pub rule: usize,
    pub cur_pos: usize,
    pub started_at: usize,
}

/// The symbol right after the dot, or `None` when the item is complete.
pub open spec fn next_of(rules: Seq<Rule>, e: T) -> Option<Sigma> {
    if e.cur_pos < rules[e.rule as int].rhs.len() {
        Some(rules[e.rule as int].rhs@[e.cur_pos as int])
    } else {
        None
    }
}

/// The same item with its dot moved one symbol on.
pub open spec fn advanced(e: T) -> T {
    T { rule: e.rule, cur_pos: (e.cur_pos + 1) as usize, started_at: e.started_at }
}

/// The item refers to an existing rule, its dot lies within the rule, and
/// it began at a column no later than `col`.
pub open spec fn wf(rules: Seq<Rule>, e: T, col: int) -> bool {
    e.rule < rules.len() && e.cur_pos <= rules[e.rule as int].rhs.len() && e.started_at <= col
}

/// `x` is one of the items that predicting from `e` at column `pos` yields.
pub open spec fn predicts(rules: Seq<Rule>, e: T, pos: usize, x: T) -> bool {
    match next_of(rules, e) {
        Some(Sigma::Nonterminal(a)) => x.rule < rules.len() && rules[x.rule as int].lhs == a
            && x.cur_pos == 0 && x.started_at == pos,
        _ => false,
    }
}

/// `y` waits, right after its dot, for the nonterminal that `e` defines.
pub open spec fn awaits(rules: Seq<Rule>, e: T, y: T) -> bool {
    next_of(rules, y) == Some(Sigma::Nonterminal(rules[e.rule as int].lhs))
}

/// `x` is one of the items that completing `e` against the items of its
/// origin column `origin` yields.
pub open spec fn completes(rules: Seq<Rule>, e: T, origin: Seq<T>, x: T) -> bool {
    next_of(rules, e) is None && exists|i: int|
        0 <= i < origin.len() && #[trigger] awaits(rules, e, origin[i]) && x == advanced(origin[i])
}

/// The items of `origin` that wait for the nonterminal `e` defines, in
/// their order, each with its dot moved on.
pub open spec fn resumed(rules: Seq<Rule>, e: T, origin: Seq<T>) -> Seq<T>
    decreases origin.len(),
{
    if origin.len() == 0 {
        Seq::empty()
    } else {
        let rest = resumed(rules, e, origin.drop_last());
        if awaits(rules, e, origin.last()) {
            rest.push(advanced(origin.last()))
        } else {
            rest
        }
    }
}

/// An item with the dot at the start of `rule`, begun at `started_at`.
pub fn new(rule: usize, started_at: usize) -> (r: T)
    ensures
        r == (T { rule, cur_pos: 0, started_at }),
{
    T { rule, cur_pos: 0, started_at }
}

impl T {
    pub fn next(&self, rules: &Vec<Rule>) -> (r: Option<Sigma>)
        requires
            self.rule < rules.len(),
        ensures
            r == next_of(rules@, *self),
    {
        let rhs = &rules[self.rule].rhs;
        if self.cur_pos < rhs.len() {
            Some(rhs[self.cur_pos])
        } else {
            None
        }
    }

    /// Scan: the item with its dot moved past `input`, where `input` is the
    /// terminal right after the dot.
    pub fn step(&self, rules: &Vec<Rule>, input: u32) -> (r: Option<T>)
        requires
            self.rule < rules.len(),
        ensures
            r == (if next_of(rules@, *self) == Some(Sigma::Terminal(input)) {
                Some(advanced(*self))
            } else {
                None
            }),
    {
        if self.next(rules) == Some(Sigma::Terminal(input)) {
            assert(self.cur_pos < rules[self.rule as int].rhs.len());
            Some(T { rule: self.rule, cur_pos: self.cur_pos + 1, started_at: self.started_at })
        } else {
            None
        }
    }

    /// Predict: where a nonterminal follows the dot, one fresh item for each
    /// rule that defines it, begun at `cur_input_pos`.
    pub fn recurse(&self, rules: &Vec<Rule>, cur_input_pos: usize) -> (r: Vec<T>)
        requires
            self.rule < rules.len(),
        ensures
            forall|x: T| r@.contains(x) <==> predicts(rules@, *self, cur_input_pos, x),
            forall|a: int, b: int| 0 <= a < b < r@.len() ==> r@[a].rule < r@[b].rule,
            r@.no_duplicates(),
    {
        let mut out: Vec<T> = Vec::new();
        if let Some(Sigma::Nonterminal(a)) = self.next(rules) {
            let mut ri: usize = 0;
            while ri < rules.len()
                invariant
                    ri <= rules.len(),
                    self.rule < rules.len(),
                    next_of(rules@, *self) == Some(Sigma::Nonterminal(a)),
                    forall|x: T|
                        out@.contains(x) <==> (predicts(rules@, *self, cur_input_pos, x) && x.rule
                            < ri),
                    out@.no_duplicates(),
                    forall|p: int| 0 <= p < out@.len() ==> out@[p].rule < ri,
                    forall|p: int, q: int| 0 <= p < q < out@.len() ==> out@[p].rule < out@[q].rule,
                decreases rules.len() - ri,
            {
                if rules[ri].lhs == a {
                    let e = T { rule: ri, cur_pos: 0, started_at: cur_input_pos };
                    proof {
                        assert forall|i: int| 0 <= i < out.len() implies out@[i] != e by {
                            assert(out@.contains(out@[i]));
                        }
                    }
                    out.push(e);
                }
                ri = ri + 1;
            }
        }
        out
    }

    /// Complete: where the item is complete, each item of its origin column
    /// that waits for this rule's nonterminal, with its dot moved on.
    pub fn reduce(&self, rules: &Vec<Rule>, origin: &Vec<T>) -> (r: Vec<T>)
        requires
            self.rule < rules.len(),
            forall|i: int| 0 <= i < origin.len() ==> (#[trigger] origin@[i]).rule < rules.len(),
        ensures
            forall|x: T| r@.contains(x) <==> completes(rules@, *self, origin@, x),
            r@ == (if next_of(rules@, *self) is None {
                resumed(rules@, *self, origin@)
            } else {
                Seq::empty()
            }),
    {
        let mut out: Vec<T> = Vec::new();
        if self.next(rules).is_none() {
            let lhs = rules[self.rule].lhs;
            let mut i: usize = 0;
            while i < origin.len()
                invariant
                    i <= origin.len(),
                    self.rule < rules.len(),
                    lhs == rules@[self.rule as int].lhs,
                    next_of(rules@, *self) is None,
                    forall|j: int| 0 <= j < origin.len() ==> (#[trigger] origin@[j]).rule < rules.len(),
                    forall|x: T|
                        out@.contains(x) <==> exists|j: int|
                            0 <= j < i && #[trigger] awaits(rules@, *self, origin@[j]) && x
                                == advanced(origin@[j]),
                    out@ == resumed(rules@, *self, origin@.take(i as int)),
                decreases origin.len() - i,
            {
                let y = origin[i];
                assert(origin@.take(i + 1).drop_last() =~= origin@.take(i as int));
                if y.next(rules) == Some(Sigma::Nonterminal(lhs)) {
                    assert(y.cur_pos < rules[y.rule as int].rhs.len());
                    let e = T { rule: y.rule, cur_pos: y.cur_pos + 1, started_at: y.started_at };
                    proof {
                        assert(awaits(rules@, *self, origin@[i as int]));
                    }
                    out.push(e);
                }
                i = i + 1;
            }
            assert(origin@.take(i as int) =~= origin@);
        }
        out
    }
}

} // verus!

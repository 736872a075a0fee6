//! Context-free derivation, as the meaning against which recognition is
//! stated.
use vstd::prelude::*;
use crate::grammar::{Rule, Sigma};

verus! {

/// `syms` derives `u` by a derivation whose nonterminal expansions nest at
/// most `n` deep. The first symbol of `syms` derives a prefix of `u`, the rest
/// derives what remains.
pub open spec fn derives_n(rules: Seq<Rule>, syms: Seq<Sigma>, u: Seq<u32>, n: nat) -> bool
    decreases n, syms.len(),
{
    if syms.len() == 0 {
        u.len() == 0
    } else {
        match syms[0] {
            Sigma::Terminal(t) => u.len() > 0 && u[0] == t && derives_n(
                rules,
                syms.drop_first(),
                u.drop_first(),
                n,
            ),
            Sigma::Nonterminal(a) => n > 0 && exists|k: int, ri: int|
                #![trigger rules[ri], u.take(k)]
                0 <= k <= u.len() && 0 <= ri < rules.len() && rules[ri].lhs == a
                    && derives_n(rules, rules[ri].rhs@, u.take(k), (n - 1) as nat)
                    && derives_n(rules, syms.drop_first(), u.skip(k), n),
        }
    }
}

/// `syms` derives `u` under the rules.
pub open spec fn derives(rules: Seq<Rule>, syms: Seq<Sigma>, u: Seq<u32>) -> bool {
    exists|n: nat| derives_n(rules, syms, u, n)
}

/// `w` is a sentence of the language of `start`: some rule for `start` has a
/// right-hand side that derives `w`.
pub open spec fn generates(rules: Seq<Rule>, start: u32, w: Seq<u32>) -> bool {
    exists|ri: int|
        0 <= ri < rules.len() && rules[ri].lhs == start && derives(rules, #[trigger] rules[ri].rhs@, w)
}

/// A derivation bound can always be raised.
pub proof fn lemma_derives_n_mono(rules: Seq<Rule>, syms: Seq<Sigma>, u: Seq<u32>, n: nat, m: nat)
    requires
        derives_n(rules, syms, u, n),
        n <= m,
    ensures
        derives_n(rules, syms, u, m),
    decreases n, syms.len(),
{
    if syms.len() > 0 {
        match syms[0] {
            Sigma::Terminal(t) => {
                lemma_derives_n_mono(rules, syms.drop_first(), u.drop_first(), n, m);
            },
            Sigma::Nonterminal(a) => {
                let (k, ri) = choose|k: int, ri: int|
                    #![trigger rules[ri], u.take(k)]
                    0 <= k <= u.len() && 0 <= ri < rules.len() && rules[ri].lhs == a
                        && derives_n(rules, rules[ri].rhs@, u.take(k), (n - 1) as nat)
                        && derives_n(rules, syms.drop_first(), u.skip(k), n);
                lemma_derives_n_mono(rules, rules[ri].rhs@, u.take(k), (n - 1) as nat, (m - 1) as nat);
                lemma_derives_n_mono(rules, syms.drop_first(), u.skip(k), n, m);
            },
        }
    }
}

/// Derivations concatenate.
pub proof fn lemma_derives_n_concat(
    rules: Seq<Rule>,
    a: Seq<Sigma>,
    b: Seq<Sigma>,
    u: Seq<u32>,
    v: Seq<u32>,
    n: nat,
)
    requires
        derives_n(rules, a, u, n),
        derives_n(rules, b, v, n),
    ensures
        derives_n(rules, a + b, u + v, n),
    decreases a.len(),
{
    if a.len() == 0 {
        assert(a + b =~= b);
        assert(u + v =~= v);
    } else {
        assert((a + b).drop_first() =~= a.drop_first() + b);
        match a[0] {
            Sigma::Terminal(t) => {
                lemma_derives_n_concat(rules, a.drop_first(), b, u.drop_first(), v, n);
                assert((u + v).drop_first() =~= u.drop_first() + v);
            },
            Sigma::Nonterminal(x) => {
                let (k, ri) = choose|k: int, ri: int|
                    #![trigger rules[ri], u.take(k)]
                    0 <= k <= u.len() && 0 <= ri < rules.len() && rules[ri].lhs == x
                        && derives_n(rules, rules[ri].rhs@, u.take(k), (n - 1) as nat)
                        && derives_n(rules, a.drop_first(), u.skip(k), n);
                lemma_derives_n_concat(rules, a.drop_first(), b, u.skip(k), v, n);
                assert((u + v).take(k) =~= u.take(k));
                assert((u + v).skip(k) =~= u.skip(k) + v);
            },
        }
    }
}

/// Derivations concatenate.
pub proof fn lemma_derives_concat(rules: Seq<Rule>, a: Seq<Sigma>, b: Seq<Sigma>, u: Seq<u32>, v: Seq<u32>)
    requires
        derives(rules, a, u),
        derives(rules, b, v),
    ensures
        derives(rules, a + b, u + v),
{
    let n1 = choose|n: nat| derives_n(rules, a, u, n);
    let n2 = choose|n: nat| derives_n(rules, b, v, n);
    let n = if n1 <= n2 { n2 } else { n1 };
    lemma_derives_n_mono(rules, a, u, n1, n);
    lemma_derives_n_mono(rules, b, v, n2, n);
    lemma_derives_n_concat(rules, a, b, u, v, n);
}

/// The empty sequence derives the empty input.
pub proof fn lemma_derives_empty(rules: Seq<Rule>)
    ensures
        derives(rules, Seq::empty(), Seq::empty()),
{
    assert(derives_n(rules, Seq::empty(), Seq::empty(), 0));
}

/// A terminal derives itself.
pub proof fn lemma_derives_terminal(rules: Seq<Rule>, t: u32)
    ensures
        derives(rules, seq![Sigma::Terminal(t)], seq![t]),
{
    let s = seq![Sigma::Terminal(t)];
    assert(s.drop_first() =~= Seq::<Sigma>::empty());
    assert(seq![t].drop_first() =~= Seq::<u32>::empty());
    assert(s[0] == Sigma::Terminal(t));
    assert(derives_n(rules, s.drop_first(), seq![t].drop_first(), 0));
    assert(derives_n(rules, s, seq![t], 0));
}

/// A nonterminal derives what the right-hand side of one of its rules derives.
pub proof fn lemma_derives_rule(rules: Seq<Rule>, ri: int, u: Seq<u32>)
    requires
        0 <= ri < rules.len(),
        derives(rules, rules[ri].rhs@, u),
    ensures
        derives(rules, seq![Sigma::Nonterminal(rules[ri].lhs)], u),
{
    let n = choose|n: nat| derives_n(rules, rules[ri].rhs@, u, n);
    let s = seq![Sigma::Nonterminal(rules[ri].lhs)];
    assert(s.drop_first() =~= Seq::<Sigma>::empty());
    assert(u.take(u.len() as int) =~= u);
    assert(u.skip(u.len() as int) =~= Seq::<u32>::empty());
    assert(derives_n(rules, s.drop_first(), u.skip(u.len() as int), n + 1));
    assert(derives_n(rules, s, u, n + 1));
}

} // verus!

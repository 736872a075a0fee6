//! The Earley recognizer: chart columns, their closure, and the driver.
pub mod chart;
pub mod entry;

use vstd::prelude::*;
use crate::derivation::generates;
use crate::grammar::{self, Rule, Sigma};
use self::chart::{
    accepting, chart_partial, col_closed, cols, least_closure, within, wf_col, item_bound, lemma_accepting_iff, lemma_col_bound,
    lemma_push_column, lemma_sound_complete, lemma_sound_predict, lemma_sound_scan, origin_col,
    scan_closed, seeded, sound_col, sound_item,
};
use self::entry::{advanced, awaits, completes, next_of, predicts};

verus! {

broadcast use vstd::seq_lib::lemma_seq_contains_after_push;

/// A chart column: the items found at one input position, each once.
pub type T = Vec<entry::T>;

/// `b` extends `a`: it holds `a`'s items at the same places, and maybe more.
pub open spec fn grows(a: Seq<entry::T>, b: Seq<entry::T>) -> bool {
    a.len() <= b.len() && forall|p: int| 0 <= p < a.len() ==> #[trigger] b[p] == a[p]
}

/// The first `i` items of column `c`, placed after the columns `chart`, have
/// had their predictions and completions added to `c`, and any two of them
/// have been completed into each other where they begin at this column.
pub open spec fn closed_upto(rules: Seq<Rule>, chart: Seq<Seq<entry::T>>, c: Seq<entry::T>, i: int) -> bool {
    let j = chart.len();
    &&& forall|p: int, x: entry::T|
        0 <= p < i && #[trigger] predicts(rules, c[p], j as usize, x) ==> c.contains(x)
    &&& forall|p: int, x: entry::T|
        0 <= p < i && c[p].started_at < j && #[trigger] completes(
            rules,
            c[p],
            chart[c[p].started_at as int],
            x,
        ) ==> c.contains(x)
    &&& forall|p: int, q: int|
        0 <= p < i && 0 <= q < i && c[p].started_at == j && next_of(rules, c[p]) is None
            && #[trigger] awaits(rules, c[p], c[q]) ==> c.contains(advanced(c[q]))
}

proof fn lemma_grows_contains(a: Seq<entry::T>, b: Seq<entry::T>)
    requires
        grows(a, b),
    ensures
        forall|x: entry::T| a.contains(x) ==> b.contains(x),
{
    assert forall|x: entry::T| a.contains(x) implies b.contains(x) by {
        let p = choose|p: int| 0 <= p < a.len() && a[p] == x;
        assert(b[p] == x);
    }
}

proof fn lemma_closed_upto_grows(
    rules: Seq<Rule>,
    chart: Seq<Seq<entry::T>>,
    a: Seq<entry::T>,
    b: Seq<entry::T>,
    i: int,
)
    requires
        grows(a, b),
        0 <= i <= a.len(),
        closed_upto(rules, chart, a, i),
    ensures
        closed_upto(rules, chart, b, i),
{
    lemma_grows_contains(a, b);
    let j = chart.len();
    assert forall|p: int, x: entry::T|
        0 <= p < i && #[trigger] predicts(rules, b[p], j as usize, x) implies b.contains(x) by {
        assert(b[p] == a[p]);
    }
    assert forall|p: int, x: entry::T|
        0 <= p < i && b[p].started_at < j && #[trigger] completes(
            rules,
            b[p],
            chart[b[p].started_at as int],
            x,
        ) implies b.contains(x) by {
        assert(b[p] == a[p]);
    }
    assert forall|p: int, q: int|
        0 <= p < i && 0 <= q < i && b[p].started_at == j && next_of(rules, b[p]) is None
            && #[trigger] awaits(rules, b[p], b[q]) implies b.contains(advanced(b[q])) by {
        assert(b[p] == a[p]);
        assert(b[q] == a[q]);
    }
}

proof fn lemma_closed_upto_done(rules: Seq<Rule>, chart: Seq<Seq<entry::T>>, c: Seq<entry::T>)
    requires
        closed_upto(rules, chart, c, c.len() as int),
        forall|p: int| 0 <= p < c.len() ==> (#[trigger] c[p]).started_at <= chart.len(),
    ensures
        col_closed(rules, chart, c),
{
    assert forall|p: int, x: entry::T|
        0 <= p < c.len() && #[trigger] completes(rules, c[p], origin_col(chart, c, c[p]), x)
            implies c.contains(x) by {
        if c[p].started_at < chart.len() {
            assert(completes(rules, c[p], chart[c[p].started_at as int], x));
        } else {
            let q = choose|q: int|
                0 <= q < c.len() && #[trigger] awaits(rules, c[p], c[q]) && x == advanced(c[q]);
            assert(awaits(rules, c[p], c[q]));
        }
    }
}

/// Adds `e` to column `k` unless it is there already; says whether it was added.
fn insert(k: &mut T, e: entry::T, Ghost(rules): Ghost<Seq<Rule>>, Ghost(w): Ghost<Seq<u32>>, Ghost(j): Ghost<int>) -> (r: bool)
    requires
        wf_col(rules, old(k)@, j),
        entry::wf(rules, e, j),
    ensures
        wf_col(rules, final(k)@, j),
        sound_col(rules, w, old(k)@, j) && sound_item(rules, w, e, j) ==> sound_col(rules, w, final(k)@, j),
        grows(old(k)@, final(k)@),
        final(k)@.contains(e),
        forall|y: entry::T| final(k)@.contains(y) ==> old(k)@.contains(y) || y == e,
        r == !old(k)@.contains(e),
{
    let mut i: usize = 0;
    while i < k.len()
        invariant
            i <= k.len(),
            forall|p: int| 0 <= p < i ==> k@[p] != e,
            k@ == old(k)@,
            wf_col(rules, k@, j),
            entry::wf(rules, e, j),
        decreases k.len() - i,
    {
        if k[i] == e {
            return false;
        }
        i = i + 1;
    }
    k.push(e);
    true
}

/// The facts about the finished columns that closing a new column relies on.
pub open spec fn prior_sound(rules: Seq<Rule>, w: Seq<u32>, ks: Seq<T>) -> bool {
    &&& ks.len() <= w.len()
    &&& forall|col: int| 0 <= col < ks.len() ==> sound_col(rules, w, #[trigger] cols(ks)[col], col)
}

/// The finished columns are well formed, each for its own index.
pub open spec fn prior_wf(rules: Seq<Rule>, ks: Seq<T>) -> bool {
    forall|col: int| 0 <= col < ks.len() ==> wf_col(rules, #[trigger] cols(ks)[col], col)
}

/// One step of closing column `k`, which follows the finished columns `ks`:
/// processes the item at index `i` alone (the items it adds are processed
/// by later steps of `close`). It adds what the item predicts, what it
/// completes, and, where it
/// waits for a nonterminal that some item of this column has already
/// completed here, the item itself with its dot moved on.
fn expand_entry(
    rules: &Vec<Rule>,
    ks: &Vec<T>,
    k: &mut T,
    i: usize,
    Ghost(w): Ghost<Seq<u32>>,
)
    requires
        prior_wf(rules@, ks@),
        wf_col(rules@, old(k)@, ks.len() as int),
        i < old(k).len(),
        closed_upto(rules@, cols(ks@), old(k)@, i as int),
    ensures
        grows(old(k)@, final(k)@),
        wf_col(rules@, final(k)@, ks.len() as int),
        prior_sound(rules@, w, ks@) && sound_col(rules@, w, old(k)@, ks.len() as int) ==> sound_col(
            rules@,
            w,
            final(k)@,
            ks.len() as int,
        ),
        closed_upto(rules@, cols(ks@), final(k)@, i + 1),
        forall|s: Seq<entry::T>|
            col_closed(rules@, cols(ks@), s) && within(old(k)@, s) ==> #[trigger] within(final(k)@, s),
{
    let j = ks.len();
    let ghost jj = j as int;
    let ghost chart = cols(ks@);
    let ghost k0 = k@;
    let ghost sound = prior_sound(rules@, w, ks@) && sound_col(rules@, w, k0, jj);
    let e = k[i];
    assert(entry::wf(rules@, k0[i as int], jj));
    assert(sound ==> sound_item(rules@, w, k0[i as int], jj));
    // Predict.
    let preds = e.recurse(rules, j);
    let mut t: usize = 0;
    while t < preds.len()
        invariant
            t <= preds.len(),
            j == ks.len(),
            jj == j,
            sound ==> jj <= w.len(),
            grows(k0, k@),
            wf_col(rules@, k@, jj),
            sound ==> sound_col(rules@, w, k@, jj),
            forall|x: entry::T| preds@.contains(x) <==> predicts(rules@, e, j, x),
            forall|u: int| 0 <= u < t ==> k@.contains(#[trigger] preds@[u]),
            forall|y: entry::T| k@.contains(y) ==> k0.contains(y) || preds@.contains(y),
        decreases preds.len() - t,
    {
        let x = preds[t];
        proof {
            assert(preds@.contains(x));
            if sound {
                lemma_sound_predict(rules@, w, x, jj);
            }
        }
        let ghost before = k@;
        insert(k, x, Ghost(rules@), Ghost(w), Ghost(jj));
        proof {
            lemma_grows_contains(before, k@);
        }
        t = t + 1;
    }
    assert forall|x: entry::T| predicts(rules@, e, j, x) implies k@.contains(x) by {
        assert(preds@.contains(x));
        let u = choose|u: int| 0 <= u < preds.len() && preds@[u] == x;
        assert(k@.contains(preds@[u]));
    }
    let ghost k1 = k@;
    assert forall|s: Seq<entry::T>|
        col_closed(rules@, chart, s) && within(k0, s) implies #[trigger] within(k1, s) by {
        assert(k0.contains(k0[i as int]));
        let pe = choose|pe: int| 0 <= pe < s.len() && s[pe] == e;
        assert(chart.len() as usize == j);
        assert forall|x: entry::T| predicts(rules@, e, j, x) implies s.contains(x) by {
            assert(predicts(rules@, s[pe], chart.len() as usize, x));
        }
    }
    if e.next(rules).is_none() {
        // Complete, against the origin column; where the item began in this
        // very column, against what the column holds now.
        proof {
            if e.started_at < j {
                let o = e.started_at as int;
                assert(cols(ks@)[o] == ks@[o]@);
                assert(wf_col(rules@, cols(ks@)[o], o));
                assert forall|p: int| 0 <= p < ks@[o]@.len() implies (#[trigger] ks@[o]@[p]).rule < rules.len() by {
                    assert(entry::wf(rules@, cols(ks@)[o][p], o));
                }
            } else {
                assert forall|p: int| 0 <= p < k@.len() implies (#[trigger] k@[p]).rule < rules.len() by {
                    assert(entry::wf(rules@, k@[p], jj));
                }
            }
        }
        let comps = if e.started_at < j {
            e.reduce(rules, &ks[e.started_at])
        } else {
            e.reduce(rules, k)
        };
        let ghost oc = if e.started_at < j { chart[e.started_at as int] } else { k1 };
        assert(wf_col(rules@, oc, e.started_at as int));
        assert(sound ==> sound_col(rules@, w, oc, e.started_at as int));
        let mut t: usize = 0;
        while t < comps.len()
            invariant
                t <= comps.len(),
                j == ks.len(),
                jj == j,
                sound ==> jj <= w.len(),
                grows(k0, k@),
                grows(k1, k@),
                wf_col(rules@, k@, jj),
                sound ==> sound_col(rules@, w, k@, jj),
                entry::wf(rules@, e, jj),
                sound ==> sound_item(rules@, w, e, jj),
                e.started_at <= jj,
                wf_col(rules@, oc, e.started_at as int),
                sound ==> sound_col(rules@, w, oc, e.started_at as int),
                next_of(rules@, e) is None,
                forall|x: entry::T| comps@.contains(x) <==> completes(rules@, e, oc, x),
                forall|u: int| 0 <= u < t ==> k@.contains(#[trigger] comps@[u]),
                forall|y: entry::T| k@.contains(y) ==> k1.contains(y) || comps@.contains(y),
            decreases comps.len() - t,
        {
            let x = comps[t];
            proof {
                assert(comps@.contains(x));
                let q = choose|q: int|
                    0 <= q < oc.len() && #[trigger] awaits(rules@, e, oc[q]) && x == advanced(oc[q]);
                assert(entry::wf(rules@, oc[q], e.started_at as int));
                if sound {
                    assert(sound_item(rules@, w, oc[q], e.started_at as int));
                    lemma_sound_complete(rules@, w, oc[q], e, jj);
                }
            }
            let ghost before = k@;
            insert(k, x, Ghost(rules@), Ghost(w), Ghost(jj));
            proof {
                lemma_grows_contains(before, k@);
            }
            t = t + 1;
        }
        assert forall|x: entry::T| completes(rules@, e, oc, x) implies k@.contains(x) by {
            assert(comps@.contains(x));
            let u = choose|u: int| 0 <= u < comps.len() && comps@[u] == x;
            assert(k@.contains(comps@[u]));
        }
        assert forall|s: Seq<entry::T>|
            col_closed(rules@, chart, s) && within(k0, s) implies #[trigger] within(k@, s) by {
            assert(within(k1, s));
            assert(k0.contains(k0[i as int]));
            let pe = choose|pe: int| 0 <= pe < s.len() && s[pe] == e;
            assert forall|x: entry::T| comps@.contains(x) implies s.contains(x) by {
                if e.started_at < j {
                    assert(origin_col(chart, s, s[pe]) == oc);
                } else {
                    let q = choose|q: int|
                        0 <= q < oc.len() && #[trigger] awaits(rules@, e, oc[q]) && x == advanced(oc[q]);
                    assert(oc.contains(oc[q]));
                    let qs = choose|qs: int| 0 <= qs < s.len() && s[qs] == oc[q];
                    assert(awaits(rules@, e, s[qs]));
                    assert(origin_col(chart, s, s[pe]) == s);
                }
                assert(completes(rules@, s[pe], origin_col(chart, s, s[pe]), x));
            }
        }
    } else if let Some(Sigma::Nonterminal(a)) = e.next(rules) {
        // Wait: resume at once where `a` was already completed here.
        let n0 = k.len();
        let mut found = false;
        let ghost mut wit: int = 0;
        let mut q: usize = 0;
        while q < n0
            invariant
                q <= n0,
                n0 == k.len(),
                j == ks.len(),
                k@ == k1,
                wf_col(rules@, k1, jj),
                found ==> 0 <= wit < k1.len() && k1[wit].started_at == j && next_of(rules@, k1[wit]) is None
                    && awaits(rules@, k1[wit], e),
                forall|p: int|
                    0 <= p < q && k1[p].started_at == j && next_of(rules@, k1[p]) is None && #[trigger] awaits(
                        rules@,
                        k1[p],
                        e,
                    ) ==> found,
                next_of(rules@, e) == Some(Sigma::Nonterminal(a)),
            decreases n0 - q,
        {
            let c = k[q];
            if c.started_at == j && c.next(rules).is_none() && rules[c.rule].lhs == a {
                found = true;
                proof {
                    wit = q as int;
                }
            }
            q = q + 1;
        }
        if found {
            let x = entry::T { rule: e.rule, cur_pos: e.cur_pos + 1, started_at: e.started_at };
            proof {
                if sound {
                    assert(sound_item(rules@, w, k1[wit], jj));
                    lemma_sound_complete(rules@, w, e, k1[wit], jj);
                }
            }
            insert(k, x, Ghost(rules@), Ghost(w), Ghost(jj));
        }
        assert forall|s: Seq<entry::T>|
            col_closed(rules@, chart, s) && within(k0, s) implies #[trigger] within(k@, s) by {
            assert(within(k1, s));
            if found {
                assert(k0.contains(k0[i as int]));
                let pe = choose|pe: int| 0 <= pe < s.len() && s[pe] == e;
                assert(k1.contains(k1[wit]));
                let qs = choose|qs: int| 0 <= qs < s.len() && s[qs] == k1[wit];
                assert(awaits(rules@, s[qs], s[pe]));
                assert(chart.len() == j);
                assert(origin_col(chart, s, s[qs]) == s);
                assert(completes(rules@, s[qs], origin_col(chart, s, s[qs]), advanced(e)));
            }
        }
        assert forall|p: int|
            0 <= p < k1.len() && k1[p].started_at == j && next_of(rules@, k1[p]) is None && #[trigger] awaits(
                rules@,
                k1[p],
                e,
            ) implies k@.contains(advanced(e)) by {}
    }
    proof {
        lemma_closed_upto_grows(rules@, chart, k0, k@, i as int);
        lemma_grows_contains(k1, k@);
        let c = k@;
        let ii = i as int;
        assert(c[ii] == e);
        assert(chart.len() as usize == j);
        assert forall|p: int, x: entry::T|
            0 <= p < ii + 1 && #[trigger] predicts(rules@, c[p], j, x) implies c.contains(x) by {
            if p == ii {
                assert(k1.contains(x));
            }
        }
        assert forall|p: int, x: entry::T|
            0 <= p < ii + 1 && c[p].started_at < j && #[trigger] completes(
                rules@,
                c[p],
                chart[c[p].started_at as int],
                x,
            ) implies c.contains(x) by {}
        assert forall|p: int, q: int|
            0 <= p < ii + 1 && 0 <= q < ii + 1 && c[p].started_at == j && next_of(rules@, c[p]) is None
                && #[trigger] awaits(rules@, c[p], c[q]) implies c.contains(advanced(c[q])) by {
            if p == ii {
                assert(k1[q] == c[q]);
                assert(completes(rules@, e, k1, advanced(c[q])));
            } else if q == ii {
                assert(k1[p] == c[p]);
            }
        }
    }
}

/// Closes column `k`, which follows the finished columns `ks`, under
/// prediction and completion.
fn close(rules: &Vec<Rule>, ks: &Vec<T>, k: &mut T, Ghost(w): Ghost<Seq<u32>>)
    requires
        prior_wf(rules@, ks@),
        wf_col(rules@, old(k)@, ks.len() as int),
    ensures
        grows(old(k)@, final(k)@),
        wf_col(rules@, final(k)@, ks.len() as int),
        prior_sound(rules@, w, ks@) && sound_col(rules@, w, old(k)@, ks.len() as int) ==> sound_col(
            rules@,
            w,
            final(k)@,
            ks.len() as int,
        ),
        least_closure(rules@, cols(ks@), old(k)@, final(k)@),
        final(k)@.len() <= item_bound(rules@, ks.len() as int),
{
    let ghost jj = ks.len() as int;
    let ghost sound = prior_sound(rules@, w, ks@) && sound_col(rules@, w, k@, jj);
    let mut i: usize = 0;
    while i < k.len()
        invariant
            i <= k.len(),
            prior_wf(rules@, ks@),
            sound == (prior_sound(rules@, w, ks@) && sound_col(rules@, w, old(k)@, jj)),
            jj == ks.len(),
            grows(old(k)@, k@),
            wf_col(rules@, k@, jj),
            sound ==> sound_col(rules@, w, k@, jj),
            closed_upto(rules@, cols(ks@), k@, i as int),
            forall|s: Seq<entry::T>|
                col_closed(rules@, cols(ks@), s) && within(old(k)@, s) ==> #[trigger] within(k@, s),
        decreases item_bound(rules@, jj) - i,
    {
        let ghost before = k@;
        expand_entry(rules, ks, k, i, Ghost(w));
        proof {
            assert forall|p: int| 0 <= p < old(k)@.len() implies #[trigger] k@[p] == old(k)@[p] by {
                assert(k@[p] == before[p]);
            }
            lemma_col_bound(rules@, k@, jj);
        }
        i = i + 1;
    }
    proof {
        assert forall|p: int| 0 <= p < k@.len() implies (#[trigger] k@[p]).started_at <= cols(ks@).len() by {
            assert(entry::wf(rules@, k@[p], jj));
        }
        lemma_closed_upto_done(rules@, cols(ks@), k@);
        lemma_grows_contains(old(k)@, k@);
        lemma_col_bound(rules@, k@, jj);
    }
}

/// Decides whether the grammar's start symbol derives `input`.
///
/// Column 0 holds the start symbol's rules, closed; each next column holds
/// what the previous one scans over the next input symbol, closed; the input
/// is accepted when the last column holds a complete rule of the start
/// symbol that began at column 0.
pub fn run(grammar: &grammar::T, input: &[u32]) -> (r: bool)
    ensures
        r == generates(grammar.rules@, grammar.start, input@),
{
    let rules = &grammar.rules;
    let start = grammar.start;
    let ghost w = input@;
    let mut ks: Vec<T> = Vec::new();
    let mut k0: T = Vec::new();
    let mut ri: usize = 0;
    while ri < rules.len()
        invariant
            ri <= rules.len(),
            sound_col(rules@, w, k0@, 0),
            forall|r: int|
                0 <= r < ri && #[trigger] rules@[r].lhs == start ==> k0@.contains(
                    entry::T { rule: r as usize, cur_pos: 0, started_at: 0 },
                ),
        decreases rules.len() - ri,
    {
        if rules[ri].lhs == start {
            let e = entry::new(ri, 0);
            let ghost before = k0@;
            proof {
                lemma_sound_predict(rules@, w, e, 0);
            }
            insert(&mut k0, e, Ghost(rules@), Ghost(w), Ghost(0));
            proof {
                lemma_grows_contains(before, k0@);
            }
        }
        ri = ri + 1;
    }
    proof {
        assert(cols(ks@) =~= Seq::<Seq<entry::T>>::empty());
    }
    let ghost seeds = k0@;
    close(rules, &ks, &mut k0, Ghost(w));
    proof {
        lemma_grows_contains(seeds, k0@);
    }
    assert(seeded(rules@, start, k0@)) by {
        assert forall|r: int| 0 <= r < rules@.len() && #[trigger] rules@[r].lhs == start implies k0@.contains(
            entry::T { rule: r as usize, cur_pos: 0, started_at: 0 },
        ) by {}
    }
    ks.push(k0);
    proof {
        assert(cols(ks@) =~= seq![ks@[0]@]);
        chart::lemma_first_column(rules@, start, w, ks@[0]@);
    }
    while ks.len() <= input.len()
        invariant
            1 <= ks.len() <= input.len() + 1,
            w == input@,
            chart_partial(rules@, start, w, cols(ks@)),
        decreases input.len() + 1 - ks.len(),
    {
        let n = ks.len() - 1;
        let a = input[n];
        let ghost chart = cols(ks@);
        assert(chart[n as int] == ks@[n as int]@);
        assert(sound_col(rules@, w, chart[n as int], n as int));
        let mut kn: T = Vec::new();
        let mut t: usize = 0;
        while t < ks[n].len()
            invariant
                n + 1 == ks.len(),
                n < input.len(),
                w == input@,
                a == w[n as int],
                chart == cols(ks@),
                sound_col(rules@, w, chart[n as int], n as int),
                chart[n as int] == ks@[n as int]@,
                sound_col(rules@, w, kn@, n + 1),
                forall|p: int|
                    0 <= p < t && next_of(rules@, #[trigger] chart[n as int][p]) == Some(Sigma::Terminal(a))
                        ==> kn@.contains(advanced(chart[n as int][p])),
            decreases ks[n as int].len() - t,
        {
            let y = ks[n][t];
            assert(sound_item(rules@, w, chart[n as int][t as int], n as int));
            if let Some(x) = y.step(rules, a) {
                let ghost before = kn@;
                proof {
                    lemma_sound_scan(rules@, w, y, n as int);
                }
                insert(&mut kn, x, Ghost(rules@), Ghost(w), Ghost(n + 1));
                proof {
                    lemma_grows_contains(before, kn@);
                }
            }
            t = t + 1;
        }
        let ghost raw = kn@;
        proof {
            assert forall|col: int| 0 <= col < ks@.len() implies sound_col(rules@, w, #[trigger] cols(ks@)[col], col) by {
                assert(chart_partial(rules@, start, w, chart));
                assert(sound_col(rules@, w, chart[col], col));
            }
        }
        close(rules, &ks, &mut kn, Ghost(w));
        proof {
            lemma_grows_contains(raw, kn@);
        }
        ks.push(kn);
        proof {
            assert(cols(ks@) =~= chart.push(kn@));
            assert(chart.push(kn@)[n as int] == chart[n as int]);
            assert(chart.push(kn@)[n + 1] == kn@);
            assert(scan_closed(rules@, w, chart.push(kn@), n as int));
            lemma_push_column(rules@, start, w, chart, kn@);
        }
    }
    let last = ks.len() - 1;
    let ghost chart = cols(ks@);
    let ghost c = chart[last as int];
    assert(c == ks@[last as int]@);
    assert(sound_col(rules@, w, c, last as int));
    let mut found = false;
    let mut p: usize = 0;
    while p < ks[last].len()
        invariant
            last < ks.len(),
            c == ks@[last as int]@,
            p <= c.len(),
            sound_col(rules@, w, c, last as int),
            found == exists|q: int|
                0 <= q < p && next_of(rules@, #[trigger] c[q]) is None && rules@[c[q].rule as int].lhs
                    == start && c[q].started_at == 0,
        decreases ks[last as int].len() - p,
    {
        let e = ks[last][p];
        assert(sound_item(rules@, w, c[p as int], last as int));
        if e.next(rules).is_none() && rules[e.rule].lhs == start && e.started_at == 0 {
            found = true;
        }
        p = p + 1;
    }
    proof {
        assert(p == c.len());
        assert(found == accepting(rules@, start, c));
        lemma_accepting_iff(rules@, start, w, chart);
    }
    found
}

/// Recognition depends on the grammar and the input alone: any two finished
/// charts for them, whatever order their items were found in, agree on
/// acceptance.
pub proof fn lemma_charts_agree(
    rules: Seq<Rule>,
    start: u32,
    w: Seq<u32>,
    a: Seq<Seq<entry::T>>,
    b: Seq<Seq<entry::T>>,
)
    requires
        chart::chart_done(rules, start, w, a),
        chart::chart_done(rules, start, w, b),
        rules.len() <= usize::MAX,
        w.len() < usize::MAX,
    ensures
        accepting(rules, start, a[w.len() as int]) == accepting(rules, start, b[w.len() as int]),
{
    lemma_accepting_iff(rules, start, w, a);
    lemma_accepting_iff(rules, start, w, b);
}

} // verus!

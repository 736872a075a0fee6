//! What a chart column holds and how it is closed, and the facts that tie a
//! closed chart to derivations.
use vstd::prelude::*;
use vstd::set_lib::{lemma_int_range, lemma_len_subset, lemma_map_size, set_int_range};
use crate::derivation::{derives, derives_n, generates, lemma_derives_concat, lemma_derives_rule};
use crate::grammar::{Rule, Sigma};
use super::entry::{advanced, awaits, completes, next_of, predicts, wf, T};

verus! {

broadcast use vstd::seq_lib::lemma_seq_contains_after_push;

/// The chart as a sequence of columns.
pub open spec fn cols(ks: Seq<Vec<T>>) -> Seq<Seq<T>> {
    Seq::new(ks.len(), |c: int| ks[c]@)
}

/// `e`, found in column `col`, is well formed and what precedes its dot
/// derives the input from its origin up to `col`.
pub open spec fn sound_item(rules: Seq<Rule>, w: Seq<u32>, e: T, col: int) -> bool {
    wf(rules, e, col) && col <= w.len() && derives(
        rules,
        rules[e.rule as int].rhs@.take(e.cur_pos as int),
        w.subrange(e.started_at as int, col),
    )
}

/// Every item of `c` is sound for column `col`, and none occurs twice.
pub open spec fn sound_col(rules: Seq<Rule>, w: Seq<u32>, c: Seq<T>, col: int) -> bool {
    c.no_duplicates() && forall|p: int| 0 <= p < c.len() ==> sound_item(rules, w, #[trigger] c[p], col)
}

/// The items of `c` are well formed for column `col`, and none occurs twice.
pub open spec fn wf_col(rules: Seq<Rule>, c: Seq<T>, col: int) -> bool {
    c.no_duplicates() && forall|p: int| 0 <= p < c.len() ==> wf(rules, #[trigger] c[p], col)
}

/// The column that an item of column `c`, placed after the columns `chart`,
/// refers back to when it completes: the column at its origin.
pub open spec fn origin_col(chart: Seq<Seq<T>>, c: Seq<T>, e: T) -> Seq<T> {
    if e.started_at < chart.len() {
        chart[e.started_at as int]
    } else {
        c
    }
}

/// Column `c`, placed after the columns `chart`, is closed under prediction
/// and completion.
pub open spec fn col_closed(rules: Seq<Rule>, chart: Seq<Seq<T>>, c: Seq<T>) -> bool {
    &&& forall|p: int, x: T|
        0 <= p < c.len() && #[trigger] predicts(rules, c[p], chart.len() as usize, x) ==> c.contains(x)
    &&& forall|p: int, x: T|
        0 <= p < c.len() && #[trigger] completes(rules, c[p], origin_col(chart, c, c[p]), x)
            ==> c.contains(x)
}

/// Every item of `a` is an item of `b`.
pub open spec fn within(a: Seq<T>, b: Seq<T>) -> bool {
    forall|x: T| a.contains(x) ==> b.contains(x)
}

/// `f` is the least column that holds the items of `c` and, placed after the
/// columns `chart`, is closed under prediction and completion.
pub open spec fn least_closure(rules: Seq<Rule>, chart: Seq<Seq<T>>, c: Seq<T>, f: Seq<T>) -> bool {
    &&& within(c, f)
    &&& col_closed(rules, chart, f)
    &&& forall|s: Seq<T>| col_closed(rules, chart, s) && within(c, s) ==> #[trigger] within(f, s)
}

/// The items of column `col` that wait for the terminal `w[col]` reappear,
/// advanced, in the next column.
pub open spec fn scan_closed(rules: Seq<Rule>, w: Seq<u32>, chart: Seq<Seq<T>>, col: int) -> bool {
    forall|p: int|
        0 <= p < chart[col].len() && next_of(rules, #[trigger] chart[col][p]) == Some(
            Sigma::Terminal(w[col]),
        ) ==> chart[col + 1].contains(advanced(chart[col][p]))
}

/// Column 0 holds every rule of the start symbol, unstarted.
pub open spec fn seeded(rules: Seq<Rule>, start: u32, c: Seq<T>) -> bool {
    forall|ri: int|
        0 <= ri < rules.len() && #[trigger] rules[ri].lhs == start ==> c.contains(
            T { rule: ri as usize, cur_pos: 0, started_at: 0 },
        )
}

/// The columns built so far for the input `w`: column 0 seeded, every
/// column sound and closed, and each column scanned into the next.
pub open spec fn chart_partial(rules: Seq<Rule>, start: u32, w: Seq<u32>, chart: Seq<Seq<T>>) -> bool {
    &&& 1 <= chart.len() <= w.len() + 1
    &&& seeded(rules, start, chart[0])
    &&& forall|col: int| 0 <= col < chart.len() ==> sound_col(rules, w, #[trigger] chart[col], col)
    &&& forall|col: int|
        0 <= col < chart.len() ==> col_closed(rules, chart.take(col), #[trigger] chart[col])
    &&& forall|col: int| 0 <= col < chart.len() - 1 ==> #[trigger] scan_closed(rules, w, chart, col)
}

/// A finished chart for the input `w`: one column per input position and
/// one more.
pub open spec fn chart_done(rules: Seq<Rule>, start: u32, w: Seq<u32>, chart: Seq<Seq<T>>) -> bool {
    chart.len() == w.len() + 1 && chart_partial(rules, start, w, chart)
}

/// Column `c` holds an item that derives the whole input from the start symbol.
pub open spec fn accepting(rules: Seq<Rule>, start: u32, c: Seq<T>) -> bool {
    exists|p: int|
        0 <= p < c.len() && next_of(rules, #[trigger] c[p]) is None && rules[c[p].rule as int].lhs
            == start && c[p].started_at == 0
}

/// Advancing an item over a matched terminal keeps it sound.
pub proof fn lemma_sound_scan(rules: Seq<Rule>, w: Seq<u32>, y: T, col: int)
    requires
        sound_item(rules, w, y, col),
        0 <= col < w.len(),
        next_of(rules, y) == Some(Sigma::Terminal(w[col])),
    ensures
        sound_item(rules, w, advanced(y), col + 1),
{
    let rhs = rules[y.rule as int].rhs@;
    let d = y.cur_pos as int;
    crate::derivation::lemma_derives_terminal(rules, w[col]);
    lemma_derives_concat(
        rules,
        rhs.take(d),
        seq![Sigma::Terminal(w[col])],
        w.subrange(y.started_at as int, col),
        seq![w[col]],
    );
    assert(rhs.take(d + 1) =~= rhs.take(d) + seq![Sigma::Terminal(w[col])]);
    assert(w.subrange(y.started_at as int, col + 1) =~= w.subrange(y.started_at as int, col)
        + seq![w[col]]);
}

/// Completing `e` into an item `y` of its origin column keeps `y` sound.
pub proof fn lemma_sound_complete(rules: Seq<Rule>, w: Seq<u32>, y: T, e: T, col: int)
    requires
        sound_item(rules, w, y, e.started_at as int),
        sound_item(rules, w, e, col),
        next_of(rules, e) is None,
        awaits(rules, e, y),
    ensures
        sound_item(rules, w, advanced(y), col),
{
    let rhs = rules[y.rule as int].rhs@;
    let d = y.cur_pos as int;
    let o = e.started_at as int;
    let erhs = rules[e.rule as int].rhs@;
    assert(erhs.take(e.cur_pos as int) =~= erhs);
    lemma_derives_rule(rules, e.rule as int, w.subrange(o, col));
    let s = seq![Sigma::Nonterminal(rules[e.rule as int].lhs)];
    lemma_derives_concat(
        rules,
        rhs.take(d),
        s,
        w.subrange(y.started_at as int, o),
        w.subrange(o, col),
    );
    assert(rhs.take(d + 1) =~= rhs.take(d) + s);
    assert(w.subrange(y.started_at as int, col) =~= w.subrange(y.started_at as int, o) + w.subrange(
        o,
        col,
    ));
}

/// A fresh item predicted at column `col` is sound.
pub proof fn lemma_sound_predict(rules: Seq<Rule>, w: Seq<u32>, x: T, col: int)
    requires
        x.rule < rules.len(),
        x.cur_pos == 0,
        x.started_at == col,
        0 <= col <= w.len(),
    ensures
        sound_item(rules, w, x, col),
{
    crate::derivation::lemma_derives_empty(rules);
    assert(rules[x.rule as int].rhs@.take(0) =~= Seq::<Sigma>::empty());
    assert(w.subrange(col, col) =~= Seq::<u32>::empty());
}

/// An item in a finished chart reaches, dot moved across `m` symbols, every
/// later column up to which those symbols derive the input.
pub proof fn lemma_reach(
    rules: Seq<Rule>,
    start: u32,
    w: Seq<u32>,
    chart: Seq<Seq<T>>,
    n: nat,
    r: usize,
    d: int,
    i: usize,
    k: int,
    m: int,
    j: int,
)
    requires
        chart_done(rules, start, w, chart),
        rules.len() <= usize::MAX,
        w.len() < usize::MAX,
        0 <= k <= j <= w.len(),
        r < rules.len(),
        0 <= d,
        0 <= m,
        d + m <= rules[r as int].rhs.len(),
        chart[k].contains(T { rule: r, cur_pos: d as usize, started_at: i }),
        derives_n(rules, rules[r as int].rhs@.subrange(d, d + m), w.subrange(k, j), n),
    ensures
        chart[j].contains(T { rule: r, cur_pos: (d + m) as usize, started_at: i }),
    decreases n, m,
{
    let rhs = rules[r as int].rhs@;
    let syms = rhs.subrange(d, d + m);
    let u = w.subrange(k, j);
    let e = T { rule: r, cur_pos: d as usize, started_at: i };
    let e1 = advanced(e);
    if m == 0 {
        assert(u.len() == 0);
    } else {
        assert(syms[0] == rhs[d]);
        assert(syms.drop_first() =~= rhs.subrange(d + 1, d + m));
        assert(next_of(rules, e) == Some(rhs[d]));
        let ck0 = chart[k];
        let p = choose|p: int| 0 <= p < ck0.len() && ck0[p] == e;
        match rhs[d] {
            Sigma::Terminal(t) => {
                assert(u.drop_first() =~= w.subrange(k + 1, j));
                assert(scan_closed(rules, w, chart, k));
                assert(chart[k + 1].contains(e1));
                lemma_reach(rules, start, w, chart, n, r, d + 1, i, k + 1, m - 1, j);
            },
            Sigma::Nonterminal(a) => {
                let (kk, ri) = choose|kk: int, ri: int|
                    #![trigger rules[ri], u.take(kk)]
                    0 <= kk <= u.len() && 0 <= ri < rules.len() && rules[ri].lhs == a
                        && derives_n(rules, rules[ri].rhs@, u.take(kk), (n - 1) as nat)
                        && derives_n(rules, syms.drop_first(), u.skip(kk), n);
                assert(u.take(kk) =~= w.subrange(k, k + kk));
                assert(u.skip(kk) =~= w.subrange(k + kk, j));
                let f = T { rule: ri as usize, cur_pos: 0, started_at: k as usize };
                assert(col_closed(rules, chart.take(k), chart[k]));
                assert(predicts(rules, chart[k][p], chart.take(k).len() as usize, f));
                assert(chart[k].contains(f));
                let flen = rules[ri].rhs.len() as int;
                assert(rules[ri].rhs@.subrange(0, flen) =~= rules[ri].rhs@);
                lemma_reach(rules, start, w, chart, (n - 1) as nat, ri as usize, 0, k as usize, k, flen, k + kk);
                let c = T { rule: ri as usize, cur_pos: flen as usize, started_at: k as usize };
                let ck = chart[k + kk];
                let q = choose|q: int| 0 <= q < ck.len() && ck[q] == c;
                assert(col_closed(rules, chart.take(k + kk), chart[k + kk]));
                assert(origin_col(chart.take(k + kk), chart[k + kk], c) == chart[k]);
                assert(awaits(rules, c, chart[k][p]));
                assert(completes(rules, chart[k + kk][q], origin_col(chart.take(k + kk), chart[k + kk], chart[k + kk][q]), e1));
                assert(chart[k + kk].contains(e1));
                lemma_reach(rules, start, w, chart, n, r, d + 1, i, k + kk, m - 1, j);
            },
        }
    }
}

/// The number of dot positions over all rules: for each rule, the length
/// of its right-hand side plus one.
pub open spec fn rule_slots(rules: Seq<Rule>) -> nat
    decreases rules.len(),
{
    if rules.len() == 0 {
        0
    } else {
        rule_slots(rules.drop_last()) + rules.last().rhs@.len() + 1
    }
}

/// How many distinct well-formed items column `col` can hold at most.
pub open spec fn item_bound(rules: Seq<Rule>, col: int) -> int {
    rule_slots(rules) * (col + 1)
}

proof fn lemma_slots_step(rules: Seq<Rule>, r: int)
    requires
        0 <= r < rules.len(),
    ensures
        rule_slots(rules.take(r + 1)) == rule_slots(rules.take(r)) + rules[r].rhs@.len() + 1,
{
    assert(rules.take(r + 1).drop_last() =~= rules.take(r));
}

proof fn lemma_slots_mono(rules: Seq<Rule>, a: int, b: int)
    requires
        0 <= a <= b <= rules.len(),
    ensures
        rule_slots(rules.take(a)) <= rule_slots(rules.take(b)),
    decreases b - a,
{
    if a < b {
        lemma_slots_mono(rules, a, b - 1);
        lemma_slots_step(rules, b - 1);
    }
}

/// The place of an item's rule and dot among all dot positions.
spec fn slot(rules: Seq<Rule>, e: T) -> int {
    rule_slots(rules.take(e.rule as int)) + e.cur_pos
}

proof fn lemma_slot_range(rules: Seq<Rule>, e: T, col: int)
    requires
        wf(rules, e, col),
    ensures
        rule_slots(rules.take(e.rule as int)) <= slot(rules, e) < rule_slots(rules.take(e.rule + 1)),
        slot(rules, e) < rule_slots(rules),
{
    lemma_slots_step(rules, e.rule as int);
    lemma_slots_mono(rules, e.rule + 1, rules.len() as int);
    assert(rules.take(rules.len() as int) =~= rules);
}

/// A distinct number for each item within the bounds of a column.
spec fn code(rules: Seq<Rule>, e: T, height: int) -> int {
    slot(rules, e) * height + e.started_at
}

proof fn lemma_digits(q1: int, s1: int, q2: int, s2: int, b: int)
    requires
        0 <= s1 < b,
        0 <= s2 < b,
        q1 * b + s1 == q2 * b + s2,
    ensures
        q1 == q2,
        s1 == s2,
{
    if q1 < q2 {
        assert(q1 * b + b <= q2 * b) by (nonlinear_arith)
            requires
                q1 < q2,
                0 < b,
        ;
    } else if q2 < q1 {
        assert(q2 * b + b <= q1 * b) by (nonlinear_arith)
            requires
                q2 < q1,
                0 < b,
        ;
    }
}

proof fn lemma_digit_bound(q: int, s: int, a: int, b: int)
    requires
        0 <= q < a,
        0 <= s < b,
    ensures
        0 <= q * b + s < a * b,
{
    assert(0 <= q * b + s < a * b) by (nonlinear_arith)
        requires
            0 <= q < a,
            0 <= s < b,
    ;
}

/// A column without repeated items, all well formed, holds at most
/// `item_bound` items.
pub proof fn lemma_col_bound(rules: Seq<Rule>, c: Seq<T>, col: int)
    requires
        0 <= col,
        c.no_duplicates(),
        forall|p: int| 0 <= p < c.len() ==> wf(rules, #[trigger] c[p], col),
    ensures
        c.len() <= item_bound(rules, col),
{
    let height = col + 1;
    let n = item_bound(rules, col);
    let f = |e: T| code(rules, e, height);
    let s = c.to_set();
    c.unique_seq_to_set();
    assert forall|x: T| #[trigger] s.contains(x) implies 0 <= f(x) < n by {
        let p = choose|p: int| 0 <= p < c.len() && c[p] == x;
        assert(wf(rules, c[p], col));
        lemma_slot_range(rules, x, col);
        lemma_digit_bound(slot(rules, x), x.started_at as int, rule_slots(rules) as int, height);
    }
    assert forall|x: T, y: T| s.contains(x) && s.contains(y) && #[trigger] f(x) == #[trigger] f(y) implies x == y by {
        let p = choose|p: int| 0 <= p < c.len() && c[p] == x;
        let q = choose|q: int| 0 <= q < c.len() && c[q] == y;
        assert(wf(rules, c[p], col));
        assert(wf(rules, c[q], col));
        lemma_slot_range(rules, x, col);
        lemma_slot_range(rules, y, col);
        lemma_digits(slot(rules, x), x.started_at as int, slot(rules, y), y.started_at as int, height);
        if x.rule < y.rule {
            lemma_slots_mono(rules, x.rule + 1, y.rule as int);
        } else if y.rule < x.rule {
            lemma_slots_mono(rules, y.rule + 1, x.rule as int);
        }
    }
    lemma_map_size(s, s.map(f), f);
    lemma_int_range(0, n);
    assert(s.map(f).subset_of(set_int_range(0, n)));
    lemma_len_subset(s.map(f), set_int_range(0, n));
}

/// A seeded, sound and closed first column starts a chart.
pub proof fn lemma_first_column(rules: Seq<Rule>, start: u32, w: Seq<u32>, c: Seq<T>)
    requires
        seeded(rules, start, c),
        sound_col(rules, w, c, 0),
        col_closed(rules, Seq::empty(), c),
    ensures
        chart_partial(rules, start, w, seq![c]),
{
    assert(seq![c].take(0) =~= Seq::<Seq<T>>::empty());
}

/// A sound and closed column, into which the last column was scanned,
/// extends a chart.
pub proof fn lemma_push_column(rules: Seq<Rule>, start: u32, w: Seq<u32>, chart: Seq<Seq<T>>, c: Seq<T>)
    requires
        chart_partial(rules, start, w, chart),
        chart.len() <= w.len(),
        sound_col(rules, w, c, chart.len() as int),
        col_closed(rules, chart, c),
        scan_closed(rules, w, chart.push(c), chart.len() - 1),
    ensures
        chart_partial(rules, start, w, chart.push(c)),
{
    let ch = chart.push(c);
    assert(ch.take(chart.len() as int) =~= chart);
    assert forall|col: int| 0 <= col < ch.len() implies col_closed(rules, ch.take(col), #[trigger] ch[col]) by {
        if col < chart.len() {
            assert(ch.take(col) =~= chart.take(col));
        }
    }
    assert forall|col: int| 0 <= col < ch.len() - 1 implies #[trigger] scan_closed(rules, w, ch, col) by {
        if col < chart.len() - 1 {
            assert(scan_closed(rules, w, chart, col));
        }
    }
}

/// The last column of a finished chart accepts exactly when the start
/// symbol derives the input.
pub proof fn lemma_accepting_iff(rules: Seq<Rule>, start: u32, w: Seq<u32>, chart: Seq<Seq<T>>)
    requires
        chart_done(rules, start, w, chart),
        rules.len() <= usize::MAX,
        w.len() < usize::MAX,
    ensures
        accepting(rules, start, chart[w.len() as int]) == generates(rules, start, w),
{
    let n = w.len() as int;
    let c = chart[n];
    if accepting(rules, start, c) {
        let p = choose|p: int|
            0 <= p < c.len() && next_of(rules, #[trigger] c[p]) is None && rules[c[p].rule as int].lhs
                == start && c[p].started_at == 0;
        assert(sound_col(rules, w, c, n));
        assert(sound_item(rules, w, c[p], n));
        let rhs = rules[c[p].rule as int].rhs@;
        assert(rhs.take(c[p].cur_pos as int) =~= rhs);
        assert(w.subrange(0, n) =~= w);
        assert(derives(rules, rules[c[p].rule as int].rhs@, w));
    }
    if generates(rules, start, w) {
        let ri = choose|ri: int|
            0 <= ri < rules.len() && rules[ri].lhs == start && derives(rules, #[trigger] rules[ri].rhs@, w);
        let m = choose|m: nat| derives_n(rules, rules[ri].rhs@, w, m);
        let len = rules[ri].rhs.len() as int;
        assert(rules[ri].rhs@.subrange(0, len) =~= rules[ri].rhs@);
        assert(w.subrange(0, n) =~= w);
        assert(seeded(rules, start, chart[0]));
        lemma_reach(rules, start, w, chart, m, ri as usize, 0, 0, 0, len, n);
        let e = T { rule: ri as usize, cur_pos: len as usize, started_at: 0 };
        let p = choose|p: int| 0 <= p < c.len() && c[p] == e;
        assert(next_of(rules, c[p]) is None);
    }
}

/// Cutting a finished chart after column `k` leaves a finished chart for
/// the input cut after `k` symbols, whose last column accepts exactly when
/// the start symbol derives that shorter input: a column before the end never
/// accepts a prefix that is not itself derivable.
pub proof fn lemma_truncated_chart(rules: Seq<Rule>, start: u32, w: Seq<u32>, chart: Seq<Seq<T>>, k: int)
    requires
        chart_done(rules, start, w, chart),
        0 <= k <= w.len(),
        rules.len() <= usize::MAX,
        w.len() < usize::MAX,
    ensures
        chart_done(rules, start, w.take(k), chart.take(k + 1)),
        accepting(rules, start, chart[k]) == generates(rules, start, w.take(k)),
{
    let v = w.take(k);
    let ch = chart.take(k + 1);
    assert forall|col: int| 0 <= col < ch.len() implies sound_col(rules, v, #[trigger] ch[col], col) by {
        assert(sound_col(rules, w, chart[col], col));
        assert forall|p: int| 0 <= p < ch[col].len() implies sound_item(rules, v, #[trigger] ch[col][p], col) by {
            let e = ch[col][p];
            assert(sound_item(rules, w, chart[col][p], col));
            assert(v.subrange(e.started_at as int, col) =~= w.subrange(e.started_at as int, col));
        }
    }
    assert forall|col: int| 0 <= col < ch.len() implies col_closed(rules, ch.take(col), #[trigger] ch[col]) by {
        assert(ch.take(col) =~= chart.take(col));
        assert(col_closed(rules, chart.take(col), chart[col]));
    }
    assert forall|col: int| 0 <= col < ch.len() - 1 implies #[trigger] scan_closed(rules, v, ch, col) by {
        assert(scan_closed(rules, w, chart, col));
        assert(v[col] == w[col]);
    }
    lemma_accepting_iff(rules, start, v, ch);
}

/// Closing a column that is already closed adds nothing: where the closure
/// keeps the column's items in place and repeats none, it is the column.
pub proof fn lemma_closure_of_closed(rules: Seq<Rule>, chart: Seq<Seq<T>>, c: Seq<T>, f: Seq<T>)
    requires
        col_closed(rules, chart, c),
        least_closure(rules, chart, c, f),
        c.len() <= f.len(),
        forall|p: int| 0 <= p < c.len() ==> #[trigger] f[p] == c[p],
        f.no_duplicates(),
    ensures
        f == c,
{
    assert(within(c, c));
    assert(within(f, c));
    if f.len() > c.len() {
        let n = c.len() as int;
        assert(f.contains(f[n]));
        let p = choose|p: int| 0 <= p < c.len() && c[p] == f[n];
        assert(f[p] == f[n]);
    }
    assert(f =~= c);
}

/// Closure is monotone: a column whose items all lie in another closes to
/// a column whose items all lie in the other's closure.
pub proof fn lemma_closure_monotone(
    rules: Seq<Rule>,
    chart: Seq<Seq<T>>,
    c1: Seq<T>,
    c2: Seq<T>,
    f1: Seq<T>,
    f2: Seq<T>,
)
    requires
        within(c1, c2),
        least_closure(rules, chart, c1, f1),
        least_closure(rules, chart, c2, f2),
    ensures
        within(f1, f2),
{
    assert(within(c1, f2));
    assert(within(f1, f2));
}

} // verus!

//! The arbitrator's choice for a component scores best among all the
//! non-overlapping selections of the component's lexemes.
use vstd::prelude::*;

use crate::arbitrator::{
    arb_from, best_of, better_spec, comp_end, compatible, dfs_loop_spec, dfs_spec, is_chain,
    lemma_chain_sum, lemma_comp_end, lemma_sum_len_take, lex_bounded, prio_sum, score_spec, sum_len,
    update_best, worst_spec,
    Score,
};
use crate::disjoint::{lemma_arb_chain, lemma_best_chain};
use crate::lexeme::{lex_end, lex_lt, sorted_of, strictly_sorted, Lexeme};
use crate::pipeline::{lemma_arb_within, lemma_field_order_begins, lemma_sorted_of};

verus! {

/// `a` scores at least as well as `b`.
pub open spec fn at_least(a: Score, b: Score) -> bool {
    !better_spec(b, a)
}

/// The lexemes of `comp` at the indices `idx`.
pub open spec fn pick(comp: Seq<Lexeme>, idx: Seq<int>) -> Seq<Lexeme> {
    idx.map_values(|t: int| comp[t])
}

/// `idx` picks lexemes of `comp` at increasing indices from `start` on,
/// each starting at or after the end of the one before (the first one at or
/// after the end of `chosen`'s last lexeme).
pub open spec fn picks_chain(comp: Seq<Lexeme>, chosen: Seq<Lexeme>, start: int, idx: Seq<int>) -> bool {
    &&& forall|t: int| 0 <= t < idx.len() ==> start <= #[trigger] idx[t] < comp.len()
    &&& forall|s: int, t: int| 0 <= s < t < idx.len() ==> #[trigger] idx[s] < #[trigger] idx[t]
    &&& forall|t: int| 0 <= t < idx.len() ==> compatible(chosen + pick(comp, idx.take(t)), #[trigger] comp[idx[t]])
}

proof fn lemma_at_least_trans(a: Score, b: Score, c: Score)
    requires
        at_least(a, b),
        at_least(b, c),
    ensures
        at_least(a, c),
{
}

proof fn lemma_update_best(st: (Seq<Lexeme>, Score), c: Seq<Lexeme>)
    ensures
        at_least(update_best(st, c).1, st.1),
        at_least(update_best(st, c).1, score_spec(c)),
        st.1 == score_spec(st.0) ==> update_best(st, c).1 == score_spec(update_best(st, c).0),
{
}

/// The search never ends with a worse score than it started with, and its
/// score is that of its chain.
proof fn lemma_dfs_mono(comp: Seq<Lexeme>, chosen: Seq<Lexeme>, start: int, st: (Seq<Lexeme>, Score))
    ensures
        at_least(dfs_spec(comp, chosen, start, st).1, st.1),
        st.1 == score_spec(st.0) ==> dfs_spec(comp, chosen, start, st).1 == score_spec(dfs_spec(comp, chosen, start, st).0),
    decreases comp.len() - start, 1int,
{
    let st0 = update_best(st, chosen);
    lemma_update_best(st, chosen);
    lemma_loop_mono(comp, chosen, start, st0);
    lemma_at_least_trans(dfs_spec(comp, chosen, start, st).1, st0.1, st.1);
}

proof fn lemma_loop_mono(comp: Seq<Lexeme>, chosen: Seq<Lexeme>, k: int, st: (Seq<Lexeme>, Score))
    ensures
        at_least(dfs_loop_spec(comp, chosen, k, st).1, st.1),
        st.1 == score_spec(st.0) ==> dfs_loop_spec(comp, chosen, k, st).1 == score_spec(dfs_loop_spec(comp, chosen, k, st).0),
    decreases comp.len() - k, 0int,
{
    if 0 <= k < comp.len() {
        let st2 = if compatible(chosen, comp[k]) {
            lemma_dfs_mono(comp, chosen.push(comp[k]), k + 1, st);
            dfs_spec(comp, chosen.push(comp[k]), k + 1, st)
        } else {
            st
        };
        lemma_loop_mono(comp, chosen, k + 1, st2);
        lemma_at_least_trans(dfs_loop_spec(comp, chosen, k, st).1, st2.1, st.1);
    }
}

proof fn lemma_pick_push(comp: Seq<Lexeme>, idx: Seq<int>, chosen: Seq<Lexeme>)
    requires
        idx.len() > 0,
    ensures
        chosen.push(comp[idx[0]]) + pick(comp, idx.drop_first()) == chosen + pick(comp, idx),
{
    assert(chosen.push(comp[idx[0]]) + pick(comp, idx.drop_first()) =~= chosen + pick(comp, idx));
}

proof fn lemma_picks_rest(comp: Seq<Lexeme>, chosen: Seq<Lexeme>, start: int, idx: Seq<int>)
    requires
        idx.len() > 0,
        picks_chain(comp, chosen, start, idx),
    ensures
        picks_chain(comp, chosen.push(comp[idx[0]]), idx[0] + 1, idx.drop_first()),
{
    let rest = idx.drop_first();
    let c2 = chosen.push(comp[idx[0]]);
    assert forall|t: int| 0 <= t < rest.len() implies idx[0] + 1 <= #[trigger] rest[t] < comp.len() by {
        assert(rest[t] == idx[t + 1]);
        assert(idx[0] < idx[t + 1]);
    }
    assert forall|s: int, t: int| 0 <= s < t < rest.len() implies #[trigger] rest[s] < #[trigger] rest[t] by {
        assert(rest[s] == idx[s + 1] && rest[t] == idx[t + 1]);
    }
    assert forall|t: int| 0 <= t < rest.len() implies compatible(c2 + pick(comp, rest.take(t)), #[trigger] comp[rest[t]]) by {
        assert(rest[t] == idx[t + 1]);
        assert(compatible(chosen + pick(comp, idx.take(t + 1)), comp[idx[t + 1]]));
        assert(c2 + pick(comp, rest.take(t)) =~= chosen + pick(comp, idx.take(t + 1)));
    }
}

/// The search from `chosen` at `start` ends with a score at least that of
/// every chain it can build.
proof fn lemma_dfs_reaches(comp: Seq<Lexeme>, chosen: Seq<Lexeme>, start: int, st: (Seq<Lexeme>, Score), idx: Seq<int>)
    requires
        0 <= start,
        picks_chain(comp, chosen, start, idx),
    ensures
        at_least(dfs_spec(comp, chosen, start, st).1, score_spec(chosen + pick(comp, idx))),
    decreases comp.len() - start, 1int, idx.len(),
{
    let st0 = update_best(st, chosen);
    lemma_update_best(st, chosen);
    if idx.len() == 0 {
        assert(chosen + pick(comp, idx) =~= chosen);
        lemma_loop_mono(comp, chosen, start, st0);
        lemma_at_least_trans(dfs_spec(comp, chosen, start, st).1, st0.1, score_spec(chosen));
    } else {
        lemma_loop_reaches(comp, chosen, start, st0, idx);
    }
}

proof fn lemma_loop_reaches(comp: Seq<Lexeme>, chosen: Seq<Lexeme>, k: int, st: (Seq<Lexeme>, Score), idx: Seq<int>)
    requires
        idx.len() > 0,
        0 <= k <= idx[0],
        picks_chain(comp, chosen, k, idx),
    ensures
        at_least(dfs_loop_spec(comp, chosen, k, st).1, score_spec(chosen + pick(comp, idx))),
    decreases comp.len() - k, 0int, idx[0] - k,
{
    let i1 = idx[0];
    assert(k <= i1 < comp.len());
    assert(idx.take(0) =~= Seq::<int>::empty());
    assert(chosen + pick(comp, idx.take(0)) =~= chosen);
    let st2 = if compatible(chosen, comp[k]) {
        dfs_spec(comp, chosen.push(comp[k]), k + 1, st)
    } else {
        st
    };
    if k == i1 {
        assert(compatible(chosen, comp[k]));
        lemma_picks_rest(comp, chosen, k, idx);
        lemma_dfs_reaches(comp, chosen.push(comp[k]), k + 1, st, idx.drop_first());
        lemma_pick_push(comp, idx, chosen);
        assert(at_least(st2.1, score_spec(chosen + pick(comp, idx))));
        lemma_loop_mono(comp, chosen, k + 1, st2);
        assert(dfs_loop_spec(comp, chosen, k, st) == dfs_loop_spec(comp, chosen, k + 1, st2));
        lemma_at_least_trans(dfs_loop_spec(comp, chosen, k, st).1, st2.1, score_spec(chosen + pick(comp, idx)));
    } else {
        assert(picks_chain(comp, chosen, k + 1, idx)) by {
            assert forall|t: int| 0 <= t < idx.len() implies k + 1 <= #[trigger] idx[t] < comp.len() by {
                if t > 0 {
                    assert(idx[0] < idx[t]);
                }
            }
        }
        lemma_loop_reaches(comp, chosen, k + 1, st2, idx);
        assert(dfs_loop_spec(comp, chosen, k, st) == dfs_loop_spec(comp, chosen, k + 1, st2));
    }
}

/// The arbitrator's choice for a component is optimal: no selection of the
/// component's lexemes taken in order, each starting at or after the end of
/// the one before, scores strictly better.
pub proof fn lemma_best_of_optimal(comp: Seq<Lexeme>, idx: Seq<int>)
    requires
        picks_chain(comp, Seq::empty(), 0, idx),
    ensures
        !better_spec(score_spec(pick(comp, idx)), score_spec(best_of(comp))),
{
    let e = Seq::<Lexeme>::empty();
    assert(e + pick(comp, idx) =~= pick(comp, idx));
    if comp.len() == 1 {
        if idx.len() == 0 {
            assert(pick(comp, idx) =~= e);
        } else {
            assert(idx[0] == 0);
            if idx.len() > 1 {
                assert(idx[0] < idx[1]);
            }
            assert(pick(comp, idx) =~= comp);
        }
    } else {
        let st = (e, worst_spec());
        lemma_dfs_reaches(comp, e, 0, st, idx);
        lemma_dfs_mono(comp, e, 0, st);
        assert(score_spec(e) == worst_spec());
    }
}


// ---------------------------------------------------------------------------
// Every lexeme is chosen or overlaps a chosen one
// ---------------------------------------------------------------------------

/// Two lexemes share a char.
pub open spec fn overlaps(a: Lexeme, b: Lexeme) -> bool {
    a.begin < lex_end(b) && b.begin < lex_end(a)
}

/// `c` is a selection of `comp` in index order that forms a chain.
spec fn is_pick(comp: Seq<Lexeme>, c: Seq<Lexeme>) -> bool {
    exists|idx: Seq<int>| picks_chain(comp, Seq::empty(), 0, idx) && c == #[trigger] pick(comp, idx)
}

proof fn lemma_pick_extend(comp: Seq<Lexeme>, idc: Seq<int>, k: int)
    requires
        0 <= k < comp.len(),
        picks_chain(comp, Seq::empty(), 0, idc),
        forall|t: int| 0 <= t < idc.len() ==> #[trigger] idc[t] < k,
        compatible(pick(comp, idc), comp[k]),
    ensures
        picks_chain(comp, Seq::empty(), 0, idc.push(k)),
        pick(comp, idc.push(k)) == pick(comp, idc).push(comp[k]),
{
    let idn = idc.push(k);
    let e = Seq::<Lexeme>::empty();
    assert forall|t: int| 0 <= t < idn.len() implies compatible(e + pick(comp, idn.take(t)), #[trigger] comp[idn[t]]) by {
        if t < idc.len() {
            assert(idn.take(t) =~= idc.take(t));
            assert(idn[t] == idc[t]);
        } else {
            assert(idn.take(t) =~= idc);
            assert(e + pick(comp, idc) =~= pick(comp, idc));
        }
    }
    assert forall|a: int, b: int| 0 <= a < b < idn.len() implies #[trigger] idn[a] < #[trigger] idn[b] by {
        if b < idc.len() {
            assert(idn[a] == idc[a] && idn[b] == idc[b]);
        } else {
            assert(idn[a] == idc[a]);
        }
    }
    assert forall|t: int| 0 <= t < idn.len() implies 0 <= #[trigger] idn[t] < comp.len() by {
        if t < idc.len() {
            assert(idn[t] == idc[t]);
        }
    }
    assert(pick(comp, idn) =~= pick(comp, idc).push(comp[k]));
}

proof fn lemma_dfs_pick(comp: Seq<Lexeme>, idc: Seq<int>, start: int, st: (Seq<Lexeme>, Score))
    requires
        0 <= start,
        picks_chain(comp, Seq::empty(), 0, idc),
        forall|t: int| 0 <= t < idc.len() ==> #[trigger] idc[t] < start,
        is_pick(comp, st.0),
    ensures
        is_pick(comp, dfs_spec(comp, pick(comp, idc), start, st).0),
    decreases comp.len() - start, 1int,
{
    let chosen = pick(comp, idc);
    let st0 = update_best(st, chosen);
    assert(is_pick(comp, chosen));
    lemma_loop_pick(comp, idc, start, st0);
}

proof fn lemma_loop_pick(comp: Seq<Lexeme>, idc: Seq<int>, k: int, st: (Seq<Lexeme>, Score))
    requires
        0 <= k,
        picks_chain(comp, Seq::empty(), 0, idc),
        forall|t: int| 0 <= t < idc.len() ==> #[trigger] idc[t] < k,
        is_pick(comp, st.0),
    ensures
        is_pick(comp, dfs_loop_spec(comp, pick(comp, idc), k, st).0),
    decreases comp.len() - k, 0int,
{
    let chosen = pick(comp, idc);
    if 0 <= k < comp.len() {
        let st2 = if compatible(chosen, comp[k]) {
            lemma_pick_extend(comp, idc, k);
            let idn = idc.push(k);
            assert forall|t: int| 0 <= t < idn.len() implies #[trigger] idn[t] < k + 1 by {
                if t < idc.len() {
                    assert(idn[t] == idc[t]);
                }
            }
            lemma_dfs_pick(comp, idn, k + 1, st);
            dfs_spec(comp, chosen.push(comp[k]), k + 1, st)
        } else {
            st
        };
        assert forall|t: int| 0 <= t < idc.len() implies #[trigger] idc[t] < k + 1 by {}
        lemma_loop_pick(comp, idc, k + 1, st2);
    }
}

/// The arbitrator's choice for a component is a selection of it.
proof fn lemma_best_pick(comp: Seq<Lexeme>)
    requires
        comp.len() > 0,
    ensures
        is_pick(comp, best_of(comp)),
{
    let e = Seq::<Lexeme>::empty();
    let none = Seq::<int>::empty();
    assert(pick(comp, none) =~= e);
    assert(picks_chain(comp, e, 0, none));
    if comp.len() == 1 {
        let one = seq![0int];
        assert(one.take(0) =~= none);
        assert(e + pick(comp, none) =~= e);
        assert(picks_chain(comp, e, 0, one));
        assert(pick(comp, one) =~= comp);
    } else {
        assert(is_pick(comp, e));
        lemma_dfs_pick(comp, none, 0, (e, worst_spec()));
    }
}

proof fn lemma_sum_len_concat(a: Seq<Lexeme>, b: Seq<Lexeme>)
    ensures
        sum_len(a + b) == sum_len(a) + sum_len(b),
    decreases b.len(),
{
    if b.len() > 0 {
        lemma_sum_len_concat(a, b.drop_last());
        assert((a + b).drop_last() =~= a + b.drop_last());
    } else {
        assert(a + b =~= a);
    }
}

proof fn lemma_sum_len_nonneg(c: Seq<Lexeme>)
    ensures
        sum_len(c) >= 0,
    decreases c.len(),
{
    if c.len() > 0 {
        lemma_sum_len_nonneg(c.drop_last());
    }
}

/// How many leading entries of `idx` are below `ix`.
spec fn count_below(idx: Seq<int>, ix: int) -> int
    decreases idx.len(),
{
    if idx.len() > 0 && idx[0] < ix {
        1 + count_below(idx.drop_first(), ix)
    } else {
        0
    }
}

proof fn lemma_count_below(idx: Seq<int>, ix: int)
    ensures
        0 <= count_below(idx, ix) <= idx.len(),
        forall|t: int| 0 <= t < count_below(idx, ix) ==> #[trigger] idx[t] < ix,
        count_below(idx, ix) < idx.len() ==> idx[count_below(idx, ix)] >= ix,
    decreases idx.len(),
{
    if idx.len() > 0 && idx[0] < ix {
        let r = idx.drop_first();
        lemma_count_below(r, ix);
        assert forall|t: int| 0 <= t < count_below(idx, ix) implies #[trigger] idx[t] < ix by {
            if t > 0 {
                assert(idx[t] == r[t - 1]);
            }
        }
        if count_below(idx, ix) < idx.len() {
            assert(idx[count_below(idx, ix)] == r[count_below(r, ix)]);
        }
    }
}

/// Indices in range and increasing whose lexemes form a chain make a
/// selection.
proof fn lemma_chain_picks(comp: Seq<Lexeme>, idx: Seq<int>)
    requires
        forall|t: int| 0 <= t < idx.len() ==> 0 <= #[trigger] idx[t] < comp.len(),
        forall|a: int, b: int| 0 <= a < b < idx.len() ==> #[trigger] idx[a] < #[trigger] idx[b],
        is_chain(pick(comp, idx)),
    ensures
        picks_chain(comp, Seq::empty(), 0, idx),
{
    let e = Seq::<Lexeme>::empty();
    let c = pick(comp, idx);
    assert forall|t: int| 0 <= t < idx.len() implies compatible(e + pick(comp, idx.take(t)), #[trigger] comp[idx[t]]) by {
        let pre = e + pick(comp, idx.take(t));
        assert(pre =~= c.take(t));
        if t > 0 {
            assert(pre.last() == c[t - 1]);
            assert(c[t] == comp[idx[t]]);
            assert(lex_end(c[t - 1]) <= c[t].begin);
        }
    }
}

/// `ix`, inserted into the increasing indices `idx` at `q`, keeps them in
/// range and increasing.
proof fn lemma_insert_idx(comp: Seq<Lexeme>, idx: Seq<int>, ix: int, q: int)
    requires
        0 <= q <= idx.len(),
        0 <= ix < comp.len(),
        forall|t: int| 0 <= t < idx.len() ==> 0 <= #[trigger] idx[t] < comp.len(),
        forall|a: int, b: int| 0 <= a < b < idx.len() ==> #[trigger] idx[a] < #[trigger] idx[b],
        forall|t: int| 0 <= t < q ==> #[trigger] idx[t] < ix,
        forall|t: int| q <= t < idx.len() ==> #[trigger] idx[t] > ix,
    ensures
        forall|t: int| 0 <= t < (idx.take(q).push(ix) + idx.skip(q)).len() ==> 0 <= #[trigger] (idx.take(q).push(ix) + idx.skip(q))[t] < comp.len(),
        forall|a: int, b: int| 0 <= a < b < (idx.take(q).push(ix) + idx.skip(q)).len()
            ==> #[trigger] (idx.take(q).push(ix) + idx.skip(q))[a] < #[trigger] (idx.take(q).push(ix) + idx.skip(q))[b],
{
    let idx2 = idx.take(q).push(ix) + idx.skip(q);
    assert forall|t: int| 0 <= t < idx2.len() implies 0 <= #[trigger] idx2[t] < comp.len() by {
        if t < q {
            assert(idx2[t] == idx[t]);
        } else if t > q {
            assert(idx2[t] == idx[t - 1]);
        }
    }
    assert forall|a: int, b: int| 0 <= a < b < idx2.len() implies #[trigger] idx2[a] < #[trigger] idx2[b] by {
        if b < q {
            assert(idx2[a] == idx[a] && idx2[b] == idx[b]);
        } else if b == q {
            assert(idx2[a] == idx[a]);
        } else if a < q {
            assert(idx2[a] == idx[a] && idx2[b] == idx[b - 1]);
        } else if a == q {
            assert(idx2[b] == idx[b - 1]);
        } else {
            assert(idx2[a] == idx[a - 1] && idx2[b] == idx[b - 1]);
        }
    }
}

/// A chain of sorted lexemes stays a chain when a lexeme that overlaps
/// none of them is put in its place by order.
proof fn lemma_insert_chain(c: Seq<Lexeme>, x: Lexeme, q: int)
    requires
        0 <= q <= c.len(),
        is_chain(c),
        lex_bounded(x),
        forall|t: int| 0 <= t < c.len() ==> !overlaps(x, #[trigger] c[t]),
        forall|t: int| 0 <= t < q ==> (#[trigger] c[t]).begin <= x.begin,
        forall|t: int| q <= t < c.len() ==> x.begin <= (#[trigger] c[t]).begin,
    ensures
        is_chain(c.take(q).push(x) + c.skip(q)),
{
    let b2 = c.take(q).push(x) + c.skip(q);
    assert forall|a: int, b: int| 0 <= a < b < b2.len() implies lex_end(#[trigger] b2[a]) <= (#[trigger] b2[b]).begin by {
        if b < q {
            assert(b2[a] == c[a] && b2[b] == c[b]);
        } else if b == q {
            assert(b2[a] == c[a] && b2[b] == x);
            assert(!overlaps(x, c[a]));
        } else if a < q {
            assert(b2[a] == c[a] && b2[b] == c[b - 1]);
        } else if a == q {
            assert(b2[a] == x && b2[b] == c[b - 1]);
            assert(!overlaps(x, c[b - 1]));
        } else {
            assert(b2[a] == c[a - 1] && b2[b] == c[b - 1]);
        }
    }
    assert forall|t: int| 0 <= t < b2.len() implies lex_bounded(#[trigger] b2[t]) by {
        if t < q {
            assert(b2[t] == c[t]);
        } else if t > q {
            assert(b2[t] == c[t - 1]);
        }
    }
}

/// A chain that covers more chars scores better.
proof fn lemma_longer_better(b2: Seq<Lexeme>, best: Seq<Lexeme>)
    requires
        is_chain(b2),
        is_chain(best),
        b2.len() > 0,
        sum_len(b2) > sum_len(best),
    ensures
        better_spec(score_spec(b2), score_spec(best)),
{
    lemma_chain_sum(b2);
    lemma_sum_len_nonneg(best);
    if best.len() > 0 {
        lemma_chain_sum(best);
    }
}

/// In a sorted component, a lexeme that no lexeme of the arbitrator's
/// choice overlaps is itself chosen.
#[verifier::spinoff_prover]
#[verifier::rlimit(40)]
proof fn lemma_cover_comp(comp: Seq<Lexeme>, ix: int)
    requires
        strictly_sorted(comp, true),
        forall|t: int| 0 <= t < comp.len() ==> lex_bounded(#[trigger] comp[t]),
        0 <= ix < comp.len(),
    ensures
        best_of(comp).contains(comp[ix]) || exists|y: Lexeme| #[trigger] best_of(comp).contains(y) && overlaps(comp[ix], y),
{
    let best = best_of(comp);
    let x = comp[ix];
    if comp.len() == 1 {
        assert(best[0] == x);
    } else if !best.contains(x) && !(exists|y: Lexeme| #[trigger] best.contains(y) && overlaps(x, y)) {
        lemma_best_pick(comp);
        lemma_best_chain(comp);
        let idx = choose|idx: Seq<int>| picks_chain(comp, Seq::empty(), 0, idx) && best == #[trigger] pick(comp, idx);
        lemma_count_below(idx, ix);
        let q = count_below(idx, ix);
        assert forall|t: int| q <= t < idx.len() implies #[trigger] idx[t] > ix by {
            if t > q {
                assert(idx[q] < idx[t]);
            }
            if idx[t] == ix {
                assert(best[t] == x);
            }
        }
        assert forall|t: int| 0 <= t < best.len() implies !overlaps(x, #[trigger] best[t]) by {
            assert(best.contains(best[t]));
        }
        assert forall|t: int| 0 <= t < q implies (#[trigger] best[t]).begin <= x.begin by {
            assert(lex_lt(comp[idx[t]], comp[ix], true));
        }
        assert forall|t: int| q <= t < best.len() implies x.begin <= (#[trigger] best[t]).begin by {
            assert(lex_lt(comp[ix], comp[idx[t]], true));
        }
        lemma_insert_chain(best, x, q);
        lemma_insert_idx(comp, idx, ix, q);
        let idx2 = idx.take(q).push(ix) + idx.skip(q);
        let b2 = pick(comp, idx2);
        assert(b2 =~= best.take(q).push(x) + best.skip(q));
        lemma_chain_picks(comp, idx2);
        lemma_best_of_optimal(comp, idx2);
        lemma_sum_len_concat(best.take(q).push(x), best.skip(q));
        lemma_sum_len_concat(best.take(q), best.skip(q));
        assert(best =~= best.take(q) + best.skip(q));
        assert(best.take(q).push(x).drop_last() =~= best.take(q));
        lemma_longer_better(b2, best);
    }
}

proof fn lemma_cover_from(s: Seq<Lexeme>, i: int, p: int)
    requires
        strictly_sorted(s, true),
        forall|t: int| 0 <= t < s.len() ==> lex_bounded(#[trigger] s[t]),
        0 <= i <= p < s.len(),
    ensures
        arb_from(s, i).contains(s[p]) || exists|y: Lexeme| #[trigger] arb_from(s, i).contains(y) && overlaps(s[p], y),
    decreases s.len() - i,
{
    let j = comp_end(s, i + 1, lex_end(s[i]));
    lemma_comp_end(s, i + 1, lex_end(s[i]));
    let c = s.subrange(i, j);
    let rest = arb_from(s, j);
    assert(arb_from(s, i) == best_of(c) + rest);
    if p < j {
        assert forall|a: int, b: int| 0 <= a < b < c.len() implies lex_lt(#[trigger] c[a], #[trigger] c[b], true) by {
            assert(c[a] == s[i + a] && c[b] == s[i + b]);
        }
        assert forall|t: int| 0 <= t < c.len() implies lex_bounded(#[trigger] c[t]) by {
            assert(c[t] == s[i + t]);
        }
        lemma_cover_comp(c, p - i);
        assert(c[p - i] == s[p]);
        if best_of(c).contains(s[p]) {
            vstd::seq_lib::lemma_seq_concat_contains_all_elements(best_of(c), rest, s[p]);
        } else {
            let y = choose|y: Lexeme| #[trigger] best_of(c).contains(y) && overlaps(s[p], y);
            vstd::seq_lib::lemma_seq_concat_contains_all_elements(best_of(c), rest, y);
        }
    } else {
        lemma_cover_from(s, j, p);
        if rest.contains(s[p]) {
            vstd::seq_lib::lemma_seq_concat_contains_all_elements(best_of(c), rest, s[p]);
        } else {
            let y = choose|y: Lexeme| #[trigger] rest.contains(y) && overlaps(s[p], y);
            vstd::seq_lib::lemma_seq_concat_contains_all_elements(best_of(c), rest, y);
        }
    }
}

/// What `arbitrate` returns for non-empty lexemes: lexemes of its input,
/// in order of `begin` and pairwise non-overlapping; every input lexeme is
/// chosen or overlaps a chosen one; and nothing for no input.
pub proof fn lemma_arbitrate_cover(lexemes: Seq<Lexeme>)
    requires
        forall|i: int| 0 <= i < lexemes.len() ==> lex_bounded(#[trigger] lexemes[i]),
    ensures
        forall|a: int, b: int| 0 <= a < b < arb_from(sorted_of(lexemes, true), 0).len() ==> lex_end(
            #[trigger] arb_from(sorted_of(lexemes, true), 0)[a],
        ) <= (#[trigger] arb_from(sorted_of(lexemes, true), 0)[b]).begin,
        forall|x: Lexeme| #[trigger] arb_from(sorted_of(lexemes, true), 0).contains(x) ==> lexemes.contains(x),
        forall|x: Lexeme| #[trigger] lexemes.contains(x) ==> arb_from(sorted_of(lexemes, true), 0).contains(x) || exists|y: Lexeme|
            #[trigger] arb_from(sorted_of(lexemes, true), 0).contains(y) && overlaps(x, y),
        lexemes.len() == 0 ==> arb_from(sorted_of(lexemes, true), 0).len() == 0,
{
    let s = sorted_of(lexemes, true);
    let r = arb_from(s, 0);
    lemma_sorted_of(lexemes, true);
    assert forall|t: int| 0 <= t < s.len() implies lex_bounded(#[trigger] s[t]) by {
        assert(s.contains(s[t]));
        let k = choose|k: int| 0 <= k < lexemes.len() && lexemes[k] == s[t];
    }
    lemma_field_order_begins(s);
    lemma_arb_chain(s, 0);
    lemma_arb_within(s, 0);
    assert forall|x: Lexeme| #[trigger] r.contains(x) implies lexemes.contains(x) by {
        let k = choose|k: int| 0 <= k < r.len() && r[k] == x;
        assert(s.contains(r[k]));
    }
    assert forall|x: Lexeme| #[trigger] lexemes.contains(x) implies r.contains(x) || exists|y: Lexeme|
        #[trigger] r.contains(y) && overlaps(x, y) by {
        assert(s.contains(x));
        let p = choose|p: int| 0 <= p < s.len() && s[p] == x;
        lemma_cover_from(s, 0, p);
    }
    if lexemes.len() == 0 {
        if s.len() > 0 {
            assert(s.contains(s[0]));
        }
    }
}

/// A non-empty chain covers at least one char per lexeme, at most the end
/// of its last lexeme, and its priorities sum to at most 64 per lexeme.
proof fn lemma_chain_bounds(c: Seq<Lexeme>)
    requires
        is_chain(c),
        c.len() > 0,
    ensures
        c.len() <= sum_len(c) <= usize::MAX,
        0 <= prio_sum(c) <= 64 * c.len(),
{
    lemma_chain_sum(c);
    assert(lex_bounded(c[c.len() - 1]));
    assert forall|k: int| 0 <= k < c.len() implies 1 <= (#[trigger] c[k]).length by {
        assert(lex_bounded(c[k]));
    }
    lemma_sum_len_take(c, c.len() as int);
    assert(c.take(c.len() as int) =~= c);
}

/// The arbitrator's choice for a component wins on IK's criteria taken in
/// order, against every selection of the component's lexemes that forms a
/// chain: no selection covers more chars; none covering as many has fewer
/// lexemes; and none covering as many with as many lexemes has a larger sum
/// of kind priorities.
pub proof fn lemma_best_of_criteria(comp: Seq<Lexeme>, idx: Seq<int>)
    requires
        comp.len() > 0,
        forall|t: int| 0 <= t < comp.len() ==> lex_bounded(#[trigger] comp[t]),
        picks_chain(comp, Seq::empty(), 0, idx),
        is_chain(pick(comp, idx)),
    ensures
        sum_len(pick(comp, idx)) <= sum_len(best_of(comp)),
        sum_len(pick(comp, idx)) == sum_len(best_of(comp)) && idx.len() > 0 ==> best_of(comp).len() <= idx.len(),
        sum_len(pick(comp, idx)) == sum_len(best_of(comp)) && idx.len() == best_of(comp).len() ==> prio_sum(pick(comp, idx))
            <= prio_sum(best_of(comp)),
{
    let c = pick(comp, idx);
    let b = best_of(comp);
    lemma_best_of_optimal(comp, idx);
    lemma_best_chain(comp);
    lemma_sum_len_nonneg(b);
    if c.len() > 0 {
        lemma_chain_bounds(c);
    }
    if b.len() > 0 {
        lemma_chain_bounds(b);
    }
    if c.len() > 0 && b.len() == 0 {
        assert(better_spec(score_spec(c), score_spec(b)));
    }
    if c.len() == 0 {
        assert(sum_len(c) == 0);
    }
}

} // verus!

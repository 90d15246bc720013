//! IK arbitrator — given a candidate lexeme set with overlaps, pick the best
//! non-overlapping subset (`ik_smart` mode).
//!
//! Scoring (each criterion is "more is better", evaluated left-to-right):
//! 1. Number of chars covered.
//! 2. Inverse lexeme count (fewer lexemes wins).
//! 3. Average lexeme length.
//! 4. Sum of kind priorities.
use vstd::prelude::*;

use crate::char_util::CharKind;
use crate::lexeme::{
    lex_end, priority_spec, sort_dedup, sorted_of, strictly_sorted, Lexeme, LexemeKind,
};

verus! {

#[derive(Debug, Clone, Copy)]
pub struct Score {
    pub covered: usize,
    pub neg_count: i128,
    pub avg_len_x_100: i128,
    pub priority_sum: i128,
}

pub open spec fn worst_spec() -> Score {
    Score { covered: 0, neg_count: i128::MIN, avg_len_x_100: 0, priority_sum: 0 }
}

fn worst() -> (s: Score)
    ensures
        s == worst_spec(),
{
    Score { covered: 0, neg_count: i128::MIN, avg_len_x_100: 0, priority_sum: 0 }
}

/// Total length of the lexemes of `c`.
pub open spec fn sum_len(c: Seq<Lexeme>) -> int
    decreases c.len(),
{
    if c.len() == 0 {
        0
    } else {
        sum_len(c.drop_last()) + c.last().length
    }
}

/// Sum of the kind priorities of the lexemes of `c`.
pub open spec fn prio_sum(c: Seq<Lexeme>) -> int
    decreases c.len(),
{
    if c.len() == 0 {
        0
    } else {
        prio_sum(c.drop_last()) + priority_spec(c.last().kind)
    }
}

pub open spec fn score_spec(c: Seq<Lexeme>) -> Score {
    if c.len() == 0 {
        worst_spec()
    } else {
        Score {
            covered: sum_len(c) as usize,
            neg_count: (-c.len()) as i128,
            avg_len_x_100: (sum_len(c) * 100 / c.len() as int) as i128,
            priority_sum: prio_sum(c) as i128,
        }
    }
}

pub open spec fn better_spec(a: Score, b: Score) -> bool {
    if a.covered != b.covered {
        a.covered > b.covered
    } else if a.neg_count != b.neg_count {
        a.neg_count > b.neg_count
    } else if a.avg_len_x_100 != b.avg_len_x_100 {
        a.avg_len_x_100 > b.avg_len_x_100
    } else {
        a.priority_sum > b.priority_sum
    }
}

impl Score {
    fn better(&self, other: &Self) -> (r: bool)
        ensures
            r == better_spec(*self, *other),
    {
        if self.covered != other.covered {
            return self.covered > other.covered;
        }
        if self.neg_count != other.neg_count {
            return self.neg_count > other.neg_count;
        }
        if self.avg_len_x_100 != other.avg_len_x_100 {
            return self.avg_len_x_100 > other.avg_len_x_100;
        }
        self.priority_sum > other.priority_sum
    }
}

/// Lexemes that the arbitrator takes: non-empty char ranges whose end is a
/// `usize`.
pub open spec fn lex_bounded(l: Lexeme) -> bool {
    1 <= l.length && lex_end(l) <= usize::MAX
}

/// A chain: bounded lexemes, each starting at or after the end of every
/// earlier one.
pub open spec fn is_chain(c: Seq<Lexeme>) -> bool {
    &&& forall|i: int| 0 <= i < c.len() ==> lex_bounded(#[trigger] c[i])
    &&& forall|i: int, j: int| 0 <= i < j < c.len() ==> lex_end(#[trigger] c[i]) <= (#[trigger] c[j]).begin
}

pub open spec fn compatible(chosen: Seq<Lexeme>, l: Lexeme) -> bool {
    chosen.len() == 0 || l.begin >= lex_end(chosen.last())
}

pub open spec fn update_best(st: (Seq<Lexeme>, Score), c: Seq<Lexeme>) -> (Seq<Lexeme>, Score) {
    if better_spec(score_spec(c), st.1) {
        (c, score_spec(c))
    } else {
        st
    }
}

/// The depth-first enumeration of every chain extending `chosen` with
/// lexemes of `comp` taken at increasing indices from `start`, keeping the
/// first strictly best-scoring chain seen (starting from state `st`).
pub open spec fn dfs_spec(comp: Seq<Lexeme>, chosen: Seq<Lexeme>, start: int, st: (
    Seq<Lexeme>,
    Score,
)) -> (Seq<Lexeme>, Score)
    decreases comp.len() - start, 1int,
{
    dfs_loop_spec(comp, chosen, start, update_best(st, chosen))
}

pub open spec fn dfs_loop_spec(comp: Seq<Lexeme>, chosen: Seq<Lexeme>, k: int, st: (
    Seq<Lexeme>,
    Score,
)) -> (Seq<Lexeme>, Score)
    decreases comp.len() - k, 0int,
{
    if k >= comp.len() || k < 0 {
        st
    } else {
        dfs_loop_spec(
            comp,
            chosen,
            k + 1,
            if compatible(chosen, comp[k]) {
                dfs_spec(comp, chosen.push(comp[k]), k + 1, st)
            } else {
                st
            },
        )
    }
}

pub(crate) proof fn lemma_sum_len_take(c: Seq<Lexeme>, i: int)
    requires
        0 <= i <= c.len(),
        forall|k: int| 0 <= k < c.len() ==> 1 <= (#[trigger] c[k]).length,
    ensures
        i <= sum_len(c.take(i)) <= sum_len(c),
        prio_sum(c.take(i)) <= 64 * i,
        prio_sum(c.take(i)) >= 0,
{
    lemma_sum_len_low(c, i);
    lemma_sum_len_mono(c, i);
}

proof fn lemma_sum_len_low(c: Seq<Lexeme>, i: int)
    requires
        0 <= i <= c.len(),
        forall|k: int| 0 <= k < c.len() ==> 1 <= (#[trigger] c[k]).length,
    ensures
        i <= sum_len(c.take(i)),
        0 <= prio_sum(c.take(i)) <= 64 * i,
    decreases i,
{
    if i > 0 {
        lemma_sum_len_low(c, i - 1);
        assert(c.take(i).drop_last() =~= c.take(i - 1));
        assert(c.take(i).last() == c[i - 1]);
    }
}

proof fn lemma_sum_len_mono(c: Seq<Lexeme>, i: int)
    requires
        0 <= i <= c.len(),
    ensures
        sum_len(c.take(i)) <= sum_len(c),
    decreases c.len() - i,
{
    if i < c.len() {
        lemma_sum_len_mono(c, i + 1);
        assert(c.take(i + 1).drop_last() =~= c.take(i));
    } else {
        assert(c.take(i) =~= c);
    }
}

/// The lengths of a non-empty chain sum to at most the end of its last
/// lexeme.
pub(crate) proof fn lemma_chain_sum(c: Seq<Lexeme>)
    requires
        is_chain(c),
        c.len() > 0,
    ensures
        sum_len(c) <= lex_end(c.last()),
    decreases c.len(),
{
    let d = c.drop_last();
    if d.len() > 0 {
        assert forall|i: int, j: int| 0 <= i < j < d.len() implies lex_end(#[trigger] d[i]) <= (
        #[trigger] d[j]).begin by {
            assert(d[i] == c[i] && d[j] == c[j]);
        }
        assert forall|i: int| 0 <= i < d.len() implies lex_bounded(#[trigger] d[i]) by {
            assert(d[i] == c[i]);
        }
        lemma_chain_sum(d);
        assert(d.last() == c[c.len() - 2]);
        assert(lex_end(c[c.len() - 2]) <= c[c.len() - 1].begin);
    }
    assert(sum_len(c) == sum_len(d) + c.last().length);
    assert(lex_bounded(c[c.len() - 1]));
}

fn score(chosen: &Vec<Lexeme>) -> (s: Score)
    requires
        is_chain(chosen@),
    ensures
        s == score_spec(chosen@),
{
    if chosen.len() == 0 {
        return worst();
    }
    proof {
        lemma_chain_sum(chosen@);
        assert(lex_bounded(chosen@[chosen@.len() - 1]));
    }
    let mut covered: usize = 0;
    let mut psum: i128 = 0;
    let mut i: usize = 0;
    while i < chosen.len()
        invariant
            is_chain(chosen@),
            sum_len(chosen@) <= usize::MAX,
            i <= chosen@.len(),
            covered == sum_len(chosen@.take(i as int)),
            psum == prio_sum(chosen@.take(i as int)),
        decreases chosen@.len() - i,
    {
        proof {
            assert forall|k: int| 0 <= k < chosen@.len() implies 1 <= (#[trigger] chosen@[k]).length by {
                assert(lex_bounded(chosen@[k]));
            }
            lemma_sum_len_take(chosen@, i as int + 1);
            assert(chosen@.take(i as int + 1).drop_last() =~= chosen@.take(i as int));
        }
        covered = covered + chosen[i].length;
        psum = psum + chosen[i].kind.priority() as i128;
        i = i + 1;
    }
    proof {
        assert(chosen@.take(i as int) =~= chosen@);
        assert forall|k: int| 0 <= k < chosen@.len() implies 1 <= (#[trigger] chosen@[k]).length by {
            assert(lex_bounded(chosen@[k]));
        }
        lemma_sum_len_take(chosen@, chosen@.len() as int);
    }
    let count = chosen.len() as i128;
    let avg = (covered as i128 * 100) / count;
    Score { covered, neg_count: -count, avg_len_x_100: avg, priority_sum: psum }
}

fn copy_lexemes(v: &Vec<Lexeme>) -> (r: Vec<Lexeme>)
    ensures
        r@ == v@,
{
    let mut r: Vec<Lexeme> = Vec::new();
    let mut i: usize = 0;
    while i < v.len()
        invariant
            i <= v@.len(),
            r@ == v@.take(i as int),
        decreases v@.len() - i,
    {
        r.push(v[i]);
        i = i + 1;
        proof {
            assert(r@ =~= v@.take(i as int));
        }
    }
    proof {
        assert(v@.take(i as int) =~= v@);
    }
    r
}

fn dfs(
    component: &Vec<Lexeme>,
    start_idx: usize,
    chosen: &mut Vec<Lexeme>,
    best: &mut Vec<Lexeme>,
    best_score: &mut Score,
)
    requires
        forall|i: int| 0 <= i < component@.len() ==> lex_bounded(#[trigger] component@[i]),
        is_chain(old(chosen)@),
        start_idx <= component@.len(),
    ensures
        final(chosen)@ == old(chosen)@,
        (final(best)@, *final(best_score)) == dfs_spec(
            component@,
            old(chosen)@,
            start_idx as int,
            (old(best)@, *old(best_score)),
        ),
    decreases component@.len() - start_idx,
{
    let ghost c0 = chosen@;
    let cur_score = score(chosen);
    if cur_score.better(best_score) {
        *best_score = cur_score;
        *best = copy_lexemes(chosen);
    }
    let ghost st0 = (best@, *best_score);
    assert(st0 == update_best((old(best)@, *old(best_score)), c0));
    let mut k = start_idx;
    while k < component.len()
        invariant
            forall|i: int| 0 <= i < component@.len() ==> lex_bounded(#[trigger] component@[i]),
            is_chain(c0),
            chosen@ == c0,
            start_idx <= k <= component@.len(),
            dfs_loop_spec(component@, c0, k as int, (best@, *best_score)) == dfs_loop_spec(
                component@,
                c0,
                start_idx as int,
                st0,
            ),
        decreases component@.len() - k,
    {
        let lex = component[k];
        let compatible = chosen.len() == 0 || lex.begin >= chosen[chosen.len() - 1].begin
            + chosen[chosen.len() - 1].length;
        if compatible {
            chosen.push(lex);
            proof {
                assert(lex_bounded(component@[k as int]));
                let c1 = chosen@;
                assert(c1 == c0.push(lex));
                assert forall|i: int| 0 <= i < c1.len() implies lex_bounded(#[trigger] c1[i]) by {
                    if i < c0.len() {
                        assert(c1[i] == c0[i]);
                    }
                }
                assert forall|i: int, j: int| 0 <= i < j < c1.len() implies lex_end(
                    #[trigger] c1[i],
                ) <= (#[trigger] c1[j]).begin by {
                    if j < c0.len() {
                        assert(c1[i] == c0[i] && c1[j] == c0[j]);
                    } else if i < c0.len() - 1 {
                        assert(c1[i] == c0[i]);
                        assert(lex_end(c0[i]) <= c0[c0.len() - 1].begin);
                        assert(c0[c0.len() - 1] == c0.last());
                    } else {
                        assert(c1[i] == c0.last());
                    }
                }
            }
            dfs(component, k + 1, chosen, best, best_score);
            chosen.pop();
            proof {
                assert(chosen@ =~= c0);
            }
        }
        k = k + 1;
    }
}

/// The index just past the connected component (cross path) that contains
/// `s[j - 1]`, where `end` is the furthest end seen so far.
pub open spec fn comp_end(s: Seq<Lexeme>, j: int, end: int) -> int
    decreases s.len() - j,
{
    if 0 <= j < s.len() && s[j].begin < end {
        comp_end(s, j + 1, if lex_end(s[j]) > end {
            lex_end(s[j])
        } else {
            end
        })
    } else {
        j
    }
}

/// The lexemes the arbitrator keeps for one component.
pub open spec fn best_of(comp: Seq<Lexeme>) -> Seq<Lexeme> {
    if comp.len() == 1 {
        comp
    } else {
        dfs_spec(comp, Seq::empty(), 0, (Seq::empty(), worst_spec())).0
    }
}

/// Arbitration of the sorted lexemes `s[i..]`, component by component.
pub open spec fn arb_from(s: Seq<Lexeme>, i: int) -> Seq<Lexeme>
    decreases s.len() - i,
{
    if i < 0 || i >= s.len() {
        Seq::empty()
    } else {
        let j = comp_end(s, i + 1, lex_end(s[i]));
        if j <= i || j > s.len() {
            Seq::empty()
        } else {
            best_of(s.subrange(i, j)) + arb_from(s, j)
        }
    }
}

pub(crate) proof fn lemma_comp_end(s: Seq<Lexeme>, j: int, end: int)
    requires
        0 <= j,
    ensures
        j <= comp_end(s, j, end),
        comp_end(s, j, end) <= s.len() || comp_end(s, j, end) == j,
    decreases s.len() - j,
{
    if 0 <= j < s.len() && s[j].begin < end {
        lemma_comp_end(s, j + 1, if lex_end(s[j]) > end {
            lex_end(s[j])
        } else {
            end
        });
    }
}

/// Pick a non-overlapping subset of lexemes that maximizes IK's smart-mode
/// scoring. `lexemes` may be in any order; they are sorted (by `begin`
/// ascending, then `length` descending, then kind priority ascending: the
/// order that `sort_key` packs), deduplicated, split into connected
/// components, and each component is replaced by its best chain, so the
/// result is sorted by `begin`. `total_chars` is not used.
///
/// The lexemes are non-empty, and each ends at a `usize` (`Lexeme::end`
/// computes that end). The score sums lengths, counts and priorities in
/// `i128`, where they are exact.
pub fn arbitrate(lexemes: Vec<Lexeme>, total_chars: usize) -> (r: Vec<Lexeme>)
    requires
        forall|i: int| 0 <= i < lexemes@.len() ==> lex_bounded(#[trigger] lexemes@[i]),
    ensures
        r@ == arb_from(sorted_of(lexemes@, true), 0),
{
    if lexemes.len() == 0 {
        proof {
            assert(sorted_of(lexemes@, true) =~= Seq::<Lexeme>::empty()) by {
                let w = sorted_of(lexemes@, true);
                assert(strictly_sorted(Seq::<Lexeme>::empty(), true));
                if w.len() > 0 {
                    assert(w.contains(w[0]));
                }
            }
        }
        return lexemes;
    }
    let sorted = sort_dedup(&lexemes, true);
    let ghost s = sorted@;
    proof {
        assert forall|i: int| 0 <= i < s.len() implies lex_bounded(#[trigger] s[i]) by {
            assert(s.contains(s[i]));
            let k = choose|k: int| 0 <= k < lexemes@.len() && lexemes@[k] == s[i];
        }
    }
    let mut result: Vec<Lexeme> = Vec::new();
    let mut i: usize = 0;
    while i < sorted.len()
        invariant
            s == sorted@,
            forall|k: int| 0 <= k < s.len() ==> lex_bounded(#[trigger] s[k]),
            i <= s.len(),
            result@ + arb_from(s, i as int) == arb_from(s, 0),
        decreases s.len() - i,
    {
        assert(lex_bounded(s[i as int]));
        let mut end = sorted[i].begin + sorted[i].length;
        let mut j = i + 1;
        while j < sorted.len() && sorted[j].begin < end
            invariant
                s == sorted@,
                forall|k: int| 0 <= k < s.len() ==> lex_bounded(#[trigger] s[k]),
                i < j <= s.len(),
                end <= usize::MAX,
                comp_end(s, j as int, end as int) == comp_end(s, i as int + 1, lex_end(s[i as int])),
            decreases s.len() - j,
        {
            assert(lex_bounded(s[j as int]));
            let e = sorted[j].begin + sorted[j].length;
            if e > end {
                end = e;
            }
            j = j + 1;
        }
        let ghost jj = comp_end(s, i as int + 1, lex_end(s[i as int]));
        assert(jj == j);
        let mut component: Vec<Lexeme> = Vec::new();
        let mut t = i;
        while t < j
            invariant
                s == sorted@,
                i <= t <= j <= s.len(),
                component@ == s.subrange(i as int, t as int),
            decreases j - t,
        {
            component.push(sorted[t]);
            t = t + 1;
            proof {
                assert(component@ =~= s.subrange(i as int, t as int));
            }
        }
        let ghost comp = component@;
        proof {
            assert forall|k: int| 0 <= k < comp.len() implies lex_bounded(#[trigger] comp[k]) by {
                assert(comp[k] == s[i + k]);
            }
        }
        if component.len() == 1 {
            result.push(component[0]);
            proof {
                assert(comp =~= seq![comp[0]]);
            }
        } else {
            let mut best: Vec<Lexeme> = Vec::new();
            let mut best_score = worst();
            let mut chosen: Vec<Lexeme> = Vec::new();
            proof {
                assert(is_chain(chosen@));
                assert(chosen@ =~= Seq::<Lexeme>::empty());
                assert(best@ =~= Seq::<Lexeme>::empty());
            }
            dfs(&component, 0, &mut chosen, &mut best, &mut best_score);
            let mut t2: usize = 0;
            let ghost r0 = result@;
            while t2 < best.len()
                invariant
                    t2 <= best@.len(),
                    result@ == r0 + best@.take(t2 as int),
                decreases best@.len() - t2,
            {
                result.push(best[t2]);
                t2 = t2 + 1;
                proof {
                    assert(result@ =~= r0 + best@.take(t2 as int));
                }
            }
            proof {
                assert(best@.take(t2 as int) =~= best@);
            }
        }
        proof {
            assert(arb_from(s, i as int) == best_of(comp) + arb_from(s, j as int));
            assert(result@ + arb_from(s, j as int) =~= arb_from(s, 0));
        }
        i = j;
    }
    proof {
        assert(result@ + arb_from(s, i as int) =~= result@);
    }
    result
}


pub open spec fn ends_fit(s: Seq<Lexeme>) -> bool {
    forall|i: int| 0 <= i < s.len() ==> lex_end(#[trigger] s[i]) <= usize::MAX
}

/// Smart-mode quantifier fusion of `s[i..]`: an adjacent `CnNum` followed
/// by a `Count` that starts where the number ends becomes one `CnQuan`.
pub open spec fn fuse_from(s: Seq<Lexeme>, i: int) -> Seq<Lexeme>
    decreases s.len() - i,
{
    if i < 0 || i >= s.len() {
        Seq::empty()
    } else if i + 1 < s.len() && s[i].kind == LexemeKind::CnNum && s[i + 1].kind
        == LexemeKind::Count && lex_end(s[i]) == s[i + 1].begin {
        seq![
            Lexeme {
                begin: s[i].begin,
                length: (s[i].length + s[i + 1].length) as usize,
                kind: LexemeKind::CnQuan,
            },
        ] + fuse_from(s, i + 2)
    } else {
        seq![s[i]] + fuse_from(s, i + 1)
    }
}

/// Smart-mode post-processing: fuse adjacent `CnNum` + `Count` into `CnQuan`.
pub fn fuse_quantifiers(lexemes: &mut Vec<Lexeme>)
    requires
        ends_fit(old(lexemes)@),
    ensures
        final(lexemes)@ == fuse_from(old(lexemes)@, 0),
{
    let ghost s = lexemes@;
    if lexemes.len() < 2 {
        proof {
            if s.len() == 1 {
                assert(fuse_from(s, 1) =~= Seq::<Lexeme>::empty());
                assert(fuse_from(s, 0) =~= seq![s[0]]);
            } else {
                assert(fuse_from(s, 0) =~= Seq::<Lexeme>::empty());
            }
        }
        return ;
    }
    let mut out: Vec<Lexeme> = Vec::new();
    let mut i: usize = 0;
    while i < lexemes.len()
        invariant
            s == lexemes@,
            ends_fit(s),
            i <= s.len() + 1,
            out@ + fuse_from(s, i as int) == fuse_from(s, 0),
        decreases s.len() + 1 - i,
    {
        assert(lex_end(s[i as int]) <= usize::MAX);
        if i + 1 < lexemes.len() && lexemes[i].kind == LexemeKind::CnNum && lexemes[i + 1].kind
            == LexemeKind::Count && lexemes[i].begin + lexemes[i].length == lexemes[i + 1].begin {
            assert(lex_end(s[i + 1]) <= usize::MAX);
            out.push(
                Lexeme {
                    begin: lexemes[i].begin,
                    length: lexemes[i].length + lexemes[i + 1].length,
                    kind: LexemeKind::CnQuan,
                },
            );
            proof {
                assert(out@ + fuse_from(s, i + 2) =~= fuse_from(s, 0));
            }
            i = i + 2;
        } else {
            out.push(lexemes[i]);
            proof {
                assert(out@ + fuse_from(s, i + 1) =~= fuse_from(s, 0));
            }
            i = i + 1;
        }
    }
    proof {
        assert(fuse_from(s, i as int) =~= Seq::<Lexeme>::empty());
        assert(out@ =~= fuse_from(s, 0));
    }
    *lexemes = out;
}

/// The lexemes of `s` of kind `k`, in order.
pub open spec fn of_kind(s: Seq<Lexeme>, k: LexemeKind) -> Seq<Lexeme>
    decreases s.len(),
{
    if s.len() == 0 {
        Seq::empty()
    } else {
        of_kind(s.drop_last(), k) + if s.last().kind == k {
            seq![s.last()]
        } else {
            Seq::empty()
        }
    }
}

/// The `CnQuan` fusions of number `n` with every count of `counts` that
/// starts where `n` ends, in the order of `counts`.
pub open spec fn fusions_of(n: Lexeme, counts: Seq<Lexeme>) -> Seq<Lexeme>
    decreases counts.len(),
{
    if counts.len() == 0 {
        Seq::empty()
    } else {
        fusions_of(n, counts.drop_last()) + if counts.last().begin == lex_end(n) {
            seq![
                Lexeme {
                    begin: n.begin,
                    length: (n.length + counts.last().length) as usize,
                    kind: LexemeKind::CnQuan,
                },
            ]
        } else {
            Seq::empty()
        }
    }
}

pub open spec fn all_fusions(nums: Seq<Lexeme>, counts: Seq<Lexeme>) -> Seq<Lexeme>
    decreases nums.len(),
{
    if nums.len() == 0 {
        Seq::empty()
    } else {
        all_fusions(nums.drop_last(), counts) + fusions_of(nums.last(), counts)
    }
}

/// Every `CnQuan` fusion that the lexemes of `s` allow, numbers in order and
/// for each number the counts in order.
pub open spec fn fusions_spec(s: Seq<Lexeme>) -> Seq<Lexeme> {
    all_fusions(of_kind(s, LexemeKind::CnNum), of_kind(s, LexemeKind::Count))
}

pub(crate) proof fn lemma_of_kind_elems(s: Seq<Lexeme>, k: LexemeKind)
    ensures
        forall|i: int| 0 <= i < of_kind(s, k).len() ==> s.contains(#[trigger] of_kind(s, k)[i]) && of_kind(s, k)[i].kind == k,
        of_kind(s, k).len() <= s.len(),
    decreases s.len(),
{
    if s.len() > 0 {
        lemma_of_kind_elems(s.drop_last(), k);
        let a = of_kind(s.drop_last(), k);
        assert forall|i: int| 0 <= i < of_kind(s, k).len() implies s.contains(#[trigger] of_kind(s, k)[i]) && of_kind(s, k)[i].kind == k by {
            if i < a.len() {
                assert(of_kind(s, k)[i] == a[i]);
                assert(s.drop_last().contains(a[i]));
                let t = choose|t: int| 0 <= t < s.drop_last().len() && s.drop_last()[t] == a[i];
                assert(s[t] == a[i]);
            } else {
                assert(of_kind(s, k)[i] == s.last());
                assert(s[s.len() - 1] == s.last());
            }
        }
    }
}

proof fn lemma_all_fusions_empty_counts(nums: Seq<Lexeme>, counts: Seq<Lexeme>)
    requires
        counts.len() == 0,
    ensures
        all_fusions(nums, counts) =~= Seq::<Lexeme>::empty(),
    decreases nums.len(),
{
    if nums.len() > 0 {
        lemma_all_fusions_empty_counts(nums.drop_last(), counts);
    }
}

/// MaxWord-mode counterpart of `fuse_quantifiers`: append a `CnQuan` for
/// every `CnNum` + `Count` pair that meet, keeping the constituents.
pub fn emit_quantifier_fusions(lexemes: &mut Vec<Lexeme>)
    requires
        ends_fit(old(lexemes)@),
    ensures
        final(lexemes)@ == old(lexemes)@ + fusions_spec(old(lexemes)@),
{
    let ghost s = lexemes@;
    let ghost nums_s = of_kind(s, LexemeKind::CnNum);
    let ghost counts_s = of_kind(s, LexemeKind::Count);
    proof {
        lemma_of_kind_elems(s, LexemeKind::CnNum);
        lemma_of_kind_elems(s, LexemeKind::Count);
    }
    if lexemes.len() < 2 {
        proof {
            if s.len() == 1 {
                assert(s.drop_last() =~= Seq::<Lexeme>::empty());
                assert(of_kind(s.drop_last(), LexemeKind::Count) =~= Seq::<Lexeme>::empty());
                if s[0].kind == LexemeKind::CnNum {
                    assert(counts_s =~= Seq::<Lexeme>::empty());
                    lemma_all_fusions_empty_counts(nums_s, counts_s);
                } else {
                    assert(of_kind(s.drop_last(), LexemeKind::CnNum) =~= Seq::<Lexeme>::empty());
                    assert(nums_s =~= Seq::<Lexeme>::empty());
                }
            } else {
                assert(nums_s =~= Seq::<Lexeme>::empty());
            }
            assert(fusions_spec(s) =~= Seq::<Lexeme>::empty());
            assert(lexemes@ =~= s + fusions_spec(s));
        }
        return ;
    }
    let mut nums: Vec<(usize, usize)> = Vec::new();
    let mut counts: Vec<(usize, usize)> = Vec::new();
    let mut i: usize = 0;
    while i < lexemes.len()
        invariant
            s == lexemes@,
            i <= s.len(),
            nums@.len() == of_kind(s.take(i as int), LexemeKind::CnNum).len(),
            counts@.len() == of_kind(s.take(i as int), LexemeKind::Count).len(),
            forall|t: int| 0 <= t < nums@.len() ==> #[trigger] nums@[t] == (of_kind(s.take(i as int), LexemeKind::CnNum)[t].begin, of_kind(s.take(i as int), LexemeKind::CnNum)[t].length),
            forall|t: int| 0 <= t < counts@.len() ==> #[trigger] counts@[t] == (of_kind(s.take(i as int), LexemeKind::Count)[t].begin, of_kind(s.take(i as int), LexemeKind::Count)[t].length),
        decreases s.len() - i,
    {
        proof {
            assert(s.take(i + 1).drop_last() =~= s.take(i as int));
        }
        let lex = lexemes[i];
        match lex.kind {
            LexemeKind::CnNum => nums.push((lex.begin, lex.length)),
            LexemeKind::Count => counts.push((lex.begin, lex.length)),
            _ => {},
        }
        i = i + 1;
    }
    proof {
        assert(s.take(i as int) =~= s);
    }
    if nums.len() == 0 || counts.len() == 0 {
        proof {
            if nums.len() == 0 {
                assert(nums_s =~= Seq::<Lexeme>::empty());
            } else {
                lemma_all_fusions_empty_counts(nums_s, counts_s);
            }
            assert(lexemes@ =~= s + fusions_spec(s));
        }
        return ;
    }
    let mut a: usize = 0;
    while a < nums.len()
        invariant
            s == old(lexemes)@,
            ends_fit(s),
            nums_s == of_kind(s, LexemeKind::CnNum),
            counts_s == of_kind(s, LexemeKind::Count),
            forall|t: int| 0 <= t < nums_s.len() ==> s.contains(#[trigger] nums_s[t]) && nums_s[t].kind == LexemeKind::CnNum,
            forall|t: int| 0 <= t < counts_s.len() ==> s.contains(#[trigger] counts_s[t]) && counts_s[t].kind == LexemeKind::Count,
            nums@.len() == nums_s.len(),
            counts@.len() == counts_s.len(),
            forall|t: int| 0 <= t < nums@.len() ==> #[trigger] nums@[t] == (nums_s[t].begin, nums_s[t].length),
            forall|t: int| 0 <= t < counts@.len() ==> #[trigger] counts@[t] == (counts_s[t].begin, counts_s[t].length),
            a <= nums@.len(),
            lexemes@ == s + all_fusions(nums_s.take(a as int), counts_s),
        decreases nums@.len() - a,
    {
        let (nb, nl) = nums[a];
        let ghost n = nums_s[a as int];
        assert(s.contains(n));
        assert(lex_end(n) <= usize::MAX);
        let join_at = nb + nl;
        let mut b: usize = 0;
        let ghost base = lexemes@;
        while b < counts.len()
            invariant
                s == old(lexemes)@,
                ends_fit(s),
                counts_s == of_kind(s, LexemeKind::Count),
                forall|t: int| 0 <= t < counts_s.len() ==> s.contains(#[trigger] counts_s[t]) && counts_s[t].kind == LexemeKind::Count,
                counts@.len() == counts_s.len(),
                forall|t: int| 0 <= t < counts@.len() ==> #[trigger] counts@[t] == (counts_s[t].begin, counts_s[t].length),
                n.begin == nb && n.length == nl && join_at == lex_end(n),
                b <= counts@.len(),
                lexemes@ == base + fusions_of(n, counts_s.take(b as int)),
            decreases counts@.len() - b,
        {
            let (cb, cl) = counts[b];
            proof {
                assert(counts_s.take(b + 1).drop_last() =~= counts_s.take(b as int));
                assert(s.contains(counts_s[b as int]));
                let t = choose|t: int| 0 <= t < s.len() && s[t] == counts_s[b as int];
                assert(lex_end(s[t]) <= usize::MAX);
            }
            if cb == join_at {
                lexemes.push(Lexeme { begin: nb, length: nl + cl, kind: LexemeKind::CnQuan });
            }
            b = b + 1;
            proof {
                assert(lexemes@ =~= base + fusions_of(n, counts_s.take(b as int)));
            }
        }
        proof {
            assert(counts_s.take(b as int) =~= counts_s);
            assert(nums_s.take(a + 1).drop_last() =~= nums_s.take(a as int));
            assert(nums_s.take(a + 1).last() == n);
        }
        a = a + 1;
        proof {
            assert(lexemes@ =~= s + all_fusions(nums_s.take(a as int), counts_s));
        }
    }
    proof {
        assert(nums_s.take(a as int) =~= nums_s);
    }
}

/// Some lexeme of `s` covers char index `k`.
pub open spec fn covered_by(s: Seq<Lexeme>, k: int) -> bool {
    exists|t: int| 0 <= t < s.len() && (#[trigger] s[t]).begin <= k < lex_end(s[t])
}

/// A `CnChar` for every char among the first `n` that is Chinese and not
/// covered by `s`, ascending.
pub open spec fn uncovered_chars(s: Seq<Lexeme>, kinds: Seq<CharKind>, n: int) -> Seq<Lexeme>
    decreases n,
{
    if n <= 0 {
        Seq::empty()
    } else {
        uncovered_chars(s, kinds, n - 1) + if !covered_by(s, n - 1) && kinds[n - 1]
            == CharKind::Chinese {
            seq![Lexeme { begin: (n - 1) as usize, length: 1, kind: LexemeKind::CnChar }]
        } else {
            Seq::empty()
        }
    }
}

/// Mark the chars of `kinds` covered by some lexeme of `lexemes`.
pub fn covered_mask(lexemes: &Vec<Lexeme>, n: usize) -> (covered: Vec<bool>)
    requires
        ends_fit(lexemes@),
    ensures
        covered@.len() == n,
        forall|k: int| 0 <= k < n ==> #[trigger] covered@[k] == covered_by(lexemes@, k),
{
    let ghost s = lexemes@;
    let mut covered: Vec<bool> = vec![false; n];
    let mut t: usize = 0;
    while t < lexemes.len()
        invariant
            s == lexemes@,
            ends_fit(s),
            t <= s.len(),
            covered@.len() == n,
            forall|k: int| 0 <= k < n ==> #[trigger] covered@[k] == covered_by(s.take(t as int), k),
        decreases s.len() - t,
    {
        let lex = lexemes[t];
        assert(lex_end(s[t as int]) <= usize::MAX);
        let end = lex.begin + lex.length;
        let stop = if end < n {
            end
        } else {
            n
        };
        let mut k = lex.begin;
        let ghost before = covered@;
        while k < stop
            invariant
                covered@.len() == n,
                stop <= n,
                lex.begin <= k,
                k <= stop || k == lex.begin,
                forall|q: int| 0 <= q < n ==> #[trigger] covered@[q] == (before[q] || (lex.begin <= q < k && q < stop)),
            decreases stop - k,
        {
            covered.set(k, true);
            proof {
                assert forall|q: int| 0 <= q < n implies #[trigger] covered@[q] == (before[q] || (lex.begin <= q < k + 1 && q < stop)) by {
                    if q == k {
                    }
                }
            }
            k = k + 1;
        }
        proof {
            assert forall|q: int| 0 <= q < n implies #[trigger] covered@[q] == covered_by(s.take(t + 1), q) by {
                let st = s.take(t as int);
                let st1 = s.take(t + 1);
                if covered_by(st, q) {
                    let w = choose|w: int| 0 <= w < st.len() && (#[trigger] st[w]).begin <= q < lex_end(st[w]);
                    assert(st1[w] == st[w]);
                }
                if covered_by(st1, q) {
                    let w = choose|w: int| 0 <= w < st1.len() && (#[trigger] st1[w]).begin <= q < lex_end(st1[w]);
                    if w < t {
                        assert(st[w] == st1[w]);
                    } else {
                        assert(st1[w] == lex);
                    }
                }
                if lex.begin <= q < lex_end(lex) {
                    assert(st1[t as int] == lex);
                }
            }
        }
        t = t + 1;
    }
    proof {
        assert(s.take(t as int) =~= s);
    }
    covered
}

/// Emit any single Chinese char that no other lexeme covers, as a `CnChar`
/// lexeme.
pub fn add_uncovered_chars(lexemes: &mut Vec<Lexeme>, kinds: &Vec<CharKind>)
    requires
        ends_fit(old(lexemes)@),
    ensures
        final(lexemes)@ == old(lexemes)@ + uncovered_chars(old(lexemes)@, kinds@, kinds@.len() as int),
{
    let ghost s = lexemes@;
    let n = kinds.len();
    let covered = covered_mask(lexemes, n);
    let mut i: usize = 0;
    while i < n
        invariant
            n == kinds@.len(),
            covered@.len() == n,
            forall|k: int| 0 <= k < n ==> #[trigger] covered@[k] == covered_by(s, k),
            i <= n,
            lexemes@ == s + uncovered_chars(s, kinds@, i as int),
        decreases n - i,
    {
        if !covered[i] && kinds[i] == CharKind::Chinese {
            lexemes.push(Lexeme { begin: i, length: 1, kind: LexemeKind::CnChar });
        }
        i = i + 1;
        proof {
            assert(lexemes@ =~= s + uncovered_chars(s, kinds@, i as int));
        }
    }
}

/// The lexemes of `s` sorted by (`begin` ascending, `length` descending,
/// priority ascending) without duplicates; fewer than two lexemes are left
/// as they are. Every lexeme is kept, wherever it begins.
pub open spec fn bucket_sorted_spec(s: Seq<Lexeme>, total: int) -> Seq<Lexeme> {
    if s.len() < 2 {
        s
    } else {
        sorted_of(s, true)
    }
}

/// The bucket of a lexeme in the counting sort over `total + 1` buckets:
/// its `begin`, or the last bucket for a `begin` at or past `total`.
spec fn bucket_key(l: Lexeme, total: int) -> int {
    if l.begin < total {
        l.begin as int
    } else {
        total
    }
}

/// The lexemes of `s` in bucket `b`, in order.
spec fn keyed(s: Seq<Lexeme>, b: int, total: int) -> Seq<Lexeme>
    decreases s.len(),
{
    if s.len() == 0 {
        Seq::empty()
    } else {
        keyed(s.drop_last(), b, total) + if bucket_key(s.last(), total) == b {
            seq![s.last()]
        } else {
            Seq::empty()
        }
    }
}

/// How many lexemes of `s` fall in buckets below `b`.
spec fn keyed_before(s: Seq<Lexeme>, b: int, total: int) -> int
    decreases b,
{
    if b <= 0 {
        0
    } else {
        keyed_before(s, b - 1, total) + keyed(s, b - 1, total).len()
    }
}

proof fn lemma_keyed_push(s: Seq<Lexeme>, x: Lexeme, b: int, total: int)
    ensures
        keyed(s.push(x), b, total) == keyed(s, b, total) + if bucket_key(x, total) == b {
            seq![x]
        } else {
            Seq::<Lexeme>::empty()
        },
{
    assert(s.push(x).drop_last() =~= s);
}

proof fn lemma_keyed_len(s: Seq<Lexeme>, b: int, total: int)
    ensures
        keyed(s, b, total).len() <= s.len(),
    decreases s.len(),
{
    if s.len() > 0 {
        lemma_keyed_len(s.drop_last(), b, total);
    }
}

proof fn lemma_keyed_take_mono(s: Seq<Lexeme>, b: int, total: int, j: int)
    requires
        0 <= j <= s.len(),
    ensures
        keyed(s.take(j), b, total).len() <= keyed(s, b, total).len(),
    decreases s.len() - j,
{
    if j < s.len() {
        lemma_keyed_take_mono(s, b, total, j + 1);
        assert(s.take(j + 1) =~= s.take(j).push(s[j]));
        lemma_keyed_push(s.take(j), s[j], b, total);
    } else {
        assert(s.take(j) =~= s);
    }
}

proof fn lemma_keyed_contains(s: Seq<Lexeme>, b: int, total: int, x: Lexeme)
    ensures
        keyed(s, b, total).contains(x) <==> (s.contains(x) && bucket_key(x, total) == b),
    decreases s.len(),
{
    if s.len() > 0 {
        let d = s.drop_last();
        lemma_keyed_contains(d, b, total, x);
        let tail = if bucket_key(s.last(), total) == b {
            seq![s.last()]
        } else {
            Seq::<Lexeme>::empty()
        };
        vstd::seq_lib::lemma_seq_concat_contains_all_elements(keyed(d, b, total), tail, x);
        assert(s == d.push(s.last()));
        if s.contains(x) && !d.contains(x) {
            let k = choose|k: int| 0 <= k < s.len() && s[k] == x;
            assert(k == s.len() - 1);
            if bucket_key(x, total) == b {
                assert(tail[0] == x);
            }
        }
        if d.contains(x) {
            let k = choose|k: int| 0 <= k < d.len() && d[k] == x;
            assert(s[k] == x);
        }
        if tail.contains(x) {
            assert(s[s.len() - 1] == x);
        }
    } else {
        assert(!s.contains(x));
    }
}

/// One more lexeme adds one to the count below every bucket past its own.
proof fn lemma_keyed_before_push(s: Seq<Lexeme>, x: Lexeme, m: int, total: int)
    requires
        0 <= m,
        0 <= total,
    ensures
        keyed_before(s.push(x), m, total) == keyed_before(s, m, total) + if bucket_key(x, total) < m {
            1int
        } else {
            0int
        },
    decreases m,
{
    if m > 0 {
        lemma_keyed_before_push(s, x, m - 1, total);
        lemma_keyed_push(s, x, m - 1, total);
        let k0 = keyed(s, m - 1, total);
        let k1 = keyed(s.push(x), m - 1, total);
        if bucket_key(x, total) == m - 1 {
            assert(k1.len() == k0.len() + 1);
        } else {
            assert(k1 =~= k0);
        }
        assert(keyed_before(s.push(x), m, total) == keyed_before(s.push(x), m - 1, total) + k1.len());
        assert(keyed_before(s, m, total) == keyed_before(s, m - 1, total) + k0.len());
    }
}

proof fn lemma_keyed_before_all(s: Seq<Lexeme>, total: int)
    requires
        0 <= total,
    ensures
        keyed_before(s, total + 1, total) == s.len(),
    decreases s.len(),
{
    if s.len() > 0 {
        let d = s.drop_last();
        lemma_keyed_before_all(d, total);
        assert(s == d.push(s.last()));
        lemma_keyed_before_push(d, s.last(), total + 1, total);
    } else {
        lemma_keyed_before_zero(s, total + 1, total);
    }
}

proof fn lemma_keyed_before_zero(s: Seq<Lexeme>, m: int, total: int)
    requires
        s.len() == 0,
    ensures
        keyed_before(s, m, total) == 0,
    decreases m,
{
    if m > 0 {
        lemma_keyed_before_zero(s, m - 1, total);
    }
}

proof fn lemma_keyed_before_mono(s: Seq<Lexeme>, a: int, b: int, total: int)
    requires
        0 <= a <= b,
    ensures
        keyed_before(s, a, total) <= keyed_before(s, b, total),
        keyed_before(s, a, total) + keyed(s, a, total).len() <= keyed_before(s, b + 1, total),
    decreases b - a,
{
    if a < b {
        lemma_keyed_before_mono(s, a, b - 1, total);
    }
}

/// Sort by (`begin` ascending, `length` descending, priority ascending) and
/// drop duplicates (inputs of fewer than two lexemes are left as they are).
/// A counting sort: the lexemes are spread over `total_chars + 1` buckets by
/// `begin` (the last bucket takes every `begin` at or past `total_chars`,
/// the length of the text), each bucket is sorted and deduplicated, and the
/// buckets are joined in order. No lexeme is dropped.
pub fn bucket_sort_dedup_lexemes(lexemes: &mut Vec<Lexeme>, total_chars: usize)
    requires
        old(lexemes)@.len() >= 2 ==> total_chars < usize::MAX,
    ensures
        final(lexemes)@ == bucket_sorted_spec(old(lexemes)@, total_chars as int),
{
    let n = lexemes.len();
    if n < 2 {
        return ;
    }
    let ghost s = lexemes@;
    let ghost tot = total_chars as int;
    let nb = total_chars + 1;
    // Bucket sizes.
    let mut cnt: Vec<usize> = Vec::new();
    let mut b: usize = 0;
    while b < nb
        invariant
            b <= nb,
            cnt@.len() == b,
            forall|c: int| 0 <= c < b ==> cnt@[c] == 0,
        decreases nb - b,
    {
        cnt.push(0);
        b = b + 1;
    }
    proof {
        assert forall|c: int| 0 <= c < nb implies cnt@[c] == keyed(s.take(0), c, tot).len() by {
            assert(s.take(0) =~= Seq::<Lexeme>::empty());
        }
    }
    let mut j: usize = 0;
    while j < n
        invariant
            s == lexemes@,
            n == s.len(),
            nb == tot + 1,
            tot == total_chars as int,
            j <= n,
            cnt@.len() == nb,
            forall|c: int| 0 <= c < nb ==> cnt@[c] == keyed(#[trigger] s.take(j as int), c, tot).len(),
        decreases n - j,
    {
        let k = if lexemes[j].begin < total_chars {
            lexemes[j].begin
        } else {
            total_chars
        };
        proof {
            lemma_keyed_len(s.take(j as int), k as int, tot);
        }
        let v = cnt[k] + 1;
        cnt.set(k, v);
        proof {
            assert(s.take(j + 1) =~= s.take(j as int).push(s[j as int]));
            assert forall|c: int| 0 <= c < nb implies cnt@[c] == keyed(#[trigger] s.take(j + 1), c, tot).len() by {
                lemma_keyed_push(s.take(j as int), s[j as int], c, tot);
            }
        }
        j = j + 1;
    }
    proof {
        assert(s.take(n as int) =~= s);
    }
    // Bucket starts.
    let mut starts: Vec<usize> = Vec::new();
    let mut acc: usize = 0;
    let mut b: usize = 0;
    proof {
        lemma_keyed_before_all(s, tot);
    }
    while b < nb
        invariant
            n == s.len(),
            nb == tot + 1,
            tot == total_chars as int,
            b <= nb,
            cnt@.len() == nb,
            forall|c: int| 0 <= c < nb ==> cnt@[c] == keyed(s, c, tot).len(),
            keyed_before(s, nb as int, tot) == n,
            starts@.len() == b,
            acc == keyed_before(s, b as int, tot),
            forall|c: int| 0 <= c < b ==> starts@[c] == keyed_before(s, c, tot),
        decreases nb - b,
    {
        proof {
            lemma_keyed_before_mono(s, b as int, b as int, tot);
            lemma_keyed_before_mono(s, b as int + 1, nb as int, tot);
        }
        starts.push(acc);
        acc = acc + cnt[b];
        b = b + 1;
    }
    // Scatter every lexeme into the next free slot of its bucket.
    let mut out: Vec<Lexeme> = Vec::new();
    let mut j: usize = 0;
    while j < n
        invariant
            s == lexemes@,
            n == s.len(),
            j <= n,
            out@.len() == j,
        decreases n - j,
    {
        out.push(lexemes[j]);
        j = j + 1;
    }
    let mut cur: Vec<usize> = Vec::new();
    let mut b: usize = 0;
    while b < nb
        invariant
            b <= nb,
            starts@.len() == nb,
            cur@.len() == b,
            forall|c: int| 0 <= c < b ==> cur@[c] == starts@[c],
        decreases nb - b,
    {
        cur.push(starts[b]);
        b = b + 1;
    }
    proof {
        assert(s.take(0) =~= Seq::<Lexeme>::empty());
        assert forall|c: int| 0 <= c < nb implies cur@[c] == starts@[c] + keyed(#[trigger] s.take(0), c, tot).len() by {}
    }
    let mut j: usize = 0;
    while j < n
        invariant
            s == lexemes@,
            n == s.len(),
            nb == tot + 1,
            tot == total_chars as int,
            j <= n,
            out@.len() == n,
            cur@.len() == nb,
            starts@.len() == nb,
            keyed_before(s, nb as int, tot) == n,
            forall|c: int| 0 <= c < nb ==> starts@[c] == keyed_before(s, c, tot),
            forall|c: int| 0 <= c < nb ==> cur@[c] == starts@[c] + keyed(#[trigger] s.take(j as int), c, tot).len(),
            forall|c: int, t: int| 0 <= c < nb && 0 <= t < keyed(s.take(j as int), c, tot).len()
                ==> out@[starts@[c] + t] == #[trigger] keyed(s.take(j as int), c, tot)[t],
        decreases n - j,
    {
        let k = if lexemes[j].begin < total_chars {
            lexemes[j].begin
        } else {
            total_chars
        };
        let ghost kk = k as int;
        let ghost pre = s.take(j as int);
        proof {
            assert(s.take(j + 1) =~= pre.push(s[j as int]));
            lemma_keyed_push(pre, s[j as int], kk, tot);
            lemma_keyed_take_mono(s, kk, tot, j + 1);
            lemma_keyed_before_mono(s, kk, kk, tot);
            lemma_keyed_before_mono(s, kk + 1, nb as int, tot);
        }
        let pos = cur[k];
        proof {
            assert(cur@[kk] == starts@[kk] + keyed(pre, kk, tot).len());
            assert(keyed(s.take(j + 1), kk, tot).len() == keyed(pre, kk, tot).len() + 1);
            assert(keyed(s.take(j + 1), kk, tot)[keyed(pre, kk, tot).len() as int] == s[j as int]);
        }
        let ghost old_out = out@;
        out.set(pos, lexemes[j]);
        cur.set(k, pos + 1);
        proof {
            assert forall|c: int| 0 <= c < nb implies cur@[c] == starts@[c] + keyed(#[trigger] s.take(j + 1), c, tot).len() by {
                lemma_keyed_push(pre, s[j as int], c, tot);
            }
            assert forall|c: int, t: int| 0 <= c < nb && 0 <= t < keyed(s.take(j + 1), c, tot).len()
                implies out@[starts@[c] + t] == #[trigger] keyed(s.take(j + 1), c, tot)[t] by {
                lemma_keyed_push(pre, s[j as int], c, tot);
                if c == kk {
                    if t < keyed(pre, c, tot).len() {
                        assert(old_out[starts@[c] + t] == keyed(pre, c, tot)[t]);
                        assert(keyed(s.take(j + 1), c, tot)[t] == keyed(pre, c, tot)[t]);
                    } else {
                        assert(starts@[c] + t == pos);
                    }
                } else {
                    assert(keyed(s.take(j + 1), c, tot) == keyed(pre, c, tot));
                    lemma_keyed_take_mono(s, c, tot, j as int);
                    lemma_keyed_before_mono(s, c, nb as int - 1, tot);
                    if c < kk {
                        lemma_keyed_before_mono(s, c, kk - 1, tot);
                    } else {
                        lemma_keyed_before_mono(s, kk, c - 1, tot);
                    }
                    assert(starts@[c] + t != pos);
                    assert(old_out[starts@[c] + t] == keyed(pre, c, tot)[t]);
                }
            }
        }
        j = j + 1;
    }
    proof {
        assert(s.take(n as int) =~= s);
    }
    // Sort and deduplicate each bucket, and join the buckets in order.
    let mut res: Vec<Lexeme> = Vec::new();
    let mut b: usize = 0;
    while b < nb
        invariant
            s == lexemes@,
            n == s.len(),
            nb == tot + 1,
            tot == total_chars as int,
            b <= nb,
            out@.len() == n,
            starts@.len() == nb,
            keyed_before(s, nb as int, tot) == n,
            forall|c: int| 0 <= c < nb ==> starts@[c] == keyed_before(s, c, tot),
            forall|c: int, t: int| 0 <= c < nb && 0 <= t < keyed(s, c, tot).len()
                ==> out@[starts@[c] + t] == #[trigger] keyed(s, c, tot)[t],
            strictly_sorted(res@, true),
            forall|i: int| 0 <= i < res@.len() ==> bucket_key(#[trigger] res@[i], tot) < b,
            forall|x: Lexeme| res@.contains(x) <==> (s.contains(x) && bucket_key(x, tot) < b),
        decreases nb - b,
    {
        let lo = starts[b];
        let hi = if b + 1 < nb {
            starts[b + 1]
        } else {
            n
        };
        proof {
            lemma_keyed_before_mono(s, b as int, b as int, tot);
            lemma_keyed_before_mono(s, b as int + 1, nb as int, tot);
            assert(hi == lo + keyed(s, b as int, tot).len());
        }
        let mut bucket: Vec<Lexeme> = Vec::new();
        let mut t = lo;
        while t < hi
            invariant
                lo <= t <= hi <= n,
                out@.len() == n,
                hi == lo + keyed(s, b as int, tot).len(),
                b < nb,
                starts@.len() == nb,
                lo == starts@[b as int],
                forall|c: int, t: int| 0 <= c < nb && 0 <= t < keyed(s, c, tot).len()
                    ==> out@[starts@[c] + t] == #[trigger] keyed(s, c, tot)[t],
                bucket@ == keyed(s, b as int, tot).take(t - lo),
            decreases hi - t,
        {
            proof {
                assert(out@[starts@[b as int] + (t - lo)] == keyed(s, b as int, tot)[t - lo]);
            }
            bucket.push(out[t]);
            t = t + 1;
            proof {
                assert(bucket@ =~= keyed(s, b as int, tot).take(t - lo));
            }
        }
        proof {
            assert(bucket@ =~= keyed(s, b as int, tot));
        }
        let sb = sort_dedup(&bucket, true);
        let ghost old_res = res@;
        proof {
            assert forall|i: int| 0 <= i < sb@.len() implies bucket_key(#[trigger] sb@[i], tot) == b by {
                assert(sb@.contains(sb@[i]));
                lemma_keyed_contains(s, b as int, tot, sb@[i]);
            }
        }
        let mut q: usize = 0;
        while q < sb.len()
            invariant
                q <= sb@.len(),
                res@ == old_res + sb@.take(q as int),
            decreases sb@.len() - q,
        {
            res.push(sb[q]);
            q = q + 1;
            proof {
                assert(res@ =~= old_res + sb@.take(q as int));
            }
        }
        proof {
            assert(sb@.take(q as int) =~= sb@);
            let r = res@;
            assert forall|i: int, k: int| 0 <= i < k < r.len() implies crate::lexeme::lex_lt(#[trigger] r[i], #[trigger] r[k], true) by {
                if k < old_res.len() {
                    assert(r[i] == old_res[i] && r[k] == old_res[k]);
                } else if i >= old_res.len() {
                    assert(r[i] == sb@[i - old_res.len()] && r[k] == sb@[k - old_res.len()]);
                } else {
                    assert(r[i] == old_res[i] && r[k] == sb@[k - old_res.len()]);
                    assert(bucket_key(r[i], tot) < b);
                    assert(bucket_key(r[k], tot) == b);
                }
            }
            assert forall|i: int| 0 <= i < r.len() implies bucket_key(#[trigger] r[i], tot) < b + 1 by {
                if i < old_res.len() {
                    assert(r[i] == old_res[i]);
                } else {
                    assert(r[i] == sb@[i - old_res.len()]);
                }
            }
            assert forall|x: Lexeme| r.contains(x) <==> (s.contains(x) && bucket_key(x, tot) < b + 1) by {
                vstd::seq_lib::lemma_seq_concat_contains_all_elements(old_res, sb@, x);
                lemma_keyed_contains(s, b as int, tot, x);
            }
        }
        b = b + 1;
    }
    proof {
        crate::pipeline::lemma_sorted_of(s, true);
        assert forall|x: Lexeme| res@.contains(x) <==> s.contains(x) by {}
        crate::lexeme::lemma_sorted_unique(res@, sorted_of(s, true), true);
    }
    *lexemes = res;
}

} // verus!

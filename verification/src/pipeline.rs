//! The two tokenization pipelines as mathematical functions of the input
//! chars, the configuration, the dictionaries and the rules, with the facts
//! about them that the tokenizer and its laws need.
use vstd::prelude::*;

use crate::arbitrator::{
    all_fusions, arb_from, best_of, bucket_sorted_spec, comp_end, covered_by,
    dfs_loop_spec, dfs_spec, fuse_from, fusions_of, fusions_spec, lemma_comp_end,
    lemma_of_kind_elems, of_kind, uncovered_chars, update_best,
};
use crate::char_util::{classify_spec, regularize_spec, CharKind};
use crate::config::{IkConfig, IkMode};
use crate::dict::{prefix_hits, Dict};
use crate::lexeme::{lex_end, lex_lt, sorted_of, strictly_sorted, Lexeme, LexemeKind};
use crate::rules::{set_prefix_hits, Rules};
use crate::segmenter::{
    cjk_at, cjk_upto, cnnum_runs, count_at, count_upto, hit_lexemes, lemma_hits_bounds,
    lemma_run_end, lemma_set_hits_bounds, letter_spec, num_end, quant_spec, run_end, run_member,
    runs_from, unblocked,
};

verus! {

// ---------------------------------------------------------------------------
// Inputs
// ---------------------------------------------------------------------------

/// The input chars after regularization.
pub open spec fn reg_chars(text: Seq<char>, lowercase: bool) -> Seq<char> {
    Seq::new(text.len(), |i: int| regularize_spec(text[i], lowercase))
}

/// The kind of every char.
pub open spec fn kinds_of(chars: Seq<char>) -> Seq<CharKind> {
    Seq::new(chars.len(), |i: int| classify_spec(chars[i]))
}

/// Every lexeme of `s` is non-empty and ends within the first `n` chars.
pub open spec fn fits(s: Seq<Lexeme>, n: int) -> bool {
    forall|i: int| 0 <= i < s.len() ==> 1 <= (#[trigger] s[i]).length && lex_end(s[i]) <= n
}

/// Every lexeme of `a` occurs in `b`.
pub open spec fn within(a: Seq<Lexeme>, b: Seq<Lexeme>) -> bool {
    forall|i: int| 0 <= i < a.len() ==> b.contains(#[trigger] a[i])
}

/// The `begin`s of `s` never decrease.
pub open spec fn begins_sorted(s: Seq<Lexeme>) -> bool {
    forall|i: int, j: int| 0 <= i <= j < s.len() ==> (#[trigger] s[i]).begin <= (#[trigger] s[j]).begin
}

// ---------------------------------------------------------------------------
// Smart mode
// ---------------------------------------------------------------------------

/// A single-char lexeme of the char's own kind for every char among the
/// first `n` that no lexeme of `s` covers and that is a letter, a digit or
/// a non-Chinese CJK char, ascending.
pub open spec fn isolated_chars(s: Seq<Lexeme>, kinds: Seq<CharKind>, n: int) -> Seq<Lexeme>
    decreases n,
{
    if n <= 0 {
        Seq::empty()
    } else {
        isolated_chars(s, kinds, n - 1) + if covered_by(s, n - 1) {
            Seq::empty()
        } else if kinds[n - 1] == CharKind::English {
            seq![Lexeme { begin: (n - 1) as usize, length: 1, kind: LexemeKind::English }]
        } else if kinds[n - 1] == CharKind::Arabic {
            seq![Lexeme { begin: (n - 1) as usize, length: 1, kind: LexemeKind::Arabic }]
        } else if kinds[n - 1] == CharKind::OtherCjk {
            seq![Lexeme { begin: (n - 1) as usize, length: 1, kind: LexemeKind::OtherCjk }]
        } else {
            Seq::empty()
        }
    }
}

/// Everything the three segmenters find.
pub open spec fn smart_candidates(chars: Seq<char>, orig: Seq<char>, kinds: Seq<CharKind>, dict: Dict, rules: Rules) -> Seq<Lexeme> {
    cjk_upto(chars, orig, kinds, dict, rules, chars.len() as int) + letter_spec(chars, kinds) + quant_spec(chars, orig, kinds, dict)
}

/// The arbitrated lexemes with their quantifiers fused and the uncovered
/// Chinese chars added.
pub open spec fn smart_core(chars: Seq<char>, orig: Seq<char>, kinds: Seq<CharKind>, dict: Dict, rules: Rules) -> Seq<Lexeme> {
    let fused = fuse_from(arb_from(sorted_of(smart_candidates(chars, orig, kinds, dict, rules), true), 0), 0);
    fused + uncovered_chars(fused, kinds, chars.len() as int)
}

/// The lexemes of Smart mode, in output order.
pub open spec fn smart_lexemes(text: Seq<char>, cfg: IkConfig, dict: Dict, rules: Rules) -> Seq<Lexeme> {
    let chars = reg_chars(text, cfg.lowercase);
    let kinds = kinds_of(chars);
    let core = smart_core(chars, text, kinds, dict, rules);
    bucket_sorted_spec(core + isolated_chars(core, kinds, text.len() as int), text.len() as int)
}

// ---------------------------------------------------------------------------
// MaxWord mode
// ---------------------------------------------------------------------------

/// The forced single-char lexeme at a Chinese char.
pub open spec fn single_at(kinds: Seq<CharKind>, p: int, ensure: bool) -> Seq<Lexeme> {
    if ensure && kinds[p] == CharKind::Chinese {
        seq![Lexeme { begin: p as usize, length: 1, kind: LexemeKind::CnChar }]
    } else {
        Seq::empty()
    }
}

/// Letter and quantifier lexemes (plus, when `ensure`, every number +
/// quantifier fusion and the single chars Smart mode adds for letters,
/// digits and non-Chinese CJK chars it leaves uncovered), sorted by
/// `sort_key` without duplicates.
pub open spec fn mw_aux(chars: Seq<char>, orig: Seq<char>, kinds: Seq<CharKind>, dict: Dict, rules: Rules, ensure: bool) -> Seq<Lexeme> {
    let base = letter_spec(chars, kinds) + quant_spec(chars, orig, kinds, dict);
    sorted_of(
        if ensure {
            base + fusions_spec(base) + isolated_chars(smart_core(chars, orig, kinds, dict, rules), kinds, chars.len() as int)
        } else {
            base
        },
        false,
    )
}

/// The lexemes of `s` that begin at `p`, in order.
pub open spec fn begin_at(s: Seq<Lexeme>, p: int) -> Seq<Lexeme>
    decreases s.len(),
{
    if s.len() == 0 {
        Seq::empty()
    } else {
        begin_at(s.drop_last(), p) + if s.last().begin == p {
            seq![s.last()]
        } else {
            Seq::empty()
        }
    }
}

/// `s` with every repeated lexeme dropped (first occurrences kept).
pub open spec fn uniq(s: Seq<Lexeme>) -> Seq<Lexeme>
    decreases s.len(),
{
    if s.len() == 0 {
        s
    } else {
        let u = uniq(s.drop_last());
        if u.contains(s.last()) {
            u
        } else {
            u.push(s.last())
        }
    }
}

/// The MaxWord candidates at `p`: the CJK hits there, the forced single
/// char, and the auxiliary lexemes that begin there.
pub open spec fn mw_cands(chars: Seq<char>, orig: Seq<char>, kinds: Seq<CharKind>, dict: Dict, rules: Rules, ensure: bool, p: int) -> Seq<Lexeme> {
    cjk_at(chars, orig, kinds, dict, rules, p) + single_at(kinds, p, ensure) + begin_at(mw_aux(chars, orig, kinds, dict, rules, ensure), p)
}

/// The MaxWord lexemes that begin at `p`, in output order: the candidates
/// without duplicates, longest first, then by kind priority.
pub open spec fn mw_bucket(chars: Seq<char>, orig: Seq<char>, kinds: Seq<CharKind>, dict: Dict, rules: Rules, ensure: bool, p: int) -> Seq<Lexeme> {
    sorted_of(mw_cands(chars, orig, kinds, dict, rules, ensure, p), true)
}

/// The MaxWord bucket is strictly sorted and holds exactly the candidates.
pub proof fn lemma_mw_bucket(chars: Seq<char>, orig: Seq<char>, kinds: Seq<CharKind>, dict: Dict, rules: Rules, ensure: bool, p: int)
    ensures
        strictly_sorted(mw_bucket(chars, orig, kinds, dict, rules, ensure, p), true),
        forall|x: Lexeme| #[trigger] mw_bucket(chars, orig, kinds, dict, rules, ensure, p).contains(x)
            <==> mw_cands(chars, orig, kinds, dict, rules, ensure, p).contains(x),
{
    lemma_sorted_of(mw_cands(chars, orig, kinds, dict, rules, ensure, p), true);
}

pub open spec fn mw_upto(chars: Seq<char>, orig: Seq<char>, kinds: Seq<CharKind>, dict: Dict, rules: Rules, ensure: bool, m: int) -> Seq<Lexeme>
    decreases m,
{
    if m <= 0 {
        Seq::empty()
    } else {
        mw_upto(chars, orig, kinds, dict, rules, ensure, m - 1) + mw_bucket(chars, orig, kinds, dict, rules, ensure, m - 1)
    }
}

/// The lexemes of MaxWord mode, in output order.
pub open spec fn maxword_lexemes(text: Seq<char>, cfg: IkConfig, dict: Dict, rules: Rules) -> Seq<Lexeme> {
    let chars = reg_chars(text, cfg.lowercase);
    mw_upto(chars, text, kinds_of(chars), dict, rules, cfg.ensure_smart_subset, text.len() as int)
}

pub open spec fn mode_lexemes(text: Seq<char>, cfg: IkConfig, dict: Dict, rules: Rules) -> Seq<Lexeme> {
    match cfg.mode {
        IkMode::MaxWord => maxword_lexemes(text, cfg, dict, rules),
        IkMode::Smart => smart_lexemes(text, cfg, dict, rules),
    }
}

// ---------------------------------------------------------------------------
// Emission
// ---------------------------------------------------------------------------

/// The (regularized) term of lexeme `l`.
pub open spec fn lex_term(chars: Seq<char>, l: Lexeme) -> Seq<char> {
    chars.subrange(l.begin as int, lex_end(l))
}

/// The terms that are filtered out as stopwords.
pub open spec fn stop_set(cfg: IkConfig, dict: Dict, rules: Rules) -> Set<Seq<char>> {
    if cfg.use_stopwords {
        Set::new(
            |w: Seq<char>|
                !rules.removed_stopwords().contains(w) && (rules.extra_stopwords().contains(w)
                    || dict.stopword_terms().contains(w)),
        )
    } else {
        Set::empty()
    }
}

/// The lexemes of `s` whose term is not in `stops`, in order.
pub open spec fn kept(s: Seq<Lexeme>, chars: Seq<char>, stops: Set<Seq<char>>) -> Seq<Lexeme>
    decreases s.len(),
{
    if s.len() == 0 {
        Seq::empty()
    } else {
        kept(s.drop_last(), chars, stops) + if stops.contains(lex_term(chars, s.last())) {
            Seq::empty()
        } else {
            seq![s.last()]
        }
    }
}

/// The position of the `k`-th emitted lexeme: one more than the previous
/// one whenever the `begin` changes.
pub open spec fn position_at(e: Seq<Lexeme>, k: int) -> int
    decreases k,
{
    if k <= 0 {
        0
    } else {
        position_at(e, k - 1) + if e[k].begin != e[k - 1].begin {
            1int
        } else {
            0int
        }
    }
}

/// The lexemes that become tokens, in output order.
pub open spec fn emitted(text: Seq<char>, cfg: IkConfig, dict: Dict, rules: Rules) -> Seq<Lexeme> {
    kept(mode_lexemes(text, cfg, dict, rules), reg_chars(text, cfg.lowercase), stop_set(cfg, dict, rules))
}

// ---------------------------------------------------------------------------
// Facts about the segmenters' lexemes
// ---------------------------------------------------------------------------

pub proof fn lemma_hit_lexemes(p: int, counts: Seq<usize>, quant: bool)
    ensures
        hit_lexemes(p, counts, quant).len() == counts.len(),
        forall|i: int| 0 <= i < counts.len() ==> (#[trigger] hit_lexemes(p, counts, quant)[i]).begin == p as usize
            && hit_lexemes(p, counts, quant)[i].length == counts[i]
            && hit_lexemes(p, counts, quant)[i].kind == (if quant {
                LexemeKind::Count
            } else {
                crate::segmenter::cn_kind(counts[i] as int)
            }),
    decreases counts.len(),
{
    if counts.len() > 0 {
        lemma_hit_lexemes(p, counts.drop_last(), quant);
        let a = hit_lexemes(p, counts.drop_last(), quant);
        assert forall|i: int| 0 <= i < counts.len() implies (#[trigger] hit_lexemes(p, counts, quant)[i]).begin == p as usize
            && hit_lexemes(p, counts, quant)[i].length == counts[i]
            && hit_lexemes(p, counts, quant)[i].kind == (if quant {
                LexemeKind::Count
            } else {
                crate::segmenter::cn_kind(counts[i] as int)
            }) by {
            if i < a.len() {
                assert(hit_lexemes(p, counts, quant)[i] == a[i]);
                assert(counts.drop_last()[i] == counts[i]);
            }
        }
    }
}

proof fn lemma_unblocked_within(counts: Seq<usize>, orig: Seq<char>, p: int, removed: Set<Seq<char>>)
    ensures
        forall|i: int| 0 <= i < unblocked(counts, orig, p, removed).len() ==> counts.contains(#[trigger] unblocked(counts, orig, p, removed)[i]),
    decreases counts.len(),
{
    if counts.len() > 0 {
        lemma_unblocked_within(counts.drop_last(), orig, p, removed);
        let a = unblocked(counts.drop_last(), orig, p, removed);
        assert forall|i: int| 0 <= i < unblocked(counts, orig, p, removed).len() implies counts.contains(#[trigger] unblocked(counts, orig, p, removed)[i]) by {
            if i < a.len() {
                assert(unblocked(counts, orig, p, removed)[i] == a[i]);
                let j = choose|j: int| 0 <= j < counts.drop_last().len() && counts.drop_last()[j] == a[i];
                assert(counts[j] == a[i]);
            } else {
                assert(counts[counts.len() - 1] == counts.last());
            }
        }
    }
}

/// Hit lexemes whose lengths lie in `1..=n - p` fit in `n` chars.
proof fn lemma_hits_fit(p: int, counts: Seq<usize>, quant: bool, n: int)
    requires
        0 <= p,
        forall|i: int| 0 <= i < counts.len() ==> 1 <= #[trigger] counts[i] <= n - p,
        p <= usize::MAX,
    ensures
        fits(hit_lexemes(p, counts, quant), n),
        forall|i: int| 0 <= i < hit_lexemes(p, counts, quant).len() ==> (#[trigger] hit_lexemes(p, counts, quant)[i]).begin == p,
{
    lemma_hit_lexemes(p, counts, quant);
}

pub proof fn lemma_cjk_at_fits(chars: Seq<char>, orig: Seq<char>, kinds: Seq<CharKind>, dict: Dict, rules: Rules, p: int)
    requires
        0 <= p < chars.len() == orig.len() == kinds.len(),
        chars.len() < usize::MAX,
    ensures
        fits(cjk_at(chars, orig, kinds, dict, rules, p), chars.len() as int),
        forall|i: int| 0 <= i < cjk_at(chars, orig, kinds, dict, rules, p).len() ==> (#[trigger] cjk_at(chars, orig, kinds, dict, rules, p)[i]).begin == p,
{
    let n = chars.len() as int;
    if kinds[p] == CharKind::Chinese {
        let t = chars.subrange(p, n);
        let ot = orig.subrange(p, n);
        let hits = prefix_hits(dict.main_terms(), t);
        lemma_hits_bounds(dict.main_terms(), t, t.len() as int);
        let ub = unblocked(hits, orig, p, rules.removed_main());
        lemma_unblocked_within(hits, orig, p, rules.removed_main());
        assert forall|i: int| 0 <= i < ub.len() implies 1 <= #[trigger] ub[i] <= n - p by {
            let j = choose|j: int| 0 <= j < hits.len() && hits[j] == ub[i];
        }
        lemma_hits_fit(p, ub, false, n);
        let ex = set_prefix_hits(rules.extra_words(), ot);
        lemma_set_hits_bounds(rules.extra_words(), ot, ot.len() as int);
        lemma_hits_fit(p, ex, false, n);
        let a = hit_lexemes(p, ub, false);
        let b = hit_lexemes(p, ex, false);
        assert forall|i: int| 0 <= i < (a + b).len() implies 1 <= (#[trigger] (a + b)[i]).length && lex_end((a + b)[i]) <= n && (a + b)[i].begin == p by {
            if i < a.len() {
                assert((a + b)[i] == a[i]);
            } else {
                assert((a + b)[i] == b[i - a.len()]);
            }
        }
    }
}

pub proof fn lemma_cjk_upto_fits(chars: Seq<char>, orig: Seq<char>, kinds: Seq<CharKind>, dict: Dict, rules: Rules, m: int)
    requires
        m <= chars.len() == orig.len() == kinds.len(),
        chars.len() < usize::MAX,
    ensures
        fits(cjk_upto(chars, orig, kinds, dict, rules, m), chars.len() as int),
    decreases m,
{
    if m > 0 {
        lemma_cjk_upto_fits(chars, orig, kinds, dict, rules, m - 1);
        lemma_cjk_at_fits(chars, orig, kinds, dict, rules, m - 1);
        lemma_fits_concat(cjk_upto(chars, orig, kinds, dict, rules, m - 1), cjk_at(chars, orig, kinds, dict, rules, m - 1), chars.len() as int);
    }
}

pub proof fn lemma_fits_concat(a: Seq<Lexeme>, b: Seq<Lexeme>, n: int)
    requires
        fits(a, n),
        fits(b, n),
    ensures
        fits(a + b, n),
{
    assert forall|i: int| 0 <= i < (a + b).len() implies 1 <= (#[trigger] (a + b)[i]).length && lex_end((a + b)[i]) <= n by {
        if i < a.len() {
            assert((a + b)[i] == a[i]);
        } else {
            assert((a + b)[i] == b[i - a.len()]);
        }
    }
}

pub proof fn lemma_fits_within(a: Seq<Lexeme>, b: Seq<Lexeme>, n: int)
    requires
        fits(b, n),
        within(a, b),
    ensures
        fits(a, n),
{
    assert forall|i: int| 0 <= i < a.len() implies 1 <= (#[trigger] a[i]).length && lex_end(a[i]) <= n by {
        assert(b.contains(a[i]));
        let j = choose|j: int| 0 <= j < b.len() && b[j] == a[i];
    }
}

proof fn lemma_runs_fit(chars: Seq<char>, kinds: Seq<CharKind>, i: int, family: int)
    requires
        0 <= i,
        chars.len() == kinds.len(),
        kinds.len() <= usize::MAX,
    ensures
        fits(runs_from(chars, kinds, i, family), kinds.len() as int),
    decreases kinds.len() - i,
{
    if 0 <= i < kinds.len() {
        if run_member(kinds[i], family) {
            lemma_run_end(chars, kinds, i + 1, family);
            let e = run_end(chars, kinds, i + 1, family);
            lemma_runs_fit(chars, kinds, e, family);
        } else {
            lemma_runs_fit(chars, kinds, i + 1, family);
        }
    }
}

pub proof fn lemma_letter_fits(chars: Seq<char>, kinds: Seq<CharKind>)
    requires
        chars.len() == kinds.len(),
        kinds.len() <= usize::MAX,
    ensures
        fits(letter_spec(chars, kinds), kinds.len() as int),
{
    let n = kinds.len() as int;
    lemma_runs_fit(chars, kinds, 0, 0);
    lemma_runs_fit(chars, kinds, 0, 1);
    lemma_runs_fit(chars, kinds, 0, 2);
    lemma_fits_concat(runs_from(chars, kinds, 0, 0), runs_from(chars, kinds, 0, 1), n);
    lemma_fits_concat(runs_from(chars, kinds, 0, 0) + runs_from(chars, kinds, 0, 1), runs_from(chars, kinds, 0, 2), n);
}

proof fn lemma_num_end_bounds(chars: Seq<char>, e: int)
    requires
        0 <= e <= chars.len(),
    ensures
        e <= num_end(chars, e) <= chars.len(),
    decreases chars.len() - e,
{
    if e < chars.len() && crate::char_util::is_chinese_number_spec(chars[e]) {
        lemma_num_end_bounds(chars, e + 1);
    }
}

proof fn lemma_cnnum_fits(chars: Seq<char>, i: int)
    requires
        0 <= i,
        chars.len() <= usize::MAX,
    ensures
        fits(cnnum_runs(chars, i), chars.len() as int),
    decreases chars.len() - i,
{
    if 0 <= i < chars.len() {
        if crate::char_util::is_chinese_number_spec(chars[i]) {
            lemma_num_end_bounds(chars, i + 1);
            lemma_cnnum_fits(chars, num_end(chars, i + 1));
        } else {
            lemma_cnnum_fits(chars, i + 1);
        }
    }
}

proof fn lemma_count_upto_fits(chars: Seq<char>, orig: Seq<char>, kinds: Seq<CharKind>, dict: Dict, m: int)
    requires
        m <= chars.len() == orig.len() == kinds.len(),
        chars.len() < usize::MAX,
    ensures
        fits(count_upto(chars, orig, kinds, dict, m), chars.len() as int),
    decreases m,
{
    if m > 0 {
        let n = chars.len() as int;
        let p = m - 1;
        lemma_count_upto_fits(chars, orig, kinds, dict, m - 1);
        let ot = orig.subrange(p, n);
        lemma_hits_bounds(dict.quantifier_terms(), ot, ot.len() as int);
        lemma_hits_fit(p, prefix_hits(dict.quantifier_terms(), ot), true, n);
        lemma_fits_concat(count_upto(chars, orig, kinds, dict, m - 1), count_at(chars, orig, kinds, dict, p), n);
    }
}

pub proof fn lemma_quant_fits(chars: Seq<char>, orig: Seq<char>, kinds: Seq<CharKind>, dict: Dict)
    requires
        chars.len() == orig.len() == kinds.len(),
        chars.len() < usize::MAX,
    ensures
        fits(quant_spec(chars, orig, kinds, dict), chars.len() as int),
{
    lemma_cnnum_fits(chars, 0);
    lemma_count_upto_fits(chars, orig, kinds, dict, chars.len() as int);
    lemma_fits_concat(cnnum_runs(chars, 0), count_upto(chars, orig, kinds, dict, chars.len() as int), chars.len() as int);
}

pub proof fn lemma_candidates_fit(chars: Seq<char>, orig: Seq<char>, kinds: Seq<CharKind>, dict: Dict, rules: Rules)
    requires
        chars.len() == orig.len() == kinds.len(),
        chars.len() < usize::MAX,
    ensures
        fits(smart_candidates(chars, orig, kinds, dict, rules), chars.len() as int),
        fits(letter_spec(chars, kinds) + quant_spec(chars, orig, kinds, dict), chars.len() as int),
{
    let n = chars.len() as int;
    lemma_cjk_upto_fits(chars, orig, kinds, dict, rules, n);
    lemma_letter_fits(chars, kinds);
    lemma_quant_fits(chars, orig, kinds, dict);
    lemma_fits_concat(cjk_upto(chars, orig, kinds, dict, rules, n), letter_spec(chars, kinds), n);
    lemma_fits_concat(cjk_upto(chars, orig, kinds, dict, rules, n) + letter_spec(chars, kinds), quant_spec(chars, orig, kinds, dict), n);
    lemma_fits_concat(letter_spec(chars, kinds), quant_spec(chars, orig, kinds, dict), n);
}


// ---------------------------------------------------------------------------
// Facts about sorting, arbitration and the post-processing steps
// ---------------------------------------------------------------------------

/// `r` with `x` inserted at its place in the order.
pub open spec fn insert_sorted(r: Seq<Lexeme>, x: Lexeme, by_begin: bool) -> Seq<Lexeme>
    decreases r.len(),
{
    if r.len() == 0 {
        seq![x]
    } else if lex_lt(x, r[0], by_begin) {
        seq![x] + r
    } else {
        seq![r[0]] + insert_sorted(r.drop_first(), x, by_begin)
    }
}

proof fn lemma_sorted_cons(a: Lexeme, t: Seq<Lexeme>, by_begin: bool)
    requires
        strictly_sorted(t, by_begin),
        forall|y: Lexeme| t.contains(y) ==> lex_lt(a, y, by_begin),
    ensures
        strictly_sorted(seq![a] + t, by_begin),
{
    let r = seq![a] + t;
    assert forall|i: int, j: int| 0 <= i < j < r.len() implies lex_lt(#[trigger] r[i], #[trigger] r[j], by_begin) by {
        assert(r[j] == t[j - 1]);
        if i == 0 {
            assert(t.contains(t[j - 1]));
        } else {
            assert(r[i] == t[i - 1]);
        }
    }
}

proof fn lemma_insert_sorted(r: Seq<Lexeme>, x: Lexeme, by_begin: bool)
    requires
        strictly_sorted(r, by_begin),
        !r.contains(x),
        forall|i: int| 0 <= i < r.len() ==> crate::lexeme::lex_orderable(#[trigger] r[i], by_begin),
        crate::lexeme::lex_orderable(x, by_begin),
    ensures
        strictly_sorted(insert_sorted(r, x, by_begin), by_begin),
        forall|y: Lexeme| #[trigger] insert_sorted(r, x, by_begin).contains(y) <==> (r.contains(y) || y == x),
    decreases r.len(),
{
    let ins = insert_sorted(r, x, by_begin);
    if r.len() == 0 {
        assert forall|y: Lexeme| #[trigger] ins.contains(y) <==> (r.contains(y) || y == x) by {
            if ins.contains(y) {
                let k = choose|k: int| 0 <= k < ins.len() && ins[k] == y;
            }
            if y == x {
                assert(ins[0] == x);
            }
        }
    } else if lex_lt(x, r[0], by_begin) {
        assert forall|y: Lexeme| r.contains(y) implies lex_lt(x, y, by_begin) by {
            let k = choose|k: int| 0 <= k < r.len() && r[k] == y;
            if k > 0 {
                crate::lexeme::lemma_lex_lt_trans(x, r[0], y, by_begin);
            }
        }
        lemma_sorted_cons(x, r, by_begin);
        assert forall|y: Lexeme| #[trigger] ins.contains(y) <==> (r.contains(y) || y == x) by {
            if ins.contains(y) {
                let k = choose|k: int| 0 <= k < ins.len() && ins[k] == y;
                if k > 0 {
                    assert(r[k - 1] == y);
                }
            }
            if r.contains(y) {
                let k = choose|k: int| 0 <= k < r.len() && r[k] == y;
                assert(ins[k + 1] == y);
            }
            if y == x {
                assert(ins[0] == x);
            }
        }
    } else {
        let rest = r.drop_first();
        assert(strictly_sorted(rest, by_begin)) by {
            assert forall|i: int, j: int| 0 <= i < j < rest.len() implies lex_lt(#[trigger] rest[i], #[trigger] rest[j], by_begin) by {
                assert(rest[i] == r[i + 1]);
                assert(rest[j] == r[j + 1]);
            }
        }
        assert(!rest.contains(x)) by {
            if rest.contains(x) {
                let k = choose|k: int| 0 <= k < rest.len() && rest[k] == x;
                assert(r[k + 1] == x);
            }
        }
        lemma_insert_sorted(rest, x, by_begin);
        let t = insert_sorted(rest, x, by_begin);
        assert(r.contains(r[0]));
        crate::lexeme::lemma_lex_lt_total(x, r[0], by_begin);
        assert forall|y: Lexeme| t.contains(y) implies lex_lt(r[0], y, by_begin) by {
            if y != x {
                assert(rest.contains(y));
                let k = choose|k: int| 0 <= k < rest.len() && rest[k] == y;
                assert(r[k + 1] == y);
            }
        }
        lemma_sorted_cons(r[0], t, by_begin);
        assert forall|y: Lexeme| #[trigger] ins.contains(y) <==> (r.contains(y) || y == x) by {
            if ins.contains(y) {
                let k = choose|k: int| 0 <= k < ins.len() && ins[k] == y;
                if k > 0 {
                    assert(t[k - 1] == y);
                    assert(t.contains(y));
                    if y != x {
                        let q = choose|q: int| 0 <= q < rest.len() && rest[q] == y;
                        assert(r[q + 1] == y);
                    }
                } else {
                    assert(r[0] == y);
                }
            }
            if r.contains(y) {
                let k = choose|k: int| 0 <= k < r.len() && r[k] == y;
                if k == 0 {
                    assert(ins[0] == y);
                } else {
                    assert(rest[k - 1] == y);
                    assert(rest.contains(y));
                    assert(t.contains(y));
                    let q = choose|q: int| 0 <= q < t.len() && t[q] == y;
                    assert(ins[q + 1] == y);
                }
            }
            if y == x {
                assert(t.contains(x));
                let q = choose|q: int| 0 <= q < t.len() && t[q] == x;
                assert(ins[q + 1] == x);
            }
        }
    }
}

/// A strictly sorted sequence with exactly the lexemes of `s` exists.
proof fn sorted_witness(s: Seq<Lexeme>, by_begin: bool) -> (r: Seq<Lexeme>)
    requires
        forall|i: int| 0 <= i < s.len() ==> crate::lexeme::lex_orderable(#[trigger] s[i], by_begin),
    ensures
        strictly_sorted(r, by_begin),
        forall|x: Lexeme| r.contains(x) <==> s.contains(x),
        forall|i: int| 0 <= i < r.len() ==> crate::lexeme::lex_orderable(#[trigger] r[i], by_begin),
    decreases s.len(),
{
    if s.len() == 0 {
        Seq::empty()
    } else {
        let r0 = sorted_witness(s.drop_last(), by_begin);
        let x = s.last();
        assert(crate::lexeme::lex_orderable(s[s.len() - 1], by_begin));
        let r = if r0.contains(x) {
            r0
        } else {
            lemma_insert_sorted(r0, x, by_begin);
            insert_sorted(r0, x, by_begin)
        };
        assert forall|y: Lexeme| r.contains(y) <==> s.contains(y) by {
            if s.contains(y) {
                let k = choose|k: int| 0 <= k < s.len() && s[k] == y;
                if k < s.len() - 1 {
                    assert(s.drop_last()[k] == y);
                }
            }
            if s.drop_last().contains(y) {
                let k = choose|k: int| 0 <= k < s.drop_last().len() && s.drop_last()[k] == y;
                assert(s[k] == y);
            }
            assert(s[s.len() - 1] == x);
        }
        assert forall|i: int| 0 <= i < r.len() implies crate::lexeme::lex_orderable(#[trigger] r[i], by_begin) by {
            assert(r.contains(r[i]));
            let k = choose|k: int| 0 <= k < s.len() && s[k] == r[i];
        }
        r
    }
}

/// `sorted_of` is strictly sorted and holds exactly the lexemes of `s`.
pub proof fn lemma_sorted_of(s: Seq<Lexeme>, by_begin: bool)
    requires
        forall|i: int| 0 <= i < s.len() ==> crate::lexeme::lex_orderable(#[trigger] s[i], by_begin),
    ensures
        strictly_sorted(sorted_of(s, by_begin), by_begin),
        forall|x: Lexeme| #[trigger] sorted_of(s, by_begin).contains(x) <==> s.contains(x),
{
    let w = sorted_witness(s, by_begin);
    assert(strictly_sorted(w, by_begin) && (forall|x: Lexeme| w.contains(x) <==> s.contains(x)));
}

proof fn lemma_dfs_within(comp: Seq<Lexeme>, chosen: Seq<Lexeme>, start: int, st: (Seq<Lexeme>, crate::arbitrator::Score))
    requires
        within(chosen, comp),
        within(st.0, comp),
    ensures
        within(dfs_spec(comp, chosen, start, st).0, comp),
    decreases comp.len() - start, 1int,
{
    lemma_dfs_loop_within(comp, chosen, start, update_best(st, chosen));
}

proof fn lemma_dfs_loop_within(comp: Seq<Lexeme>, chosen: Seq<Lexeme>, k: int, st: (Seq<Lexeme>, crate::arbitrator::Score))
    requires
        within(chosen, comp),
        within(st.0, comp),
    ensures
        within(dfs_loop_spec(comp, chosen, k, st).0, comp),
    decreases comp.len() - k, 0int,
{
    if 0 <= k < comp.len() {
        let st2 = if crate::arbitrator::compatible(chosen, comp[k]) {
            let c2 = chosen.push(comp[k]);
            assert(within(c2, comp)) by {
                assert forall|i: int| 0 <= i < c2.len() implies comp.contains(#[trigger] c2[i]) by {
                    if i < chosen.len() {
                        assert(c2[i] == chosen[i]);
                    } else {
                        assert(c2[i] == comp[k]);
                    }
                }
            }
            lemma_dfs_within(comp, c2, k + 1, st);
            dfs_spec(comp, c2, k + 1, st)
        } else {
            st
        };
        lemma_dfs_loop_within(comp, chosen, k + 1, st2);
    }
}

pub(crate) proof fn lemma_best_within(comp: Seq<Lexeme>)
    ensures
        within(best_of(comp), comp),
{
    if comp.len() == 1 {
        assert forall|i: int| 0 <= i < comp.len() implies comp.contains(#[trigger] comp[i]) by {}
    } else {
        lemma_dfs_within(comp, Seq::empty(), 0, (Seq::empty(), crate::arbitrator::worst_spec()));
    }
}

/// The arbitrator keeps only candidates.
pub proof fn lemma_arb_within(s: Seq<Lexeme>, i: int)
    requires
        0 <= i,
    ensures
        within(arb_from(s, i), s),
    decreases s.len() - i,
{
    if i < s.len() {
        let j = comp_end(s, i + 1, lex_end(s[i]));
        lemma_comp_end(s, i + 1, lex_end(s[i]));
        if i < j <= s.len() {
            let c = s.subrange(i, j);
            lemma_best_within(c);
            lemma_arb_within(s, j);
            let a = best_of(c);
            let b = arb_from(s, j);
            assert forall|k: int| 0 <= k < (a + b).len() implies s.contains(#[trigger] (a + b)[k]) by {
                if k < a.len() {
                    assert((a + b)[k] == a[k]);
                    assert(c.contains(a[k]));
                    let q = choose|q: int| 0 <= q < c.len() && c[q] == a[k];
                    assert(s[i + q] == a[k]);
                } else {
                    assert((a + b)[k] == b[k - a.len()]);
                }
            }
        }
    }
}

/// The `CnQuan` lexeme that fuses number `a` with quantifier `b`.
pub open spec fn fusion(a: Lexeme, b: Lexeme) -> Lexeme {
    Lexeme { begin: a.begin, length: (a.length + b.length) as usize, kind: LexemeKind::CnQuan }
}

/// `x` is a lexeme of `s`, or the fusion of a number of `s` with a
/// quantifier of `s` that starts where the number ends.
pub open spec fn from_or_fused(s: Seq<Lexeme>, x: Lexeme) -> bool {
    s.contains(x) || exists|a: Lexeme, b: Lexeme|
        #![trigger s.contains(a), s.contains(b)]
        s.contains(a) && s.contains(b) && a.kind == LexemeKind::CnNum && b.kind == LexemeKind::Count
            && b.begin == lex_end(a) && x == fusion(a, b)
}

pub proof fn lemma_fuse_elems(s: Seq<Lexeme>, i: int)
    requires
        0 <= i,
    ensures
        forall|k: int| 0 <= k < fuse_from(s, i).len() ==> from_or_fused(s, #[trigger] fuse_from(s, i)[k]),
    decreases s.len() - i,
{
    if i < s.len() {
        let f = fuse_from(s, i);
        if i + 1 < s.len() && s[i].kind == LexemeKind::CnNum && s[i + 1].kind == LexemeKind::Count && lex_end(s[i]) == s[i + 1].begin {
            lemma_fuse_elems(s, i + 2);
            let t = fuse_from(s, i + 2);
            assert forall|k: int| 0 <= k < f.len() implies from_or_fused(s, #[trigger] f[k]) by {
                if k == 0 {
                    assert(s.contains(s[i]));
                    assert(s.contains(s[i + 1]));
                    assert(f[0] == fusion(s[i], s[i + 1]));
                } else {
                    assert(f[k] == t[k - 1]);
                }
            }
        } else {
            lemma_fuse_elems(s, i + 1);
            let t = fuse_from(s, i + 1);
            assert forall|k: int| 0 <= k < f.len() implies from_or_fused(s, #[trigger] f[k]) by {
                if k == 0 {
                    assert(f[0] == s[i]);
                    assert(s.contains(s[i]));
                } else {
                    assert(f[k] == t[k - 1]);
                }
            }
        }
    }
}

/// A number followed by a quantifier that starts where the number ends.
pub open spec fn joinable(a: Lexeme, b: Lexeme) -> bool {
    a.kind == LexemeKind::CnNum && b.kind == LexemeKind::Count && b.begin == lex_end(a)
}

proof fn lemma_fuse_head(s: Seq<Lexeme>, i: int)
    requires
        0 <= i < s.len(),
    ensures
        fuse_from(s, i).len() > 0,
        i + 1 < s.len() && joinable(s[i], s[i + 1]) ==> fuse_from(s, i)[0].kind == LexemeKind::CnQuan,
        !(i + 1 < s.len() && joinable(s[i], s[i + 1])) ==> fuse_from(s, i)[0] == s[i],
{
}

proof fn lemma_fuse_no_pair(s: Seq<Lexeme>, i: int)
    requires
        0 <= i,
    ensures
        forall|k: int| 0 <= k < fuse_from(s, i).len() - 1 ==> !joinable(#[trigger] fuse_from(s, i)[k], fuse_from(s, i)[k + 1]),
    decreases s.len() - i,
{
    if i < s.len() {
        let r = fuse_from(s, i);
        let step = if i + 1 < s.len() && joinable(s[i], s[i + 1]) {
            2int
        } else {
            1int
        };
        lemma_fuse_no_pair(s, i + step);
        let t = fuse_from(s, i + step);
        assert(r == seq![r[0]] + t);
        if t.len() > 0 {
            lemma_fuse_head(s, i + step);
            lemma_fuse_head(s, i);
        }
        assert forall|k: int| 0 <= k < r.len() - 1 implies !joinable(#[trigger] r[k], r[k + 1]) by {
            if k > 0 {
                assert(r[k] == t[k - 1] && r[k + 1] == t[k]);
            } else {
                assert(r[1] == t[0]);
            }
        }
    }
}

/// Smart-mode fusion joins every number with the quantifier right after it:
/// in its result no number is followed by a quantifier that starts where
/// the number ends, and every lexeme of the result is a lexeme of the input
/// or the fusion of an input number with an input quantifier that meet.
pub proof fn lemma_fuse_joins_pairs(s: Seq<Lexeme>)
    ensures
        forall|k: int| 0 <= k < fuse_from(s, 0).len() - 1 ==> !joinable(#[trigger] fuse_from(s, 0)[k], fuse_from(s, 0)[k + 1]),
        forall|k: int| 0 <= k < fuse_from(s, 0).len() ==> from_or_fused(s, #[trigger] fuse_from(s, 0)[k]),
{
    lemma_fuse_no_pair(s, 0);
    lemma_fuse_elems(s, 0);
}

pub proof fn lemma_fused_fits(s: Seq<Lexeme>, f: Seq<Lexeme>, n: int)
    requires
        fits(s, n),
        forall|k: int| 0 <= k < f.len() ==> from_or_fused(s, #[trigger] f[k]),
        n <= usize::MAX,
    ensures
        fits(f, n),
{
    assert forall|k: int| 0 <= k < f.len() implies 1 <= (#[trigger] f[k]).length && lex_end(f[k]) <= n by {
        assert(from_or_fused(s, f[k]));
        if s.contains(f[k]) {
            let q = choose|q: int| 0 <= q < s.len() && s[q] == f[k];
        } else {
            let (a, b) = choose|a: Lexeme, b: Lexeme|
                #![trigger s.contains(a), s.contains(b)]
                s.contains(a) && s.contains(b) && a.kind == LexemeKind::CnNum && b.kind == LexemeKind::Count
                    && b.begin == lex_end(a) && f[k] == fusion(a, b);
            let qa = choose|q: int| 0 <= q < s.len() && s[q] == a;
            let qb = choose|q: int| 0 <= q < s.len() && s[q] == b;
        }
    }
}

pub proof fn lemma_uncovered_fits(s: Seq<Lexeme>, kinds: Seq<CharKind>, m: int)
    requires
        m <= kinds.len() <= usize::MAX,
    ensures
        fits(uncovered_chars(s, kinds, m), kinds.len() as int),
        forall|k: int| 0 <= k < uncovered_chars(s, kinds, m).len() ==> (#[trigger] uncovered_chars(s, kinds, m)[k]).kind == LexemeKind::CnChar
            && uncovered_chars(s, kinds, m)[k].length == 1
            && kinds[uncovered_chars(s, kinds, m)[k].begin as int] == CharKind::Chinese,
    decreases m,
{
    if m > 0 {
        lemma_uncovered_fits(s, kinds, m - 1);
        let a = uncovered_chars(s, kinds, m - 1);
        let u = uncovered_chars(s, kinds, m);
        assert forall|k: int| 0 <= k < u.len() implies 1 <= (#[trigger] u[k]).length && lex_end(u[k]) <= kinds.len()
            && u[k].kind == LexemeKind::CnChar && u[k].length == 1 && kinds[u[k].begin as int] == CharKind::Chinese by {
            if k < a.len() {
                assert(u[k] == a[k]);
            }
        }
    }
}

pub proof fn lemma_isolated_fits(s: Seq<Lexeme>, kinds: Seq<CharKind>, m: int)
    requires
        m <= kinds.len() <= usize::MAX,
    ensures
        fits(isolated_chars(s, kinds, m), kinds.len() as int),
    decreases m,
{
    if m > 0 {
        lemma_isolated_fits(s, kinds, m - 1);
        let a = isolated_chars(s, kinds, m - 1);
        let u = isolated_chars(s, kinds, m);
        assert forall|k: int| 0 <= k < u.len() implies 1 <= (#[trigger] u[k]).length && lex_end(u[k]) <= kinds.len() by {
            if k < a.len() {
                assert(u[k] == a[k]);
            }
        }
    }
}

/// The final sort keeps exactly the lexemes of its input, ordered by
/// `begin`.
pub proof fn lemma_bucket_sorted(s: Seq<Lexeme>, total: int)
    ensures
        within(bucket_sorted_spec(s, total), s),
        forall|x: Lexeme| s.contains(x) ==> #[trigger] bucket_sorted_spec(s, total).contains(x),
        begins_sorted(bucket_sorted_spec(s, total)),
        s.len() >= 2 ==> strictly_sorted(bucket_sorted_spec(s, total), true),
{
    let r = bucket_sorted_spec(s, total);
    if s.len() < 2 {
        assert forall|i: int| 0 <= i < s.len() implies s.contains(#[trigger] s[i]) by {}
    } else {
        lemma_sorted_of(s, true);
        assert forall|i: int| 0 <= i < r.len() implies s.contains(#[trigger] r[i]) by {
            assert(r.contains(r[i]));
        }
        assert forall|i: int, j: int| 0 <= i <= j < r.len() implies (#[trigger] r[i]).begin <= (#[trigger] r[j]).begin by {
            if i < j {
                assert(lex_lt(r[i], r[j], true));
            }
        }
    }
}

// ---------------------------------------------------------------------------
// Facts for the MaxWord buckets and the emission
// ---------------------------------------------------------------------------

pub proof fn lemma_uniq(s: Seq<Lexeme>)
    ensures
        within(uniq(s), s),
        forall|x: Lexeme| s.contains(x) ==> #[trigger] uniq(s).contains(x),
    decreases s.len(),
{
    if s.len() > 0 {
        let d = s.drop_last();
        lemma_uniq(d);
        let u = uniq(d);
        let r = uniq(s);
        assert forall|i: int| 0 <= i < r.len() implies s.contains(#[trigger] r[i]) by {
            if i < u.len() {
                assert(r[i] == u[i]);
                assert(d.contains(u[i]));
                let q = choose|q: int| 0 <= q < d.len() && d[q] == u[i];
                assert(s[q] == u[i]);
            } else {
                assert(r[i] == s.last());
                assert(s[s.len() - 1] == s.last());
            }
        }
        assert forall|x: Lexeme| s.contains(x) implies #[trigger] r.contains(x) by {
            let q = choose|q: int| 0 <= q < s.len() && s[q] == x;
            if q < s.len() - 1 {
                assert(d[q] == x);
                assert(u.contains(x));
                let k = choose|k: int| 0 <= k < u.len() && u[k] == x;
                if !u.contains(s.last()) {
                    assert(r[k] == x);
                }
            } else {
                if !u.contains(s.last()) {
                    assert(r[u.len() as int] == x);
                }
            }
        }
    }
}

/// In a sequence whose lexemes beginning before, at and after `p` come in
/// three blocks, the lexemes beginning at `p` are the middle block.
pub proof fn lemma_begin_at_block(s: Seq<Lexeme>, p: int, a: int, b: int)
    requires
        0 <= a <= b <= s.len(),
        forall|i: int| 0 <= i < a ==> (#[trigger] s[i]).begin != p,
        forall|i: int| a <= i < b ==> (#[trigger] s[i]).begin == p,
        forall|i: int| b <= i < s.len() ==> (#[trigger] s[i]).begin != p,
    ensures
        begin_at(s, p) == s.subrange(a, b),
    decreases s.len(),
{
    if s.len() == 0 {
        assert(s.subrange(a, b) =~= Seq::<Lexeme>::empty());
    } else {
        let d = s.drop_last();
        let l = s.len() - 1;
        assert(s.last() == s[l]);
        if b <= l {
            lemma_begin_at_block(d, p, a, b);
            assert(d.subrange(a, b) =~= s.subrange(a, b));
        } else if a < b {
            lemma_begin_at_block(d, p, a, b - 1);
            assert(d.subrange(a, b - 1).push(s[l]) =~= s.subrange(a, b));
        } else {
            lemma_begin_at_block(d, p, l, l);
            assert(s.subrange(a, b) =~= Seq::<Lexeme>::empty());
            assert(d.subrange(l, l) =~= Seq::<Lexeme>::empty());
        }
    }
}

pub proof fn lemma_begin_at_elems(s: Seq<Lexeme>, p: int)
    ensures
        within(begin_at(s, p), s),
        forall|i: int| 0 <= i < begin_at(s, p).len() ==> (#[trigger] begin_at(s, p)[i]).begin == p,
        forall|x: Lexeme| s.contains(x) && x.begin == p ==> #[trigger] begin_at(s, p).contains(x),
    decreases s.len(),
{
    if s.len() > 0 {
        let d = s.drop_last();
        lemma_begin_at_elems(d, p);
        let u = begin_at(d, p);
        let r = begin_at(s, p);
        assert forall|i: int| 0 <= i < r.len() implies s.contains(#[trigger] r[i]) && r[i].begin == p by {
            if i < u.len() {
                assert(r[i] == u[i]);
                assert(d.contains(u[i]));
                let q = choose|q: int| 0 <= q < d.len() && d[q] == u[i];
                assert(s[q] == u[i]);
            } else {
                assert(r[i] == s.last());
                assert(s[s.len() - 1] == s.last());
            }
        }
        assert forall|x: Lexeme| s.contains(x) && x.begin == p implies #[trigger] r.contains(x) by {
            let q = choose|q: int| 0 <= q < s.len() && s[q] == x;
            if q < s.len() - 1 {
                assert(d[q] == x);
                assert(u.contains(x));
                let k = choose|k: int| 0 <= k < u.len() && u[k] == x;
                assert(r[k] == x);
            } else {
                assert(r[u.len() as int] == x);
            }
        }
    }
}

pub proof fn lemma_kept_concat(a: Seq<Lexeme>, b: Seq<Lexeme>, chars: Seq<char>, stops: Set<Seq<char>>)
    ensures
        kept(a + b, chars, stops) == kept(a, chars, stops) + kept(b, chars, stops),
    decreases b.len(),
{
    if b.len() == 0 {
        assert(a + b =~= a);
        assert(kept(a, chars, stops) + kept(b, chars, stops) =~= kept(a, chars, stops));
    } else {
        lemma_kept_concat(a, b.drop_last(), chars, stops);
        assert((a + b).drop_last() =~= a + b.drop_last());
        assert((a + b).last() == b.last());
        assert(kept(a + b, chars, stops) =~= kept(a, chars, stops) + kept(b, chars, stops));
    }
}

pub proof fn lemma_kept_within(s: Seq<Lexeme>, chars: Seq<char>, stops: Set<Seq<char>>)
    ensures
        within(kept(s, chars, stops), s),
        forall|x: Lexeme| s.contains(x) && !stops.contains(lex_term(chars, x)) ==> #[trigger] kept(s, chars, stops).contains(x),
        forall|i: int| 0 <= i < kept(s, chars, stops).len() ==> !stops.contains(lex_term(chars, #[trigger] kept(s, chars, stops)[i])),
    decreases s.len(),
{
    if s.len() > 0 {
        let d = s.drop_last();
        lemma_kept_within(d, chars, stops);
        let u = kept(d, chars, stops);
        let r = kept(s, chars, stops);
        assert forall|i: int| 0 <= i < r.len() implies s.contains(#[trigger] r[i]) by {
            if i < u.len() {
                assert(r[i] == u[i]);
                assert(d.contains(u[i]));
                let q = choose|q: int| 0 <= q < d.len() && d[q] == u[i];
                assert(s[q] == u[i]);
            } else {
                assert(r[i] == s.last());
                assert(s[s.len() - 1] == s.last());
            }
        }
        assert forall|i: int| 0 <= i < r.len() implies !stops.contains(lex_term(chars, #[trigger] r[i])) by {
            if i < u.len() {
                assert(r[i] == u[i]);
            }
        }
        assert forall|x: Lexeme| s.contains(x) && !stops.contains(lex_term(chars, x)) implies #[trigger] r.contains(x) by {
            let q = choose|q: int| 0 <= q < s.len() && s[q] == x;
            if q < s.len() - 1 {
                assert(d[q] == x);
                assert(u.contains(x));
                let k = choose|k: int| 0 <= k < u.len() && u[k] == x;
                assert(r[k] == x);
            } else {
                assert(r[u.len() as int] == x);
            }
        }
    }
}

/// Under the field order, `begin`s never decrease.
pub proof fn lemma_field_order_begins(s: Seq<Lexeme>)
    requires
        strictly_sorted(s, true),
    ensures
        begins_sorted(s),
{
    assert forall|i: int, j: int| 0 <= i <= j < s.len() implies (#[trigger] s[i]).begin <= (#[trigger] s[j]).begin by {
        if i < j {
            assert(lex_lt(s[i], s[j], true));
        }
    }
}

/// Under `sort_key` order, `begin`s never decrease.
pub proof fn lemma_key_order_begins(s: Seq<Lexeme>)
    requires
        strictly_sorted(s, false),
        forall|i: int| 0 <= i < s.len() ==> (#[trigger] s[i]).begin < 0x1_0000_0000,
    ensures
        begins_sorted(s),
{
    assert forall|i: int, j: int| 0 <= i <= j < s.len() implies (#[trigger] s[i]).begin <= (#[trigger] s[j]).begin by {
        if i < j {
            assert(lex_lt(s[i], s[j], false));
            let a = s[i];
            let b = s[j];
            let ba = a.begin as int;
            let bb = b.begin as int;
            assert(ba % 0x1_0000_0000 == ba);
            assert(bb % 0x1_0000_0000 == bb);
            let ra = crate::lexeme::len_inv_spec(a.length as int) * 0x100 + crate::lexeme::priority_spec(a.kind) as int;
            let rb = crate::lexeme::len_inv_spec(b.length as int) * 0x100 + crate::lexeme::priority_spec(b.kind) as int;
            assert(0 <= ra < 0x1_0000_0000);
            assert(0 <= rb < 0x1_0000_0000);
            assert(ba * 0x1_0000_0000 + ra <= bb * 0x1_0000_0000 + rb);
            assert(ba <= bb) by (nonlinear_arith)
                requires
                    ba * 0x1_0000_0000 + ra <= bb * 0x1_0000_0000 + rb,
                    0 <= ra < 0x1_0000_0000,
                    0 <= rb < 0x1_0000_0000,
            ;
        }
    }
}

proof fn lemma_fusions_of_elems(a: Lexeme, counts: Seq<Lexeme>)
    ensures
        forall|k: int| 0 <= k < fusions_of(a, counts).len() ==> exists|b: Lexeme|
            #![trigger fusion(a, b)]
            counts.contains(b) && b.begin == lex_end(a) && #[trigger] fusions_of(a, counts)[k] == fusion(a, b),
    decreases counts.len(),
{
    if counts.len() > 0 {
        let d = counts.drop_last();
        lemma_fusions_of_elems(a, d);
        let f0 = fusions_of(a, d);
        let f = fusions_of(a, counts);
        assert forall|k: int| 0 <= k < f.len() implies exists|b: Lexeme|
            #![trigger fusion(a, b)]
            counts.contains(b) && b.begin == lex_end(a) && #[trigger] f[k] == fusion(a, b) by {
            if k < f0.len() {
                assert(f[k] == f0[k]);
                let b = choose|b: Lexeme| #![trigger fusion(a, b)] d.contains(b) && b.begin == lex_end(a) && f0[k] == fusion(a, b);
                let q = choose|q: int| 0 <= q < d.len() && d[q] == b;
                assert(counts[q] == b);
                assert(counts.contains(b));
            } else {
                let b = counts.last();
                assert(counts[counts.len() - 1] == b);
                assert(counts.contains(b));
                assert(f[k] == fusion(a, b));
            }
        }
    }
}

proof fn lemma_all_fusions_elems(nums: Seq<Lexeme>, counts: Seq<Lexeme>)
    ensures
        forall|k: int| 0 <= k < all_fusions(nums, counts).len() ==> exists|a: Lexeme, b: Lexeme|
            #![trigger fusion(a, b)]
            nums.contains(a) && counts.contains(b) && b.begin == lex_end(a) && #[trigger] all_fusions(nums, counts)[k] == fusion(a, b),
    decreases nums.len(),
{
    if nums.len() > 0 {
        let d = nums.drop_last();
        let a = nums.last();
        lemma_all_fusions_elems(d, counts);
        lemma_fusions_of_elems(a, counts);
        let f0 = all_fusions(d, counts);
        let g = fusions_of(a, counts);
        let f = all_fusions(nums, counts);
        assert forall|k: int| 0 <= k < f.len() implies exists|x: Lexeme, b: Lexeme|
            #![trigger fusion(x, b)]
            nums.contains(x) && counts.contains(b) && b.begin == lex_end(x) && #[trigger] f[k] == fusion(x, b) by {
            if k < f0.len() {
                assert(f[k] == f0[k]);
                let (x, b) = choose|x: Lexeme, b: Lexeme|
                    #![trigger fusion(x, b)]
                    d.contains(x) && counts.contains(b) && b.begin == lex_end(x) && f0[k] == fusion(x, b);
                let q = choose|q: int| 0 <= q < d.len() && d[q] == x;
                assert(nums[q] == x);
                assert(nums.contains(x));
            } else {
                assert(f[k] == g[k - f0.len()]);
                let b = choose|b: Lexeme| #![trigger fusion(a, b)] counts.contains(b) && b.begin == lex_end(a) && g[k - f0.len()] == fusion(a, b);
                assert(nums[nums.len() - 1] == a);
                assert(nums.contains(a));
            }
        }
    }
}

/// Every fusion comes from a number and a quantifier of `s` that meet.
pub proof fn lemma_fusions_spec_elems(s: Seq<Lexeme>)
    ensures
        forall|k: int| 0 <= k < fusions_spec(s).len() ==> from_or_fused(s, #[trigger] fusions_spec(s)[k]),
{
    let nums = of_kind(s, LexemeKind::CnNum);
    let counts = of_kind(s, LexemeKind::Count);
    lemma_all_fusions_elems(nums, counts);
    lemma_of_kind_elems(s, LexemeKind::CnNum);
    lemma_of_kind_elems(s, LexemeKind::Count);
    let f = fusions_spec(s);
    assert forall|k: int| 0 <= k < f.len() implies from_or_fused(s, #[trigger] f[k]) by {
        let (a, b) = choose|a: Lexeme, b: Lexeme|
            #![trigger fusion(a, b)]
            nums.contains(a) && counts.contains(b) && b.begin == lex_end(a) && f[k] == fusion(a, b);
        let qa = choose|q: int| 0 <= q < nums.len() && nums[q] == a;
        let qb = choose|q: int| 0 <= q < counts.len() && counts[q] == b;
        assert(s.contains(nums[qa]) && nums[qa].kind == LexemeKind::CnNum);
        assert(s.contains(counts[qb]) && counts[qb].kind == LexemeKind::Count);
    }
}

} // verus!

//! Smart mode segments: its tokens never overlap.
use vstd::prelude::*;

use crate::arbitrator::{
    arb_from, best_of, bucket_sorted_spec, comp_end, compatible, covered_by, dfs_loop_spec,
    dfs_spec, fuse_from, is_chain, lemma_comp_end, lex_bounded, uncovered_chars, update_best,
};
use crate::char_util::CharKind;
use crate::config::{IkConfig, IkMode};
use crate::dict::Dict;
use crate::lexeme::{lex_end, lex_lt, sorted_of, Lexeme, LexemeKind};
use crate::pipeline::{
    begins_sorted, emitted, isolated_chars, kept, kinds_of, lemma_candidates_fit, lemma_fits_within,
    lemma_kept_within, lemma_field_order_begins, lemma_sorted_of, reg_chars, smart_candidates,
    smart_core, smart_lexemes, stop_set,
};
use crate::rules::Rules;

verus! {

/// Each lexeme of `s` ends at or before the start of every later one.
pub open spec fn ordered_disjoint(s: Seq<Lexeme>) -> bool {
    forall|i: int, j: int| 0 <= i < j < s.len() ==> lex_end(#[trigger] s[i]) <= (#[trigger] s[j]).begin
}

/// No two lexemes at different places of `s` share a char.
pub open spec fn pairwise_disjoint(s: Seq<Lexeme>) -> bool {
    forall|i: int, j: int|
        0 <= i < s.len() && 0 <= j < s.len() && i != j ==> lex_end(#[trigger] s[i]) <= (#[trigger] s[j]).begin || lex_end(s[j])
            <= s[i].begin
}

// ---------------------------------------------------------------------------
// The arbitrator picks chains
// ---------------------------------------------------------------------------

proof fn lemma_chain_push(c: Seq<Lexeme>, x: Lexeme)
    requires
        is_chain(c),
        lex_bounded(x),
        compatible(c, x),
    ensures
        is_chain(c.push(x)),
{
    let d = c.push(x);
    assert forall|i: int| 0 <= i < d.len() implies lex_bounded(#[trigger] d[i]) by {
        if i < c.len() {
            assert(d[i] == c[i]);
        }
    }
    assert forall|i: int, j: int| 0 <= i < j < d.len() implies lex_end(#[trigger] d[i]) <= (#[trigger] d[j]).begin by {
        if j < c.len() {
            assert(d[i] == c[i] && d[j] == c[j]);
        } else {
            assert(d[j] == x);
            assert(d[i] == c[i]);
            let l = c.len() - 1;
            assert(c.last() == c[l]);
            if i < l {
                assert(lex_end(c[i]) <= c[l].begin);
                assert(lex_bounded(c[l]));
            }
        }
    }
}

proof fn lemma_dfs_chain(comp: Seq<Lexeme>, chosen: Seq<Lexeme>, start: int, st: (Seq<Lexeme>, crate::arbitrator::Score))
    requires
        is_chain(chosen),
        is_chain(st.0),
        forall|i: int| 0 <= i < comp.len() ==> lex_bounded(#[trigger] comp[i]),
    ensures
        is_chain(dfs_spec(comp, chosen, start, st).0),
    decreases comp.len() - start, 1int,
{
    lemma_dfs_loop_chain(comp, chosen, start, update_best(st, chosen));
}

proof fn lemma_dfs_loop_chain(comp: Seq<Lexeme>, chosen: Seq<Lexeme>, k: int, st: (Seq<Lexeme>, crate::arbitrator::Score))
    requires
        is_chain(chosen),
        is_chain(st.0),
        forall|i: int| 0 <= i < comp.len() ==> lex_bounded(#[trigger] comp[i]),
    ensures
        is_chain(dfs_loop_spec(comp, chosen, k, st).0),
    decreases comp.len() - k, 0int,
{
    if 0 <= k < comp.len() {
        let st2 = if compatible(chosen, comp[k]) {
            let c2 = chosen.push(comp[k]);
            lemma_chain_push(chosen, comp[k]);
            lemma_dfs_chain(comp, c2, k + 1, st);
            dfs_spec(comp, c2, k + 1, st)
        } else {
            st
        };
        lemma_dfs_loop_chain(comp, chosen, k + 1, st2);
    }
}

pub(crate) proof fn lemma_best_chain(comp: Seq<Lexeme>)
    requires
        forall|i: int| 0 <= i < comp.len() ==> lex_bounded(#[trigger] comp[i]),
    ensures
        is_chain(best_of(comp)),
{
    if comp.len() != 1 {
        lemma_dfs_chain(comp, Seq::empty(), 0, (Seq::empty(), crate::arbitrator::worst_spec()));
    }
}

/// The largest end seen while extending a component from `j`.
pub open spec fn comp_max(s: Seq<Lexeme>, j: int, end: int) -> int
    decreases s.len() - j,
{
    if 0 <= j < s.len() && s[j].begin < end {
        comp_max(s, j + 1, if lex_end(s[j]) > end {
            lex_end(s[j])
        } else {
            end
        })
    } else {
        end
    }
}

/// A component ends where the next lexeme starts at or after every end
/// inside it.
proof fn lemma_comp_bound(s: Seq<Lexeme>, j: int, end: int)
    requires
        0 <= j <= s.len(),
    ensures
        end <= comp_max(s, j, end),
        forall|t: int| j <= t < comp_end(s, j, end) ==> lex_end(#[trigger] s[t]) <= comp_max(s, j, end),
        comp_end(s, j, end) < s.len() ==> s[comp_end(s, j, end)].begin >= comp_max(s, j, end),
    decreases s.len() - j,
{
    if 0 <= j < s.len() && s[j].begin < end {
        let e2 = if lex_end(s[j]) > end {
            lex_end(s[j])
        } else {
            end
        };
        lemma_comp_bound(s, j + 1, e2);
    }
}

/// Everything the arbitrator keeps from `s[i..]` comes from `s[i..]`.
proof fn lemma_arb_from_suffix(s: Seq<Lexeme>, i: int)
    requires
        0 <= i,
    ensures
        forall|k: int| 0 <= k < arb_from(s, i).len() ==> exists|t: int| i <= t < s.len() && s[t] == #[trigger] arb_from(s, i)[k],
    decreases s.len() - i,
{
    if i < s.len() {
        let j = comp_end(s, i + 1, lex_end(s[i]));
        lemma_comp_end(s, i + 1, lex_end(s[i]));
        if i < j <= s.len() {
            let c = s.subrange(i, j);
            crate::pipeline::lemma_best_within(c);
            lemma_arb_from_suffix(s, j);
            let a = best_of(c);
            let b = arb_from(s, j);
            assert forall|k: int| 0 <= k < (a + b).len() implies exists|t: int| i <= t < s.len() && s[t] == #[trigger] (a + b)[k] by {
                if k < a.len() {
                    assert((a + b)[k] == a[k]);
                    assert(c.contains(a[k]));
                    let q = choose|q: int| 0 <= q < c.len() && c[q] == a[k];
                    assert(s[i + q] == a[k]);
                } else {
                    assert((a + b)[k] == b[k - a.len()]);
                    let t = choose|t: int| j <= t < s.len() && s[t] == b[k - a.len()];
                }
            }
        }
    }
}

/// The arbitrator keeps a chain.
pub(crate) proof fn lemma_arb_chain(s: Seq<Lexeme>, i: int)
    requires
        0 <= i,
        begins_sorted(s),
        forall|t: int| 0 <= t < s.len() ==> lex_bounded(#[trigger] s[t]),
    ensures
        is_chain(arb_from(s, i)),
    decreases s.len() - i,
{
    if i < s.len() {
        let j = comp_end(s, i + 1, lex_end(s[i]));
        lemma_comp_end(s, i + 1, lex_end(s[i]));
        if i < j <= s.len() {
            let c = s.subrange(i, j);
            assert forall|t: int| 0 <= t < c.len() implies lex_bounded(#[trigger] c[t]) by {
                assert(c[t] == s[i + t]);
            }
            lemma_best_chain(c);
            crate::pipeline::lemma_best_within(c);
            lemma_arb_chain(s, j);
            lemma_arb_from_suffix(s, j);
            lemma_comp_bound(s, i + 1, lex_end(s[i]));
            let e = comp_max(s, i + 1, lex_end(s[i]));
            let a = best_of(c);
            let b = arb_from(s, j);
            assert forall|k: int| 0 <= k < a.len() implies lex_end(#[trigger] a[k]) <= e by {
                assert(c.contains(a[k]));
                let q = choose|q: int| 0 <= q < c.len() && c[q] == a[k];
                assert(s[i + q] == a[k]);
                if q > 0 {
                    assert(i + 1 <= i + q < j);
                }
            }
            assert forall|k: int| 0 <= k < b.len() implies (#[trigger] b[k]).begin >= e by {
                let t = choose|t: int| j <= t < s.len() && s[t] == b[k];
                assert(s[j].begin <= s[t].begin);
            }
            let r = a + b;
            assert forall|x: int| 0 <= x < r.len() implies lex_bounded(#[trigger] r[x]) by {
                if x < a.len() {
                    assert(r[x] == a[x]);
                } else {
                    assert(r[x] == b[x - a.len()]);
                }
            }
            assert forall|x: int, y: int| 0 <= x < y < r.len() implies lex_end(#[trigger] r[x]) <= (#[trigger] r[y]).begin by {
                if y < a.len() {
                    assert(r[x] == a[x] && r[y] == a[y]);
                } else if x < a.len() {
                    assert(r[x] == a[x] && r[y] == b[y - a.len()]);
                } else {
                    assert(r[x] == b[x - a.len()] && r[y] == b[y - a.len()]);
                }
            }
        }
    }
}

// ---------------------------------------------------------------------------
// Fusing keeps a chain
// ---------------------------------------------------------------------------

proof fn lemma_chain_begins(s: Seq<Lexeme>, i: int, t: int)
    requires
        is_chain(s),
        0 <= i <= t < s.len(),
    ensures
        s[i].begin <= s[t].begin,
{
    if i < t {
        assert(lex_end(s[i]) <= s[t].begin);
    }
}

proof fn lemma_fuse_from_begins(s: Seq<Lexeme>, i: int)
    requires
        is_chain(s),
        0 <= i < s.len(),
    ensures
        forall|k: int| 0 <= k < fuse_from(s, i).len() ==> (#[trigger] fuse_from(s, i)[k]).begin >= s[i].begin,
    decreases s.len() - i,
{
    let f = fuse_from(s, i);
    if i + 1 < s.len() && s[i].kind == LexemeKind::CnNum && s[i + 1].kind == LexemeKind::Count && lex_end(s[i])
        == s[i + 1].begin {
        if i + 2 < s.len() {
            lemma_fuse_from_begins(s, i + 2);
            lemma_chain_begins(s, i, i + 2);
        }
        assert forall|k: int| 0 <= k < f.len() implies (#[trigger] f[k]).begin >= s[i].begin by {
            if k > 0 {
                assert(f[k] == fuse_from(s, i + 2)[k - 1]);
            }
        }
    } else {
        if i + 1 < s.len() {
            lemma_fuse_from_begins(s, i + 1);
            lemma_chain_begins(s, i, i + 1);
        }
        assert forall|k: int| 0 <= k < f.len() implies (#[trigger] f[k]).begin >= s[i].begin by {
            if k > 0 {
                assert(f[k] == fuse_from(s, i + 1)[k - 1]);
            }
        }
    }
}

proof fn lemma_fuse_ordered(s: Seq<Lexeme>, i: int)
    requires
        is_chain(s),
        0 <= i,
    ensures
        ordered_disjoint(fuse_from(s, i)),
    decreases s.len() - i,
{
    if i < s.len() {
        let f = fuse_from(s, i);
        let fused_here = i + 1 < s.len() && s[i].kind == LexemeKind::CnNum && s[i + 1].kind == LexemeKind::Count
            && lex_end(s[i]) == s[i + 1].begin;
        let i2 = if fused_here {
            i + 2
        } else {
            i + 1
        };
        lemma_fuse_ordered(s, i2);
        let t = fuse_from(s, i2);
        let h = f[0];
        assert(lex_end(h) == lex_end(s[i2 - 1]));
        if i2 < s.len() {
            lemma_fuse_from_begins(s, i2);
            assert(lex_end(s[i2 - 1]) <= s[i2].begin);
        }
        assert forall|x: int, y: int| 0 <= x < y < f.len() implies lex_end(#[trigger] f[x]) <= (#[trigger] f[y]).begin by {
            assert(f[y] == t[y - 1]);
            if x > 0 {
                assert(f[x] == t[x - 1]);
            }
        }
    }
}

// ---------------------------------------------------------------------------
// The added single chars sit where nothing else is
// ---------------------------------------------------------------------------

proof fn lemma_uncovered_props(s: Seq<Lexeme>, kinds: Seq<CharKind>, m: int)
    requires
        m <= usize::MAX,
    ensures
        forall|k: int| 0 <= k < uncovered_chars(s, kinds, m).len() ==> (#[trigger] uncovered_chars(s, kinds, m)[k]).length == 1
            && !covered_by(s, uncovered_chars(s, kinds, m)[k].begin as int) && uncovered_chars(s, kinds, m)[k].begin < m
            && 0 <= uncovered_chars(s, kinds, m)[k].begin,
        forall|x: int, y: int| 0 <= x < y < uncovered_chars(s, kinds, m).len() ==> (#[trigger] uncovered_chars(s, kinds, m)[x]).begin
            < (#[trigger] uncovered_chars(s, kinds, m)[y]).begin,
    decreases m,
{
    if m > 0 {
        lemma_uncovered_props(s, kinds, m - 1);
        let a = uncovered_chars(s, kinds, m - 1);
        let u = uncovered_chars(s, kinds, m);
        assert forall|k: int| 0 <= k < u.len() implies (#[trigger] u[k]).length == 1 && !covered_by(s, u[k].begin as int)
            && u[k].begin < m && 0 <= u[k].begin by {
            if k < a.len() {
                assert(u[k] == a[k]);
            }
        }
        assert forall|x: int, y: int| 0 <= x < y < u.len() implies (#[trigger] u[x]).begin < (#[trigger] u[y]).begin by {
            assert(u[x] == a[x]);
            if y < a.len() {
                assert(u[y] == a[y]);
            }
        }
    }
}

proof fn lemma_isolated_props(s: Seq<Lexeme>, kinds: Seq<CharKind>, m: int)
    requires
        m <= usize::MAX,
    ensures
        forall|k: int| 0 <= k < isolated_chars(s, kinds, m).len() ==> (#[trigger] isolated_chars(s, kinds, m)[k]).length == 1
            && !covered_by(s, isolated_chars(s, kinds, m)[k].begin as int) && isolated_chars(s, kinds, m)[k].begin < m
            && 0 <= isolated_chars(s, kinds, m)[k].begin,
        forall|x: int, y: int| 0 <= x < y < isolated_chars(s, kinds, m).len() ==> (#[trigger] isolated_chars(s, kinds, m)[x]).begin
            < (#[trigger] isolated_chars(s, kinds, m)[y]).begin,
    decreases m,
{
    if m > 0 {
        lemma_isolated_props(s, kinds, m - 1);
        let a = isolated_chars(s, kinds, m - 1);
        let u = isolated_chars(s, kinds, m);
        assert forall|k: int| 0 <= k < u.len() implies (#[trigger] u[k]).length == 1 && !covered_by(s, u[k].begin as int)
            && u[k].begin < m && 0 <= u[k].begin by {
            if k < a.len() {
                assert(u[k] == a[k]);
            }
        }
        assert forall|x: int, y: int| 0 <= x < y < u.len() implies (#[trigger] u[x]).begin < (#[trigger] u[y]).begin by {
            assert(u[x] == a[x]);
            if y < a.len() {
                assert(u[y] == a[y]);
            }
        }
    }
}

/// Appending single chars at ascending positions that `s` leaves uncovered
/// keeps every pair of lexemes disjoint.
proof fn lemma_add_singles(s: Seq<Lexeme>, u: Seq<Lexeme>)
    requires
        pairwise_disjoint(s),
        forall|k: int| 0 <= k < u.len() ==> (#[trigger] u[k]).length == 1 && !covered_by(s, u[k].begin as int),
        forall|x: int, y: int| 0 <= x < y < u.len() ==> (#[trigger] u[x]).begin < (#[trigger] u[y]).begin,
    ensures
        pairwise_disjoint(s + u),
{
    let r = s + u;
    assert forall|i: int, j: int|
        0 <= i < r.len() && 0 <= j < r.len() && i != j implies lex_end(#[trigger] r[i]) <= (#[trigger] r[j]).begin || lex_end(r[j])
            <= r[i].begin by {
        if i < s.len() && j < s.len() {
            assert(r[i] == s[i] && r[j] == s[j]);
        } else if i < s.len() {
            let x = u[j - s.len()];
            assert(r[i] == s[i] && r[j] == x);
            if !(lex_end(s[i]) <= x.begin || lex_end(x) <= s[i].begin) {
                assert(s[i].begin <= x.begin < lex_end(s[i]));
                assert(covered_by(s, x.begin as int));
            }
        } else if j < s.len() {
            let x = u[i - s.len()];
            assert(r[j] == s[j] && r[i] == x);
            if !(lex_end(s[j]) <= x.begin || lex_end(x) <= s[j].begin) {
                assert(s[j].begin <= x.begin < lex_end(s[j]));
                assert(covered_by(s, x.begin as int));
            }
        } else {
            assert(r[i] == u[i - s.len()] && r[j] == u[j - s.len()]);
        }
    }
}

// ---------------------------------------------------------------------------
// Smart mode
// ---------------------------------------------------------------------------

/// The lexemes Smart mode sorts are pairwise disjoint.
proof fn lemma_smart_full_disjoint(chars: Seq<char>, orig: Seq<char>, kinds: Seq<CharKind>, dict: Dict, rules: Rules)
    requires
        chars.len() == orig.len() == kinds.len(),
        chars.len() <= u32::MAX,
        chars.len() < usize::MAX,
    ensures
        pairwise_disjoint(
            smart_core(chars, orig, kinds, dict, rules) + isolated_chars(
                smart_core(chars, orig, kinds, dict, rules),
                kinds,
                chars.len() as int,
            ),
        ),
{
    let n = chars.len() as int;
    let cands = smart_candidates(chars, orig, kinds, dict, rules);
    lemma_candidates_fit(chars, orig, kinds, dict, rules);
    assert forall|i: int| 0 <= i < cands.len() implies crate::lexeme::lex_orderable(#[trigger] cands[i], true) by {}
    lemma_sorted_of(cands, true);
    let sorted = sorted_of(cands, true);
    assert forall|i: int| 0 <= i < sorted.len() implies cands.contains(#[trigger] sorted[i]) by {
        assert(sorted.contains(sorted[i]));
    }
    lemma_fits_within(sorted, cands, n);
    lemma_field_order_begins(sorted);
    assert forall|t: int| 0 <= t < sorted.len() implies lex_bounded(#[trigger] sorted[t]) by {}
    lemma_arb_chain(sorted, 0);
    let arb = arb_from(sorted, 0);
    lemma_fuse_ordered(arb, 0);
    let fused = fuse_from(arb, 0);
    assert(pairwise_disjoint(fused)) by {
        assert forall|i: int, j: int|
            0 <= i < fused.len() && 0 <= j < fused.len() && i != j implies lex_end(#[trigger] fused[i]) <= (#[trigger] fused[j]).begin
                || lex_end(fused[j]) <= fused[i].begin by {
            if i < j {
                assert(lex_end(fused[i]) <= fused[j].begin);
            } else {
                assert(lex_end(fused[j]) <= fused[i].begin);
            }
        }
    }
    let unc = uncovered_chars(fused, kinds, n);
    lemma_uncovered_props(fused, kinds, n);
    lemma_add_singles(fused, unc);
    let core = fused + unc;
    let iso = isolated_chars(core, kinds, n);
    lemma_isolated_props(core, kinds, n);
    lemma_add_singles(core, iso);
}

/// Smart mode's tokens do not overlap: every token ends (in chars and in
/// bytes) at or before the start of every later token.
pub proof fn lemma_smart_tokens_disjoint(text: Seq<char>, cfg: IkConfig, dict: Dict, rules: Rules)
    requires
        cfg.mode == IkMode::Smart,
        crate::segmenter::utf8_len(text) <= u32::MAX,
        text.len() < usize::MAX,
    ensures
        ordered_disjoint(emitted(text, cfg, dict, rules)),
        forall|i: int, j: int| 0 <= i < j < crate::tokenizer::ranges_spec(text, cfg, dict, rules).len()
            ==> (#[trigger] crate::tokenizer::ranges_spec(text, cfg, dict, rules)[i]).end_offset
                <= (#[trigger] crate::tokenizer::ranges_spec(text, cfg, dict, rules)[j]).start_offset,
{
    let chars = reg_chars(text, cfg.lowercase);
    let kinds = kinds_of(chars);
    let n = text.len() as int;
    crate::tokenizer::lemma_utf8_len_ge(text);
    lemma_smart_full_disjoint(chars, text, kinds, dict, rules);
    let core = smart_core(chars, text, kinds, dict, rules);
    let full = core + isolated_chars(core, kinds, n);
    let sl = bucket_sorted_spec(full, n);
    assert(sl == smart_lexemes(text, cfg, dict, rules));
    crate::laws::lemma_emitted_fits(text, cfg, dict, rules);
    crate::laws::lemma_smart_fits(text, cfg, dict, rules);
    assert(ordered_disjoint(sl)) by {
        crate::pipeline::lemma_bucket_sorted(full, n);
        if full.len() >= 2 {
            assert forall|i: int, j: int| 0 <= i < j < sl.len() implies lex_end(#[trigger] sl[i]) <= (#[trigger] sl[j]).begin by {
                assert(lex_lt(sl[i], sl[j], true));
                assert(sl[i] != sl[j]);
                assert(full.contains(sl[i]));
                assert(full.contains(sl[j]));
                let a = choose|a: int| 0 <= a < full.len() && full[a] == sl[i];
                let c = choose|c: int| 0 <= c < full.len() && full[c] == sl[j];
                assert(a != c);
                assert(sl[i].length >= 1 && sl[j].length >= 1);
            }
        } else {
            assert forall|i: int, j: int| 0 <= i < j < sl.len() implies lex_end(#[trigger] sl[i]) <= (#[trigger] sl[j]).begin by {
                assert(false);
            }
        }
    }
    let stops = stop_set(cfg, dict, rules);
    lemma_kept_ordered(sl, chars, stops);
    let e = emitted(text, cfg, dict, rules);
    let r = crate::tokenizer::ranges_spec(text, cfg, dict, rules);
    assert(text.take(n) =~= text);
    assert forall|i: int, j: int| 0 <= i < j < r.len() implies (#[trigger] r[i]).end_offset <= (#[trigger] r[j]).start_offset by {
        crate::segmenter::lemma_utf8_len_take_mono(text, lex_end(e[i]), e[j].begin as int);
        crate::segmenter::lemma_utf8_len_take_mono(text, e[j].begin as int, n);
        crate::segmenter::lemma_utf8_len_take_mono(text, lex_end(e[i]), n);
    }
}

/// Dropping stopwords keeps the lexemes in order and apart.
proof fn lemma_kept_ordered(s: Seq<Lexeme>, chars: Seq<char>, stops: Set<Seq<char>>)
    requires
        ordered_disjoint(s),
    ensures
        ordered_disjoint(kept(s, chars, stops)),
    decreases s.len(),
{
    if s.len() > 0 {
        let d = s.drop_last();
        assert(ordered_disjoint(d)) by {
            assert forall|i: int, j: int| 0 <= i < j < d.len() implies lex_end(#[trigger] d[i]) <= (#[trigger] d[j]).begin by {
                assert(d[i] == s[i] && d[j] == s[j]);
            }
        }
        lemma_kept_ordered(d, chars, stops);
        lemma_kept_within(d, chars, stops);
        let a = kept(d, chars, stops);
        let r = kept(s, chars, stops);
        assert forall|i: int, j: int| 0 <= i < j < r.len() implies lex_end(#[trigger] r[i]) <= (#[trigger] r[j]).begin by {
            if j < a.len() {
                assert(r[i] == a[i] && r[j] == a[j]);
            } else {
                assert(r[j] == s.last());
                assert(r[i] == a[i]);
                assert(d.contains(a[i]));
                let q = choose|q: int| 0 <= q < d.len() && d[q] == a[i];
                assert(s[q] == a[i]);
                assert(s[s.len() - 1] == s.last());
            }
        }
    }
}

// ---------------------------------------------------------------------------
// Smart mode covers every letter, digit and CJK char
// ---------------------------------------------------------------------------

proof fn lemma_uncovered_has(s: Seq<Lexeme>, kinds: Seq<CharKind>, m: int, i: int)
    requires
        0 <= i < m,
        m <= usize::MAX,
        !covered_by(s, i),
        kinds[i] == CharKind::Chinese,
    ensures
        uncovered_chars(s, kinds, m).contains(Lexeme { begin: i as usize, length: 1, kind: LexemeKind::CnChar }),
    decreases m,
{
    let x = Lexeme { begin: i as usize, length: 1, kind: LexemeKind::CnChar };
    let a = uncovered_chars(s, kinds, m - 1);
    if i < m - 1 {
        lemma_uncovered_has(s, kinds, m - 1, i);
        let j = choose|j: int| 0 <= j < a.len() && a[j] == x;
        assert(uncovered_chars(s, kinds, m)[j] == x);
    } else {
        assert(uncovered_chars(s, kinds, m)[a.len() as int] == x);
    }
}

/// The kind of the single-char lexeme Smart adds for an uncovered char.
pub open spec fn single_kind(k: CharKind) -> LexemeKind {
    if k == CharKind::English {
        LexemeKind::English
    } else if k == CharKind::Arabic {
        LexemeKind::Arabic
    } else {
        LexemeKind::OtherCjk
    }
}

proof fn lemma_isolated_has(s: Seq<Lexeme>, kinds: Seq<CharKind>, m: int, i: int)
    requires
        0 <= i < m,
        m <= usize::MAX,
        !covered_by(s, i),
        kinds[i] == CharKind::English || kinds[i] == CharKind::Arabic || kinds[i] == CharKind::OtherCjk,
    ensures
        isolated_chars(s, kinds, m).contains(Lexeme { begin: i as usize, length: 1, kind: single_kind(kinds[i]) }),
    decreases m,
{
    let x = Lexeme { begin: i as usize, length: 1, kind: single_kind(kinds[i]) };
    let a = isolated_chars(s, kinds, m - 1);
    if i < m - 1 {
        lemma_isolated_has(s, kinds, m - 1, i);
        let j = choose|j: int| 0 <= j < a.len() && a[j] == x;
        assert(isolated_chars(s, kinds, m)[j] == x);
    } else {
        assert(isolated_chars(s, kinds, m)[a.len() as int] == x);
    }
}

proof fn lemma_covered_concat(a: Seq<Lexeme>, b: Seq<Lexeme>, i: int)
    requires
        covered_by(a, i) || covered_by(b, i),
    ensures
        covered_by(a + b, i),
{
    if covered_by(a, i) {
        let t = choose|t: int| 0 <= t < a.len() && (#[trigger] a[t]).begin <= i < lex_end(a[t]);
        assert((a + b)[t] == a[t]);
    } else {
        let t = choose|t: int| 0 <= t < b.len() && (#[trigger] b[t]).begin <= i < lex_end(b[t]);
        assert((a + b)[a.len() + t] == b[t]);
    }
}

proof fn lemma_covered_by_member(s: Seq<Lexeme>, x: Lexeme, i: int)
    requires
        s.contains(x),
        x.begin <= i < lex_end(x),
    ensures
        covered_by(s, i),
{
    let t = choose|t: int| 0 <= t < s.len() && s[t] == x;
    assert(s[t].begin <= i < lex_end(s[t]));
}

/// Smart mode leaves no letter, digit or CJK char out: every such char of
/// the text lies inside some lexeme of the Smart segmentation (stopword
/// filtering may then drop that lexeme's token).
pub proof fn lemma_smart_covers(text: Seq<char>, cfg: IkConfig, dict: Dict, rules: Rules, i: int)
    requires
        0 <= i < text.len(),
        text.len() <= u32::MAX,
        text.len() < usize::MAX,
        kinds_of(reg_chars(text, cfg.lowercase))[i] != CharKind::Useless,
    ensures
        covered_by(smart_lexemes(text, cfg, dict, rules), i),
{
    let chars = reg_chars(text, cfg.lowercase);
    let kinds = kinds_of(chars);
    let n = text.len() as int;
    let cands = smart_candidates(chars, text, kinds, dict, rules);
    let arb = arb_from(sorted_of(cands, true), 0);
    let fused = fuse_from(arb, 0);
    let unc = uncovered_chars(fused, kinds, n);
    let core = fused + unc;
    let iso = isolated_chars(core, kinds, n);
    let full = core + iso;
    if covered_by(fused, i) {
        lemma_covered_concat(fused, unc, i);
    } else if kinds[i] == CharKind::Chinese {
        lemma_uncovered_has(fused, kinds, n, i);
        lemma_covered_by_member(unc, Lexeme { begin: i as usize, length: 1, kind: LexemeKind::CnChar }, i);
        lemma_covered_concat(fused, unc, i);
    }
    if covered_by(core, i) {
        lemma_covered_concat(core, iso, i);
    } else {
        lemma_isolated_has(core, kinds, n, i);
        lemma_covered_by_member(iso, Lexeme { begin: i as usize, length: 1, kind: single_kind(kinds[i]) }, i);
        lemma_covered_concat(core, iso, i);
    }
    let y_t = choose|t: int| 0 <= t < full.len() && (#[trigger] full[t]).begin <= i < lex_end(full[t]);
    let y = full[y_t];
    assert(full.contains(y));
    let sl = bucket_sorted_spec(full, n);
    assert(sl == smart_lexemes(text, cfg, dict, rules));
    crate::pipeline::lemma_bucket_sorted(full, n);
    assert(sl.contains(y));
    lemma_covered_by_member(sl, y, i);
}

} // verus!

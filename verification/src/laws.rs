//! Properties of the tokenizer as a whole.
use vstd::prelude::*;

use crate::arbitrator::{
    all_fusions, arb_from, bucket_sorted_spec, fuse_from, fusions_of, fusions_spec, of_kind,
    uncovered_chars,
};
use crate::char_util::CharKind;
use crate::config::{IkConfig, IkMode};
use crate::dict::Dict;
use crate::lexeme::{lex_end, sorted_of, Lexeme, LexemeKind};
use crate::pipeline::{
    begin_at, emitted, fits, from_or_fused, fusion, isolated_chars, kept, kinds_of,
    lemma_arb_within, lemma_begin_at_elems, lemma_bucket_sorted, lemma_candidates_fit,
    lemma_cjk_at_fits, lemma_fits_concat, lemma_fits_within, lemma_fuse_elems, lemma_fused_fits,
    lemma_fusions_spec_elems, lemma_hit_lexemes, lemma_kept_within, lemma_sorted_of,
    lemma_uncovered_fits, lemma_uniq, lex_term, maxword_lexemes, mode_lexemes, mw_aux, mw_bucket,
    mw_upto, reg_chars, single_at, smart_candidates, smart_core, smart_lexemes, stop_set, within,
};
use crate::rules::Rules;
use crate::segmenter::{cjk_at, cjk_upto, cn_kind, letter_spec, quant_spec};

verus! {

proof fn lemma_cjk_upto_member(chars: Seq<char>, orig: Seq<char>, kinds: Seq<CharKind>, dict: Dict, rules: Rules, m: int, x: Lexeme)
    requires
        m <= chars.len() == orig.len() == kinds.len(),
        chars.len() < usize::MAX,
        cjk_upto(chars, orig, kinds, dict, rules, m).contains(x),
    ensures
        0 <= x.begin < m,
        cjk_at(chars, orig, kinds, dict, rules, x.begin as int).contains(x),
    decreases m,
{
    if m <= 0 {
        assert(false);
    } else {
        let a = cjk_upto(chars, orig, kinds, dict, rules, m - 1);
        let b = cjk_at(chars, orig, kinds, dict, rules, m - 1);
        let q = choose|q: int| 0 <= q < (a + b).len() && (a + b)[q] == x;
        if q < a.len() {
            assert(a[q] == x);
            assert(a.contains(x));
            lemma_cjk_upto_member(chars, orig, kinds, dict, rules, m - 1, x);
        } else {
            assert(b[q - a.len()] == x);
            lemma_cjk_at_fits(chars, orig, kinds, dict, rules, m - 1);
        }
    }
}

proof fn lemma_cjk_at_kinds(chars: Seq<char>, orig: Seq<char>, kinds: Seq<CharKind>, dict: Dict, rules: Rules, p: int)
    ensures
        forall|i: int| 0 <= i < cjk_at(chars, orig, kinds, dict, rules, p).len() ==> (#[trigger] cjk_at(chars, orig, kinds, dict, rules, p)[i]).kind == LexemeKind::CnChar
            || cjk_at(chars, orig, kinds, dict, rules, p)[i].kind == LexemeKind::CnWord,
{
    let c = cjk_at(chars, orig, kinds, dict, rules, p);
    if kinds[p] == CharKind::Chinese {
        let n = chars.len() as int;
        let ub = crate::segmenter::unblocked(crate::dict::prefix_hits(dict.main_terms(), chars.subrange(p, n)), orig, p, rules.removed_main());
        let ex = crate::rules::set_prefix_hits(rules.extra_words(), orig.subrange(p, orig.len() as int));
        lemma_hit_lexemes(p, ub, false);
        lemma_hit_lexemes(p, ex, false);
        let a = crate::segmenter::hit_lexemes(p, ub, false);
        let b = crate::segmenter::hit_lexemes(p, ex, false);
        assert forall|i: int| 0 <= i < c.len() implies (#[trigger] c[i]).kind == LexemeKind::CnChar || c[i].kind == LexemeKind::CnWord by {
            if i < a.len() {
                assert(c[i] == a[i]);
            } else {
                assert(c[i] == b[i - a.len()]);
            }
        }
    }
}

proof fn lemma_of_kind_member(s: Seq<Lexeme>, k: LexemeKind, x: Lexeme)
    requires
        s.contains(x),
        x.kind == k,
    ensures
        of_kind(s, k).contains(x),
    decreases s.len(),
{
    let d = s.drop_last();
    let q = choose|q: int| 0 <= q < s.len() && s[q] == x;
    if q < s.len() - 1 {
        assert(d[q] == x);
        lemma_of_kind_member(d, k, x);
        let a = of_kind(d, k);
        let j = choose|j: int| 0 <= j < a.len() && a[j] == x;
        assert(of_kind(s, k)[j] == x);
    } else {
        assert(s.last() == x);
        assert(of_kind(s, k)[of_kind(d, k).len() as int] == x);
    }
}

proof fn lemma_fusions_of_member(a: Lexeme, counts: Seq<Lexeme>, b: Lexeme)
    requires
        counts.contains(b),
        b.begin == lex_end(a),
    ensures
        fusions_of(a, counts).contains(fusion(a, b)),
    decreases counts.len(),
{
    let d = counts.drop_last();
    let q = choose|q: int| 0 <= q < counts.len() && counts[q] == b;
    if q < counts.len() - 1 {
        assert(d[q] == b);
        lemma_fusions_of_member(a, d, b);
        let f = fusions_of(a, d);
        let j = choose|j: int| 0 <= j < f.len() && f[j] == fusion(a, b);
        assert(fusions_of(a, counts)[j] == fusion(a, b));
    } else {
        assert(counts.last() == b);
        assert(fusions_of(a, counts)[fusions_of(a, d).len() as int] == fusion(a, b));
    }
}

proof fn lemma_all_fusions_member(nums: Seq<Lexeme>, counts: Seq<Lexeme>, a: Lexeme, b: Lexeme)
    requires
        nums.contains(a),
        counts.contains(b),
        b.begin == lex_end(a),
    ensures
        all_fusions(nums, counts).contains(fusion(a, b)),
    decreases nums.len(),
{
    let d = nums.drop_last();
    let q = choose|q: int| 0 <= q < nums.len() && nums[q] == a;
    let f0 = all_fusions(d, counts);
    if q < nums.len() - 1 {
        assert(d[q] == a);
        lemma_all_fusions_member(d, counts, a, b);
        let j = choose|j: int| 0 <= j < f0.len() && f0[j] == fusion(a, b);
        assert(all_fusions(nums, counts)[j] == fusion(a, b));
    } else {
        assert(nums.last() == a);
        lemma_fusions_of_member(a, counts, b);
        let g = fusions_of(a, counts);
        let j = choose|j: int| 0 <= j < g.len() && g[j] == fusion(a, b);
        assert(all_fusions(nums, counts)[f0.len() + j] == fusion(a, b));
    }
}

/// A number and a quantifier of `s` that meet give a fusion.
proof fn lemma_fusion_member(s: Seq<Lexeme>, a: Lexeme, b: Lexeme)
    requires
        s.contains(a),
        s.contains(b),
        a.kind == LexemeKind::CnNum,
        b.kind == LexemeKind::Count,
        b.begin == lex_end(a),
    ensures
        fusions_spec(s).contains(fusion(a, b)),
{
    lemma_of_kind_member(s, LexemeKind::CnNum, a);
    lemma_of_kind_member(s, LexemeKind::Count, b);
    lemma_all_fusions_member(of_kind(s, LexemeKind::CnNum), of_kind(s, LexemeKind::Count), a, b);
}

proof fn lemma_mw_upto_member(chars: Seq<char>, orig: Seq<char>, kinds: Seq<CharKind>, dict: Dict, rules: Rules, ensure: bool, m: int, p: int, x: Lexeme)
    requires
        0 <= p < m,
        mw_bucket(chars, orig, kinds, dict, rules, ensure, p).contains(x),
    ensures
        mw_upto(chars, orig, kinds, dict, rules, ensure, m).contains(x),
    decreases m,
{
    let a = mw_upto(chars, orig, kinds, dict, rules, ensure, m - 1);
    let b = mw_bucket(chars, orig, kinds, dict, rules, ensure, m - 1);
    if p < m - 1 {
        lemma_mw_upto_member(chars, orig, kinds, dict, rules, ensure, m - 1, p, x);
        let j = choose|j: int| 0 <= j < a.len() && a[j] == x;
        assert((a + b)[j] == x);
    } else {
        let j = choose|j: int| 0 <= j < b.len() && b[j] == x;
        assert((a + b)[a.len() + j] == x);
    }
}

/// A lexeme at `x.begin` that is a CJK hit, the forced single char, or an
/// auxiliary lexeme is in the MaxWord bucket of `x.begin`.
proof fn lemma_in_bucket(chars: Seq<char>, orig: Seq<char>, kinds: Seq<CharKind>, dict: Dict, rules: Rules, ensure: bool, x: Lexeme)
    requires
        cjk_at(chars, orig, kinds, dict, rules, x.begin as int).contains(x) || single_at(kinds, x.begin as int, ensure).contains(x)
            || mw_aux(chars, orig, kinds, dict, rules, ensure).contains(x),
    ensures
        mw_bucket(chars, orig, kinds, dict, rules, ensure, x.begin as int).contains(x),
{
    let p = x.begin as int;
    let c = cjk_at(chars, orig, kinds, dict, rules, p);
    let sg = single_at(kinds, p, ensure);
    let aux = mw_aux(chars, orig, kinds, dict, rules, ensure);
    let ba = begin_at(aux, p);
    lemma_begin_at_elems(aux, p);
    let all = c + sg + ba;
    if c.contains(x) {
        let j = choose|j: int| 0 <= j < c.len() && c[j] == x;
        assert(all[j] == x);
    } else if sg.contains(x) {
        let j = choose|j: int| 0 <= j < sg.len() && sg[j] == x;
        assert(all[c.len() + j] == x);
    } else {
        assert(ba.contains(x));
        let j = choose|j: int| 0 <= j < ba.len() && ba[j] == x;
        assert(all[c.len() + sg.len() + j] == x);
    }
    crate::pipeline::lemma_mw_bucket(chars, orig, kinds, dict, rules, ensure, p);
}

/// Every lexeme of the letter / quantifier list, every fusion of them and
/// every single char Smart adds for an uncovered letter, digit or
/// non-Chinese CJK char is in the auxiliary MaxWord list.
proof fn lemma_aux_member(chars: Seq<char>, orig: Seq<char>, kinds: Seq<CharKind>, dict: Dict, rules: Rules, y: Lexeme)
    requires
        chars.len() == orig.len() == kinds.len(),
        chars.len() <= u32::MAX,
        chars.len() < usize::MAX,
        (letter_spec(chars, kinds) + quant_spec(chars, orig, kinds, dict)).contains(y)
            || fusions_spec(letter_spec(chars, kinds) + quant_spec(chars, orig, kinds, dict)).contains(y)
            || isolated_chars(smart_core(chars, orig, kinds, dict, rules), kinds, chars.len() as int).contains(y),
    ensures
        mw_aux(chars, orig, kinds, dict, rules, true).contains(y),
{
    let n = chars.len() as int;
    let base = letter_spec(chars, kinds) + quant_spec(chars, orig, kinds, dict);
    let f = fusions_spec(base);
    let iso = isolated_chars(smart_core(chars, orig, kinds, dict, rules), kinds, n);
    let raw = base + f + iso;
    lemma_aux_raw_fits(chars, orig, kinds, dict, rules);
    assert forall|i: int| 0 <= i < raw.len() implies crate::lexeme::lex_orderable(#[trigger] raw[i], false) by {}
    lemma_sorted_of(raw, false);
    if base.contains(y) {
        let j = choose|j: int| 0 <= j < base.len() && base[j] == y;
        assert(raw[j] == y);
    } else if f.contains(y) {
        let j = choose|j: int| 0 <= j < f.len() && f[j] == y;
        assert(raw[base.len() + j] == y);
    } else {
        let j = choose|j: int| 0 <= j < iso.len() && iso[j] == y;
        assert(raw[base.len() + f.len() + j] == y);
    }
    assert(raw.contains(y));
}

/// The unsorted auxiliary MaxWord list (with `ensure_smart_subset`) fits.
proof fn lemma_aux_raw_fits(chars: Seq<char>, orig: Seq<char>, kinds: Seq<CharKind>, dict: Dict, rules: Rules)
    requires
        chars.len() == orig.len() == kinds.len(),
        chars.len() <= u32::MAX,
        chars.len() < usize::MAX,
    ensures
        fits(
            letter_spec(chars, kinds) + quant_spec(chars, orig, kinds, dict) + fusions_spec(letter_spec(chars, kinds) + quant_spec(chars, orig, kinds, dict))
                + isolated_chars(smart_core(chars, orig, kinds, dict, rules), kinds, chars.len() as int),
            chars.len() as int,
        ),
{
    let n = chars.len() as int;
    let base = letter_spec(chars, kinds) + quant_spec(chars, orig, kinds, dict);
    let f = fusions_spec(base);
    let iso = isolated_chars(smart_core(chars, orig, kinds, dict, rules), kinds, n);
    lemma_candidates_fit(chars, orig, kinds, dict, rules);
    lemma_fusions_spec_elems(base);
    lemma_fused_fits(base, f, n);
    lemma_fits_concat(base, f, n);
    crate::pipeline::lemma_isolated_fits(smart_core(chars, orig, kinds, dict, rules), kinds, n);
    lemma_fits_concat(base + f, iso, n);
}

/// A Smart candidate is in the MaxWord bucket of its `begin`.
proof fn lemma_cand_in_bucket(chars: Seq<char>, orig: Seq<char>, kinds: Seq<CharKind>, dict: Dict, rules: Rules, y: Lexeme)
    requires
        chars.len() == orig.len() == kinds.len(),
        chars.len() <= u32::MAX,
        chars.len() < usize::MAX,
        smart_candidates(chars, orig, kinds, dict, rules).contains(y),
    ensures
        y.begin < chars.len(),
        mw_bucket(chars, orig, kinds, dict, rules, true, y.begin as int).contains(y),
{
    let n = chars.len() as int;
    let cands = smart_candidates(chars, orig, kinds, dict, rules);
    let cj = cjk_upto(chars, orig, kinds, dict, rules, n);
    let base = letter_spec(chars, kinds) + quant_spec(chars, orig, kinds, dict);
    lemma_candidates_fit(chars, orig, kinds, dict, rules);
    let j = choose|j: int| 0 <= j < cands.len() && cands[j] == y;
    assert(cands =~= cj + base);
    if j < cj.len() {
        assert(cj[j] == y);
        lemma_cjk_upto_member(chars, orig, kinds, dict, rules, n, y);
    } else {
        assert(base[j - cj.len()] == y);
        lemma_aux_member(chars, orig, kinds, dict, rules, y);
    }
    lemma_in_bucket(chars, orig, kinds, dict, rules, true, y);
}

/// The fusion of a number and a quantifier among the Smart candidates is
/// in the MaxWord bucket of its `begin`.
proof fn lemma_fusion_in_bucket(chars: Seq<char>, orig: Seq<char>, kinds: Seq<CharKind>, dict: Dict, rules: Rules, a: Lexeme, b: Lexeme)
    requires
        chars.len() == orig.len() == kinds.len(),
        chars.len() <= u32::MAX,
        chars.len() < usize::MAX,
        smart_candidates(chars, orig, kinds, dict, rules).contains(a),
        smart_candidates(chars, orig, kinds, dict, rules).contains(b),
        a.kind == LexemeKind::CnNum,
        b.kind == LexemeKind::Count,
        b.begin == lex_end(a),
    ensures
        a.begin < chars.len(),
        mw_bucket(chars, orig, kinds, dict, rules, true, a.begin as int).contains(fusion(a, b)),
{
    let n = chars.len() as int;
    let cands = smart_candidates(chars, orig, kinds, dict, rules);
    let cj = cjk_upto(chars, orig, kinds, dict, rules, n);
    let base = letter_spec(chars, kinds) + quant_spec(chars, orig, kinds, dict);
    lemma_candidates_fit(chars, orig, kinds, dict, rules);
    assert(cands =~= cj + base);
    let ja = choose|j: int| 0 <= j < cands.len() && cands[j] == a;
    let jb = choose|j: int| 0 <= j < cands.len() && cands[j] == b;
    if ja < cj.len() {
        assert(cj.contains(a));
        lemma_cjk_upto_member(chars, orig, kinds, dict, rules, n, a);
        lemma_cjk_at_kinds(chars, orig, kinds, dict, rules, a.begin as int);
        let c = cjk_at(chars, orig, kinds, dict, rules, a.begin as int);
        let i = choose|i: int| 0 <= i < c.len() && c[i] == a;
        assert(false);
    }
    if jb < cj.len() {
        assert(cj.contains(b));
        lemma_cjk_upto_member(chars, orig, kinds, dict, rules, n, b);
        lemma_cjk_at_kinds(chars, orig, kinds, dict, rules, b.begin as int);
        let c = cjk_at(chars, orig, kinds, dict, rules, b.begin as int);
        let i = choose|i: int| 0 <= i < c.len() && c[i] == b;
        assert(false);
    }
    assert(base[ja - cj.len()] == a);
    assert(base[jb - cj.len()] == b);
    lemma_fusion_member(base, a, b);
    lemma_aux_member(chars, orig, kinds, dict, rules, fusion(a, b));
    lemma_in_bucket(chars, orig, kinds, dict, rules, true, fusion(a, b));
}

/// Every lexeme of the Smart core is in the MaxWord bucket of its `begin`.
proof fn lemma_core_in_bucket(chars: Seq<char>, orig: Seq<char>, kinds: Seq<CharKind>, dict: Dict, rules: Rules, x: Lexeme)
    requires
        chars.len() == orig.len() == kinds.len(),
        chars.len() <= u32::MAX,
        chars.len() < usize::MAX,
        smart_core(chars, orig, kinds, dict, rules).contains(x),
    ensures
        x.begin < chars.len(),
        mw_bucket(chars, orig, kinds, dict, rules, true, x.begin as int).contains(x),
{
    let n = chars.len() as int;
    let cands = smart_candidates(chars, orig, kinds, dict, rules);
    lemma_candidates_fit(chars, orig, kinds, dict, rules);
    assert forall|i: int| 0 <= i < cands.len() implies crate::lexeme::lex_orderable(#[trigger] cands[i], true) by {}
    lemma_sorted_of(cands, true);
    let sorted = sorted_of(cands, true);
    let arb = arb_from(sorted, 0);
    lemma_arb_within(sorted, 0);
    let fused = fuse_from(arb, 0);
    lemma_fuse_elems(arb, 0);
    let unc = uncovered_chars(fused, kinds, n);
    let core = fused + unc;
    let q = choose|q: int| 0 <= q < core.len() && core[q] == x;
    if q < fused.len() {
        assert(fused[q] == x);
        assert(from_or_fused(arb, x));
        if arb.contains(x) {
            let i = choose|i: int| 0 <= i < arb.len() && arb[i] == x;
            assert(sorted.contains(x));
            lemma_cand_in_bucket(chars, orig, kinds, dict, rules, x);
        } else {
            let (a, b) = choose|a: Lexeme, b: Lexeme|
                #![trigger arb.contains(a), arb.contains(b)]
                arb.contains(a) && arb.contains(b) && a.kind == LexemeKind::CnNum && b.kind == LexemeKind::Count
                    && b.begin == lex_end(a) && x == fusion(a, b);
            let ia = choose|i: int| 0 <= i < arb.len() && arb[i] == a;
            let ib = choose|i: int| 0 <= i < arb.len() && arb[i] == b;
            assert(sorted.contains(a));
            assert(sorted.contains(b));
            lemma_fusion_in_bucket(chars, orig, kinds, dict, rules, a, b);
        }
    } else {
        assert(unc[q - fused.len()] == x);
        lemma_uncovered_fits(fused, kinds, n);
        assert(single_at(kinds, x.begin as int, true)[0] == x);
        lemma_in_bucket(chars, orig, kinds, dict, rules, true, x);
    }
}

/// Smart ⊆ MaxWord. Every token that Smart mode emits is also emitted by
/// MaxWord mode (same lexeme, hence the same term and byte offsets), when
/// both use the same dictionaries, rules and lowercasing, MaxWord has
/// `ensure_smart_subset` on, and MaxWord filters stopwords only if Smart
/// does.
pub proof fn lemma_smart_subset_of_maxword(text: Seq<char>, smart: IkConfig, mw: IkConfig, dict: Dict, rules: Rules, k: int)
    requires
        smart.mode == IkMode::Smart,
        mw.mode == IkMode::MaxWord,
        smart.lowercase == mw.lowercase,
        mw.ensure_smart_subset,
        mw.use_stopwords ==> smart.use_stopwords,
        text.len() <= u32::MAX,
        text.len() < usize::MAX,
        0 <= k < emitted(text, smart, dict, rules).len(),
    ensures
        exists|j: int|
            0 <= j < emitted(text, mw, dict, rules).len() && #[trigger] emitted(text, mw, dict, rules)[j] == emitted(
                text,
                smart,
                dict,
                rules,
            )[k],
{
    let chars = reg_chars(text, smart.lowercase);
    let kinds = kinds_of(chars);
    let n = text.len() as int;
    let x = emitted(text, smart, dict, rules)[k];
    let sstops = stop_set(smart, dict, rules);
    let mstops = stop_set(mw, dict, rules);
    let sl = smart_lexemes(text, smart, dict, rules);
    lemma_kept_within(sl, chars, sstops);
    assert(sl.contains(x));
    assert(!sstops.contains(lex_term(chars, x)));
    let core = smart_core(chars, text, kinds, dict, rules);
    let iso = isolated_chars(core, kinds, n);
    lemma_bucket_sorted(core + iso, n);
    assert((core + iso).contains(x));
    let q = choose|q: int| 0 <= q < (core + iso).len() && (core + iso)[q] == x;
    if q >= core.len() {
        assert(iso[q - core.len()] == x);
        assert(iso.contains(x));
        crate::pipeline::lemma_isolated_fits(core, kinds, n);
        assert(x.begin < n);
        lemma_aux_member(chars, text, kinds, dict, rules, x);
        lemma_in_bucket(chars, text, kinds, dict, rules, true, x);
    } else {
        assert(core[q] == x);
        lemma_core_in_bucket(chars, text, kinds, dict, rules, x);
    }
    let ml = maxword_lexemes(text, mw, dict, rules);
    assert(reg_chars(text, mw.lowercase) == chars);
    lemma_mw_upto_member(chars, text, kinds, dict, rules, true, n, x.begin as int, x);
    assert(ml.contains(x));
    assert(!mstops.contains(lex_term(chars, x))) by {
        if mw.use_stopwords {
            assert(mstops == sstops);
        }
    }
    lemma_kept_within(ml, chars, mstops);
    let e = emitted(text, mw, dict, rules);
    assert(e == kept(ml, chars, mstops));
    assert(e.contains(x));
    let j = choose|j: int| 0 <= j < e.len() && e[j] == x;
    assert(e[j] == x);
}

// ---------------------------------------------------------------------------
// Well-formed tokens
// ---------------------------------------------------------------------------

proof fn lemma_aux_fits(chars: Seq<char>, orig: Seq<char>, kinds: Seq<CharKind>, dict: Dict, rules: Rules, ensure: bool)
    requires
        chars.len() == orig.len() == kinds.len(),
        chars.len() <= u32::MAX,
        chars.len() < usize::MAX,
    ensures
        fits(mw_aux(chars, orig, kinds, dict, rules, ensure), chars.len() as int),
{
    let n = chars.len() as int;
    let base = letter_spec(chars, kinds) + quant_spec(chars, orig, kinds, dict);
    lemma_candidates_fit(chars, orig, kinds, dict, rules);
    let raw = if ensure {
        lemma_aux_raw_fits(chars, orig, kinds, dict, rules);
        base + fusions_spec(base) + isolated_chars(smart_core(chars, orig, kinds, dict, rules), kinds, n)
    } else {
        base
    };
    assert forall|i: int| 0 <= i < raw.len() implies crate::lexeme::lex_orderable(#[trigger] raw[i], false) by {}
    lemma_sorted_of(raw, false);
    let a = sorted_of(raw, false);
    assert forall|i: int| 0 <= i < a.len() implies raw.contains(#[trigger] a[i]) by {
        assert(a.contains(a[i]));
    }
    crate::pipeline::lemma_fits_within(a, raw, n);
}

proof fn lemma_mw_upto_fits(chars: Seq<char>, orig: Seq<char>, kinds: Seq<CharKind>, dict: Dict, rules: Rules, ensure: bool, m: int)
    requires
        0 <= m <= chars.len() == orig.len() == kinds.len(),
        chars.len() <= u32::MAX,
        chars.len() < usize::MAX,
    ensures
        fits(mw_upto(chars, orig, kinds, dict, rules, ensure, m), chars.len() as int),
        crate::pipeline::begins_sorted(mw_upto(chars, orig, kinds, dict, rules, ensure, m)),
        forall|i: int| 0 <= i < mw_upto(chars, orig, kinds, dict, rules, ensure, m).len() ==> (#[trigger] mw_upto(chars, orig, kinds, dict, rules, ensure, m)[i]).begin < m,
    decreases m,
{
    if m > 0 {
        let n = chars.len() as int;
        lemma_mw_upto_fits(chars, orig, kinds, dict, rules, ensure, m - 1);
        lemma_aux_fits(chars, orig, kinds, dict, rules, ensure);
        crate::tokenizer::lemma_bucket_facts(chars, orig, kinds, dict, rules, ensure, m - 1);
        let a = mw_upto(chars, orig, kinds, dict, rules, ensure, m - 1);
        let b = mw_bucket(chars, orig, kinds, dict, rules, ensure, m - 1);
        lemma_fits_concat(a, b, n);
        let c = a + b;
        assert forall|i: int, j: int| 0 <= i <= j < c.len() implies (#[trigger] c[i]).begin <= (#[trigger] c[j]).begin by {
            if j < a.len() {
                assert(c[i] == a[i] && c[j] == a[j]);
            } else if i < a.len() {
                assert(c[i] == a[i] && c[j] == b[j - a.len()]);
            } else {
                assert(c[i] == b[i - a.len()] && c[j] == b[j - a.len()]);
            }
        }
        assert forall|i: int| 0 <= i < c.len() implies (#[trigger] c[i]).begin < m by {
            if i < a.len() {
                assert(c[i] == a[i]);
            } else {
                assert(c[i] == b[i - a.len()]);
            }
        }
    }
}

pub(crate) proof fn lemma_smart_fits(text: Seq<char>, cfg: IkConfig, dict: Dict, rules: Rules)
    requires
        text.len() <= u32::MAX,
        text.len() < usize::MAX,
    ensures
        fits(smart_lexemes(text, cfg, dict, rules), text.len() as int),
        crate::pipeline::begins_sorted(smart_lexemes(text, cfg, dict, rules)),
{
    let chars = reg_chars(text, cfg.lowercase);
    let kinds = kinds_of(chars);
    let n = text.len() as int;
    let cands = smart_candidates(chars, text, kinds, dict, rules);
    lemma_candidates_fit(chars, text, kinds, dict, rules);
    assert forall|i: int| 0 <= i < cands.len() implies crate::lexeme::lex_orderable(#[trigger] cands[i], true) by {}
    lemma_sorted_of(cands, true);
    let sorted = sorted_of(cands, true);
    assert forall|i: int| 0 <= i < sorted.len() implies cands.contains(#[trigger] sorted[i]) by {
        assert(sorted.contains(sorted[i]));
    }
    crate::pipeline::lemma_fits_within(sorted, cands, n);
    let arb = arb_from(sorted, 0);
    lemma_arb_within(sorted, 0);
    crate::pipeline::lemma_fits_within(arb, sorted, n);
    let fused = fuse_from(arb, 0);
    lemma_fuse_elems(arb, 0);
    lemma_fused_fits(arb, fused, n);
    let unc = uncovered_chars(fused, kinds, n);
    lemma_uncovered_fits(fused, kinds, n);
    lemma_fits_concat(fused, unc, n);
    let core = fused + unc;
    let iso = isolated_chars(core, kinds, n);
    crate::pipeline::lemma_isolated_fits(core, kinds, n);
    lemma_fits_concat(core, iso, n);
    lemma_bucket_sorted(core + iso, n);
    crate::pipeline::lemma_fits_within(bucket_sorted_spec(core + iso, n), core + iso, n);
}

/// A subsequence of lexemes in `begin` order keeps that order.
proof fn lemma_kept_sorted(s: Seq<Lexeme>, chars: Seq<char>, stops: Set<Seq<char>>)
    requires
        crate::pipeline::begins_sorted(s),
    ensures
        crate::pipeline::begins_sorted(kept(s, chars, stops)),
    decreases s.len(),
{
    if s.len() > 0 {
        let d = s.drop_last();
        assert(crate::pipeline::begins_sorted(d)) by {
            assert forall|i: int, j: int| 0 <= i <= j < d.len() implies (#[trigger] d[i]).begin <= (#[trigger] d[j]).begin by {
                assert(d[i] == s[i] && d[j] == s[j]);
            }
        }
        lemma_kept_sorted(d, chars, stops);
        lemma_kept_within(d, chars, stops);
        let a = kept(d, chars, stops);
        let r = kept(s, chars, stops);
        assert forall|i: int, j: int| 0 <= i <= j < r.len() implies (#[trigger] r[i]).begin <= (#[trigger] r[j]).begin by {
            if j < a.len() {
                assert(r[i] == a[i] && r[j] == a[j]);
            } else {
                assert(r[j] == s.last());
                if i < a.len() {
                    assert(r[i] == a[i]);
                    assert(d.contains(a[i]));
                    let q = choose|q: int| 0 <= q < d.len() && d[q] == a[i];
                    assert(s[q] == a[i]);
                    assert(s[s.len() - 1] == s.last());
                } else {
                    assert(r[i] == s.last());
                }
            }
        }
    }
}

/// The emitted lexemes fit in the text and come in `begin` order.
pub proof fn lemma_emitted_fits(text: Seq<char>, cfg: IkConfig, dict: Dict, rules: Rules)
    requires
        text.len() <= u32::MAX,
        text.len() < usize::MAX,
    ensures
        fits(emitted(text, cfg, dict, rules), text.len() as int),
        crate::pipeline::begins_sorted(emitted(text, cfg, dict, rules)),
{
    let chars = reg_chars(text, cfg.lowercase);
    let n = text.len() as int;
    let ml = mode_lexemes(text, cfg, dict, rules);
    match cfg.mode {
        IkMode::MaxWord => {
            lemma_mw_upto_fits(chars, text, kinds_of(chars), dict, rules, cfg.ensure_smart_subset, n);
        },
        IkMode::Smart => {
            lemma_smart_fits(text, cfg, dict, rules);
        },
    }
    let stops = stop_set(cfg, dict, rules);
    lemma_kept_within(ml, chars, stops);
    crate::pipeline::lemma_fits_within(kept(ml, chars, stops), ml, n);
    lemma_kept_sorted(ml, chars, stops);
}

proof fn lemma_position_bound(e: Seq<Lexeme>, k: int)
    requires
        crate::pipeline::begins_sorted(e),
        0 <= k < e.len(),
    ensures
        0 <= crate::pipeline::position_at(e, k) <= e[k].begin - e[0].begin,
    decreases k,
{
    if k > 0 {
        lemma_position_bound(e, k - 1);
    }
}

proof fn lemma_position_mono(e: Seq<Lexeme>, i: int, j: int)
    requires
        0 <= i <= j < e.len(),
    ensures
        crate::pipeline::position_at(e, i) <= crate::pipeline::position_at(e, j),
    decreases j - i,
{
    if i < j {
        lemma_position_mono(e, i, j - 1);
    }
}

/// Every token lies within the text: its start offset is at most its end
/// offset, which is at most the byte length of the text. Positions start
/// at 0 and never decrease.
pub proof fn lemma_tokens_well_formed(text: Seq<char>, cfg: IkConfig, dict: Dict, rules: Rules)
    requires
        crate::segmenter::utf8_len(text) <= u32::MAX,
        text.len() < usize::MAX,
    ensures
        forall|k: int| 0 <= k < crate::tokenizer::ranges_spec(text, cfg, dict, rules).len()
            ==> (#[trigger] crate::tokenizer::ranges_spec(text, cfg, dict, rules)[k]).start_offset
                <= crate::tokenizer::ranges_spec(text, cfg, dict, rules)[k].end_offset
                <= crate::segmenter::utf8_len(text),
        forall|i: int, j: int| 0 <= i <= j < crate::tokenizer::ranges_spec(text, cfg, dict, rules).len()
            ==> (#[trigger] crate::tokenizer::ranges_spec(text, cfg, dict, rules)[i]).position
                <= (#[trigger] crate::tokenizer::ranges_spec(text, cfg, dict, rules)[j]).position,
        crate::tokenizer::ranges_spec(text, cfg, dict, rules).len() > 0 ==> crate::tokenizer::ranges_spec(text, cfg, dict, rules)[0].position == 0,
{
    let n = text.len() as int;
    crate::tokenizer::lemma_utf8_len_ge(text);
    lemma_emitted_fits(text, cfg, dict, rules);
    let e = emitted(text, cfg, dict, rules);
    let r = crate::tokenizer::ranges_spec(text, cfg, dict, rules);
    assert(text.take(n) =~= text);
    assert forall|k: int| 0 <= k < r.len() implies (#[trigger] r[k]).start_offset <= r[k].end_offset <= crate::segmenter::utf8_len(text) by {
        let b = e[k].begin as int;
        let t = lex_end(e[k]);
        crate::segmenter::lemma_utf8_len_take_mono(text, b, t);
        crate::segmenter::lemma_utf8_len_take_mono(text, t, n);
    }
    assert forall|i: int, j: int| 0 <= i <= j < r.len() implies (#[trigger] r[i]).position <= (#[trigger] r[j]).position by {
        lemma_position_mono(e, i, j);
        lemma_position_bound(e, j);
        lemma_position_bound(e, i);
    }
}

/// With stopwords on, no token's term is a stopword: every term is either
/// unblocked by the rules or neither a user nor a dictionary stopword.
pub proof fn lemma_no_stopword_tokens(text: Seq<char>, cfg: IkConfig, dict: Dict, rules: Rules, k: int)
    requires
        cfg.use_stopwords,
        0 <= k < emitted(text, cfg, dict, rules).len(),
    ensures
        rules.removed_stopwords().contains(lex_term(reg_chars(text, cfg.lowercase), emitted(text, cfg, dict, rules)[k]))
            || (!rules.extra_stopwords().contains(lex_term(reg_chars(text, cfg.lowercase), emitted(text, cfg, dict, rules)[k]))
            && !dict.stopword_terms().contains(lex_term(reg_chars(text, cfg.lowercase), emitted(text, cfg, dict, rules)[k]))),
{
    let chars = reg_chars(text, cfg.lowercase);
    lemma_kept_within(mode_lexemes(text, cfg, dict, rules), chars, stop_set(cfg, dict, rules));
}

// ---------------------------------------------------------------------------
// User words
// ---------------------------------------------------------------------------

proof fn lemma_set_hits_member(s: Set<Seq<char>>, t: Seq<char>, m: int, k: int)
    requires
        1 <= k <= m,
        k <= usize::MAX,
        s.contains(t.take(k)),
    ensures
        crate::rules::set_hits_upto(s, t, m).contains(k as usize),
    decreases m,
{
    let a = crate::rules::set_hits_upto(s, t, m - 1);
    if k < m {
        lemma_set_hits_member(s, t, m - 1, k);
        let j = choose|j: int| 0 <= j < a.len() && a[j] == k as usize;
        assert(crate::rules::set_hits_upto(s, t, m)[j] == k as usize);
    } else {
        assert(crate::rules::set_hits_upto(s, t, m)[a.len() as int] == k as usize);
    }
}

/// A user word that occurs in the text starting at a Chinese char is a
/// MaxWord token there, unless its term is filtered as a stopword.
pub proof fn lemma_user_word_found(text: Seq<char>, cfg: IkConfig, dict: Dict, rules: Rules, p: int, w: Seq<char>)
    requires
        cfg.mode == IkMode::MaxWord,
        rules.extra_words().contains(w),
        w.len() >= 1,
        0 <= p,
        p + w.len() <= text.len(),
        text.len() < usize::MAX,
        text.subrange(p, p + w.len()) == w,
        kinds_of(reg_chars(text, cfg.lowercase))[p] == CharKind::Chinese,
        !stop_set(cfg, dict, rules).contains(reg_chars(text, cfg.lowercase).subrange(p, p + w.len())),
    ensures
        exists|j: int|
            0 <= j < emitted(text, cfg, dict, rules).len() && #[trigger] emitted(text, cfg, dict, rules)[j] == (Lexeme {
                begin: p as usize,
                length: w.len() as usize,
                kind: cn_kind(w.len() as int),
            }),
{
    let chars = reg_chars(text, cfg.lowercase);
    let kinds = kinds_of(chars);
    let n = text.len() as int;
    let ensure = cfg.ensure_smart_subset;
    let l = Lexeme { begin: p as usize, length: w.len() as usize, kind: cn_kind(w.len() as int) };
    let ot = text.subrange(p, n);
    assert(ot.take(w.len() as int) =~= w);
    lemma_set_hits_member(rules.extra_words(), ot, ot.len() as int, w.len() as int);
    let ex = crate::rules::set_prefix_hits(rules.extra_words(), ot);
    let j = choose|j: int| 0 <= j < ex.len() && ex[j] == w.len() as usize;
    lemma_hit_lexemes(p, ex, false);
    let b = crate::segmenter::hit_lexemes(p, ex, false);
    assert(b[j] == l);
    let ub = crate::segmenter::unblocked(crate::dict::prefix_hits(dict.main_terms(), chars.subrange(p, n)), text, p, rules.removed_main());
    let a = crate::segmenter::hit_lexemes(p, ub, false);
    let c = cjk_at(chars, text, kinds, dict, rules, p);
    assert(c == a + b);
    assert(c[a.len() + j] == l);
    assert(c.contains(l));
    lemma_in_bucket(chars, text, kinds, dict, rules, ensure, l);
    lemma_mw_upto_member(chars, text, kinds, dict, rules, ensure, n, p, l);
    let ml = maxword_lexemes(text, cfg, dict, rules);
    assert(ml.contains(l));
    let stops = stop_set(cfg, dict, rules);
    assert(lex_term(chars, l) == chars.subrange(p, p + w.len()));
    lemma_kept_within(ml, chars, stops);
    let e = emitted(text, cfg, dict, rules);
    assert(e.contains(l));
    let q = choose|q: int| 0 <= q < e.len() && e[q] == l;
    assert(e[q] == l);
}

proof fn lemma_hits_member(terms: Seq<Seq<char>>, t: Seq<char>, m: int, k: int)
    requires
        1 <= k <= m,
        k <= usize::MAX,
        terms.contains(t.take(k)),
    ensures
        crate::dict::hits_upto(terms, t, m).contains(k as usize),
    decreases m,
{
    let a = crate::dict::hits_upto(terms, t, m - 1);
    if k < m {
        lemma_hits_member(terms, t, m - 1, k);
        let j = choose|j: int| 0 <= j < a.len() && a[j] == k as usize;
        assert(crate::dict::hits_upto(terms, t, m)[j] == k as usize);
    } else {
        assert(crate::dict::hits_upto(terms, t, m)[a.len() as int] == k as usize);
    }
}

proof fn lemma_unblocked_member(counts: Seq<usize>, orig: Seq<char>, p: int, removed: Set<Seq<char>>, k: usize)
    requires
        counts.contains(k),
        !removed.contains(orig.subrange(p, p + k)),
    ensures
        crate::segmenter::unblocked(counts, orig, p, removed).contains(k),
    decreases counts.len(),
{
    let d = counts.drop_last();
    let a = crate::segmenter::unblocked(d, orig, p, removed);
    let q = choose|q: int| 0 <= q < counts.len() && counts[q] == k;
    if q < counts.len() - 1 {
        assert(d[q] == k);
        lemma_unblocked_member(d, orig, p, removed, k);
        let j = choose|j: int| 0 <= j < a.len() && a[j] == k;
        assert(crate::segmenter::unblocked(counts, orig, p, removed)[j] == k);
    } else {
        assert(counts.last() == k);
        assert(crate::segmenter::unblocked(counts, orig, p, removed)[a.len() as int] == k);
    }
}

/// MaxWord emits every dictionary hit: a main-dictionary term that occurs
/// (after regularization) in the text starting at a Chinese char is a
/// MaxWord token there, unless the rules block it or its term is filtered as
/// a stopword.
pub proof fn lemma_dictionary_word_found(text: Seq<char>, cfg: IkConfig, dict: Dict, rules: Rules, p: int, w: Seq<char>)
    requires
        cfg.mode == IkMode::MaxWord,
        dict.main_terms().contains(w),
        w.len() >= 1,
        0 <= p,
        p + w.len() <= text.len(),
        text.len() < usize::MAX,
        reg_chars(text, cfg.lowercase).subrange(p, p + w.len()) == w,
        kinds_of(reg_chars(text, cfg.lowercase))[p] == CharKind::Chinese,
        !rules.removed_main().contains(text.subrange(p, p + w.len())),
        !stop_set(cfg, dict, rules).contains(w),
    ensures
        exists|j: int|
            0 <= j < emitted(text, cfg, dict, rules).len() && #[trigger] emitted(text, cfg, dict, rules)[j] == (Lexeme {
                begin: p as usize,
                length: w.len() as usize,
                kind: cn_kind(w.len() as int),
            }),
{
    let chars = reg_chars(text, cfg.lowercase);
    let kinds = kinds_of(chars);
    let n = text.len() as int;
    let ensure = cfg.ensure_smart_subset;
    let k = w.len() as usize;
    let l = Lexeme { begin: p as usize, length: k, kind: cn_kind(w.len() as int) };
    let t = chars.subrange(p, n);
    assert(t.take(w.len() as int) =~= w);
    lemma_hits_member(dict.main_terms(), t, t.len() as int, w.len() as int);
    let hits = crate::dict::prefix_hits(dict.main_terms(), t);
    lemma_unblocked_member(hits, text, p, rules.removed_main(), k);
    let ub = crate::segmenter::unblocked(hits, text, p, rules.removed_main());
    let j = choose|j: int| 0 <= j < ub.len() && ub[j] == k;
    lemma_hit_lexemes(p, ub, false);
    let a = crate::segmenter::hit_lexemes(p, ub, false);
    assert(a[j] == l);
    let c = cjk_at(chars, text, kinds, dict, rules, p);
    assert(c[j] == l);
    assert(c.contains(l));
    lemma_in_bucket(chars, text, kinds, dict, rules, ensure, l);
    lemma_mw_upto_member(chars, text, kinds, dict, rules, ensure, n, p, l);
    let ml = maxword_lexemes(text, cfg, dict, rules);
    assert(ml.contains(l));
    let stops = stop_set(cfg, dict, rules);
    assert(lex_term(chars, l) == w);
    lemma_kept_within(ml, chars, stops);
    let e = emitted(text, cfg, dict, rules);
    assert(e.contains(l));
    let q = choose|q: int| 0 <= q < e.len() && e[q] == l;
    assert(e[q] == l);
}

/// `tokenize` and `tokenize_ranges` give the same segmentation: as many
/// tokens, with the same byte offsets and positions.
pub proof fn lemma_tokens_agree_with_ranges(text: Seq<char>, cfg: IkConfig, dict: Dict, rules: Rules, tokens: Seq<crate::tokenizer::Token>, ranges: Seq<crate::tokenizer::TokenRange>)
    requires
        tokens.len() == emitted(text, cfg, dict, rules).len(),
        forall|k: int| 0 <= k < tokens.len() ==> crate::tokenizer::token_matches(
            #[trigger] tokens[k],
            text,
            reg_chars(text, cfg.lowercase),
            emitted(text, cfg, dict, rules),
            k,
        ),
        ranges == crate::tokenizer::ranges_spec(text, cfg, dict, rules),
    ensures
        tokens.len() == ranges.len(),
        forall|k: int| 0 <= k < tokens.len() ==> (#[trigger] tokens[k]).start_offset == ranges[k].start_offset
            && tokens[k].end_offset == ranges[k].end_offset && tokens[k].position == ranges[k].position,
{
}

// ---------------------------------------------------------------------------
// Stopword rules only act when stopwords are on
// ---------------------------------------------------------------------------

proof fn lemma_cjk_upto_rules(chars: Seq<char>, orig: Seq<char>, kinds: Seq<CharKind>, dict: Dict, r1: Rules, r2: Rules, m: int)
    requires
        r1.extra_words() == r2.extra_words(),
        r1.removed_main() == r2.removed_main(),
    ensures
        cjk_upto(chars, orig, kinds, dict, r1, m) == cjk_upto(chars, orig, kinds, dict, r2, m),
    decreases m,
{
    if m > 0 {
        lemma_cjk_upto_rules(chars, orig, kinds, dict, r1, r2, m - 1);
        assert(cjk_at(chars, orig, kinds, dict, r1, m - 1) == cjk_at(chars, orig, kinds, dict, r2, m - 1));
    }
}

proof fn lemma_mw_upto_rules(chars: Seq<char>, orig: Seq<char>, kinds: Seq<CharKind>, dict: Dict, r1: Rules, r2: Rules, ensure: bool, m: int)
    requires
        r1.extra_words() == r2.extra_words(),
        r1.removed_main() == r2.removed_main(),
    ensures
        mw_upto(chars, orig, kinds, dict, r1, ensure, m) == mw_upto(chars, orig, kinds, dict, r2, ensure, m),
    decreases m,
{
    if m > 0 {
        lemma_mw_upto_rules(chars, orig, kinds, dict, r1, r2, ensure, m - 1);
        lemma_cjk_upto_rules(chars, orig, kinds, dict, r1, r2, chars.len() as int);
        assert(smart_core(chars, orig, kinds, dict, r1) == smart_core(chars, orig, kinds, dict, r2));
        assert(mw_aux(chars, orig, kinds, dict, r1, ensure) == mw_aux(chars, orig, kinds, dict, r2, ensure));
        assert(cjk_at(chars, orig, kinds, dict, r1, m - 1) == cjk_at(chars, orig, kinds, dict, r2, m - 1));
        assert(mw_bucket(chars, orig, kinds, dict, r1, ensure, m - 1) == mw_bucket(chars, orig, kinds, dict, r2, ensure, m - 1));
    }
}

/// With stopwords off, the stopword rules (added and unblocked stopwords)
/// change nothing: two rule sets with the same user words and the same
/// blocked words give the same tokens.
pub proof fn lemma_stopword_rules_inactive(text: Seq<char>, cfg: IkConfig, dict: Dict, r1: Rules, r2: Rules)
    requires
        !cfg.use_stopwords,
        r1.extra_words() == r2.extra_words(),
        r1.removed_main() == r2.removed_main(),
    ensures
        emitted(text, cfg, dict, r1) == emitted(text, cfg, dict, r2),
        crate::tokenizer::ranges_spec(text, cfg, dict, r1) == crate::tokenizer::ranges_spec(text, cfg, dict, r2),
{
    let chars = reg_chars(text, cfg.lowercase);
    let kinds = kinds_of(chars);
    let n = text.len() as int;
    lemma_cjk_upto_rules(chars, text, kinds, dict, r1, r2, n);
    lemma_mw_upto_rules(chars, text, kinds, dict, r1, r2, cfg.ensure_smart_subset, n);
    assert(smart_core(chars, text, kinds, dict, r1) == smart_core(chars, text, kinds, dict, r2));
    assert(mode_lexemes(text, cfg, dict, r1) == mode_lexemes(text, cfg, dict, r2));
    assert(stop_set(cfg, dict, r1) == stop_set(cfg, dict, r2));
}

/// Bytes before a later char index are strictly more.
proof fn lemma_utf8_len_take_strict(s: Seq<char>, a: int, b: int)
    requires
        0 <= a < b <= s.len(),
    ensures
        crate::segmenter::utf8_len(s.take(a)) < crate::segmenter::utf8_len(s.take(b)),
{
    crate::segmenter::lemma_utf8_len_take_mono(s, a + 1, b);
    assert(s.take(a + 1) =~= s.take(a).push(s[a]));
    crate::segmenter::lemma_utf8_len_push(s.take(a), s[a]);
    assert(vstd::utf8::encode_scalar(s[a] as u32).len() >= 1);
}

/// One step of the token ranges of sorted lexemes that fit in the text.
proof fn lemma_range_step(text: Seq<char>, e: Seq<Lexeme>, k: int)
    requires
        crate::pipeline::begins_sorted(e),
        fits(e, text.len() as int),
        text.len() <= crate::segmenter::utf8_len(text) <= u32::MAX,
        0 < k < e.len(),
    ensures
        crate::tokenizer::range_at(text, e, k).start_offset != crate::tokenizer::range_at(text, e, k - 1).start_offset
            ==> crate::tokenizer::range_at(text, e, k).position == crate::tokenizer::range_at(text, e, k - 1).position + 1,
        crate::tokenizer::range_at(text, e, k).start_offset == crate::tokenizer::range_at(text, e, k - 1).start_offset
            ==> crate::tokenizer::range_at(text, e, k).position == crate::tokenizer::range_at(text, e, k - 1).position,
{
    let n = text.len() as int;
    assert(text.take(n) =~= text);
    let b0 = e[k - 1].begin as int;
    let b1 = e[k].begin as int;
    assert(b0 <= b1);
    assert(b1 <= lex_end(e[k]) <= n);
    crate::segmenter::lemma_utf8_len_take_mono(text, b0, n);
    crate::segmenter::lemma_utf8_len_take_mono(text, b1, n);
    lemma_position_bound(e, k);
    lemma_position_bound(e, k - 1);
    if b0 < b1 {
        lemma_utf8_len_take_strict(text, b0, b1);
    }
}

proof fn lemma_ranges_consecutive(text: Seq<char>, e: Seq<Lexeme>)
    requires
        crate::pipeline::begins_sorted(e),
        fits(e, text.len() as int),
        text.len() <= crate::segmenter::utf8_len(text) <= u32::MAX,
    ensures
        forall|j: int, k: int| 0 <= j && k == j + 1 && k < e.len() ==> ((#[trigger] crate::tokenizer::range_at(text, e, j)).start_offset
            != (#[trigger] crate::tokenizer::range_at(text, e, k)).start_offset ==> crate::tokenizer::range_at(text, e, k).position
            == crate::tokenizer::range_at(text, e, j).position + 1) && (crate::tokenizer::range_at(text, e, j).start_offset
            == crate::tokenizer::range_at(text, e, k).start_offset ==> crate::tokenizer::range_at(text, e, k).position
            == crate::tokenizer::range_at(text, e, j).position),
{
    assert forall|j: int, k: int| 0 <= j && k == j + 1 && k < e.len() implies ((#[trigger] crate::tokenizer::range_at(text, e, j)).start_offset
        != (#[trigger] crate::tokenizer::range_at(text, e, k)).start_offset ==> crate::tokenizer::range_at(text, e, k).position
        == crate::tokenizer::range_at(text, e, j).position + 1) && (crate::tokenizer::range_at(text, e, j).start_offset
        == crate::tokenizer::range_at(text, e, k).start_offset ==> crate::tokenizer::range_at(text, e, k).position
        == crate::tokenizer::range_at(text, e, j).position) by {
        lemma_range_step(text, e, k);
    }
}

/// Token positions count distinct starts: the first token is at position 0,
/// and of two neighbouring tokens the later one is one position past the
/// earlier when it starts at another byte offset, and at the same position
/// when it starts at the same one.
#[verifier::spinoff_prover]
pub proof fn lemma_positions_consecutive(text: Seq<char>, cfg: IkConfig, dict: Dict, rules: Rules)
    requires
        crate::segmenter::utf8_len(text) <= u32::MAX,
        text.len() < usize::MAX,
    ensures
        crate::tokenizer::ranges_spec(text, cfg, dict, rules).len() > 0 ==> crate::tokenizer::ranges_spec(text, cfg, dict, rules)[0].position == 0,
        forall|j: int, k: int| 0 <= j && k == j + 1 && k < crate::tokenizer::ranges_spec(text, cfg, dict, rules).len()
            && (#[trigger] crate::tokenizer::ranges_spec(text, cfg, dict, rules)[j]).start_offset
                != (#[trigger] crate::tokenizer::ranges_spec(text, cfg, dict, rules)[k]).start_offset
            ==> crate::tokenizer::ranges_spec(text, cfg, dict, rules)[k].position
                == crate::tokenizer::ranges_spec(text, cfg, dict, rules)[j].position + 1,
        forall|j: int, k: int| 0 <= j && k == j + 1 && k < crate::tokenizer::ranges_spec(text, cfg, dict, rules).len()
            && (#[trigger] crate::tokenizer::ranges_spec(text, cfg, dict, rules)[j]).start_offset
                == (#[trigger] crate::tokenizer::ranges_spec(text, cfg, dict, rules)[k]).start_offset
            ==> crate::tokenizer::ranges_spec(text, cfg, dict, rules)[k].position
                == crate::tokenizer::ranges_spec(text, cfg, dict, rules)[j].position,
{
    crate::tokenizer::lemma_utf8_len_ge(text);
    lemma_emitted_fits(text, cfg, dict, rules);
    let e = emitted(text, cfg, dict, rules);
    lemma_ranges_consecutive(text, e);
    let r = crate::tokenizer::ranges_spec(text, cfg, dict, rules);
    assert forall|j: int, k: int| 0 <= j && k == j + 1 && k < r.len() implies ((#[trigger] r[j]).start_offset != (#[trigger] r[k]).start_offset
        ==> r[k].position == r[j].position + 1) && (r[j].start_offset == r[k].start_offset ==> r[k].position == r[j].position) by {
        assert(r[j] == crate::tokenizer::range_at(text, e, j));
        assert(r[k] == crate::tokenizer::range_at(text, e, k));
    }
}

} // verus!

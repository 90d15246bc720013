//! The three IK sub-segmenters: CJK (main-dictionary hits plus user extras),
//! letter / number / mixed runs, and Chinese numbers with quantifiers.
use vstd::prelude::*;
use vstd::string::*;
use vstd::utf8::*;
use vstd::std_specs::iter::IteratorSpec;

use crate::char_util::{
    classify, classify_spec, is_chinese_number, is_chinese_number_spec, regularize, regularize_spec,
    CharKind,
};
use crate::lexeme::{Lexeme, LexemeKind};
use crate::dict::{hits_upto, prefix_hits, Dict};
use crate::rules::{set_hits_upto, set_prefix_hits, Rules};

verus! {

broadcast use vstd::string::group_string_axioms;

/// Number of bytes of the UTF-8 encoding of `c`.
pub open spec fn utf8_width(c: char) -> int {
    encode_scalar(c as u32).len() as int
}

/// Number of bytes of the UTF-8 encoding of `s`.
pub open spec fn utf8_len(s: Seq<char>) -> int {
    encode_utf8(s).len() as int
}

pub(crate) proof fn lemma_utf8_len_push(s: Seq<char>, c: char)
    ensures
        utf8_len(s.push(c)) == utf8_len(s) + utf8_width(c),
    decreases s.len(),
{
    if s.len() == 0 {
        assert(s.push(c).drop_first() =~= Seq::<char>::empty());
        assert(encode_utf8(Seq::<char>::empty()) =~= Seq::<u8>::empty());
    } else {
        lemma_utf8_len_push(s.drop_first(), c);
        assert(s.push(c).drop_first() =~= s.drop_first().push(c));
    }
}

pub(crate) proof fn lemma_utf8_len_take_mono(s: Seq<char>, i: int, j: int)
    requires
        0 <= i <= j <= s.len(),
    ensures
        utf8_len(s.take(i)) <= utf8_len(s.take(j)),
    decreases j - i,
{
    if i < j {
        lemma_utf8_len_take_mono(s, i, j - 1);
        assert(s.take(j) =~= s.take(j - 1).push(s[j - 1]));
        lemma_utf8_len_push(s.take(j - 1), s[j - 1]);
    }
}

pub(crate) fn len_utf8(c: char) -> (w: usize)
    ensures
        w == utf8_width(c),
        1 <= w <= 4,
{
    let cp = c as u32;
    proof {
        vstd::utf8::char_is_scalar(c);
    }
    if cp < 0x80 {
        1
    } else if cp < 0x800 {
        2
    } else if cp < 0x10000 {
        3
    } else {
        4
    }
}

/// Pre-computed view of the input: the input chars, their regularized
/// form and kinds, and the byte offset of every char in the UTF-8 input
/// (`byte_off` has one more entry than there are chars).
pub struct CharStream {
    pub chars: Vec<char>,
    pub byte_off: Vec<usize>,
    pub kinds: Vec<CharKind>,
    pub orig: Vec<char>,
    /// `true` when at least one input char was changed by regularization.
    pub any_regularized: bool,
}

/// `st` is the stream of the input chars `text` regularized with `lowercase`.
pub open spec fn stream_of(st: CharStream, text: Seq<char>, lowercase: bool) -> bool {
    let n = text.len();
    &&& st.orig@ == text
    &&& st.chars@.len() == n
    &&& st.kinds@.len() == n
    &&& st.byte_off@.len() == n + 1
    &&& forall|i: int| 0 <= i < n ==> #[trigger] st.chars@[i] == regularize_spec(text[i], lowercase)
    &&& forall|i: int| 0 <= i < n ==> #[trigger] st.kinds@[i] == classify_spec(st.chars@[i])
    &&& forall|i: int| 0 <= i <= n ==> #[trigger] st.byte_off@[i] == utf8_len(text.take(i))
    &&& st.any_regularized == exists|i: int| 0 <= i < n && #[trigger] st.chars@[i] != text[i]
}

/// A stream of `n` chars whose lexeme ranges can be turned into byte ranges.
pub open spec fn stream_wf(st: CharStream) -> bool {
    let n = st.orig@.len();
    &&& st.chars@.len() == n
    &&& st.kinds@.len() == n
    &&& st.byte_off@.len() == n + 1
    &&& forall|i: int| 0 <= i < n ==> #[trigger] st.kinds@[i] == classify_spec(st.chars@[i])
    &&& forall|i: int, j: int| 0 <= i <= j <= n ==> #[trigger] st.byte_off@[i] <= #[trigger] st.byte_off@[j]
}

impl CharStream {
    /// Build the stream in a single pass, fusing regularization, byte-offset
    /// recording, and char-kind classification.
    pub fn new(text: &str, lowercase: bool) -> (st: CharStream)
        requires
            text.spec_bytes().len() <= usize::MAX,
        ensures
            stream_of(st, text@, lowercase),
            stream_wf(st),
    {
        let ghost t = text@;
        let mut chars: Vec<char> = Vec::new();
        let mut byte_off: Vec<usize> = Vec::new();
        let mut kinds: Vec<CharKind> = Vec::new();
        let mut orig: Vec<char> = Vec::new();
        let mut any_regularized = false;
        let mut off: usize = 0;
        let mut it = text.chars();
        proof {
            lemma_utf8_len_take_mono(t, 0, t.len() as int);
            assert(t.take(t.len() as int) =~= t);
        }
        loop
            invariant
                it.obeys_prophetic_iter_laws(),
                it.decrease() is Some,
                orig@ + it.remaining() == t,
                chars@.len() == orig@.len(),
                kinds@.len() == orig@.len(),
                byte_off@.len() == orig@.len(),
                utf8_len(t) <= usize::MAX,
                forall|i: int| 0 <= i < orig@.len() ==> #[trigger] chars@[i] == regularize_spec(t[i], lowercase),
                forall|i: int| 0 <= i < orig@.len() ==> #[trigger] kinds@[i] == classify_spec(chars@[i]),
                forall|i: int| 0 <= i < orig@.len() ==> #[trigger] byte_off@[i] == utf8_len(t.take(i)),
                off == utf8_len(t.take(orig@.len() as int)),
                any_regularized == exists|i: int| 0 <= i < orig@.len() && #[trigger] chars@[i] != t[i],
            ensures
                orig@ == t,
            decreases it.decrease()->0,
        {
            let ghost prev = it.remaining();
            let ghost k: int = orig@.len() as int;
            match it.next() {
                Some(c) => {
                    proof {
                        assert(prev.len() > 0);
                        assert(c == prev[0]);
                        assert(t[k] == c) by {
                            assert((orig@ + prev)[k] == prev[0]);
                        }
                        assert(orig@.push(c) + it.remaining() =~= t) by {
                            assert(it.remaining() == prev.drop_first());
                        }
                        assert(t.take(k + 1) =~= t.take(k).push(c));
                        lemma_utf8_len_push(t.take(k), c);
                        lemma_utf8_len_take_mono(t, k + 1, t.len() as int);
                        assert(t.take(t.len() as int) =~= t);
                    }
                    let r = regularize(c, lowercase);
                    let ghost old_chars = chars@;
                    let ghost old_any = any_regularized;
                    if r != c {
                        any_regularized = true;
                    }
                    chars.push(r);
                    proof {
                        if r != c {
                            assert(chars@[k] != t[k]);
                        } else {
                            if exists|i: int| 0 <= i < k + 1 && #[trigger] chars@[i] != t[i] {
                                let i = choose|i: int| 0 <= i < k + 1 && #[trigger] chars@[i] != t[i];
                                assert(i < k);
                                assert(old_chars[i] != t[i]);
                            }
                            if old_any {
                                let i = choose|i: int| 0 <= i < k && #[trigger] old_chars[i] != t[i];
                                assert(chars@[i] != t[i]);
                            }
                        }
                    }
                    byte_off.push(off);
                    kinds.push(classify(r));
                    orig.push(c);
                    let w = len_utf8(c);
                    off = off + w;
                },
                None => {
                    proof {
                        assert(prev.len() == 0);
                        assert(orig@ =~= t);
                    }
                    break ;
                },
            }
        }
        byte_off.push(off);
        let st = CharStream { chars, byte_off, kinds, orig, any_regularized };
        proof {
            assert(orig@ =~= t);
            assert(t.take(t.len() as int) =~= t);
            assert forall|i: int, j: int| 0 <= i <= j <= t.len() implies #[trigger] st.byte_off@[i]
                <= #[trigger] st.byte_off@[j] by {
                lemma_utf8_len_take_mono(t, i, j);
            }
        }
        st
    }
}


pub open spec fn is_eng_connector(c: char) -> bool {
    c == '#' || c == '&' || c == '+' || c == '-' || c == '.' || c == '@' || c == '_'
}

pub open spec fn is_num_connector(c: char) -> bool {
    c == ',' || c == '.'
}

/// The English connectors are exactly `#`, `&`, `+`, `-`, `.`, `@` and `_`,
/// and the number connectors exactly `,` and `.`.
pub proof fn lemma_connectors(c: char)
    ensures
        is_eng_connector(c) <==> set!['#', '&', '+', '-', '.', '@', '_'].contains(c),
        is_num_connector(c) <==> set![',', '.'].contains(c),
{
}

/// Run families of the letter segmenter: English-only (0), Arabic-only
/// (1), and mixed letters / digits with every connector (2).
pub open spec fn run_member(k: CharKind, family: int) -> bool {
    if family == 0 {
        k == CharKind::English
    } else if family == 1 {
        k == CharKind::Arabic
    } else {
        k == CharKind::English || k == CharKind::Arabic
    }
}

pub open spec fn run_connector(c: char, family: int) -> bool {
    if family == 0 {
        is_eng_connector(c)
    } else if family == 1 {
        is_num_connector(c)
    } else {
        is_eng_connector(c) || is_num_connector(c)
    }
}

/// Greedy extension of a run whose current exclusive end is `end`: members,
/// or a connector immediately followed by a member.
pub open spec fn run_end(chars: Seq<char>, kinds: Seq<CharKind>, end: int, family: int) -> int
    decreases kinds.len() - end,
{
    if end < 0 || end >= kinds.len() {
        end
    } else if run_member(kinds[end], family) {
        run_end(chars, kinds, end + 1, family)
    } else if run_connector(chars[end], family) && end + 1 < kinds.len() && run_member(
        kinds[end + 1],
        family,
    ) {
        run_end(chars, kinds, end + 2, family)
    } else {
        end
    }
}

/// The mixed run `chars[start..end]` mixes letters and digits or holds a
/// connector.
pub open spec fn mixed_ok(chars: Seq<char>, start: int, end: int) -> bool {
    let has_letter = exists|i: int| start <= i < end && crate::char_util::is_alpha_spec(#[trigger] chars[i]);
    let has_digit = exists|i: int| start <= i < end && crate::char_util::is_digit_spec(#[trigger] chars[i]);
    let has_connector = exists|i: int| start <= i < end && !crate::char_util::is_alpha_spec(#[trigger] chars[i]) && !crate::char_util::is_digit_spec(chars[i]);
    (has_letter && has_digit) || has_connector
}

pub open spec fn family_kind(family: int) -> LexemeKind {
    if family == 0 {
        LexemeKind::English
    } else if family == 1 {
        LexemeKind::Arabic
    } else {
        LexemeKind::Letter
    }
}

/// The runs of one family found scanning from `i`.
pub open spec fn runs_from(chars: Seq<char>, kinds: Seq<CharKind>, i: int, family: int) -> Seq<Lexeme>
    decreases kinds.len() - i,
{
    if i < 0 || i >= kinds.len() {
        Seq::empty()
    } else if run_member(kinds[i], family) {
        let e = run_end(chars, kinds, i + 1, family);
        if e <= i || e > kinds.len() {
            Seq::empty()
        } else {
            (if family != 2 || (e - i > 1 && mixed_ok(chars, i, e)) {
                seq![Lexeme { begin: i as usize, length: (e - i) as usize, kind: family_kind(family) }]
            } else {
                Seq::empty()
            }) + runs_from(chars, kinds, e, family)
        }
    } else {
        runs_from(chars, kinds, i + 1, family)
    }
}

/// Everything the letter segmenter emits: English runs, then Arabic runs,
/// then mixed runs.
pub open spec fn letter_spec(chars: Seq<char>, kinds: Seq<CharKind>) -> Seq<Lexeme> {
    runs_from(chars, kinds, 0, 0) + runs_from(chars, kinds, 0, 1) + runs_from(chars, kinds, 0, 2)
}

pub(crate) proof fn lemma_run_end(chars: Seq<char>, kinds: Seq<CharKind>, end: int, family: int)
    requires
        0 <= end <= kinds.len(),
    ensures
        end <= run_end(chars, kinds, end, family) <= kinds.len(),
    decreases kinds.len() - end,
{
    if end < kinds.len() {
        if run_member(kinds[end], family) {
            lemma_run_end(chars, kinds, end + 1, family);
        } else if run_connector(chars[end], family) && end + 1 < kinds.len() && run_member(
            kinds[end + 1],
            family,
        ) {
            lemma_run_end(chars, kinds, end + 2, family);
        }
    }
}

fn eng_connector(c: char) -> (r: bool)
    ensures
        r == is_eng_connector(c),
{
    c == '#' || c == '&' || c == '+' || c == '-' || c == '.' || c == '@' || c == '_'
}

fn num_connector(c: char) -> (r: bool)
    ensures
        r == is_num_connector(c),
{
    c == ',' || c == '.'
}

fn member(k: CharKind, family: u8) -> (r: bool)
    requires
        family <= 2,
    ensures
        r == run_member(k, family as int),
{
    if family == 0 {
        k == CharKind::English
    } else if family == 1 {
        k == CharKind::Arabic
    } else {
        k == CharKind::English || k == CharKind::Arabic
    }
}

fn connector(c: char, family: u8) -> (r: bool)
    requires
        family <= 2,
    ensures
        r == run_connector(c, family as int),
{
    if family == 0 {
        eng_connector(c)
    } else if family == 1 {
        num_connector(c)
    } else {
        eng_connector(c) || num_connector(c)
    }
}

fn mixed_check(chars: &Vec<char>, start: usize, end: usize) -> (r: bool)
    requires
        start <= end <= chars@.len(),
    ensures
        r == mixed_ok(chars@, start as int, end as int),
{
    let mut has_letter = false;
    let mut has_digit = false;
    let mut has_connector = false;
    let mut i = start;
    while i < end
        invariant
            start <= i <= end <= chars@.len(),
            has_letter == exists|q: int| start <= q < i && crate::char_util::is_alpha_spec(#[trigger] chars@[q]),
            has_digit == exists|q: int| start <= q < i && crate::char_util::is_digit_spec(#[trigger] chars@[q]),
            has_connector == exists|q: int| start <= q < i && !crate::char_util::is_alpha_spec(#[trigger] chars@[q]) && !crate::char_util::is_digit_spec(chars@[q]),
        decreases end - i,
    {
        let c = chars[i];
        if ('A' <= c && c <= 'Z') || ('a' <= c && c <= 'z') {
            has_letter = true;
        } else if '0' <= c && c <= '9' {
            has_digit = true;
        } else {
            has_connector = true;
        }
        i = i + 1;
    }
    (has_letter && has_digit) || has_connector
}

fn segment_runs(chars: &Vec<char>, kinds: &Vec<CharKind>, family: u8, out: &mut Vec<Lexeme>)
    requires
        family <= 2,
        chars@.len() == kinds@.len(),
    ensures
        final(out)@ == old(out)@ + runs_from(chars@, kinds@, 0, family as int),
{
    let ghost base = out@;
    let ghost fam = family as int;
    let n = kinds.len();
    let mut i: usize = 0;
    while i < n
        invariant
            n == kinds@.len(),
            chars@.len() == n,
            family <= 2,
            fam == family as int,
            i <= n,
            out@ + runs_from(chars@, kinds@, i as int, fam) == base + runs_from(chars@, kinds@, 0, fam),
        decreases n - i,
    {
        if member(kinds[i], family) {
            let start = i;
            let mut end = i + 1;
            let mut done = false;
            while !done && end < n
                invariant
                    done ==> run_end(chars@, kinds@, end as int, fam) == end,
                    n == kinds@.len(),
                    chars@.len() == n,
                    family <= 2,
                    fam == family as int,
                    start < end <= n,
                    run_end(chars@, kinds@, end as int, fam) == run_end(chars@, kinds@, start + 1, fam),
                decreases n - end + (if done { 0int } else { 1int }),
            {
                if member(kinds[end], family) {
                    end = end + 1;
                } else if connector(chars[end], family) && end + 1 < n && member(kinds[end + 1], family) {
                    end = end + 2;
                } else {
                    done = true;
                }
            }
            proof {
                lemma_run_end(chars@, kinds@, start + 1, fam);
            }
            let ghost e = run_end(chars@, kinds@, start + 1, fam);
            assert(e == end as int);
            let emit = if family != 2 {
                true
            } else {
                end - start > 1 && mixed_check(chars, start, end)
            };
            if emit {
                let kind = if family == 0 {
                    LexemeKind::English
                } else if family == 1 {
                    LexemeKind::Arabic
                } else {
                    LexemeKind::Letter
                };
                out.push(Lexeme { begin: start, length: end - start, kind });
            }
            proof {
                assert(out@ + runs_from(chars@, kinds@, end as int, fam) =~= base + runs_from(
                    chars@,
                    kinds@,
                    0,
                    fam,
                ));
            }
            i = end;
        } else {
            i = i + 1;
        }
    }
    proof {
        assert(out@ + runs_from(chars@, kinds@, i as int, fam) =~= out@);
    }
}

/// Letter / number / mixed segmenter: appends the English runs, the Arabic
/// runs and the mixed runs of the stream.
pub fn letter_segment(stream: &CharStream, out: &mut Vec<Lexeme>)
    requires
        stream_wf(*stream),
    ensures
        final(out)@ == old(out)@ + letter_spec(stream.chars@, stream.kinds@),
{
    let ghost base = out@;
    segment_runs(&stream.chars, &stream.kinds, 0, out);
    segment_runs(&stream.chars, &stream.kinds, 1, out);
    segment_runs(&stream.chars, &stream.kinds, 2, out);
    proof {
        assert(out@ =~= base + letter_spec(stream.chars@, stream.kinds@));
    }
}


// ---------------------------------------------------------------------------
// CJK segmenter (main-dictionary hits, plus user words)
// ---------------------------------------------------------------------------

/// A one-char CJK hit is a `CnChar`, a longer one a `CnWord`.
pub open spec fn cn_kind(k: int) -> LexemeKind {
    if k == 1 {
        LexemeKind::CnChar
    } else {
        LexemeKind::CnWord
    }
}

/// The lexemes at `p` of the hit lengths `counts`: `Count` lexemes when
/// `quant`, else `CnChar` / `CnWord`.
pub open spec fn hit_lexemes(p: int, counts: Seq<usize>, quant: bool) -> Seq<Lexeme>
    decreases counts.len(),
{
    if counts.len() == 0 {
        Seq::empty()
    } else {
        let k = counts.last();
        hit_lexemes(p, counts.drop_last(), quant).push(
            Lexeme {
                begin: p as usize,
                length: k,
                kind: if quant {
                    LexemeKind::Count
                } else {
                    cn_kind(k as int)
                },
            },
        )
    }
}

/// The hit lengths `k` of `counts` for which `orig[p..p + k]` is not blocked.
pub open spec fn unblocked(counts: Seq<usize>, orig: Seq<char>, p: int, removed: Set<Seq<char>>) -> Seq<usize>
    decreases counts.len(),
{
    if counts.len() == 0 {
        Seq::empty()
    } else {
        let k = counts.last();
        unblocked(counts.drop_last(), orig, p, removed) + if removed.contains(
            orig.subrange(p, p + k),
        ) {
            Seq::empty()
        } else {
            seq![k]
        }
    }
}

/// The CJK lexemes that begin at `p`: at a Chinese char, every main
/// dictionary term (over the regularized chars) that starts there and is
/// not blocked (over the input chars), then every user word that starts
/// there (over the input chars).
pub open spec fn cjk_at(chars: Seq<char>, orig: Seq<char>, kinds: Seq<CharKind>, dict: Dict, rules: Rules, p: int) -> Seq<Lexeme> {
    if kinds[p] == CharKind::Chinese {
        hit_lexemes(
            p,
            unblocked(prefix_hits(dict.main_terms(), chars.subrange(p, chars.len() as int)), orig, p, rules.removed_main()),
            false,
        ) + hit_lexemes(p, set_prefix_hits(rules.extra_words(), orig.subrange(p, orig.len() as int)), false)
    } else {
        Seq::empty()
    }
}

/// The CJK lexemes that begin before `m`, by position.
pub open spec fn cjk_upto(chars: Seq<char>, orig: Seq<char>, kinds: Seq<CharKind>, dict: Dict, rules: Rules, m: int) -> Seq<Lexeme>
    decreases m,
{
    if m <= 0 {
        Seq::empty()
    } else {
        cjk_upto(chars, orig, kinds, dict, rules, m - 1) + cjk_at(chars, orig, kinds, dict, rules, m - 1)
    }
}

/// Every element of `hits_upto` lies in `1..=m`.
pub proof fn lemma_hits_bounds(terms: Seq<Seq<char>>, t: Seq<char>, m: int)
    requires
        m <= usize::MAX,
    ensures
        forall|i: int| 0 <= i < hits_upto(terms, t, m).len() ==> 1 <= #[trigger] hits_upto(terms, t, m)[i] <= m,
    decreases m,
{
    if m > 0 {
        lemma_hits_bounds(terms, t, m - 1);
        let a = hits_upto(terms, t, m - 1);
        assert forall|i: int| 0 <= i < hits_upto(terms, t, m).len() implies 1 <= #[trigger] hits_upto(terms, t, m)[i] <= m by {
            if i < a.len() {
                assert(hits_upto(terms, t, m)[i] == a[i]);
            }
        }
    }
}

/// Every element of `set_hits_upto` lies in `1..=m`.
pub proof fn lemma_set_hits_bounds(s: Set<Seq<char>>, t: Seq<char>, m: int)
    requires
        m <= usize::MAX,
    ensures
        forall|i: int| 0 <= i < set_hits_upto(s, t, m).len() ==> 1 <= #[trigger] set_hits_upto(s, t, m)[i] <= m,
    decreases m,
{
    if m > 0 {
        lemma_set_hits_bounds(s, t, m - 1);
        let a = set_hits_upto(s, t, m - 1);
        assert forall|i: int| 0 <= i < set_hits_upto(s, t, m).len() implies 1 <= #[trigger] set_hits_upto(s, t, m)[i] <= m by {
            if i < a.len() {
                assert(set_hits_upto(s, t, m)[i] == a[i]);
            }
        }
    }
}

/// Append the lexemes at `p` of the hit lengths `counts`.
fn push_hits(p: usize, counts: &Vec<usize>, quant: bool, out: &mut Vec<Lexeme>)
    ensures
        final(out)@ == old(out)@ + hit_lexemes(p as int, counts@, quant),
{
    let ghost base = out@;
    let mut i: usize = 0;
    while i < counts.len()
        invariant
            i <= counts@.len(),
            out@ == base + hit_lexemes(p as int, counts@.take(i as int), quant),
        decreases counts@.len() - i,
    {
        let k = counts[i];
        let kind = if quant {
            LexemeKind::Count
        } else if k == 1 {
            LexemeKind::CnChar
        } else {
            LexemeKind::CnWord
        };
        out.push(Lexeme { begin: p, length: k, kind });
        proof {
            assert(counts@.take(i + 1).drop_last() =~= counts@.take(i as int));
            assert(out@ =~= base + hit_lexemes(p as int, counts@.take(i + 1), quant));
        }
        i = i + 1;
    }
    proof {
        assert(counts@.take(i as int) =~= counts@);
    }
}

/// Append the CJK lexemes that begin at `p`.
pub(crate) fn cjk_hits_at(stream: &CharStream, dict: &Dict, rules: &Rules, p: usize, out: &mut Vec<Lexeme>)
    requires
        dict.wf(),
        stream_wf(*stream),
        p < stream.chars@.len() < usize::MAX,
    ensures
        final(out)@ == old(out)@ + cjk_at(stream.chars@, stream.orig@, stream.kinds@, *dict, *rules, p as int),
{
    let ghost base = out@;
    let n = stream.chars.len();
    if stream.kinds[p] != CharKind::Chinese {
        return ;
    }
    let hits = dict.main_prefixes(&stream.chars, p);
    let ghost t = stream.chars@.subrange(p as int, n as int);
    proof {
        lemma_hits_bounds(dict.main_terms(), t, t.len() as int);
    }
    let has_removed = rules.has_removed_main();
    let mut kept: Vec<usize> = Vec::new();
    let mut i: usize = 0;
    while i < hits.len()
        invariant
            i <= hits@.len(),
            n == stream.chars@.len() == stream.orig@.len(),
            p < n,
            hits@ == prefix_hits(dict.main_terms(), t),
            t.len() == n - p,
            forall|j: int| 0 <= j < hits@.len() ==> 1 <= #[trigger] hits@[j] <= t.len(),
            has_removed == (rules.removed_main() != Set::<Seq<char>>::empty()),
            kept@ == unblocked(hits@.take(i as int), stream.orig@, p as int, rules.removed_main()),
        decreases hits@.len() - i,
    {
        let k = hits[i];
        assert(1 <= k <= n - p);
        let blocked = has_removed && rules.is_removed_main(&stream.orig, p, p + k);
        proof {
            assert(hits@.take(i + 1).drop_last() =~= hits@.take(i as int));
            assert(hits@.take(i + 1).last() == k);
            if !has_removed {
                assert(!rules.removed_main().contains(stream.orig@.subrange(p as int, p + k)));
            }
        }
        if !blocked {
            kept.push(k);
        }
        proof {
            assert(kept@ =~= unblocked(hits@.take(i + 1), stream.orig@, p as int, rules.removed_main()));
        }
        i = i + 1;
    }
    proof {
        assert(hits@.take(i as int) =~= hits@);
    }
    push_hits(p, &kept, false, out);
    let extras = rules.extra_prefixes(&stream.orig, p);
    push_hits(p, &extras, false, out);
    proof {
        assert(out@ =~= base + cjk_at(stream.chars@, stream.orig@, stream.kinds@, *dict, *rules, p as int));
    }
}

/// CJK segmenter: at every Chinese char, the main-dictionary terms and the
/// user words that start there.
pub fn cjk_segment(stream: &CharStream, dict: &Dict, rules: &Rules, out: &mut Vec<Lexeme>)
    requires
        dict.wf(),
        stream_wf(*stream),
        stream.chars@.len() < usize::MAX,
    ensures
        final(out)@ == old(out)@ + cjk_upto(stream.chars@, stream.orig@, stream.kinds@, *dict, *rules, stream.chars@.len() as int),
{
    let ghost base = out@;
    let n = stream.chars.len();
    let mut p: usize = 0;
    while p < n
        invariant
            dict.wf(),
            stream_wf(*stream),
            n == stream.chars@.len() < usize::MAX,
            p <= n,
            out@ == base + cjk_upto(stream.chars@, stream.orig@, stream.kinds@, *dict, *rules, p as int),
        decreases n - p,
    {
        cjk_hits_at(stream, dict, rules, p, out);
        proof {
            assert(out@ =~= base + cjk_upto(stream.chars@, stream.orig@, stream.kinds@, *dict, *rules, p + 1));
        }
        p = p + 1;
    }
}

// ---------------------------------------------------------------------------
// Chinese number / quantifier segmenter
// ---------------------------------------------------------------------------

/// The exclusive end of the Chinese-number run that has reached `e`.
pub open spec fn num_end(chars: Seq<char>, e: int) -> int
    decreases chars.len() - e,
{
    if 0 <= e < chars.len() && is_chinese_number_spec(chars[e]) {
        num_end(chars, e + 1)
    } else {
        e
    }
}

/// The maximal runs of Chinese number chars found scanning from `i`.
pub open spec fn cnnum_runs(chars: Seq<char>, i: int) -> Seq<Lexeme>
    decreases chars.len() - i,
{
    if i < 0 || i >= chars.len() {
        Seq::empty()
    } else if is_chinese_number_spec(chars[i]) {
        let e = num_end(chars, i + 1);
        if e <= i || e > chars.len() {
            Seq::empty()
        } else {
            seq![Lexeme { begin: i as usize, length: (e - i) as usize, kind: LexemeKind::CnNum }]
                + cnnum_runs(chars, e)
        }
    } else {
        cnnum_runs(chars, i + 1)
    }
}

/// Quantifiers count only right after a Chinese number or a digit.
pub open spec fn count_active(chars: Seq<char>, kinds: Seq<CharKind>, p: int) -> bool {
    p > 0 && (is_chinese_number_spec(chars[p - 1]) || kinds[p - 1] == CharKind::Arabic)
}

/// The `Count` lexemes that begin at `p`: at a Chinese char that is not a
/// number and where quantifiers count, every quantifier term (over the
/// input chars) that starts there.
pub open spec fn count_at(chars: Seq<char>, orig: Seq<char>, kinds: Seq<CharKind>, dict: Dict, p: int) -> Seq<Lexeme> {
    if !is_chinese_number_spec(chars[p]) && count_active(chars, kinds, p) && kinds[p] == CharKind::Chinese {
        hit_lexemes(p, prefix_hits(dict.quantifier_terms(), orig.subrange(p, orig.len() as int)), true)
    } else {
        Seq::empty()
    }
}

pub open spec fn count_upto(chars: Seq<char>, orig: Seq<char>, kinds: Seq<CharKind>, dict: Dict, m: int) -> Seq<Lexeme>
    decreases m,
{
    if m <= 0 {
        Seq::empty()
    } else {
        count_upto(chars, orig, kinds, dict, m - 1) + count_at(chars, orig, kinds, dict, m - 1)
    }
}

/// Everything the quantifier segmenter emits: the Chinese-number runs,
/// then the quantifier hits.
pub open spec fn quant_spec(chars: Seq<char>, orig: Seq<char>, kinds: Seq<CharKind>, dict: Dict) -> Seq<Lexeme> {
    cnnum_runs(chars, 0) + count_upto(chars, orig, kinds, dict, chars.len() as int)
}

proof fn lemma_num_end(chars: Seq<char>, e: int)
    requires
        0 <= e <= chars.len(),
    ensures
        e <= num_end(chars, e) <= chars.len(),
    decreases chars.len() - e,
{
    if e < chars.len() && is_chinese_number_spec(chars[e]) {
        lemma_num_end(chars, e + 1);
    }
}

/// Chinese-number / quantifier segmenter.
pub fn quantifier_segment(stream: &CharStream, dict: &Dict, out: &mut Vec<Lexeme>)
    requires
        dict.wf(),
        stream_wf(*stream),
        stream.chars@.len() < usize::MAX,
    ensures
        final(out)@ == old(out)@ + quant_spec(stream.chars@, stream.orig@, stream.kinds@, *dict),
{
    let ghost base = out@;
    let ghost chars = stream.chars@;
    let n = stream.chars.len();
    let mut i: usize = 0;
    while i < n
        invariant
            n == chars.len(),
            chars == stream.chars@,
            i <= n,
            out@ + cnnum_runs(chars, i as int) == base + cnnum_runs(chars, 0),
        decreases n - i,
    {
        if is_chinese_number(stream.chars[i]) {
            let start = i;
            let mut end = i + 1;
            while end < n && is_chinese_number(stream.chars[end])
                invariant
                    n == chars.len(),
                    chars == stream.chars@,
                    start < end <= n,
                    num_end(chars, end as int) == num_end(chars, start + 1),
                decreases n - end,
            {
                end = end + 1;
            }
            proof {
                lemma_num_end(chars, start + 1);
            }
            out.push(Lexeme { begin: start, length: end - start, kind: LexemeKind::CnNum });
            proof {
                assert(out@ + cnnum_runs(chars, end as int) =~= base + cnnum_runs(chars, 0));
            }
            i = end;
        } else {
            i = i + 1;
        }
    }
    proof {
        assert(out@ + cnnum_runs(chars, i as int) =~= out@);
    }
    let ghost mid = out@;
    let mut p: usize = 0;
    while p < n
        invariant
            dict.wf(),
            stream_wf(*stream),
            n == stream.chars@.len() < usize::MAX,
            p <= n,
            out@ == mid + count_upto(stream.chars@, stream.orig@, stream.kinds@, *dict, p as int),
        decreases n - p,
    {
        let active = p > 0 && (is_chinese_number(stream.chars[p - 1]) || stream.kinds[p - 1] == CharKind::Arabic);
        if !is_chinese_number(stream.chars[p]) && active && stream.kinds[p] == CharKind::Chinese {
            let hits = dict.quantifier_prefixes(&stream.orig, p);
            push_hits(p, &hits, true, out);
        }
        proof {
            assert(out@ =~= mid + count_upto(stream.chars@, stream.orig@, stream.kinds@, *dict, p + 1));
        }
        p = p + 1;
    }
}
} // verus!

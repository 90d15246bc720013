//! The public [`IkTokenizer`]: Smart and MaxWord tokenization with byte
//! offsets, positions and (optionally) the regularized term of every token.
use vstd::prelude::*;
use std::sync::Arc;
use vstd::string::StringSliceAdditionalSpecFns;

use crate::arbitrator::{
    add_uncovered_chars, arbitrate, bucket_sort_dedup_lexemes, covered_mask,
    emit_quantifier_fusions, fuse_quantifiers,
};
use crate::char_util::CharKind;
use crate::config::{IkConfig, IkMode};
use crate::dict::Dict;
use crate::lexeme::{lex_end, sort_dedup, sorted_of, Lexeme, LexemeKind};
use crate::pipeline::{
    begin_at, begins_sorted, emitted, fits, isolated_chars, kept, kinds_of, lemma_arb_within,
    lemma_begin_at_block, lemma_begin_at_elems, lemma_bucket_sorted, lemma_candidates_fit,
    lemma_cjk_at_fits, lemma_fits_concat, lemma_fits_within, lemma_fuse_elems, lemma_fused_fits,
    lemma_isolated_fits, lemma_kept_concat, lemma_key_order_begins, lemma_sorted_of,
    lemma_uncovered_fits, lemma_uniq, lex_term, mw_aux, mw_bucket, mw_upto, position_at, reg_chars,
    single_at, smart_candidates, smart_core, stop_set, uniq,
};
use crate::rules::Rules;
use crate::segmenter::{
    cjk_hits_at, cjk_segment, lemma_utf8_len_take_mono, letter_segment, letter_spec, quant_spec,
    quantifier_segment, stream_wf, utf8_len, CharStream,
};

verus! {

/// A token as byte offsets, position and kind, without the term (slice the
/// input with the offsets to get its text as written).
#[derive(Debug, Clone, Copy, PartialEq, Eq, Structural)]
pub struct TokenRange {
    pub start_offset: u32,
    pub end_offset: u32,
    pub position: u32,
    pub kind: LexemeKind,
}

/// A token: its regularized term, byte offsets and position.
#[derive(Debug, Clone, PartialEq, Eq)]
pub struct Token {
    pub term: String,
    pub start_offset: u32,
    pub end_offset: u32,
    pub position: u32,
}

/// The range of the `k`-th emitted lexeme of `e` over the chars `text`.
pub open spec fn range_at(text: Seq<char>, e: Seq<Lexeme>, k: int) -> TokenRange {
    TokenRange {
        start_offset: utf8_len(text.take(e[k].begin as int)) as u32,
        end_offset: utf8_len(text.take(lex_end(e[k]))) as u32,
        position: position_at(e, k) as u32,
        kind: e[k].kind,
    }
}

/// The token ranges of `text` under `cfg`, the dictionaries and the rules.
pub open spec fn ranges_spec(text: Seq<char>, cfg: IkConfig, dict: Dict, rules: Rules) -> Seq<TokenRange> {
    let e = emitted(text, cfg, dict, rules);
    Seq::new(e.len(), |k: int| range_at(text, e, k))
}

/// `t` is the token of the `k`-th emitted lexeme of `e`.
pub open spec fn token_matches(t: Token, text: Seq<char>, chars: Seq<char>, e: Seq<Lexeme>, k: int) -> bool {
    let r = range_at(text, e, k);
    &&& t.term@ == lex_term(chars, e[k])
    &&& t.start_offset == r.start_offset
    &&& t.end_offset == r.end_offset
    &&& t.position == r.position
}

/// `String::push` (std): appends `c` to the end of `s`.
#[verifier::external_body]
fn push_char(s: &mut String, c: char)
    ensures
        final(s)@ == old(s)@.push(c),
{
    s.push(c);
}

/// The chars `orig[lo..hi]` and `reg[lo..hi]` are the same.
fn regularization_is_noop(orig: &Vec<char>, reg: &Vec<char>, lo: usize, hi: usize) -> (r: bool)
    requires
        lo <= hi <= orig@.len(),
        hi <= reg@.len(),
    ensures
        r == (orig@.subrange(lo as int, hi as int) == reg@.subrange(lo as int, hi as int)),
{
    let mut i = lo;
    while i < hi
        invariant
            lo <= i <= hi <= orig@.len(),
            hi <= reg@.len(),
            forall|q: int| lo <= q < i ==> orig@[q] == reg@[q],
        decreases hi - i,
    {
        if orig[i] != reg[i] {
            proof {
                assert(orig@.subrange(lo as int, hi as int)[i - lo] != reg@.subrange(lo as int, hi as int)[i - lo]);
            }
            return false;
        }
        i = i + 1;
    }
    proof {
        assert(orig@.subrange(lo as int, hi as int) =~= reg@.subrange(lo as int, hi as int));
    }
    true
}

/// The string of the chars `src[lo..hi]`.
fn chars_to_string(src: &Vec<char>, lo: usize, hi: usize) -> (r: String)
    requires
        lo <= hi <= src@.len(),
    ensures
        r@ == src@.subrange(lo as int, hi as int),
{
    let mut s = String::new();
    let mut i = lo;
    while i < hi
        invariant
            lo <= i <= hi <= src@.len(),
            s@ == src@.subrange(lo as int, i as int),
        decreases hi - i,
    {
        push_char(&mut s, src[i]);
        proof {
            assert(s@ =~= src@.subrange(lo as int, i + 1));
        }
        i = i + 1;
    }
    s
}

/// The regularized term of the chars `lo..hi` of the stream, taken from the
/// input chars when regularization left them unchanged.
fn term_string(st: &CharStream, lo: usize, hi: usize) -> (r: String)
    requires
        stream_wf(*st),
        st.any_regularized == exists|i: int| 0 <= i < st.orig@.len() && #[trigger] st.chars@[i] != st.orig@[i],
        lo <= hi <= st.orig@.len(),
    ensures
        r@ == st.chars@.subrange(lo as int, hi as int),
{
    if !st.any_regularized || regularization_is_noop(&st.orig, &st.chars, lo, hi) {
        proof {
            if !st.any_regularized {
                assert(st.orig@.subrange(lo as int, hi as int) =~= st.chars@.subrange(lo as int, hi as int)) by {
                    assert forall|q: int| 0 <= q < hi - lo implies st.orig@.subrange(lo as int, hi as int)[q]
                        == st.chars@.subrange(lo as int, hi as int)[q] by {
                        assert(!(st.chars@[lo + q] != st.orig@[lo + q]));
                    }
                }
            }
        }
        chars_to_string(&st.orig, lo, hi)
    } else {
        chars_to_string(&st.chars, lo, hi)
    }
}

/// Where the emitted tokens go, with the lexemes emitted so far.
struct Emitter {
    position: u32,
    last_begin: Option<usize>,
    ranges: Vec<TokenRange>,
    tokens: Vec<Token>,
    with_terms: bool,
    done: Ghost<Seq<Lexeme>>,
}

/// The emitter holds the tokens of the lexemes `em.done` of the stream.
spec fn emitter_ok(em: Emitter, st: CharStream) -> bool {
    let e = em.done@;
    let text = st.orig@;
    &&& em.ranges@ == Seq::new(e.len(), |k: int| range_at(text, e, k))
    &&& em.with_terms ==> em.tokens@.len() == e.len() && forall|k: int| 0 <= k < e.len() ==> token_matches(#[trigger] em.tokens@[k], text, st.chars@, e, k)
    &&& !em.with_terms ==> em.tokens@.len() == 0
    &&& fits(e, text.len() as int)
    &&& begins_sorted(e)
    &&& e.len() == 0 ==> em.last_begin is None && em.position == 0
    &&& e.len() > 0 ==> em.last_begin == Some(e.last().begin) && em.position == position_at(e, e.len() - 1) && em.position <= e.last().begin
}

/// The stream of `text` is ready for emission: its offsets fit in `u32`.
spec fn stream_ready(st: CharStream) -> bool {
    &&& stream_wf(st)
    &&& st.any_regularized == exists|i: int| 0 <= i < st.orig@.len() && #[trigger] st.chars@[i] != st.orig@[i]
    &&& forall|i: int| 0 <= i <= st.orig@.len() ==> #[trigger] st.byte_off@[i] == utf8_len(st.orig@.take(i))
    &&& utf8_len(st.orig@) <= u32::MAX
    &&& st.orig@.len() <= u32::MAX
    &&& st.orig@.len() < usize::MAX
}

proof fn lemma_offset_bound(st: CharStream, i: int)
    requires
        stream_ready(st),
        0 <= i <= st.orig@.len(),
    ensures
        st.byte_off@[i] <= u32::MAX,
{
    lemma_utf8_len_take_mono(st.orig@, i, st.orig@.len() as int);
    assert(st.orig@.take(st.orig@.len() as int) =~= st.orig@);
}

/// Emit the token of `lex`.
fn emit_one(em: &mut Emitter, st: &CharStream, lex: Lexeme)
    requires
        stream_ready(*st),
        emitter_ok(*old(em), *st),
        1 <= lex.length,
        lex_end(lex) <= st.orig@.len(),
        old(em).done@.len() > 0 ==> old(em).done@.last().begin <= lex.begin,
    ensures
        emitter_ok(*final(em), *st),
        final(em).done@ == old(em).done@.push(lex),
        final(em).with_terms == old(em).with_terms,
{
    let ghost e0 = em.done@;
    let ghost e = e0.push(lex);
    let ghost text = st.orig@;
    let end = lex.begin + lex.length;
    match em.last_begin {
        Some(lb) => {
            if lex.begin != lb {
                em.position = em.position + 1;
            }
        },
        None => {},
    }
    em.last_begin = Some(lex.begin);
    proof {
        lemma_offset_bound(*st, lex.begin as int);
        lemma_offset_bound(*st, end as int);
    }
    let bs = st.byte_off[lex.begin] as u32;
    let be = st.byte_off[end] as u32;
    let ghost old_ranges = em.ranges@;
    proof {
        assert(e.last() == lex);
        assert(e[e0.len() as int] == lex);
        if e0.len() > 0 {
            assert(e[e0.len() - 1] == e0.last());
            lemma_position_prefix(e0, lex, e0.len() - 1);
            assert(position_at(e, e0.len() as int) == position_at(e0, e0.len() - 1) + if lex.begin != e0.last().begin {
                1int
            } else {
                0int
            });
        }
        assert(em.position == position_at(e, e0.len() as int));
        assert(range_at(text, e, e0.len() as int) == TokenRange {
            start_offset: bs,
            end_offset: be,
            position: em.position,
            kind: lex.kind,
        });
        assert forall|k: int| 0 <= k < e0.len() implies #[trigger] range_at(text, e, k) == range_at(text, e0, k) by {
            lemma_position_prefix(e0, lex, k);
            assert(e[k] == e0[k]);
        }
    }
    em.ranges.push(TokenRange { start_offset: bs, end_offset: be, position: em.position, kind: lex.kind });
    if em.with_terms {
        let term = term_string(st, lex.begin, end);
        let ghost old_tokens = em.tokens@;
        em.tokens.push(Token { term, start_offset: bs, end_offset: be, position: em.position });
        proof {
            assert forall|k: int| 0 <= k < e.len() implies token_matches(#[trigger] em.tokens@[k], text, st.chars@, e, k) by {
                if k < e0.len() {
                    assert(em.tokens@[k] == old_tokens[k]);
                    assert(token_matches(old_tokens[k], text, st.chars@, e0, k));
                    assert(e[k] == e0[k]);
                    assert(range_at(text, e, k) == range_at(text, e0, k));
                } else {
                    assert(em.tokens@[k].term@ == st.chars@.subrange(lex.begin as int, end as int));
                }
            }
        }
    }
    proof {
        em.done = Ghost(e);
        assert(em.ranges@ =~= Seq::new(e.len(), |k: int| range_at(text, e, k))) by {
            assert forall|k: int| 0 <= k < e.len() implies em.ranges@[k] == range_at(text, e, k) by {
                if k < e0.len() {
                    assert(old_ranges[k] == range_at(text, e0, k));
                }
            }
        }
        assert forall|i: int| 0 <= i < e.len() implies 1 <= (#[trigger] e[i]).length && lex_end(e[i]) <= text.len() by {
            if i < e0.len() {
                assert(e[i] == e0[i]);
            }
        }
        assert forall|i: int, j: int| 0 <= i <= j < e.len() implies (#[trigger] e[i]).begin <= (#[trigger] e[j]).begin by {
            if j == e0.len() && i < j {
                assert(e0[i].begin <= e0[e0.len() - 1].begin);
            }
        }
    }
}

/// Positions of a prefix do not change when lexemes are appended.
proof fn lemma_position_prefix(e0: Seq<Lexeme>, x: Lexeme, k: int)
    requires
        0 <= k < e0.len(),
    ensures
        position_at(e0.push(x), k) == position_at(e0, k),
    decreases k,
{
    if k > 0 {
        lemma_position_prefix(e0, x, k - 1);
        assert(e0.push(x)[k] == e0[k]);
        assert(e0.push(x)[k - 1] == e0[k - 1]);
    }
}

/// Append a single-char lexeme of the char's own kind for every letter,
/// digit or non-Chinese CJK char that no lexeme covers.
fn ensure_isolated_alnum(lexemes: &mut Vec<Lexeme>, kinds: &Vec<CharKind>)
    requires
        crate::arbitrator::ends_fit(old(lexemes)@),
    ensures
        final(lexemes)@ == old(lexemes)@ + isolated_chars(old(lexemes)@, kinds@, kinds@.len() as int),
{
    let ghost s = lexemes@;
    let n = kinds.len();
    let covered = covered_mask(lexemes, n);
    let mut i: usize = 0;
    while i < n
        invariant
            n == kinds@.len(),
            covered@.len() == n,
            forall|k: int| 0 <= k < n ==> #[trigger] covered@[k] == crate::arbitrator::covered_by(s, k),
            i <= n,
            lexemes@ == s + isolated_chars(s, kinds@, i as int),
        decreases n - i,
    {
        if !covered[i] {
            match kinds[i] {
                CharKind::English => lexemes.push(Lexeme { begin: i, length: 1, kind: LexemeKind::English }),
                CharKind::Arabic => lexemes.push(Lexeme { begin: i, length: 1, kind: LexemeKind::Arabic }),
                CharKind::OtherCjk => lexemes.push(Lexeme { begin: i, length: 1, kind: LexemeKind::OtherCjk }),
                _ => {},
            }
        }
        proof {
            assert(lexemes@ =~= s + isolated_chars(s, kinds@, i + 1));
        }
        i = i + 1;
    }
}

/// The single-char lexemes that `ensure_isolated_alnum` would append to
/// `lexemes`.
fn isolated_singles(lexemes: &Vec<Lexeme>, kinds: &Vec<CharKind>) -> (r: Vec<Lexeme>)
    requires
        crate::arbitrator::ends_fit(lexemes@),
    ensures
        r@ == isolated_chars(lexemes@, kinds@, kinds@.len() as int),
{
    let ghost s = lexemes@;
    let n = kinds.len();
    let covered = covered_mask(lexemes, n);
    let mut out: Vec<Lexeme> = Vec::new();
    let mut i: usize = 0;
    while i < n
        invariant
            n == kinds@.len(),
            covered@.len() == n,
            forall|k: int| 0 <= k < n ==> #[trigger] covered@[k] == crate::arbitrator::covered_by(s, k),
            i <= n,
            out@ == isolated_chars(s, kinds@, i as int),
        decreases n - i,
    {
        if !covered[i] {
            match kinds[i] {
                CharKind::English => out.push(Lexeme { begin: i, length: 1, kind: LexemeKind::English }),
                CharKind::Arabic => out.push(Lexeme { begin: i, length: 1, kind: LexemeKind::Arabic }),
                CharKind::OtherCjk => out.push(Lexeme { begin: i, length: 1, kind: LexemeKind::OtherCjk }),
                _ => {},
            }
        }
        proof {
            assert(out@ =~= isolated_chars(s, kinds@, i + 1));
        }
        i = i + 1;
    }
    out
}

/// A `CnChar` at every Chinese char among the first `m`, ascending.
pub open spec fn chinese_singletons(kinds: Seq<CharKind>, m: int) -> Seq<Lexeme>
    decreases m,
{
    if m <= 0 {
        Seq::empty()
    } else {
        chinese_singletons(kinds, m - 1) + if kinds[m - 1] == CharKind::Chinese {
            seq![Lexeme { begin: (m - 1) as usize, length: 1, kind: LexemeKind::CnChar }]
        } else {
            Seq::empty()
        }
    }
}

/// Append a `CnChar` lexeme at every Chinese position regardless of
/// existing coverage.
#[allow(dead_code)]
fn force_emit_cjk_singletons(lexemes: &mut Vec<Lexeme>, kinds: &Vec<CharKind>)
    ensures
        final(lexemes)@ == old(lexemes)@ + chinese_singletons(kinds@, kinds@.len() as int),
{
    let ghost s = lexemes@;
    let mut i: usize = 0;
    while i < kinds.len()
        invariant
            i <= kinds@.len(),
            lexemes@ == s + chinese_singletons(kinds@, i as int),
        decreases kinds@.len() - i,
    {
        if kinds[i] == CharKind::Chinese {
            lexemes.push(Lexeme { begin: i, length: 1, kind: LexemeKind::CnChar });
        }
        proof {
            assert(lexemes@ =~= s + chinese_singletons(kinds@, i + 1));
        }
        i = i + 1;
    }
}

/// Append `lex` unless it is already there.
fn push_unique(bucket: &mut Vec<Lexeme>, lex: Lexeme)
    ensures
        final(bucket)@ == if old(bucket)@.contains(lex) {
            old(bucket)@
        } else {
            old(bucket)@.push(lex)
        },
{
    let mut i: usize = 0;
    while i < bucket.len()
        invariant
            i <= bucket@.len(),
            forall|q: int| 0 <= q < i ==> bucket@[q] != lex,
        decreases bucket@.len() - i,
    {
        if bucket[i] == lex {
            return ;
        }
        i = i + 1;
    }
    bucket.push(lex);
}

/// The IK tokenizer: a configuration, the user rules and the dictionaries.
#[derive(Debug, Clone)]
pub struct IkTokenizer {
    config: IkConfig,
    rules: Rules,
    dict: Arc<Dict>,
}

impl IkTokenizer {
    pub closed spec fn config_spec(&self) -> IkConfig {
        self.config
    }

    pub closed spec fn rules_spec(&self) -> Rules {
        self.rules
    }

    pub closed spec fn dict_spec(&self) -> Dict {
        *self.dict
    }

    pub closed spec fn wf(&self) -> bool {
        self.dict.wf()
    }

    /// A tokenizer with `config`, no rules and empty dictionaries (attach
    /// dictionaries with [`IkTokenizer::with_dict`]).
    pub fn new(config: IkConfig) -> (t: IkTokenizer)
        ensures
            t.wf(),
            t.config_spec() == config,
            t.rules_spec().extra_words() == Set::<Seq<char>>::empty(),
            t.rules_spec().extra_stopwords() == Set::<Seq<char>>::empty(),
            t.rules_spec().removed_main() == Set::<Seq<char>>::empty(),
            t.rules_spec().removed_stopwords() == Set::<Seq<char>>::empty(),
            t.dict_spec().main_terms() == Seq::<Seq<char>>::empty(),
            t.dict_spec().quantifier_terms() == Seq::<Seq<char>>::empty(),
            t.dict_spec().stopword_terms() == Seq::<Seq<char>>::empty(),
    {
        IkTokenizer { config, rules: Rules::new(), dict: Arc::new(Dict::new()) }
    }

    /// A tokenizer with the default configuration (max-word, lowercase, no
    /// stopwords), no rules and empty dictionaries (attach dictionaries with
    /// [`IkTokenizer::with_dict`]).
    pub fn with_defaults() -> (t: IkTokenizer)
        ensures
            t.wf(),
            t.config_spec() == (IkConfig {
                mode: IkMode::MaxWord,
                lowercase: true,
                use_stopwords: false,
                ensure_smart_subset: true,
            }),
            t.rules_spec().extra_words() == Set::<Seq<char>>::empty(),
            t.rules_spec().extra_stopwords() == Set::<Seq<char>>::empty(),
            t.rules_spec().removed_main() == Set::<Seq<char>>::empty(),
            t.rules_spec().removed_stopwords() == Set::<Seq<char>>::empty(),
            t.dict_spec().main_terms() == Seq::<Seq<char>>::empty(),
            t.dict_spec().quantifier_terms() == Seq::<Seq<char>>::empty(),
            t.dict_spec().stopword_terms() == Seq::<Seq<char>>::empty(),
    {
        IkTokenizer::new(IkConfig::default())
    }

    /// Chain-style: attach custom rules.
    pub fn with_rules(self, rules: Rules) -> (t: IkTokenizer)
        ensures
            t.wf() == self.wf(),
            t.config_spec() == self.config_spec(),
            t.rules_spec() == rules,
            t.dict_spec() == self.dict_spec(),
    {
        IkTokenizer { config: self.config, rules, dict: self.dict }
    }

    /// Chain-style: attach dictionaries.
    pub fn with_dict(self, dict: Dict) -> (t: IkTokenizer)
        requires
            dict.wf(),
        ensures
            t.wf(),
            t.config_spec() == self.config_spec(),
            t.rules_spec() == self.rules_spec(),
            t.dict_spec() == dict,
    {
        IkTokenizer { config: self.config, rules: self.rules, dict: Arc::new(dict) }
    }

    /// Chain-style: attach dictionaries shared with other tokenizers.
    pub fn with_shared_dict(self, dict: Arc<Dict>) -> (t: IkTokenizer)
        requires
            dict.wf(),
        ensures
            t.wf(),
            t.config_spec() == self.config_spec(),
            t.rules_spec() == self.rules_spec(),
            t.dict_spec() == *dict,
    {
        IkTokenizer { config: self.config, rules: self.rules, dict }
    }

    /// Mutably borrow the rules, e.g. to add more words.
    pub fn rules_mut(&mut self) -> (r: &mut Rules)
        ensures
            *r == old(self).rules_spec(),
            final(self).rules_spec() == *final(r),
            final(self).config_spec() == old(self).config_spec(),
            final(self).dict_spec() == old(self).dict_spec(),
            final(self).wf() == old(self).wf(),
    {
        &mut self.rules
    }

    /// Read-only access to the configuration.
    pub fn config(&self) -> (r: &IkConfig)
        ensures
            *r == self.config_spec(),
    {
        &self.config
    }

    /// `chars[lo..hi]` is filtered out as a stopword.
    fn is_stop(&self, chars: &Vec<char>, lo: usize, hi: usize) -> (r: bool)
        requires
            self.wf(),
            lo <= hi <= chars@.len(),
        ensures
            r == stop_set(self.config, self.dict_spec(), self.rules).contains(chars@.subrange(lo as int, hi as int)),
    {
        if !self.config.use_stopwords {
            return false;
        }
        !self.rules.is_removed_stopword(chars, lo, hi) && (self.rules.is_extra_stopword(chars, lo, hi)
            || self.dict.stopword_range(chars, lo, hi))
    }

    /// Emit the lexemes of `lexs` that are not stopwords.
    fn emit_all(&self, st: &CharStream, lexs: &Vec<Lexeme>, em: &mut Emitter)
        requires
            self.wf(),
            stream_ready(*st),
            emitter_ok(*old(em), *st),
            fits(lexs@, st.orig@.len() as int),
            begins_sorted(lexs@),
            old(em).done@.len() > 0 && lexs@.len() > 0 ==> old(em).done@.last().begin <= lexs@[0].begin,
        ensures
            emitter_ok(*final(em), *st),
            final(em).done@ == old(em).done@ + kept(lexs@, st.chars@, stop_set(self.config, self.dict_spec(), self.rules)),
            final(em).with_terms == old(em).with_terms,
            final(em).done@.len() > 0 ==> final(em).done@.last().begin <= if lexs@.len() > 0 {
                lexs@.last().begin
            } else {
                old(em).done@.last().begin
            },
    {
        let ghost stops = stop_set(self.config, self.dict_spec(), self.rules);
        let ghost e0 = em.done@;
        let mut i: usize = 0;
        while i < lexs.len()
            invariant
                self.wf(),
                stream_ready(*st),
                emitter_ok(*em, *st),
                em.with_terms == old(em).with_terms,
                fits(lexs@, st.orig@.len() as int),
                begins_sorted(lexs@),
                stops == stop_set(self.config, self.dict_spec(), self.rules),
                i <= lexs@.len(),
                em.done@ == e0 + kept(lexs@.take(i as int), st.chars@, stops),
                e0.len() > 0 && lexs@.len() > 0 ==> e0.last().begin <= lexs@[0].begin,
                em.done@.len() > 0 ==> em.done@.last().begin <= if i > 0 {
                    lexs@[i - 1].begin
                } else if lexs@.len() > 0 {
                    lexs@[0].begin
                } else {
                    e0.last().begin
                },
            decreases lexs@.len() - i,
        {
            let lex = lexs[i];
            let end = lex.begin + lex.length;
            proof {
                assert(lexs@.take(i + 1).drop_last() =~= lexs@.take(i as int));
                assert(lexs@.take(i + 1).last() == lex);
                if i > 0 {
                    assert(lexs@[i - 1].begin <= lexs@[i as int].begin);
                }
            }
            if !self.is_stop(&st.chars, lex.begin, end) {
                emit_one(em, st, lex);
            }
            proof {
                assert(em.done@ =~= e0 + kept(lexs@.take(i + 1), st.chars@, stops));
            }
            i = i + 1;
        }
        proof {
            assert(lexs@.take(i as int) =~= lexs@);
        }
    }

    /// MaxWord: every dictionary hit, position by position; the lexemes of
    /// one position come without duplicates, longest first, then by kind
    /// priority.
    fn run_max_word(&self, st: &CharStream, em: &mut Emitter)
        requires
            self.wf(),
            stream_ready(*st),
            st.kinds@ == kinds_of(st.chars@),
            emitter_ok(*old(em), *st),
            old(em).done@.len() == 0,
        ensures
            emitter_ok(*final(em), *st),
            final(em).with_terms == old(em).with_terms,
            final(em).done@ == kept(
                mw_upto(st.chars@, st.orig@, st.kinds@, self.dict_spec(), self.rules, self.config.ensure_smart_subset, st.orig@.len() as int),
                st.chars@,
                stop_set(self.config, self.dict_spec(), self.rules),
            ),
    {
        let ghost chars = st.chars@;
        let ghost orig = st.orig@;
        let ghost kinds = st.kinds@;
        let ghost stops = stop_set(self.config, self.dict_spec(), self.rules);
        let n = st.chars.len();
        let ensure = self.config.ensure_smart_subset;
        let ghost aux_spec = mw_aux(chars, orig, kinds, self.dict_spec(), self.rules, ensure);
        let mut aux0: Vec<Lexeme> = Vec::new();
        letter_segment(st, &mut aux0);
        quantifier_segment(st, &self.dict, &mut aux0);
        let ghost base = aux0@;
        proof {
            assert(base =~= letter_spec(chars, kinds) + quant_spec(chars, orig, kinds, self.dict_spec()));
            lemma_candidates_fit(chars, orig, kinds, self.dict_spec(), self.rules);
        }
        if ensure {
            emit_quantifier_fusions(&mut aux0);
            proof {
                let f = crate::arbitrator::fusions_spec(base);
                lemma_fusions_fit(base, n as int);
                lemma_fits_concat(base, f, n as int);
            }
            let core = self.smart_core_lexemes(st);
            let singles = isolated_singles(&core, &st.kinds);
            let ghost with_fusions = aux0@;
            let mut q: usize = 0;
            while q < singles.len()
                invariant
                    q <= singles@.len(),
                    aux0@ == with_fusions + singles@.take(q as int),
                decreases singles@.len() - q,
            {
                aux0.push(singles[q]);
                proof {
                    assert(singles@.take(q + 1) =~= singles@.take(q as int).push(singles@[q as int]));
                    assert(aux0@ =~= with_fusions + singles@.take(q + 1));
                }
                q = q + 1;
            }
            proof {
                assert(singles@.take(q as int) =~= singles@);
                lemma_isolated_fits(core@, kinds, n as int);
                lemma_fits_concat(with_fusions, singles@, n as int);
            }
        }
        proof {
            assert(fits(aux0@, n as int));
            assert forall|i: int| 0 <= i < aux0@.len() implies crate::lexeme::lex_orderable(#[trigger] aux0@[i], false) by {}
        }
        let aux = sort_dedup(&aux0, false);
        proof {
            assert(aux@ == aux_spec);
            assert forall|i: int| 0 <= i < aux@.len() implies aux0@.contains(#[trigger] aux@[i]) by {
                assert(aux@.contains(aux@[i]));
            }
            lemma_fits_within(aux@, aux0@, n as int);
            lemma_key_order_begins(aux@);
        }
        let mut aux_idx: usize = 0;
        let mut p: usize = 0;
        proof {
            assert(em.done@ =~= Seq::<Lexeme>::empty());
        }
        while p < n
            invariant
                self.wf(),
                stream_ready(*st),
                kinds == kinds_of(chars),
                chars == st.chars@,
                orig == st.orig@,
                kinds == st.kinds@,
                n == chars.len() == orig.len(),
                ensure == self.config.ensure_smart_subset,
                stops == stop_set(self.config, self.dict_spec(), self.rules),
                aux@ == mw_aux(chars, orig, kinds, self.dict_spec(), self.rules, ensure),
                fits(aux@, n as int),
                begins_sorted(aux@),
                p <= n,
                aux_idx <= aux@.len(),
                forall|i: int| 0 <= i < aux_idx ==> (#[trigger] aux@[i]).begin < p,
                forall|i: int| aux_idx <= i < aux@.len() ==> (#[trigger] aux@[i]).begin >= p,
                emitter_ok(*em, *st),
                em.with_terms == old(em).with_terms,
                em.done@ == kept(mw_upto(chars, orig, kinds, self.dict_spec(), self.rules, ensure, p as int), chars, stops),
                em.done@.len() > 0 ==> em.done@.last().begin < p,
            decreases n - p,
        {
            let mut cands: Vec<Lexeme> = Vec::new();
            cjk_hits_at(st, &self.dict, &self.rules, p, &mut cands);
            if ensure && st.kinds[p] == CharKind::Chinese {
                cands.push(Lexeme { begin: p, length: 1, kind: LexemeKind::CnChar });
            }
            let ghost pre = cands@;
            let ghost idx0 = aux_idx as int;
            while aux_idx < aux.len() && aux[aux_idx].begin == p
                invariant
                    0 <= idx0 <= aux_idx <= aux@.len(),
                    forall|i: int| idx0 <= i < aux_idx ==> (#[trigger] aux@[i]).begin == p,
                    cands@ == pre + aux@.subrange(idx0, aux_idx as int),
                decreases aux@.len() - aux_idx,
            {
                let ghost before = cands@;
                cands.push(aux[aux_idx]);
                proof {
                    assert(cands@ == before.push(aux@[aux_idx as int]));
                    assert(aux@.subrange(idx0, aux_idx + 1) =~= aux@.subrange(idx0, aux_idx as int).push(aux@[aux_idx as int]));
                    assert(cands@ =~= pre + aux@.subrange(idx0, aux_idx + 1));
                }
                aux_idx = aux_idx + 1;
            }
            proof {
                lemma_begin_at_block(aux@, p as int, idx0, aux_idx as int);
                assert(pre =~= crate::segmenter::cjk_at(chars, orig, kinds, self.dict_spec(), self.rules, p as int) + single_at(kinds, p as int, ensure));
                if aux_idx < aux@.len() {
                    assert(aux@[aux_idx as int].begin > p);
                }
            }
            let mut bucket: Vec<Lexeme> = Vec::new();
            let mut j: usize = 0;
            proof {
                assert(cands@.take(0) =~= Seq::<Lexeme>::empty());
            }
            while j < cands.len()
                invariant
                    j <= cands@.len(),
                    bucket@ == uniq(cands@.take(j as int)),
                decreases cands@.len() - j,
            {
                push_unique(&mut bucket, cands[j]);
                proof {
                    assert(cands@.take(j + 1).drop_last() =~= cands@.take(j as int));
                    assert(cands@.take(j + 1).last() == cands@[j as int]);
                }
                j = j + 1;
            }
            let bucket = crate::lexeme::sort_dedup(&bucket, true);
            proof {
                assert(cands@.take(j as int) =~= cands@);
                let all = crate::pipeline::mw_cands(chars, orig, kinds, self.dict_spec(), self.rules, ensure, p as int);
                assert(cands@ == all);
                lemma_uniq(all);
                crate::pipeline::lemma_mw_bucket(chars, orig, kinds, self.dict_spec(), self.rules, ensure, p as int);
                crate::lexeme::lemma_sorted_unique(bucket@, mw_bucket(chars, orig, kinds, self.dict_spec(), self.rules, ensure, p as int), true);
                assert(bucket@ == mw_bucket(chars, orig, kinds, self.dict_spec(), self.rules, ensure, p as int));
                lemma_bucket_facts(chars, orig, kinds, self.dict_spec(), self.rules, ensure, p as int);
            }
            self.emit_all(st, &bucket, em);
            proof {
                lemma_kept_concat(
                    mw_upto(chars, orig, kinds, self.dict_spec(), self.rules, ensure, p as int),
                    bucket@,
                    chars,
                    stops,
                );
            }
            p = p + 1;
        }
    }

    /// The Smart core: the arbitrated candidates with their quantifiers fused
    /// and the uncovered Chinese chars added.
    fn smart_core_lexemes(&self, st: &CharStream) -> (r: Vec<Lexeme>)
        requires
            self.wf(),
            stream_ready(*st),
            st.kinds@ == kinds_of(st.chars@),
        ensures
            r@ == smart_core(st.chars@, st.orig@, st.kinds@, self.dict_spec(), self.rules),
            fits(r@, st.orig@.len() as int),
    {
        let ghost chars = st.chars@;
        let ghost orig = st.orig@;
        let ghost kinds = st.kinds@;
        let n = st.chars.len();
        let mut lexemes: Vec<Lexeme> = Vec::new();
        cjk_segment(st, &self.dict, &self.rules, &mut lexemes);
        letter_segment(st, &mut lexemes);
        quantifier_segment(st, &self.dict, &mut lexemes);
        let ghost cands = lexemes@;
        proof {
            assert(cands =~= smart_candidates(chars, orig, kinds, self.dict_spec(), self.rules));
            lemma_candidates_fit(chars, orig, kinds, self.dict_spec(), self.rules);
        }
        let mut fin = arbitrate(lexemes, n);
        proof {
            lemma_sorted_of(cands, true);
            lemma_arb_within(sorted_of(cands, true), 0);
            assert forall|i: int| 0 <= i < sorted_of(cands, true).len() implies cands.contains(#[trigger] sorted_of(cands, true)[i]) by {
                assert(sorted_of(cands, true).contains(sorted_of(cands, true)[i]));
            }
            lemma_fits_within(sorted_of(cands, true), cands, n as int);
            lemma_fits_within(fin@, sorted_of(cands, true), n as int);
        }
        let ghost arb = fin@;
        fuse_quantifiers(&mut fin);
        proof {
            lemma_fuse_elems(arb, 0);
            lemma_fused_fits(arb, fin@, n as int);
        }
        let ghost fused = fin@;
        add_uncovered_chars(&mut fin, &st.kinds);
        proof {
            lemma_uncovered_fits(fused, kinds, n as int);
            lemma_fits_concat(fused, crate::arbitrator::uncovered_chars(fused, kinds, n as int), n as int);
            assert(fin@ == smart_core(chars, orig, kinds, self.dict_spec(), self.rules));
        }
        fin
    }

    /// Smart: segment, arbitrate, fuse quantifiers, add the uncovered chars,
    /// then sort by position.
    fn run_smart(&self, st: &CharStream, em: &mut Emitter)
        requires
            self.wf(),
            stream_ready(*st),
            st.kinds@ == kinds_of(st.chars@),
            emitter_ok(*old(em), *st),
            old(em).done@.len() == 0,
        ensures
            emitter_ok(*final(em), *st),
            final(em).with_terms == old(em).with_terms,
            final(em).done@ == kept(
                crate::arbitrator::bucket_sorted_spec(
                    smart_core(st.chars@, st.orig@, st.kinds@, self.dict_spec(), self.rules) + isolated_chars(
                        smart_core(st.chars@, st.orig@, st.kinds@, self.dict_spec(), self.rules),
                        st.kinds@,
                        st.orig@.len() as int,
                    ),
                    st.orig@.len() as int,
                ),
                st.chars@,
                stop_set(self.config, self.dict_spec(), self.rules),
            ),
    {
        let ghost chars = st.chars@;
        let ghost kinds = st.kinds@;
        let n = st.chars.len();
        let mut fin = self.smart_core_lexemes(st);
        let ghost core = fin@;
        ensure_isolated_alnum(&mut fin, &st.kinds);
        proof {
            lemma_isolated_fits(core, kinds, n as int);
            lemma_fits_concat(core, isolated_chars(core, kinds, n as int), n as int);
        }
        let ghost full = fin@;
        bucket_sort_dedup_lexemes(&mut fin, n);
        proof {
            lemma_bucket_sorted(full, n as int);
            lemma_fits_within(fin@, full, n as int);
        }
        self.emit_all(st, &fin, em);
        proof {
            assert(em.done@ =~= kept(fin@, chars, stop_set(self.config, self.dict_spec(), self.rules)));
        }
    }

    /// Tokenize `text` into the emitter.
    fn run(&self, text: &str, with_terms: bool) -> (em: Emitter)
        requires
            self.wf(),
            text.spec_bytes().len() <= u32::MAX,
            text@.len() < usize::MAX,
        ensures
            em.ranges@ == ranges_spec(text@, self.config, self.dict_spec(), self.rules),
            with_terms ==> em.tokens@.len() == emitted(text@, self.config, self.dict_spec(), self.rules).len(),
            with_terms ==> forall|k: int| 0 <= k < em.tokens@.len() ==> token_matches(
                #[trigger] em.tokens@[k],
                text@,
                reg_chars(text@, self.config.lowercase),
                emitted(text@, self.config, self.dict_spec(), self.rules),
                k,
            ),
    {
        let ghost t = text@;
        let ghost lc = self.config.lowercase;
        let st = CharStream::new(text, self.config.lowercase);
        proof {
            assert(st.chars@ =~= reg_chars(t, lc));
            assert(st.kinds@ =~= kinds_of(st.chars@));
            lemma_utf8_len_ge(t);
        }
        let mut em = Emitter {
            position: 0,
            last_begin: None,
            ranges: Vec::new(),
            tokens: Vec::new(),
            with_terms,
            done: Ghost(Seq::empty()),
        };
        proof {
            assert(em.ranges@ =~= Seq::new(0, |k: int| range_at(t, Seq::<Lexeme>::empty(), k)));
        }
        match self.config.mode {
            IkMode::MaxWord => self.run_max_word(&st, &mut em),
            IkMode::Smart => self.run_smart(&st, &mut em),
        }
        proof {
            assert(em.done@ == emitted(t, self.config, self.dict_spec(), self.rules));
        }
        em
    }

    /// Tokenize `text`, emitting byte offsets, position and kind of every
    /// token (the segmentation is that of [`IkTokenizer::tokenize`]).
    pub fn tokenize_ranges(&self, text: &str) -> (r: Vec<TokenRange>)
        requires
            self.wf(),
            text.spec_bytes().len() <= u32::MAX,
            text@.len() < usize::MAX,
        ensures
            r@ == ranges_spec(text@, self.config_spec(), self.dict_spec(), self.rules_spec()),
    {
        let em = self.run(text, false);
        em.ranges
    }

    /// Tokenize `text`: every token with its regularized term, byte offsets
    /// and position.
    pub fn tokenize(&self, text: &str) -> (r: Vec<Token>)
        requires
            self.wf(),
            text.spec_bytes().len() <= u32::MAX,
            text@.len() < usize::MAX,
        ensures
            r@.len() == emitted(text@, self.config_spec(), self.dict_spec(), self.rules_spec()).len(),
            forall|k: int| 0 <= k < r@.len() ==> token_matches(
                #[trigger] r@[k],
                text@,
                reg_chars(text@, self.config_spec().lowercase),
                emitted(text@, self.config_spec(), self.dict_spec(), self.rules_spec()),
                k,
            ),
    {
        let em = self.run(text, true);
        em.tokens
    }
}

/// The default tokenizer: the default configuration, no rules and empty
/// dictionaries (attach dictionaries with [`IkTokenizer::with_dict`]).
impl Default for IkTokenizer {
    fn default() -> (t: IkTokenizer)
        ensures
            t.wf(),
            t.config_spec() == (IkConfig {
                mode: IkMode::MaxWord,
                lowercase: true,
                use_stopwords: false,
                ensure_smart_subset: true,
            }),
            t.rules_spec().extra_words() == Set::<Seq<char>>::empty(),
            t.rules_spec().extra_stopwords() == Set::<Seq<char>>::empty(),
            t.rules_spec().removed_main() == Set::<Seq<char>>::empty(),
            t.rules_spec().removed_stopwords() == Set::<Seq<char>>::empty(),
            t.dict_spec().main_terms() == Seq::<Seq<char>>::empty(),
            t.dict_spec().quantifier_terms() == Seq::<Seq<char>>::empty(),
            t.dict_spec().stopword_terms() == Seq::<Seq<char>>::empty(),
    {
        IkTokenizer::with_defaults()
    }
}

/// UTF-8 takes at least one byte per char.
pub(crate) proof fn lemma_utf8_len_ge(s: Seq<char>)
    ensures
        utf8_len(s) >= s.len(),
    decreases s.len(),
{
    if s.len() > 0 {
        lemma_utf8_len_ge(s.drop_first());
        assert(vstd::utf8::encode_scalar(s[0] as u32).len() >= 1);
    }
}

/// The lexemes of a MaxWord bucket begin at `p` and fit.
pub(crate) proof fn lemma_bucket_facts(chars: Seq<char>, orig: Seq<char>, kinds: Seq<CharKind>, dict: Dict, rules: Rules, ensure: bool, p: int)
    requires
        0 <= p < chars.len() == orig.len() == kinds.len(),
        chars.len() < usize::MAX,
        fits(mw_aux(chars, orig, kinds, dict, rules, ensure), chars.len() as int),
    ensures
        fits(mw_bucket(chars, orig, kinds, dict, rules, ensure, p), chars.len() as int),
        forall|i: int| 0 <= i < mw_bucket(chars, orig, kinds, dict, rules, ensure, p).len()
            ==> (#[trigger] mw_bucket(chars, orig, kinds, dict, rules, ensure, p)[i]).begin == p,
{
    let n = chars.len() as int;
    let c = crate::segmenter::cjk_at(chars, orig, kinds, dict, rules, p);
    let sg = single_at(kinds, p, ensure);
    let aux = mw_aux(chars, orig, kinds, dict, rules, ensure);
    let ba = begin_at(aux, p);
    lemma_cjk_at_fits(chars, orig, kinds, dict, rules, p);
    lemma_begin_at_elems(aux, p);
    lemma_fits_within(ba, aux, n);
    let all = c + sg + ba;
    assert forall|i: int| 0 <= i < all.len() implies 1 <= (#[trigger] all[i]).length && lex_end(all[i]) <= n && all[i].begin == p by {
        if i < c.len() {
            assert(all[i] == c[i]);
        } else if i < c.len() + sg.len() {
            assert(all[i] == sg[i - c.len()]);
        } else {
            assert(all[i] == ba[i - c.len() - sg.len()]);
        }
    }
    crate::pipeline::lemma_mw_bucket(chars, orig, kinds, dict, rules, ensure, p);
    let u = mw_bucket(chars, orig, kinds, dict, rules, ensure, p);
    assert forall|i: int| 0 <= i < u.len() implies 1 <= (#[trigger] u[i]).length && lex_end(u[i]) <= n && u[i].begin == p by {
        assert(u.contains(u[i]));
        assert(all.contains(u[i]));
        let q = choose|q: int| 0 <= q < all.len() && all[q] == u[i];
    }
}

/// Number + quantifier fusions of fitting lexemes fit.
pub(crate) proof fn lemma_fusions_fit(s: Seq<Lexeme>, n: int)
    requires
        fits(s, n),
        n <= usize::MAX,
    ensures
        fits(crate::arbitrator::fusions_spec(s), n),
{
    crate::pipeline::lemma_fusions_spec_elems(s);
    lemma_fused_fits(s, crate::arbitrator::fusions_spec(s), n);
}

} // verus!

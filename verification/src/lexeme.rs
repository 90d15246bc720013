//! Lexeme — the IK term candidate. A lexeme covers the half-open char range
//! `[begin, begin + length)` and is tagged with its source.
use vstd::prelude::*;

verus! {

/// Source / type of a lexeme.
#[derive(Debug, Clone, Copy, PartialEq, Eq, Structural)]
pub enum LexemeKind {
    /// All-English letter run (e.g. `iPhone`).
    English,
    /// All-arabic digit run (e.g. `2024`).
    Arabic,
    /// Mixed alphanumeric / connector run (e.g. `iPhone-14`).
    Letter,
    /// Main-dict CJK word, at least two chars.
    CnWord,
    /// Single CJK char.
    CnChar,
    /// Hiragana/Katakana/Hangul/etc.
    OtherCjk,
    /// Chinese numeral run.
    CnNum,
    /// Quantifier-dict word.
    Count,
    /// Fused number + quantifier (e.g. `三个`).
    CnQuan,
}

pub open spec fn priority_spec(k: LexemeKind) -> u8 {
    match k {
        LexemeKind::English => 1,
        LexemeKind::Arabic => 2,
        LexemeKind::Letter => 3,
        LexemeKind::CnWord => 4,
        LexemeKind::OtherCjk => 8,
        LexemeKind::CnNum => 16,
        LexemeKind::Count => 32,
        LexemeKind::CnQuan => 48,
        LexemeKind::CnChar => 64,
    }
}

/// The arbitrator's kind priorities: English 1, Arabic 2, Letter 3, CnWord
/// 4, OtherCjk 8, CnNum 16, Count 32, CnQuan 48, CnChar 64; a number and a
/// quantifier weigh as much as their fusion.
pub proof fn lemma_priorities()
    ensures
        priority_spec(LexemeKind::English) == 1,
        priority_spec(LexemeKind::Arabic) == 2,
        priority_spec(LexemeKind::Letter) == 3,
        priority_spec(LexemeKind::CnWord) == 4,
        priority_spec(LexemeKind::OtherCjk) == 8,
        priority_spec(LexemeKind::CnNum) == 16,
        priority_spec(LexemeKind::Count) == 32,
        priority_spec(LexemeKind::CnQuan) == 48,
        priority_spec(LexemeKind::CnChar) == 64,
        priority_spec(LexemeKind::CnNum) + priority_spec(LexemeKind::Count) == priority_spec(LexemeKind::CnQuan),
{
}

impl LexemeKind {
    /// The arbitrator's ordering weight of a kind.
    pub fn priority(self) -> (p: u8)
        ensures
            p == priority_spec(self),
    {
        match self {
            LexemeKind::English => 1,
            LexemeKind::Arabic => 2,
            LexemeKind::Letter => 3,
            LexemeKind::CnWord => 4,
            LexemeKind::OtherCjk => 8,
            LexemeKind::CnNum => 16,
            LexemeKind::Count => 32,
            LexemeKind::CnQuan => 48,
            LexemeKind::CnChar => 64,
        }
    }
}

/// One token candidate over the input character stream.
#[derive(Debug, Clone, Copy, PartialEq, Eq, Structural)]
pub struct Lexeme {
    /// Inclusive start char index.
    pub begin: usize,
    /// Length in chars.
    pub length: usize,
    /// What kind of lexeme this is.
    pub kind: LexemeKind,
}

pub open spec fn lex_end(l: Lexeme) -> int {
    l.begin + l.length
}

/// `0xFF_FFFF - length`, saturating at zero.
pub open spec fn len_inv_spec(length: int) -> int {
    if length >= 0xFF_FFFF {
        0
    } else {
        0xFF_FFFF - length
    }
}

/// The packed sort key: `begin` (low 32 bits) in the top 32 bits, then the
/// saturated inverse length in 24 bits, then the kind priority in 8 bits.
pub open spec fn sort_key_spec(l: Lexeme) -> int {
    (l.begin as int % 0x1_0000_0000) * 0x1_0000_0000 + len_inv_spec(l.length as int) * 0x100
        + priority_spec(l.kind) as int
}

impl Lexeme {
    /// Exclusive end char index.
    pub fn end(&self) -> (e: usize)
        requires
            self.begin + self.length <= usize::MAX,
        ensures
            e == lex_end(*self),
    {
        self.begin + self.length
    }

    /// A packed `u64` whose order is ascending by `begin`, descending by
    /// `length`, then ascending by kind priority.
    pub fn sort_key(&self) -> (k: u64)
        ensures
            k as int == sort_key_spec(*self),
    {
        let begin: u64 = (self.begin as u64) & 0xFFFF_FFFF;
        let len: u64 = self.length as u64;
        let len_inv: u64 = if len >= 0xFF_FFFF {
            0
        } else {
            0xFF_FFFF - len
        };
        let prio: u64 = self.kind.priority() as u64;
        proof {
            let b0 = self.begin as u64;
            assert(b0 & 0xFFFF_FFFF == b0 % 0x1_0000_0000) by (bit_vector);
            assert(b0 as int % 0x1_0000_0000 == self.begin as int % 0x1_0000_0000);
            assert(begin < 0x1_0000_0000) by (bit_vector)
                requires
                    begin == b0 & 0xFFFF_FFFF,
            ;
            assert(prio < 0x100);
            assert(len_inv <= 0xFF_FFFF);
            assert((begin << 32) | (len_inv << 8) | prio == begin * 0x1_0000_0000 + len_inv * 0x100
                + prio) by (bit_vector)
                requires
                    begin < 0x1_0000_0000,
                    len_inv <= 0xFF_FFFF,
                    prio < 0x100,
            ;
        }
        (begin << 32) | (len_inv << 8) | prio
    }
}


/// Strict total order used to sort lexemes: `by_begin == false` orders by
/// `sort_key` (ties, which only arise for lengths beyond the key's 24-bit
/// field, by descending length); `by_begin == true` orders by ascending
/// `begin`, descending `length`, ascending kind priority.
pub open spec fn lex_lt(a: Lexeme, b: Lexeme, by_begin: bool) -> bool {
    if by_begin {
        a.begin < b.begin || (a.begin == b.begin && (a.length > b.length || (a.length == b.length
            && priority_spec(a.kind) < priority_spec(b.kind))))
    } else {
        sort_key_spec(a) < sort_key_spec(b) || (sort_key_spec(a) == sort_key_spec(b) && a.length
            > b.length)
    }
}

/// The lexemes for which `lex_lt(.., by_begin)` is a strict total order.
pub open spec fn lex_orderable(l: Lexeme, by_begin: bool) -> bool {
    by_begin || l.begin < 0x1_0000_0000
}

pub open spec fn strictly_sorted(s: Seq<Lexeme>, by_begin: bool) -> bool {
    forall|i: int, j: int| 0 <= i < j < s.len() ==> lex_lt(#[trigger] s[i], #[trigger] s[j], by_begin)
}

pub proof fn lemma_priority_injective(a: LexemeKind, b: LexemeKind)
    ensures
        priority_spec(a) == priority_spec(b) ==> a == b,
{
}

pub proof fn lemma_lex_lt_total(a: Lexeme, b: Lexeme, by_begin: bool)
    requires
        lex_orderable(a, by_begin),
        lex_orderable(b, by_begin),
    ensures
        a != b ==> (lex_lt(a, b, by_begin) || lex_lt(b, a, by_begin)),
        !(lex_lt(a, b, by_begin) && lex_lt(b, a, by_begin)),
        !lex_lt(a, a, by_begin),
{
    lemma_priority_injective(a.kind, b.kind);
    if !by_begin && sort_key_spec(a) == sort_key_spec(b) && a.length == b.length {
        let ba = a.begin as int % 0x1_0000_0000;
        let bb = b.begin as int % 0x1_0000_0000;
        let ra = len_inv_spec(a.length as int) * 0x100 + priority_spec(a.kind) as int;
        let rb = len_inv_spec(b.length as int) * 0x100 + priority_spec(b.kind) as int;
        assert(0 <= ra < 0x1_0000_0000);
        assert(0 <= rb < 0x1_0000_0000);
        assert(ba * 0x1_0000_0000 + ra == bb * 0x1_0000_0000 + rb);
        assert(ba == bb && ra == rb) by (nonlinear_arith)
            requires
                ba * 0x1_0000_0000 + ra == bb * 0x1_0000_0000 + rb,
                0 <= ra < 0x1_0000_0000,
                0 <= rb < 0x1_0000_0000,
        ;
        assert(a.begin == b.begin);
        assert(priority_spec(a.kind) == priority_spec(b.kind));
    }
}

pub proof fn lemma_lex_lt_trans(a: Lexeme, b: Lexeme, c: Lexeme, by_begin: bool)
    ensures
        lex_lt(a, b, by_begin) && lex_lt(b, c, by_begin) ==> lex_lt(a, c, by_begin),
{
}

fn lex_lt_exec(a: &Lexeme, b: &Lexeme, by_begin: bool) -> (r: bool)
    ensures
        r == lex_lt(*a, *b, by_begin),
{
    if by_begin {
        a.begin < b.begin || (a.begin == b.begin && (a.length > b.length || (a.length == b.length
            && a.kind.priority() < b.kind.priority())))
    } else {
        let ka = a.sort_key();
        let kb = b.sort_key();
        ka < kb || (ka == kb && a.length > b.length)
    }
}

/// Merge two strictly sorted sequences into their strictly sorted union.
fn merge_dedup(a: &Vec<Lexeme>, b: &Vec<Lexeme>, by_begin: bool) -> (r: Vec<Lexeme>)
    requires
        strictly_sorted(a@, by_begin),
        strictly_sorted(b@, by_begin),
        forall|i: int| 0 <= i < a@.len() ==> lex_orderable(#[trigger] a@[i], by_begin),
        forall|i: int| 0 <= i < b@.len() ==> lex_orderable(#[trigger] b@[i], by_begin),
    ensures
        strictly_sorted(r@, by_begin),
        forall|x: Lexeme| r@.contains(x) <==> (a@.contains(x) || b@.contains(x)),
{
    let mut out: Vec<Lexeme> = Vec::new();
    let mut i: usize = 0;
    let mut j: usize = 0;
    while i < a.len() || j < b.len()
        invariant
            strictly_sorted(a@, by_begin),
            strictly_sorted(b@, by_begin),
            forall|k: int| 0 <= k < a@.len() ==> lex_orderable(#[trigger] a@[k], by_begin),
            forall|k: int| 0 <= k < b@.len() ==> lex_orderable(#[trigger] b@[k], by_begin),
            i <= a.len(),
            j <= b.len(),
            strictly_sorted(out@, by_begin),
            forall|x: Lexeme| out@.contains(x) <==> (a@.subrange(0, i as int).contains(x) || b@.subrange(0, j as int).contains(x)),
            forall|k: int| 0 <= k < out@.len() && i < a@.len() ==> lex_lt(#[trigger] out@[k], a@[i as int], by_begin),
            forall|k: int| 0 <= k < out@.len() && j < b@.len() ==> lex_lt(#[trigger] out@[k], b@[j as int], by_begin),
        decreases a.len() + b.len() - i - j,
    {
        let ghost old_out = out@;
        let ghost oi = i;
        let ghost oj = j;
        let take_a: bool;
        let take_b: bool;
        if i < a.len() && j < b.len() {
            if lex_lt_exec(&a[i], &b[j], by_begin) {
                take_a = true;
                take_b = false;
            } else if lex_lt_exec(&b[j], &a[i], by_begin) {
                take_a = false;
                take_b = true;
            } else {
                proof {
                    lemma_lex_lt_total(a@[i as int], b@[j as int], by_begin);
                }
                take_a = true;
                take_b = true;
            }
        } else if i < a.len() {
            take_a = true;
            take_b = false;
        } else {
            take_a = false;
            take_b = true;
        }
        let x = if take_a {
            a[i]
        } else {
            b[j]
        };
        out.push(x);
        if take_a {
            i = i + 1;
        }
        if take_b {
            j = j + 1;
        }
        proof {
            assert forall|k: int| 0 <= k < out@.len() && i < a@.len() implies lex_lt(
                #[trigger] out@[k],
                a@[i as int],
                by_begin,
            ) by {
                if take_a {
                    lemma_lex_lt_trans(out@[k], a@[oi as int], a@[i as int], by_begin);
                    if k < old_out.len() {
                        lemma_lex_lt_trans(out@[k], a@[oi as int], a@[i as int], by_begin);
                    }
                } else {
                    lemma_lex_lt_total(a@[oi as int], b@[oj as int], by_begin);
                    if k < old_out.len() {
                    }
                }
            }
            assert forall|k: int| 0 <= k < out@.len() && j < b@.len() implies lex_lt(
                #[trigger] out@[k],
                b@[j as int],
                by_begin,
            ) by {
                if take_b {
                    lemma_lex_lt_trans(out@[k], b@[oj as int], b@[j as int], by_begin);
                } else {
                    lemma_lex_lt_total(a@[oi as int], b@[oj as int], by_begin);
                    if k < old_out.len() {
                    } else {
                        lemma_lex_lt_trans(a@[oi as int], b@[oj as int], b@[j as int], by_begin);
                    }
                }
            }
            assert forall|x: Lexeme| out@.contains(x) <==> (a@.subrange(0, i as int).contains(x)
                || b@.subrange(0, j as int).contains(x)) by {
                let sa = a@.subrange(0, i as int);
                let sb = b@.subrange(0, j as int);
                let osa = a@.subrange(0, oi as int);
                let osb = b@.subrange(0, oj as int);
                if out@.contains(x) {
                    let k = choose|k: int| 0 <= k < out@.len() && out@[k] == x;
                    if k < old_out.len() {
                        assert(old_out[k] == x);
                        assert(old_out.contains(x));
                        if osa.contains(x) {
                            let t = choose|t: int| 0 <= t < osa.len() && osa[t] == x;
                            assert(sa[t] == x);
                        } else {
                            let t = choose|t: int| 0 <= t < osb.len() && osb[t] == x;
                            assert(sb[t] == x);
                        }
                    } else if take_a {
                        assert(sa[oi as int] == x);
                    } else {
                        assert(sb[oj as int] == x);
                    }
                }
                if sa.contains(x) {
                    let t = choose|t: int| 0 <= t < sa.len() && sa[t] == x;
                    if t < oi {
                        assert(osa[t] == x);
                        assert(old_out.contains(x));
                        let k = choose|k: int| 0 <= k < old_out.len() && old_out[k] == x;
                        assert(out@[k] == x);
                    } else {
                        assert(out@[out@.len() - 1] == x);
                    }
                }
                if sb.contains(x) {
                    let t = choose|t: int| 0 <= t < sb.len() && sb[t] == x;
                    if t < oj {
                        assert(osb[t] == x);
                        assert(old_out.contains(x));
                        let k = choose|k: int| 0 <= k < old_out.len() && old_out[k] == x;
                        assert(out@[k] == x);
                    } else {
                        assert(out@[out@.len() - 1] == x);
                    }
                }
            }
        }
    }
    proof {
        assert(a@.subrange(0, i as int) =~= a@);
        assert(b@.subrange(0, j as int) =~= b@);
    }
    out
}

/// Sort `v[lo..hi]` into a strictly increasing sequence, dropping duplicates.
fn sort_dedup_range(v: &Vec<Lexeme>, lo: usize, hi: usize, by_begin: bool) -> (r: Vec<Lexeme>)
    requires
        lo <= hi <= v@.len(),
        forall|i: int| 0 <= i < v@.len() ==> lex_orderable(#[trigger] v@[i], by_begin),
    ensures
        strictly_sorted(r@, by_begin),
        forall|x: Lexeme| r@.contains(x) <==> v@.subrange(lo as int, hi as int).contains(x),
    decreases hi - lo,
{
    if hi - lo == 0 {
        let r: Vec<Lexeme> = Vec::new();
        proof {
            assert(v@.subrange(lo as int, hi as int) =~= Seq::<Lexeme>::empty());
        }
        return r;
    }
    if hi - lo == 1 {
        let mut r: Vec<Lexeme> = Vec::new();
        r.push(v[lo]);
        proof {
            assert(v@.subrange(lo as int, hi as int) =~= seq![v@[lo as int]]);
            assert(r@ =~= seq![v@[lo as int]]);
        }
        return r;
    }
    let mid = lo + (hi - lo) / 2;
    let a = sort_dedup_range(v, lo, mid, by_begin);
    let b = sort_dedup_range(v, mid, hi, by_begin);
    proof {
        assert forall|i: int| 0 <= i < a@.len() implies lex_orderable(#[trigger] a@[i], by_begin) by {
            assert(a@.contains(a@[i]));
            let k = choose|k: int| 0 <= k < mid - lo && v@.subrange(lo as int, mid as int)[k] == a@[i];
            assert(v@[lo + k] == a@[i]);
        }
        assert forall|i: int| 0 <= i < b@.len() implies lex_orderable(#[trigger] b@[i], by_begin) by {
            assert(b@.contains(b@[i]));
            let k = choose|k: int| 0 <= k < hi - mid && v@.subrange(mid as int, hi as int)[k] == b@[i];
            assert(v@[mid + k] == b@[i]);
        }
    }
    let r = merge_dedup(&a, &b, by_begin);
    proof {
        assert forall|x: Lexeme| r@.contains(x) <==> v@.subrange(lo as int, hi as int).contains(x) by {
            let s = v@.subrange(lo as int, hi as int);
            let s1 = v@.subrange(lo as int, mid as int);
            let s2 = v@.subrange(mid as int, hi as int);
            if s.contains(x) {
                let k = choose|k: int| 0 <= k < s.len() && s[k] == x;
                if k < mid - lo {
                    assert(s1[k] == x);
                } else {
                    assert(s2[k - (mid - lo)] == x);
                }
            }
            if s1.contains(x) {
                let k = choose|k: int| 0 <= k < s1.len() && s1[k] == x;
                assert(s[k] == x);
            }
            if s2.contains(x) {
                let k = choose|k: int| 0 <= k < s2.len() && s2[k] == x;
                assert(s[k + (mid - lo)] == x);
            }
        }
    }
    r
}

/// The strictly increasing sequence (under `lex_lt`) holding exactly the
/// lexemes of `s`.
pub open spec fn sorted_of(s: Seq<Lexeme>, by_begin: bool) -> Seq<Lexeme> {
    choose|r: Seq<Lexeme>| strictly_sorted(r, by_begin) && (forall|x: Lexeme| r.contains(x) <==> s.contains(x))
}

/// Two strictly sorted sequences with the same elements are equal.
pub proof fn lemma_sorted_unique(a: Seq<Lexeme>, b: Seq<Lexeme>, by_begin: bool)
    requires
        strictly_sorted(a, by_begin),
        strictly_sorted(b, by_begin),
        forall|x: Lexeme| a.contains(x) <==> b.contains(x),
        forall|i: int| 0 <= i < a.len() ==> lex_orderable(#[trigger] a[i], by_begin),
    ensures
        a == b,
    decreases a.len(),
{
    if a.len() == 0 {
        if b.len() > 0 {
            assert(b.contains(b[0]));
        }
        assert(a =~= b);
    } else {
        assert(b.len() > 0) by {
            assert(a.contains(a[0]));
        }
        assert(a.contains(a[0]));
        let k = choose|k: int| 0 <= k < b.len() && b[k] == a[0];
        assert(b.contains(b[0]));
        let m = choose|m: int| 0 <= m < a.len() && a[m] == b[0];
        lemma_lex_lt_total(a[0], a[0], by_begin);
        if k > 0 {
            assert(lex_lt(b[0], b[k], by_begin));
            if m > 0 {
                assert(lex_lt(a[0], a[m], by_begin));
                lemma_lex_lt_total(a[0], b[0], by_begin);
            }
        }
        assert(a[0] == b[0]);
        let a1 = a.drop_first();
        let b1 = b.drop_first();
        assert forall|x: Lexeme| a1.contains(x) <==> b1.contains(x) by {
            if a1.contains(x) {
                let t = choose|t: int| 0 <= t < a1.len() && a1[t] == x;
                assert(a[t + 1] == x);
                assert(lex_lt(a[0], a[t + 1], by_begin));
                assert(a.contains(x));
                let u = choose|u: int| 0 <= u < b.len() && b[u] == x;
                if u == 0 {
                    lemma_lex_lt_total(a[0], a[0], by_begin);
                }
                assert(b1[u - 1] == x);
            }
            if b1.contains(x) {
                let t = choose|t: int| 0 <= t < b1.len() && b1[t] == x;
                assert(b[t + 1] == x);
                assert(lex_lt(b[0], b[t + 1], by_begin));
                assert(b.contains(x));
                let u = choose|u: int| 0 <= u < a.len() && a[u] == x;
                if u == 0 {
                    lemma_lex_lt_total(a[0], a[0], by_begin);
                }
                assert(a1[u - 1] == x);
            }
        }
        lemma_sorted_unique(a1, b1, by_begin);
        assert(a =~= b) by {
            assert forall|i: int| 0 <= i < a.len() implies a[i] == b[i] by {
                if i > 0 {
                    assert(a1[i - 1] == b1[i - 1]);
                }
            }
        }
    }
}

/// Sort lexemes into a strictly increasing sequence under `lex_lt`, dropping
/// duplicates: the result holds exactly the lexemes of `v`.
pub fn sort_dedup(v: &Vec<Lexeme>, by_begin: bool) -> (r: Vec<Lexeme>)
    requires
        forall|i: int| 0 <= i < v@.len() ==> lex_orderable(#[trigger] v@[i], by_begin),
    ensures
        r@ == sorted_of(v@, by_begin),
        strictly_sorted(r@, by_begin),
        forall|x: Lexeme| r@.contains(x) <==> v@.contains(x),
{
    let r = sort_dedup_range(v, 0, v.len(), by_begin);
    proof {
        assert(v@.subrange(0, v@.len() as int) =~= v@);
        let w = sorted_of(v@, by_begin);
        assert(strictly_sorted(w, by_begin) && (forall|x: Lexeme| w.contains(x) <==> v@.contains(x)));
        assert forall|i: int| 0 <= i < r@.len() implies lex_orderable(#[trigger] r@[i], by_begin) by {
            assert(r@.contains(r@[i]));
            let k = choose|k: int| 0 <= k < v@.len() && v@[k] == r@[i];
        }
        lemma_sorted_unique(r@, w, by_begin);
    }
    r
}

} // verus!

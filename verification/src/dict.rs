//! IK dictionaries: a flat sorted term list with a first-char bucket index
//! (main, quantifier and stopword dictionaries) and a char-level prefix trie
//! in CSR layout for the main dictionary.
use vstd::prelude::*;
use vstd::string::StringSliceAdditionalSpecFns;

verus! {

// ---------------------------------------------------------------------------
// Lexicographic order on char sequences (the order of UTF-8 byte strings)
// ---------------------------------------------------------------------------

/// `a` and `b` agree before index `k`, and index `k` is where `a` sorts
/// first: either `a` ends there and `b` goes on, or both go on and `a`'s
/// char is smaller.
pub open spec fn lt_at(a: Seq<char>, b: Seq<char>, k: int) -> bool {
    &&& 0 <= k <= a.len()
    &&& k <= b.len()
    &&& forall|i: int| 0 <= i < k ==> a[i] == b[i]
    &&& ((k == a.len() && k < b.len()) || (k < a.len() && k < b.len() && (a[k] as u32) < (b[k] as u32)))
}

pub open spec fn seq_lt(a: Seq<char>, b: Seq<char>) -> bool {
    exists|k: int| lt_at(a, b, k)
}

pub open spec fn is_prefix(p: Seq<char>, w: Seq<char>) -> bool {
    p.len() <= w.len() && w.take(p.len() as int) == p
}

pub proof fn lemma_lt_asym(a: Seq<char>, b: Seq<char>)
    ensures
        !(seq_lt(a, b) && seq_lt(b, a)),
        !seq_lt(a, a),
{
    if seq_lt(a, b) && seq_lt(b, a) {
        let k = choose|k: int| lt_at(a, b, k);
        let m = choose|m: int| lt_at(b, a, m);
        if k < m {
            assert(a[k] == b[k]);
        } else if m < k {
            assert(a[m] == b[m]);
        }
    }
    if seq_lt(a, a) {
        let k = choose|k: int| lt_at(a, a, k);
    }
}

pub proof fn lemma_lt_trans(a: Seq<char>, b: Seq<char>, c: Seq<char>)
    requires
        seq_lt(a, b),
        seq_lt(b, c),
    ensures
        seq_lt(a, c),
{
    let k = choose|k: int| lt_at(a, b, k);
    let m = choose|m: int| lt_at(b, c, m);
    if k < m {
        assert(lt_at(a, c, k));
    } else if m < k {
        assert(lt_at(a, c, m));
    } else {
        assert(lt_at(a, c, k));
    }
}

proof fn lemma_first_diff(a: Seq<char>, b: Seq<char>, i: int)
    requires
        0 <= i <= a.len(),
        i <= b.len(),
        forall|q: int| 0 <= q < i ==> a[q] == b[q],
        a != b,
    ensures
        seq_lt(a, b) || seq_lt(b, a),
    decreases a.len() - i,
{
    if i == a.len() || i == b.len() {
        if i == a.len() && i == b.len() {
            assert(a =~= b);
        } else if i == a.len() {
            assert(lt_at(a, b, i));
        } else {
            assert(lt_at(b, a, i));
        }
    } else if a[i] == b[i] {
        lemma_first_diff(a, b, i + 1);
    } else if (a[i] as u32) < (b[i] as u32) {
        assert(lt_at(a, b, i));
    } else {
        vstd::utf8::char_u32_cast(a[i], a[i] as u32);
        vstd::utf8::char_u32_cast(b[i], b[i] as u32);
        assert(lt_at(b, a, i));
    }
}

pub proof fn lemma_lt_total(a: Seq<char>, b: Seq<char>)
    ensures
        a != b ==> (seq_lt(a, b) || seq_lt(b, a)),
{
    if a != b {
        lemma_first_diff(a, b, 0);
    }
}

/// A proper prefix sorts first.
pub proof fn lemma_prefix_lt(p: Seq<char>, w: Seq<char>)
    requires
        is_prefix(p, w),
        p.len() < w.len(),
    ensures
        seq_lt(p, w),
{
    assert forall|i: int| 0 <= i < p.len() implies p[i] == w[i] by {
        assert(w.take(p.len() as int)[i] == w[i]);
    }
    assert(lt_at(p, w, p.len() as int));
}

/// Anything sorting between `c` and a word that starts with `c` also starts
/// with `c`.
pub proof fn lemma_between_prefix(c: Seq<char>, t: Seq<char>, w: Seq<char>)
    requires
        is_prefix(c, w),
        c == t || seq_lt(c, t),
        t == w || seq_lt(t, w),
    ensures
        is_prefix(c, t),
{
    assert forall|i: int| 0 <= i < c.len() implies w[i] == c[i] by {
        assert(w.take(c.len() as int)[i] == w[i]);
    }
    if c == t {
        assert(t.take(c.len() as int) =~= c);
    } else if t == w {
    } else {
        let k = choose|k: int| lt_at(c, t, k);
        let m = choose|m: int| lt_at(t, w, m);
        if k < c.len() {
            if m < k {
                assert(t[m] == c[m]);
            } else if m == k {
            } else {
                assert(t[k] == w[k]);
            }
        }
        assert(t.take(c.len() as int) =~= c);
    }
}

/// Words are compared as char sequences; `b` is the range `b[b_lo..b_hi]`.
fn word_lt_range(a: &Vec<char>, b: &Vec<char>, b_lo: usize, b_hi: usize) -> (r: bool)
    requires
        b_lo <= b_hi <= b@.len(),
    ensures
        r == seq_lt(a@, b@.subrange(b_lo as int, b_hi as int)),
{
    let ghost bs = b@.subrange(b_lo as int, b_hi as int);
    let blen = b_hi - b_lo;
    let mut i: usize = 0;
    while i < a.len() && i < blen && a[i] == b[b_lo + i]
        invariant
            i <= a@.len(),
            i <= blen,
            blen == bs.len(),
            b_lo <= b_hi <= b@.len(),
            bs == b@.subrange(b_lo as int, b_hi as int),
            forall|q: int| 0 <= q < i ==> a@[q] == bs[q],
        decreases a@.len() - i,
    {
        i = i + 1;
    }
    let r = if i == a.len() {
        i < blen
    } else if i == blen {
        false
    } else {
        (a[i] as u32) < (b[b_lo + i] as u32)
    };
    proof {
        lemma_lt_asym(a@, bs);
        if r {
            assert(lt_at(a@, bs, i as int));
        } else {
            if i < a.len() && i < blen {
                assert(a@[i as int] != bs[i as int]);
                vstd::utf8::char_u32_cast(a@[i as int], a@[i as int] as u32);
                vstd::utf8::char_u32_cast(bs[i as int], bs[i as int] as u32);
                assert(lt_at(bs, a@, i as int));
            } else if i == a.len() && i == blen {
                assert(a@ =~= bs);
            } else {
                assert(lt_at(bs, a@, i as int));
            }
        }
    }
    r
}

fn words_eq_range(a: &Vec<char>, b: &Vec<char>, b_lo: usize, b_hi: usize) -> (r: bool)
    requires
        b_lo <= b_hi <= b@.len(),
    ensures
        r == (a@ == b@.subrange(b_lo as int, b_hi as int)),
{
    let ghost bs = b@.subrange(b_lo as int, b_hi as int);
    if a.len() != b_hi - b_lo {
        return false;
    }
    let mut i: usize = 0;
    while i < a.len()
        invariant
            i <= a@.len(),
            a@.len() == bs.len(),
            b_lo <= b_hi <= b@.len(),
            bs == b@.subrange(b_lo as int, b_hi as int),
            forall|q: int| 0 <= q < i ==> a@[q] == bs[q],
        decreases a@.len() - i,
    {
        if a[i] != b[b_lo + i] {
            return false;
        }
        i = i + 1;
    }
    proof {
        assert(a@ =~= bs);
    }
    true
}

/// `b[b_lo..b_hi]` is a prefix of `a`.
fn starts_with_range(a: &Vec<char>, b: &Vec<char>, b_lo: usize, b_hi: usize) -> (r: bool)
    requires
        b_lo <= b_hi <= b@.len(),
    ensures
        r == is_prefix(b@.subrange(b_lo as int, b_hi as int), a@),
{
    let ghost bs = b@.subrange(b_lo as int, b_hi as int);
    if a.len() < b_hi - b_lo {
        return false;
    }
    let mut i: usize = 0;
    while i < b_hi - b_lo
        invariant
            i <= bs.len() <= a@.len(),
            b_lo <= b_hi <= b@.len(),
            bs == b@.subrange(b_lo as int, b_hi as int),
            forall|q: int| 0 <= q < i ==> a@[q] == bs[q],
        decreases bs.len() - i,
    {
        if a[i] != b[b_lo + i] {
            proof {
                assert(a@.take(bs.len() as int)[i as int] != bs[i as int]);
            }
            return false;
        }
        i = i + 1;
    }
    proof {
        assert(a@.take(bs.len() as int) =~= bs);
    }
    true
}


// ---------------------------------------------------------------------------
// Flat sorted dictionary with a first-char bucket index
// ---------------------------------------------------------------------------

/// One dictionary: its terms in strictly increasing order, the distinct
/// first chars of the terms (ascending), and for each first char the index
/// of its first term (`bucket_start` has one more entry, the term count).
#[derive(Debug)]
pub struct DictView {
    words: Vec<Vec<char>>,
    fc: Vec<u32>,
    bucket_start: Vec<u32>,
    count: usize,
}

impl DictView {
    /// The terms of the dictionary, in order.
    pub closed spec fn terms(&self) -> Seq<Seq<char>> {
        self.words@.map_values(|w: Vec<char>| w@)
    }

    pub closed spec fn in_bucket(&self, b: int, i: int) -> bool {
        self.bucket_start@[b] <= i < self.bucket_start@[b + 1]
    }

    /// The bucket that holds term `i`.
    pub closed spec fn owner_of(&self, i: int) -> int {
        choose|b: int| 0 <= b < self.fc@.len() && self.in_bucket(b, i)
    }

    pub closed spec fn wf(&self) -> bool {
        let n = self.words@.len();
        let nb = self.fc@.len();
        &&& self.count == n
        &&& n <= u32::MAX
        &&& nb <= u32::MAX
        &&& forall|i: int| 0 <= i < n ==> (#[trigger] self.words@[i])@.len() >= 1
        &&& forall|i: int, j: int| 0 <= i < j < n ==> seq_lt(#[trigger] self.words@[i]@, #[trigger] self.words@[j]@)
        &&& self.bucket_start@.len() == nb + 1
        &&& self.bucket_start@[0] == 0
        &&& self.bucket_start@[nb as int] == n
        &&& forall|b: int, c: int| 0 <= b < c <= nb ==> #[trigger] self.bucket_start@[b] < #[trigger] self.bucket_start@[c]
        &&& forall|b: int, c: int| 0 <= b < c < nb ==> #[trigger] self.fc@[b] < #[trigger] self.fc@[c]
        &&& forall|b: int, i: int| 0 <= b < nb && #[trigger] self.in_bucket(b, i) ==> self.words@[i]@[0] as u32 == self.fc@[b]
        &&& forall|i: int| 0 <= i < n ==> 0 <= #[trigger] self.owner_of(i) < nb && self.in_bucket(self.owner_of(i), i)
    }
}

/// The lengths `k` in `1..=m`, ascending, for which `t[..k]` is a term.
pub open spec fn hits_upto(terms: Seq<Seq<char>>, t: Seq<char>, m: int) -> Seq<usize>
    decreases m,
{
    if m <= 0 {
        Seq::empty()
    } else {
        hits_upto(terms, t, m - 1) + if terms.contains(t.take(m)) {
            seq![m as usize]
        } else {
            Seq::empty()
        }
    }
}

/// Every term that is a prefix of `t`, as char counts, ascending.
pub open spec fn prefix_hits(terms: Seq<Seq<char>>, t: Seq<char>) -> Seq<usize> {
    hits_upto(terms, t, t.len() as int)
}

/// When no term starts with `t[..k]`, no longer prefix of `t` is a term.
proof fn lemma_hits_stop(terms: Seq<Seq<char>>, t: Seq<char>, k: int, m: int)
    requires
        1 <= k <= m <= t.len(),
        forall|i: int| 0 <= i < terms.len() ==> !is_prefix(t.take(k), #[trigger] terms[i]),
    ensures
        hits_upto(terms, t, m) == hits_upto(terms, t, k - 1),
    decreases m,
{
    if m >= k {
        if terms.contains(t.take(m)) {
            let i = choose|i: int| 0 <= i < terms.len() && terms[i] == t.take(m);
            assert(t.take(m).take(k) =~= t.take(k));
            assert(is_prefix(t.take(k), terms[i]));
        }
        if m > k {
            lemma_hits_stop(terms, t, k, m - 1);
        }
    }
}

impl DictView {
    proof fn lemma_terms(&self)
        ensures
            self.terms().len() == self.words@.len(),
            forall|i: int| 0 <= i < self.words@.len() ==> #[trigger] self.terms()[i] == self.words@[i]@,
    {
    }

    /// A word whose first char is `fc[b]` sits in bucket `b`.
    proof fn lemma_bucket_of_word(&self, b: int, i: int)
        requires
            self.wf(),
            0 <= b < self.fc@.len(),
            0 <= i < self.words@.len(),
            self.words@[i]@[0] as u32 == self.fc@[b],
        ensures
            self.bucket_start@[b] <= i < self.bucket_start@[b + 1],
    {
        assert(self.in_bucket(b, i) ==> self.words@[i]@[0] as u32 == self.fc@[b]);
        let b2 = self.owner_of(i);
        assert(self.words@[i]@[0] as u32 == self.fc@[b2]);
        if b2 < b {
            assert(self.fc@[b2] < self.fc@[b]);
        } else if b < b2 {
            assert(self.fc@[b] < self.fc@[b2]);
        }
    }

    /// Locate the bucket for first char `c`.
    fn bucket_of(&self, c: char) -> (r: Option<usize>)
        requires
            self.wf(),
        ensures
            r is Some ==> (r->0 < self.fc@.len() && self.fc@[r->0 as int] == c as u32),
            r is None ==> forall|b: int| 0 <= b < self.fc@.len() ==> self.fc@[b] != c as u32,
    {
        let key = c as u32;
        let mut lo: usize = 0;
        let mut hi: usize = self.fc.len();
        while lo < hi
            invariant
                self.wf(),
                lo <= hi <= self.fc@.len(),
                key == c as u32,
                forall|b: int| 0 <= b < lo ==> self.fc@[b] < key,
                forall|b: int| hi <= b < self.fc@.len() ==> self.fc@[b] > key,
            decreases hi - lo,
        {
            let mid = lo + (hi - lo) / 2;
            let v = self.fc[mid];
            if v < key {
                proof {
                    assert forall|b: int| 0 <= b < mid + 1 implies self.fc@[b] < key by {
                        if b < mid {
                            assert(self.fc@[b] < self.fc@[mid as int]);
                        }
                    }
                }
                lo = mid + 1;
            } else if v > key {
                proof {
                    assert forall|b: int| mid <= b < self.fc@.len() implies self.fc@[b] > key by {
                        if b > mid {
                            assert(self.fc@[mid as int] < self.fc@[b]);
                        }
                    }
                }
                hi = mid;
            } else {
                assert(self.fc@[mid as int] == key);
                assert(key == c as u32);
                assert(mid < self.fc@.len());
                let r = Some(mid);
                assert(r->0 == mid);
                return r;
            }
        }
        None
    }

    /// First index in `[lo, hi)` whose term is not below the range
    /// `key[k_lo..k_hi]`.
    fn lower_bound(&self, lo: usize, hi: usize, key: &Vec<char>, k_lo: usize, k_hi: usize) -> (r: usize)
        requires
            self.wf(),
            lo <= hi <= self.words@.len(),
            k_lo <= k_hi <= key@.len(),
        ensures
            lo <= r <= hi,
            forall|i: int| lo <= i < r ==> seq_lt(#[trigger] self.words@[i]@, key@.subrange(k_lo as int, k_hi as int)),
            forall|i: int| r <= i < hi ==> !seq_lt(#[trigger] self.words@[i]@, key@.subrange(k_lo as int, k_hi as int)),
    {
        let ghost ks = key@.subrange(k_lo as int, k_hi as int);
        let mut left = lo;
        let mut right = hi;
        while left < right
            invariant
                self.wf(),
                lo <= left <= right <= hi <= self.words@.len(),
                k_lo <= k_hi <= key@.len(),
                ks == key@.subrange(k_lo as int, k_hi as int),
                forall|i: int| lo <= i < left ==> seq_lt(#[trigger] self.words@[i]@, ks),
                forall|i: int| right <= i < hi ==> !seq_lt(#[trigger] self.words@[i]@, ks),
            decreases right - left,
        {
            let mid = left + (right - left) / 2;
            if word_lt_range(&self.words[mid], key, k_lo, k_hi) {
                proof {
                    assert forall|i: int| lo <= i < mid + 1 implies seq_lt(#[trigger] self.words@[i]@, ks) by {
                        if i < mid {
                            lemma_lt_trans(self.words@[i]@, self.words@[mid as int]@, ks);
                        }
                    }
                }
                left = mid + 1;
            } else {
                proof {
                    assert forall|i: int| mid <= i < hi implies !seq_lt(#[trigger] self.words@[i]@, ks) by {
                        if i > mid && seq_lt(self.words@[i]@, ks) {
                            lemma_lt_trans(self.words@[mid as int]@, self.words@[i]@, ks);
                        }
                    }
                }
                right = mid;
            }
        }
        left
    }

    /// Membership of the range `key[k_lo..k_hi]` in the dictionary.
    pub fn contains_range(&self, key: &Vec<char>, k_lo: usize, k_hi: usize) -> (r: bool)
        requires
            self.wf(),
            k_lo <= k_hi <= key@.len(),
        ensures
            r == self.terms().contains(key@.subrange(k_lo as int, k_hi as int)),
    {
        let ghost ks = key@.subrange(k_lo as int, k_hi as int);
        proof {
            self.lemma_terms();
        }
        if k_lo == k_hi {
            proof {
                if self.terms().contains(ks) {
                    let i = choose|i: int| 0 <= i < self.terms().len() && self.terms()[i] == ks;
                    assert(self.words@[i]@.len() >= 1);
                }
            }
            return false;
        }
        let first = key[k_lo];
        assert(ks[0] == first);
        let bk = self.bucket_of(first);
        match bk {
            None => {
                proof {
                    if self.terms().contains(ks) {
                        let i = choose|i: int| 0 <= i < self.terms().len() && self.terms()[i] == ks;
                        let b = self.owner_of(i);
                        assert(self.words@[i]@[0] as u32 == self.fc@[b]);
                    }
                }
                false
            },
            Some(b) => {
                let lo = self.bucket_start[b] as usize;
                let hi = self.bucket_start[b + 1] as usize;
                assert(self.bucket_start@[b as int] < self.bucket_start@[b + 1]);
                let pp = self.lower_bound(lo, hi, key, k_lo, k_hi);
                let r = pp < hi && words_eq_range(&self.words[pp], key, k_lo, k_hi);
                proof {
                    if self.terms().contains(ks) && !r {
                        let i = choose|i: int| 0 <= i < self.terms().len() && self.terms()[i] == ks;
                        self.lemma_bucket_of_word(b as int, i);
                        lemma_lt_asym(ks, ks);
                        assert(i >= pp);
                        if i > pp {
                            assert(seq_lt(self.words@[pp as int]@, self.words@[i]@));
                            lemma_lt_total(self.words@[pp as int]@, ks);
                            lemma_lt_asym(self.words@[pp as int]@, ks);
                        }
                    }
                    if r {
                        assert(self.terms()[pp as int] == ks);
                    }
                }
                r
            },
        }
    }

    /// Every term that is a prefix of `text[start..]`, as char counts in
    /// increasing order.
    pub fn find_prefixes(&self, text: &Vec<char>, start: usize) -> (r: Vec<usize>)
        requires
            self.wf(),
            start <= text@.len() < usize::MAX,
        ensures
            r@ == prefix_hits(self.terms(), text@.subrange(start as int, text@.len() as int)),
    {
        let ghost t = text@.subrange(start as int, text@.len() as int);
        let ghost terms = self.terms();
        proof {
            self.lemma_terms();
        }
        let mut out: Vec<usize> = Vec::new();
        let n = text.len();
        if start >= n {
            return out;
        }
        let first = text[start];
        let bk = self.bucket_of(first);
        if bk.is_none() {
            proof {
                assert(t.take(1) =~= seq![first]);
                assert forall|i: int| 0 <= i < terms.len() implies !is_prefix(t.take(1), #[trigger] terms[i]) by {
                    if is_prefix(t.take(1), terms[i]) {
                        assert(terms[i].take(1)[0] == first);
                        let b = self.owner_of(i);
                        assert(self.words@[i]@[0] as u32 == self.fc@[b]);
                    }
                }
                lemma_hits_stop(terms, t, 1, t.len() as int);
                assert(hits_upto(terms, t, 0) =~= Seq::<usize>::empty());
            }
            return out;
        }
        let b = bk.unwrap();
        let lo = self.bucket_start[b] as usize;
        let hi = self.bucket_start[b + 1] as usize;
        assert(self.bucket_start@[b as int] < self.bucket_start@[b + 1]);
        let mut cursor = lo;
        let mut k: usize = 1;
        let mut done = false;
        while !done && k <= n - start
            invariant
                self.wf(),
                terms == self.terms(),
                terms.len() == self.words@.len(),
                forall|i: int| 0 <= i < self.words@.len() ==> #[trigger] terms[i] == self.words@[i]@,
                t == text@.subrange(start as int, text@.len() as int),
                n == text@.len(),
                n < usize::MAX,
                start < n,
                b < self.fc@.len(),
                self.fc@[b as int] == first as u32,
                t[0] == first,
                lo == self.bucket_start@[b as int],
                hi == self.bucket_start@[b + 1],
                lo <= cursor <= hi <= self.words@.len(),
                1 <= k <= t.len() + 1,
                !done ==> out@ == hits_upto(terms, t, k - 1),
                done ==> out@ == hits_upto(terms, t, t.len() as int),
                !done ==> forall|i: int| lo <= i < cursor ==> seq_lt(#[trigger] self.words@[i]@, t.take(k - 1)),
            decreases t.len() + 1 - k + (if done { 0int } else { 1int }),
        {
            let ghost cand = t.take(k as int);
            assert(cand =~= text@.subrange(start as int, (start + k) as int));
            proof {
                assert forall|i: int| lo <= i < cursor implies seq_lt(#[trigger] self.words@[i]@, cand) by {
                    if (k - 1) < cand.len() {
                        assert(is_prefix(t.take(k - 1), cand)) by {
                            assert(cand.take(k - 1) =~= t.take(k - 1));
                        }
                        lemma_prefix_lt(t.take(k - 1), cand);
                        lemma_lt_trans(self.words@[i]@, t.take(k - 1), cand);
                    }
                }
            }
            let left = self.lower_bound(cursor, hi, text, start, start + k);
            // No word starts with `cand` once the bucket holds nothing at or
            // after it, or the first such word does not start with it.
            let stop = if left >= hi {
                true
            } else {
                !starts_with_range(&self.words[left], text, start, start + k)
            };
            if stop {
                proof {
                    assert forall|i: int| 0 <= i < terms.len() implies !is_prefix(cand, #[trigger] terms[i]) by {
                        if is_prefix(cand, terms[i]) {
                            assert(cand[0] == first);
                            assert(terms[i].take(cand.len() as int)[0] == terms[i][0]);
                            self.lemma_bucket_of_word(b as int, i);
                            lemma_lt_asym(cand, cand);
                            if cand.len() < terms[i].len() {
                                lemma_prefix_lt(cand, terms[i]);
                            } else {
                                assert(terms[i] =~= cand);
                            }
                            assert(!seq_lt(terms[i], cand)) by {
                                lemma_lt_asym(cand, terms[i]);
                            }
                            assert(i >= left);
                            if left < hi {
                                if i > left {
                                    assert(seq_lt(self.words@[left as int]@, self.words@[i]@));
                                }
                                lemma_lt_total(cand, self.words@[left as int]@);
                                lemma_between_prefix(cand, self.words@[left as int]@, terms[i]);
                            }
                        }
                    }
                    lemma_hits_stop(terms, t, k as int, t.len() as int);
                }
                done = true;
            } else {
                let term_eq = words_eq_range(&self.words[left], text, start, start + k);
                if term_eq {
                    out.push(k);
                }
                proof {
                    assert(terms.contains(cand) == term_eq) by {
                        if term_eq {
                            assert(terms[left as int] == cand);
                        }
                        if terms.contains(cand) && !term_eq {
                            let i = choose|i: int| 0 <= i < terms.len() && terms[i] == cand;
                            assert(cand[0] == first);
                            self.lemma_bucket_of_word(b as int, i);
                            lemma_lt_asym(cand, cand);
                            assert(i >= left);
                            if i > left {
                                assert(seq_lt(self.words@[left as int]@, self.words@[i]@));
                                lemma_lt_total(self.words@[left as int]@, cand);
                                lemma_lt_asym(self.words@[left as int]@, cand);
                            }
                        }
                    }
                    assert(out@ =~= hits_upto(terms, t, k as int));
                }
                cursor = left;
                k = k + 1;
            }
        }
        proof {
            if !done {
                assert(k - 1 == t.len());
            }
        }
        out
    }
}


// ---------------------------------------------------------------------------
// Sorting dictionary terms
// ---------------------------------------------------------------------------

pub open spec fn words_sorted(s: Seq<Seq<char>>) -> bool {
    forall|i: int, j: int| 0 <= i < j < s.len() ==> seq_lt(#[trigger] s[i], #[trigger] s[j])
}

pub open spec fn views(v: Seq<Vec<char>>) -> Seq<Seq<char>> {
    v.map_values(|w: Vec<char>| w@)
}

fn copy_chars(v: &Vec<char>) -> (r: Vec<char>)
    ensures
        r@ == v@,
{
    let mut r: Vec<char> = Vec::new();
    let mut i: usize = 0;
    while i < v.len()
        invariant
            i <= v@.len(),
            r@ == v@.take(i as int),
        decreases v@.len() - i,
    {
        r.push(v[i]);
        i = i + 1;
        proof {
            assert(r@ =~= v@.take(i as int));
        }
    }
    proof {
        assert(v@.take(i as int) =~= v@);
    }
    r
}

/// Total number of chars of all the words of `s`.
pub open spec fn seq_chars(s: Seq<Seq<char>>) -> int
    decreases s.len(),
{
    if s.len() == 0 {
        0
    } else {
        seq_chars(s.drop_last()) + s.last().len()
    }
}

proof fn lemma_seq_chars_concat(a: Seq<Seq<char>>, b: Seq<Seq<char>>)
    ensures
        seq_chars(a + b) == seq_chars(a) + seq_chars(b),
    decreases b.len(),
{
    if b.len() == 0 {
        assert(a + b =~= a);
    } else {
        lemma_seq_chars_concat(a, b.drop_last());
        assert((a + b).drop_last() =~= a + b.drop_last());
    }
}

proof fn lemma_seq_chars_push(a: Seq<Seq<char>>, x: Seq<char>)
    ensures
        seq_chars(a.push(x)) == seq_chars(a) + x.len(),
{
    assert(a.push(x).drop_last() =~= a);
}

proof fn lemma_chars_total_is_seq_chars(ws: Seq<Seq<char>>, k: int)
    requires
        0 <= k <= ws.len(),
    ensures
        chars_total(ws, k) == seq_chars(ws.take(k)),
    decreases k,
{
    if k > 0 {
        lemma_chars_total_is_seq_chars(ws, k - 1);
        assert(ws.take(k).drop_last() =~= ws.take(k - 1));
    }
}

fn merge_words(a: &Vec<Vec<char>>, b: &Vec<Vec<char>>) -> (r: Vec<Vec<char>>)
    requires
        words_sorted(views(a@)),
        words_sorted(views(b@)),
    ensures
        words_sorted(views(r@)),
        forall|x: Seq<char>| views(r@).contains(x) <==> (views(a@).contains(x) || views(b@).contains(x)),
        seq_chars(views(r@)) <= seq_chars(views(a@)) + seq_chars(views(b@)),
{
    let ghost va = views(a@);
    let ghost vb = views(b@);
    let mut out: Vec<Vec<char>> = Vec::new();
    let mut i: usize = 0;
    let mut j: usize = 0;
    while i < a.len() || j < b.len()
        invariant
            va == views(a@),
            vb == views(b@),
            va.len() == a@.len(),
            vb.len() == b@.len(),
            words_sorted(va),
            words_sorted(vb),
            i <= a.len(),
            j <= b.len(),
            words_sorted(views(out@)),
            forall|x: Seq<char>| views(out@).contains(x) <==> (va.subrange(0, i as int).contains(x) || vb.subrange(0, j as int).contains(x)),
            forall|k: int| 0 <= k < out@.len() && i < a@.len() ==> seq_lt(#[trigger] views(out@)[k], va[i as int]),
            forall|k: int| 0 <= k < out@.len() && j < b@.len() ==> seq_lt(#[trigger] views(out@)[k], vb[j as int]),
            seq_chars(views(out@)) <= seq_chars(va.take(i as int)) + seq_chars(vb.take(j as int)),
        decreases a.len() + b.len() - i - j,
    {
        let ghost old_out = views(out@);
        let ghost oi = i;
        let ghost oj = j;
        let take_a: bool;
        let take_b: bool;
        if i < a.len() && j < b.len() {
            let a_lt = word_lt_range(&a[i], &b[j], 0, b[j].len());
            let b_lt = word_lt_range(&b[j], &a[i], 0, a[i].len());
            proof {
                assert(b@[j as int]@.subrange(0, b@[j as int]@.len() as int) =~= b@[j as int]@);
                assert(a@[i as int]@.subrange(0, a@[i as int]@.len() as int) =~= a@[i as int]@);
            }
            if a_lt {
                take_a = true;
                take_b = false;
            } else if b_lt {
                take_a = false;
                take_b = true;
            } else {
                proof {
                    lemma_lt_total(va[i as int], vb[j as int]);
                }
                take_a = true;
                take_b = true;
            }
        } else if i < a.len() {
            take_a = true;
            take_b = false;
        } else {
            take_a = false;
            take_b = true;
        }
        let x = if take_a {
            copy_chars(&a[i])
        } else {
            copy_chars(&b[j])
        };
        out.push(x);
        if take_a {
            i = i + 1;
        }
        if take_b {
            j = j + 1;
        }
        proof {
            let no = views(out@);
            assert(no =~= old_out.push(x@));
            lemma_seq_chars_push(old_out, x@);
            if take_a {
                assert(va.take(i as int) =~= va.take(oi as int).push(va[oi as int]));
                lemma_seq_chars_push(va.take(oi as int), va[oi as int]);
            }
            if take_b {
                assert(vb.take(j as int) =~= vb.take(oj as int).push(vb[oj as int]));
                lemma_seq_chars_push(vb.take(oj as int), vb[oj as int]);
            }
            let xv = x@;
            if take_a {
                assert(xv == va[oi as int]);
            } else {
                assert(xv == vb[oj as int]);
            }
            assert forall|k: int| 0 <= k < no.len() && i < a@.len() implies seq_lt(#[trigger] no[k], va[i as int]) by {
                if take_a {
                    if k < old_out.len() {
                        lemma_lt_trans(no[k], va[oi as int], va[i as int]);
                    }
                } else {
                    lemma_lt_total(va[oi as int], vb[oj as int]);
                    lemma_lt_asym(va[oi as int], vb[oj as int]);
                }
            }
            assert forall|k: int| 0 <= k < no.len() && j < b@.len() implies seq_lt(#[trigger] no[k], vb[j as int]) by {
                if take_b {
                    if k < old_out.len() {
                        lemma_lt_trans(no[k], vb[oj as int], vb[j as int]);
                    }
                } else {
                    lemma_lt_total(va[oi as int], vb[oj as int]);
                    if k == old_out.len() {
                    } else {
                    }
                }
            }
            assert forall|p: int, q: int| 0 <= p < q < no.len() implies seq_lt(#[trigger] no[p], #[trigger] no[q]) by {
                if q == no.len() - 1 {
                    assert(no[p] == old_out[p]);
                }
            }
            assert forall|y: Seq<char>| no.contains(y) <==> (va.subrange(0, i as int).contains(y) || vb.subrange(0, j as int).contains(y)) by {
                let sa = va.subrange(0, i as int);
                let sb = vb.subrange(0, j as int);
                let osa = va.subrange(0, oi as int);
                let osb = vb.subrange(0, oj as int);
                if no.contains(y) {
                    let k = choose|k: int| 0 <= k < no.len() && no[k] == y;
                    if k < old_out.len() {
                        assert(old_out[k] == y);
                        assert(old_out.contains(y));
                        if osa.contains(y) {
                            let t = choose|t: int| 0 <= t < osa.len() && osa[t] == y;
                            assert(sa[t] == y);
                        } else {
                            let t = choose|t: int| 0 <= t < osb.len() && osb[t] == y;
                            assert(sb[t] == y);
                        }
                    } else if take_a {
                        assert(sa[oi as int] == y);
                    } else {
                        assert(sb[oj as int] == y);
                    }
                }
                if sa.contains(y) {
                    let t = choose|t: int| 0 <= t < sa.len() && sa[t] == y;
                    if t < oi {
                        assert(osa[t] == y);
                        assert(old_out.contains(y));
                        let k = choose|k: int| 0 <= k < old_out.len() && old_out[k] == y;
                        assert(no[k] == y);
                    } else {
                        assert(no[no.len() - 1] == y);
                    }
                }
                if sb.contains(y) {
                    let t = choose|t: int| 0 <= t < sb.len() && sb[t] == y;
                    if t < oj {
                        assert(osb[t] == y);
                        assert(old_out.contains(y));
                        let k = choose|k: int| 0 <= k < old_out.len() && old_out[k] == y;
                        assert(no[k] == y);
                    } else {
                        if take_a {
                            assert(va[oi as int] == vb[oj as int]);
                        }
                        assert(no[no.len() - 1] == y);
                    }
                }
            }
        }
    }
    proof {
        assert(va.subrange(0, i as int) =~= va);
        assert(vb.subrange(0, j as int) =~= vb);
        assert(va.take(i as int) =~= va);
        assert(vb.take(j as int) =~= vb);
    }
    out
}

fn sort_words_range(v: &Vec<Vec<char>>, lo: usize, hi: usize) -> (r: Vec<Vec<char>>)
    requires
        lo <= hi <= v@.len(),
    ensures
        words_sorted(views(r@)),
        forall|x: Seq<char>| views(r@).contains(x) <==> views(v@).subrange(lo as int, hi as int).contains(x),
        seq_chars(views(r@)) <= seq_chars(views(v@).subrange(lo as int, hi as int)),
    decreases hi - lo,
{
    let ghost vv = views(v@);
    if hi - lo == 0 {
        let r: Vec<Vec<char>> = Vec::new();
        proof {
            assert(vv.subrange(lo as int, hi as int) =~= Seq::<Seq<char>>::empty());
            assert(views(r@) =~= Seq::<Seq<char>>::empty());
        }
        return r;
    }
    if hi - lo == 1 {
        let mut r: Vec<Vec<char>> = Vec::new();
        r.push(copy_chars(&v[lo]));
        proof {
            assert(vv.subrange(lo as int, hi as int) =~= seq![vv[lo as int]]);
            assert(views(r@) =~= seq![vv[lo as int]]);
        }
        return r;
    }
    let mid = lo + (hi - lo) / 2;
    let a = sort_words_range(v, lo, mid);
    let b = sort_words_range(v, mid, hi);
    let r = merge_words(&a, &b);
    proof {
        assert(vv.subrange(lo as int, hi as int) =~= vv.subrange(lo as int, mid as int) + vv.subrange(mid as int, hi as int));
        lemma_seq_chars_concat(vv.subrange(lo as int, mid as int), vv.subrange(mid as int, hi as int));
        assert forall|x: Seq<char>| views(r@).contains(x) <==> vv.subrange(lo as int, hi as int).contains(x) by {
            let s = vv.subrange(lo as int, hi as int);
            let s1 = vv.subrange(lo as int, mid as int);
            let s2 = vv.subrange(mid as int, hi as int);
            if s.contains(x) {
                let k = choose|k: int| 0 <= k < s.len() && s[k] == x;
                if k < mid - lo {
                    assert(s1[k] == x);
                } else {
                    assert(s2[k - (mid - lo)] == x);
                }
            }
            if s1.contains(x) {
                let k = choose|k: int| 0 <= k < s1.len() && s1[k] == x;
                assert(s[k] == x);
            }
            if s2.contains(x) {
                let k = choose|k: int| 0 <= k < s2.len() && s2[k] == x;
                assert(s[k + (mid - lo)] == x);
            }
        }
    }
    r
}

/// Sort terms into strictly increasing order, dropping duplicates.
pub fn sort_dedup_words(v: &Vec<Vec<char>>) -> (r: Vec<Vec<char>>)
    ensures
        words_sorted(views(r@)),
        forall|x: Seq<char>| views(r@).contains(x) <==> views(v@).contains(x),
        seq_chars(views(r@)) <= seq_chars(views(v@)),
{
    let r = sort_words_range(v, 0, v.len());
    proof {
        assert(views(v@).subrange(0, v@.len() as int) =~= views(v@));
    }
    r
}


// ---------------------------------------------------------------------------
// Parsing `.dic` text and building the flat dictionary
// ---------------------------------------------------------------------------

/// Unicode `White_Space`, the set that `str::trim` removes.
pub open spec fn is_ws(c: char) -> bool {
    c == ' ' || ('\t' <= c && c <= '\r') || c == '\u{85}' || c == '\u{a0}' || c == '\u{1680}' || (
    '\u{2000}' <= c && c <= '\u{200a}') || c == '\u{2028}' || c == '\u{2029}' || c == '\u{202f}'
        || c == '\u{205f}' || c == '\u{3000}'
}

fn is_whitespace(c: char) -> (r: bool)
    ensures
        r == is_ws(c),
{
    c == ' ' || ('\t' <= c && c <= '\r') || c == '\u{85}' || c == '\u{a0}' || c == '\u{1680}' || (
    '\u{2000}' <= c && c <= '\u{200a}') || c == '\u{2028}' || c == '\u{2029}' || c == '\u{202f}'
        || c == '\u{205f}' || c == '\u{3000}'
}

pub open spec fn trim_front(s: Seq<char>) -> Seq<char>
    decreases s.len(),
{
    if s.len() > 0 && is_ws(s[0]) {
        trim_front(s.drop_first())
    } else {
        s
    }
}

pub open spec fn trim_back(s: Seq<char>) -> Seq<char>
    decreases s.len(),
{
    if s.len() > 0 && is_ws(s.last()) {
        trim_back(s.drop_last())
    } else {
        s
    }
}

pub open spec fn trim(s: Seq<char>) -> Seq<char> {
    trim_back(trim_front(s))
}

/// The lines of `t`, split at `'\n'` (the last line may be empty).
pub open spec fn lines_spec(t: Seq<char>) -> Seq<Seq<char>>
    decreases t.len(),
{
    if t.len() == 0 {
        seq![Seq::empty()]
    } else if t.last() == '\n' {
        lines_spec(t.drop_last()).push(Seq::empty())
    } else {
        let l = lines_spec(t.drop_last());
        l.drop_last().push(l.last().push(t.last()))
    }
}

/// A trimmed line is a term unless it is blank or a `#` comment.
pub open spec fn entry_ok(e: Seq<char>) -> bool {
    e.len() > 0 && e[0] != '#'
}

pub open spec fn kept_entries(ls: Seq<Seq<char>>) -> Seq<Seq<char>>
    decreases ls.len(),
{
    if ls.len() == 0 {
        Seq::empty()
    } else {
        kept_entries(ls.drop_last()) + if entry_ok(trim(ls.last())) {
            seq![trim(ls.last())]
        } else {
            Seq::empty()
        }
    }
}

pub open spec fn strip_bom(t: Seq<char>) -> Seq<char> {
    if t.len() > 0 && t[0] == '\u{feff}' {
        t.drop_first()
    } else {
        t
    }
}

/// The terms a `.dic` text lists: one per line, trimmed, skipping blank
/// lines and `#` comments, after an optional byte-order mark.
pub open spec fn dic_entries(text: Seq<char>) -> Seq<Seq<char>> {
    kept_entries(lines_spec(strip_bom(text)))
}

proof fn lemma_lines_nonempty(t: Seq<char>)
    ensures
        lines_spec(t).len() >= 1,
    decreases t.len(),
{
    if t.len() > 0 {
        lemma_lines_nonempty(t.drop_last());
    }
}

/// `chars[a..b]` is the trimmed `chars[lo..hi]`.
fn trim_range(chars: &Vec<char>, lo: usize, hi: usize) -> (r: (usize, usize))
    requires
        lo <= hi <= chars@.len(),
    ensures
        lo <= r.0 <= r.1 <= hi,
        chars@.subrange(r.0 as int, r.1 as int) == trim(chars@.subrange(lo as int, hi as int)),
{
    let mut a = lo;
    while a < hi && is_whitespace(chars[a])
        invariant
            lo <= a <= hi <= chars@.len(),
            trim_front(chars@.subrange(lo as int, hi as int)) == trim_front(chars@.subrange(a as int, hi as int)),
        decreases hi - a,
    {
        proof {
            assert(chars@.subrange(a as int, hi as int).drop_first() =~= chars@.subrange(a + 1, hi as int));
        }
        a = a + 1;
    }
    let mut b = hi;
    while b > a && is_whitespace(chars[b - 1])
        invariant
            lo <= a <= b <= hi <= chars@.len(),
            trim_back(chars@.subrange(a as int, hi as int)) == trim_back(chars@.subrange(a as int, b as int)),
        decreases b - a,
    {
        proof {
            assert(chars@.subrange(a as int, b as int).drop_last() =~= chars@.subrange(a as int, b - 1));
        }
        b = b - 1;
    }
    (a, b)
}

fn copy_range(chars: &Vec<char>, lo: usize, hi: usize) -> (r: Vec<char>)
    requires
        lo <= hi <= chars@.len(),
    ensures
        r@ == chars@.subrange(lo as int, hi as int),
{
    let mut r: Vec<char> = Vec::new();
    let mut i = lo;
    while i < hi
        invariant
            lo <= i <= hi <= chars@.len(),
            r@ == chars@.subrange(lo as int, i as int),
        decreases hi - i,
    {
        r.push(chars[i]);
        i = i + 1;
        proof {
            assert(r@ =~= chars@.subrange(lo as int, i as int));
        }
    }
    r
}

/// The entries of a `.dic` text, in file order (before sorting).
fn dic_lines(text: &str) -> (r: Vec<Vec<char>>)
    ensures
        views(r@) == dic_entries(text@),
        r@.len() <= text@.len(),
        seq_chars(views(r@)) <= text@.len(),
{
    let chars = crate::char_util::str_to_chars(text);
    let n = chars.len();
    let start: usize = if n > 0 && chars[0] == '\u{feff}' {
        1
    } else {
        0
    };
    let ghost t = strip_bom(text@);
    proof {
        assert(t =~= chars@.subrange(start as int, n as int));
    }
    let mut out: Vec<Vec<char>> = Vec::new();
    let mut ls = start;
    let mut i = start;
    while i < n
        invariant
            n == chars@.len(),
            chars@ == text@,
            t == chars@.subrange(start as int, n as int),
            start <= ls <= i <= n,
            views(out@) == kept_entries(lines_spec(t.take(i - start)).drop_last()),
            lines_spec(t.take(i - start)).last() == chars@.subrange(ls as int, i as int),
            out@.len() <= ls - start,
            seq_chars(views(out@)) <= ls - start,
            ls == start || ls <= i,
        decreases n - i,
    {
        let ghost k: int = i - start;
        let ghost old_lines = lines_spec(t.take(k));
        proof {
            lemma_lines_nonempty(t.take(k));
            assert(t.take(k + 1).drop_last() =~= t.take(k));
            assert(t.take(k + 1).last() == chars@[i as int]);
        }
        if chars[i] == '\n' {
            let (a, b) = trim_range(&chars, ls, i);
            let ghost old_out = views(out@);
            if a < b && chars[a] != '#' {
                let w = copy_range(&chars, a, b);
                out.push(w);
                proof {
                    assert(views(out@) =~= old_out.push(w@));
                    lemma_seq_chars_push(old_out, w@);
                }
            }
            proof {
                let nl = lines_spec(t.take(k + 1));
                assert(nl == old_lines.push(Seq::empty()));
                assert(nl.drop_last() =~= old_lines);
                assert(kept_entries(old_lines) == kept_entries(old_lines.drop_last()) + if entry_ok(trim(old_lines.last())) {
                    seq![trim(old_lines.last())]
                } else {
                    Seq::empty()
                });
                assert(views(out@) =~= kept_entries(nl.drop_last()));
                assert(chars@.subrange(i + 1, i + 1) =~= Seq::<char>::empty());
            }
            ls = i + 1;
        } else {
            proof {
                let nl = lines_spec(t.take(k + 1));
                assert(nl.drop_last() =~= old_lines.drop_last());
                assert(nl.last() =~= chars@.subrange(ls as int, i + 1));
            }
        }
        i = i + 1;
    }
    let (a, b) = trim_range(&chars, ls, n);
    let ghost old_out = views(out@);
    if a < b && chars[a] != '#' {
        let w = copy_range(&chars, a, b);
        out.push(w);
        proof {
            assert(views(out@) =~= old_out.push(w@));
            lemma_seq_chars_push(old_out, w@);
        }
    }
    proof {
        assert(t.take(n - start) =~= t);
        let ls_all = lines_spec(t);
        lemma_lines_nonempty(t);
        assert(views(out@) =~= kept_entries(ls_all));
    }
    out
}

/// Parse a `.dic` text: one term per line, BOM / `#` / blank tolerant,
/// sorted and deduplicated.
pub fn read_dict(text: &str) -> (r: Vec<Vec<char>>)
    ensures
        seq_chars(views(r@)) <= text@.len(),
        words_sorted(views(r@)),
        forall|i: int| 0 <= i < r@.len() ==> (#[trigger] r@[i])@.len() >= 1,
        forall|x: Seq<char>| views(r@).contains(x) <==> dic_entries(text@).contains(x),
        r@.len() <= text@.len(),
{
    let lines = dic_lines(text);
    let r = sort_dedup_words(&lines);
    proof {
        lemma_sorted_len_le(views(r@), views(lines@));
        lemma_kept_ok(lines_spec(strip_bom(text@)));
        assert forall|i: int| 0 <= i < r@.len() implies (#[trigger] r@[i])@.len() >= 1 by {
            assert(views(r@)[i] == r@[i]@);
            assert(views(r@).contains(r@[i]@));
            let k = choose|k: int| 0 <= k < views(lines@).len() && views(lines@)[k] == r@[i]@;
        }
    }
    r
}

proof fn lemma_kept_ok(ls: Seq<Seq<char>>)
    ensures
        forall|i: int| 0 <= i < kept_entries(ls).len() ==> entry_ok(#[trigger] kept_entries(ls)[i]),
    decreases ls.len(),
{
    if ls.len() > 0 {
        lemma_kept_ok(ls.drop_last());
        let a = kept_entries(ls.drop_last());
        assert forall|i: int| 0 <= i < kept_entries(ls).len() implies entry_ok(#[trigger] kept_entries(ls)[i]) by {
            if i < a.len() {
                assert(kept_entries(ls)[i] == a[i]);
            }
        }
    }
}

/// `q` lies in bucket `b` of a bucket index still being built, whose last
/// bucket ends at `i`.
pub open spec fn in_partial(bs: Seq<u32>, b: int, q: int, i: int) -> bool {
    bs[b] <= q && if b + 1 < bs.len() {
        q < bs[b + 1]
    } else {
        q < i
    }
}

/// Sorted non-empty words sort by their first chars.
proof fn lemma_first_char_mono(a: Seq<char>, b: Seq<char>)
    requires
        seq_lt(a, b),
        a.len() >= 1,
        b.len() >= 1,
    ensures
        a[0] as u32 <= b[0] as u32,
{
    let k = choose|k: int| lt_at(a, b, k);
    if k > 0 {
        assert(a[0] == b[0]);
    }
}

impl DictView {
    /// Build the flat dictionary from sorted, distinct, non-empty terms.
    #[verifier::rlimit(50)]
    pub fn build_flat(words: Vec<Vec<char>>) -> (d: DictView)
        requires
            words_sorted(views(words@)),
            forall|i: int| 0 <= i < words@.len() ==> (#[trigger] words@[i])@.len() >= 1,
            words@.len() <= u32::MAX,
        ensures
            d.wf(),
            d.terms() == views(words@),
    {
        let n = words.len();
        let mut fc: Vec<u32> = Vec::new();
        let mut bs: Vec<u32> = Vec::new();
        let mut i: usize = 0;
        let ghost mut owner: Seq<int> = Seq::empty();
        while i < n
            invariant
                n == words@.len(),
                n <= u32::MAX,
                words_sorted(views(words@)),
                forall|q: int| 0 <= q < words@.len() ==> (#[trigger] words@[q])@.len() >= 1,
                i <= n,
                fc@.len() == bs@.len(),
                fc@.len() <= i,
                i == 0 ==> fc@.len() == 0,
                i > 0 ==> fc@.len() >= 1 && fc@.last() == words@[i - 1]@[0] as u32,
                fc@.len() > 0 ==> bs@[0] == 0,
                forall|b: int, c: int| 0 <= b < c < bs@.len() ==> #[trigger] bs@[b] < #[trigger] bs@[c],
                forall|b: int| 0 <= b < bs@.len() ==> #[trigger] bs@[b] < i,
                forall|b: int, c: int| 0 <= b < c < fc@.len() ==> #[trigger] fc@[b] < #[trigger] fc@[c],
                forall|b: int, q: int| 0 <= b < fc@.len() && #[trigger] in_partial(bs@, b, q, i as int) ==> words@[q]@[0] as u32 == fc@[b],
                owner.len() == i,
                forall|q: int| 0 <= q < i ==> 0 <= #[trigger] owner[q] < fc@.len() && in_partial(bs@, owner[q], q, i as int),
            decreases n - i,
        {
            let c = words[i][0] as u32;
            let ghost ofc = fc@;
            let ghost obs = bs@;
            if fc.len() == 0 || fc[fc.len() - 1] != c {
                proof {
                    if i > 0 {
                        assert(views(words@)[i - 1] == words@[i - 1]@);
                        assert(views(words@)[i as int] == words@[i as int]@);
                        lemma_first_char_mono(words@[i - 1]@, words@[i as int]@);
                    }
                }
                fc.push(c);
                bs.push(i as u32);
                proof {
                    assert forall|b: int, d: int| 0 <= b < d < fc@.len() implies #[trigger] fc@[b] < #[trigger] fc@[d] by {
                        if d == fc@.len() - 1 && b < d {
                            if b < ofc.len() - 1 {
                                assert(ofc[b] < ofc[ofc.len() - 1]);
                            }
                        }
                    }
                    assert forall|b: int, q: int| 0 <= b < fc@.len() && #[trigger] in_partial(bs@, b, q, i + 1) implies words@[q]@[0] as u32 == fc@[b] by {
                        if b < ofc.len() {
                            assert(bs@[b] == obs[b]);
                            if b + 1 < ofc.len() {
                                assert(bs@[b + 1] == obs[b + 1]);
                                assert(in_partial(obs, b, q, i as int));
                            } else {
                                assert(in_partial(obs, b, q, i as int));
                            }
                        } else {
                            assert(bs@[b] == i);
                        }
                    }
                    owner = owner.push(fc@.len() - 1);
                    assert forall|q: int| 0 <= q < i + 1 implies 0 <= #[trigger] owner[q] < fc@.len() && in_partial(bs@, owner[q], q, i + 1) by {
                        if q < i {
                            let b = owner[q];
                            assert(in_partial(obs, b, q, i as int));
                            assert(bs@[b] == obs[b]);
                            if b + 1 == ofc.len() {
                                assert(bs@[b + 1] == i);
                            } else {
                                assert(bs@[b + 1] == obs[b + 1]);
                            }
                        }
                    }
                }
            } else {
                proof {
                    assert forall|b: int, q: int| 0 <= b < fc@.len() && #[trigger] in_partial(bs@, b, q, i + 1) implies words@[q]@[0] as u32 == fc@[b] by {
                        if b + 1 == fc@.len() && q == i {
                        } else {
                            assert(in_partial(obs, b, q, i as int));
                        }
                    }
                    owner = owner.push(fc@.len() - 1);
                    assert forall|q: int| 0 <= q < i + 1 implies 0 <= #[trigger] owner[q] < fc@.len() && in_partial(bs@, owner[q], q, i + 1) by {
                        if q < i {
                            assert(in_partial(obs, owner[q], q, i as int));
                        }
                    }
                }
            }
            i = i + 1;
        }
        let nb = fc.len();
        let ghost ws = words@;
        let ghost ofc = fc@;
        let ghost obs = bs@;
        bs.push(n as u32);
        let d = DictView { words, fc, bucket_start: bs, count: n };
        proof {
            assert forall|b: int, c: int| 0 <= b < c <= nb implies #[trigger] d.bucket_start@[b] < #[trigger] d.bucket_start@[c] by {
                if c < nb {
                    assert(obs[b] < obs[c]);
                } else {
                    assert(obs[b] < n);
                }
            }
            if n == 0 {
                assert(nb == 0);
            } else {
                assert(d.bucket_start@[0] == 0);
            }
            assert forall|b: int, q: int| 0 <= b < nb && #[trigger] d.in_bucket(b, q) implies d.words@[q]@[0] as u32 == d.fc@[b] by {
                assert(d.bucket_start@[b] == obs[b]);
                if b + 1 < nb {
                    assert(d.bucket_start@[b + 1] == obs[b + 1]);
                }
                assert(in_partial(obs, b, q, i as int));
            }
            assert forall|q: int| 0 <= q < n implies 0 <= #[trigger] d.owner_of(q) < nb && d.in_bucket(d.owner_of(q), q) by {
                let b = owner[q];
                assert(in_partial(obs, b, q, i as int));
                if b + 1 < nb {
                    assert(d.bucket_start@[b + 1] == obs[b + 1]);
                }
                assert(d.in_bucket(b, q));
            }
            assert forall|p: int, q: int| 0 <= p < q < n implies seq_lt(#[trigger] d.words@[p]@, #[trigger] d.words@[q]@) by {
                assert(views(d.words@)[p] == d.words@[p]@);
                assert(views(d.words@)[q] == d.words@[q]@);
            }
            assert(d.terms() =~= views(d.words@));
        }
        d
    }
}

/// A duplicate-free sequence whose elements all occur in `b` is no longer
/// than `b`.
proof fn lemma_sorted_len_le(a: Seq<Seq<char>>, b: Seq<Seq<char>>)
    requires
        words_sorted(a),
        forall|x: Seq<char>| a.contains(x) ==> b.contains(x),
    ensures
        a.len() <= b.len(),
{
    let f = |i: int| choose|j: int| 0 <= j < b.len() && b[j] == a[i];
    assert forall|i: int, j: int| 0 <= i < a.len() && 0 <= j < a.len() && #[trigger] f(i) == #[trigger] f(j) implies i == j by {
        assert(a.contains(a[i]));
        assert(a.contains(a[j]));
        if i < j {
            lemma_lt_asym(a[i], a[j]);
        } else if j < i {
            lemma_lt_asym(a[j], a[i]);
        }
    }
    let sa = vstd::set_lib::set_int_range(0, a.len() as int);
    let sb = vstd::set_lib::set_int_range(0, b.len() as int);
    vstd::set_lib::lemma_int_range(0, a.len() as int);
    vstd::set_lib::lemma_int_range(0, b.len() as int);
    let img = sa.map(f);
    assert(vstd::relations::injective_on(f, sa));
    vstd::set_lib::lemma_map_size(sa, img, f);
    assert forall|j: int| img.contains(j) implies sb.contains(j) by {
        let i = choose|i: int| sa.contains(i) && f(i) == j;
        assert(a.contains(a[i]));
    }
    vstd::set_lib::lemma_len_subset(img, sb);
}


// ---------------------------------------------------------------------------
// Main-dict trie (char-level prefix trie in CSR layout)
// ---------------------------------------------------------------------------

/// Edge lists: for each node the (char code, child node) pairs of its
/// outgoing edges.
pub open spec fn keys_sorted(l: Seq<(u32, u32)>) -> bool {
    forall|i: int, j: int| 0 <= i < j < l.len() ==> (#[trigger] l[i]).0 < (#[trigger] l[j]).0
}

pub open spec fn has_key(l: Seq<(u32, u32)>, c: char) -> bool {
    exists|j: int| 0 <= j < l.len() && (#[trigger] l[j]).0 == c as u32
}

/// The child reached from an edge list by char `c`.
pub open spec fn lchild(l: Seq<(u32, u32)>, c: char) -> Option<int> {
    if has_key(l, c) {
        Some(l[choose|j: int| 0 <= j < l.len() && (#[trigger] l[j]).0 == c as u32].1 as int)
    } else {
        None
    }
}

/// The node reached from the root by walking the chars of `s`.
pub open spec fn bwalk(ch: Seq<Seq<(u32, u32)>>, s: Seq<char>) -> Option<int>
    decreases s.len(),
{
    if s.len() == 0 {
        Some(0)
    } else {
        match bwalk(ch, s.drop_last()) {
            Some(m) => if 0 <= m < ch.len() {
                lchild(ch[m], s.last())
            } else {
                None
            },
            None => None,
        }
    }
}

proof fn lemma_lchild_at(l: Seq<(u32, u32)>, c: char, j: int)
    requires
        keys_sorted(l),
        0 <= j < l.len(),
        l[j].0 == c as u32,
    ensures
        lchild(l, c) == Some(l[j].1 as int),
{
    let k = choose|k: int| 0 <= k < l.len() && (#[trigger] l[k]).0 == c as u32;
    if k < j {
        assert(l[k].0 < l[j].0);
    } else if j < k {
        assert(l[j].0 < l[k].0);
    }
}

proof fn lemma_lchild_some(l: Seq<(u32, u32)>, c: char)
    requires
        lchild(l, c) is Some,
    ensures
        exists|j: int| 0 <= j < l.len() && (#[trigger] l[j]).0 == c as u32 && l[j].1 as int == lchild(l, c)->0,
{
    let k = choose|k: int| 0 <= k < l.len() && (#[trigger] l[k]).0 == c as u32;
    assert(l[k].1 as int == lchild(l, c)->0);
}

/// The builder's tree: `paths[m]` is the string spelled from the root to
/// node `m`, and `term[m]` marks the nodes whose path is a word.
pub open spec fn tree_inv(ch: Seq<Seq<(u32, u32)>>, term: Seq<bool>, paths: Seq<Seq<char>>) -> bool {
    &&& ch.len() == term.len()
    &&& ch.len() == paths.len()
    &&& ch.len() >= 1
    &&& paths[0] == Seq::<char>::empty()
    &&& forall|i: int| 0 <= i < ch.len() ==> keys_sorted(#[trigger] ch[i])
    &&& forall|i: int, j: int| 0 <= i < ch.len() && 0 <= j < ch[i].len() ==> {
        let t = (#[trigger] ch[i][j]).1 as int;
        &&& 1 <= t < ch.len()
        &&& paths[t] == paths[i].push(paths[t].last())
        &&& paths[t].len() >= 1
        &&& paths[t].last() as u32 == ch[i][j].0
    }
    &&& forall|m: int| 0 <= m < ch.len() ==> bwalk(ch, #[trigger] paths[m]) == Some(m)
    &&& forall|s: Seq<char>| #[trigger] bwalk(ch, s) is Some ==> 0 <= bwalk(ch, s)->0 < ch.len() && paths[bwalk(ch, s)->0] == s
}

/// Adding a fresh leaf under `node` by char `c` keeps every existing walk.
proof fn lemma_walk_grow(
    ch: Seq<Seq<(u32, u32)>>,
    ch2: Seq<Seq<(u32, u32)>>,
    node: int,
    c: char,
    s: Seq<char>,
)
    requires
        0 <= node < ch.len(),
        ch.len() < u32::MAX,
        !has_key(ch[node], c),
        keys_sorted(ch2[node]),
        ch2.len() == ch.len() + 1,
        ch2[ch.len() as int] == Seq::<(u32, u32)>::empty(),
        forall|i: int| 0 <= i < ch.len() && i != node ==> ch2[i] == ch[i],
        forall|x: (u32, u32)| ch2[node].contains(x) <==> (ch[node].contains(x) || x == (c as u32, ch.len() as u32)),
        forall|i: int| 0 <= i < ch.len() ==> keys_sorted(#[trigger] ch[i]),
        forall|i: int, j: int| 0 <= i < ch.len() && 0 <= j < ch[i].len() ==> (#[trigger] ch[i][j]).1 < ch.len(),
        forall|t: Seq<char>| #[trigger] bwalk(ch, t) is Some ==> 0 <= bwalk(ch, t)->0 < ch.len(),
    ensures
        bwalk(ch, s) is Some ==> bwalk(ch2, s) == bwalk(ch, s),
        bwalk(ch2, s) is Some && bwalk(ch2, s)->0 != ch.len() ==> bwalk(ch, s) == bwalk(ch2, s),
        bwalk(ch2, s) == Some(ch.len() as int) ==> s.len() >= 1 && s.last() == c && bwalk(ch, s.drop_last()) == Some(node),
    decreases s.len(),
{
    if s.len() > 0 {
        let p = s.drop_last();
        let x = s.last();
        lemma_walk_grow(ch, ch2, node, c, p);
        let n = ch.len() as int;
        if bwalk(ch, s) is Some {
            let m = bwalk(ch, p)->0;
            assert(bwalk(ch, p) is Some);
            assert(0 <= m < n);
            lemma_lchild_some(ch[m], x);
            let j = choose|j: int| 0 <= j < ch[m].len() && (#[trigger] ch[m][j]).0 == x as u32 && ch[m][j].1 as int == lchild(ch[m], x)->0;
            if m == node {
                assert(ch[node].contains(ch[node][j]));
                assert(ch2[node].contains(ch[node][j]));
                let j2 = choose|j2: int| 0 <= j2 < ch2[node].len() && ch2[node][j2] == ch[node][j];
                lemma_lchild_at(ch2[node], x, j2);
            } else {
                assert(ch2[m] == ch[m]);
            }
        }
        if bwalk(ch2, s) is Some {
            let m = bwalk(ch2, p)->0;
            assert(bwalk(ch2, p) is Some);
            let r = bwalk(ch2, s)->0;
            assert(0 <= m < ch2.len());
            lemma_lchild_some(ch2[m], x);
            let j = choose|j: int| 0 <= j < ch2[m].len() && (#[trigger] ch2[m][j]).0 == x as u32 && ch2[m][j].1 as int == lchild(ch2[m], x)->0;
            if m == n {
                assert(ch2[n].len() == 0);
            }
            assert(m != n);
            assert(bwalk(ch, p) == Some(m));
            if m == node {
                assert(ch2[node].contains(ch2[node][j]));
                if ch2[node][j] == (c as u32, ch.len() as u32) {
                    assert(r == n);
                    vstd::utf8::char_u32_cast(x, x as u32);
                    vstd::utf8::char_u32_cast(c, c as u32);
                    assert(x == c);
                } else {
                    assert(ch[node].contains(ch2[node][j]));
                    let j1 = choose|j1: int| 0 <= j1 < ch[node].len() && ch[node][j1] == ch2[node][j];
                    lemma_lchild_at(ch[node], x, j1);
                    assert(ch[node][j1].1 < ch.len());
                }
            } else {
                assert(ch2[m] == ch[m]);
                assert(ch[m][j].1 < ch.len());
            }
        }
    }
}


pub open spec fn pair_views(v: Seq<Vec<(u32, u32)>>) -> Seq<Seq<(u32, u32)>> {
    v.map_values(|l: Vec<(u32, u32)>| l@)
}

/// Total number of edges.
pub open spec fn edge_total(ch: Seq<Seq<(u32, u32)>>) -> int
    decreases ch.len(),
{
    if ch.len() == 0 {
        0
    } else {
        edge_total(ch.drop_last()) + ch.last().len()
    }
}

proof fn lemma_edge_total_update(ch: Seq<Seq<(u32, u32)>>, i: int, l: Seq<(u32, u32)>)
    requires
        0 <= i < ch.len(),
    ensures
        edge_total(ch.update(i, l)) == edge_total(ch) - ch[i].len() + l.len(),
    decreases ch.len(),
{
    if i < ch.len() - 1 {
        lemma_edge_total_update(ch.drop_last(), i, l);
        assert(ch.update(i, l).drop_last() =~= ch.drop_last().update(i, l));
    } else {
        assert(ch.update(i, l).drop_last() =~= ch.drop_last());
    }
}

/// Total number of chars of the first `k` words.
pub open spec fn chars_total(ws: Seq<Seq<char>>, k: int) -> int
    decreases k,
{
    if k <= 0 {
        0
    } else {
        chars_total(ws, k - 1) + ws[k - 1].len()
    }
}

/// Position of `key` in a key-sorted edge list, or where to insert it.
fn find_key(l: &Vec<(u32, u32)>, key: u32) -> (r: (bool, usize))
    requires
        keys_sorted(l@),
    ensures
        r.1 <= l@.len(),
        r.0 ==> r.1 < l@.len() && l@[r.1 as int].0 == key,
        !r.0 ==> (forall|j: int| 0 <= j < r.1 ==> (#[trigger] l@[j]).0 < key) && (forall|j: int| r.1 <= j < l@.len() ==> (#[trigger] l@[j]).0 > key),
{
    let mut lo: usize = 0;
    let mut hi: usize = l.len();
    while lo < hi
        invariant
            keys_sorted(l@),
            lo <= hi <= l@.len(),
            forall|j: int| 0 <= j < lo ==> (#[trigger] l@[j]).0 < key,
            forall|j: int| hi <= j < l@.len() ==> (#[trigger] l@[j]).0 > key,
        decreases hi - lo,
    {
        let mid = lo + (hi - lo) / 2;
        let k = l[mid].0;
        if k < key {
            proof {
                assert forall|j: int| 0 <= j < mid + 1 implies (#[trigger] l@[j]).0 < key by {
                    if j < mid {
                        assert(l@[j].0 < l@[mid as int].0);
                    }
                }
            }
            lo = mid + 1;
        } else if k > key {
            proof {
                assert forall|j: int| mid <= j < l@.len() implies (#[trigger] l@[j]).0 > key by {
                    if j > mid {
                        assert(l@[mid as int].0 < l@[j].0);
                    }
                }
            }
            hi = mid;
        } else {
            return (true, mid);
        }
    }
    (false, lo)
}

fn copy_pairs(v: &Vec<(u32, u32)>) -> (r: Vec<(u32, u32)>)
    ensures
        r@ == v@,
{
    let mut r: Vec<(u32, u32)> = Vec::new();
    let mut i: usize = 0;
    while i < v.len()
        invariant
            i <= v@.len(),
            r@ == v@.take(i as int),
        decreases v@.len() - i,
    {
        r.push(v[i]);
        i = i + 1;
        proof {
            assert(r@ =~= v@.take(i as int));
        }
    }
    proof {
        assert(v@.take(i as int) =~= v@);
    }
    r
}

pub open spec fn builder_ok(ch: Seq<Seq<(u32, u32)>>, term: Seq<bool>, paths: Seq<Seq<char>>, wset: Seq<Seq<char>>) -> bool {
    &&& tree_inv(ch, term, paths)
    &&& forall|m: int| 0 <= m < term.len() ==> #[trigger] term[m] == wset.contains(paths[m])
    &&& forall|k: int| 0 <= k < wset.len() ==> bwalk(ch, #[trigger] wset[k]) is Some
    &&& edge_total(ch) == ch.len() - 1
}

proof fn lemma_insert_pair(old_list: Seq<(u32, u32)>, lnew: Seq<(u32, u32)>, pos: int, c: char, n: u32)
    requires
        keys_sorted(old_list),
        0 <= pos <= old_list.len(),
        forall|j: int| 0 <= j < pos ==> (#[trigger] old_list[j]).0 < c as u32,
        forall|j: int| pos <= j < old_list.len() ==> (#[trigger] old_list[j]).0 > c as u32,
        lnew == old_list.insert(pos, (c as u32, n)),
    ensures
        keys_sorted(lnew),
        forall|x: (u32, u32)| lnew.contains(x) <==> (old_list.contains(x) || x == (c as u32, n)),
        !has_key(old_list, c),
{
    assert forall|a: int, b: int| 0 <= a < b < lnew.len() implies (#[trigger] lnew[a]).0 < (#[trigger] lnew[b]).0 by {
        if b < pos {
            assert(lnew[a] == old_list[a] && lnew[b] == old_list[b]);
        } else if b == pos {
            assert(lnew[a] == old_list[a]);
        } else if a < pos {
            assert(lnew[a] == old_list[a] && lnew[b] == old_list[b - 1]);
        } else if a == pos {
            assert(lnew[b] == old_list[b - 1]);
        } else {
            assert(lnew[a] == old_list[a - 1] && lnew[b] == old_list[b - 1]);
        }
    }
    assert forall|x: (u32, u32)| lnew.contains(x) <==> (old_list.contains(x) || x == (c as u32, n)) by {
        if lnew.contains(x) {
            let k = choose|k: int| 0 <= k < lnew.len() && lnew[k] == x;
            if k < pos {
                assert(old_list[k] == x);
            } else if k > pos {
                assert(old_list[k - 1] == x);
            }
        }
        if old_list.contains(x) {
            let k = choose|k: int| 0 <= k < old_list.len() && old_list[k] == x;
            if k < pos {
                assert(lnew[k] == x);
            } else {
                assert(lnew[k + 1] == x);
            }
        }
        if x == (c as u32, n) {
            assert(lnew[pos] == x);
        }
    }
    if has_key(old_list, c) {
        let j = choose|j: int| 0 <= j < old_list.len() && (#[trigger] old_list[j]).0 == c as u32;
    }
}

proof fn lemma_step_new(
    ch: Seq<Seq<(u32, u32)>>,
    ch2: Seq<Seq<(u32, u32)>>,
    term: Seq<bool>,
    term2: Seq<bool>,
    paths: Seq<Seq<char>>,
    paths2: Seq<Seq<char>>,
    wset: Seq<Seq<char>>,
    node: int,
    c: char,
    lnew: Seq<(u32, u32)>,
)
    requires
        builder_ok(ch, term, paths, wset),
        0 <= node < ch.len(),
        ch.len() < 0x7FFF_FFF0,
        !has_key(ch[node], c),
        keys_sorted(lnew),
        forall|x: (u32, u32)| lnew.contains(x) <==> (ch[node].contains(x) || x == (c as u32, ch.len() as u32)),
        ch2 == ch.update(node, lnew).push(Seq::<(u32, u32)>::empty()),
        term2 == term.push(false),
        paths2 == paths.push(paths[node].push(c)),
        lnew.len() == ch[node].len() + 1,
    ensures
        builder_ok(ch2, term2, paths2, wset),
{
    let n = ch.len() as int;
    lemma_edge_total_update(ch, node, lnew);
    assert(ch2.drop_last() =~= ch.update(node, lnew));
    assert(edge_total(ch2) == edge_total(ch) + 1);
    lemma_tree_grow(ch, ch2, term, term2, paths, paths2, node, c, lnew);
    assert(term2[n] == wset.contains(paths2[n])) by {
        if wset.contains(paths2[n]) {
            let k = choose|k: int| 0 <= k < wset.len() && #[trigger] wset[k] == paths2[n];
            assert(bwalk(ch, wset[k]) is Some);
            lemma_walk_step(ch, paths[node], c);
            assert(bwalk(ch, paths[node]) == Some(node));
        }
    }
    assert forall|m: int| 0 <= m < term2.len() implies #[trigger] term2[m] == wset.contains(paths2[m]) by {
        if m < n {
            assert(paths2[m] == paths[m]);
        }
    }
    assert forall|k: int| 0 <= k < wset.len() implies bwalk(ch2, #[trigger] wset[k]) is Some by {
        assert forall|i: int| 0 <= i < ch.len() implies keys_sorted(#[trigger] ch[i]) by {
        }
        assert forall|ii: int, jj: int| 0 <= ii < ch.len() && 0 <= jj < ch[ii].len() implies (#[trigger] ch[ii][jj]).1 < ch.len() by {
        }
        assert(ch2[n] == Seq::<(u32, u32)>::empty());
        assert forall|i: int| 0 <= i < ch.len() && i != node implies ch2[i] == ch[i] by {
        }
        lemma_walk_grow(ch, ch2, node, c, wset[k]);
    }
}

/// From `node` follow (creating it if needed) the edge labelled `c`.
#[verifier::spinoff_prover]
fn trie_step(
    children: &mut Vec<Vec<(u32, u32)>>,
    term: &mut Vec<bool>,
    Ghost(paths): Ghost<Seq<Seq<char>>>,
    Ghost(wset): Ghost<Seq<Seq<char>>>,
    node: usize,
    c: char,
) -> (r: (usize, Ghost<Seq<Seq<char>>>))
    requires
        builder_ok(pair_views(old(children)@), old(term)@, paths, wset),
        old(children)@.len() < 0x7FFF_FFF0,
        node < old(children)@.len(),
    ensures
        builder_ok(pair_views(final(children)@), final(term)@, r.1@, wset),
        final(children)@.len() <= old(children)@.len() + 1,
        r.0 < final(children)@.len(),
        r.1@[r.0 as int] == paths[node as int].push(c),
{
    let ghost ch = pair_views(children@);
    let key = c as u32;
    assert(ch[node as int] == children@[node as int]@);
    assert(keys_sorted(ch[node as int]));
    let (found, pos) = find_key(&children[node], key);
    if found {
        let next = children[node][pos].1;
        proof {
            let t = ch[node as int][pos as int];
            assert(t == children@[node as int]@[pos as int]);
            assert(paths[t.1 as int] == paths[node as int].push(paths[t.1 as int].last()));
            vstd::utf8::char_u32_cast(paths[t.1 as int].last(), key);
            vstd::utf8::char_u32_cast(c, key);
        }
        (next as usize, Ghost(paths))
    } else {
        let new_id = children.len() as u32;
        let mut l = copy_pairs(&children[node]);
        l.insert(pos, (key, new_id));
        proof {
            lemma_insert_pair(ch[node as int], l@, pos as int, c, new_id);
        }
        let ghost lnew = l@;
        children.set(node, l);
        children.push(Vec::new());
        term.push(false);
        let ghost paths2 = paths.push(paths[node as int].push(c));
        proof {
            let ch2 = pair_views(children@);
            assert(ch2 =~= ch.update(node as int, lnew).push(Seq::<(u32, u32)>::empty()));
            lemma_step_new(ch, ch2, old(term)@, term@, paths, paths2, wset, node as int, c, lnew);
        }
        (new_id as usize, Ghost(paths2))
    }
}

/// Insert one word into the tree under construction.
fn trie_insert(
    children: &mut Vec<Vec<(u32, u32)>>,
    term: &mut Vec<bool>,
    Ghost(paths): Ghost<Seq<Seq<char>>>,
    Ghost(wset): Ghost<Seq<Seq<char>>>,
    w: &Vec<char>,
) -> (r: Ghost<Seq<Seq<char>>>)
    requires
        builder_ok(pair_views(old(children)@), old(term)@, paths, wset),
        old(children)@.len() + w@.len() < 0x7FFF_FFF0,
    ensures
        builder_ok(pair_views(final(children)@), final(term)@, r@, wset.push(w@)),
        final(children)@.len() <= old(children)@.len() + w@.len(),
{
    let ghost wv = w@;
    let ghost len0 = children@.len();
    let ghost mut ps = paths;
    let mut node: usize = 0;
    let mut i: usize = 0;
    while i < w.len()
        invariant
            wv == w@,
            i <= wv.len(),
            builder_ok(pair_views(children@), term@, ps, wset),
            children@.len() <= len0 + i,
            len0 + wv.len() < 0x7FFF_FFF0,
            node < children@.len(),
            ps[node as int] == wv.take(i as int),
        decreases wv.len() - i,
    {
        let (next, Ghost(ps2)) = trie_step(children, term, Ghost(ps), Ghost(wset), node, w[i]);
        proof {
            ps = ps2;
            assert(wv.take(i + 1) =~= wv.take(i as int).push(wv[i as int]));
        }
        node = next;
        i = i + 1;
    }
    term.set(node, true);
    proof {
        assert(wv.take(i as int) =~= wv);
        let ch = pair_views(children@);
        let ws2 = wset.push(wv);
        assert forall|m: int| 0 <= m < term@.len() implies #[trigger] term@[m] == ws2.contains(ps[m]) by {
            if m != node {
                if ps[m] == wv {
                    assert(bwalk(ch, ps[m]) == Some(m));
                    assert(bwalk(ch, ps[node as int]) == Some(node as int));
                }
                if ws2.contains(ps[m]) && !wset.contains(ps[m]) {
                    let k = choose|k: int| 0 <= k < ws2.len() && #[trigger] ws2[k] == ps[m];
                    assert(k == wset.len());
                }
                if wset.contains(ps[m]) {
                    let k = choose|k: int| 0 <= k < wset.len() && #[trigger] wset[k] == ps[m];
                    assert(ws2[k] == ps[m]);
                }
            } else {
                assert(ws2[wset.len() as int] == wv);
            }
        }
        assert forall|k: int| 0 <= k < ws2.len() implies bwalk(ch, #[trigger] ws2[k]) is Some by {
            if k == wset.len() {
                assert(bwalk(ch, ps[node as int]) == Some(node as int));
            } else {
                assert(ws2[k] == wset[k]);
            }
        }
    }
    Ghost(ps)
}

/// Build the edge lists of the prefix tree of `words`: node 0 is the root,
/// nodes are numbered in creation order.
fn build_children(words: &Vec<Vec<char>>) -> (r: (Vec<Vec<(u32, u32)>>, Vec<bool>, Ghost<Seq<Seq<char>>>))
    requires
        chars_total(views(words@), words@.len() as int) < 0x7FFF_FFE0,
    ensures
        builder_ok(pair_views(r.0@), r.1@, r.2@, views(words@)),
        r.0@.len() <= 1 + chars_total(views(words@), words@.len() as int),
{
    let ghost ws = views(words@);
    let mut children: Vec<Vec<(u32, u32)>> = Vec::new();
    children.push(Vec::new());
    let mut term: Vec<bool> = Vec::new();
    term.push(false);
    let ghost mut paths: Seq<Seq<char>> = seq![Seq::<char>::empty()];
    proof {
        assert(pair_views(children@) =~= seq![Seq::<(u32, u32)>::empty()]);
        let ch = pair_views(children@);
        assert(ch.drop_last() =~= Seq::<Seq<(u32, u32)>>::empty());
        assert(ch.last() == Seq::<(u32, u32)>::empty());
        assert(edge_total(ch.drop_last()) == 0);
        assert(edge_total(ch) == 0);
        assert forall|s: Seq<char>| #[trigger] bwalk(ch, s) is Some implies 0 <= bwalk(ch, s)->0 < ch.len() && paths[bwalk(ch, s)->0] == s by {
            lemma_walk_root_only(ch, s);
        }
        assert(bwalk(ch, paths[0]) == Some(0int));
        assert(ws.take(0) =~= Seq::<Seq<char>>::empty());
    }
    let mut q: usize = 0;
    while q < words.len()
        invariant
            ws == views(words@),
            ws.len() == words@.len(),
            q <= words@.len(),
            chars_total(ws, words@.len() as int) < 0x7FFF_FFE0,
            builder_ok(pair_views(children@), term@, paths, ws.take(q as int)),
            children@.len() <= 1 + chars_total(ws, q as int),
        decreases words@.len() - q,
    {
        proof {
            lemma_chars_total_mono(ws, q + 1, words@.len() as int);
            assert(ws[q as int] == words@[q as int]@);
            assert(chars_total(ws, q + 1) == chars_total(ws, q as int) + ws[q as int].len());
        }
        let Ghost(p2) = trie_insert(&mut children, &mut term, Ghost(paths), Ghost(ws.take(q as int)), &words[q]);
        proof {
            paths = p2;
            assert(ws.take(q + 1) =~= ws.take(q as int).push(words@[q as int]@));
        }
        q = q + 1;
    }
    proof {
        assert(ws.take(q as int) =~= ws);
    }
    (children, term, Ghost(paths))
}

proof fn lemma_chars_total_mono(ws: Seq<Seq<char>>, a: int, b: int)
    requires
        0 <= a <= b <= ws.len(),
    ensures
        chars_total(ws, a) <= chars_total(ws, b),
    decreases b - a,
{
    if a < b {
        lemma_chars_total_mono(ws, a, b - 1);
    }
}

proof fn lemma_walk_root_only(ch: Seq<Seq<(u32, u32)>>, s: Seq<char>)
    requires
        ch == seq![Seq::<(u32, u32)>::empty()],
    ensures
        bwalk(ch, s) is Some ==> s.len() == 0 && bwalk(ch, s) == Some(0int),
    decreases s.len(),
{
    if s.len() > 0 {
        lemma_walk_root_only(ch, s.drop_last());
        if bwalk(ch, s.drop_last()) is Some {
            assert(!has_key(ch[0], s.last()));
        }
    }
}

proof fn lemma_walk_step(ch: Seq<Seq<(u32, u32)>>, s: Seq<char>, c: char)
    ensures
        bwalk(ch, s.push(c)) == (match bwalk(ch, s) {
            Some(m) => if 0 <= m < ch.len() {
                lchild(ch[m], c)
            } else {
                None
            },
            None => None,
        }),
{
    assert(s.push(c).drop_last() =~= s);
}

/// Growing the tree by one leaf keeps the tree invariant.
#[verifier::spinoff_prover]
#[verifier::rlimit(60)]
proof fn lemma_tree_grow(
    ch: Seq<Seq<(u32, u32)>>,
    ch2: Seq<Seq<(u32, u32)>>,
    term: Seq<bool>,
    term2: Seq<bool>,
    paths: Seq<Seq<char>>,
    paths2: Seq<Seq<char>>,
    node: int,
    c: char,
    lnew: Seq<(u32, u32)>,
)
    requires
        tree_inv(ch, term, paths),
        0 <= node < ch.len(),
        ch.len() < 0x7FFF_FFF0,
        !has_key(ch[node], c),
        keys_sorted(lnew),
        forall|x: (u32, u32)| lnew.contains(x) <==> (ch[node].contains(x) || x == (c as u32, ch.len() as u32)),
        ch2 == ch.update(node, lnew).push(Seq::<(u32, u32)>::empty()),
        term2 == term.push(false),
        paths2 == paths.push(paths[node].push(c)),
    ensures
        tree_inv(ch2, term2, paths2),
{
    let n = ch.len() as int;
    assert forall|i: int| 0 <= i < ch.len() implies keys_sorted(#[trigger] ch[i]) by {
    }
    assert forall|ii: int, jj: int| 0 <= ii < ch.len() && 0 <= jj < ch[ii].len() implies (#[trigger] ch[ii][jj]).1 < ch.len() by {
    }
    assert forall|t: Seq<char>| #[trigger] bwalk(ch, t) is Some implies 0 <= bwalk(ch, t)->0 < ch.len() by {
    }
    assert(ch2[n] == Seq::<(u32, u32)>::empty());
    assert(ch2[node] == lnew);
    assert forall|i: int| 0 <= i < ch.len() && i != node implies ch2[i] == ch[i] by {
    }
    assert forall|i: int| 0 <= i < ch2.len() implies keys_sorted(#[trigger] ch2[i]) by {
        if i < n && i != node {
            assert(ch2[i] == ch[i]);
        }
    }
    assert forall|i: int, j: int| 0 <= i < ch2.len() && 0 <= j < ch2[i].len() implies {
        let t = (#[trigger] ch2[i][j]).1 as int;
        &&& 1 <= t < ch2.len()
        &&& paths2[t] == paths2[i].push(paths2[t].last())
        &&& paths2[t].len() >= 1
        &&& paths2[t].last() as u32 == ch2[i][j].0
    } by {
        if i == node {
            assert(lnew.contains(lnew[j]));
            if lnew[j] == (c as u32, n as u32) {
                assert(paths2[n] == paths[node].push(c));
                assert(paths2[n].last() == c);
                assert(paths2[node] == paths[node]);
            } else {
                assert(ch[node].contains(lnew[j]));
                let k = choose|k: int| 0 <= k < ch[node].len() && ch[node][k] == lnew[j];
                assert(ch[node][k].1 < n);
                let t = ch[node][k].1 as int;
                assert(paths2[t] == paths[t]);
            }
        } else if i < n {
            assert(ch2[i] == ch[i]);
            let t = ch[i][j].1 as int;
            assert(paths2[t] == paths[t]);
            assert(paths2[i] == paths[i]);
        }
    }
    assert forall|m: int| 0 <= m < ch2.len() implies bwalk(ch2, #[trigger] paths2[m]) == Some(m) by {
        if m < n {
            assert(paths2[m] == paths[m]);
            assert(bwalk(ch, paths[m]) == Some(m));
            lemma_walk_grow(ch, ch2, node, c, paths[m]);
        } else {
            assert(paths2[m] == paths[node].push(c));
            lemma_walk_step(ch2, paths[node], c);
            lemma_walk_grow(ch, ch2, node, c, paths[node]);
            assert(bwalk(ch2, paths[node]) == Some(node));
            assert(lnew.contains((c as u32, n as u32)));
            let j = choose|j: int| 0 <= j < lnew.len() && lnew[j] == (c as u32, n as u32);
            lemma_lchild_at(lnew, c, j);
        }
    }
    assert forall|s: Seq<char>| #[trigger] bwalk(ch2, s) is Some implies 0 <= bwalk(ch2, s)->0 < ch2.len() && paths2[bwalk(ch2, s)->0] == s by {
        lemma_walk_grow(ch, ch2, node, c, s);
        let r = bwalk(ch2, s)->0;
        if r != n {
            assert(bwalk(ch, s) == bwalk(ch2, s));
            assert(paths2[r] == paths[r]);
        } else {
            assert(bwalk(ch, s.drop_last()) == Some(node));
            assert(paths[node] == s.drop_last());
            assert(s =~= s.drop_last().push(c));
        }
    }
}


proof fn lemma_builder_accepts(ch: Seq<Seq<(u32, u32)>>, term: Seq<bool>, paths: Seq<Seq<char>>, wset: Seq<Seq<char>>, s: Seq<char>)
    requires
        builder_ok(ch, term, paths, wset),
    ensures
        (bwalk(ch, s) is Some && term[bwalk(ch, s)->0]) <==> wset.contains(s),
{
    if bwalk(ch, s) is Some {
        let m = bwalk(ch, s)->0;
        assert(paths[m] == s);
    }
    if wset.contains(s) {
        let k = choose|k: int| 0 <= k < wset.len() && wset[k] == s;
        assert(bwalk(ch, wset[k]) is Some);
        let m = bwalk(ch, s)->0;
        assert(paths[m] == s);
    }
}

proof fn lemma_builder_facts(ch: Seq<Seq<(u32, u32)>>, term: Seq<bool>, paths: Seq<Seq<char>>, ws: Seq<Seq<char>>)
    requires
        builder_ok(ch, term, paths, ws),
    ensures
        ch.len() >= 1,
        ch.len() == term.len(),
        forall|i: int| 0 <= i < ch.len() ==> keys_sorted(#[trigger] ch[i]),
        forall|s: Seq<char>| #[trigger] bwalk(ch, s) is Some ==> 0 <= bwalk(ch, s)->0 < ch.len(),
        forall|s: Seq<char>| (#[trigger] bwalk(ch, s) is Some && term[bwalk(ch, s)->0]) <==> ws.contains(s),
{
    assert forall|s: Seq<char>| (#[trigger] bwalk(ch, s) is Some && term[bwalk(ch, s)->0]) <==> ws.contains(s) by {
        lemma_builder_accepts(ch, term, paths, ws, s);
    }
}

proof fn lemma_edge_total_take(ch: Seq<Seq<(u32, u32)>>, i: int, j: int)
    requires
        0 <= i <= j <= ch.len(),
    ensures
        edge_total(ch.take(i)) <= edge_total(ch.take(j)),
        edge_total(ch.take(j)) <= edge_total(ch),
    decreases j - i,
{
    lemma_edge_total_to_end(ch, j);
    if i < j {
        lemma_edge_total_take(ch, i, j - 1);
        assert(ch.take(j).drop_last() =~= ch.take(j - 1));
    }
}

proof fn lemma_edge_total_to_end(ch: Seq<Seq<(u32, u32)>>, j: int)
    requires
        0 <= j <= ch.len(),
    ensures
        edge_total(ch.take(j)) <= edge_total(ch),
    decreases ch.len() - j,
{
    if j < ch.len() {
        lemma_edge_total_to_end(ch, j + 1);
        assert(ch.take(j + 1).drop_last() =~= ch.take(j));
    } else {
        assert(ch.take(j) =~= ch);
    }
}

pub open spec fn first_of(x: u32) -> int {
    (x & 0x7FFF_FFFF) as int
}

pub open spec fn terminal_of(x: u32) -> bool {
    x & 0x8000_0000 != 0
}

proof fn lemma_pack(cursor: u32, t: bool)
    requires
        cursor < 0x8000_0000,
    ensures
        first_of(if t { cursor | 0x8000_0000 } else { cursor }) == cursor,
        terminal_of(if t { cursor | 0x8000_0000 } else { cursor }) == t,
{
    assert((cursor | 0x8000_0000) & 0x7FFF_FFFF == cursor) by (bit_vector)
        requires
            cursor < 0x8000_0000,
    ;
    assert((cursor | 0x8000_0000) & 0x8000_0000 != 0) by (bit_vector);
    assert(cursor & 0x7FFF_FFFF == cursor) by (bit_vector)
        requires
            cursor < 0x8000_0000,
    ;
    assert(cursor & 0x8000_0000 == 0) by (bit_vector)
        requires
            cursor < 0x8000_0000,
    ;
}

/// Compact char-level prefix trie for the main dictionary in CSR layout.
/// `nodes[i]` holds the index of node `i`'s first edge, with bit 31 set when
/// node `i` ends a word; a sentinel entry holds the edge count. Edges are
/// stored as parallel arrays of char codes (ascending within a node) and
/// destination nodes. `root_index[c - root_min]` is the root's child for
/// char code `c`, or `u32::MAX`.
#[derive(Debug)]
pub struct MainTrie {
    nodes: Vec<u32>,
    edge_char: Vec<u32>,
    edge_next: Vec<u32>,
    root_index: Vec<u32>,
    root_min: u32,
    root_max: u32,
}

impl MainTrie {
    pub closed spec fn node_count(&self) -> int {
        self.nodes@.len() - 1
    }

    pub closed spec fn first(&self, i: int) -> int {
        first_of(self.nodes@[i])
    }

    pub closed spec fn is_terminal(&self, i: int) -> bool {
        terminal_of(self.nodes@[i])
    }

    /// The outgoing edges of node `i`.
    pub closed spec fn edges(&self, i: int) -> Seq<(u32, u32)> {
        Seq::new((self.first(i + 1) - self.first(i)) as nat, |e: int| (self.edge_char@[self.first(i) + e], self.edge_next@[self.first(i) + e]))
    }

    pub closed spec fn lists(&self) -> Seq<Seq<(u32, u32)>> {
        Seq::new(self.node_count() as nat, |i: int| self.edges(i))
    }

    /// `s` spells a path from the root to a word-ending node.
    pub closed spec fn accepts(&self, s: Seq<char>) -> bool {
        &&& bwalk(self.lists(), s) is Some
        &&& self.is_terminal(bwalk(self.lists(), s)->0)
    }

    /// The node reached from the root by the chars of `s`, if any.
    pub closed spec fn walk(&self, s: Seq<char>) -> Option<int> {
        bwalk(self.lists(), s)
    }

    /// The root lookup table: the smallest and the largest char code of the
    /// root's edges, and the table itself.
    pub closed spec fn root_lookup(&self) -> (u32, u32, Seq<u32>) {
        (self.root_min, self.root_max, self.root_index@)
    }

    /// Some string walks from the root to node `i`.
    pub open spec fn reachable(&self, i: int) -> bool {
        exists|s: Seq<char>| #[trigger] self.walk(s) == Some(i)
    }

    /// The number of edges.
    pub closed spec fn edge_count(&self) -> int {
        self.edge_char@.len() as int
    }

    /// The layout of a well-formed trie: at least the root; the edges of
    /// node `i` are `first(i)..first(i + 1)`, with `first` starting at 0,
    /// never decreasing and ending at the edge count; the edges of a node
    /// ascend strictly by char code and lead to nodes of the trie; the root
    /// lookup table agrees with the root's edges; and `s` is accepted when
    /// its walk ends at a word-ending node.
    pub proof fn lemma_layout(&self)
        requires
            self.wf(),
        ensures
            self.node_count() >= 1,
            self.first(0) == 0,
            forall|i: int| 0 <= i < self.node_count() ==> #[trigger] self.first(i) <= self.first(i + 1),
            self.first(self.node_count()) == self.edge_count(),
            forall|i: int| 0 <= i < self.node_count() ==> keys_sorted(#[trigger] self.edges(i)),
            forall|i: int, j: int| 0 <= i < self.node_count() && 0 <= j < self.edges(i).len() ==> (#[trigger] self.edges(i)[j]).1 < self.node_count(),
            forall|c: char| #[trigger] self.root_child_spec(c) == lchild(self.edges(0), c),
            forall|s: Seq<char>| #[trigger] self.accepts(s) <==> (self.walk(s) is Some && self.is_terminal(self.walk(s)->0)),
    {
        assert forall|i: int| 0 <= i < self.node_count() implies #[trigger] self.first(i) <= self.first(i + 1) by {
            assert(keys_sorted(self.edges(i)));
        }
        assert forall|i: int, j: int| 0 <= i < self.node_count() && 0 <= j < self.edges(i).len() implies (#[trigger] self.edges(i)[j]).1 < self.node_count() by {
            assert(keys_sorted(self.edges(i)));
            let e = self.first(i) + j;
            assert(self.first(i + 1) <= self.first(self.node_count())) by {
                self.lemma_first_mono(i + 1, self.node_count());
            }
            assert(self.edge_next@[e] < self.node_count());
        }
    }

    pub closed spec fn root_child_spec(&self, c: char) -> Option<int> {
        table_lookup(self.root_min, self.root_max, self.root_index@, c)
    }

    pub closed spec fn wf(&self) -> bool {
        let nn = self.node_count();
        &&& nn >= 1
        &&& nn < 0x7FFF_FFF0
        &&& self.edge_char@.len() == self.first(nn)
        &&& self.edge_next@.len() == self.first(nn)
        &&& self.first(0) == 0
        &&& forall|i: int| 0 <= i < nn ==> self.first(i) <= self.first(i + 1) && keys_sorted(#[trigger] self.edges(i))
        &&& forall|e: int| 0 <= e < self.edge_next@.len() ==> #[trigger] self.edge_next@[e] < nn
        &&& forall|c: char| #[trigger] self.root_child_spec(c) == lchild(self.edges(0), c)
        &&& forall|s: Seq<char>| #[trigger] bwalk(self.lists(), s) is Some ==> 0 <= bwalk(self.lists(), s)->0 < nn
    }
}


/// The lengths `k` in `1..=m`, ascending, for which the trie accepts
/// `t[..k]`.
pub open spec fn trie_hits_upto(tr: MainTrie, t: Seq<char>, m: int) -> Seq<usize>
    decreases m,
{
    if m <= 0 {
        Seq::empty()
    } else {
        trie_hits_upto(tr, t, m - 1) + if tr.accepts(t.take(m)) {
            seq![m as usize]
        } else {
            Seq::empty()
        }
    }
}

proof fn lemma_walk_none_ext(ch: Seq<Seq<(u32, u32)>>, t: Seq<char>, k: int, m: int)
    requires
        0 <= k <= m <= t.len(),
        bwalk(ch, t.take(k)) is None,
    ensures
        bwalk(ch, t.take(m)) is None,
    decreases m - k,
{
    if k < m {
        lemma_walk_none_ext(ch, t, k, m - 1);
        assert(t.take(m).drop_last() =~= t.take(m - 1));
    }
}

proof fn lemma_trie_hits_stop(tr: MainTrie, t: Seq<char>, k: int, m: int)
    requires
        1 <= k <= m <= t.len(),
        bwalk(tr.lists(), t.take(k)) is None,
    ensures
        trie_hits_upto(tr, t, m) == trie_hits_upto(tr, t, k - 1),
    decreases m,
{
    if m >= k {
        lemma_walk_none_ext(tr.lists(), t, k, m);
        if m > k {
            lemma_trie_hits_stop(tr, t, k, m - 1);
        }
    }
}

/// Lay the edge lists out in CSR form: node entries (first edge, bit 31 for
/// word ends, plus a sentinel holding the edge count) and parallel edge
/// arrays.
#[verifier::spinoff_prover]
fn flatten(children: &Vec<Vec<(u32, u32)>>, term: &Vec<bool>) -> (r: (Vec<u32>, Vec<u32>, Vec<u32>))
    requires
        children@.len() == term@.len(),
        edge_total(pair_views(children@)) < 0x7FFF_FFF0,
        forall|i: int, j: int| 0 <= i < children@.len() && 0 <= j < children@[i]@.len() ==> (#[trigger] children@[i]@[j]).1 < children@.len(),
    ensures
        r.0@.len() == children@.len() + 1,
        r.1@.len() == edge_total(pair_views(children@)),
        r.2@.len() == edge_total(pair_views(children@)),
        forall|i: int| 0 <= i <= children@.len() ==> first_of(#[trigger] r.0@[i]) == edge_total(pair_views(children@).take(i)),
        forall|i: int| 0 <= i < children@.len() ==> terminal_of(#[trigger] r.0@[i]) == term@[i],
        forall|i: int, j: int| 0 <= i < children@.len() && 0 <= j < children@[i]@.len() ==> r.1@[edge_total(pair_views(children@).take(i)) + j] == (#[trigger] children@[i]@[j]).0 && r.2@[edge_total(pair_views(children@).take(i)) + j] == children@[i]@[j].1,
        forall|e: int| 0 <= e < r.2@.len() ==> #[trigger] r.2@[e] < children@.len(),
{
    let ghost ch = pair_views(children@);
    let n_nodes = children.len();
    let mut nodes: Vec<u32> = Vec::new();
    let mut edge_char: Vec<u32> = Vec::new();
    let mut edge_next: Vec<u32> = Vec::new();
    let mut cursor: u32 = 0;
    let mut i: usize = 0;
    proof {
        assert(ch.take(0) =~= Seq::<Seq<(u32, u32)>>::empty());
    }
    while i < n_nodes
        invariant
            ch == pair_views(children@),
            n_nodes == ch.len(),
            n_nodes == term@.len(),
            edge_total(ch) < 0x7FFF_FFF0,
            forall|i2: int, j: int| 0 <= i2 < children@.len() && 0 <= j < children@[i2]@.len() ==> (#[trigger] children@[i2]@[j]).1 < children@.len(),
            i <= n_nodes,
            nodes@.len() == i,
            cursor == edge_total(ch.take(i as int)),
            edge_char@.len() == cursor,
            edge_next@.len() == cursor,
            forall|i2: int| 0 <= i2 < i ==> first_of(#[trigger] nodes@[i2]) == edge_total(ch.take(i2)) && terminal_of(nodes@[i2]) == term@[i2],
            forall|i2: int, j: int| 0 <= i2 < i && 0 <= j < children@[i2]@.len() ==> edge_char@[edge_total(ch.take(i2)) + j] == (#[trigger] children@[i2]@[j]).0 && edge_next@[edge_total(ch.take(i2)) + j] == children@[i2]@[j].1,
            forall|e: int| 0 <= e < edge_next@.len() ==> #[trigger] edge_next@[e] < n_nodes,
        decreases n_nodes - i,
    {
        proof {
            lemma_edge_total_take(ch, i as int, i + 1);
            lemma_edge_total_take(ch, i + 1, n_nodes as int);
            assert(ch.take(i + 1).drop_last() =~= ch.take(i as int));
            assert(ch[i as int] == children@[i as int]@);
            assert(edge_total(ch.take(i + 1)) == cursor + children@[i as int]@.len());
            lemma_pack(cursor, term@[i as int]);
        }
        let entry = if term[i] {
            cursor | 0x8000_0000
        } else {
            cursor
        };
        nodes.push(entry);
        let ghost base = cursor as int;
        let ghost li = children@[i as int]@;
        let ghost old_ec = edge_char@;
        let ghost old_en = edge_next@;
        let mut j: usize = 0;
        proof {
            assert(edge_char@.subrange(0, base) =~= old_ec);
            assert(edge_next@.subrange(0, base) =~= old_en);
        }
        while j < children[i].len()
            invariant
                li == children@[i as int]@,
                i < n_nodes,
                n_nodes == children@.len(),
                forall|i2: int, j2: int| 0 <= i2 < children@.len() && 0 <= j2 < children@[i2]@.len() ==> (#[trigger] children@[i2]@[j2]).1 < children@.len(),
                j <= li.len(),
                0 <= base,
                cursor == base + j,
                base + li.len() < 0x8000_0000,
                edge_char@.len() == cursor,
                edge_next@.len() == cursor,
                edge_char@.subrange(0, base) == old_ec,
                edge_next@.subrange(0, base) == old_en,
                forall|j2: int| 0 <= j2 < j ==> edge_char@[base + j2] == (#[trigger] li[j2]).0 && edge_next@[base + j2] == li[j2].1,
                forall|e: int| 0 <= e < edge_next@.len() ==> #[trigger] edge_next@[e] < n_nodes,
            decreases li.len() - j,
        {
            let (c, nx) = children[i][j];
            proof {
                assert(li[j as int] == (c, nx));
            }
            let ghost prev_ec = edge_char@;
            let ghost prev_en = edge_next@;
            edge_char.push(c);
            edge_next.push(nx);
            cursor = cursor + 1;
            j = j + 1;
            proof {
                assert(edge_char@ == prev_ec.push(c));
                assert(edge_next@ == prev_en.push(nx));
                assert(prev_ec.len() >= base);
                assert(prev_en.len() >= base);
                assert forall|k: int| 0 <= k < base implies edge_char@.subrange(0, base)[k] == prev_ec.subrange(0, base)[k] by {
                    assert(edge_char@[k] == prev_ec[k]);
                }
                assert forall|k: int| 0 <= k < base implies edge_next@.subrange(0, base)[k] == prev_en.subrange(0, base)[k] by {
                    assert(edge_next@[k] == prev_en[k]);
                }
                assert(edge_char@.subrange(0, base) =~= prev_ec.subrange(0, base));
                assert(edge_next@.subrange(0, base) =~= prev_en.subrange(0, base));
            }
        }
        proof {
            assert(j == li.len());
            assert(base == edge_total(ch.take(i as int)));
            assert forall|i2: int, j2: int| 0 <= i2 < i + 1 && 0 <= j2 < children@[i2]@.len() implies edge_char@[edge_total(ch.take(i2)) + j2] == (#[trigger] children@[i2]@[j2]).0 && edge_next@[edge_total(ch.take(i2)) + j2] == children@[i2]@[j2].1 by {
                let x = edge_total(ch.take(i2)) + j2;
                lemma_edge_total_take(ch, 0, i2);
                assert(ch.take(0) =~= Seq::<Seq<(u32, u32)>>::empty());
                assert(x >= 0);
                if i2 < i {
                    lemma_edge_total_take(ch, i2 + 1, i as int);
                    assert(ch.take(i2 + 1).drop_last() =~= ch.take(i2));
                    assert(ch[i2] == children@[i2]@);
                    assert(x < base);
                    assert(old_ec[x] == children@[i2]@[j2].0);
                    assert(old_ec[x] == edge_char@.subrange(0, base)[x]);
                    assert(old_en[x] == edge_next@.subrange(0, base)[x]);
                    assert(edge_char@[x] == children@[i2]@[j2].0);
                } else {
                    assert(li[j2] == children@[i2]@[j2]);
                    assert(x == base + j2);
                    assert(edge_char@[base + j2] == li[j2].0);
                }
            }
            assert forall|i2: int| 0 <= i2 < i + 1 implies first_of(#[trigger] nodes@[i2]) == edge_total(ch.take(i2)) && terminal_of(nodes@[i2]) == term@[i2] by {
            }
        }
        i = i + 1;
    }
    proof {
        assert(ch.take(n_nodes as int) =~= ch);
        lemma_pack(cursor, false);
    }
    nodes.push(cursor);
    (nodes, edge_char, edge_next)
}

pub open spec fn table_lookup(lo: u32, hi: u32, table: Seq<u32>, c: char) -> Option<int> {
    let cp = c as u32;
    if lo <= cp <= hi && ((cp - lo) as int) < table.len() && table[(cp - lo) as int] != u32::MAX {
        Some(table[(cp - lo) as int] as int)
    } else {
        None
    }
}

/// Some edge of `l` leads to node `v`.
pub open spec fn is_target(l: Seq<(u32, u32)>, v: u32) -> bool {
    exists|jj: int| 0 <= jj < l.len() && (#[trigger] l[jj]).1 == v
}

/// The root's direct-lookup table: the smallest and largest root edge char
/// and, for every code in between, the child or `u32::MAX`.
fn root_table(l: &Vec<(u32, u32)>) -> (r: (u32, u32, Vec<u32>))
    requires
        keys_sorted(l@),
        forall|j: int| 0 <= j < l@.len() ==> (#[trigger] l@[j]).0 <= 0x10FFFF && l@[j].1 < 0x7FFF_FFF0,
    ensures
        forall|c: char| #[trigger] table_lookup(r.0, r.1, r.2@, c) == lchild(l@, c),
        l@.len() == 0 ==> r.2@.len() == 0,
        l@.len() > 0 ==> r.0 == l@[0].0 && r.1 == l@[l@.len() - 1].0 && r.2@.len() == r.1 - r.0 + 1,
        forall|x: int| 0 <= x < r.2@.len() ==> #[trigger] r.2@[x] == u32::MAX || is_target(l@, r.2@[x]),
{
    let root_len = l.len();
    if root_len == 0 {
        let t: Vec<u32> = Vec::new();
        proof {
            assert forall|c: char| #[trigger] table_lookup(0, 0, t@, c) == lchild(l@, c) by {
                assert(!has_key(l@, c));
            }
        }
        return (0, 0, t);
    }
    let root_min = l[0].0;
    let root_max = l[root_len - 1].0;
    proof {
        if root_len > 1 {
            assert(l@[0].0 < l@[root_len - 1].0);
        }
    }
    let span = (root_max - root_min + 1) as usize;
    let mut table: Vec<u32> = vec![u32::MAX; span];
    let mut k: usize = 0;
    while k < root_len
        invariant
            keys_sorted(l@),
            root_len == l@.len(),
            root_len > 0,
            root_min == l@[0].0,
            root_max == l@[root_len - 1].0,
            table@.len() == span,
            span == root_max - root_min + 1,
            k <= root_len,
            forall|jj: int| 0 <= jj < root_len ==> (#[trigger] l@[jj]).1 < 0x7FFF_FFF0,
            forall|jj: int| 0 <= jj < k ==> table@[(#[trigger] l@[jj]).0 - root_min] == l@[jj].1,
            forall|x: int| 0 <= x < span && (forall|jj: int| 0 <= jj < k ==> (#[trigger] l@[jj]).0 != root_min + x) ==> table@[x] == u32::MAX,
            forall|x: int| 0 <= x < span ==> #[trigger] table@[x] == u32::MAX || is_target(l@, table@[x]),
        decreases root_len - k,
    {
        let (c, nx) = l[k];
        proof {
            if k > 0 {
                assert(l@[0].0 < l@[k as int].0);
            }
            if k < root_len - 1 {
                assert(l@[k as int].0 < l@[root_len - 1].0);
            }
        }
        let ghost old_t = table@;
        table.set((c - root_min) as usize, nx);
        proof {
            assert forall|x: int| 0 <= x < span implies #[trigger] table@[x] == u32::MAX || is_target(l@, table@[x]) by {
                if x == c - root_min {
                    assert(l@[k as int].1 == table@[x]);
                } else {
                    assert(table@[x] == old_t[x]);
                }
            }
            assert forall|jj: int| 0 <= jj < k + 1 implies table@[(#[trigger] l@[jj]).0 - root_min] == l@[jj].1 by {
                if jj < k {
                    assert(l@[jj].0 < l@[k as int].0);
                }
            }
            assert forall|x: int| 0 <= x < span && (forall|jj: int| 0 <= jj < k + 1 ==> (#[trigger] l@[jj]).0 != root_min + x) implies table@[x] == u32::MAX by {
                assert(l@[k as int].0 != root_min + x);
                assert forall|jj: int| 0 <= jj < k implies (#[trigger] l@[jj]).0 != root_min + x by {
                }
                assert(old_t[x] == u32::MAX);
            }
        }
        k = k + 1;
    }
    proof {
        assert forall|c: char| #[trigger] table_lookup(root_min, root_max, table@, c) == lchild(l@, c) by {
            let cp = c as u32;
            if has_key(l@, c) {
                let jj = choose|jj: int| 0 <= jj < l@.len() && (#[trigger] l@[jj]).0 == c as u32;
                lemma_lchild_at(l@, c, jj);
                if jj > 0 {
                    assert(l@[0].0 < l@[jj].0);
                }
                if jj < root_len - 1 {
                    assert(l@[jj].0 < l@[root_len - 1].0);
                }
            } else if root_min <= cp <= root_max {
                let x = (cp - root_min) as int;
                assert forall|jj: int| 0 <= jj < root_len implies (#[trigger] l@[jj]).0 != root_min + x by {
                    if l@[jj].0 == root_min + x {
                        assert(has_key(l@, c));
                    }
                }
            }
        }
    }
    (root_min, root_max, table)
}

impl MainTrie {
    /// Build the trie of `words` (which must be non-empty strings).
    #[verifier::spinoff_prover]
    #[verifier::rlimit(60)]
    pub fn build(words: &Vec<Vec<char>>) -> (tr: MainTrie)
        requires
            chars_total(views(words@), words@.len() as int) < 0x7FFF_FFE0,
        ensures
            tr.wf(),
            forall|s: Seq<char>| #[trigger] tr.accepts(s) <==> views(words@).contains(s),
            forall|i: int| 0 <= i < tr.node_count() ==> #[trigger] tr.reachable(i),
            forall|i: int| 0 <= i < tr.node_count() ==> (#[trigger] tr.is_terminal(i) <==> exists|w: Seq<char>|
                views(words@).contains(w) && #[trigger] tr.walk(w) == Some(i)),
            forall|i: int, j: int| 0 <= i < tr.node_count() && 0 <= j < tr.edges(i).len() ==> 1 <= (#[trigger] tr.edges(i)[j]).1,
            (exists|w: Seq<char>| #[trigger] views(words@).contains(w) && w.len() > 0) ==> tr.edges(0).len() > 0,
            tr.edges(0).len() == 0 ==> tr.root_lookup().2.len() == 0,
            tr.edges(0).len() > 0 ==> tr.root_lookup().0 == tr.edges(0)[0].0 && tr.root_lookup().1 == tr.edges(0).last().0
                && tr.root_lookup().2.len() == tr.root_lookup().1 - tr.root_lookup().0 + 1,
            forall|x: int| 0 <= x < tr.root_lookup().2.len() ==> #[trigger] tr.root_lookup().2[x] == u32::MAX || 1 <= tr.root_lookup().2[x]
                < tr.node_count(),
    {
        let (children, term, Ghost(paths)) = build_children(words);
        let ghost ch = pair_views(children@);
        let ghost ws = views(words@);
        proof {
            assert forall|i: int, j: int| 0 <= i < children@.len() && 0 <= j < children@[i]@.len() implies (#[trigger] children@[i]@[j]).1 < children@.len() by {
                assert(ch[i] == children@[i]@);
                assert(ch[i][j] == children@[i]@[j]);
            }
        }
        let (nodes, edge_char, edge_next) = flatten(&children, &term);
        proof {
            assert(ch[0] == children@[0]@);
            assert forall|j: int| 0 <= j < children@[0]@.len() implies (#[trigger] children@[0]@[j]).0 <= 0x10FFFF && children@[0]@[j].1 < 0x7FFF_FFF0 by {
                assert(ch[0][j] == children@[0]@[j]);
                let t = ch[0][j].1 as int;
                vstd::utf8::char_is_scalar(paths[t].last());
            }
        }
        let (root_min, root_max, root_index) = root_table(&children[0]);
        let tr = MainTrie { nodes, edge_char, edge_next, root_index, root_min, root_max };
        proof {
            assert(ch[0] == children@[0]@);
            assert forall|i: int| 0 <= i < ch.len() implies #[trigger] ch[i] == children@[i]@ by {
            }
            tr.lemma_edges_eq(ch);
            lemma_builder_facts(ch, term@, paths, ws);
            tr.lemma_from_children(ch, term@, paths, ws);
            assert(tr.node_count() == ch.len());
            assert forall|i: int| 0 <= i < tr.node_count() implies #[trigger] tr.reachable(i) by {
                assert(bwalk(ch, paths[i]) == Some(i));
                assert(tr.walk(paths[i]) == Some(i));
            }
            assert forall|i: int| 0 <= i < tr.node_count() implies (#[trigger] tr.is_terminal(i) <==> exists|w: Seq<char>|
                ws.contains(w) && #[trigger] tr.walk(w) == Some(i)) by {
                assert(tr.walk(paths[i]) == Some(i));
                assert(term@[i] == ws.contains(paths[i]));
                if exists|w: Seq<char>| ws.contains(w) && #[trigger] tr.walk(w) == Some(i) {
                    let w = choose|w: Seq<char>| ws.contains(w) && #[trigger] tr.walk(w) == Some(i);
                    assert(bwalk(ch, w) is Some);
                    assert(paths[i] == w);
                }
            }
            assert forall|i: int, j: int| 0 <= i < tr.node_count() && 0 <= j < tr.edges(i).len() implies 1 <= (#[trigger] tr.edges(i)[j]).1 by {
                assert(tr.edges(i) == ch[i]);
            }
            tr.lemma_layout();
            assert(tr.edges(0) == ch[0]);
            if exists|w: Seq<char>| #[trigger] ws.contains(w) && w.len() > 0 {
                let w = choose|w: Seq<char>| #[trigger] ws.contains(w) && w.len() > 0;
                assert(tr.accepts(w));
                assert(w.take(w.len() as int) =~= w);
                if bwalk(tr.lists(), w.take(1)) is None {
                    lemma_walk_none_ext(tr.lists(), w, 1, w.len() as int);
                }
                assert(w.take(1).drop_last() =~= Seq::<char>::empty());
                assert(tr.lists()[0] == tr.edges(0));
                assert(has_key(tr.edges(0), w.take(1).last()));
            }
            assert forall|x: int| 0 <= x < tr.root_lookup().2.len() implies #[trigger] tr.root_lookup().2[x] == u32::MAX || 1 <= tr.root_lookup().2[x]
                < tr.node_count() by {
                if tr.root_lookup().2[x] != u32::MAX {
                    assert(is_target(children@[0]@, root_index@[x]));
                    let jj = choose|jj: int| 0 <= jj < ch[0].len() && (#[trigger] ch[0][jj]).1 == root_index@[x];
                    assert(tr.edges(0)[jj].1 == root_index@[x]);
                }
            }
        }
        tr
    }

    /// The CSR layout holds exactly the builder's edge lists.
    #[verifier::spinoff_prover]
    proof fn lemma_edges_eq(&self, ch: Seq<Seq<(u32, u32)>>)
        requires
            self.nodes@.len() == ch.len() + 1,
            forall|i: int| 0 <= i <= ch.len() ==> first_of(#[trigger] self.nodes@[i]) == edge_total(ch.take(i)),
            forall|i: int, j: int| 0 <= i < ch.len() && 0 <= j < ch[i].len() ==> self.edge_char@[edge_total(ch.take(i)) + j] == (#[trigger] ch[i][j]).0 && self.edge_next@[edge_total(ch.take(i)) + j] == ch[i][j].1,
        ensures
            forall|i: int| 0 <= i < ch.len() ==> #[trigger] self.edges(i) == ch[i],
            self.lists() == ch,
    {
        let nn = ch.len() as int;
        assert forall|i2: int| 0 <= i2 < nn implies #[trigger] self.edges(i2) == ch[i2] by {
            assert(self.first(i2) == edge_total(ch.take(i2)));
            assert(self.first(i2 + 1) == edge_total(ch.take(i2 + 1)));
            assert(ch.take(i2 + 1).drop_last() =~= ch.take(i2));
            assert(self.edges(i2) =~= ch[i2]);
        }
        assert(self.lists() =~= ch);
    }

    /// A trie laid out from the builder's edge lists has the builder's
    /// language.
    #[verifier::spinoff_prover]
    proof fn lemma_from_children(
        &self,
        ch: Seq<Seq<(u32, u32)>>,
        term: Seq<bool>,
        paths: Seq<Seq<char>>,
        ws: Seq<Seq<char>>,
    )
        requires
            ch.len() >= 1,
            ch.len() == term.len(),
            forall|i: int| 0 <= i < ch.len() ==> keys_sorted(#[trigger] ch[i]),
            forall|s: Seq<char>| #[trigger] bwalk(ch, s) is Some ==> 0 <= bwalk(ch, s)->0 < ch.len(),
            forall|s: Seq<char>| (#[trigger] bwalk(ch, s) is Some && term[bwalk(ch, s)->0]) <==> ws.contains(s),
            ch.len() < 0x7FFF_FFF0,
            self.nodes@.len() == ch.len() + 1,
            self.edge_char@.len() == edge_total(ch),
            self.edge_next@.len() == edge_total(ch),
            forall|i: int| 0 <= i <= ch.len() ==> first_of(#[trigger] self.nodes@[i]) == edge_total(ch.take(i)),
            forall|i: int| 0 <= i < ch.len() ==> terminal_of(#[trigger] self.nodes@[i]) == term[i],
            forall|i: int| 0 <= i < ch.len() ==> #[trigger] self.edges(i) == ch[i],
            self.lists() == ch,
            forall|e: int| 0 <= e < self.edge_next@.len() ==> #[trigger] self.edge_next@[e] < ch.len(),
            forall|c: char| #[trigger] table_lookup(self.root_min, self.root_max, self.root_index@, c) == lchild(ch[0], c),
        ensures
            self.wf(),
            forall|s: Seq<char>| #[trigger] self.accepts(s) <==> ws.contains(s),
    {
        let nn = ch.len() as int;
        assert(self.node_count() == nn);
        assert(ch.take(nn) =~= ch);
        assert(first_of(self.nodes@[nn]) == edge_total(ch.take(nn)));
        assert(self.first(nn) == edge_total(ch));
        assert(ch.take(0) =~= Seq::<Seq<(u32, u32)>>::empty());
        assert(ch.take(nn) =~= ch);
        assert forall|i2: int| 0 <= i2 < nn implies self.first(i2) <= self.first(i2 + 1) && keys_sorted(#[trigger] self.edges(i2)) by {
            assert(self.edges(i2) == ch[i2]);
            assert(first_of(self.nodes@[i2]) == edge_total(ch.take(i2)));
            assert(first_of(self.nodes@[i2 + 1]) == edge_total(ch.take(i2 + 1)));
            assert(ch.take(i2 + 1).drop_last() =~= ch.take(i2));
        }
        assert forall|c: char| #[trigger] self.root_child_spec(c) == lchild(self.edges(0), c) by {
            assert(self.edges(0) == ch[0]);
        }
        self.lemma_accepts_from(ch, term, ws);
    }

    proof fn lemma_accepts_from(&self, ch: Seq<Seq<(u32, u32)>>, term: Seq<bool>, ws: Seq<Seq<char>>)
        requires
            ch.len() == term.len(),
            self.nodes@.len() == ch.len() + 1,
            forall|s: Seq<char>| #[trigger] bwalk(ch, s) is Some ==> 0 <= bwalk(ch, s)->0 < ch.len(),
            forall|s: Seq<char>| (#[trigger] bwalk(ch, s) is Some && term[bwalk(ch, s)->0]) <==> ws.contains(s),
            forall|i: int| 0 <= i < ch.len() ==> terminal_of(#[trigger] self.nodes@[i]) == term[i],
            self.lists() == ch,
        ensures
            forall|s: Seq<char>| #[trigger] self.accepts(s) <==> ws.contains(s),
    {
        assert forall|s: Seq<char>| #[trigger] self.accepts(s) <==> ws.contains(s) by {
            assert(bwalk(ch, s) is Some && term[bwalk(ch, s)->0] <==> ws.contains(s));
            if bwalk(ch, s) is Some {
                assert(self.is_terminal(bwalk(ch, s)->0) == term[bwalk(ch, s)->0]);
            }
        }
    }

    /// The root's child for `c` via the direct-lookup table.
    fn root_child(&self, c: char) -> (r: Option<u32>)
        requires
            self.wf(),
        ensures
            r matches Some(n) ==> self.root_child_spec(c) == Some(n as int),
            r is None ==> self.root_child_spec(c) is None,
    {
        let cp = c as u32;
        if cp < self.root_min || cp > self.root_max {
            return None;
        }
        let idx = (cp - self.root_min) as usize;
        if idx >= self.root_index.len() {
            return None;
        }
        let v = self.root_index[idx];
        if v == u32::MAX {
            None
        } else {
            Some(v)
        }
    }

    /// `(terminal, first_edge, last_edge)` for `node`.
    fn node_info(&self, node: u32) -> (r: (bool, u32, u32))
        requires
            self.wf(),
            node < self.node_count(),
        ensures
            r.0 == self.is_terminal(node as int),
            r.1 == self.first(node as int),
            r.2 == self.first(node + 1),
    {
        let cur = self.nodes[node as usize];
        let nxt = self.nodes[node as usize + 1];
        let terminal = (cur & 0x8000_0000) != 0;
        (terminal, cur & 0x7FFF_FFFF, nxt & 0x7FFF_FFFF)
    }

    /// The child of `node` by char `c`, by binary search over its edges.
    fn child(&self, node: u32, c: char) -> (r: Option<u32>)
        requires
            self.wf(),
            node < self.node_count(),
        ensures
            r matches Some(n) ==> lchild(self.edges(node as int), c) == Some(n as int),
            r is None ==> lchild(self.edges(node as int), c) is None,
    {
        let (_, first, last) = self.node_info(node);
        let ghost l = self.edges(node as int);
        proof {
            self.lemma_first_bounds(node as int);
        }
        let key = c as u32;
        let mut lo = first;
        let mut hi = last;
        while lo < hi
            invariant
                self.wf(),
                node < self.node_count(),
                l == self.edges(node as int),
                keys_sorted(l),
                first == self.first(node as int),
                last == self.first(node + 1),
                first <= lo <= hi <= last,
                last <= self.edge_char@.len(),
                key == c as u32,
                forall|e: int| first <= e < lo ==> (#[trigger] self.edge_char@[e]) < key,
                forall|e: int| hi <= e < last ==> (#[trigger] self.edge_char@[e]) > key,
            decreases hi - lo,
        {
            let mid = lo + (hi - lo) / 2;
            let ec = self.edge_char[mid as usize];
            if ec < key {
                proof {
                    assert forall|e: int| first <= e < mid + 1 implies (#[trigger] self.edge_char@[e]) < key by {
                        if e < mid {
                            assert(l[e - first].0 < l[mid - first].0);
                        }
                    }
                }
                lo = mid + 1;
            } else if ec > key {
                proof {
                    assert forall|e: int| mid <= e < last implies (#[trigger] self.edge_char@[e]) > key by {
                        if e > mid {
                            assert(l[mid - first].0 < l[e - first].0);
                        }
                    }
                }
                hi = mid;
            } else {
                let nx = self.edge_next[mid as usize];
                proof {
                    assert(l[mid - first].0 == key);
                    lemma_lchild_at(l, c, mid - first);
                }
                return Some(nx);
            }
        }
        proof {
            if has_key(l, c) {
                let j = choose|j: int| 0 <= j < l.len() && (#[trigger] l[j]).0 == c as u32;
                assert(self.edge_char@[first + j] == key);
            }
        }
        None
    }

    proof fn lemma_first_bounds(&self, i: int)
        requires
            self.wf(),
            0 <= i < self.node_count(),
        ensures
            self.first(i) <= self.first(i + 1) <= self.edge_char@.len(),
            keys_sorted(self.edges(i)),
            self.lists()[i] == self.edges(i),
            forall|e: int| 0 <= e < self.edges(i).len() ==> #[trigger] self.edges(i)[e] == (self.edge_char@[self.first(i) + e], self.edge_next@[self.first(i) + e]),
    {
        assert(keys_sorted(self.edges(i)));
        self.lemma_first_mono(i + 1, self.node_count());
    }

    proof fn lemma_first_mono(&self, i: int, j: int)
        requires
            self.wf(),
            0 <= i <= j <= self.node_count(),
        ensures
            self.first(i) <= self.first(j),
        decreases j - i,
    {
        if i < j {
            self.lemma_first_mono(i, j - 1);
            assert(keys_sorted(self.edges(j - 1)));
            assert(self.first(j - 1) <= self.first(j));
        }
    }

    /// For every dictionary term that is a prefix of `chars[start..]`, its
    /// char count, in increasing order.
    pub fn find_prefixes_chars(&self, chars: &Vec<char>, start: usize) -> (r: Vec<usize>)
        requires
            self.wf(),
            start <= chars@.len() < usize::MAX,
        ensures
            r@ == trie_hits_upto(*self, chars@.subrange(start as int, chars@.len() as int), chars@.len() - start),
    {
        let ghost t = chars@.subrange(start as int, chars@.len() as int);
        let ghost lists = self.lists();
        let mut out: Vec<usize> = Vec::new();
        let n = chars.len();
        if start >= n {
            return out;
        }
        proof {
            assert(t.take(1).drop_last() =~= Seq::<char>::empty());
            assert(t.take(1).last() == chars@[start as int]);
            assert(bwalk(lists, Seq::<char>::empty()) == Some(0int));
            assert(lists[0] == self.edges(0));
            assert(trie_hits_upto(*self, t, 0) =~= Seq::<usize>::empty());
        }
        let mut node: u32 = match self.root_child(chars[start]) {
            Some(nd) => nd,
            None => {
                proof {
                    lemma_trie_hits_stop(*self, t, 1, t.len() as int);
                }
                return out;
            },
        };
        let mut count: usize = 1;
        if (self.nodes[node as usize] & 0x8000_0000) != 0 {
            out.push(count);
        }
        proof {
            assert(out@ =~= trie_hits_upto(*self, t, 1));
        }
        while count < n - start
            invariant
                self.wf(),
                lists == self.lists(),
                t == chars@.subrange(start as int, chars@.len() as int),
                n == chars@.len(),
                start < n,
                1 <= count <= t.len(),
                bwalk(lists, t.take(count as int)) == Some(node as int),
                node < self.node_count(),
                out@ == trie_hits_upto(*self, t, count as int),
            decreases t.len() - count,
        {
            proof {
                self.lemma_first_bounds(node as int);
                assert(t.take(count + 1).drop_last() =~= t.take(count as int));
                assert(t.take(count + 1).last() == chars@[start + count]);
            }
            let (_, first, last) = self.node_info(node);
            if first == last {
                proof {
                    assert(self.edges(node as int).len() == 0);
                    assert(!has_key(self.edges(node as int), chars@[start + count]));
                    lemma_trie_hits_stop(*self, t, count + 1, t.len() as int);
                }
                return out;
            }
            match self.child(node, chars[start + count]) {
                None => {
                    proof {
                        lemma_trie_hits_stop(*self, t, count + 1, t.len() as int);
                    }
                    return out;
                },
                Some(nx) => {
                    node = nx;
                },
            }
            count = count + 1;
            if (self.nodes[node as usize] & 0x8000_0000) != 0 {
                out.push(count);
            }
            proof {
                assert(out@ =~= trie_hits_upto(*self, t, count as int));
            }
        }
        out
    }

    /// For every dictionary term that is a prefix of `text`, its length in
    /// bytes and in chars, in increasing order.
    pub fn find_prefixes(&self, text: &str) -> (r: Vec<(usize, usize)>)
        requires
            self.wf(),
            text@.len() < usize::MAX,
            text.spec_bytes().len() <= usize::MAX,
        ensures
            r@.len() == trie_hits_upto(*self, text@, text@.len() as int).len(),
            forall|i: int| 0 <= i < r@.len() ==> #[trigger] r@[i] == (
                crate::segmenter::utf8_len(text@.take(trie_hits_upto(*self, text@, text@.len() as int)[i] as int)) as usize,
                trie_hits_upto(*self, text@, text@.len() as int)[i],
            ),
    {
        let ghost t = text@;
        let chars = crate::char_util::str_to_chars(text);
        let n = chars.len();
        let hits = self.find_prefixes_chars(&chars, 0);
        proof {
            assert(chars@.subrange(0, n as int) =~= t);
            lemma_trie_hits_bounds(*self, t, n as int);
            assert(t.take(n as int) =~= t);
        }
        let mut offs: Vec<usize> = Vec::new();
        offs.push(0);
        let mut off: usize = 0;
        let mut i: usize = 0;
        proof {
            assert(t.take(0) =~= Seq::<char>::empty());
            assert(crate::segmenter::utf8_len(Seq::<char>::empty()) == 0) by {
                assert(vstd::utf8::encode_utf8(Seq::<char>::empty()) =~= Seq::<u8>::empty());
            }
        }
        while i < n
            invariant
                n == chars@.len() == t.len(),
                chars@ == t,
                t.take(n as int) == t,
                crate::segmenter::utf8_len(t) <= usize::MAX,
                i <= n,
                offs@.len() == i + 1,
                off == crate::segmenter::utf8_len(t.take(i as int)),
                forall|j: int| 0 <= j <= i ==> #[trigger] offs@[j] == crate::segmenter::utf8_len(t.take(j)),
            decreases n - i,
        {
            proof {
                assert(t.take(i + 1) =~= t.take(i as int).push(t[i as int]));
                crate::segmenter::lemma_utf8_len_push(t.take(i as int), t[i as int]);
                crate::segmenter::lemma_utf8_len_take_mono(t, i + 1, n as int);
            }
            let w = crate::segmenter::len_utf8(chars[i]);
            off = off + w;
            offs.push(off);
            i = i + 1;
        }
        let mut out: Vec<(usize, usize)> = Vec::new();
        let mut k: usize = 0;
        while k < hits.len()
            invariant
                k <= hits@.len(),
                offs@.len() == n + 1,
                hits@ == trie_hits_upto(*self, t, n as int),
                forall|j: int| 0 <= j < hits@.len() ==> 1 <= #[trigger] hits@[j] <= n,
                forall|j: int| 0 <= j <= n ==> #[trigger] offs@[j] == crate::segmenter::utf8_len(t.take(j)),
                out@.len() == k,
                forall|j: int| 0 <= j < k ==> #[trigger] out@[j] == (crate::segmenter::utf8_len(t.take(hits@[j] as int)) as usize, hits@[j]),
            decreases hits@.len() - k,
        {
            let h = hits[k];
            out.push((offs[h], h));
            k = k + 1;
        }
        out
    }

    /// Membership test against the trie.
    pub fn contains(&self, word: &Vec<char>) -> (r: bool)
        requires
            self.wf(),
        ensures
            r == (word@.len() > 0 && self.accepts(word@)),
    {
        if word.len() == 0 {
            return false;
        }
        let ghost lists = self.lists();
        let mut node: u32 = 0;
        let mut i: usize = 0;
        proof {
            assert(word@.take(0) =~= Seq::<char>::empty());
        }
        while i < word.len()
            invariant
                self.wf(),
                lists == self.lists(),
                i <= word@.len(),
                bwalk(lists, word@.take(i as int)) == Some(node as int),
                node < self.node_count(),
            decreases word@.len() - i,
        {
            proof {
                self.lemma_first_bounds(node as int);
                assert(word@.take(i + 1).drop_last() =~= word@.take(i as int));
            }
            let (_, first, last) = self.node_info(node);
            if first == last {
                proof {
                    lemma_walk_none_ext(lists, word@, i + 1, word@.len() as int);
                    assert(word@.take(word@.len() as int) =~= word@);
                }
                return false;
            }
            match self.child(node, word[i]) {
                Some(nx) => node = nx,
                None => {
                    proof {
                        lemma_walk_none_ext(lists, word@, i + 1, word@.len() as int);
                        assert(word@.take(word@.len() as int) =~= word@);
                    }
                    return false;
                },
            }
            i = i + 1;
        }
        proof {
            assert(word@.take(i as int) =~= word@);
        }
        (self.nodes[node as usize] & 0x8000_0000) != 0
    }
}


// ---------------------------------------------------------------------------
// The dictionaries the tokenizer consults
// ---------------------------------------------------------------------------

/// Source of a dictionary hit.
#[derive(Debug, Clone, Copy, PartialEq, Eq, Structural)]
pub enum DictKind {
    Main,
    Quantifier,
    Stopword,
    /// User-supplied extension (see [`crate::Rules`]).
    Extra,
}

/// A single in-dictionary hit: a `[start, end)` range over the char
/// indices of the input, together with the source dictionary.
#[derive(Debug, Clone, Copy, PartialEq, Eq, Structural)]
pub struct DictHit {
    pub start: usize,
    pub end: usize,
    pub kind: DictKind,
}

/// The longest word of `ws`, in chars (0 when `ws` is empty).
pub open spec fn max_len(ws: Seq<Seq<char>>) -> int
    decreases ws.len(),
{
    if ws.len() == 0 {
        0
    } else {
        let m = max_len(ws.drop_last());
        if ws.last().len() > m {
            ws.last().len() as int
        } else {
            m
        }
    }
}

/// The main, quantifier and stopword dictionaries, with the main
/// dictionary also held as a char trie.
#[derive(Debug)]
pub struct Dict {
    main: DictView,
    trie: MainTrie,
    quantifier: DictView,
    stopword: DictView,
    max_chars: usize,
}

impl Dict {
    pub closed spec fn main_terms(&self) -> Seq<Seq<char>> {
        self.main.terms()
    }

    pub closed spec fn quantifier_terms(&self) -> Seq<Seq<char>> {
        self.quantifier.terms()
    }

    pub closed spec fn stopword_terms(&self) -> Seq<Seq<char>> {
        self.stopword.terms()
    }

    pub closed spec fn longest(&self) -> int {
        self.max_chars as int
    }

    pub closed spec fn wf(&self) -> bool {
        &&& self.main.wf()
        &&& self.quantifier.wf()
        &&& self.stopword.wf()
        &&& self.trie.wf()
        &&& forall|s: Seq<char>| #[trigger] self.trie.accepts(s) <==> self.main.terms().contains(s)
        &&& self.max_chars == max_len(self.main.terms() + self.quantifier.terms() + self.stopword.terms())
    }

    /// Dictionaries with no terms.
    pub fn new() -> (d: Dict)
        ensures
            d.wf(),
            d.main_terms() == Seq::<Seq<char>>::empty(),
            d.quantifier_terms() == Seq::<Seq<char>>::empty(),
            d.stopword_terms() == Seq::<Seq<char>>::empty(),
    {
        Dict::from_words(Vec::new(), Vec::new(), Vec::new())
    }

    /// Build the dictionaries from the texts of `main.dic`,
    /// `quantifier.dic` and `stopword.dic` (one term per line; a BOM,
    /// blank lines and `#` comments are skipped; terms are trimmed).
    pub fn from_texts(main: &str, quantifier: &str, stopword: &str) -> (d: Dict)
        requires
            main@.len() < 0x7FFF_FFE0,
            quantifier@.len() <= u32::MAX,
            stopword@.len() <= u32::MAX,
        ensures
            d.wf(),
            words_sorted(d.main_terms()),
            words_sorted(d.quantifier_terms()),
            words_sorted(d.stopword_terms()),
            forall|w: Seq<char>| #[trigger] d.main_terms().contains(w) <==> dic_entries(main@).contains(w),
            forall|w: Seq<char>| #[trigger] d.quantifier_terms().contains(w) <==> dic_entries(quantifier@).contains(w),
            forall|w: Seq<char>| #[trigger] d.stopword_terms().contains(w) <==> dic_entries(stopword@).contains(w),
    {
        let m = read_dict(main);
        let q = read_dict(quantifier);
        let s = read_dict(stopword);
        Dict::from_words(m, q, s)
    }

    /// Build the dictionaries from sorted, distinct, non-empty terms.
    fn from_words(m: Vec<Vec<char>>, q: Vec<Vec<char>>, s: Vec<Vec<char>>) -> (d: Dict)
        requires
            words_sorted(views(m@)),
            words_sorted(views(q@)),
            words_sorted(views(s@)),
            forall|i: int| 0 <= i < m@.len() ==> (#[trigger] m@[i])@.len() >= 1,
            forall|i: int| 0 <= i < q@.len() ==> (#[trigger] q@[i])@.len() >= 1,
            forall|i: int| 0 <= i < s@.len() ==> (#[trigger] s@[i])@.len() >= 1,
            seq_chars(views(m@)) < 0x7FFF_FFE0,
            m@.len() <= u32::MAX,
            q@.len() <= u32::MAX,
            s@.len() <= u32::MAX,
        ensures
            d.wf(),
            d.main_terms() == views(m@),
            d.quantifier_terms() == views(q@),
            d.stopword_terms() == views(s@),
    {
        proof {
            lemma_chars_total_is_seq_chars(views(m@), m@.len() as int);
            assert(views(m@).take(m@.len() as int) =~= views(m@));
        }
        let trie = MainTrie::build(&m);
        let a = longest_word(&m);
        let b = longest_word(&q);
        let c = longest_word(&s);
        let mut max_chars = a;
        if b > max_chars {
            max_chars = b;
        }
        if c > max_chars {
            max_chars = c;
        }
        proof {
            lemma_max_len_concat(views(m@), views(q@));
            lemma_max_len_concat(views(m@) + views(q@), views(s@));
        }
        let main = DictView::build_flat(m);
        let quantifier = DictView::build_flat(q);
        let stopword = DictView::build_flat(s);
        Dict { main, trie, quantifier, stopword, max_chars }
    }

    /// Number of terms in the main dictionary.
    pub fn main_size(&self) -> (r: usize)
        requires
            self.wf(),
        ensures
            r == self.main_terms().len(),
    {
        proof {
            self.main.lemma_terms();
        }
        self.main.count
    }

    /// Number of terms in the quantifier dictionary.
    pub fn quantifier_size(&self) -> (r: usize)
        requires
            self.wf(),
        ensures
            r == self.quantifier_terms().len(),
    {
        proof {
            self.quantifier.lemma_terms();
        }
        self.quantifier.count
    }

    /// Number of terms in the stopword dictionary.
    pub fn stopword_size(&self) -> (r: usize)
        requires
            self.wf(),
        ensures
            r == self.stopword_terms().len(),
    {
        proof {
            self.stopword.lemma_terms();
        }
        self.stopword.count
    }

    /// The longest term, in chars, across the three dictionaries.
    pub fn max_term_chars(&self) -> (r: usize)
        requires
            self.wf(),
        ensures
            r == max_len(self.main_terms() + self.quantifier_terms() + self.stopword_terms()),
    {
        self.max_chars
    }

    /// `word` is a term of the main dictionary.
    pub fn contains_main(&self, word: &str) -> (r: bool)
        requires
            self.wf(),
        ensures
            r == self.main_terms().contains(word@),
    {
        let w = crate::char_util::str_to_chars(word);
        proof {
            assert(w@.subrange(0, w@.len() as int) =~= w@);
        }
        self.main.contains_range(&w, 0, w.len())
    }

    /// `word` is a term of the quantifier dictionary.
    pub fn contains_quantifier(&self, word: &str) -> (r: bool)
        requires
            self.wf(),
        ensures
            r == self.quantifier_terms().contains(word@),
    {
        let w = crate::char_util::str_to_chars(word);
        proof {
            assert(w@.subrange(0, w@.len() as int) =~= w@);
        }
        self.quantifier.contains_range(&w, 0, w.len())
    }

    /// `word` is a term of the stopword dictionary.
    pub fn is_stopword(&self, word: &str) -> (r: bool)
        requires
            self.wf(),
        ensures
            r == self.stopword_terms().contains(word@),
    {
        let w = crate::char_util::str_to_chars(word);
        proof {
            assert(w@.subrange(0, w@.len() as int) =~= w@);
        }
        self.stopword.contains_range(&w, 0, w.len())
    }

    /// `chars[lo..hi]` is a term of the stopword dictionary.
    pub(crate) fn stopword_range(&self, chars: &Vec<char>, lo: usize, hi: usize) -> (r: bool)
        requires
            self.wf(),
            lo <= hi <= chars@.len(),
        ensures
            r == self.stopword_terms().contains(chars@.subrange(lo as int, hi as int)),
    {
        self.stopword.contains_range(chars, lo, hi)
    }

    /// Main-dictionary terms that are prefixes of `chars[start..]`, as
    /// char counts, ascending.
    pub(crate) fn main_prefixes(&self, chars: &Vec<char>, start: usize) -> (r: Vec<usize>)
        requires
            self.wf(),
            start <= chars@.len() < usize::MAX,
        ensures
            r@ == prefix_hits(self.main_terms(), chars@.subrange(start as int, chars@.len() as int)),
    {
        let r = self.trie.find_prefixes_chars(chars, start);
        proof {
            let t = chars@.subrange(start as int, chars@.len() as int);
            lemma_trie_hits_eq(self.trie, self.main.terms(), t, t.len() as int);
        }
        r
    }

    /// Quantifier terms that are prefixes of `chars[start..]`, as char
    /// counts, ascending.
    pub(crate) fn quantifier_prefixes(&self, chars: &Vec<char>, start: usize) -> (r: Vec<usize>)
        requires
            self.wf(),
            start <= chars@.len() < usize::MAX,
        ensures
            r@ == prefix_hits(self.quantifier_terms(), chars@.subrange(start as int, chars@.len() as int)),
    {
        self.quantifier.find_prefixes(chars, start)
    }
}

/// Every element of `trie_hits_upto` lies in `1..=m`.
proof fn lemma_trie_hits_bounds(tr: MainTrie, t: Seq<char>, m: int)
    requires
        m <= usize::MAX,
    ensures
        forall|i: int| 0 <= i < trie_hits_upto(tr, t, m).len() ==> 1 <= #[trigger] trie_hits_upto(tr, t, m)[i] <= m,
    decreases m,
{
    if m > 0 {
        lemma_trie_hits_bounds(tr, t, m - 1);
        let a = trie_hits_upto(tr, t, m - 1);
        assert forall|i: int| 0 <= i < trie_hits_upto(tr, t, m).len() implies 1 <= #[trigger] trie_hits_upto(tr, t, m)[i] <= m by {
            if i < a.len() {
                assert(trie_hits_upto(tr, t, m)[i] == a[i]);
            }
        }
    }
}

/// A trie that accepts exactly `terms` finds exactly the prefix hits of
/// `terms`.
proof fn lemma_trie_hits_eq(tr: MainTrie, terms: Seq<Seq<char>>, t: Seq<char>, m: int)
    requires
        forall|s: Seq<char>| #[trigger] tr.accepts(s) <==> terms.contains(s),
    ensures
        trie_hits_upto(tr, t, m) == hits_upto(terms, t, m),
    decreases m,
{
    if m > 0 {
        lemma_trie_hits_eq(tr, terms, t, m - 1);
        assert(tr.accepts(t.take(m)) == terms.contains(t.take(m)));
    }
}

proof fn lemma_max_len_concat(a: Seq<Seq<char>>, b: Seq<Seq<char>>)
    ensures
        max_len(a + b) == if max_len(a) >= max_len(b) {
            max_len(a)
        } else {
            max_len(b)
        },
    decreases b.len(),
{
    if b.len() > 0 {
        lemma_max_len_concat(a, b.drop_last());
        assert((a + b).drop_last() =~= a + b.drop_last());
    } else {
        assert(a + b =~= a);
        lemma_max_len_nonneg(a);
    }
}

proof fn lemma_max_len_nonneg(a: Seq<Seq<char>>)
    ensures
        max_len(a) >= 0,
    decreases a.len(),
{
    if a.len() > 0 {
        lemma_max_len_nonneg(a.drop_last());
    }
}

/// The longest word of `ws`, in chars.
fn longest_word(ws: &Vec<Vec<char>>) -> (r: usize)
    ensures
        r == max_len(views(ws@)),
{
    let mut best: usize = 0;
    let mut i: usize = 0;
    proof {
        assert(views(ws@).take(0) =~= Seq::<Seq<char>>::empty());
    }
    while i < ws.len()
        invariant
            i <= ws@.len(),
            best == max_len(views(ws@).take(i as int)),
        decreases ws@.len() - i,
    {
        proof {
            assert(views(ws@).take(i + 1).drop_last() =~= views(ws@).take(i as int));
            assert(views(ws@).take(i + 1).last() == ws@[i as int]@);
        }
        let l = ws[i].len();
        if l > best {
            best = l;
        }
        i = i + 1;
    }
    proof {
        assert(views(ws@).take(i as int) =~= views(ws@));
    }
    best
}

} // verus!

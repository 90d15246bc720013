//! Runtime extension rules: user words and stopwords added on top of the
//! dictionaries, and dictionary entries vetoed at lookup time.
use vstd::prelude::*;

use crate::char_util::str_to_chars;
use crate::dict::views;

verus! {

/// The words of a word list, as a set.
pub open spec fn word_set(v: Seq<Vec<char>>) -> Set<Seq<char>> {
    Set::new(|w: Seq<char>| views(v).contains(w))
}

/// `s` with `w` added, unless `w` is empty.
pub open spec fn with_word(s: Set<Seq<char>>, w: Seq<char>) -> Set<Seq<char>> {
    if w.len() > 0 {
        s.insert(w)
    } else {
        s
    }
}

/// The lengths `k` in `1..=m`, ascending, for which `t[..k]` is in `s`.
pub open spec fn set_hits_upto(s: Set<Seq<char>>, t: Seq<char>, m: int) -> Seq<usize>
    decreases m,
{
    if m <= 0 {
        Seq::empty()
    } else {
        set_hits_upto(s, t, m - 1) + if s.contains(t.take(m)) {
            seq![m as usize]
        } else {
            Seq::empty()
        }
    }
}

/// Every word of `s` that is a prefix of `t`, as char counts, ascending.
pub open spec fn set_prefix_hits(s: Set<Seq<char>>, t: Seq<char>) -> Seq<usize> {
    set_hits_upto(s, t, t.len() as int)
}

/// Membership of `key[lo..hi]` in the word list `ws`.
fn list_contains_range(ws: &Vec<Vec<char>>, key: &Vec<char>, lo: usize, hi: usize) -> (r: bool)
    requires
        lo <= hi <= key@.len(),
    ensures
        r == word_set(ws@).contains(key@.subrange(lo as int, hi as int)),
{
    let ghost k = key@.subrange(lo as int, hi as int);
    let mut i: usize = 0;
    while i < ws.len()
        invariant
            i <= ws@.len(),
            lo <= hi <= key@.len(),
            k == key@.subrange(lo as int, hi as int),
            forall|j: int| 0 <= j < i ==> ws@[j]@ != k,
        decreases ws@.len() - i,
    {
        if words_eq(&ws[i], key, lo, hi) {
            proof {
                assert(views(ws@)[i as int] == k);
            }
            return true;
        }
        i = i + 1;
    }
    proof {
        if views(ws@).contains(k) {
            let j = choose|j: int| 0 <= j < views(ws@).len() && views(ws@)[j] == k;
            assert(ws@[j]@ == k);
        }
    }
    false
}

fn words_eq(a: &Vec<char>, b: &Vec<char>, b_lo: usize, b_hi: usize) -> (r: bool)
    requires
        b_lo <= b_hi <= b@.len(),
    ensures
        r == (a@ == b@.subrange(b_lo as int, b_hi as int)),
{
    let ghost bs = b@.subrange(b_lo as int, b_hi as int);
    if a.len() != b_hi - b_lo {
        return false;
    }
    let mut i: usize = 0;
    while i < a.len()
        invariant
            i <= a@.len(),
            a@.len() == bs.len(),
            b_lo <= b_hi <= b@.len(),
            bs == b@.subrange(b_lo as int, b_hi as int),
            forall|q: int| 0 <= q < i ==> a@[q] == bs[q],
        decreases a@.len() - i,
    {
        if a[i] != b[b_lo + i] {
            return false;
        }
        i = i + 1;
    }
    proof {
        assert(a@ =~= bs);
    }
    true
}

/// Add the chars of `word` to the list `ws` (unless empty or present).
fn list_add(ws: &mut Vec<Vec<char>>, word: &str)
    ensures
        word_set(final(ws)@) == with_word(word_set(old(ws)@), word@),
{
    let w = str_to_chars(word);
    if w.len() == 0 {
        return ;
    }
    let present = list_contains_range(ws, &w, 0, w.len());
    proof {
        assert(w@.subrange(0, w@.len() as int) =~= w@);
    }
    if !present {
        let ghost old_ws = ws@;
        ws.push(w);
        proof {
            assert(views(ws@) =~= views(old_ws).push(word@));
            assert(word_set(ws@) =~= word_set(old_ws).insert(word@)) by {
                assert forall|x: Seq<char>| word_set(ws@).contains(x) <==> word_set(old_ws).insert(
                    word@,
                ).contains(x) by {
                    if views(old_ws).contains(x) {
                        let j = choose|j: int| 0 <= j < views(old_ws).len() && views(old_ws)[j] == x;
                        assert(views(ws@)[j] == x);
                    }
                    if views(ws@).contains(x) {
                        let j = choose|j: int| 0 <= j < views(ws@).len() && views(ws@)[j] == x;
                        if j < old_ws.len() {
                            assert(views(old_ws)[j] == x);
                        }
                    }
                    if x == word@ {
                        assert(views(ws@)[old_ws.len() as int] == x);
                    }
                }
            }
        }
    } else {
        proof {
            assert(word_set(ws@) =~= word_set(ws@).insert(word@));
        }
    }
}

/// The longest word of a list, in chars.
fn list_longest(ws: &Vec<Vec<char>>) -> (r: usize)
    ensures
        forall|i: int| 0 <= i < ws@.len() ==> (#[trigger] ws@[i])@.len() <= r,
{
    let mut best: usize = 0;
    let mut i: usize = 0;
    while i < ws.len()
        invariant
            i <= ws@.len(),
            forall|j: int| 0 <= j < i ==> (#[trigger] ws@[j])@.len() <= best,
        decreases ws@.len() - i,
    {
        if ws[i].len() > best {
            best = ws[i].len();
        }
        i = i + 1;
    }
    best
}

/// User-supplied dictionary overlay applied on top of the dictionaries.
///
/// - extra words extend the main dictionary (they take part in CJK
///   tokenization like a dictionary word);
/// - extra stopwords extend the stopword filter (only active when
///   [`crate::IkConfig::use_stopwords`] is `true`);
/// - removed words and removed stopwords veto entries of the dictionaries.
#[derive(Debug, Clone)]
pub struct Rules {
    extra_words: Vec<Vec<char>>,
    extra_stopwords: Vec<Vec<char>>,
    removed_main: Vec<Vec<char>>,
    removed_stopwords: Vec<Vec<char>>,
}

impl Rules {
    pub closed spec fn extra_words(&self) -> Set<Seq<char>> {
        word_set(self.extra_words@)
    }

    pub closed spec fn extra_stopwords(&self) -> Set<Seq<char>> {
        word_set(self.extra_stopwords@)
    }

    pub closed spec fn removed_main(&self) -> Set<Seq<char>> {
        word_set(self.removed_main@)
    }

    pub closed spec fn removed_stopwords(&self) -> Set<Seq<char>> {
        word_set(self.removed_stopwords@)
    }

    /// No rules.
    pub fn new() -> (r: Rules)
        ensures
            r.extra_words() == Set::<Seq<char>>::empty(),
            r.extra_stopwords() == Set::<Seq<char>>::empty(),
            r.removed_main() == Set::<Seq<char>>::empty(),
            r.removed_stopwords() == Set::<Seq<char>>::empty(),
    {
        let r = Rules {
            extra_words: Vec::new(),
            extra_stopwords: Vec::new(),
            removed_main: Vec::new(),
            removed_stopwords: Vec::new(),
        };
        proof {
            assert(r.extra_words() =~= Set::<Seq<char>>::empty());
            assert(r.extra_stopwords() =~= Set::<Seq<char>>::empty());
            assert(r.removed_main() =~= Set::<Seq<char>>::empty());
            assert(r.removed_stopwords() =~= Set::<Seq<char>>::empty());
        }
        r
    }

    /// Add a word so it gets recognized as a main-dictionary term (an
    /// empty word is ignored).
    pub fn add_word(&mut self, word: &str) -> (r: &mut Rules)
        ensures
            *final(self) == *final(r),
            r.extra_words() == with_word(old(self).extra_words(), word@),
            r.extra_stopwords() == old(self).extra_stopwords(),
            r.removed_main() == old(self).removed_main(),
            r.removed_stopwords() == old(self).removed_stopwords(),
    {
        list_add(&mut self.extra_words, word);
        self
    }

    /// Add several words, in order.
    pub fn add_words(&mut self, words: &Vec<&str>) -> (r: &mut Rules)
        ensures
            *final(self) == *final(r),
            forall|w: Seq<char>| #[trigger] r.extra_words().contains(w) <==> (old(self).extra_words().contains(w)
                || exists|i: int| 0 <= i < words@.len() && w.len() > 0 && (#[trigger] words@[i])@ == w),
            r.extra_stopwords() == old(self).extra_stopwords(),
            r.removed_main() == old(self).removed_main(),
            r.removed_stopwords() == old(self).removed_stopwords(),
    {
        let mut i: usize = 0;
        while i < words.len()
            invariant
                i <= words@.len(),
                forall|w: Seq<char>| #[trigger] self.extra_words().contains(w) <==> (old(self).extra_words().contains(w)
                    || exists|j: int| 0 <= j < i && w.len() > 0 && (#[trigger] words@[j])@ == w),
                self.extra_stopwords() == old(self).extra_stopwords(),
                self.removed_main() == old(self).removed_main(),
                self.removed_stopwords() == old(self).removed_stopwords(),
            decreases words@.len() - i,
        {
            let ghost before = self.extra_words();
            list_add(&mut self.extra_words, words[i]);
            proof {
                assert forall|w: Seq<char>| #[trigger] self.extra_words().contains(w) <==> (old(self).extra_words().contains(w)
                    || exists|j: int| 0 <= j < i + 1 && w.len() > 0 && (#[trigger] words@[j])@ == w) by {
                    if w == words@[i as int]@ && w.len() > 0 {
                        assert(self.extra_words().contains(w));
                    }
                    if exists|j: int| 0 <= j < i + 1 && w.len() > 0 && (#[trigger] words@[j])@ == w {
                        let j = choose|j: int| 0 <= j < i + 1 && w.len() > 0 && (#[trigger] words@[j])@ == w;
                        if j < i {
                            assert(before.contains(w));
                        }
                    }
                }
            }
            i = i + 1;
        }
        self
    }

    /// Add a stopword (only active when stopwords are on; an empty word is
    /// ignored).
    pub fn add_stopword(&mut self, word: &str) -> (r: &mut Rules)
        ensures
            *final(self) == *final(r),
            r.extra_words() == old(self).extra_words(),
            r.extra_stopwords() == with_word(old(self).extra_stopwords(), word@),
            r.removed_main() == old(self).removed_main(),
            r.removed_stopwords() == old(self).removed_stopwords(),
    {
        list_add(&mut self.extra_stopwords, word);
        self
    }

    /// Block a main-dictionary word from being matched (an empty word is
    /// ignored).
    pub fn remove_word(&mut self, word: &str) -> (r: &mut Rules)
        ensures
            *final(self) == *final(r),
            r.extra_words() == old(self).extra_words(),
            r.extra_stopwords() == old(self).extra_stopwords(),
            r.removed_main() == with_word(old(self).removed_main(), word@),
            r.removed_stopwords() == old(self).removed_stopwords(),
    {
        list_add(&mut self.removed_main, word);
        self
    }

    /// Block a dictionary stopword from being filtered (an empty word is
    /// ignored).
    pub fn remove_stopword(&mut self, word: &str) -> (r: &mut Rules)
        ensures
            *final(self) == *final(r),
            r.extra_words() == old(self).extra_words(),
            r.extra_stopwords() == old(self).extra_stopwords(),
            r.removed_main() == old(self).removed_main(),
            r.removed_stopwords() == with_word(old(self).removed_stopwords(), word@),
    {
        list_add(&mut self.removed_stopwords, word);
        self
    }

    /// Some user word was added.
    pub fn has_extra_words(&self) -> (r: bool)
        ensures
            r == (self.extra_words() != Set::<Seq<char>>::empty()),
    {
        let r = self.extra_words.len() > 0;
        proof {
            if r {
                assert(views(self.extra_words@)[0] == self.extra_words@[0]@);
                assert(self.extra_words().contains(self.extra_words@[0]@));
            } else {
                assert(self.extra_words() =~= Set::<Seq<char>>::empty());
            }
        }
        r
    }

    /// Some main-dictionary word was blocked.
    pub fn has_removed_main(&self) -> (r: bool)
        ensures
            r == (self.removed_main() != Set::<Seq<char>>::empty()),
    {
        let r = self.removed_main.len() > 0;
        proof {
            if r {
                assert(views(self.removed_main@)[0] == self.removed_main@[0]@);
                assert(self.removed_main().contains(self.removed_main@[0]@));
            } else {
                assert(self.removed_main() =~= Set::<Seq<char>>::empty());
            }
        }
        r
    }

    /// `chars[lo..hi]` is a user word.
    pub fn is_extra_word(&self, chars: &Vec<char>, lo: usize, hi: usize) -> (r: bool)
        requires
            lo <= hi <= chars@.len(),
        ensures
            r == self.extra_words().contains(chars@.subrange(lo as int, hi as int)),
    {
        list_contains_range(&self.extra_words, chars, lo, hi)
    }

    /// `chars[lo..hi]` is a blocked main-dictionary word.
    pub fn is_removed_main(&self, chars: &Vec<char>, lo: usize, hi: usize) -> (r: bool)
        requires
            lo <= hi <= chars@.len(),
        ensures
            r == self.removed_main().contains(chars@.subrange(lo as int, hi as int)),
    {
        list_contains_range(&self.removed_main, chars, lo, hi)
    }

    /// `chars[lo..hi]` is a user stopword.
    pub fn is_extra_stopword(&self, chars: &Vec<char>, lo: usize, hi: usize) -> (r: bool)
        requires
            lo <= hi <= chars@.len(),
        ensures
            r == self.extra_stopwords().contains(chars@.subrange(lo as int, hi as int)),
    {
        list_contains_range(&self.extra_stopwords, chars, lo, hi)
    }

    /// `chars[lo..hi]` is a blocked stopword.
    pub fn is_removed_stopword(&self, chars: &Vec<char>, lo: usize, hi: usize) -> (r: bool)
        requires
            lo <= hi <= chars@.len(),
        ensures
            r == self.removed_stopwords().contains(chars@.subrange(lo as int, hi as int)),
    {
        list_contains_range(&self.removed_stopwords, chars, lo, hi)
    }

    /// Every user word that is a prefix of `chars[start..]`, as char
    /// counts, ascending.
    pub fn extra_prefixes(&self, chars: &Vec<char>, start: usize) -> (r: Vec<usize>)
        requires
            start <= chars@.len(),
        ensures
            r@ == set_prefix_hits(self.extra_words(), chars@.subrange(start as int, chars@.len() as int)),
    {
        let ghost t = chars@.subrange(start as int, chars@.len() as int);
        let ghost s = self.extra_words();
        let longest = list_longest(&self.extra_words);
        let n = chars.len();
        let mut out: Vec<usize> = Vec::new();
        let mut j: usize = 0;
        while j < n - start && j < longest
            invariant
                start <= n == chars@.len(),
                t == chars@.subrange(start as int, chars@.len() as int),
                s == self.extra_words(),
                j <= t.len(),
                out@ == set_hits_upto(s, t, j as int),
                forall|i: int| 0 <= i < self.extra_words@.len() ==> (#[trigger] self.extra_words@[i])@.len() <= longest,
            decreases t.len() - j,
        {
            let k = j + 1;
            let hit = list_contains_range(&self.extra_words, chars, start, start + k);
            proof {
                assert(chars@.subrange(start as int, start + k) =~= t.take(k as int));
            }
            if hit {
                out.push(k);
            }
            proof {
                assert(out@ =~= set_hits_upto(s, t, k as int));
            }
            j = k;
        }
        proof {
            lemma_no_long_hits(self.extra_words@, longest as int, t, j as int, t.len() as int);
        }
        out
    }
}

/// Words longer than every word of the list add no hits.
proof fn lemma_no_long_hits(ws: Seq<Vec<char>>, longest: int, t: Seq<char>, k: int, m: int)
    requires
        0 <= k <= m <= t.len(),
        k >= longest || k == t.len(),
        forall|i: int| 0 <= i < ws.len() ==> (#[trigger] ws[i])@.len() <= longest,
    ensures
        set_hits_upto(word_set(ws), t, m) == set_hits_upto(word_set(ws), t, k),
    decreases m,
{
    if m > k {
        lemma_no_long_hits(ws, longest, t, k, m - 1);
        if word_set(ws).contains(t.take(m)) {
            let j = choose|j: int| 0 <= j < views(ws).len() && views(ws)[j] == t.take(m);
            assert(views(ws)[j] == ws[j]@);
        }
    }
}

impl Default for Rules {
    fn default() -> (r: Rules)
        ensures
            r.extra_words() == Set::<Seq<char>>::empty(),
            r.extra_stopwords() == Set::<Seq<char>>::empty(),
            r.removed_main() == Set::<Seq<char>>::empty(),
            r.removed_stopwords() == Set::<Seq<char>>::empty(),
    {
        Rules::new()
    }
}

} // verus!

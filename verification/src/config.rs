//! Configuration for the IK tokenizer.
use vstd::prelude::*;

verus! {

/// Tokenization mode: `ik_smart` or `ik_max_word`.
#[derive(Debug, Clone, Copy, PartialEq, Eq, Structural)]
pub enum IkMode {
    /// `ik_smart` — pick the best (single) segmentation path via the
    /// arbitrator. Few, long, non-overlapping tokens — good for queries.
    Smart,
    /// `ik_max_word` — emit every dict hit. Many, possibly overlapping
    /// tokens — good for indexing because it maximizes recall.
    MaxWord,
}

impl Default for IkMode {
    fn default() -> (m: Self)
        ensures
            m == IkMode::MaxWord,
    {
        IkMode::MaxWord
    }
}

/// Runtime configuration.
#[derive(Debug, Clone, Copy, PartialEq, Eq, Structural)]
pub struct IkConfig {
    /// Tokenization mode.
    pub mode: IkMode,
    /// Lowercase ASCII letters (also drives the regularization of the input).
    pub lowercase: bool,
    /// Drop tokens that are stopwords (bundled or user-added).
    pub use_stopwords: bool,
    /// In `MaxWord` mode, additionally emit every number + quantifier fusion,
    /// a single-char token at every Chinese position, and the single-char
    /// tokens `Smart` adds for letters, digits and non-Chinese CJK chars it
    /// leaves uncovered, so that every token `Smart` produces is also
    /// produced by `MaxWord`.
    pub ensure_smart_subset: bool,
}

impl Default for IkConfig {
    fn default() -> (c: Self)
        ensures
            c == (IkConfig {
                mode: IkMode::MaxWord,
                lowercase: true,
                use_stopwords: false,
                ensure_smart_subset: true,
            }),
    {
        IkConfig { mode: IkMode::MaxWord, lowercase: true, use_stopwords: false, ensure_smart_subset: true }
    }
}

impl IkConfig {
    /// Indexing-friendly preset: `ik_max_word`, lowercase, stopwords off,
    /// `ensure_smart_subset` on.
    pub fn for_indexing() -> (c: Self)
        ensures
            c == (IkConfig {
                mode: IkMode::MaxWord,
                lowercase: true,
                use_stopwords: false,
                ensure_smart_subset: true,
            }),
    {
        IkConfig { mode: IkMode::MaxWord, lowercase: true, use_stopwords: false, ensure_smart_subset: true }
    }

    /// Search-friendly preset: `ik_smart`, lowercase, stopwords on.
    pub fn for_searching() -> (c: Self)
        ensures
            c == (IkConfig {
                mode: IkMode::Smart,
                lowercase: true,
                use_stopwords: true,
                ensure_smart_subset: true,
            }),
    {
        IkConfig { mode: IkMode::Smart, lowercase: true, use_stopwords: true, ensure_smart_subset: true }
    }

    pub fn mode(self, mode: IkMode) -> (c: Self)
        ensures
            c == (IkConfig { mode, ..self }),
    {
        let mut s = self;
        s.mode = mode;
        s
    }

    pub fn lowercase(self, lc: bool) -> (c: Self)
        ensures
            c == (IkConfig { lowercase: lc, ..self }),
    {
        let mut s = self;
        s.lowercase = lc;
        s
    }

    pub fn use_stopwords(self, sw: bool) -> (c: Self)
        ensures
            c == (IkConfig { use_stopwords: sw, ..self }),
    {
        let mut s = self;
        s.use_stopwords = sw;
        s
    }

    /// Opt out of (or back into) the `Smart ⊆ MaxWord` indexing-time
    /// guarantee.
    pub fn ensure_smart_subset(self, on: bool) -> (c: Self)
        ensures
            c == (IkConfig { ensure_smart_subset: on, ..self }),
    {
        let mut s = self;
        s.ensure_smart_subset = on;
        s
    }
}

} // verus!

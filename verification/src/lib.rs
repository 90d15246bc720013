//! IK Chinese word segmentation: dictionary-driven `ik_smart` and
//! `ik_max_word` tokenization.
use vstd::prelude::*;

pub mod char_util;
pub mod config;
pub mod lexeme;
pub mod arbitrator;
pub mod segmenter;
pub mod dict;
pub mod rules;
pub mod pipeline;
pub mod tokenizer;
pub mod laws;
pub mod disjoint;
pub mod optimal;
pub mod runs;

pub use config::IkConfig;
pub use config::IkMode;
pub use lexeme::Lexeme;
pub use lexeme::LexemeKind;
pub use dict::Dict;
pub use dict::DictHit;
pub use dict::DictKind;
pub use rules::Rules;
pub use tokenizer::IkTokenizer;
pub use tokenizer::Token;
pub use tokenizer::TokenRange;

verus! {
} // verus!

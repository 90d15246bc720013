# pizza-analysis-ik

IK Chinese word segmentation for the INFINI Pizza engine, written in Verus:
the segmenters, the arbitrator, the dictionaries and the tokenizer carry
contracts that Verus proves.

- **Smart mode** (`ik_smart`): one non-overlapping segmentation, picked by the
  arbitrator — good for queries.
- **MaxWord mode** (`ik_max_word`): every dictionary hit, possibly
  overlapping — good for indexing.
- **Rules**: user words and stopwords added at run time, and dictionary
  entries blocked at lookup time.

## Layout

- `src/char_util.rs` — char classification and regularization.
- `src/config.rs` — `IkMode` and `IkConfig`.
- `src/lexeme.rs` — lexemes, their sort key and order, sorting.
- `src/dict.rs` — the `.dic` text format, the flat sorted dictionaries with a
  first-char index, the char trie of the main dictionary, and `Dict`.
- `src/rules.rs` — `Rules`.
- `src/segmenter.rs` — the input char stream and the CJK, letter and
  quantifier segmenters.
- `src/arbitrator.rs` — the arbitrator, the Smart-mode post-processing and the
  counting sort of the final lexemes.
- `src/pipeline.rs` — both modes as functions of the input, used by the
  contracts.
- `src/tokenizer.rs` — `IkTokenizer`, `Token`, `TokenRange`.
- `src/laws.rs`, `src/disjoint.rs`, `src/optimal.rs` — properties of the
  whole: Smart ⊆ MaxWord, Smart tokens never overlap and cover every letter,
  digit and CJK char, the arbitrator's choice scores best and every lexeme
  it is given is chosen or overlaps a chosen one, tokens are
  well-formed, stopwords never come out, user words are found, extra
  stopwords change nothing while stopword filtering is off.
- `src/runs.rs` — the letter and number segmenters emit exactly the maximal
  runs.
- `app/lib.rs` — registration with the engine and reading the dictionary
  files.

The dictionaries are data: build a `Dict` from the text of `main.dic`,
`quantifier.dic` and `stopword.dic` with `Dict::from_texts` and attach it
with `IkTokenizer::with_dict` (or share one with `with_shared_dict`).

//! Tests of the building blocks: chars, dictionaries, rules, lexemes, and
//! the two tokenization modes on concrete inputs.

use pizza_analysis_ik::char_util::classify;
use pizza_analysis_ik::char_util::is_chinese_number;
use pizza_analysis_ik::char_util::regularize;
use pizza_analysis_ik::char_util::regularize_and_classify;
use pizza_analysis_ik::char_util::CharKind;
use pizza_analysis_ik::segmenter::CharStream;
use pizza_analysis_ik::segmenter::letter_segment;
use pizza_analysis_ik::segmenter::quantifier_segment;
use pizza_analysis_ik::Dict;
use pizza_analysis_ik::DictHit;
use pizza_analysis_ik::DictKind;
use pizza_analysis_ik::IkConfig;
use pizza_analysis_ik::IkMode;
use pizza_analysis_ik::IkTokenizer;
use pizza_analysis_ik::Lexeme;
use pizza_analysis_ik::LexemeKind;
use pizza_analysis_ik::Rules;
use pizza_analysis_ik::Token;
use pizza_analysis_ik::arbitrator::arbitrate;
use pizza_analysis_ik::arbitrator::bucket_sort_dedup_lexemes;
use pizza_analysis_ik::arbitrator::emit_quantifier_fusions;
use pizza_analysis_ik::arbitrator::fuse_quantifiers;
use pizza_analysis_ik::char_util::str_to_chars;
use pizza_analysis_ik::dict::MainTrie;
use pizza_analysis_ik::dict::read_dict;
use std::collections::HashSet;

fn terms(tokens: &[Token]) -> Vec<String> {
    tokens.iter().map(|t| t.term.clone()).collect()
}

fn dict_of(main: &str, quant: &str, stop: &str) -> Dict {
    Dict::from_texts(main, quant, stop)
}

fn readme_dict() -> Dict {
    dict_of(
        "中华人民共和国\n中华人民\n中华\n华人\n人民共和国\n人民\n共和国\n共和\n国歌\n",
        "个\n",
        "的\n",
    )
}

const MAIN_DIC: &str = "中华人民共和国\n中华人民\n中华\n华人\n人民共和国\n人民\n共和国\n共和\n国歌\n\
中国\n中国人\n国人\n我\n买\n了\n是\n喜欢\n编程\n成立\n北京\n大学\n大学生\n学生\n进口\n口红\n红酒\n\
搜索\n搜索引擎\n引擎\n技术\n美丽\n苹果\n大米\n公斤\n起源\n起源于\n古代\n神话\n南京\n南京市\n市长\n长江\n大桥\n\
长江大桥\n大陆\n销售\n版本\n一千\n故事\n好多\n人民银行\n银行\n在\n讲\n夜\n";

fn full_dict() -> Dict {
    dict_of(MAIN_DIC, "个\n公斤\n年\n遍\n夜\n", "的\n了\n和\n")
}

fn keys(t: &IkTokenizer, text: &str) -> HashSet<(String, u32, u32)> {
    t.tokenize(text)
        .into_iter()
        .map(|tok| (tok.term, tok.start_offset, tok.end_offset))
        .collect()
}

// ---------------------------------------------------------------------------
// Characters
// ---------------------------------------------------------------------------

#[test]
fn classify_works() {
    assert_eq!(classify('a'), CharKind::English);
    assert_eq!(classify('Z'), CharKind::English);
    assert_eq!(classify('5'), CharKind::Arabic);
    assert_eq!(classify('中'), CharKind::Chinese);
    assert_eq!(classify('あ'), CharKind::OtherCjk);
    assert_eq!(classify(','), CharKind::Useless);
    assert_eq!(classify(' '), CharKind::Useless);
}

#[test]
fn regularize_full_width() {
    assert_eq!(regularize('Ａ', true), 'a');
    assert_eq!(regularize('Ｚ', false), 'Z');
    assert_eq!(regularize('５', true), '5');
    assert_eq!(regularize('　', true), ' ');
    assert_eq!(regularize('A', true), 'a');
    assert_eq!(regularize('A', false), 'A');
}

#[test]
fn regularize_and_classify_agrees() {
    assert_eq!(regularize_and_classify('Ｂ', true), ('b', CharKind::English));
    assert_eq!(regularize_and_classify('中', true), ('中', CharKind::Chinese));
    assert_eq!(regularize_and_classify('７', false), ('7', CharKind::Arabic));
    assert_eq!(regularize_and_classify('한', true), ('한', CharKind::OtherCjk));
    assert_eq!(regularize_and_classify('！', true), ('!', CharKind::Useless));
}

#[test]
fn chinese_numbers() {
    assert!(is_chinese_number('三'));
    assert!(is_chinese_number('廿'));
    assert!(is_chinese_number('億'));
    assert!(!is_chinese_number('个'));
    assert!(!is_chinese_number('3'));
}

#[test]
fn char_stream_offsets() {
    let st = CharStream::new("Ａ中b", true);
    assert_eq!(st.chars, vec!['a', '中', 'b']);
    assert_eq!(st.orig, vec!['Ａ', '中', 'b']);
    assert_eq!(st.byte_off, vec![0, 3, 6, 7]);
    assert_eq!(st.kinds, vec![CharKind::English, CharKind::Chinese, CharKind::English]);
    assert!(st.any_regularized);
    let plain = CharStream::new("中b", false);
    assert!(!plain.any_regularized);
}

// ---------------------------------------------------------------------------
// Lexemes
// ---------------------------------------------------------------------------

#[test]
fn lexeme_end_and_key() {
    let l = Lexeme { begin: 3, length: 2, kind: LexemeKind::CnWord };
    assert_eq!(l.end(), 5);
    assert_eq!(l.sort_key(), (3u64 << 32) | ((0xFF_FFFFu64 - 2) << 8) | 4);
    assert_eq!(LexemeKind::CnChar.priority(), 64);
    assert_eq!(LexemeKind::English.priority(), 1);
    let longer = Lexeme { begin: 3, length: 4, kind: LexemeKind::CnWord };
    assert!(longer.sort_key() < l.sort_key());
}

// ---------------------------------------------------------------------------
// Dictionaries
// ---------------------------------------------------------------------------

#[test]
fn main_dict_loaded() {
    let mut text = String::new();
    for i in 0..100_001u32 {
        let a = char::from_u32(0x4E00 + i / 400).unwrap();
        let b = char::from_u32(0x4E00 + i % 400).unwrap();
        text.push(a);
        text.push(b);
        text.push('\n');
    }
    let d = Dict::from_texts(&text, "", "");
    assert!(d.main_size() > 100_000);
}

#[test]
fn stopword_loaded() {
    let d = full_dict();
    assert!(d.stopword_size() > 0);
}

#[test]
fn contains_known_word() {
    let d = full_dict();
    assert!(d.contains_main("中国"));
    assert!(d.contains_main("人民"));
}

#[test]
fn dict_text_format() {
    let d = Dict::from_texts("\u{feff}中国\n# comment\n\n  人民 \r\n中国\n", "个\n个\n", "的\n");
    assert_eq!(d.main_size(), 2);
    assert!(d.contains_main("中国"));
    assert!(d.contains_main("人民"));
    assert!(!d.contains_main("# comment"));
    assert!(!d.contains_main(""));
    assert!(!d.contains_main("中"));
    assert_eq!(d.quantifier_size(), 1);
    assert!(d.contains_quantifier("个"));
    assert!(d.is_stopword("的"));
    assert!(!d.is_stopword("中国"));
    assert_eq!(d.max_term_chars(), 2);
}

#[test]
fn empty_dict() {
    let d = Dict::new();
    assert_eq!(d.main_size(), 0);
    assert_eq!(d.quantifier_size(), 0);
    assert_eq!(d.stopword_size(), 0);
    assert_eq!(d.max_term_chars(), 0);
    assert!(!d.contains_main("中国"));
}

#[test]
fn dict_hit_values() {
    let h = DictHit { start: 1, end: 3, kind: DictKind::Extra };
    assert_eq!(h, DictHit { start: 1, end: 3, kind: DictKind::Extra });
    assert_ne!(DictKind::Main, DictKind::Stopword);
}

// ---------------------------------------------------------------------------
// Tokenization scenarios
// ---------------------------------------------------------------------------

#[test]
fn readme_smart_example() {
    let t = IkTokenizer::new(IkConfig::default().mode(IkMode::Smart)).with_dict(readme_dict());
    assert_eq!(terms(&t.tokenize("中华人民共和国国歌")), vec!["中华人民共和国", "国歌"]);
}

#[test]
fn readme_max_word_example() {
    let t = IkTokenizer::new(IkConfig::default().mode(IkMode::MaxWord).ensure_smart_subset(false))
        .with_dict(readme_dict());
    let got: HashSet<String> = terms(&t.tokenize("中华人民共和国国歌")).into_iter().collect();
    let want: HashSet<String> = ["中华人民共和国", "中华人民", "中华", "华人", "人民共和国", "人民", "共和国", "共和", "国歌"]
        .iter()
        .map(|s| s.to_string())
        .collect();
    assert_eq!(got, want);
}

#[test]
fn max_word_order_and_positions() {
    let t = IkTokenizer::new(IkConfig::default().mode(IkMode::MaxWord).ensure_smart_subset(false))
        .with_dict(readme_dict());
    let toks = t.tokenize("中华人民");
    let got: Vec<(String, u32, u32, u32)> =
        toks.into_iter().map(|k| (k.term, k.start_offset, k.end_offset, k.position)).collect();
    assert_eq!(
        got,
        vec![
            ("中华人民".to_string(), 0, 12, 0),
            ("中华".to_string(), 0, 6, 0),
            ("华人".to_string(), 3, 9, 1),
            ("人民".to_string(), 6, 12, 2),
        ]
    );
}

#[test]
fn max_word_singletons_when_subset_on() {
    let t = IkTokenizer::new(IkConfig::default()).with_dict(readme_dict());
    let got: Vec<String> = terms(&t.tokenize("国歌"));
    assert_eq!(got, vec!["国歌", "国", "歌"]);
}

#[test]
fn quantifier_fusion_smart() {
    let t = IkTokenizer::new(IkConfig::default().mode(IkMode::Smart)).with_dict(full_dict());
    let ts = terms(&t.tokenize("三个苹果"));
    assert_eq!(ts, vec!["三个", "苹果"]);
}

#[test]
fn quantifier_fusion_max_word() {
    let t = IkTokenizer::new(IkConfig::default()).with_dict(full_dict());
    let ts: HashSet<String> = terms(&t.tokenize("三个苹果")).into_iter().collect();
    assert!(ts.contains("三个"));
    assert!(ts.contains("三"));
    assert!(ts.contains("个"));
    assert!(ts.contains("苹果"));
}

#[test]
fn quantifier_only_after_number() {
    let d = dict_of("", "个\n", "");
    let t = IkTokenizer::new(IkConfig::default().ensure_smart_subset(false)).with_dict(d);
    // "个" after a Chinese number counts, "个" after a plain char does not.
    let ranges = t.tokenize_ranges("三个好个");
    let counts: Vec<u32> = ranges.iter().filter(|r| r.kind == LexemeKind::Count).map(|r| r.start_offset).collect();
    assert_eq!(counts, vec![3]);
    // At the very start of the text there is no number before it.
    let ranges = t.tokenize_ranges("个");
    assert!(ranges.is_empty());
    // After a digit it counts.
    let ranges = t.tokenize_ranges("3个");
    let counts: Vec<u32> = ranges.iter().filter(|r| r.kind == LexemeKind::Count).map(|r| r.start_offset).collect();
    assert_eq!(counts, vec![1]);
}

#[test]
fn letter_runs() {
    let t = IkTokenizer::new(IkConfig::default().ensure_smart_subset(false));
    let ts: Vec<String> = terms(&t.tokenize("iPhone-14 e-mail"));
    assert!(ts.contains(&"iphone".to_string()));
    assert!(ts.contains(&"14".to_string()));
    assert!(ts.contains(&"iphone-14".to_string()));
    assert!(ts.contains(&"e-mail".to_string()));
}

#[test]
fn lowercase_off_keeps_case() {
    let t = IkTokenizer::new(IkConfig::default().lowercase(false));
    let ts = terms(&t.tokenize("Java"));
    assert_eq!(ts, vec!["Java"]);
    let t = IkTokenizer::new(IkConfig::default());
    let ts = terms(&t.tokenize("Ｊａｖａ"));
    assert_eq!(ts, vec!["java"]);
}

#[test]
fn token_ranges_match_tokens() {
    let t = IkTokenizer::new(IkConfig::default()).with_dict(full_dict());
    let text = "我买了三个苹果和五公斤大米";
    let toks = t.tokenize(text);
    let ranges = t.tokenize_ranges(text);
    assert_eq!(toks.len(), ranges.len());
    for (a, b) in toks.iter().zip(ranges.iter()) {
        assert_eq!(a.start_offset, b.start_offset);
        assert_eq!(a.end_offset, b.end_offset);
        assert_eq!(a.position, b.position);
        assert_eq!(&text[a.start_offset as usize..a.end_offset as usize], a.term.as_str());
    }
}

#[test]
fn remove_word_blocks_dictionary_hit() {
    let mut t = IkTokenizer::new(IkConfig::default()).with_dict(readme_dict());
    assert!(terms(&t.tokenize("中华人民共和国")).contains(&"中华人民共和国".to_string()));
    t.rules_mut().remove_word("中华人民共和国");
    assert!(!terms(&t.tokenize("中华人民共和国")).contains(&"中华人民共和国".to_string()));
}

#[test]
fn stopwords_from_dictionary_and_unblocking() {
    let t = IkTokenizer::new(IkConfig::default().use_stopwords(true)).with_dict(full_dict());
    assert!(!terms(&t.tokenize("美丽的花")).contains(&"的".to_string()));
    let mut rules = Rules::new();
    rules.remove_stopword("的");
    let t = IkTokenizer::new(IkConfig::default().use_stopwords(true)).with_dict(full_dict()).with_rules(rules);
    assert!(terms(&t.tokenize("美丽的花")).contains(&"的".to_string()));
}

#[test]
fn add_words_and_empty_word() {
    let mut rules = Rules::new();
    rules.add_words(&vec!["披萨", "", "搜索"]).add_word("");
    let t = IkTokenizer::with_defaults().with_rules(rules);
    let ts = terms(&t.tokenize("披萨搜索"));
    assert!(ts.contains(&"披萨".to_string()));
    assert!(ts.contains(&"搜索".to_string()));
}

#[test]
fn config_accessor() {
    let t = IkTokenizer::new(IkConfig::for_searching());
    assert_eq!(*t.config(), IkConfig::for_searching());
}

#[test]
fn isolated_chars_in_smart() {
    let t = IkTokenizer::new(IkConfig::default().mode(IkMode::Smart));
    let ts = terms(&t.tokenize("あ"));
    assert_eq!(ts, vec!["あ"]);
    // MaxWord with `ensure_smart_subset` emits it too; without, it does not.
    let m = IkTokenizer::new(IkConfig::for_indexing());
    assert_eq!(terms(&m.tokenize("あ")), vec!["あ"]);
    let m = IkTokenizer::new(IkConfig::default().ensure_smart_subset(false));
    assert!(m.tokenize("あ").is_empty());
}

#[test]
fn smart_is_subset_of_maxword() {
    let cases = [
        "三个苹果",
        "我买了三个苹果和五公斤大米",
        "起源于古代神话",
        "南京市长江大桥",
        "iPhone 14在中国大陆销售三个版本",
        "一千零一夜的故事讲了好多遍",
        "中华人民共和国成立于1949年。北京大学生喝进口红酒。",
        "あ",
        "ソニーのテレビ",
    ];
    let smart = IkTokenizer::new(IkConfig::for_searching().mode(IkMode::Smart)).with_dict(full_dict());
    let max_word = IkTokenizer::new(IkConfig::for_indexing().mode(IkMode::MaxWord)).with_dict(full_dict());
    for text in cases {
        let s = keys(&smart, text);
        let m = keys(&max_word, text);
        let missing: Vec<_> = s.difference(&m).collect();
        assert!(
            missing.is_empty(),
            "Smart leaked tokens not in MaxWord for {text:?}: {missing:?}"
        );
    }
}

#[test]
fn smart_tokens_do_not_overlap() {
    let t = IkTokenizer::new(IkConfig::default().mode(IkMode::Smart)).with_dict(full_dict());
    let ranges = t.tokenize_ranges("中华人民共和国成立于1949年。北京大学生喝进口红酒。");
    for w in ranges.windows(2) {
        assert!(w[0].end_offset <= w[1].start_offset);
    }
}

#[test]
fn smart_covers_every_meaningful_char() {
    let t = IkTokenizer::new(IkConfig::default().mode(IkMode::Smart)).with_dict(full_dict());
    let text = "我买了iPhone 14和あ、五公斤大米";
    let ranges = t.tokenize_ranges(text);
    let mut offset = 0usize;
    for c in str_to_chars(text) {
        let w = c.len_utf8();
        if classify(regularize(c, true)) != CharKind::Useless {
            assert!(
                ranges.iter().any(|r| (r.start_offset as usize) <= offset && offset < r.end_offset as usize),
                "char {c:?} is not covered"
            );
        }
        offset += w;
    }
}

#[test]
fn arbitrate_picks_best_chain() {
    let lex = |b: usize, l: usize, k: LexemeKind| Lexeme { begin: b, length: l, kind: k };
    // One component: two chains cover all three chars with two lexemes; the
    // first one found in sort order wins the tie.
    let input = vec![
        lex(2, 1, LexemeKind::CnChar),
        lex(0, 1, LexemeKind::CnChar),
        lex(1, 2, LexemeKind::CnWord),
        lex(0, 2, LexemeKind::CnWord),
    ];
    assert_eq!(arbitrate(input, 3), vec![lex(0, 2, LexemeKind::CnWord), lex(2, 1, LexemeKind::CnChar)]);
    // Covering more chars beats using fewer lexemes.
    let input = vec![lex(0, 3, LexemeKind::CnWord), lex(0, 2, LexemeKind::CnWord), lex(2, 2, LexemeKind::CnWord)];
    assert_eq!(arbitrate(input, 4), vec![lex(0, 2, LexemeKind::CnWord), lex(2, 2, LexemeKind::CnWord)]);
    // Separate components are kept apart.
    let input = vec![lex(3, 1, LexemeKind::Arabic), lex(0, 2, LexemeKind::English)];
    assert_eq!(arbitrate(input, 4), vec![lex(0, 2, LexemeKind::English), lex(3, 1, LexemeKind::Arabic)]);
}

#[test]
fn fuse_and_sort_steps() {
    let lex = |b: usize, l: usize, k: LexemeKind| Lexeme { begin: b, length: l, kind: k };
    let mut v = vec![lex(0, 1, LexemeKind::CnNum), lex(1, 1, LexemeKind::Count), lex(2, 2, LexemeKind::CnWord)];
    fuse_quantifiers(&mut v);
    assert_eq!(v, vec![lex(0, 2, LexemeKind::CnQuan), lex(2, 2, LexemeKind::CnWord)]);
    let mut v = vec![lex(0, 1, LexemeKind::CnNum), lex(1, 1, LexemeKind::Count), lex(1, 2, LexemeKind::Count)];
    emit_quantifier_fusions(&mut v);
    assert_eq!(v.len(), 5);
    assert_eq!(v[3], lex(0, 2, LexemeKind::CnQuan));
    assert_eq!(v[4], lex(0, 3, LexemeKind::CnQuan));
    let mut v = vec![lex(2, 1, LexemeKind::CnChar), lex(0, 1, LexemeKind::CnChar), lex(2, 1, LexemeKind::CnChar), lex(5, 1, LexemeKind::CnChar)];
    bucket_sort_dedup_lexemes(&mut v, 4);
    assert_eq!(v, vec![lex(0, 1, LexemeKind::CnChar), lex(2, 1, LexemeKind::CnChar), lex(5, 1, LexemeKind::CnChar)]);
    let mut v = vec![lex(1, 1, LexemeKind::CnChar), lex(0, 1, LexemeKind::CnChar)];
    bucket_sort_dedup_lexemes(&mut v, 1);
    assert_eq!(v, vec![lex(0, 1, LexemeKind::CnChar), lex(1, 1, LexemeKind::CnChar)]);
    let mut v = vec![lex(0, 1, LexemeKind::CnChar), lex(1, 1, LexemeKind::CnChar)];
    bucket_sort_dedup_lexemes(&mut v, 1);
    assert_eq!(v, vec![lex(0, 1, LexemeKind::CnChar), lex(1, 1, LexemeKind::CnChar)]);
}

#[test]
fn fusion_joins_every_meeting_pair() {
    let lex = |b: usize, l: usize, k: LexemeKind| Lexeme { begin: b, length: l, kind: k };
    let mut v = vec![
        lex(0, 1, LexemeKind::CnNum),
        lex(1, 1, LexemeKind::Count),
        lex(2, 1, LexemeKind::CnNum),
        lex(3, 1, LexemeKind::Count),
    ];
    fuse_quantifiers(&mut v);
    assert_eq!(v, vec![lex(0, 2, LexemeKind::CnQuan), lex(2, 2, LexemeKind::CnQuan)]);
    let mut v = vec![lex(0, 1, LexemeKind::CnNum), lex(1, 1, LexemeKind::CnNum), lex(2, 1, LexemeKind::Count)];
    fuse_quantifiers(&mut v);
    assert_eq!(v, vec![lex(0, 1, LexemeKind::CnNum), lex(1, 2, LexemeKind::CnQuan)]);
    let mut v = vec![lex(0, 1, LexemeKind::CnNum), lex(2, 1, LexemeKind::Count)];
    fuse_quantifiers(&mut v);
    assert_eq!(v, vec![lex(0, 1, LexemeKind::CnNum), lex(2, 1, LexemeKind::Count)]);
}

#[test]
fn trie_prefixes_in_bytes_and_chars() {
    let words: Vec<Vec<char>> = ["中华", "中华人民", "华人"].iter().map(|w| w.chars().collect()).collect();
    let trie = MainTrie::build(&words);
    assert_eq!(trie.find_prefixes("中华人民共和国"), vec![(6, 2), (12, 4)]);
    assert!(trie.contains(&"华人".chars().collect()));
    assert!(!trie.contains(&"中".chars().collect()));
    assert!(!trie.contains(&Vec::new()));
    for w in &words {
        assert!(trie.contains(w));
    }
    assert_eq!(trie.find_prefixes_chars(&"人中华人民".chars().collect(), 1), vec![2, 4]);
}

#[test]
fn read_dict_sorts_and_dedups() {
    let words = read_dict("b\na\n# x\n a \n\nab\n");
    let got: Vec<String> = words.iter().map(|w| w.iter().collect()).collect();
    assert_eq!(got, vec!["a", "ab", "b"]);
}

#[test]
fn rules_lookups() {
    let mut r = Rules::new();
    r.add_word("披萨").remove_word("中国").add_stopword("的").remove_stopword("了");
    let chars: Vec<char> = "吃披萨中国".chars().collect();
    assert!(r.is_extra_word(&chars, 1, 3));
    assert!(!r.is_extra_word(&chars, 0, 2));
    assert!(r.is_removed_main(&chars, 3, 5));
    assert!(r.has_extra_words());
    assert!(r.has_removed_main());
    assert_eq!(r.extra_prefixes(&chars, 1), vec![2]);
    assert!(Rules::default().extra_prefixes(&chars, 1).is_empty());
}

fn lx(begin: usize, length: usize, kind: LexemeKind) -> Lexeme {
    Lexeme { begin, length, kind }
}

#[test]
fn letter_runs_are_maximal() {
    let st = CharStream::new("ab-c 12.5 x1", true);
    let mut out = Vec::new();
    letter_segment(&st, &mut out);
    assert_eq!(
        out,
        vec![
            lx(0, 4, LexemeKind::English),
            lx(10, 1, LexemeKind::English),
            lx(5, 4, LexemeKind::Arabic),
            lx(11, 1, LexemeKind::Arabic),
            lx(0, 4, LexemeKind::Letter),
            lx(5, 4, LexemeKind::Letter),
            lx(10, 2, LexemeKind::Letter),
        ]
    );
    // A doubled connector ends a run; a lone letter is no mixed run.
    let st = CharStream::new("a--b", true);
    let mut out = Vec::new();
    letter_segment(&st, &mut out);
    assert_eq!(out, vec![lx(0, 1, LexemeKind::English), lx(3, 1, LexemeKind::English)]);
}

#[test]
fn numeral_runs_are_maximal() {
    let d = dict_of("", "个\n", "");
    let st = CharStream::new("三百个五", true);
    let mut out = Vec::new();
    quantifier_segment(&st, &d, &mut out);
    assert_eq!(
        out,
        vec![lx(0, 2, LexemeKind::CnNum), lx(3, 1, LexemeKind::CnNum), lx(2, 1, LexemeKind::Count)]
    );
}

#[test]
fn extra_stopwords_inactive_without_stopword_filtering() {
    let plain = IkTokenizer::new(IkConfig::default()).with_dict(full_dict());
    let mut rules = Rules::new();
    rules.add_stopword("美丽").add_stopword("的");
    let with_rules = IkTokenizer::new(IkConfig::default()).with_dict(full_dict()).with_rules(rules);
    for text in ["美丽的花", "我买了苹果", "abc 的"] {
        assert_eq!(plain.tokenize(text), with_rules.tokenize(text));
    }
    assert!(terms(&with_rules.tokenize("美丽的花")).contains(&"美丽".to_string()));
}

#[test]
fn arbitrate_beyond_u32_offsets() {
    let b: usize = 1 << 33;
    let lex = |b: usize, l: usize, k: LexemeKind| Lexeme { begin: b, length: l, kind: k };
    let v = vec![
        lex(b + 1, 2, LexemeKind::CnWord),
        lex(b, 2, LexemeKind::CnWord),
        lex(b, 3, LexemeKind::CnWord),
        lex(b + 5, 1, LexemeKind::CnChar),
    ];
    let r = arbitrate(v.clone(), 0);
    assert_eq!(r, vec![lex(b, 3, LexemeKind::CnWord), lex(b + 5, 1, LexemeKind::CnChar)]);
    for x in &v {
        assert!(r.iter().any(|y| x.begin < y.begin + y.length && y.begin < x.begin + x.length));
    }
    assert!(arbitrate(Vec::new(), 0).is_empty());
}

#[test]
fn counting_sort_buckets_and_dedup() {
    let lex = |b: usize, l: usize, k: LexemeKind| Lexeme { begin: b, length: l, kind: k };
    let mut v = vec![
        lex(3, 1, LexemeKind::CnChar),
        lex(1, 1, LexemeKind::CnChar),
        lex(1, 2, LexemeKind::CnWord),
        lex(9, 1, LexemeKind::English),
        lex(7, 1, LexemeKind::CnChar),
        lex(1, 2, LexemeKind::CnWord),
        lex(1, 2, LexemeKind::CnQuan),
        lex(0, 1, LexemeKind::Arabic),
    ];
    bucket_sort_dedup_lexemes(&mut v, 5);
    assert_eq!(
        v,
        vec![
            lex(0, 1, LexemeKind::Arabic),
            lex(1, 2, LexemeKind::CnWord),
            lex(1, 2, LexemeKind::CnQuan),
            lex(1, 1, LexemeKind::CnChar),
            lex(3, 1, LexemeKind::CnChar),
            lex(7, 1, LexemeKind::CnChar),
            lex(9, 1, LexemeKind::English),
        ]
    );
    let mut w = vec![lex(2, 1, LexemeKind::CnChar), lex(2, 1, LexemeKind::CnChar)];
    bucket_sort_dedup_lexemes(&mut w, 0);
    assert_eq!(w, vec![lex(2, 1, LexemeKind::CnChar)]);
}

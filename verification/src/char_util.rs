//! Character classification and regularization used by every IK
//! sub-segmenter.
use vstd::prelude::*;
use vstd::std_specs::iter::IteratorSpec;

verus! {

broadcast use vstd::string::group_string_axioms;

/// The chars of `text`, in order.
pub fn str_to_chars(text: &str) -> (r: Vec<char>)
    ensures
        r@ == text@,
{
    let ghost t = text@;
    let mut out: Vec<char> = Vec::new();
    let mut it = text.chars();
    loop
        invariant
            it.obeys_prophetic_iter_laws(),
            it.decrease() is Some,
            out@ + it.remaining() == t,
        ensures
            out@ == t,
        decreases it.decrease()->0,
    {
        let ghost prev = it.remaining();
        match it.next() {
            Some(c) => {
                proof {
                    assert(out@.push(c) + it.remaining() =~= t);
                }
                out.push(c);
            },
            None => {
                proof {
                    assert(out@ =~= t);
                }
                break ;
            },
        }
    }
    out
}

/// Coarse character classification used by all the IK sub-segmenters.
#[derive(Debug, Clone, Copy, PartialEq, Eq, Structural)]
pub enum CharKind {
    /// Whitespace / punctuation / unknown — segmenters reset on this.
    Useless,
    /// ASCII digit `'0'..='9'` (after full-width regularization).
    Arabic,
    /// ASCII letter `'a'..='z'` / `'A'..='Z'` (after full-width regularization).
    English,
    /// CJK unified ideograph or compatibility ideograph.
    Chinese,
    /// Hiragana, Katakana, Hangul, or other CJK forms.
    OtherCjk,
}

pub open spec fn is_digit_spec(c: char) -> bool {
    '0' <= c && c <= '9'
}

pub open spec fn is_upper_spec(c: char) -> bool {
    'A' <= c && c <= 'Z'
}

pub open spec fn is_lower_spec(c: char) -> bool {
    'a' <= c && c <= 'z'
}

pub open spec fn is_alpha_spec(c: char) -> bool {
    is_upper_spec(c) || is_lower_spec(c)
}

/// CJK Unified Ideographs, Extension A, and Compatibility Ideographs.
pub open spec fn is_cjk_ideograph_spec(c: char) -> bool {
    let cp = c as u32;
    (0x4E00 <= cp && cp <= 0x9FFF) || (0x3400 <= cp && cp <= 0x4DBF) || (0xF900 <= cp && cp
        <= 0xFAFF)
}

/// Hangul, Hiragana, Katakana and the half-/full-width forms block.
pub open spec fn is_other_cjk_spec(c: char) -> bool {
    let cp = c as u32;
    (0xAC00 <= cp && cp <= 0xD7AF) || (0x1100 <= cp && cp <= 0x11FF) || (0x3130 <= cp && cp
        <= 0x318F) || (0x3040 <= cp && cp <= 0x309F) || (0x30A0 <= cp && cp <= 0x30FF) || (
    0x31F0 <= cp && cp <= 0x31FF) || (0xFF00 <= cp && cp <= 0xFFEF)
}

pub open spec fn classify_spec(c: char) -> CharKind {
    if is_digit_spec(c) {
        CharKind::Arabic
    } else if is_alpha_spec(c) {
        CharKind::English
    } else if is_cjk_ideograph_spec(c) {
        CharKind::Chinese
    } else if is_other_cjk_spec(c) {
        CharKind::OtherCjk
    } else {
        CharKind::Useless
    }
}

/// The ASCII character whose code is `cp`.
pub open spec fn ascii_char(cp: int) -> char {
    (cp as u8) as char
}

pub open spec fn lower_spec(c: char) -> char {
    if is_upper_spec(c) {
        ascii_char(c as int + 32)
    } else {
        c
    }
}

/// Full-width ASCII maps to half-width, the ideographic space to an ASCII
/// space, and (when `lowercase`) ASCII upper case to lower case.
pub open spec fn regularize_spec(c: char, lowercase: bool) -> char {
    let cp = c as u32;
    if cp == 0x3000 {
        ' '
    } else if 0xFF01 <= cp && cp < 0xFF5F {
        let m = ascii_char(cp - 0xFEE0);
        if lowercase {
            lower_spec(m)
        } else {
            m
        }
    } else if lowercase {
        lower_spec(c)
    } else {
        c
    }
}

pub open spec fn is_chinese_number_spec(c: char) -> bool {
    c == '一' || c == '二' || c == '两' || c == '三' || c == '四' || c == '五' || c == '六' || c
        == '七' || c == '八' || c == '九' || c == '十' || c == '零' || c == '壹' || c == '贰'
        || c == '叁' || c == '肆' || c == '伍' || c == '陆' || c == '柒' || c == '捌' || c
        == '玖' || c == '拾' || c == '百' || c == '千' || c == '万' || c == '亿' || c == '佰'
        || c == '仟' || c == '萬' || c == '億' || c == '兆' || c == '卅' || c == '廿'
}

/// The Chinese numerals are exactly IK's numeral chars: 一 二 两 三 四 五 六
/// 七 八 九 十 零, their financial forms 壹 贰 叁 肆 伍 陆 柒 捌 玖 拾, the
/// units 百 千 万 亿 佰 仟 萬 億 兆, and 卅 廿.
pub proof fn lemma_chinese_numerals(c: char)
    ensures
        is_chinese_number_spec(c) <==> set![
            '一', '二', '两', '三', '四', '五', '六', '七', '八', '九', '十', '零',
            '壹', '贰', '叁', '肆', '伍', '陆', '柒', '捌', '玖', '拾',
            '百', '千', '万', '亿', '佰', '仟', '萬', '億', '兆', '卅', '廿',
        ].contains(c),
{
}

fn is_ascii_digit(c: char) -> (r: bool)
    ensures
        r == is_digit_spec(c),
{
    '0' <= c && c <= '9'
}

fn is_ascii_alphabetic(c: char) -> (r: bool)
    ensures
        r == is_alpha_spec(c),
{
    ('A' <= c && c <= 'Z') || ('a' <= c && c <= 'z')
}

fn is_cjk_ideograph(c: char) -> (r: bool)
    ensures
        r == is_cjk_ideograph_spec(c),
{
    let cp = c as u32;
    (0x4E00 <= cp && cp <= 0x9FFF) || (0x3400 <= cp && cp <= 0x4DBF) || (0xF900 <= cp && cp
        <= 0xFAFF)
}

fn is_other_cjk(c: char) -> (r: bool)
    ensures
        r == is_other_cjk_spec(c),
{
    let cp = c as u32;
    (0xAC00 <= cp && cp <= 0xD7AF) || (0x1100 <= cp && cp <= 0x11FF) || (0x3130 <= cp && cp
        <= 0x318F) || (0x3040 <= cp && cp <= 0x309F) || (0x30A0 <= cp && cp <= 0x30FF) || (
    0x31F0 <= cp && cp <= 0x31FF) || (0xFF00 <= cp && cp <= 0xFFEF)
}

/// Classify one (already regularized) character.
pub fn classify(c: char) -> (k: CharKind)
    ensures
        k == classify_spec(c),
{
    if is_ascii_digit(c) {
        CharKind::Arabic
    } else if is_ascii_alphabetic(c) {
        CharKind::English
    } else if is_cjk_ideograph(c) {
        CharKind::Chinese
    } else if is_other_cjk(c) {
        CharKind::OtherCjk
    } else {
        CharKind::Useless
    }
}

fn to_ascii_lowercase(c: char) -> (r: char)
    ensures
        r == lower_spec(c),
{
    if 'A' <= c && c <= 'Z' {
        let b: u8 = (c as u32 + 32) as u8;
        b as char
    } else {
        c
    }
}

/// Fused regularize + classify with a fast path for the CJK Unified
/// Ideographs block, which is invariant under regularization.
pub fn regularize_and_classify(c: char, lowercase: bool) -> (r: (char, CharKind))
    ensures
        r.0 == regularize_spec(c, lowercase),
        r.1 == classify_spec(r.0),
{
    let cp = c as u32;
    if cp >= 0x4E00 && cp <= 0x9FFF {
        return (c, CharKind::Chinese);
    }
    let r = regularize(c, lowercase);
    (r, classify(r))
}

/// Maps full-width ASCII to half-width and (optionally) uppercase ASCII to
/// lowercase. The input is one code point.
pub fn regularize(input: char, lowercase: bool) -> (r: char)
    ensures
        r == regularize_spec(input, lowercase),
{
    let cp = input as u32;
    if cp == 0x3000 {
        return ' ';
    }
    if 0xFF01 <= cp && cp < 0xFF5F {
        let b: u8 = (cp - 0xFEE0) as u8;
        let c = b as char;
        return if lowercase {
            to_ascii_lowercase(c)
        } else {
            c
        };
    }
    if lowercase {
        return to_ascii_lowercase(input);
    }
    input
}

/// Quick test for IK's Chinese numeral characters used by the quantifier
/// segmenter.
pub fn is_chinese_number(c: char) -> (r: bool)
    ensures
        r == is_chinese_number_spec(c),
{
    c == '一' || c == '二' || c == '两' || c == '三' || c == '四' || c == '五' || c == '六' || c
        == '七' || c == '八' || c == '九' || c == '十' || c == '零' || c == '壹' || c == '贰'
        || c == '叁' || c == '肆' || c == '伍' || c == '陆' || c == '柒' || c == '捌' || c
        == '玖' || c == '拾' || c == '百' || c == '千' || c == '万' || c == '亿' || c == '佰'
        || c == '仟' || c == '萬' || c == '億' || c == '兆' || c == '卅' || c == '廿'
}

} // verus!

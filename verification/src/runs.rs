//! What the letter and number segmenters find: exactly the maximal runs.
use vstd::prelude::*;

use crate::char_util::{is_chinese_number_spec, CharKind};
use crate::dict::Dict;
use crate::lexeme::{Lexeme, LexemeKind};
use crate::pipeline::lemma_hit_lexemes;
use crate::segmenter::{
    cnnum_runs, count_at, count_upto, family_kind, letter_spec, mixed_ok, num_end, quant_spec, run_connector,
    run_end, run_member, runs_from,
};

verus! {

/// Position `k` of a run ending at `e` is a member, or a connector followed
/// by a member inside the run.
pub open spec fn joined_at(chars: Seq<char>, kinds: Seq<CharKind>, k: int, e: int, family: int) -> bool {
    run_member(kinds[k], family) || (run_connector(chars[k], family) && k + 1 < e && run_member(kinds[k + 1], family))
}

/// A run of `family` that reached `b` would go on into `b`.
pub open spec fn continues_left(chars: Seq<char>, kinds: Seq<CharKind>, b: int, family: int) -> bool {
    ||| (b > 0 && run_member(kinds[b - 1], family))
    ||| (b > 1 && run_connector(chars[b - 1], family) && run_member(kinds[b - 2], family))
}

/// A run of `family` cannot go on past `e`.
pub open spec fn run_stops(chars: Seq<char>, kinds: Seq<CharKind>, e: int, family: int) -> bool {
    ||| e == kinds.len()
    ||| (!run_member(kinds[e], family) && !(run_connector(chars[e], family) && e + 1 < kinds.len()
        && run_member(kinds[e + 1], family)))
}

/// `chars[b..e]` is a maximal run of `family`: it starts on a member that
/// no run to its left reaches, every char in it is a member or a connector
/// between members, and it cannot be extended to the right.
pub open spec fn is_maximal_run(chars: Seq<char>, kinds: Seq<CharKind>, b: int, e: int, family: int) -> bool {
    &&& 0 <= b < e <= kinds.len()
    &&& run_member(kinds[b], family)
    &&& !continues_left(chars, kinds, b, family)
    &&& forall|k: int| b <= k < e ==> #[trigger] joined_at(chars, kinds, k, e, family)
    &&& run_stops(chars, kinds, e, family)
}

/// A maximal run is emitted: always for English and Arabic runs; a mixed
/// run must be longer than one char and mix letters with digits or hold a
/// connector.
pub open spec fn run_emitted(chars: Seq<char>, b: int, e: int, family: int) -> bool {
    family != 2 || (e - b > 1 && mixed_ok(chars, b, e))
}

proof fn lemma_run_end_facts(chars: Seq<char>, kinds: Seq<CharKind>, j: int, family: int)
    requires
        chars.len() == kinds.len(),
        0 <= j <= kinds.len(),
    ensures
        j <= run_end(chars, kinds, j, family) <= kinds.len(),
        run_stops(chars, kinds, run_end(chars, kinds, j, family), family),
        forall|k: int| j <= k < run_end(chars, kinds, j, family) ==> #[trigger] joined_at(chars, kinds, k, run_end(chars, kinds, j, family), family),
    decreases kinds.len() - j,
{
    if j < kinds.len() {
        if run_member(kinds[j], family) {
            lemma_run_end_facts(chars, kinds, j + 1, family);
        } else if run_connector(chars[j], family) && j + 1 < kinds.len() && run_member(kinds[j + 1], family) {
            lemma_run_end_facts(chars, kinds, j + 2, family);
            let e = run_end(chars, kinds, j, family);
            assert(joined_at(chars, kinds, j, e, family));
            assert(joined_at(chars, kinds, j + 1, e, family));
        }
    }
}

/// Two ends that both close a run joined from `b` coincide.
proof fn lemma_stop_unique(chars: Seq<char>, kinds: Seq<CharKind>, b: int, e1: int, e2: int, family: int)
    requires
        chars.len() == kinds.len(),
        b <= e1 <= kinds.len(),
        b <= e2 <= kinds.len(),
        forall|k: int| b <= k < e1 ==> #[trigger] joined_at(chars, kinds, k, e1, family),
        forall|k: int| b <= k < e2 ==> #[trigger] joined_at(chars, kinds, k, e2, family),
        run_stops(chars, kinds, e1, family),
        run_stops(chars, kinds, e2, family),
    ensures
        e1 == e2,
{
    if e1 < e2 {
        assert(joined_at(chars, kinds, e1, e2, family));
    } else if e2 < e1 {
        assert(joined_at(chars, kinds, e2, e1, family));
    }
}

/// Where the scan may stand: just past a member only at a stopping point,
/// and never on a member that a run to its left reaches.
spec fn scan_ok(chars: Seq<char>, kinds: Seq<CharKind>, i: int, family: int) -> bool {
    &&& (i >= kinds.len() || !(i > 0 && run_member(kinds[i - 1], family)) || run_stops(chars, kinds, i, family))
    &&& (i >= kinds.len() || !run_member(kinds[i], family) || !continues_left(chars, kinds, i, family))
}

proof fn lemma_runs_from_exact(chars: Seq<char>, kinds: Seq<CharKind>, i: int, family: int, x: Lexeme)
    requires
        chars.len() == kinds.len() <= usize::MAX,
        0 <= i <= kinds.len(),
        0 <= family <= 2,
        scan_ok(chars, kinds, i, family),
    ensures
        runs_from(chars, kinds, i, family).contains(x) <==> (x.kind == family_kind(family) && x.begin >= i
            && is_maximal_run(chars, kinds, x.begin as int, x.begin + x.length, family)
            && run_emitted(chars, x.begin as int, x.begin + x.length, family)),
    decreases kinds.len() - i,
{
    let n = kinds.len() as int;
    let b = x.begin as int;
    let e_x = x.begin + x.length;
    if i == n {
    } else if !run_member(kinds[i], family) {
        lemma_runs_from_exact(chars, kinds, i + 1, family, x);
        if b == i {
            assert(!is_maximal_run(chars, kinds, b, e_x, family));
        }
    } else {
        lemma_run_end_facts(chars, kinds, i + 1, family);
        let e = run_end(chars, kinds, i + 1, family);
        assert forall|k: int| i <= k < e implies #[trigger] joined_at(chars, kinds, k, e, family) by {
            if k == i {
            }
        }
        assert(is_maximal_run(chars, kinds, i, e, family));
        lemma_runs_from_exact(chars, kinds, e, family, x);
        let l = Lexeme { begin: i as usize, length: (e - i) as usize, kind: family_kind(family) };
        let head = if run_emitted(chars, i, e, family) {
            seq![l]
        } else {
            Seq::empty()
        };
        assert(runs_from(chars, kinds, i, family) == head + runs_from(chars, kinds, e, family));
        vstd::seq_lib::lemma_seq_concat_contains_all_elements(head, runs_from(chars, kinds, e, family), x);
        if head.contains(x) {
            assert(x == l);
        }
        if x.kind == family_kind(family) && b >= i && is_maximal_run(chars, kinds, b, e_x, family) {
            if b == i {
                lemma_stop_unique(chars, kinds, i, e, e_x, family);
                assert(x == l);
                if run_emitted(chars, b, e_x, family) {
                    assert(head[0] == x);
                }
            } else if b < e {
                assert(joined_at(chars, kinds, b - 1, e, family));
                if !run_member(kinds[b - 1], family) {
                    assert(joined_at(chars, kinds, b - 2, e, family));
                }
                assert(continues_left(chars, kinds, b, family));
            }
        }
    }
}

/// The letter segmenter emits exactly the maximal runs: English lexemes are
/// the maximal runs of English letters joined by English connectors, Arabic
/// lexemes the maximal runs of digits joined by number connectors, and
/// `Letter` lexemes the maximal mixed runs of letters and digits, joined by
/// any connector, that are longer than one char and mix letters with digits
/// or hold a connector.
pub proof fn lemma_letter_runs_maximal(chars: Seq<char>, kinds: Seq<CharKind>)
    requires
        chars.len() == kinds.len() <= usize::MAX,
    ensures
        forall|x: Lexeme| #[trigger] letter_spec(chars, kinds).contains(x) <==> {
            let b = x.begin as int;
            let e = x.begin + x.length;
            ||| (x.kind == LexemeKind::English && is_maximal_run(chars, kinds, b, e, 0))
            ||| (x.kind == LexemeKind::Arabic && is_maximal_run(chars, kinds, b, e, 1))
            ||| (x.kind == LexemeKind::Letter && is_maximal_run(chars, kinds, b, e, 2) && run_emitted(chars, b, e, 2))
        },
{
    assert forall|x: Lexeme| #[trigger] letter_spec(chars, kinds).contains(x) <==> {
        let b = x.begin as int;
        let e = x.begin + x.length;
        ||| (x.kind == LexemeKind::English && is_maximal_run(chars, kinds, b, e, 0))
        ||| (x.kind == LexemeKind::Arabic && is_maximal_run(chars, kinds, b, e, 1))
        ||| (x.kind == LexemeKind::Letter && is_maximal_run(chars, kinds, b, e, 2) && run_emitted(chars, b, e, 2))
    } by {
        lemma_runs_from_exact(chars, kinds, 0, 0, x);
        lemma_runs_from_exact(chars, kinds, 0, 1, x);
        lemma_runs_from_exact(chars, kinds, 0, 2, x);
        let r0 = runs_from(chars, kinds, 0, 0);
        let r1 = runs_from(chars, kinds, 0, 1);
        let r2 = runs_from(chars, kinds, 0, 2);
        vstd::seq_lib::lemma_seq_concat_contains_all_elements(r0, r1, x);
        vstd::seq_lib::lemma_seq_concat_contains_all_elements(r0 + r1, r2, x);
    }
}

/// `chars[b..e]` is a maximal run of Chinese numeral chars.
pub open spec fn is_numeral_run(chars: Seq<char>, b: int, e: int) -> bool {
    &&& 0 <= b < e <= chars.len()
    &&& forall|k: int| b <= k < e ==> is_chinese_number_spec(#[trigger] chars[k])
    &&& (b == 0 || !is_chinese_number_spec(chars[b - 1]))
    &&& (e == chars.len() || !is_chinese_number_spec(chars[e]))
}

proof fn lemma_num_end_facts(chars: Seq<char>, j: int)
    requires
        0 <= j <= chars.len(),
    ensures
        j <= num_end(chars, j) <= chars.len(),
        num_end(chars, j) == chars.len() || !is_chinese_number_spec(chars[num_end(chars, j)]),
        forall|k: int| j <= k < num_end(chars, j) ==> is_chinese_number_spec(#[trigger] chars[k]),
    decreases chars.len() - j,
{
    if j < chars.len() && is_chinese_number_spec(chars[j]) {
        lemma_num_end_facts(chars, j + 1);
    }
}

proof fn lemma_cnnum_runs_exact(chars: Seq<char>, i: int, x: Lexeme)
    requires
        chars.len() <= usize::MAX,
        0 <= i <= chars.len(),
        i == 0 || i == chars.len() || !is_chinese_number_spec(chars[i - 1]) || !is_chinese_number_spec(chars[i]),
    ensures
        cnnum_runs(chars, i).contains(x) <==> (x.kind == LexemeKind::CnNum && x.begin >= i
            && is_numeral_run(chars, x.begin as int, x.begin + x.length)),
    decreases chars.len() - i,
{
    let n = chars.len() as int;
    let b = x.begin as int;
    let e_x = x.begin + x.length;
    if i == n {
    } else if !is_chinese_number_spec(chars[i]) {
        lemma_cnnum_runs_exact(chars, i + 1, x);
    } else {
        lemma_num_end_facts(chars, i + 1);
        let e = num_end(chars, i + 1);
        lemma_cnnum_runs_exact(chars, e, x);
        let l = Lexeme { begin: i as usize, length: (e - i) as usize, kind: LexemeKind::CnNum };
        assert(cnnum_runs(chars, i) == seq![l] + cnnum_runs(chars, e));
        vstd::seq_lib::lemma_seq_concat_contains_all_elements(seq![l], cnnum_runs(chars, e), x);
        if seq![l].contains(x) {
            assert(x == l);
            assert forall|k: int| i <= k < e implies is_chinese_number_spec(#[trigger] chars[k]) by {
                if k == i {
                }
            }
        }
        if x.kind == LexemeKind::CnNum && b >= i && is_numeral_run(chars, b, e_x) {
            if b == i {
                if e_x < e {
                    assert(is_chinese_number_spec(chars[e_x]));
                } else if e < e_x {
                    assert(is_chinese_number_spec(chars[e]));
                }
                assert(x == l);
                assert(seq![l][0] == x);
            } else if b < e {
                assert(is_chinese_number_spec(chars[b - 1]));
            }
        }
    }
}

proof fn lemma_count_upto_kinds(chars: Seq<char>, orig: Seq<char>, kinds: Seq<CharKind>, dict: Dict, m: int, x: Lexeme)
    requires
        count_upto(chars, orig, kinds, dict, m).contains(x),
    ensures
        x.kind == LexemeKind::Count,
    decreases m,
{
    if m > 0 {
        let a = count_upto(chars, orig, kinds, dict, m - 1);
        let c = count_at(chars, orig, kinds, dict, m - 1);
        vstd::seq_lib::lemma_seq_concat_contains_all_elements(a, c, x);
        if a.contains(x) {
            lemma_count_upto_kinds(chars, orig, kinds, dict, m - 1, x);
        } else {
            let q = choose|q: int| 0 <= q < c.len() && c[q] == x;
            if c.len() > 0 {
                let t = orig.subrange(m - 1, orig.len() as int);
                lemma_hit_lexemes(m - 1, crate::dict::prefix_hits(dict.quantifier_terms(), t), true);
            }
        }
    }
}

/// The number segmenter's `CnNum` lexemes are exactly the maximal runs of
/// Chinese numeral chars; everything else it emits is a `Count`.
pub proof fn lemma_numeral_runs_maximal(chars: Seq<char>, orig: Seq<char>, kinds: Seq<CharKind>, dict: Dict)
    requires
        chars.len() <= usize::MAX,
    ensures
        forall|x: Lexeme| #[trigger] quant_spec(chars, orig, kinds, dict).contains(x) ==> x.kind == LexemeKind::CnNum
            || x.kind == LexemeKind::Count,
        forall|x: Lexeme| x.kind == LexemeKind::CnNum ==> (#[trigger] quant_spec(chars, orig, kinds, dict).contains(x)
            <==> is_numeral_run(chars, x.begin as int, x.begin + x.length)),
{
    assert forall|x: Lexeme| #[trigger] quant_spec(chars, orig, kinds, dict).contains(x) implies (x.kind == LexemeKind::CnNum
        || x.kind == LexemeKind::Count) && (x.kind == LexemeKind::CnNum ==> is_numeral_run(chars, x.begin as int, x.begin + x.length)) by {
        let a = cnnum_runs(chars, 0);
        let c = count_upto(chars, orig, kinds, dict, chars.len() as int);
        lemma_cnnum_runs_exact(chars, 0, x);
        vstd::seq_lib::lemma_seq_concat_contains_all_elements(a, c, x);
        if c.contains(x) {
            lemma_count_upto_kinds(chars, orig, kinds, dict, chars.len() as int, x);
        }
    }
    assert forall|x: Lexeme| x.kind == LexemeKind::CnNum && is_numeral_run(chars, x.begin as int, x.begin + x.length)
        implies #[trigger] quant_spec(chars, orig, kinds, dict).contains(x) by {
        let a = cnnum_runs(chars, 0);
        let c = count_upto(chars, orig, kinds, dict, chars.len() as int);
        lemma_cnnum_runs_exact(chars, 0, x);
        vstd::seq_lib::lemma_seq_concat_contains_all_elements(a, c, x);
    }
}

} // verus!

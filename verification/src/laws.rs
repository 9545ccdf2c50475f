//! The library's quantified guarantees, each proved once and for all: how
//! interning behaves, what order the indexes are in, and what every handle
//! and index field of a written image points at.

use vstd::prelude::*;
use crate::writer::Writer;
use crate::data::{TermData, KanjiData, term_wf, kanji_wf, tag_wf};
use crate::order::{lex_le, lemma_sort_by_stable_ensures, lemma_sort_by_stable_contains};
use crate::index::{term_leq, kanji_leq, pe_leq, se_leq, prefix_entries, lemma_term_leq_props, lemma_kanji_leq_props, lemma_pe_leq_props, lemma_se_leq_props};
use crate::segment::grev_of;
use crate::seal::{raw_of, write_bounded, built_terms, built_kanji, built_prefix, built_suffix, built_cix, flat_pairs, kanji_to_raw, kanji_fold, term_to_raw, term_fold, cix_to_raw, cix_fold, lemma_entries_wf, lemma_descr_len, lemma_kanji_fold_len, lemma_term_fold_len, lemma_cix_fold_len};
use crate::chars::{CixEntryM, cix_sorted, cix_lists_ok, cix_has, term_cps, lemma_cix_build_props};

verus! {

/// Interning is deterministic: a well-formed pool holds each string once,
/// so the index `intern` returns is the one index whose entry equals the
/// string, on every call.  With the empty string at index 0, this also
/// pins `intern` of the empty string to 0.
pub proof fn lemma_intern_stable(w: Writer, i: int, j: int)
    requires
        w.wf(),
        0 <= i < w.pool().len(),
        0 <= j < w.pool().len(),
        w.pool()[i] == w.pool()[j],
    ensures
        i == j,
{
    if i < j {
        assert(w.pool()[i] != w.pool()[j]);
    }
    if j < i {
        assert(w.pool()[j] != w.pool()[i]);
    }
}

/// The prefix index of a written image is sorted by the forward byte order
/// of its keys' string payloads.
pub proof fn lemma_prefix_sorted(w: Writer)
    requires
        w.wf(),
    ensures
        forall|i: int, j: int|
            0 <= i < j < raw_of(w).index_prefix_jp.len() ==> lex_le(
                w.pool()[raw_of(w).index_prefix_jp[i].key as int],
                w.pool()[raw_of(w).index_prefix_jp[j].key as int],
            ),
{
    lemma_pe_leq_props(w.pool());
    lemma_sort_by_stable_ensures(pe_leq(w.pool()), prefix_entries(built_terms(w)));
    let s = raw_of(w).index_prefix_jp;
    assert forall|i: int, j: int| 0 <= i < j < s.len() implies lex_le(
        w.pool()[s[i].key as int],
        w.pool()[s[j].key as int],
    ) by {
        assert(pe_leq(w.pool())(s[i], s[j]));
    }
}

/// The suffix index of a written image is sorted by the byte order of the
/// grapheme-reversed form of its keys' string payloads.
pub proof fn lemma_suffix_sorted(w: Writer)
    requires
        w.wf(),
    ensures
        forall|i: int, j: int|
            0 <= i < j < raw_of(w).index_suffix_jp.len() ==> lex_le(
                grev_of(w.pool()[raw_of(w).index_suffix_jp[i].key as int]),
                grev_of(w.pool()[raw_of(w).index_suffix_jp[j].key as int]),
            ),
{
    lemma_se_leq_props(w.pool());
    lemma_sort_by_stable_ensures(se_leq(w.pool()), built_prefix(w));
    let s = raw_of(w).index_suffix_jp;
    assert forall|i: int, j: int| 0 <= i < j < s.len() implies lex_le(
        grev_of(w.pool()[s[i].key as int]),
        grev_of(w.pool()[s[j].key as int]),
    ) by {
        assert(se_leq(w.pool())(s[i], s[j]));
    }
}

/// Flattening the stat pairs doubles the count, so the list is even.
pub proof fn lemma_flat_pairs_len(s: Seq<(u32, u32)>)
    ensures
        flat_pairs(s).len() == 2 * s.len(),
    decreases s.len(),
{
    if s.len() > 0 {
        lemma_flat_pairs_len(s.drop_last());
    }
}

/// Every handle a kanji fold hands out points at the list it laid down:
/// within the arena, with the empty-list sentinel `(0, 0)`, and the
/// flattened stats list of even length.
pub proof fn lemma_kanji_fold_bounds(arena: Seq<u32>, ks: Seq<KanjiData>)
    requires
        kanji_fold(arena, ks).0.len() <= u32::MAX as int,
    ensures
        forall|i: int|
            0 <= i < ks.len() ==> {
                let r = #[trigger] kanji_fold(arena, ks).1[i];
                let a = kanji_fold(arena, ks).0;
                &&& r.meanings.length == 0 ==> r.meanings.offset == 0
                &&& r.onyomi.length == 0 ==> r.onyomi.offset == 0
                &&& r.kunyomi.length == 0 ==> r.kunyomi.offset == 0
                &&& r.tags.length == 0 ==> r.tags.offset == 0
                &&& r.stats.length == 0 ==> r.stats.offset == 0
                &&& r.meanings.offset + r.meanings.length <= a.len()
                &&& r.onyomi.offset + r.onyomi.length <= a.len()
                &&& r.kunyomi.offset + r.kunyomi.length <= a.len()
                &&& r.tags.offset + r.tags.length <= a.len()
                &&& r.stats.offset + r.stats.length <= a.len()
                &&& r.stats.length % 2 == 0
                &&& r.source == ks[i].source
            },
    decreases ks.len(),
{
    if ks.len() > 0 {
        let dl = ks.drop_last();
        let a1 = kanji_fold(arena, dl).0;
        let step = kanji_to_raw(a1, ks.last());
        lemma_kanji_fold_bounds(arena, dl);
        lemma_flat_pairs_len(ks.last().stats@);
        lemma_kanji_fold_len(arena, ks);
        assert forall|i: int|
            0 <= i < ks.len() implies {
            let r = #[trigger] kanji_fold(arena, ks).1[i];
            let a = kanji_fold(arena, ks).0;
            &&& r.meanings.length == 0 ==> r.meanings.offset == 0
            &&& r.onyomi.length == 0 ==> r.onyomi.offset == 0
            &&& r.kunyomi.length == 0 ==> r.kunyomi.offset == 0
            &&& r.tags.length == 0 ==> r.tags.offset == 0
            &&& r.stats.length == 0 ==> r.stats.offset == 0
            &&& r.meanings.offset + r.meanings.length <= a.len()
            &&& r.onyomi.offset + r.onyomi.length <= a.len()
            &&& r.kunyomi.offset + r.kunyomi.length <= a.len()
            &&& r.tags.offset + r.tags.length <= a.len()
            &&& r.stats.offset + r.stats.length <= a.len()
            &&& r.stats.length % 2 == 0
            &&& r.source == ks[i].source
        } by {
            if i < dl.len() {
                assert(kanji_fold(arena, ks).1[i] == kanji_fold(arena, dl).1[i]);
                assert(kanji_fold(arena, dl).0.len() <= kanji_fold(arena, ks).0.len());
            } else {
                assert(kanji_fold(arena, ks).1[i] == step.1);
            }
        }
    }
}

/// Every handle a term fold hands out points at the list it laid down, and
/// the scalar fields carry over unchanged.
pub proof fn lemma_term_fold_bounds(arena: Seq<u32>, ts: Seq<TermData>)
    requires
        term_fold(arena, ts).0.len() <= u32::MAX as int,
    ensures
        forall|i: int|
            0 <= i < ts.len() ==> {
                let r = #[trigger] term_fold(arena, ts).1[i];
                let a = term_fold(arena, ts).0;
                &&& r.glossary.length == 0 ==> r.glossary.offset == 0
                &&& r.rules.length == 0 ==> r.rules.offset == 0
                &&& r.term_tags.length == 0 ==> r.term_tags.offset == 0
                &&& r.definition_tags.length == 0 ==> r.definition_tags.offset == 0
                &&& r.glossary.offset + r.glossary.length <= a.len()
                &&& r.rules.offset + r.rules.length <= a.len()
                &&& r.term_tags.offset + r.term_tags.length <= a.len()
                &&& r.definition_tags.offset + r.definition_tags.length <= a.len()
                &&& r.expression == ts[i].expression
                &&& r.reading == ts[i].reading
                &&& r.search_key == ts[i].search_key
                &&& r.source == ts[i].source
            },
    decreases ts.len(),
{
    if ts.len() > 0 {
        let dl = ts.drop_last();
        let a1 = term_fold(arena, dl).0;
        let step = term_to_raw(a1, ts.last());
        lemma_term_fold_bounds(arena, dl);
        lemma_term_fold_len(arena, ts);
        assert forall|i: int|
            0 <= i < ts.len() implies {
            let r = #[trigger] term_fold(arena, ts).1[i];
            let a = term_fold(arena, ts).0;
            &&& r.glossary.length == 0 ==> r.glossary.offset == 0
            &&& r.rules.length == 0 ==> r.rules.offset == 0
            &&& r.term_tags.length == 0 ==> r.term_tags.offset == 0
            &&& r.definition_tags.length == 0 ==> r.definition_tags.offset == 0
            &&& r.glossary.offset + r.glossary.length <= a.len()
            &&& r.rules.offset + r.rules.length <= a.len()
            &&& r.term_tags.offset + r.term_tags.length <= a.len()
            &&& r.definition_tags.offset + r.definition_tags.length <= a.len()
            &&& r.expression == ts[i].expression
            &&& r.reading == ts[i].reading
            &&& r.search_key == ts[i].search_key
            &&& r.source == ts[i].source
        } by {
            if i < dl.len() {
                assert(term_fold(arena, ts).1[i] == term_fold(arena, dl).1[i]);
                assert(term_fold(arena, dl).0.len() <= term_fold(arena, ts).0.len());
            } else {
                assert(term_fold(arena, ts).1[i] == step.1);
            }
        }
    }
}

/// Every handle a char-index fold hands out addresses exactly the position
/// list it laid down.
pub proof fn lemma_cix_fold_bounds(arena: Seq<u32>, es: Seq<CixEntryM>)
    requires
        cix_fold(arena, es).0.len() <= u32::MAX as int,
    ensures
        forall|i: int|
            0 <= i < es.len() ==> {
                let r = #[trigger] cix_fold(arena, es).1[i];
                let a = cix_fold(arena, es).0;
                &&& r.indexes.length == 0 ==> r.indexes.offset == 0
                &&& r.indexes.offset + r.indexes.length <= a.len()
                &&& r.indexes.length == es[i].indexes.len()
                &&& a.subrange(
                    r.indexes.offset as int,
                    r.indexes.offset + r.indexes.length,
                ) == es[i].indexes
                &&& r.character == es[i].character
            },
    decreases es.len(),
{
    if es.len() > 0 {
        let dl = es.drop_last();
        let a1 = cix_fold(arena, dl).0;
        let step = cix_to_raw(a1, es.last());
        lemma_cix_fold_bounds(arena, dl);
        lemma_cix_fold_len(arena, es);
        assert forall|i: int|
            0 <= i < es.len() implies {
            let r = #[trigger] cix_fold(arena, es).1[i];
            let a = cix_fold(arena, es).0;
            &&& r.indexes.length == 0 ==> r.indexes.offset == 0
            &&& r.indexes.offset + r.indexes.length <= a.len()
            &&& r.indexes.length == es[i].indexes.len()
            &&& a.subrange(r.indexes.offset as int, r.indexes.offset + r.indexes.length)
                == es[i].indexes
            &&& r.character == es[i].character
        } by {
            if i < dl.len() {
                let r = cix_fold(arena, es).1[i];
                assert(r == cix_fold(arena, dl).1[i]);
                assert(cix_fold(arena, dl).0.len() <= cix_fold(arena, es).0.len());
                assert(cix_fold(arena, es).0.subrange(
                    r.indexes.offset as int,
                    r.indexes.offset + r.indexes.length,
                ) =~= a1.subrange(r.indexes.offset as int, r.indexes.offset + r.indexes.length));
            } else {
                assert(cix_fold(arena, es).1[i] == step.1);
                let r = step.1;
                if es.last().indexes.len() > 0 {
                    assert(cix_fold(arena, es).0.subrange(
                        r.indexes.offset as int,
                        r.indexes.offset + r.indexes.length,
                    ) =~= es.last().indexes);
                } else {
                    assert(cix_fold(arena, es).0.subrange(
                        r.indexes.offset as int,
                        r.indexes.offset + r.indexes.length,
                    ) =~= es.last().indexes);
                }
            }
        }
    }
}

/// A handle of length 0 carries offset 0 and addresses no arena bytes: the
/// sentinel form of every empty list in a written image.
pub proof fn lemma_empty_handles(w: Writer)
    requires
        w.wf(),
        write_bounded(w),
    ensures
        forall|i: int|
            0 <= i < raw_of(w).kanji.len() ==> {
                let r = #[trigger] raw_of(w).kanji[i];
                &&& r.meanings.length == 0 ==> r.meanings.offset == 0
                &&& r.onyomi.length == 0 ==> r.onyomi.offset == 0
                &&& r.kunyomi.length == 0 ==> r.kunyomi.offset == 0
                &&& r.tags.length == 0 ==> r.tags.offset == 0
                &&& r.stats.length == 0 ==> r.stats.offset == 0
            },
        forall|i: int|
            0 <= i < raw_of(w).terms.len() ==> {
                let r = #[trigger] raw_of(w).terms[i];
                &&& r.glossary.length == 0 ==> r.glossary.offset == 0
                &&& r.rules.length == 0 ==> r.rules.offset == 0
                &&& r.term_tags.length == 0 ==> r.term_tags.offset == 0
                &&& r.definition_tags.length == 0 ==> r.definition_tags.offset == 0
            },
        forall|i: int|
            0 <= i < raw_of(w).index_chars_jp.len() ==> ((#[trigger] raw_of(
                w,
            ).index_chars_jp[i]).indexes.length == 0 ==> raw_of(
                w,
            ).index_chars_jp[i].indexes.offset == 0),
{
    let ka = kanji_fold(Seq::empty(), built_kanji(w));
    let ta = term_fold(ka.0, built_terms(w));
    let ca = cix_fold(ta.0, built_cix(w));
    lemma_kanji_fold_len(Seq::empty(), built_kanji(w));
    lemma_term_fold_len(ka.0, built_terms(w));
    lemma_cix_fold_len(ta.0, built_cix(w));
    lemma_kanji_fold_bounds(Seq::empty(), built_kanji(w));
    lemma_term_fold_bounds(ka.0, built_terms(w));
    lemma_cix_fold_bounds(ta.0, built_cix(w));
}

/// The stats list of every kanji in a written image has even length.
pub proof fn lemma_stats_even(w: Writer)
    requires
        w.wf(),
        write_bounded(w),
    ensures
        forall|i: int|
            0 <= i < raw_of(w).kanji.len() ==> (#[trigger] raw_of(w).kanji[i]).stats.length % 2
                == 0,
{
    let ka = kanji_fold(Seq::empty(), built_kanji(w));
    let ta = term_fold(ka.0, built_terms(w));
    lemma_kanji_fold_len(Seq::empty(), built_kanji(w));
    lemma_term_fold_len(ka.0, built_terms(w));
    lemma_cix_fold_len(ta.0, built_cix(w));
    lemma_kanji_fold_bounds(Seq::empty(), built_kanji(w));
}

/// Every reference in a written image lands inside the table it names:
/// string indices inside the descriptor table, term positions inside the
/// term table, and every arena handle inside the arena.
pub proof fn lemma_references_in_range(w: Writer)
    requires
        w.wf(),
        write_bounded(w),
    ensures
        forall|i: int|
            0 <= i < raw_of(w).tags.len() ==> {
                let r = #[trigger] raw_of(w).tags[i];
                &&& r.name < raw_of(w).string_list.len()
                &&& r.category < raw_of(w).string_list.len()
                &&& r.notes < raw_of(w).string_list.len()
            },
        forall|i: int|
            0 <= i < raw_of(w).terms.len() ==> {
                let r = #[trigger] raw_of(w).terms[i];
                &&& r.expression < raw_of(w).string_list.len()
                &&& r.reading < raw_of(w).string_list.len()
                &&& r.search_key < raw_of(w).string_list.len()
                &&& r.source < raw_of(w).string_list.len()
                &&& r.glossary.offset + r.glossary.length <= raw_of(w).vector_data.len()
                &&& r.rules.offset + r.rules.length <= raw_of(w).vector_data.len()
                &&& r.term_tags.offset + r.term_tags.length <= raw_of(w).vector_data.len()
                &&& r.definition_tags.offset + r.definition_tags.length <= raw_of(
                    w,
                ).vector_data.len()
            },
        forall|i: int|
            0 <= i < raw_of(w).kanji.len() ==> {
                let r = #[trigger] raw_of(w).kanji[i];
                &&& r.source < raw_of(w).string_list.len()
                &&& r.meanings.offset + r.meanings.length <= raw_of(w).vector_data.len()
                &&& r.onyomi.offset + r.onyomi.length <= raw_of(w).vector_data.len()
                &&& r.kunyomi.offset + r.kunyomi.length <= raw_of(w).vector_data.len()
                &&& r.tags.offset + r.tags.length <= raw_of(w).vector_data.len()
                &&& r.stats.offset + r.stats.length <= raw_of(w).vector_data.len()
            },
        forall|i: int|
            0 <= i < raw_of(w).index_prefix_jp.len() ==> {
                let e = #[trigger] raw_of(w).index_prefix_jp[i];
                &&& e.key < raw_of(w).string_list.len()
                &&& e.term < raw_of(w).terms.len()
            },
        forall|i: int|
            0 <= i < raw_of(w).index_suffix_jp.len() ==> {
                let e = #[trigger] raw_of(w).index_suffix_jp[i];
                &&& e.key < raw_of(w).string_list.len()
                &&& e.term < raw_of(w).terms.len()
            },
        forall|i: int|
            0 <= i < raw_of(w).index_chars_jp.len() ==> (#[trigger] raw_of(
                w,
            ).index_chars_jp[i]).indexes.offset + raw_of(w).index_chars_jp[i].indexes.length
                <= raw_of(w).vector_data.len(),
{
    let pool = w.pool();
    let ns = pool.len() as int;
    let nt = w.tags@.len() as int;
    lemma_descr_len(pool);
    lemma_term_leq_props();
    lemma_kanji_leq_props();
    lemma_pe_leq_props(pool);
    lemma_se_leq_props(pool);
    lemma_sort_by_stable_ensures(term_leq(), w.terms@);
    lemma_sort_by_stable_ensures(kanji_leq(), w.kanji@);
    let ka = kanji_fold(Seq::empty(), built_kanji(w));
    let ta = term_fold(ka.0, built_terms(w));
    lemma_kanji_fold_len(Seq::empty(), built_kanji(w));
    lemma_term_fold_len(ka.0, built_terms(w));
    lemma_cix_fold_len(ta.0, built_cix(w));
    lemma_kanji_fold_bounds(Seq::empty(), built_kanji(w));
    lemma_term_fold_bounds(ka.0, built_terms(w));
    lemma_cix_fold_bounds(ta.0, built_cix(w));
    // sorted records are the pushed records
    assert forall|i: int| 0 <= i < built_terms(w).len() implies term_wf(
        #[trigger] built_terms(w)[i],
        ns,
        nt,
    ) by {
        lemma_sort_by_stable_contains(term_leq(), w.terms@, i);
    }
    assert forall|i: int| 0 <= i < built_kanji(w).len() implies kanji_wf(
        #[trigger] built_kanji(w)[i],
        ns,
        nt,
    ) by {
        lemma_sort_by_stable_contains(kanji_leq(), w.kanji@, i);
    }
    lemma_entries_wf(built_terms(w), ns, nt);
    lemma_sort_by_stable_ensures(pe_leq(pool), prefix_entries(built_terms(w)));
    assert forall|i: int| 0 <= i < built_prefix(w).len() implies (#[trigger] built_prefix(
        w,
    )[i]).key < ns && built_prefix(w)[i].term < built_terms(w).len() by {
        lemma_sort_by_stable_contains(pe_leq(pool), prefix_entries(built_terms(w)), i);
    }
    lemma_sort_by_stable_ensures(se_leq(pool), built_prefix(w));
    assert forall|i: int| 0 <= i < built_suffix(w).len() implies (#[trigger] built_suffix(
        w,
    )[i]).key < ns && built_suffix(w)[i].term < built_terms(w).len() by {
        lemma_sort_by_stable_contains(se_leq(pool), built_prefix(w), i);
    }
    assert forall|i: int| 0 <= i < raw_of(w).tags.len() implies {
        let r = #[trigger] raw_of(w).tags[i];
        &&& r.name < raw_of(w).string_list.len()
        &&& r.category < raw_of(w).string_list.len()
        &&& r.notes < raw_of(w).string_list.len()
    } by {
        assert(tag_wf(w.tags@[i], ns));
    }
}


/// The per-character index of a written image: entries strictly sorted by
/// character, every position list strictly ascending, and the membership
/// relation holds of a character and a term position exactly when the code
/// point occurs in that term's expression or reading.
pub proof fn lemma_char_index_complete(w: Writer)
    requires
        w.wf(),
    ensures
        cix_sorted(built_cix(w)),
        cix_lists_ok(built_cix(w), built_terms(w).len() as int),
        forall|c: u32, t: u32|
            cix_has(built_cix(w), c, t) <==> (t < built_terms(w).len() && term_cps(
                w.pool(),
                built_terms(w)[t as int],
            ).contains(c)),
{
    lemma_term_leq_props();
    lemma_sort_by_stable_ensures(term_leq(), w.terms@);
    lemma_cix_build_props(w.pool(), built_terms(w));
}

} // verus!

//! Sealing and serialisation: sorts the records, builds the indexes, lays
//! every variable-length list into the vector arena, and emits the image.
//!
//! The whole pipeline is mirrored by spec functions, so the byte image a
//! writer produces is pinned down exactly: [`Writer::write`] returns
//! `db_bytes(raw_of(w))`.

use vstd::prelude::*;
use crate::VecHandle;
use crate::data::{TagData, TermData, KanjiData, TagRaw, TermRaw, KanjiRaw, TermIndex, CharIndex, StrHandle};
use crate::chars::{CharEntry, CixEntryM, cev, cix_build, build_char_index};
use crate::index::{pool_of, term_leq, kanji_leq, pe_leq, se_leq, sort_terms, sort_kanji, build_entries, sort_entries, sort_entries_rev, prefix_entries, lemma_term_leq_props, lemma_kanji_leq_props, lemma_pe_leq_props, lemma_se_leq_props};
use crate::order::{sort_by_stable, lemma_sort_by_stable_ensures, lemma_sort_by_stable_contains};
use crate::serial::{Raw, RawModel, db_bytes};
use crate::writer::Writer;
use crate::data::term_wf;

verus! {

/// Appends a list to the arena and returns its handle; an empty list gets
/// the sentinel handle `(0, 0)` and leaves the arena alone.
pub open spec fn push_vec_s(arena: Seq<u32>, v: Seq<u32>) -> (Seq<u32>, VecHandle) {
    if v.len() == 0 {
        (arena, VecHandle { offset: 0, length: 0 })
    } else {
        (arena + v, VecHandle { offset: arena.len() as u32, length: v.len() as u32 })
    }
}

/// The flattened form of the `(stat, info)` pairs: alternating members, so
/// always of even length.
pub open spec fn flat_pairs(s: Seq<(u32, u32)>) -> Seq<u32>
    decreases s.len(),
{
    if s.len() == 0 {
        Seq::empty()
    } else {
        flat_pairs(s.drop_last()) + seq![s.last().0, s.last().1]
    }
}

pub open spec fn tag_to_raw(t: TagData) -> TagRaw {
    TagRaw { name: t.name, category: t.category, order: t.order as u32, notes: t.notes }
}

pub open spec fn tags_to_raw(ts: Seq<TagData>) -> Seq<TagRaw> {
    Seq::new(ts.len(), |i: int| tag_to_raw(ts[i]))
}

/// Converts one kanji, laying its five lists into the arena.
pub open spec fn kanji_to_raw(arena: Seq<u32>, k: KanjiData) -> (Seq<u32>, KanjiRaw) {
    let (a1, meanings) = push_vec_s(arena, k.meanings@);
    let (a2, onyomi) = push_vec_s(a1, k.onyomi@);
    let (a3, kunyomi) = push_vec_s(a2, k.kunyomi@);
    let (a4, tags) = push_vec_s(a3, k.tags@);
    let (a5, stats) = push_vec_s(a4, flat_pairs(k.stats@));
    (
        a5,
        KanjiRaw {
            character: k.character as u32,
            frequency: k.frequency,
            source: k.source,
            meanings,
            onyomi,
            kunyomi,
            tags,
            stats,
        },
    )
}

pub open spec fn kanji_fold(arena: Seq<u32>, ks: Seq<KanjiData>) -> (Seq<u32>, Seq<KanjiRaw>)
    decreases ks.len(),
{
    if ks.len() == 0 {
        (arena, Seq::empty())
    } else {
        let (a1, rs) = kanji_fold(arena, ks.drop_last());
        let (a2, r) = kanji_to_raw(a1, ks.last());
        (a2, rs.push(r))
    }
}

/// Converts one term, laying its four lists into the arena.
pub open spec fn term_to_raw(arena: Seq<u32>, t: TermData) -> (Seq<u32>, TermRaw) {
    let (a1, glossary) = push_vec_s(arena, t.glossary@);
    let (a2, rules) = push_vec_s(a1, t.rules@);
    let (a3, term_tags) = push_vec_s(a2, t.term_tags@);
    let (a4, definition_tags) = push_vec_s(a3, t.definition_tags@);
    (
        a4,
        TermRaw {
            expression: t.expression,
            reading: t.reading,
            search_key: t.search_key,
            score: t.score as u32,
            sequence: t.sequence,
            frequency: t.frequency,
            source: t.source,
            glossary,
            rules,
            term_tags,
            definition_tags,
        },
    )
}

pub open spec fn term_fold(arena: Seq<u32>, ts: Seq<TermData>) -> (Seq<u32>, Seq<TermRaw>)
    decreases ts.len(),
{
    if ts.len() == 0 {
        (arena, Seq::empty())
    } else {
        let (a1, rs) = term_fold(arena, ts.drop_last());
        let (a2, r) = term_to_raw(a1, ts.last());
        (a2, rs.push(r))
    }
}

/// Converts one char-index entry, laying its position list into the arena.
pub open spec fn cix_to_raw(arena: Seq<u32>, e: CixEntryM) -> (Seq<u32>, CharIndex) {
    let (a1, h) = push_vec_s(arena, e.indexes);
    (a1, CharIndex { character: e.character, indexes: h })
}

pub open spec fn cix_fold(arena: Seq<u32>, es: Seq<CixEntryM>) -> (Seq<u32>, Seq<CharIndex>)
    decreases es.len(),
{
    if es.len() == 0 {
        (arena, Seq::empty())
    } else {
        let (a1, rs) = cix_fold(arena, es.drop_last());
        let (a2, r) = cix_to_raw(a1, es.last());
        (a2, rs.push(r))
    }
}

/// The string blob: all pool strings, concatenated.
pub open spec fn blob_of(pool: Seq<Seq<u8>>) -> Seq<u8>
    decreases pool.len(),
{
    if pool.len() == 0 {
        Seq::empty()
    } else {
        blob_of(pool.drop_last()) + pool.last()
    }
}

/// The descriptor table: each string's byte offset and length in the blob.
pub open spec fn descr_of(pool: Seq<Seq<u8>>) -> Seq<StrHandle>
    decreases pool.len(),
{
    if pool.len() == 0 {
        Seq::empty()
    } else {
        descr_of(pool.drop_last()).push(
            StrHandle {
                offset: blob_of(pool.drop_last()).len() as u32,
                length: pool.last().len() as u32,
            },
        )
    }
}

// --- monotonicity and step lemmas for the folds ---

pub proof fn lemma_kanji_fold_step(arena: Seq<u32>, ks: Seq<KanjiData>, i: int)
    requires
        0 <= i < ks.len(),
    ensures
        kanji_fold(arena, ks.take(i + 1)).0 == kanji_to_raw(kanji_fold(arena, ks.take(i)).0, ks[i]).0,
        kanji_fold(arena, ks.take(i + 1)).1 == kanji_fold(arena, ks.take(i)).1.push(
            kanji_to_raw(kanji_fold(arena, ks.take(i)).0, ks[i]).1,
        ),
{
    assert(ks.take(i + 1).drop_last() =~= ks.take(i));
    assert(ks.take(i + 1).last() == ks[i]);
}

pub proof fn lemma_kanji_fold_len(arena: Seq<u32>, ks: Seq<KanjiData>)
    ensures
        kanji_fold(arena, ks).0.len() >= arena.len(),
        kanji_fold(arena, ks).1.len() == ks.len(),
    decreases ks.len(),
{
    if ks.len() > 0 {
        lemma_kanji_fold_len(arena, ks.drop_last());
    }
}

pub proof fn lemma_kanji_fold_mono(arena: Seq<u32>, ks: Seq<KanjiData>, i: int)
    requires
        0 <= i <= ks.len(),
    ensures
        kanji_fold(arena, ks).0.len() >= kanji_fold(arena, ks.take(i)).0.len(),
    decreases ks.len(),
{
    if i == ks.len() {
        assert(ks.take(i) =~= ks);
    } else {
        let dl = ks.drop_last();
        assert(dl.take(i) =~= ks.take(i));
        lemma_kanji_fold_mono(arena, dl, i);
    }
}

pub proof fn lemma_term_fold_step(arena: Seq<u32>, ts: Seq<TermData>, i: int)
    requires
        0 <= i < ts.len(),
    ensures
        term_fold(arena, ts.take(i + 1)).0 == term_to_raw(term_fold(arena, ts.take(i)).0, ts[i]).0,
        term_fold(arena, ts.take(i + 1)).1 == term_fold(arena, ts.take(i)).1.push(
            term_to_raw(term_fold(arena, ts.take(i)).0, ts[i]).1,
        ),
{
    assert(ts.take(i + 1).drop_last() =~= ts.take(i));
    assert(ts.take(i + 1).last() == ts[i]);
}

pub proof fn lemma_term_fold_len(arena: Seq<u32>, ts: Seq<TermData>)
    ensures
        term_fold(arena, ts).0.len() >= arena.len(),
        term_fold(arena, ts).1.len() == ts.len(),
    decreases ts.len(),
{
    if ts.len() > 0 {
        lemma_term_fold_len(arena, ts.drop_last());
    }
}

pub proof fn lemma_term_fold_mono(arena: Seq<u32>, ts: Seq<TermData>, i: int)
    requires
        0 <= i <= ts.len(),
    ensures
        term_fold(arena, ts).0.len() >= term_fold(arena, ts.take(i)).0.len(),
    decreases ts.len(),
{
    if i == ts.len() {
        assert(ts.take(i) =~= ts);
    } else {
        let dl = ts.drop_last();
        assert(dl.take(i) =~= ts.take(i));
        lemma_term_fold_mono(arena, dl, i);
    }
}

pub proof fn lemma_cix_fold_step(arena: Seq<u32>, es: Seq<CixEntryM>, i: int)
    requires
        0 <= i < es.len(),
    ensures
        cix_fold(arena, es.take(i + 1)).0 == cix_to_raw(cix_fold(arena, es.take(i)).0, es[i]).0,
        cix_fold(arena, es.take(i + 1)).1 == cix_fold(arena, es.take(i)).1.push(
            cix_to_raw(cix_fold(arena, es.take(i)).0, es[i]).1,
        ),
{
    assert(es.take(i + 1).drop_last() =~= es.take(i));
    assert(es.take(i + 1).last() == es[i]);
}

pub proof fn lemma_cix_fold_len(arena: Seq<u32>, es: Seq<CixEntryM>)
    ensures
        cix_fold(arena, es).0.len() >= arena.len(),
        cix_fold(arena, es).1.len() == es.len(),
    decreases es.len(),
{
    if es.len() > 0 {
        lemma_cix_fold_len(arena, es.drop_last());
    }
}

pub proof fn lemma_cix_fold_mono(arena: Seq<u32>, es: Seq<CixEntryM>, i: int)
    requires
        0 <= i <= es.len(),
    ensures
        cix_fold(arena, es).0.len() >= cix_fold(arena, es.take(i)).0.len(),
    decreases es.len(),
{
    if i == es.len() {
        assert(es.take(i) =~= es);
    } else {
        let dl = es.drop_last();
        assert(dl.take(i) =~= es.take(i));
        lemma_cix_fold_mono(arena, dl, i);
    }
}

pub proof fn lemma_blob_step(pool: Seq<Seq<u8>>, i: int)
    requires
        0 <= i < pool.len(),
    ensures
        blob_of(pool.take(i + 1)) == blob_of(pool.take(i)) + pool[i],
        descr_of(pool.take(i + 1)) == descr_of(pool.take(i)).push(
            StrHandle { offset: blob_of(pool.take(i)).len() as u32, length: pool[i].len() as u32 },
        ),
{
    assert(pool.take(i + 1).drop_last() =~= pool.take(i));
    assert(pool.take(i + 1).last() == pool[i]);
}

pub proof fn lemma_blob_mono(pool: Seq<Seq<u8>>, i: int)
    requires
        0 <= i <= pool.len(),
    ensures
        blob_of(pool).len() >= blob_of(pool.take(i)).len(),
        i < pool.len() ==> blob_of(pool).len() >= blob_of(pool.take(i)).len() + pool[i].len(),
        descr_of(pool).len() == pool.len(),
    decreases pool.len(),
{
    lemma_descr_len(pool);
    if i == pool.len() {
        assert(pool.take(i) =~= pool);
    } else {
        let dl = pool.drop_last();
        assert(dl.take(i) =~= pool.take(i));
        if i < dl.len() {
            lemma_blob_mono(dl, i);
        } else {
            assert(pool.take(i) =~= dl);
        }
    }
}

pub proof fn lemma_descr_len(pool: Seq<Seq<u8>>)
    ensures
        descr_of(pool).len() == pool.len(),
    decreases pool.len(),
{
    if pool.len() > 0 {
        lemma_descr_len(pool.drop_last());
    }
}

// --- exec conversions ---

/// Appends a list to the shared arena, returning its handle; the sentinel
/// `(0, 0)` stands for the empty list.
pub fn push_vec(arena: &mut Vec<u32>, vec: Vec<u32>) -> (h: VecHandle)
    requires
        old(arena)@.len() + vec@.len() <= u32::MAX as int,
    ensures
        final(arena)@ == push_vec_s(old(arena)@, vec@).0,
        h == push_vec_s(old(arena)@, vec@).1,
{
    if vec.len() == 0 {
        VecHandle { offset: 0, length: 0 }
    } else {
        let offset = arena.len() as u32;
        let length = vec.len() as u32;
        let mut v = vec;
        arena.append(&mut v);
        VecHandle { offset, length }
    }
}

/// Flattens the `(stat, info)` pairs into alternating members.
#[verifier::loop_isolation(false)]
pub fn flatten_stats(stats: &Vec<(u32, u32)>) -> (r: Vec<u32>)
    ensures
        r@ == flat_pairs(stats@),
{
    let mut out: Vec<u32> = Vec::new();
    let mut i: usize = 0;
    proof {
        assert(out@ =~= flat_pairs(stats@.take(0)));
    }
    while i < stats.len()
        invariant
            i <= stats@.len(),
            out@ == flat_pairs(stats@.take(i as int)),
        decreases stats@.len() - i,
    {
        let p = stats[i];
        out.push(p.0);
        out.push(p.1);
        proof {
            assert(stats@.take(i as int + 1).drop_last() =~= stats@.take(i as int));
            assert(stats@.take(i as int + 1).last() == stats@[i as int]);
            assert(out@ =~= flat_pairs(stats@.take(i as int)) + seq![p.0, p.1]);
        }
        i = i + 1;
    }
    proof {
        assert(stats@.take(stats@.len() as int) =~= stats@);
    }
    out
}

/// Copies a list of arena members.
#[verifier::loop_isolation(false)]
pub fn copy_u32s(v: &Vec<u32>) -> (r: Vec<u32>)
    ensures
        r@ == v@,
{
    let mut out: Vec<u32> = Vec::new();
    let mut i: usize = 0;
    while i < v.len()
        invariant
            i <= v@.len(),
            out@ == v@.take(i as int),
        decreases v@.len() - i,
    {
        out.push(v[i]);
        proof {
            assert(out@ =~= v@.take(i as int + 1));
        }
        i = i + 1;
    }
    proof {
        assert(v@.take(v@.len() as int) =~= v@);
    }
    out
}

/// Converts the sorted kanji, filling the arena.
#[verifier::loop_isolation(false)]
pub fn convert_kanji(arena: &mut Vec<u32>, ks: &Vec<KanjiData>) -> (r: Vec<KanjiRaw>)
    requires
        kanji_fold(old(arena)@, ks@).0.len() <= u32::MAX as int,
    ensures
        final(arena)@ == kanji_fold(old(arena)@, ks@).0,
        r@ == kanji_fold(old(arena)@, ks@).1,
{
    let ghost a0 = arena@;
    let mut out: Vec<KanjiRaw> = Vec::new();
    let mut i: usize = 0;
    proof {
        assert(ks@.take(0) =~= Seq::<KanjiData>::empty());
    }
    while i < ks.len()
        invariant
            i <= ks@.len(),
            arena@ == kanji_fold(a0, ks@.take(i as int)).0,
            out@ == kanji_fold(a0, ks@.take(i as int)).1,
        decreases ks@.len() - i,
    {
        let k = &ks[i];
        proof {
            lemma_kanji_fold_step(a0, ks@, i as int);
            lemma_kanji_fold_mono(a0, ks@, i as int + 1);
        }
        let ghost astep = arena@;
        let flat = flatten_stats(&k.stats);
        let meanings = push_vec(arena, copy_u32s(&k.meanings));
        let onyomi = push_vec(arena, copy_u32s(&k.onyomi));
        let kunyomi = push_vec(arena, copy_u32s(&k.kunyomi));
        let tags = push_vec(arena, copy_u32s(&k.tags));
        let stats = push_vec(arena, flat);
        let raw = KanjiRaw {
            character: k.character as u32,
            frequency: k.frequency,
            source: k.source,
            meanings,
            onyomi,
            kunyomi,
            tags,
            stats,
        };
        proof {
            assert(arena@ == kanji_to_raw(astep, ks@[i as int]).0);
            assert(raw == kanji_to_raw(astep, ks@[i as int]).1);
        }
        out.push(raw);
        i = i + 1;
    }
    proof {
        assert(ks@.take(ks@.len() as int) =~= ks@);
    }
    out
}

/// Converts the sorted terms, filling the arena.
#[verifier::loop_isolation(false)]
pub fn convert_terms(arena: &mut Vec<u32>, ts: &Vec<TermData>) -> (r: Vec<TermRaw>)
    requires
        term_fold(old(arena)@, ts@).0.len() <= u32::MAX as int,
    ensures
        final(arena)@ == term_fold(old(arena)@, ts@).0,
        r@ == term_fold(old(arena)@, ts@).1,
{
    let ghost a0 = arena@;
    let mut out: Vec<TermRaw> = Vec::new();
    let mut i: usize = 0;
    proof {
        assert(ts@.take(0) =~= Seq::<TermData>::empty());
    }
    while i < ts.len()
        invariant
            i <= ts@.len(),
            arena@ == term_fold(a0, ts@.take(i as int)).0,
            out@ == term_fold(a0, ts@.take(i as int)).1,
        decreases ts@.len() - i,
    {
        let t = &ts[i];
        proof {
            lemma_term_fold_step(a0, ts@, i as int);
            lemma_term_fold_mono(a0, ts@, i as int + 1);
        }
        let ghost astep = arena@;
        let glossary = push_vec(arena, copy_u32s(&t.glossary));
        let rules = push_vec(arena, copy_u32s(&t.rules));
        let term_tags = push_vec(arena, copy_u32s(&t.term_tags));
        let definition_tags = push_vec(arena, copy_u32s(&t.definition_tags));
        let raw = TermRaw {
            expression: t.expression,
            reading: t.reading,
            search_key: t.search_key,
            score: t.score as u32,
            sequence: t.sequence,
            frequency: t.frequency,
            source: t.source,
            glossary,
            rules,
            term_tags,
            definition_tags,
        };
        proof {
            assert(arena@ == term_to_raw(astep, ts@[i as int]).0);
            assert(raw == term_to_raw(astep, ts@[i as int]).1);
        }
        out.push(raw);
        i = i + 1;
    }
    proof {
        assert(ts@.take(ts@.len() as int) =~= ts@);
    }
    out
}

/// Converts the char-index entries, filling the arena.
#[verifier::loop_isolation(false)]
pub fn convert_cix(arena: &mut Vec<u32>, es: Vec<CharEntry>) -> (r: Vec<CharIndex>)
    requires
        cix_fold(old(arena)@, cev(es@)).0.len() <= u32::MAX as int,
    ensures
        final(arena)@ == cix_fold(old(arena)@, cev(es@)).0,
        r@ == cix_fold(old(arena)@, cev(es@)).1,
{
    let ghost a0 = arena@;
    let ghost ems = cev(es@);
    let mut input = es;
    let mut out: Vec<CharIndex> = Vec::new();
    let ghost mut k: int = 0int;
    proof {
        assert forall|t: int| 0 <= t < input@.len() implies cev(input@)[t] == ems.skip(0)[t] by {}
        assert(cev(input@) =~= ems.skip(0));
        assert(ems.take(0) =~= Seq::<CixEntryM>::empty());
    }
    while input.len() > 0
        invariant
            0 <= k <= ems.len(),
            cev(input@) == ems.skip(k),
            arena@ == cix_fold(a0, ems.take(k)).0,
            out@ == cix_fold(a0, ems.take(k)).1,
        decreases input@.len(),
    {
        let ghost oldinput = input@;
        let e = input.remove(0);
        proof {
            assert(cev(oldinput)[0] == e@);
            assert(e@ == ems[k]);
            assert forall|t: int| 0 <= t < input@.len() implies cev(input@)[t] == ems.skip(k + 1)[t]
                by {
                assert(cev(input@)[t] == input@[t]@);
                assert(input@[t] == oldinput[t + 1]);
                assert(cev(oldinput)[t + 1] == ems.skip(k)[t + 1]);
            }
            assert(cev(input@) =~= ems.skip(k + 1));
            lemma_cix_fold_step(a0, ems, k);
            lemma_cix_fold_mono(a0, ems, k + 1);
        }
        let ghost astep = arena@;
        let h = push_vec(arena, e.indexes);
        let raw = CharIndex { character: e.character, indexes: h };
        proof {
            assert(arena@ == cix_to_raw(astep, ems[k]).0);
            assert(raw == cix_to_raw(astep, ems[k]).1);
        }
        out.push(raw);
        proof {
            k = k + 1;
        }
    }
    proof {
        assert(ems.take(ems.len() as int) =~= ems);
        assert(k == ems.len());
    }
    out
}

/// Converts the tags; they hold no lists, so the arena is untouched.
#[verifier::loop_isolation(false)]
pub fn convert_tags(ts: &Vec<TagData>) -> (r: Vec<TagRaw>)
    ensures
        r@ == tags_to_raw(ts@),
{
    let mut out: Vec<TagRaw> = Vec::new();
    let mut i: usize = 0;
    while i < ts.len()
        invariant
            i <= ts@.len(),
            out@.len() == i,
            forall|t: int| 0 <= t < i ==> out@[t] == tag_to_raw(ts@[t]),
        decreases ts@.len() - i,
    {
        let t = ts[i];
        out.push(TagRaw { name: t.name, category: t.category, order: t.order as u32, notes: t.notes });
        i = i + 1;
    }
    proof {
        assert(out@ =~= tags_to_raw(ts@));
    }
    out
}

/// Builds the descriptor table and the blob from the pool.
#[verifier::loop_isolation(false)]
pub fn build_strings(strings: &Vec<Vec<u8>>) -> (r: (Vec<StrHandle>, Vec<u8>))
    requires
        blob_of(pool_of(strings@)).len() <= u32::MAX as int,
    ensures
        r.0@ == descr_of(pool_of(strings@)),
        r.1@ == blob_of(pool_of(strings@)),
{
    let ghost pool = pool_of(strings@);
    let mut list: Vec<StrHandle> = Vec::new();
    let mut blob: Vec<u8> = Vec::new();
    let mut i: usize = 0;
    proof {
        assert(pool.take(0) =~= Seq::<Seq<u8>>::empty());
    }
    while i < strings.len()
        invariant
            i <= strings@.len(),
            list@ == descr_of(pool.take(i as int)),
            blob@ == blob_of(pool.take(i as int)),
        decreases strings@.len() - i,
    {
        proof {
            lemma_blob_step(pool, i as int);
            lemma_blob_mono(pool, i as int);
        }
        let s = &strings[i];
        let offset = blob.len() as u32;
        let length = s.len() as u32;
        list.push(StrHandle { offset, length });
        let mut j: usize = 0;
        let ghost blob0 = blob@;
        while j < s.len()
            invariant
                j <= s@.len(),
                blob@ == blob0 + s@.take(j as int),
            decreases s@.len() - j,
        {
            blob.push(s[j]);
            proof {
                assert(blob@ =~= blob0 + s@.take(j as int + 1));
            }
            j = j + 1;
        }
        proof {
            assert(s@.take(s@.len() as int) =~= s@);
            assert(blob@ == blob_of(pool.take(i as int + 1)));
        }
        i = i + 1;
    }
    proof {
        assert(pool.take(pool.len() as int) =~= pool);
    }
    (list, blob)
}

// --- the sealed model of a writer ---

/// The terms in relevance order; positions into this sequence are what the
/// indexes reference.
pub open spec fn built_terms(w: Writer) -> Seq<TermData> {
    sort_by_stable(term_leq(), w.terms@)
}

pub open spec fn built_kanji(w: Writer) -> Seq<KanjiData> {
    sort_by_stable(kanji_leq(), w.kanji@)
}

/// The prefix index: every term's keys, sorted by forward byte order.
pub open spec fn built_prefix(w: Writer) -> Seq<TermIndex> {
    sort_by_stable(pe_leq(w.pool()), prefix_entries(built_terms(w)))
}

/// The suffix index: the prefix entries, re-sorted by grapheme-reversed
/// byte order.
pub open spec fn built_suffix(w: Writer) -> Seq<TermIndex> {
    sort_by_stable(se_leq(w.pool()), built_prefix(w))
}

/// The char index of the sorted terms.
pub open spec fn built_cix(w: Writer) -> Seq<CixEntryM> {
    cix_build(w.pool(), built_terms(w))
}

/// The arena after all three conversion passes: kanji, then terms, then
/// char-index lists.
pub open spec fn arena_of(w: Writer) -> Seq<u32> {
    cix_fold(
        term_fold(kanji_fold(Seq::empty(), built_kanji(w)).0, built_terms(w)).0,
        built_cix(w),
    ).0
}

/// The full image of a sealed writer.
pub open spec fn raw_of(w: Writer) -> RawModel {
    RawModel {
        tags: tags_to_raw(w.tags@),
        terms: term_fold(kanji_fold(Seq::empty(), built_kanji(w)).0, built_terms(w)).1,
        kanji: kanji_fold(Seq::empty(), built_kanji(w)).1,
        index_prefix_jp: built_prefix(w),
        index_suffix_jp: built_suffix(w),
        index_chars_jp: cix_fold(
            term_fold(kanji_fold(Seq::empty(), built_kanji(w)).0, built_terms(w)).0,
            built_cix(w),
        ).1,
        vector_data: arena_of(w),
        string_list: descr_of(w.pool()),
        string_data: blob_of(w.pool()),
    }
}

/// The machine limits a writer must meet so that every count and offset in
/// the image fits its 32-bit field.
pub open spec fn write_bounded(w: Writer) -> bool {
    &&& prefix_entries(built_terms(w)).len() <= u32::MAX as int
    &&& built_cix(w).len() <= u32::MAX as int
    &&& arena_of(w).len() <= u32::MAX as int
    &&& blob_of(w.pool()).len() <= u32::MAX as int
}

impl Writer {
    /// Seals the writer and serialises it: sorts terms and kanji by
    /// relevance, builds the three indexes over the sorted terms, lays all
    /// variable-length lists into the arena, and emits the image in the
    /// authoritative section order.  Consumes the writer: nothing can be
    /// added after the image exists.
    pub fn write(self) -> (r: Vec<u8>)
        requires
            self.wf(),
            write_bounded(self),
        ensures
            r@ == db_bytes(raw_of(self)),
    {
        let ghost w = self;
        let Writer { terms, kanji, tags, strings } = self;
        proof {
            lemma_term_leq_props();
            lemma_kanji_leq_props();
            lemma_pe_leq_props(w.pool());
            lemma_se_leq_props(w.pool());
            lemma_sort_by_stable_ensures(term_leq(), terms@);
            lemma_sort_by_stable_ensures(kanji_leq(), kanji@);
        }
        let terms_s = sort_terms(terms);
        let kanji_s = sort_kanji(kanji);
        proof {
            assert forall|i: int| 0 <= i < terms_s@.len() implies term_wf(
                #[trigger] terms_s@[i],
                w.pool().len() as int,
                w.tags@.len() as int,
            ) by {
                lemma_sort_by_stable_contains(term_leq(), w.terms@, i);
            }
        }
        let entries = build_entries(&terms_s);
        proof {
            lemma_entries_wf(terms_s@, w.pool().len() as int, w.tags@.len() as int);
            lemma_sort_by_stable_ensures(pe_leq(w.pool()), entries@);
        }
        let prefix = sort_entries(entries, &strings);
        let prefix2 = copy_entries(&prefix);
        proof {
            assert forall|i: int| 0 <= i < prefix@.len() implies (#[trigger] prefix@[i]).key
                < strings@.len() by {
                lemma_sort_by_stable_contains(pe_leq(w.pool()), prefix_entries(terms_s@), i);
            }
            lemma_sort_by_stable_ensures(se_leq(w.pool()), prefix@);
        }
        let suffix = sort_entries_rev(prefix2, &strings);
        let cixe = build_char_index(&terms_s, &strings);
        let mut arena: Vec<u32> = Vec::new();
        proof {
            lemma_term_fold_len(kanji_fold(Seq::empty(), built_kanji(w)).0, built_terms(w));
            lemma_cix_fold_len(
                term_fold(kanji_fold(Seq::empty(), built_kanji(w)).0, built_terms(w)).0,
                built_cix(w),
            );
            lemma_kanji_fold_len(Seq::empty(), built_kanji(w));
        }
        let kanji_raw = convert_kanji(&mut arena, &kanji_s);
        let term_raw = convert_terms(&mut arena, &terms_s);
        let cix_raw = convert_cix(&mut arena, cixe);
        let tags_raw = convert_tags(&tags);
        let parts = build_strings(&strings);
        let raw = Raw {
            tags: tags_raw,
            terms: term_raw,
            kanji: kanji_raw,
            index_prefix_jp: prefix,
            index_suffix_jp: suffix,
            index_chars_jp: cix_raw,
            vector_data: arena,
            string_list: parts.0,
            string_data: parts.1,
        };
        proof {
            assert(raw@ == raw_of(w));
            lemma_blob_mono(w.pool(), w.pool().len() as int);
            assert(raw@.bounded());
        }
        let mut out: Vec<u8> = Vec::new();
        raw.write(&mut out);
        proof {
            assert(out@ =~= db_bytes(raw_of(w)));
        }
        out
    }
}

/// Copies an entry list.
#[verifier::loop_isolation(false)]
pub fn copy_entries(v: &Vec<TermIndex>) -> (r: Vec<TermIndex>)
    ensures
        r@ == v@,
{
    let mut out: Vec<TermIndex> = Vec::new();
    let mut i: usize = 0;
    while i < v.len()
        invariant
            i <= v@.len(),
            out@ == v@.take(i as int),
        decreases v@.len() - i,
    {
        out.push(v[i]);
        proof {
            assert(out@ =~= v@.take(i as int + 1));
        }
        i = i + 1;
    }
    proof {
        assert(v@.take(v@.len() as int) =~= v@);
    }
    out
}

/// Every raw index entry of well-formed terms carries an interned key and
/// an existing term position.
pub proof fn lemma_entries_wf(terms: Seq<TermData>, ns: int, nt: int)
    requires
        forall|i: int| 0 <= i < terms.len() ==> term_wf(#[trigger] terms[i], ns, nt),
        terms.len() <= u32::MAX as int,
    ensures
        forall|i: int|
            0 <= i < prefix_entries(terms).len() ==> (#[trigger] prefix_entries(terms)[i]).key < ns
                && prefix_entries(terms)[i].term < terms.len(),
    decreases terms.len(),
{
    if terms.len() > 0 {
        let dl = terms.drop_last();
        assert forall|i: int| 0 <= i < dl.len() implies term_wf(#[trigger] dl[i], ns, nt) by {
            assert(dl[i] == terms[i]);
        }
        lemma_entries_wf(dl, ns, nt);
        let es = prefix_entries(terms);
        let tail = crate::index::term_entries(terms.last(), (terms.len() - 1) as u32);
        assert forall|i: int| 0 <= i < es.len() implies (#[trigger] es[i]).key < ns && es[i].term
            < terms.len() by {
            if i < prefix_entries(dl).len() {
                assert(es[i] == prefix_entries(dl)[i]);
            } else {
                assert(es[i] == tail[i - prefix_entries(dl).len()]);
                assert(term_wf(terms.last(), ns, nt));
            }
        }
    }
}

} // verus!

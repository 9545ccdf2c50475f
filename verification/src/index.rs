//! The index builder: relevance sort of records, prefix and suffix index
//! construction, and the per-character inverted index.

use vstd::prelude::*;
use vstd::relations::{transitive, strongly_connected};
use crate::data::{TermData, KanjiData, TermIndex};
use crate::order::{lex_le, lex_le_bytes, lemma_lex_le_total, lemma_lex_le_trans, sort_by_stable, lemma_insert_by_at};
use crate::segment::{grev_of, grapheme_reverse};
use crate::utf8::{utf8_cps, utf8_decode};

verus! {

/// The pool seen as a sequence of byte strings.
pub open spec fn pool_of(strings: Seq<Vec<u8>>) -> Seq<Seq<u8>> {
    Seq::new(strings.len(), |i: int| strings[i]@)
}

/// Relevance order on terms: frequency descending, then score descending;
/// ties keep intake order under the stable sort.
pub open spec fn term_le(a: TermData, b: TermData) -> bool {
    a.frequency > b.frequency || (a.frequency == b.frequency && a.score >= b.score)
}

pub open spec fn term_leq() -> spec_fn(TermData, TermData) -> bool {
    |a: TermData, b: TermData| term_le(a, b)
}

/// Order on kanji: frequency descending.
pub open spec fn kanji_le(a: KanjiData, b: KanjiData) -> bool {
    a.frequency >= b.frequency
}

pub open spec fn kanji_leq() -> spec_fn(KanjiData, KanjiData) -> bool {
    |a: KanjiData, b: KanjiData| kanji_le(a, b)
}

/// Prefix-index order: forward byte order of the key strings.
pub open spec fn pe_le(pool: Seq<Seq<u8>>, a: TermIndex, b: TermIndex) -> bool {
    lex_le(pool[a.key as int], pool[b.key as int])
}

pub open spec fn pe_leq(pool: Seq<Seq<u8>>) -> spec_fn(TermIndex, TermIndex) -> bool {
    |a: TermIndex, b: TermIndex| pe_le(pool, a, b)
}

/// Suffix-index order: byte order of the grapheme-reversed key strings.
pub open spec fn se_le(pool: Seq<Seq<u8>>, a: TermIndex, b: TermIndex) -> bool {
    lex_le(grev_of(pool[a.key as int]), grev_of(pool[b.key as int]))
}

pub open spec fn se_leq(pool: Seq<Seq<u8>>) -> spec_fn(TermIndex, TermIndex) -> bool {
    |a: TermIndex, b: TermIndex| se_le(pool, a, b)
}

pub proof fn lemma_term_leq_props()
    ensures
        transitive(term_leq()),
        strongly_connected(term_leq()),
{
    let leq = term_leq();
    assert forall|x: TermData, y: TermData, z: TermData| #[trigger] leq(x, y) && #[trigger] leq(
        y,
        z,
    ) implies leq(x, z) by {}
    assert forall|x: TermData, y: TermData| #![trigger leq(x, y)] true implies leq(x, y) || leq(
        y,
        x,
    ) by {}
}

pub proof fn lemma_kanji_leq_props()
    ensures
        transitive(kanji_leq()),
        strongly_connected(kanji_leq()),
{
    let leq = kanji_leq();
    assert forall|x: KanjiData, y: KanjiData, z: KanjiData| #[trigger] leq(x, y) && #[trigger] leq(
        y,
        z,
    ) implies leq(x, z) by {}
    assert forall|x: KanjiData, y: KanjiData| #![trigger leq(x, y)] true implies leq(x, y) || leq(
        y,
        x,
    ) by {}
}

pub proof fn lemma_pe_leq_props(pool: Seq<Seq<u8>>)
    ensures
        transitive(pe_leq(pool)),
        strongly_connected(pe_leq(pool)),
{
    let leq = pe_leq(pool);
    assert forall|x: TermIndex, y: TermIndex, z: TermIndex| #[trigger] leq(x, y) && #[trigger] leq(
        y,
        z,
    ) implies leq(x, z) by {
        lemma_lex_le_trans(pool[x.key as int], pool[y.key as int], pool[z.key as int]);
    }
    assert forall|x: TermIndex, y: TermIndex| #![trigger leq(x, y)] true implies leq(x, y) || leq(
        y,
        x,
    ) by {
        lemma_lex_le_total(pool[x.key as int], pool[y.key as int]);
    }
}

pub proof fn lemma_se_leq_props(pool: Seq<Seq<u8>>)
    ensures
        transitive(se_leq(pool)),
        strongly_connected(se_leq(pool)),
{
    let leq = se_leq(pool);
    assert forall|x: TermIndex, y: TermIndex, z: TermIndex| #[trigger] leq(x, y) && #[trigger] leq(
        y,
        z,
    ) implies leq(x, z) by {
        lemma_lex_le_trans(
            grev_of(pool[x.key as int]),
            grev_of(pool[y.key as int]),
            grev_of(pool[z.key as int]),
        );
    }
    assert forall|x: TermIndex, y: TermIndex| #![trigger leq(x, y)] true implies leq(x, y) || leq(
        y,
        x,
    ) by {
        lemma_lex_le_total(grev_of(pool[x.key as int]), grev_of(pool[y.key as int]));
    }
}

/// Sorts the terms by relevance, stably.
#[verifier::loop_isolation(false)]
pub fn sort_terms(terms: Vec<TermData>) -> (r: Vec<TermData>)
    ensures
        r@ == sort_by_stable(term_leq(), terms@),
{
    let ghost orig = terms@;
    let mut input = terms;
    let mut out: Vec<TermData> = Vec::new();
    let ghost mut k: int = 0int;
    proof {
        assert(input@ =~= orig.skip(0));
        assert(out@ =~= sort_by_stable(term_leq(), orig.take(0)));
    }
    while input.len() > 0
        invariant
            0 <= k <= orig.len(),
            input@ == orig.skip(k),
            out@ == sort_by_stable(term_leq(), orig.take(k)),
        decreases input@.len(),
    {
        let x = input.remove(0);
        proof {
            assert(x == orig[k]);
        }
        let mut j: usize = out.len();
        while j > 0 && !(out[j - 1].frequency > x.frequency || (out[j - 1].frequency == x.frequency
            && out[j - 1].score >= x.score))
            invariant
                j <= out@.len(),
                forall|t: int| j <= t < out@.len() ==> !term_le(#[trigger] out@[t], x),
            decreases j,
        {
            j = j - 1;
        }
        proof {
            assert forall|t: int| j <= t < out@.len() implies !(term_leq()(#[trigger] out@[t], x)) by {}
            if j > 0 {
                assert(term_leq()(out@[j - 1], x));
            }
            lemma_insert_by_at(term_leq(), x, out@, j as int);
            assert(orig.take(k + 1).drop_last() =~= orig.take(k));
            assert(orig.skip(k).skip(1) =~= orig.skip(k + 1));
        }
        out.insert(j, x);
        proof {
            k = k + 1;
        }
    }
    proof {
        assert(orig.take(orig.len() as int) =~= orig);
    }
    out
}

/// Sorts the kanji by frequency, stably.
#[verifier::loop_isolation(false)]
pub fn sort_kanji(kanji: Vec<KanjiData>) -> (r: Vec<KanjiData>)
    ensures
        r@ == sort_by_stable(kanji_leq(), kanji@),
{
    let ghost orig = kanji@;
    let mut input = kanji;
    let mut out: Vec<KanjiData> = Vec::new();
    let ghost mut k: int = 0int;
    proof {
        assert(input@ =~= orig.skip(0));
        assert(out@ =~= sort_by_stable(kanji_leq(), orig.take(0)));
    }
    while input.len() > 0
        invariant
            0 <= k <= orig.len(),
            input@ == orig.skip(k),
            out@ == sort_by_stable(kanji_leq(), orig.take(k)),
        decreases input@.len(),
    {
        let x = input.remove(0);
        proof {
            assert(x == orig[k]);
        }
        let mut j: usize = out.len();
        while j > 0 && !(out[j - 1].frequency >= x.frequency)
            invariant
                j <= out@.len(),
                forall|t: int| j <= t < out@.len() ==> !kanji_le(#[trigger] out@[t], x),
            decreases j,
        {
            j = j - 1;
        }
        proof {
            assert forall|t: int| j <= t < out@.len() implies !(kanji_leq()(
                #[trigger] out@[t],
                x,
            )) by {}
            if j > 0 {
                assert(kanji_leq()(out@[j - 1], x));
            }
            lemma_insert_by_at(kanji_leq(), x, out@, j as int);
            assert(orig.take(k + 1).drop_last() =~= orig.take(k));
            assert(orig.skip(k).skip(1) =~= orig.skip(k + 1));
        }
        out.insert(j, x);
        proof {
            k = k + 1;
        }
    }
    proof {
        assert(orig.take(orig.len() as int) =~= orig);
    }
    out
}

/// The raw index entries of term `i`: its expression, and its reading and
/// search key when present (index 0 means absent).
pub open spec fn term_entries(t: TermData, i: u32) -> Seq<TermIndex> {
    let e = seq![TermIndex { key: t.expression, term: i }];
    let e2 = if t.reading > 0 {
        e.push(TermIndex { key: t.reading, term: i })
    } else {
        e
    };
    if t.search_key > 0 {
        e2.push(TermIndex { key: t.search_key, term: i })
    } else {
        e2
    }
}

/// All raw index entries, term by term in sorted-term order.
pub open spec fn prefix_entries(terms: Seq<TermData>) -> Seq<TermIndex>
    decreases terms.len(),
{
    if terms.len() == 0 {
        Seq::empty()
    } else {
        prefix_entries(terms.drop_last()) + term_entries(terms.last(), (terms.len() - 1) as u32)
    }
}

/// Emits the unsorted prefix-index entries for the (already sorted) terms.
#[verifier::loop_isolation(false)]
pub fn build_entries(terms: &Vec<TermData>) -> (r: Vec<TermIndex>)
    requires
        terms@.len() <= u32::MAX as int,
    ensures
        r@ == prefix_entries(terms@),
{
    let mut out: Vec<TermIndex> = Vec::new();
    let mut i: usize = 0;
    proof {
        assert(out@ =~= prefix_entries(terms@.take(0)));
    }
    while i < terms.len()
        invariant
            i <= terms@.len(),
            out@ == prefix_entries(terms@.take(i as int)),
        decreases terms@.len() - i,
    {
        let index = i as u32;
        let t = &terms[i];
        out.push(TermIndex { key: t.expression, term: index });
        if t.reading > 0 {
            out.push(TermIndex { key: t.reading, term: index });
        }
        if t.search_key > 0 {
            out.push(TermIndex { key: t.search_key, term: index });
        }
        proof {
            assert(terms@.take(i as int + 1).drop_last() =~= terms@.take(i as int));
            assert(terms@.take(i as int + 1).last() == terms@[i as int]);
            assert(out@ =~= prefix_entries(terms@.take(i as int)) + term_entries(
                terms@[i as int],
                index,
            ));
        }
        i = i + 1;
    }
    proof {
        assert(terms@.take(terms@.len() as int) =~= terms@);
    }
    out
}

/// Sorts index entries by the forward byte order of their key strings,
/// stably.
#[verifier::loop_isolation(false)]
pub fn sort_entries(entries: Vec<TermIndex>, strings: &Vec<Vec<u8>>) -> (r: Vec<TermIndex>)
    requires
        forall|i: int| 0 <= i < entries@.len() ==> (#[trigger] entries@[i]).key < strings@.len(),
    ensures
        r@ == sort_by_stable(pe_leq(pool_of(strings@)), entries@),
{
    let ghost pool = pool_of(strings@);
    let ghost orig = entries@;
    let mut input = entries;
    let mut out: Vec<TermIndex> = Vec::new();
    let ghost mut k: int = 0int;
    proof {
        assert(input@ =~= orig.skip(0));
        assert(out@ =~= sort_by_stable(pe_leq(pool), orig.take(0)));
    }
    while input.len() > 0
        invariant
            0 <= k <= orig.len(),
            input@ == orig.skip(k),
            out@ == sort_by_stable(pe_leq(pool), orig.take(k)),
            forall|t: int| 0 <= t < out@.len() ==> (#[trigger] out@[t]).key < strings@.len(),
        decreases input@.len(),
    {
        let x = input.remove(0);
        proof {
            assert(x == orig[k]);
            assert(orig.contains(x));
        }
        let mut j: usize = out.len();
        while j > 0 && !lex_le_bytes(&strings[out[j - 1].key as usize], &strings[x.key as usize])
            invariant
                j <= out@.len(),
                forall|t: int| j <= t < out@.len() ==> !pe_le(pool, #[trigger] out@[t], x),
            decreases j,
        {
            j = j - 1;
        }
        proof {
            assert forall|t: int| j <= t < out@.len() implies !(pe_leq(pool)(
                #[trigger] out@[t],
                x,
            )) by {}
            if j > 0 {
                assert(pe_leq(pool)(out@[j - 1], x));
            }
            lemma_insert_by_at(pe_leq(pool), x, out@, j as int);
            assert(orig.take(k + 1).drop_last() =~= orig.take(k));
            assert(orig.skip(k).skip(1) =~= orig.skip(k + 1));
        }
        out.insert(j, x);
        proof {
            k = k + 1;
        }
    }
    proof {
        assert(orig.take(orig.len() as int) =~= orig);
    }
    out
}

/// Sorts index entries by the byte order of the grapheme-reversed key
/// strings, stably.  The reversal of every pool string is computed once and
/// cached for the duration of the sort.
#[verifier::loop_isolation(false)]
pub fn sort_entries_rev(entries: Vec<TermIndex>, strings: &Vec<Vec<u8>>) -> (r: Vec<TermIndex>)
    requires
        forall|i: int| 0 <= i < entries@.len() ==> (#[trigger] entries@[i]).key < strings@.len(),
    ensures
        r@ == sort_by_stable(se_leq(pool_of(strings@)), entries@),
{
    let ghost pool = pool_of(strings@);
    let mut cache: Vec<Vec<u8>> = Vec::new();
    let mut c: usize = 0;
    while c < strings.len()
        invariant
            c <= strings@.len(),
            cache@.len() == c,
            forall|t: int| 0 <= t < c ==> (#[trigger] cache@[t])@ == grev_of(pool[t]),
        decreases strings@.len() - c,
    {
        cache.push(grapheme_reverse(&strings[c]));
        c = c + 1;
    }
    let ghost orig = entries@;
    let mut input = entries;
    let mut out: Vec<TermIndex> = Vec::new();
    let ghost mut k: int = 0int;
    proof {
        assert(input@ =~= orig.skip(0));
        assert(out@ =~= sort_by_stable(se_leq(pool), orig.take(0)));
    }
    while input.len() > 0
        invariant
            0 <= k <= orig.len(),
            input@ == orig.skip(k),
            out@ == sort_by_stable(se_leq(pool), orig.take(k)),
            forall|t: int| 0 <= t < out@.len() ==> (#[trigger] out@[t]).key < strings@.len(),
        decreases input@.len(),
    {
        let x = input.remove(0);
        proof {
            assert(x == orig[k]);
            assert(orig.contains(x));
        }
        let mut j: usize = out.len();
        while j > 0 && !lex_le_bytes(&cache[out[j - 1].key as usize], &cache[x.key as usize])
            invariant
                j <= out@.len(),
                forall|t: int| j <= t < out@.len() ==> !se_le(pool, #[trigger] out@[t], x),
            decreases j,
        {
            j = j - 1;
        }
        proof {
            assert forall|t: int| j <= t < out@.len() implies !(se_leq(pool)(
                #[trigger] out@[t],
                x,
            )) by {}
            if j > 0 {
                assert(se_leq(pool)(out@[j - 1], x));
            }
            lemma_insert_by_at(se_leq(pool), x, out@, j as int);
            assert(orig.take(k + 1).drop_last() =~= orig.take(k));
            assert(orig.skip(k).skip(1) =~= orig.skip(k + 1));
        }
        out.insert(j, x);
        proof {
            k = k + 1;
        }
    }
    proof {
        assert(orig.take(orig.len() as int) =~= orig);
    }
    out
}

} // verus!

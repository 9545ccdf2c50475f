//! The loader: decodes a database image back into typed tables.
//!
//! The decoding is specified by the spec-level parser [`parse_db`]; the
//! exec loader returns exactly what the parser denotes.  The parser is the
//! left inverse of [`db_bytes`](crate::serial::db_bytes), which is the
//! write / load round trip.

use vstd::prelude::*;
use crate::data::{TagRaw, TermRaw, KanjiRaw, TermIndex, CharIndex, StrHandle};
use crate::VecHandle;
use crate::serial::{RawModel, le32, concat_map, tag_bytes, term_bytes, kanji_bytes, tix_bytes, cix_bytes, str_handle_bytes, tag_bytes_f, term_bytes_f, kanji_bytes_f, tix_bytes_f, cix_bytes_f, str_handle_bytes_f, le32_f, db_bytes, section_bytes};

verus! {

/// The `u32` little-endian value at byte offset `pos`.
pub open spec fn cp32(b: Seq<u8>, pos: int) -> u32 {
    (b[pos] as u32) | ((b[pos + 1] as u32) << 8) | ((b[pos + 2] as u32) << 16) | ((b[pos
        + 3] as u32) << 24)
}

/// Reading back four little-endian bytes gives the value written.
pub proof fn lemma_le32_read(b: Seq<u8>, pos: int, v: u32)
    requires
        0 <= pos,
        pos + 4 <= b.len(),
        b.subrange(pos, pos + 4) == le32(v),
    ensures
        cp32(b, pos) == v,
{
    assert(b[pos] == le32(v)[0]);
    assert(b[pos + 1] == le32(v)[1]);
    assert(b[pos + 2] == le32(v)[2]);
    assert(b[pos + 3] == le32(v)[3]);
    assert(((v & 0xFF) as u8 as u32) | ((((v >> 8) & 0xFF) as u8 as u32) << 8) | ((((v >> 16)
        & 0xFF) as u8 as u32) << 16) | ((((v >> 24) & 0xFF) as u8 as u32) << 24) == v)
        by (bit_vector);
}

pub open spec fn tag_at(b: Seq<u8>, pos: int) -> TagRaw {
    TagRaw {
        name: cp32(b, pos),
        category: cp32(b, pos + 4),
        order: cp32(b, pos + 8),
        notes: cp32(b, pos + 12),
    }
}

pub open spec fn handle_at(b: Seq<u8>, pos: int) -> VecHandle {
    VecHandle { offset: cp32(b, pos), length: cp32(b, pos + 4) }
}

pub open spec fn term_at(b: Seq<u8>, pos: int) -> TermRaw {
    TermRaw {
        expression: cp32(b, pos),
        reading: cp32(b, pos + 4),
        search_key: cp32(b, pos + 8),
        score: cp32(b, pos + 12),
        sequence: cp32(b, pos + 16),
        frequency: cp32(b, pos + 20),
        source: cp32(b, pos + 24),
        glossary: handle_at(b, pos + 28),
        rules: handle_at(b, pos + 36),
        term_tags: handle_at(b, pos + 44),
        definition_tags: handle_at(b, pos + 52),
    }
}

pub open spec fn kanji_at(b: Seq<u8>, pos: int) -> KanjiRaw {
    KanjiRaw {
        character: cp32(b, pos),
        frequency: cp32(b, pos + 4),
        source: cp32(b, pos + 8),
        meanings: handle_at(b, pos + 12),
        onyomi: handle_at(b, pos + 20),
        kunyomi: handle_at(b, pos + 28),
        tags: handle_at(b, pos + 36),
        stats: handle_at(b, pos + 44),
    }
}

pub open spec fn tix_at(b: Seq<u8>, pos: int) -> TermIndex {
    TermIndex { key: cp32(b, pos), term: cp32(b, pos + 4) }
}

pub open spec fn cix_at(b: Seq<u8>, pos: int) -> CharIndex {
    CharIndex { character: cp32(b, pos), indexes: handle_at(b, pos + 4) }
}

pub open spec fn strh_at(b: Seq<u8>, pos: int) -> StrHandle {
    StrHandle { offset: cp32(b, pos), length: cp32(b, pos + 4) }
}

pub open spec fn u32_at(b: Seq<u8>, pos: int) -> u32 {
    cp32(b, pos)
}

pub open spec fn tag_rd() -> spec_fn(Seq<u8>, int) -> TagRaw {
    |b: Seq<u8>, pos: int| tag_at(b, pos)
}

pub open spec fn term_rd() -> spec_fn(Seq<u8>, int) -> TermRaw {
    |b: Seq<u8>, pos: int| term_at(b, pos)
}

pub open spec fn kanji_rd() -> spec_fn(Seq<u8>, int) -> KanjiRaw {
    |b: Seq<u8>, pos: int| kanji_at(b, pos)
}

pub open spec fn tix_rd() -> spec_fn(Seq<u8>, int) -> TermIndex {
    |b: Seq<u8>, pos: int| tix_at(b, pos)
}

pub open spec fn cix_rd() -> spec_fn(Seq<u8>, int) -> CharIndex {
    |b: Seq<u8>, pos: int| cix_at(b, pos)
}

pub open spec fn strh_rd() -> spec_fn(Seq<u8>, int) -> StrHandle {
    |b: Seq<u8>, pos: int| strh_at(b, pos)
}

pub open spec fn u32_rd() -> spec_fn(Seq<u8>, int) -> u32 {
    |b: Seq<u8>, pos: int| u32_at(b, pos)
}

/// Parses `n` records of `size` bytes each, reading one with `rd`.
pub open spec fn parse_records<T>(
    b: Seq<u8>,
    pos: int,
    n: int,
    size: int,
    rd: spec_fn(Seq<u8>, int) -> T,
) -> Option<(Seq<T>, int)>
    decreases n,
{
    if n <= 0 {
        Some((Seq::empty(), pos))
    } else if pos + size > b.len() {
        None
    } else {
        match parse_records(b, pos + size, n - 1, size, rd) {
            Some(res) => Some((seq![rd(b, pos)] + res.0, res.1)),
            None => None,
        }
    }
}

/// Parses a length-prefixed section of `size`-byte records.
pub open spec fn parse_section<T>(b: Seq<u8>, pos: int, size: int, rd: spec_fn(Seq<u8>, int) -> T) -> Option<
    (Seq<T>, int),
> {
    if pos < 0 || pos + 4 > b.len() {
        None
    } else {
        parse_records(b, pos + 4, cp32(b, pos) as int, size, rd)
    }
}

/// Parses the blob: a `u32` byte length, then that many raw bytes.
pub open spec fn parse_blob(b: Seq<u8>, pos: int) -> Option<(Seq<u8>, int)> {
    if pos < 0 || pos + 4 > b.len() {
        None
    } else {
        let n = cp32(b, pos) as int;
        if pos + 4 + n > b.len() {
            None
        } else {
            Some((b.subrange(pos + 4, pos + 4 + n), pos + 4 + n))
        }
    }
}

/// The whole image, all nine sections in write order.  Trailing bytes are
/// ignored, as a mapped file may be padded.
pub open spec fn parse_db(b: Seq<u8>) -> Option<RawModel> {
    match parse_section(b, 0, 16, tag_rd()) {
        None => None,
        Some((tags, p1)) => match parse_section(b, p1, 60, term_rd()) {
            None => None,
            Some((terms, p2)) => match parse_section(b, p2, 52, kanji_rd()) {
                None => None,
                Some((kanji, p3)) => match parse_section(b, p3, 8, tix_rd()) {
                    None => None,
                    Some((prefix, p4)) => match parse_section(b, p4, 8, tix_rd()) {
                        None => None,
                        Some((suffix, p5)) => match parse_section(b, p5, 12, cix_rd()) {
                            None => None,
                            Some((chars, p6)) => match parse_section(b, p6, 4, u32_rd()) {
                                None => None,
                                Some((vector_data, p7)) => match parse_section(
                                    b,
                                    p7,
                                    8,
                                    strh_rd(),
                                ) {
                                    None => None,
                                    Some((string_list, p8)) => match parse_blob(b, p8) {
                                        None => None,
                                        Some((string_data, _p9)) => Some(
                                            RawModel {
                                                tags,
                                                terms,
                                                kanji,
                                                index_prefix_jp: prefix,
                                                index_suffix_jp: suffix,
                                                index_chars_jp: chars,
                                                vector_data,
                                                string_list,
                                                string_data,
                                            },
                                        ),
                                    },
                                },
                            },
                        },
                    },
                },
            },
        },
    }
}

/// The byte length of `n` records under an encoding of fixed `size`.
pub proof fn lemma_concat_map_len<T>(s: Seq<T>, f: spec_fn(T) -> Seq<u8>, size: int)
    requires
        forall|x: T| (#[trigger] f(x)).len() == size,
    ensures
        concat_map(s, f).len() == size * s.len(),
    decreases s.len(),
{
    if s.len() > 0 {
        lemma_concat_map_len(s.drop_last(), f, size);
        assert(size * (s.len() - 1) + size == size * s.len()) by (nonlinear_arith);
    }
}

/// Front decomposition of a section's bytes.
pub proof fn lemma_concat_map_front<T>(s: Seq<T>, f: spec_fn(T) -> Seq<u8>)
    requires
        s.len() > 0,
    ensures
        concat_map(s, f) == f(s[0]) + concat_map(s.skip(1), f),
    decreases s.len(),
{
    if s.len() == 1 {
        assert(s.drop_last() =~= Seq::<T>::empty());
        assert(s.skip(1) =~= Seq::<T>::empty());
        assert(concat_map(s, f) =~= f(s[0]) + concat_map(s.skip(1), f));
    } else {
        let dl = s.drop_last();
        lemma_concat_map_front(dl, f);
        assert(dl[0] == s[0]);
        assert(dl.skip(1) =~= s.skip(1).drop_last());
        assert(s.skip(1).last() == s.last());
        assert(concat_map(s.skip(1), f) == concat_map(dl.skip(1), f) + f(s.last()));
        assert(concat_map(s, f) =~= f(s[0]) + concat_map(s.skip(1), f));
    }
}

/// Parsing `n` fixed-size records from their own encoding gives them back.
pub proof fn lemma_parse_records_inverse<T>(
    b: Seq<u8>,
    pos: int,
    s: Seq<T>,
    size: int,
    rd: spec_fn(Seq<u8>, int) -> T,
    f: spec_fn(T) -> Seq<u8>,
)
    requires
        size > 0,
        0 <= pos,
        pos + size * s.len() <= b.len(),
        forall|x: T| (#[trigger] f(x)).len() == size,
        b.subrange(pos, pos + size * s.len()) == concat_map(s, f),
        forall|t: T, p: int|
            #![trigger rd(b, p), f(t)]
            0 <= p && p + size <= b.len() && b.subrange(p, p + size) == f(t) ==> rd(b, p) == t,
    ensures
        parse_records(b, pos, s.len() as int, size, rd) == Some((s, pos + size * s.len())),
    decreases s.len(),
{
    if s.len() == 0 {
        assert(parse_records(b, pos, 0, size, rd) == Some((Seq::<T>::empty(), pos)));
        assert(s =~= Seq::<T>::empty());
    } else {
        lemma_concat_map_front(s, f);
        lemma_concat_map_len(s.skip(1), f, size);
        lemma_concat_map_len(s, f, size);
        assert(size * s.len() == size + size * (s.len() - 1)) by (nonlinear_arith);
        assert(b.subrange(pos, pos + size) =~= f(s[0]));
        assert(rd(b, pos) == s[0]);
        let rest = concat_map(s.skip(1), f);
        let whole = concat_map(s, f);
        assert forall|k: int|
            0 <= k < size * s.skip(1).len() implies b.subrange(
            pos + size,
            pos + size + size * s.skip(1).len(),
        )[k] == rest[k] by {
            assert(whole[size + k] == rest[k]);
            assert(b.subrange(pos, pos + size * s.len())[size + k] == b[pos + size + k]);
        }
        assert(b.subrange(pos + size, pos + size + size * s.skip(1).len()) =~= rest);
        lemma_parse_records_inverse(b, pos + size, s.skip(1), size, rd, f);
        assert(seq![s[0]] + s.skip(1) =~= s);
    }
}

pub proof fn lemma_tag_read(b: Seq<u8>, p: int, t: TagRaw)
    requires
        0 <= p,
        p + 16 <= b.len(),
        b.subrange(p, p + 16) == tag_bytes(t),
    ensures
        tag_at(b, p) == t,
{
    let ghost tag_bytes_t = tag_bytes(t);
    assert forall|k: int| 0 <= k < 4 implies b.subrange(p + 0, p + 4)[k] == le32(t.name)[k] by {
        assert(b.subrange(p, p + 16)[k + 0] == tag_bytes_t[k + 0]);
    }
    assert(b.subrange(p + 0, p + 4) =~= le32(t.name));
    lemma_le32_read(b, p + 0, t.name);
    assert forall|k: int| 0 <= k < 4 implies b.subrange(p + 4, p + 8)[k] == le32(t.category)[k] by {
        assert(b.subrange(p, p + 16)[k + 4] == tag_bytes_t[k + 4]);
    }
    assert(b.subrange(p + 4, p + 8) =~= le32(t.category));
    lemma_le32_read(b, p + 4, t.category);
    assert forall|k: int| 0 <= k < 4 implies b.subrange(p + 8, p + 12)[k] == le32(t.order)[k] by {
        assert(b.subrange(p, p + 16)[k + 8] == tag_bytes_t[k + 8]);
    }
    assert(b.subrange(p + 8, p + 12) =~= le32(t.order));
    lemma_le32_read(b, p + 8, t.order);
    assert forall|k: int| 0 <= k < 4 implies b.subrange(p + 12, p + 16)[k] == le32(t.notes)[k] by {
        assert(b.subrange(p, p + 16)[k + 12] == tag_bytes_t[k + 12]);
    }
    assert(b.subrange(p + 12, p + 16) =~= le32(t.notes));
    lemma_le32_read(b, p + 12, t.notes);
}

pub proof fn lemma_term_read(b: Seq<u8>, p: int, t: TermRaw)
    requires
        0 <= p,
        p + 60 <= b.len(),
        b.subrange(p, p + 60) == term_bytes(t),
    ensures
        term_at(b, p) == t,
{
    let ghost term_bytes_t = term_bytes(t);
    assert forall|k: int| 0 <= k < 4 implies b.subrange(p + 0, p + 4)[k] == le32(t.expression)[k] by {
        assert(b.subrange(p, p + 60)[k + 0] == term_bytes_t[k + 0]);
    }
    assert(b.subrange(p + 0, p + 4) =~= le32(t.expression));
    lemma_le32_read(b, p + 0, t.expression);
    assert forall|k: int| 0 <= k < 4 implies b.subrange(p + 4, p + 8)[k] == le32(t.reading)[k] by {
        assert(b.subrange(p, p + 60)[k + 4] == term_bytes_t[k + 4]);
    }
    assert(b.subrange(p + 4, p + 8) =~= le32(t.reading));
    lemma_le32_read(b, p + 4, t.reading);
    assert forall|k: int| 0 <= k < 4 implies b.subrange(p + 8, p + 12)[k] == le32(t.search_key)[k] by {
        assert(b.subrange(p, p + 60)[k + 8] == term_bytes_t[k + 8]);
    }
    assert(b.subrange(p + 8, p + 12) =~= le32(t.search_key));
    lemma_le32_read(b, p + 8, t.search_key);
    assert forall|k: int| 0 <= k < 4 implies b.subrange(p + 12, p + 16)[k] == le32(t.score)[k] by {
        assert(b.subrange(p, p + 60)[k + 12] == term_bytes_t[k + 12]);
    }
    assert(b.subrange(p + 12, p + 16) =~= le32(t.score));
    lemma_le32_read(b, p + 12, t.score);
    assert forall|k: int| 0 <= k < 4 implies b.subrange(p + 16, p + 20)[k] == le32(t.sequence)[k] by {
        assert(b.subrange(p, p + 60)[k + 16] == term_bytes_t[k + 16]);
    }
    assert(b.subrange(p + 16, p + 20) =~= le32(t.sequence));
    lemma_le32_read(b, p + 16, t.sequence);
    assert forall|k: int| 0 <= k < 4 implies b.subrange(p + 20, p + 24)[k] == le32(t.frequency)[k] by {
        assert(b.subrange(p, p + 60)[k + 20] == term_bytes_t[k + 20]);
    }
    assert(b.subrange(p + 20, p + 24) =~= le32(t.frequency));
    lemma_le32_read(b, p + 20, t.frequency);
    assert forall|k: int| 0 <= k < 4 implies b.subrange(p + 24, p + 28)[k] == le32(t.source)[k] by {
        assert(b.subrange(p, p + 60)[k + 24] == term_bytes_t[k + 24]);
    }
    assert(b.subrange(p + 24, p + 28) =~= le32(t.source));
    lemma_le32_read(b, p + 24, t.source);
    assert forall|k: int| 0 <= k < 4 implies b.subrange(p + 28, p + 32)[k] == le32(t.glossary.offset)[k] by {
        assert(b.subrange(p, p + 60)[k + 28] == term_bytes_t[k + 28]);
    }
    assert(b.subrange(p + 28, p + 32) =~= le32(t.glossary.offset));
    lemma_le32_read(b, p + 28, t.glossary.offset);
    assert forall|k: int| 0 <= k < 4 implies b.subrange(p + 32, p + 36)[k] == le32(t.glossary.length)[k] by {
        assert(b.subrange(p, p + 60)[k + 32] == term_bytes_t[k + 32]);
    }
    assert(b.subrange(p + 32, p + 36) =~= le32(t.glossary.length));
    lemma_le32_read(b, p + 32, t.glossary.length);
    assert forall|k: int| 0 <= k < 4 implies b.subrange(p + 36, p + 40)[k] == le32(t.rules.offset)[k] by {
        assert(b.subrange(p, p + 60)[k + 36] == term_bytes_t[k + 36]);
    }
    assert(b.subrange(p + 36, p + 40) =~= le32(t.rules.offset));
    lemma_le32_read(b, p + 36, t.rules.offset);
    assert forall|k: int| 0 <= k < 4 implies b.subrange(p + 40, p + 44)[k] == le32(t.rules.length)[k] by {
        assert(b.subrange(p, p + 60)[k + 40] == term_bytes_t[k + 40]);
    }
    assert(b.subrange(p + 40, p + 44) =~= le32(t.rules.length));
    lemma_le32_read(b, p + 40, t.rules.length);
    assert forall|k: int| 0 <= k < 4 implies b.subrange(p + 44, p + 48)[k] == le32(t.term_tags.offset)[k] by {
        assert(b.subrange(p, p + 60)[k + 44] == term_bytes_t[k + 44]);
    }
    assert(b.subrange(p + 44, p + 48) =~= le32(t.term_tags.offset));
    lemma_le32_read(b, p + 44, t.term_tags.offset);
    assert forall|k: int| 0 <= k < 4 implies b.subrange(p + 48, p + 52)[k] == le32(t.term_tags.length)[k] by {
        assert(b.subrange(p, p + 60)[k + 48] == term_bytes_t[k + 48]);
    }
    assert(b.subrange(p + 48, p + 52) =~= le32(t.term_tags.length));
    lemma_le32_read(b, p + 48, t.term_tags.length);
    assert forall|k: int| 0 <= k < 4 implies b.subrange(p + 52, p + 56)[k] == le32(t.definition_tags.offset)[k] by {
        assert(b.subrange(p, p + 60)[k + 52] == term_bytes_t[k + 52]);
    }
    assert(b.subrange(p + 52, p + 56) =~= le32(t.definition_tags.offset));
    lemma_le32_read(b, p + 52, t.definition_tags.offset);
    assert forall|k: int| 0 <= k < 4 implies b.subrange(p + 56, p + 60)[k] == le32(t.definition_tags.length)[k] by {
        assert(b.subrange(p, p + 60)[k + 56] == term_bytes_t[k + 56]);
    }
    assert(b.subrange(p + 56, p + 60) =~= le32(t.definition_tags.length));
    lemma_le32_read(b, p + 56, t.definition_tags.length);
}

pub proof fn lemma_kanji_read(b: Seq<u8>, p: int, t: KanjiRaw)
    requires
        0 <= p,
        p + 52 <= b.len(),
        b.subrange(p, p + 52) == kanji_bytes(t),
    ensures
        kanji_at(b, p) == t,
{
    let ghost kanji_bytes_t = kanji_bytes(t);
    assert forall|k: int| 0 <= k < 4 implies b.subrange(p + 0, p + 4)[k] == le32(t.character)[k] by {
        assert(b.subrange(p, p + 52)[k + 0] == kanji_bytes_t[k + 0]);
    }
    assert(b.subrange(p + 0, p + 4) =~= le32(t.character));
    lemma_le32_read(b, p + 0, t.character);
    assert forall|k: int| 0 <= k < 4 implies b.subrange(p + 4, p + 8)[k] == le32(t.frequency)[k] by {
        assert(b.subrange(p, p + 52)[k + 4] == kanji_bytes_t[k + 4]);
    }
    assert(b.subrange(p + 4, p + 8) =~= le32(t.frequency));
    lemma_le32_read(b, p + 4, t.frequency);
    assert forall|k: int| 0 <= k < 4 implies b.subrange(p + 8, p + 12)[k] == le32(t.source)[k] by {
        assert(b.subrange(p, p + 52)[k + 8] == kanji_bytes_t[k + 8]);
    }
    assert(b.subrange(p + 8, p + 12) =~= le32(t.source));
    lemma_le32_read(b, p + 8, t.source);
    assert forall|k: int| 0 <= k < 4 implies b.subrange(p + 12, p + 16)[k] == le32(t.meanings.offset)[k] by {
        assert(b.subrange(p, p + 52)[k + 12] == kanji_bytes_t[k + 12]);
    }
    assert(b.subrange(p + 12, p + 16) =~= le32(t.meanings.offset));
    lemma_le32_read(b, p + 12, t.meanings.offset);
    assert forall|k: int| 0 <= k < 4 implies b.subrange(p + 16, p + 20)[k] == le32(t.meanings.length)[k] by {
        assert(b.subrange(p, p + 52)[k + 16] == kanji_bytes_t[k + 16]);
    }
    assert(b.subrange(p + 16, p + 20) =~= le32(t.meanings.length));
    lemma_le32_read(b, p + 16, t.meanings.length);
    assert forall|k: int| 0 <= k < 4 implies b.subrange(p + 20, p + 24)[k] == le32(t.onyomi.offset)[k] by {
        assert(b.subrange(p, p + 52)[k + 20] == kanji_bytes_t[k + 20]);
    }
    assert(b.subrange(p + 20, p + 24) =~= le32(t.onyomi.offset));
    lemma_le32_read(b, p + 20, t.onyomi.offset);
    assert forall|k: int| 0 <= k < 4 implies b.subrange(p + 24, p + 28)[k] == le32(t.onyomi.length)[k] by {
        assert(b.subrange(p, p + 52)[k + 24] == kanji_bytes_t[k + 24]);
    }
    assert(b.subrange(p + 24, p + 28) =~= le32(t.onyomi.length));
    lemma_le32_read(b, p + 24, t.onyomi.length);
    assert forall|k: int| 0 <= k < 4 implies b.subrange(p + 28, p + 32)[k] == le32(t.kunyomi.offset)[k] by {
        assert(b.subrange(p, p + 52)[k + 28] == kanji_bytes_t[k + 28]);
    }
    assert(b.subrange(p + 28, p + 32) =~= le32(t.kunyomi.offset));
    lemma_le32_read(b, p + 28, t.kunyomi.offset);
    assert forall|k: int| 0 <= k < 4 implies b.subrange(p + 32, p + 36)[k] == le32(t.kunyomi.length)[k] by {
        assert(b.subrange(p, p + 52)[k + 32] == kanji_bytes_t[k + 32]);
    }
    assert(b.subrange(p + 32, p + 36) =~= le32(t.kunyomi.length));
    lemma_le32_read(b, p + 32, t.kunyomi.length);
    assert forall|k: int| 0 <= k < 4 implies b.subrange(p + 36, p + 40)[k] == le32(t.tags.offset)[k] by {
        assert(b.subrange(p, p + 52)[k + 36] == kanji_bytes_t[k + 36]);
    }
    assert(b.subrange(p + 36, p + 40) =~= le32(t.tags.offset));
    lemma_le32_read(b, p + 36, t.tags.offset);
    assert forall|k: int| 0 <= k < 4 implies b.subrange(p + 40, p + 44)[k] == le32(t.tags.length)[k] by {
        assert(b.subrange(p, p + 52)[k + 40] == kanji_bytes_t[k + 40]);
    }
    assert(b.subrange(p + 40, p + 44) =~= le32(t.tags.length));
    lemma_le32_read(b, p + 40, t.tags.length);
    assert forall|k: int| 0 <= k < 4 implies b.subrange(p + 44, p + 48)[k] == le32(t.stats.offset)[k] by {
        assert(b.subrange(p, p + 52)[k + 44] == kanji_bytes_t[k + 44]);
    }
    assert(b.subrange(p + 44, p + 48) =~= le32(t.stats.offset));
    lemma_le32_read(b, p + 44, t.stats.offset);
    assert forall|k: int| 0 <= k < 4 implies b.subrange(p + 48, p + 52)[k] == le32(t.stats.length)[k] by {
        assert(b.subrange(p, p + 52)[k + 48] == kanji_bytes_t[k + 48]);
    }
    assert(b.subrange(p + 48, p + 52) =~= le32(t.stats.length));
    lemma_le32_read(b, p + 48, t.stats.length);
}

pub proof fn lemma_tix_read(b: Seq<u8>, p: int, t: TermIndex)
    requires
        0 <= p,
        p + 8 <= b.len(),
        b.subrange(p, p + 8) == tix_bytes(t),
    ensures
        tix_at(b, p) == t,
{
    let ghost tix_bytes_t = tix_bytes(t);
    assert forall|k: int| 0 <= k < 4 implies b.subrange(p + 0, p + 4)[k] == le32(t.key)[k] by {
        assert(b.subrange(p, p + 8)[k + 0] == tix_bytes_t[k + 0]);
    }
    assert(b.subrange(p + 0, p + 4) =~= le32(t.key));
    lemma_le32_read(b, p + 0, t.key);
    assert forall|k: int| 0 <= k < 4 implies b.subrange(p + 4, p + 8)[k] == le32(t.term)[k] by {
        assert(b.subrange(p, p + 8)[k + 4] == tix_bytes_t[k + 4]);
    }
    assert(b.subrange(p + 4, p + 8) =~= le32(t.term));
    lemma_le32_read(b, p + 4, t.term);
}

pub proof fn lemma_cix_read(b: Seq<u8>, p: int, t: CharIndex)
    requires
        0 <= p,
        p + 12 <= b.len(),
        b.subrange(p, p + 12) == cix_bytes(t),
    ensures
        cix_at(b, p) == t,
{
    let ghost cix_bytes_t = cix_bytes(t);
    assert forall|k: int| 0 <= k < 4 implies b.subrange(p + 0, p + 4)[k] == le32(t.character)[k] by {
        assert(b.subrange(p, p + 12)[k + 0] == cix_bytes_t[k + 0]);
    }
    assert(b.subrange(p + 0, p + 4) =~= le32(t.character));
    lemma_le32_read(b, p + 0, t.character);
    assert forall|k: int| 0 <= k < 4 implies b.subrange(p + 4, p + 8)[k] == le32(t.indexes.offset)[k] by {
        assert(b.subrange(p, p + 12)[k + 4] == cix_bytes_t[k + 4]);
    }
    assert(b.subrange(p + 4, p + 8) =~= le32(t.indexes.offset));
    lemma_le32_read(b, p + 4, t.indexes.offset);
    assert forall|k: int| 0 <= k < 4 implies b.subrange(p + 8, p + 12)[k] == le32(t.indexes.length)[k] by {
        assert(b.subrange(p, p + 12)[k + 8] == cix_bytes_t[k + 8]);
    }
    assert(b.subrange(p + 8, p + 12) =~= le32(t.indexes.length));
    lemma_le32_read(b, p + 8, t.indexes.length);
}

pub proof fn lemma_strh_read(b: Seq<u8>, p: int, t: StrHandle)
    requires
        0 <= p,
        p + 8 <= b.len(),
        b.subrange(p, p + 8) == str_handle_bytes(t),
    ensures
        strh_at(b, p) == t,
{
    let ghost strh_bytes_t = str_handle_bytes(t);
    assert forall|k: int| 0 <= k < 4 implies b.subrange(p + 0, p + 4)[k] == le32(t.offset)[k] by {
        assert(b.subrange(p, p + 8)[k + 0] == strh_bytes_t[k + 0]);
    }
    assert(b.subrange(p + 0, p + 4) =~= le32(t.offset));
    lemma_le32_read(b, p + 0, t.offset);
    assert forall|k: int| 0 <= k < 4 implies b.subrange(p + 4, p + 8)[k] == le32(t.length)[k] by {
        assert(b.subrange(p, p + 8)[k + 4] == strh_bytes_t[k + 4]);
    }
    assert(b.subrange(p + 4, p + 8) =~= le32(t.length));
    lemma_le32_read(b, p + 4, t.length);
}

pub proof fn lemma_u32_read(b: Seq<u8>, p: int, t: u32)
    requires
        0 <= p,
        p + 4 <= b.len(),
        b.subrange(p, p + 4) == le32(t),
    ensures
        u32_at(b, p) == t,
{
    lemma_le32_read(b, p, t);
}


/// Parsing a section from its own bytes gives back the records and stops
/// right after them.
pub proof fn lemma_parse_section_inverse<T>(
    b: Seq<u8>,
    pos: int,
    s: Seq<T>,
    size: int,
    rd: spec_fn(Seq<u8>, int) -> T,
    f: spec_fn(T) -> Seq<u8>,
)
    requires
        size > 0,
        0 <= pos,
        s.len() <= u32::MAX as int,
        pos + 4 + size * s.len() <= b.len(),
        forall|x: T| (#[trigger] f(x)).len() == size,
        b.subrange(pos, pos + 4 + size * s.len()) == section_bytes(s, f),
        forall|t: T, p: int|
            #![trigger rd(b, p), f(t)]
            0 <= p && p + size <= b.len() && b.subrange(p, p + size) == f(t) ==> rd(b, p) == t,
    ensures
        parse_section(b, pos, size, rd) == Some((s, pos + 4 + size * s.len())),
{
    let sec = section_bytes(s, f);
    lemma_concat_map_len(s, f, size);
    assert(size * s.len() >= 0) by (nonlinear_arith)
        requires
            size > 0,
            s.len() >= 0,
    ;
    assert forall|k: int|
        #![trigger b.subrange(pos, pos + 4)[k]]
        0 <= k < 4 implies b.subrange(pos, pos + 4)[k] == le32(s.len() as u32)[k] by {
        assert(b.subrange(pos, pos + 4 + size * s.len())[k] == sec[k]);
    }
    assert(b.subrange(pos, pos + 4) =~= le32(s.len() as u32));
    lemma_le32_read(b, pos, s.len() as u32);
    assert(cp32(b, pos) as int == s.len());
    assert forall|k: int|
        #![trigger b.subrange(pos + 4, pos + 4 + size * s.len())[k]]
        0 <= k < size * s.len() implies b.subrange(pos + 4, pos + 4 + size * s.len())[k]
        == concat_map(s, f)[k] by {
        assert(b.subrange(pos, pos + 4 + size * s.len())[k + 4] == sec[k + 4]);
    }
    assert(b.subrange(pos + 4, pos + 4 + size * s.len()) =~= concat_map(s, f));
    lemma_parse_records_inverse(b, pos + 4, s, size, rd, f);
}

/// Byte offsets of the section boundaries within an image of `m`.
pub open spec fn rt_p1(m: RawModel) -> int {
    4 + 16 * (m.tags.len() as int)
}

pub open spec fn rt_p2(m: RawModel) -> int {
    rt_p1(m) + 4 + 60 * (m.terms.len() as int)
}

pub open spec fn rt_p3(m: RawModel) -> int {
    rt_p2(m) + 4 + 52 * (m.kanji.len() as int)
}

pub open spec fn rt_p4(m: RawModel) -> int {
    rt_p3(m) + 4 + 8 * (m.index_prefix_jp.len() as int)
}

pub open spec fn rt_p5(m: RawModel) -> int {
    rt_p4(m) + 4 + 8 * (m.index_suffix_jp.len() as int)
}

pub open spec fn rt_p6(m: RawModel) -> int {
    rt_p5(m) + 4 + 12 * (m.index_chars_jp.len() as int)
}

pub open spec fn rt_p7(m: RawModel) -> int {
    rt_p6(m) + 4 + 4 * (m.vector_data.len() as int)
}

pub open spec fn rt_p8(m: RawModel) -> int {
    rt_p7(m) + 4 + 8 * (m.string_list.len() as int)
}

pub open spec fn rt_p9(m: RawModel) -> int {
    rt_p8(m) + 4 + m.string_data.len() as int
}

/// The fixed record sizes of every section's encoding.
pub proof fn lemma_record_sizes()
    ensures
        forall|x: TagRaw| (#[trigger] tag_bytes_f()(x)).len() == 16,
        forall|x: TermRaw| (#[trigger] term_bytes_f()(x)).len() == 60,
        forall|x: KanjiRaw| (#[trigger] kanji_bytes_f()(x)).len() == 52,
        forall|x: TermIndex| (#[trigger] tix_bytes_f()(x)).len() == 8,
        forall|x: CharIndex| (#[trigger] cix_bytes_f()(x)).len() == 12,
        forall|x: u32| (#[trigger] le32_f()(x)).len() == 4,
        forall|x: StrHandle| (#[trigger] str_handle_bytes_f()(x)).len() == 8,
{
}

/// The image's total length and the lengths of its pieces.
pub proof fn lemma_rt_lens(m: RawModel)
    ensures
        section_bytes(m.tags, tag_bytes_f()).len() == rt_p1(m),
        section_bytes(m.terms, term_bytes_f()).len() == rt_p2(m) - rt_p1(m),
        section_bytes(m.kanji, kanji_bytes_f()).len() == rt_p3(m) - rt_p2(m),
        section_bytes(m.index_prefix_jp, tix_bytes_f()).len() == rt_p4(m) - rt_p3(m),
        section_bytes(m.index_suffix_jp, tix_bytes_f()).len() == rt_p5(m) - rt_p4(m),
        section_bytes(m.index_chars_jp, cix_bytes_f()).len() == rt_p6(m) - rt_p5(m),
        section_bytes(m.vector_data, le32_f()).len() == rt_p7(m) - rt_p6(m),
        section_bytes(m.string_list, str_handle_bytes_f()).len() == rt_p8(m) - rt_p7(m),
        db_bytes(m).len() == rt_p9(m),
{
    lemma_record_sizes();
    lemma_concat_map_len(m.tags, tag_bytes_f(), 16);
    lemma_concat_map_len(m.terms, term_bytes_f(), 60);
    lemma_concat_map_len(m.kanji, kanji_bytes_f(), 52);
    lemma_concat_map_len(m.index_prefix_jp, tix_bytes_f(), 8);
    lemma_concat_map_len(m.index_suffix_jp, tix_bytes_f(), 8);
    lemma_concat_map_len(m.index_chars_jp, cix_bytes_f(), 12);
    lemma_concat_map_len(m.vector_data, le32_f(), 4);
    lemma_concat_map_len(m.string_list, str_handle_bytes_f(), 8);
}

#[verifier::rlimit(100)]
proof fn lemma_rt_tags(m: RawModel)
    requires
        m.bounded(),
    ensures
        parse_section(db_bytes(m), 0, 16, tag_rd()) == Some((m.tags, rt_p1(m))),
{
    let b = db_bytes(m);
    lemma_record_sizes();
    lemma_rt_lens(m);
    assert forall|t: TagRaw, p: int|
        #![trigger tag_rd()(b, p), tag_bytes_f()(t)]
        0 <= p && p + 16 <= b.len() && b.subrange(p, p + 16) == tag_bytes_f()(t) implies tag_rd()(
        b,
        p,
    ) == t by {
        lemma_tag_read(b, p, t);
    }
    assert(b.subrange(0, rt_p1(m)) =~= section_bytes(m.tags, tag_bytes_f()));
    lemma_parse_section_inverse(b, 0, m.tags, 16, tag_rd(), tag_bytes_f());
}

#[verifier::rlimit(100)]
proof fn lemma_rt_terms(m: RawModel)
    requires
        m.bounded(),
    ensures
        parse_section(db_bytes(m), rt_p1(m), 60, term_rd()) == Some((m.terms, rt_p2(m))),
{
    let b = db_bytes(m);
    lemma_record_sizes();
    lemma_rt_lens(m);
    assert forall|t: TermRaw, p: int|
        #![trigger term_rd()(b, p), term_bytes_f()(t)]
        0 <= p && p + 60 <= b.len() && b.subrange(p, p + 60) == term_bytes_f()(t) implies term_rd()(
        b,
        p,
    ) == t by {
        lemma_term_read(b, p, t);
    }
    assert(b.subrange(rt_p1(m), rt_p2(m)) =~= section_bytes(m.terms, term_bytes_f()));
    lemma_parse_section_inverse(b, rt_p1(m), m.terms, 60, term_rd(), term_bytes_f());
}

#[verifier::rlimit(100)]
proof fn lemma_rt_kanji(m: RawModel)
    requires
        m.bounded(),
    ensures
        parse_section(db_bytes(m), rt_p2(m), 52, kanji_rd()) == Some((m.kanji, rt_p3(m))),
{
    let b = db_bytes(m);
    lemma_record_sizes();
    lemma_rt_lens(m);
    assert forall|t: KanjiRaw, p: int|
        #![trigger kanji_rd()(b, p), kanji_bytes_f()(t)]
        0 <= p && p + 52 <= b.len() && b.subrange(p, p + 52) == kanji_bytes_f()(t) implies kanji_rd()(
        b,
        p,
    ) == t by {
        lemma_kanji_read(b, p, t);
    }
    assert(b.subrange(rt_p2(m), rt_p3(m)) =~= section_bytes(m.kanji, kanji_bytes_f()));
    lemma_parse_section_inverse(b, rt_p2(m), m.kanji, 52, kanji_rd(), kanji_bytes_f());
}

#[verifier::rlimit(100)]
proof fn lemma_rt_prefix(m: RawModel)
    requires
        m.bounded(),
    ensures
        parse_section(db_bytes(m), rt_p3(m), 8, tix_rd()) == Some((m.index_prefix_jp, rt_p4(m))),
{
    let b = db_bytes(m);
    lemma_record_sizes();
    lemma_rt_lens(m);
    assert forall|t: TermIndex, p: int|
        #![trigger tix_rd()(b, p), tix_bytes_f()(t)]
        0 <= p && p + 8 <= b.len() && b.subrange(p, p + 8) == tix_bytes_f()(t) implies tix_rd()(
        b,
        p,
    ) == t by {
        lemma_tix_read(b, p, t);
    }
    assert(b.subrange(rt_p3(m), rt_p4(m)) =~= section_bytes(m.index_prefix_jp, tix_bytes_f()));
    lemma_parse_section_inverse(b, rt_p3(m), m.index_prefix_jp, 8, tix_rd(), tix_bytes_f());
}

#[verifier::rlimit(100)]
proof fn lemma_rt_suffix(m: RawModel)
    requires
        m.bounded(),
    ensures
        parse_section(db_bytes(m), rt_p4(m), 8, tix_rd()) == Some((m.index_suffix_jp, rt_p5(m))),
{
    let b = db_bytes(m);
    lemma_record_sizes();
    lemma_rt_lens(m);
    assert forall|t: TermIndex, p: int|
        #![trigger tix_rd()(b, p), tix_bytes_f()(t)]
        0 <= p && p + 8 <= b.len() && b.subrange(p, p + 8) == tix_bytes_f()(t) implies tix_rd()(
        b,
        p,
    ) == t by {
        lemma_tix_read(b, p, t);
    }
    assert(b.subrange(rt_p4(m), rt_p5(m)) =~= section_bytes(m.index_suffix_jp, tix_bytes_f()));
    lemma_parse_section_inverse(b, rt_p4(m), m.index_suffix_jp, 8, tix_rd(), tix_bytes_f());
}

#[verifier::rlimit(100)]
proof fn lemma_rt_chars(m: RawModel)
    requires
        m.bounded(),
    ensures
        parse_section(db_bytes(m), rt_p5(m), 12, cix_rd()) == Some((m.index_chars_jp, rt_p6(m))),
{
    let b = db_bytes(m);
    lemma_record_sizes();
    lemma_rt_lens(m);
    assert forall|t: CharIndex, p: int|
        #![trigger cix_rd()(b, p), cix_bytes_f()(t)]
        0 <= p && p + 12 <= b.len() && b.subrange(p, p + 12) == cix_bytes_f()(t) implies cix_rd()(
        b,
        p,
    ) == t by {
        lemma_cix_read(b, p, t);
    }
    assert(b.subrange(rt_p5(m), rt_p6(m)) =~= section_bytes(m.index_chars_jp, cix_bytes_f()));
    lemma_parse_section_inverse(b, rt_p5(m), m.index_chars_jp, 12, cix_rd(), cix_bytes_f());
}

#[verifier::rlimit(100)]
proof fn lemma_rt_vector(m: RawModel)
    requires
        m.bounded(),
    ensures
        parse_section(db_bytes(m), rt_p6(m), 4, u32_rd()) == Some((m.vector_data, rt_p7(m))),
{
    let b = db_bytes(m);
    lemma_record_sizes();
    lemma_rt_lens(m);
    assert forall|t: u32, p: int|
        #![trigger u32_rd()(b, p), le32_f()(t)]
        0 <= p && p + 4 <= b.len() && b.subrange(p, p + 4) == le32_f()(t) implies u32_rd()(
        b,
        p,
    ) == t by {
        lemma_u32_read(b, p, t);
    }
    assert(b.subrange(rt_p6(m), rt_p7(m)) =~= section_bytes(m.vector_data, le32_f()));
    lemma_parse_section_inverse(b, rt_p6(m), m.vector_data, 4, u32_rd(), le32_f());
}

#[verifier::rlimit(100)]
proof fn lemma_rt_strings(m: RawModel)
    requires
        m.bounded(),
    ensures
        parse_section(db_bytes(m), rt_p7(m), 8, strh_rd()) == Some((m.string_list, rt_p8(m))),
{
    let b = db_bytes(m);
    lemma_record_sizes();
    lemma_rt_lens(m);
    assert forall|t: StrHandle, p: int|
        #![trigger strh_rd()(b, p), str_handle_bytes_f()(t)]
        0 <= p && p + 8 <= b.len() && b.subrange(p, p + 8) == str_handle_bytes_f()(t) implies strh_rd()(
        b,
        p,
    ) == t by {
        lemma_strh_read(b, p, t);
    }
    assert(b.subrange(rt_p7(m), rt_p8(m)) =~= section_bytes(m.string_list, str_handle_bytes_f()));
    lemma_parse_section_inverse(b, rt_p7(m), m.string_list, 8, strh_rd(), str_handle_bytes_f());
}

#[verifier::rlimit(100)]
proof fn lemma_rt_blob(m: RawModel)
    requires
        m.bounded(),
    ensures
        parse_blob(db_bytes(m), rt_p8(m)) == Some((m.string_data, rt_p9(m))),
{
    let b = db_bytes(m);
    lemma_record_sizes();
    lemma_rt_lens(m);
    assert forall|k: int|
        #![trigger b.subrange(rt_p8(m), rt_p8(m) + 4)[k]]
        0 <= k < 4 implies b.subrange(rt_p8(m), rt_p8(m) + 4)[k] == le32(
        m.string_data.len() as u32,
    )[k] by {}
    assert(b.subrange(rt_p8(m), rt_p8(m) + 4) =~= le32(m.string_data.len() as u32));
    lemma_le32_read(b, rt_p8(m), m.string_data.len() as u32);
    assert(b.subrange(rt_p8(m) + 4, rt_p9(m)) =~= m.string_data);
}

/// The loader is the left inverse of the serialiser: parsing the bytes of
/// a bounded image yields exactly its tables.
pub proof fn lemma_round_trip(m: RawModel)
    requires
        m.bounded(),
    ensures
        parse_db(db_bytes(m)) == Some(m),
{
    lemma_rt_tags(m);
    lemma_rt_terms(m);
    lemma_rt_kanji(m);
    lemma_rt_prefix(m);
    lemma_rt_suffix(m);
    lemma_rt_chars(m);
    lemma_rt_vector(m);
    lemma_rt_strings(m);
    lemma_rt_blob(m);
}

/// Reads the `u32` little-endian value at `pos`.
#[verifier::loop_isolation(false)]
pub fn read_u32(b: &Vec<u8>, pos: usize) -> (r: u32)
    requires
        pos + 4 <= b@.len(),
    ensures
        r == cp32(b@, pos as int),
{
    let l = b.len();
    (b[pos] as u32) | ((b[pos + 1] as u32) << 8) | ((b[pos + 2] as u32) << 16) | ((b[pos
        + 3] as u32) << 24)
}

/// Reads an arena handle: offset, then length.
#[verifier::loop_isolation(false)]
pub fn read_handle(b: &Vec<u8>, pos: usize) -> (r: VecHandle)
    requires
        pos + 8 <= b@.len(),
    ensures
        r == handle_at(b@, pos as int),
{
    let l = b.len();
    VecHandle { offset: read_u32(b, pos), length: read_u32(b, pos + 4) }
}

/// Reads one section of tags records.
#[verifier::loop_isolation(false)]
fn read_tags(b: &Vec<u8>, pos: usize) -> (r: Option<(Vec<TagRaw>, usize)>)
    ensures
        match r {
            Some(v) => parse_section(b@, pos as int, 16, tag_rd()) == Some((v.0@, v.1 as int))
                && v.1 <= b@.len(),
            None => parse_section(b@, pos as int, 16, tag_rd()) is None,
        },
{
    if b.len() < 4 || pos > b.len() - 4 {
        return None;
    }
    let n = read_u32(b, pos);
    let mut cur: usize = pos + 4;
    let mut out: Vec<TagRaw> = Vec::new();
    let mut i: u32 = 0;
    while i < n
        invariant
            i <= n,
            pos + 4 <= cur <= b@.len(),
            out@.len() == i as int,
            parse_records(b@, pos as int + 4, n as int, 16, tag_rd()) == (match parse_records(
                b@,
                cur as int,
                n as int - i as int,
                16,
                tag_rd(),
            ) {
                Some(res) => Some::<(Seq<TagRaw>, int)>((out@ + res.0, res.1)),
                None => None::<(Seq<TagRaw>, int)>,
            }),
        decreases n - i,
    {
        if b.len() - cur < 16 {
            return None;
        }
        let rec = TagRaw { name: read_u32(b, cur), category: read_u32(b, cur + 4), order: read_u32(b, cur + 8), notes: read_u32(b, cur + 12) };
        proof {
            assert(rec == tag_rd()(b@, cur as int));
            let rest0 = parse_records(b@, cur as int + 16, n as int - i as int - 1, 16, tag_rd());
            if rest0 is Some {
                let res = rest0.unwrap();
                assert(out@.push(rec) + res.0 =~= out@ + (seq![rec] + res.0));
            }
        }
        out.push(rec);
        cur = cur + 16;
        i = i + 1;
    }
    proof {
        assert(out@ + Seq::<TagRaw>::empty() =~= out@);
    }
    Some((out, cur))
}

/// Reads one section of terms records.
#[verifier::loop_isolation(false)]
fn read_terms(b: &Vec<u8>, pos: usize) -> (r: Option<(Vec<TermRaw>, usize)>)
    ensures
        match r {
            Some(v) => parse_section(b@, pos as int, 60, term_rd()) == Some((v.0@, v.1 as int))
                && v.1 <= b@.len(),
            None => parse_section(b@, pos as int, 60, term_rd()) is None,
        },
{
    if b.len() < 4 || pos > b.len() - 4 {
        return None;
    }
    let n = read_u32(b, pos);
    let mut cur: usize = pos + 4;
    let mut out: Vec<TermRaw> = Vec::new();
    let mut i: u32 = 0;
    while i < n
        invariant
            i <= n,
            pos + 4 <= cur <= b@.len(),
            out@.len() == i as int,
            parse_records(b@, pos as int + 4, n as int, 60, term_rd()) == (match parse_records(
                b@,
                cur as int,
                n as int - i as int,
                60,
                term_rd(),
            ) {
                Some(res) => Some::<(Seq<TermRaw>, int)>((out@ + res.0, res.1)),
                None => None::<(Seq<TermRaw>, int)>,
            }),
        decreases n - i,
    {
        if b.len() - cur < 60 {
            return None;
        }
        let rec = TermRaw { expression: read_u32(b, cur), reading: read_u32(b, cur + 4), search_key: read_u32(b, cur + 8), score: read_u32(b, cur + 12), sequence: read_u32(b, cur + 16), frequency: read_u32(b, cur + 20), source: read_u32(b, cur + 24), glossary: read_handle(b, cur + 28), rules: read_handle(b, cur + 36), term_tags: read_handle(b, cur + 44), definition_tags: read_handle(b, cur + 52) };
        proof {
            assert(rec == term_rd()(b@, cur as int));
            let rest0 = parse_records(b@, cur as int + 60, n as int - i as int - 1, 60, term_rd());
            if rest0 is Some {
                let res = rest0.unwrap();
                assert(out@.push(rec) + res.0 =~= out@ + (seq![rec] + res.0));
            }
        }
        out.push(rec);
        cur = cur + 60;
        i = i + 1;
    }
    proof {
        assert(out@ + Seq::<TermRaw>::empty() =~= out@);
    }
    Some((out, cur))
}

/// Reads one section of kanji records.
#[verifier::loop_isolation(false)]
fn read_kanji(b: &Vec<u8>, pos: usize) -> (r: Option<(Vec<KanjiRaw>, usize)>)
    ensures
        match r {
            Some(v) => parse_section(b@, pos as int, 52, kanji_rd()) == Some((v.0@, v.1 as int))
                && v.1 <= b@.len(),
            None => parse_section(b@, pos as int, 52, kanji_rd()) is None,
        },
{
    if b.len() < 4 || pos > b.len() - 4 {
        return None;
    }
    let n = read_u32(b, pos);
    let mut cur: usize = pos + 4;
    let mut out: Vec<KanjiRaw> = Vec::new();
    let mut i: u32 = 0;
    while i < n
        invariant
            i <= n,
            pos + 4 <= cur <= b@.len(),
            out@.len() == i as int,
            parse_records(b@, pos as int + 4, n as int, 52, kanji_rd()) == (match parse_records(
                b@,
                cur as int,
                n as int - i as int,
                52,
                kanji_rd(),
            ) {
                Some(res) => Some::<(Seq<KanjiRaw>, int)>((out@ + res.0, res.1)),
                None => None::<(Seq<KanjiRaw>, int)>,
            }),
        decreases n - i,
    {
        if b.len() - cur < 52 {
            return None;
        }
        let rec = KanjiRaw { character: read_u32(b, cur), frequency: read_u32(b, cur + 4), source: read_u32(b, cur + 8), meanings: read_handle(b, cur + 12), onyomi: read_handle(b, cur + 20), kunyomi: read_handle(b, cur + 28), tags: read_handle(b, cur + 36), stats: read_handle(b, cur + 44) };
        proof {
            assert(rec == kanji_rd()(b@, cur as int));
            let rest0 = parse_records(b@, cur as int + 52, n as int - i as int - 1, 52, kanji_rd());
            if rest0 is Some {
                let res = rest0.unwrap();
                assert(out@.push(rec) + res.0 =~= out@ + (seq![rec] + res.0));
            }
        }
        out.push(rec);
        cur = cur + 52;
        i = i + 1;
    }
    proof {
        assert(out@ + Seq::<KanjiRaw>::empty() =~= out@);
    }
    Some((out, cur))
}

/// Reads one section of tix records.
#[verifier::loop_isolation(false)]
fn read_tix(b: &Vec<u8>, pos: usize) -> (r: Option<(Vec<TermIndex>, usize)>)
    ensures
        match r {
            Some(v) => parse_section(b@, pos as int, 8, tix_rd()) == Some((v.0@, v.1 as int))
                && v.1 <= b@.len(),
            None => parse_section(b@, pos as int, 8, tix_rd()) is None,
        },
{
    if b.len() < 4 || pos > b.len() - 4 {
        return None;
    }
    let n = read_u32(b, pos);
    let mut cur: usize = pos + 4;
    let mut out: Vec<TermIndex> = Vec::new();
    let mut i: u32 = 0;
    while i < n
        invariant
            i <= n,
            pos + 4 <= cur <= b@.len(),
            out@.len() == i as int,
            parse_records(b@, pos as int + 4, n as int, 8, tix_rd()) == (match parse_records(
                b@,
                cur as int,
                n as int - i as int,
                8,
                tix_rd(),
            ) {
                Some(res) => Some::<(Seq<TermIndex>, int)>((out@ + res.0, res.1)),
                None => None::<(Seq<TermIndex>, int)>,
            }),
        decreases n - i,
    {
        if b.len() - cur < 8 {
            return None;
        }
        let rec = TermIndex { key: read_u32(b, cur), term: read_u32(b, cur + 4) };
        proof {
            assert(rec == tix_rd()(b@, cur as int));
            let rest0 = parse_records(b@, cur as int + 8, n as int - i as int - 1, 8, tix_rd());
            if rest0 is Some {
                let res = rest0.unwrap();
                assert(out@.push(rec) + res.0 =~= out@ + (seq![rec] + res.0));
            }
        }
        out.push(rec);
        cur = cur + 8;
        i = i + 1;
    }
    proof {
        assert(out@ + Seq::<TermIndex>::empty() =~= out@);
    }
    Some((out, cur))
}

/// Reads one section of cix records.
#[verifier::loop_isolation(false)]
fn read_cix(b: &Vec<u8>, pos: usize) -> (r: Option<(Vec<CharIndex>, usize)>)
    ensures
        match r {
            Some(v) => parse_section(b@, pos as int, 12, cix_rd()) == Some((v.0@, v.1 as int))
                && v.1 <= b@.len(),
            None => parse_section(b@, pos as int, 12, cix_rd()) is None,
        },
{
    if b.len() < 4 || pos > b.len() - 4 {
        return None;
    }
    let n = read_u32(b, pos);
    let mut cur: usize = pos + 4;
    let mut out: Vec<CharIndex> = Vec::new();
    let mut i: u32 = 0;
    while i < n
        invariant
            i <= n,
            pos + 4 <= cur <= b@.len(),
            out@.len() == i as int,
            parse_records(b@, pos as int + 4, n as int, 12, cix_rd()) == (match parse_records(
                b@,
                cur as int,
                n as int - i as int,
                12,
                cix_rd(),
            ) {
                Some(res) => Some::<(Seq<CharIndex>, int)>((out@ + res.0, res.1)),
                None => None::<(Seq<CharIndex>, int)>,
            }),
        decreases n - i,
    {
        if b.len() - cur < 12 {
            return None;
        }
        let rec = CharIndex { character: read_u32(b, cur), indexes: read_handle(b, cur + 4) };
        proof {
            assert(rec == cix_rd()(b@, cur as int));
            let rest0 = parse_records(b@, cur as int + 12, n as int - i as int - 1, 12, cix_rd());
            if rest0 is Some {
                let res = rest0.unwrap();
                assert(out@.push(rec) + res.0 =~= out@ + (seq![rec] + res.0));
            }
        }
        out.push(rec);
        cur = cur + 12;
        i = i + 1;
    }
    proof {
        assert(out@ + Seq::<CharIndex>::empty() =~= out@);
    }
    Some((out, cur))
}

/// Reads one section of u32s records.
#[verifier::loop_isolation(false)]
fn read_u32s(b: &Vec<u8>, pos: usize) -> (r: Option<(Vec<u32>, usize)>)
    ensures
        match r {
            Some(v) => parse_section(b@, pos as int, 4, u32_rd()) == Some((v.0@, v.1 as int))
                && v.1 <= b@.len(),
            None => parse_section(b@, pos as int, 4, u32_rd()) is None,
        },
{
    if b.len() < 4 || pos > b.len() - 4 {
        return None;
    }
    let n = read_u32(b, pos);
    let mut cur: usize = pos + 4;
    let mut out: Vec<u32> = Vec::new();
    let mut i: u32 = 0;
    while i < n
        invariant
            i <= n,
            pos + 4 <= cur <= b@.len(),
            out@.len() == i as int,
            parse_records(b@, pos as int + 4, n as int, 4, u32_rd()) == (match parse_records(
                b@,
                cur as int,
                n as int - i as int,
                4,
                u32_rd(),
            ) {
                Some(res) => Some::<(Seq<u32>, int)>((out@ + res.0, res.1)),
                None => None::<(Seq<u32>, int)>,
            }),
        decreases n - i,
    {
        if b.len() - cur < 4 {
            return None;
        }
        let rec = read_u32(b, cur);
        proof {
            assert(rec == u32_rd()(b@, cur as int));
            let rest0 = parse_records(b@, cur as int + 4, n as int - i as int - 1, 4, u32_rd());
            if rest0 is Some {
                let res = rest0.unwrap();
                assert(out@.push(rec) + res.0 =~= out@ + (seq![rec] + res.0));
            }
        }
        out.push(rec);
        cur = cur + 4;
        i = i + 1;
    }
    proof {
        assert(out@ + Seq::<u32>::empty() =~= out@);
    }
    Some((out, cur))
}

/// Reads one section of strh records.
#[verifier::loop_isolation(false)]
fn read_strh(b: &Vec<u8>, pos: usize) -> (r: Option<(Vec<StrHandle>, usize)>)
    ensures
        match r {
            Some(v) => parse_section(b@, pos as int, 8, strh_rd()) == Some((v.0@, v.1 as int))
                && v.1 <= b@.len(),
            None => parse_section(b@, pos as int, 8, strh_rd()) is None,
        },
{
    if b.len() < 4 || pos > b.len() - 4 {
        return None;
    }
    let n = read_u32(b, pos);
    let mut cur: usize = pos + 4;
    let mut out: Vec<StrHandle> = Vec::new();
    let mut i: u32 = 0;
    while i < n
        invariant
            i <= n,
            pos + 4 <= cur <= b@.len(),
            out@.len() == i as int,
            parse_records(b@, pos as int + 4, n as int, 8, strh_rd()) == (match parse_records(
                b@,
                cur as int,
                n as int - i as int,
                8,
                strh_rd(),
            ) {
                Some(res) => Some::<(Seq<StrHandle>, int)>((out@ + res.0, res.1)),
                None => None::<(Seq<StrHandle>, int)>,
            }),
        decreases n - i,
    {
        if b.len() - cur < 8 {
            return None;
        }
        let rec = StrHandle { offset: read_u32(b, cur), length: read_u32(b, cur + 4) };
        proof {
            assert(rec == strh_rd()(b@, cur as int));
            let rest0 = parse_records(b@, cur as int + 8, n as int - i as int - 1, 8, strh_rd());
            if rest0 is Some {
                let res = rest0.unwrap();
                assert(out@.push(rec) + res.0 =~= out@ + (seq![rec] + res.0));
            }
        }
        out.push(rec);
        cur = cur + 8;
        i = i + 1;
    }
    proof {
        assert(out@ + Seq::<StrHandle>::empty() =~= out@);
    }
    Some((out, cur))
}

/// Reads the blob: a `u32` byte length, then the raw bytes.
#[verifier::loop_isolation(false)]
fn read_blob(b: &Vec<u8>, pos: usize) -> (r: Option<(Vec<u8>, usize)>)
    ensures
        match r {
            Some(v) => parse_blob(b@, pos as int) == Some((v.0@, v.1 as int)),
            None => parse_blob(b@, pos as int) is None,
        },
{
    if b.len() < 4 || pos > b.len() - 4 {
        return None;
    }
    let n = read_u32(b, pos);
    let nn = n as usize;
    if nn > b.len() - (pos + 4) {
        return None;
    }
    let mut out: Vec<u8> = Vec::new();
    let mut j: usize = 0;
    while j < nn
        invariant
            pos + 4 + nn <= b@.len(),
            j <= nn,
            out@ == b@.subrange(pos as int + 4, pos as int + 4 + j as int),
        decreases nn - j,
    {
        out.push(b[pos + 4 + j]);
        proof {
            assert(out@ =~= b@.subrange(pos as int + 4, pos as int + 4 + j as int + 1));
        }
        j = j + 1;
    }
    Some((out, pos + 4 + nn))
}

/// The loaded database: the nine tables of an image, decoded.
pub struct DB {
    pub tags: Vec<TagRaw>,
    pub terms: Vec<TermRaw>,
    pub kanji: Vec<KanjiRaw>,
    pub index_prefix_jp: Vec<TermIndex>,
    pub index_suffix_jp: Vec<TermIndex>,
    pub index_chars_jp: Vec<CharIndex>,
    pub vector_data: Vec<u32>,
    pub string_list: Vec<StrHandle>,
    pub string_data: Vec<u8>,
}

impl View for DB {
    type V = RawModel;

    open spec fn view(&self) -> RawModel {
        RawModel {
            tags: self.tags@,
            terms: self.terms@,
            kanji: self.kanji@,
            index_prefix_jp: self.index_prefix_jp@,
            index_suffix_jp: self.index_suffix_jp@,
            index_chars_jp: self.index_chars_jp@,
            vector_data: self.vector_data@,
            string_list: self.string_list@,
            string_data: self.string_data@,
        }
    }
}

impl DB {
    /// Loads a database image: decodes each section in write order.  The
    /// result is exactly what the spec parser denotes, so an image made by
    /// [`Writer::write`](crate::writer::Writer::write) loads to the tables
    /// it serialised (see [`lemma_round_trip`]); on bytes no matched
    /// builder produced, the loader reports the malformed image as `None`
    /// instead.
    pub fn load(data: &Vec<u8>) -> (r: Option<DB>)
        ensures
            match r {
                Some(db) => parse_db(data@) == Some(db@),
                None => parse_db(data@) is None,
            },
    {
        let tags = match read_tags(data, 0) {
            Some(v) => v,
            None => { return None; },
        };
        let terms = match read_terms(data, tags.1) {
            Some(v) => v,
            None => { return None; },
        };
        let kanji = match read_kanji(data, terms.1) {
            Some(v) => v,
            None => { return None; },
        };
        let prefix = match read_tix(data, kanji.1) {
            Some(v) => v,
            None => { return None; },
        };
        let suffix = match read_tix(data, prefix.1) {
            Some(v) => v,
            None => { return None; },
        };
        let chars = match read_cix(data, suffix.1) {
            Some(v) => v,
            None => { return None; },
        };
        let vector_data = match read_u32s(data, chars.1) {
            Some(v) => v,
            None => { return None; },
        };
        let string_list = match read_strh(data, vector_data.1) {
            Some(v) => v,
            None => { return None; },
        };
        let string_data = match read_blob(data, string_list.1) {
            Some(v) => v,
            None => { return None; },
        };
        Some(
            DB {
                tags: tags.0,
                terms: terms.0,
                kanji: kanji.0,
                index_prefix_jp: prefix.0,
                index_suffix_jp: suffix.0,
                index_chars_jp: chars.0,
                vector_data: vector_data.0,
                string_list: string_list.0,
                string_data: string_data.0,
            },
        )
    }
}


/// Total number of term positions over the first `i` char-index entries.
pub open spec fn cix_total(s: Seq<CharIndex>, i: int) -> int
    decreases i,
{
    if i <= 0 {
        0
    } else {
        cix_total(s, i - 1) + s[i - 1].indexes.length as int
    }
}

/// The largest position list among the first `i` char-index entries.
pub open spec fn cix_max(s: Seq<CharIndex>, i: int) -> int
    decreases i,
{
    if i <= 0 {
        0
    } else if s[i - 1].indexes.length as int > cix_max(s, i - 1) {
        s[i - 1].indexes.length as int
    } else {
        cix_max(s, i - 1)
    }
}

proof fn lemma_cix_total_bound(s: Seq<CharIndex>, i: int)
    requires
        0 <= i <= s.len(),
    ensures
        0 <= cix_total(s, i) <= i * (u32::MAX as int),
    decreases i,
{
    if i > 0 {
        lemma_cix_total_bound(s, i - 1);
        assert((i - 1) * (u32::MAX as int) + u32::MAX as int == i * (u32::MAX as int))
            by (nonlinear_arith);
    }
}

impl DB {
    /// Size statistics of the per-character index, for the caller's
    /// logging: the total number of recorded term positions, the number of
    /// distinct characters, and the size of the largest single entry.
    /// Nothing of this appears in the image itself.
    #[verifier::loop_isolation(false)]
    pub fn char_index_stats(&self) -> (r: (u64, usize, u64))
        requires
            self.index_chars_jp@.len() <= u32::MAX as int,
        ensures
            r.0 == cix_total(self.index_chars_jp@, self.index_chars_jp@.len() as int),
            r.1 == self.index_chars_jp@.len(),
            r.2 == cix_max(self.index_chars_jp@, self.index_chars_jp@.len() as int),
    {
        let s = &self.index_chars_jp;
        let mut total: u64 = 0;
        let mut max: u64 = 0;
        let mut i: usize = 0;
        while i < s.len()
            invariant
                i <= s@.len(),
                total == cix_total(s@, i as int),
                max == cix_max(s@, i as int),
            decreases s@.len() - i,
        {
            proof {
                lemma_cix_total_bound(s@, i as int);
                assert((i as int) * (u32::MAX as int) < u64::MAX as int - u32::MAX as int)
                    by (nonlinear_arith)
                    requires
                        0 <= i as int <= u32::MAX as int,
                ;
            }
            let n = s[i].indexes.length as u64;
            total = total + n;
            if n > max {
                max = n;
            }
            i = i + 1;
        }
        (total, s.len(), max)
    }
}

} // verus!

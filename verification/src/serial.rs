//! The binary image: little-endian byte layout of every section, the vector
//! arena, and the section writer.
//!
//! A database image is nine sections in a fixed order: tags, terms, kanji,
//! prefix index, suffix index, char index, vector arena, string descriptor
//! table, string blob.  Each section is a `u32` little-endian count followed
//! by that many fixed-size records; the blob is a `u32` byte length followed
//! by raw UTF-8 bytes.

use vstd::prelude::*;
use crate::VecHandle;
use crate::data::{TagRaw, TermRaw, KanjiRaw, TermIndex, CharIndex, StrHandle};

verus! {

/// The four little-endian bytes of `v`.
pub open spec fn le32(v: u32) -> Seq<u8> {
    seq![
        (v & 0xFF) as u8,
        ((v >> 8) & 0xFF) as u8,
        ((v >> 16) & 0xFF) as u8,
        ((v >> 24) & 0xFF) as u8,
    ]
}

pub open spec fn handle_bytes(h: VecHandle) -> Seq<u8> {
    le32(h.offset) + le32(h.length)
}

pub open spec fn tag_bytes(t: TagRaw) -> Seq<u8> {
    le32(t.name) + le32(t.category) + le32(t.order) + le32(t.notes)
}

pub open spec fn term_bytes(t: TermRaw) -> Seq<u8> {
    le32(t.expression) + le32(t.reading) + le32(t.search_key) + le32(t.score) + le32(t.sequence)
        + le32(t.frequency) + le32(t.source) + handle_bytes(t.glossary) + handle_bytes(t.rules)
        + handle_bytes(t.term_tags) + handle_bytes(t.definition_tags)
}

pub open spec fn kanji_bytes(k: KanjiRaw) -> Seq<u8> {
    le32(k.character) + le32(k.frequency) + le32(k.source) + handle_bytes(k.meanings)
        + handle_bytes(k.onyomi) + handle_bytes(k.kunyomi) + handle_bytes(k.tags) + handle_bytes(
        k.stats,
    )
}

pub open spec fn tix_bytes(e: TermIndex) -> Seq<u8> {
    le32(e.key) + le32(e.term)
}

pub open spec fn cix_bytes(e: CharIndex) -> Seq<u8> {
    le32(e.character) + handle_bytes(e.indexes)
}

pub open spec fn str_handle_bytes(h: StrHandle) -> Seq<u8> {
    le32(h.offset) + le32(h.length)
}

/// The record-byte functions as `spec_fn` values, so that every mention
/// of a section's layout is one and the same function.
pub open spec fn le32_f() -> spec_fn(u32) -> Seq<u8> {
    |v: u32| le32(v)
}

pub open spec fn tag_bytes_f() -> spec_fn(TagRaw) -> Seq<u8> {
    |t: TagRaw| tag_bytes(t)
}

pub open spec fn term_bytes_f() -> spec_fn(TermRaw) -> Seq<u8> {
    |t: TermRaw| term_bytes(t)
}

pub open spec fn kanji_bytes_f() -> spec_fn(KanjiRaw) -> Seq<u8> {
    |k: KanjiRaw| kanji_bytes(k)
}

pub open spec fn tix_bytes_f() -> spec_fn(TermIndex) -> Seq<u8> {
    |e: TermIndex| tix_bytes(e)
}

pub open spec fn cix_bytes_f() -> spec_fn(CharIndex) -> Seq<u8> {
    |e: CharIndex| cix_bytes(e)
}

pub open spec fn str_handle_bytes_f() -> spec_fn(StrHandle) -> Seq<u8> {
    |h: StrHandle| str_handle_bytes(h)
}

/// Concatenation of `f` over all elements of `s`, in order.
pub open spec fn concat_map<T>(s: Seq<T>, f: spec_fn(T) -> Seq<u8>) -> Seq<u8>
    decreases s.len(),
{
    if s.len() == 0 {
        Seq::empty()
    } else {
        concat_map(s.drop_last(), f) + f(s.last())
    }
}

/// A length-prefixed packed array: the `u32` count, then every record.
pub open spec fn section_bytes<T>(s: Seq<T>, f: spec_fn(T) -> Seq<u8>) -> Seq<u8> {
    le32(s.len() as u32) + concat_map(s, f)
}

/// One step of serialising a section: the bytes of the first `i + 1`
/// records are those of the first `i` followed by the bytes of record `i`.
pub proof fn lemma_concat_map_take_step<T>(s: Seq<T>, f: spec_fn(T) -> Seq<u8>, i: int)
    requires
        0 <= i < s.len(),
    ensures
        concat_map(s.take(i + 1), f) == concat_map(s.take(i), f) + f(s[i]),
{
    assert(s.take(i + 1).drop_last() =~= s.take(i));
    assert(s.take(i + 1).last() == s[i]);
}

/// The in-memory image of the whole database, before its bytes.
pub struct RawModel {
    pub tags: Seq<TagRaw>,
    pub terms: Seq<TermRaw>,
    pub kanji: Seq<KanjiRaw>,
    pub index_prefix_jp: Seq<TermIndex>,
    pub index_suffix_jp: Seq<TermIndex>,
    pub index_chars_jp: Seq<CharIndex>,
    pub vector_data: Seq<u32>,
    pub string_list: Seq<StrHandle>,
    pub string_data: Seq<u8>,
}

impl RawModel {
    /// Every count fits the `u32` length prefix of its section.
    pub open spec fn bounded(self) -> bool {
        &&& self.tags.len() <= u32::MAX as int
        &&& self.terms.len() <= u32::MAX as int
        &&& self.kanji.len() <= u32::MAX as int
        &&& self.index_prefix_jp.len() <= u32::MAX as int
        &&& self.index_suffix_jp.len() <= u32::MAX as int
        &&& self.index_chars_jp.len() <= u32::MAX as int
        &&& self.vector_data.len() <= u32::MAX as int
        &&& self.string_list.len() <= u32::MAX as int
        &&& self.string_data.len() <= u32::MAX as int
    }
}

/// The bytes of a whole image: all nine sections in write order.
pub open spec fn db_bytes(m: RawModel) -> Seq<u8> {
    section_bytes(m.tags, tag_bytes_f()) + section_bytes(m.terms, term_bytes_f()) + section_bytes(m.kanji, kanji_bytes_f()) + section_bytes(m.index_prefix_jp, tix_bytes_f()) + section_bytes(m.index_suffix_jp, tix_bytes_f()) + section_bytes(m.index_chars_jp, cix_bytes_f()) + section_bytes(m.vector_data, le32_f()) + section_bytes(m.string_list, str_handle_bytes_f()) + le32(m.string_data.len() as u32) + m.string_data
}

/// Raw database tables ready for serialisation: records hold only scalars
/// and arena handles.
pub struct Raw {
    pub tags: Vec<TagRaw>,
    pub terms: Vec<TermRaw>,
    pub kanji: Vec<KanjiRaw>,
    pub index_prefix_jp: Vec<TermIndex>,
    pub index_suffix_jp: Vec<TermIndex>,
    pub index_chars_jp: Vec<CharIndex>,
    pub vector_data: Vec<u32>,
    pub string_list: Vec<StrHandle>,
    pub string_data: Vec<u8>,
}

impl View for Raw {
    type V = RawModel;

    open spec fn view(&self) -> RawModel {
        RawModel {
            tags: self.tags@,
            terms: self.terms@,
            kanji: self.kanji@,
            index_prefix_jp: self.index_prefix_jp@,
            index_suffix_jp: self.index_suffix_jp@,
            index_chars_jp: self.index_chars_jp@,
            vector_data: self.vector_data@,
            string_list: self.string_list@,
            string_data: self.string_data@,
        }
    }
}

/// Appends the four little-endian bytes of `value`.
pub fn write_u32(out: &mut Vec<u8>, value: u32)
    ensures
        final(out)@ == old(out)@ + le32(value),
{
    proof {
        assert(value & 0xFF < 256 && (value >> 8) & 0xFF < 256 && (value >> 16) & 0xFF < 256 && (
        value >> 24) & 0xFF < 256) by (bit_vector);
    }
    out.push((value & 0xFF) as u8);
    out.push(((value >> 8) & 0xFF) as u8);
    out.push(((value >> 16) & 0xFF) as u8);
    out.push(((value >> 24) & 0xFF) as u8);
    proof {
        assert(out@ =~= old(out)@ + le32(value));
    }
}

/// Appends a section's `u32` count prefix.
pub fn write_len(out: &mut Vec<u8>, value: usize)
    requires
        value <= u32::MAX as usize,
    ensures
        final(out)@ == old(out)@ + le32(value as u32),
{
    write_u32(out, value as u32);
}

/// Appends the vector arena: count prefix, then every `u32` in order.
pub fn write_vec(out: &mut Vec<u8>, vec: &Vec<u32>)
    requires
        vec@.len() <= u32::MAX as int,
    ensures
        final(out)@ == old(out)@ + section_bytes(vec@, le32_f()),
{
    let ghost base = out@;
    write_len(out, vec.len());
    let mut i: usize = 0;
    while i < vec.len()
        invariant
            vec@.len() <= u32::MAX as int,
            i <= vec@.len(),
            out@ == base + le32(vec@.len() as u32) + concat_map(vec@.take(i as int), le32_f()),
        decreases vec@.len() - i,
    {
        write_u32(out, vec[i]);
        proof {
            lemma_concat_map_take_step(vec@, le32_f(), i as int);
            assert(out@ =~= base + le32(vec@.len() as u32) + concat_map(
                vec@.take(i as int + 1),
                le32_f(),
            ));
        }
        i = i + 1;
    }
    proof {
        assert(vec@.take(vec@.len() as int) =~= vec@);
    }
}

/// Appends the blob: `u32` byte length, then the raw bytes.
pub fn write_blob(out: &mut Vec<u8>, blob: &Vec<u8>)
    requires
        blob@.len() <= u32::MAX as int,
    ensures
        final(out)@ == old(out)@ + le32(blob@.len() as u32) + blob@,
{
    let ghost base = out@;
    write_len(out, blob.len());
    let mut i: usize = 0;
    while i < blob.len()
        invariant
            i <= blob@.len(),
            out@ == base + le32(blob@.len() as u32) + blob@.take(i as int),
        decreases blob@.len() - i,
    {
        let b = blob[i];
        out.push(b);
        proof {
            assert(out@ =~= base + le32(blob@.len() as u32) + blob@.take(i as int + 1));
        }
        i = i + 1;
    }
    proof {
        assert(blob@.take(blob@.len() as int) =~= blob@);
    }
}

/// Appends one `TagRaw` record.
fn write_tag_raw(out: &mut Vec<u8>, t: TagRaw)
    ensures
        final(out)@ == old(out)@ + tag_bytes(t),
{
    let ghost base = out@;
    write_u32(out, t.name);
    write_u32(out, t.category);
    write_u32(out, t.order);
    write_u32(out, t.notes);
    proof {
        assert(out@ =~= base + tag_bytes(t));
    }
}

fn write_handle(out: &mut Vec<u8>, h: VecHandle)
    ensures
        final(out)@ == old(out)@ + handle_bytes(h),
{
    let ghost base = out@;
    write_u32(out, h.offset);
    write_u32(out, h.length);
    proof {
        assert(out@ =~= base + handle_bytes(h));
    }
}

fn write_term_raw(out: &mut Vec<u8>, t: TermRaw)
    ensures
        final(out)@ == old(out)@ + term_bytes(t),
{
    let ghost base = out@;
    write_u32(out, t.expression);
    write_u32(out, t.reading);
    write_u32(out, t.search_key);
    write_u32(out, t.score);
    write_u32(out, t.sequence);
    write_u32(out, t.frequency);
    write_u32(out, t.source);
    write_handle(out, t.glossary);
    write_handle(out, t.rules);
    write_handle(out, t.term_tags);
    write_handle(out, t.definition_tags);
    proof {
        assert(out@ =~= base + term_bytes(t));
    }
}

fn write_kanji_raw(out: &mut Vec<u8>, k: KanjiRaw)
    ensures
        final(out)@ == old(out)@ + kanji_bytes(k),
{
    let ghost base = out@;
    write_u32(out, k.character);
    write_u32(out, k.frequency);
    write_u32(out, k.source);
    write_handle(out, k.meanings);
    write_handle(out, k.onyomi);
    write_handle(out, k.kunyomi);
    write_handle(out, k.tags);
    write_handle(out, k.stats);
    proof {
        assert(out@ =~= base + kanji_bytes(k));
    }
}

/// Appends the tag section.
pub fn write_tags(out: &mut Vec<u8>, tags: &Vec<TagRaw>)
    requires
        tags@.len() <= u32::MAX as int,
    ensures
        final(out)@ == old(out)@ + section_bytes(tags@, tag_bytes_f()),
{
    let ghost base = out@;
    write_len(out, tags.len());
    let mut i: usize = 0;
    while i < tags.len()
        invariant
            tags@.len() <= u32::MAX as int,
            i <= tags@.len(),
            out@ == base + le32(tags@.len() as u32) + concat_map(tags@.take(i as int), tag_bytes_f()),
        decreases tags@.len() - i,
    {
        write_tag_raw(out, tags[i]);
        proof {
            lemma_concat_map_take_step(tags@, tag_bytes_f(), i as int);
            assert(out@ =~= base + le32(tags@.len() as u32) + concat_map(
                tags@.take(i as int + 1),
                tag_bytes_f(),
            ));
        }
        i = i + 1;
    }
    proof {
        assert(tags@.take(tags@.len() as int) =~= tags@);
    }
}

/// Appends the term section.
pub fn write_terms(out: &mut Vec<u8>, terms: &Vec<TermRaw>)
    requires
        terms@.len() <= u32::MAX as int,
    ensures
        final(out)@ == old(out)@ + section_bytes(terms@, term_bytes_f()),
{
    let ghost base = out@;
    write_len(out, terms.len());
    let mut i: usize = 0;
    while i < terms.len()
        invariant
            terms@.len() <= u32::MAX as int,
            i <= terms@.len(),
            out@ == base + le32(terms@.len() as u32) + concat_map(terms@.take(i as int), term_bytes_f()),
        decreases terms@.len() - i,
    {
        write_term_raw(out, terms[i]);
        proof {
            lemma_concat_map_take_step(terms@, term_bytes_f(), i as int);
            assert(out@ =~= base + le32(terms@.len() as u32) + concat_map(
                terms@.take(i as int + 1),
                term_bytes_f(),
            ));
        }
        i = i + 1;
    }
    proof {
        assert(terms@.take(terms@.len() as int) =~= terms@);
    }
}

/// Appends the kanji section.
pub fn write_kanji(out: &mut Vec<u8>, kanji: &Vec<KanjiRaw>)
    requires
        kanji@.len() <= u32::MAX as int,
    ensures
        final(out)@ == old(out)@ + section_bytes(kanji@, kanji_bytes_f()),
{
    let ghost base = out@;
    write_len(out, kanji.len());
    let mut i: usize = 0;
    while i < kanji.len()
        invariant
            kanji@.len() <= u32::MAX as int,
            i <= kanji@.len(),
            out@ == base + le32(kanji@.len() as u32) + concat_map(kanji@.take(i as int), kanji_bytes_f()),
        decreases kanji@.len() - i,
    {
        write_kanji_raw(out, kanji[i]);
        proof {
            lemma_concat_map_take_step(kanji@, kanji_bytes_f(), i as int);
            assert(out@ =~= base + le32(kanji@.len() as u32) + concat_map(
                kanji@.take(i as int + 1),
                kanji_bytes_f(),
            ));
        }
        i = i + 1;
    }
    proof {
        assert(kanji@.take(kanji@.len() as int) =~= kanji@);
    }
}

/// Appends a term-index section (prefix or suffix).
pub fn write_term_index(out: &mut Vec<u8>, entries: &Vec<TermIndex>)
    requires
        entries@.len() <= u32::MAX as int,
    ensures
        final(out)@ == old(out)@ + section_bytes(entries@, tix_bytes_f()),
{
    let ghost base = out@;
    write_len(out, entries.len());
    let mut i: usize = 0;
    while i < entries.len()
        invariant
            entries@.len() <= u32::MAX as int,
            i <= entries@.len(),
            out@ == base + le32(entries@.len() as u32) + concat_map(entries@.take(i as int), tix_bytes_f()),
        decreases entries@.len() - i,
    {
        let e = entries[i];
        write_u32(out, e.key);
        write_u32(out, e.term);
        proof {
            lemma_concat_map_take_step(entries@, tix_bytes_f(), i as int);
            assert(out@ =~= base + le32(entries@.len() as u32) + concat_map(
                entries@.take(i as int + 1),
                tix_bytes_f(),
            ));
        }
        i = i + 1;
    }
    proof {
        assert(entries@.take(entries@.len() as int) =~= entries@);
    }
}

/// Appends the char-index section.
pub fn write_char_index(out: &mut Vec<u8>, entries: &Vec<CharIndex>)
    requires
        entries@.len() <= u32::MAX as int,
    ensures
        final(out)@ == old(out)@ + section_bytes(entries@, cix_bytes_f()),
{
    let ghost base = out@;
    write_len(out, entries.len());
    let mut i: usize = 0;
    while i < entries.len()
        invariant
            entries@.len() <= u32::MAX as int,
            i <= entries@.len(),
            out@ == base + le32(entries@.len() as u32) + concat_map(entries@.take(i as int), cix_bytes_f()),
        decreases entries@.len() - i,
    {
        let e = entries[i];
        write_u32(out, e.character);
        write_handle(out, e.indexes);
        proof {
            lemma_concat_map_take_step(entries@, cix_bytes_f(), i as int);
            assert(out@ =~= base + le32(entries@.len() as u32) + concat_map(
                entries@.take(i as int + 1),
                cix_bytes_f(),
            ));
        }
        i = i + 1;
    }
    proof {
        assert(entries@.take(entries@.len() as int) =~= entries@);
    }
}

/// Appends the string descriptor section.
pub fn write_str_handles(out: &mut Vec<u8>, list: &Vec<StrHandle>)
    requires
        list@.len() <= u32::MAX as int,
    ensures
        final(out)@ == old(out)@ + section_bytes(list@, str_handle_bytes_f()),
{
    let ghost base = out@;
    write_len(out, list.len());
    let mut i: usize = 0;
    while i < list.len()
        invariant
            list@.len() <= u32::MAX as int,
            i <= list@.len(),
            out@ == base + le32(list@.len() as u32) + concat_map(list@.take(i as int), str_handle_bytes_f()),
        decreases list@.len() - i,
    {
        let h = list[i];
        write_u32(out, h.offset);
        write_u32(out, h.length);
        proof {
            lemma_concat_map_take_step(list@, str_handle_bytes_f(), i as int);
            assert(out@ =~= base + le32(list@.len() as u32) + concat_map(
                list@.take(i as int + 1),
                str_handle_bytes_f(),
            ));
        }
        i = i + 1;
    }
    proof {
        assert(list@.take(list@.len() as int) =~= list@);
    }
}

impl Raw {
    /// Appends the whole image: every section in the authoritative order.
    pub fn write(&self, out: &mut Vec<u8>)
        requires
            self@.bounded(),
        ensures
            final(out)@ == old(out)@ + db_bytes(self@),
    {
        let ghost base = out@;
        write_tags(out, &self.tags);
        write_terms(out, &self.terms);
        write_kanji(out, &self.kanji);
        write_term_index(out, &self.index_prefix_jp);
        write_term_index(out, &self.index_suffix_jp);
        write_char_index(out, &self.index_chars_jp);
        write_vec(out, &self.vector_data);
        write_str_handles(out, &self.string_list);
        write_blob(out, &self.string_data);
        proof {
            assert(out@ =~= base + db_bytes(self@));
        }
    }
}

} // verus!

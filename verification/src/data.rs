//! Record types: the intake-side value types and the fixed-size raw records
//! that make up the serialised image.
//!
//! Records never hold text; every string field is a 32-bit index into the
//! string pool (`StrIdx`), every tag reference a 32-bit index into the tag
//! table (`TagIdx`), and every variable-length list a [`VecHandle`] into the
//! shared vector arena.

use vstd::prelude::*;
use crate::VecHandle;

verus! {

/// A tag record as handed to the writer.  `name`, `category` and `notes`
/// are interned string indices.
#[derive(Clone, Copy, PartialEq, Eq, Structural, Debug)]
pub struct TagData {
    pub name: u32,
    pub category: u32,
    /// Sort order for presenting tags; stored as the `u32` bit pattern.
    pub order: i32,
    pub notes: u32,
}

/// A dictionary term as handed to the writer.  String fields are interned
/// indices; `reading` and `search_key` are optional and use index 0 (the
/// empty string) when absent.
#[derive(Debug)]
pub struct TermData {
    pub expression: u32,
    pub reading: u32,
    pub search_key: u32,
    pub score: i32,
    pub sequence: u32,
    pub frequency: u32,
    /// Interned string indices of the definitions.
    pub glossary: Vec<u32>,
    /// Tag indices of the semantic rules.
    pub rules: Vec<u32>,
    /// Tag indices attached to the term.
    pub term_tags: Vec<u32>,
    /// Tag indices attached to the definition.
    pub definition_tags: Vec<u32>,
    pub source: u32,
}

/// A kanji record as handed to the writer.
#[derive(Debug)]
pub struct KanjiData {
    pub character: char,
    pub frequency: u32,
    /// Interned string indices of the meanings.
    pub meanings: Vec<u32>,
    pub onyomi: Vec<u32>,
    pub kunyomi: Vec<u32>,
    /// Tag indices for the kanji.
    pub tags: Vec<u32>,
    /// `(stat, info)` pairs: a tag index and an interned string index.
    pub stats: Vec<(u32, u32)>,
    pub source: u32,
}

/// Serialised tag record: four `u32` fields, `order` as a bit pattern.
#[derive(Clone, Copy, PartialEq, Eq, Structural, Debug)]
pub struct TagRaw {
    pub name: u32,
    pub category: u32,
    pub order: u32,
    pub notes: u32,
}

/// Serialised term record: scalars plus arena handles for the lists.
#[derive(Clone, Copy, PartialEq, Eq, Structural, Debug)]
pub struct TermRaw {
    pub expression: u32,
    pub reading: u32,
    pub search_key: u32,
    pub score: u32,
    pub sequence: u32,
    pub frequency: u32,
    pub source: u32,
    pub glossary: VecHandle,
    pub rules: VecHandle,
    pub term_tags: VecHandle,
    pub definition_tags: VecHandle,
}

/// Serialised kanji record.  `stats` is the flattened `(stat, info)` list,
/// so its handle always has even length.
#[derive(Clone, Copy, PartialEq, Eq, Structural, Debug)]
pub struct KanjiRaw {
    pub character: u32,
    pub frequency: u32,
    pub source: u32,
    pub meanings: VecHandle,
    pub onyomi: VecHandle,
    pub kunyomi: VecHandle,
    pub tags: VecHandle,
    pub stats: VecHandle,
}

/// One entry of the prefix or suffix index: an interned key string and the
/// position of the term it points at (after the relevance sort).
#[derive(Clone, Copy, PartialEq, Eq, Structural, Debug)]
pub struct TermIndex {
    pub key: u32,
    pub term: u32,
}

/// One entry of the per-character index: a code point and the handle of its
/// ascending list of term positions.
#[derive(Clone, Copy, PartialEq, Eq, Structural, Debug)]
pub struct CharIndex {
    pub character: u32,
    pub indexes: VecHandle,
}

/// Descriptor of one interned string: byte offset and byte length within
/// the string blob.
#[derive(Clone, Copy, PartialEq, Eq, Structural, Debug)]
pub struct StrHandle {
    pub offset: u32,
    pub length: u32,
}

/// A tag is well formed when its string fields index the pool.
pub open spec fn tag_wf(t: TagData, ns: int) -> bool {
    t.name < ns && t.category < ns && t.notes < ns
}

/// A term is well formed when its string fields index the pool and its tag
/// lists index the tag table.
pub open spec fn term_wf(t: TermData, ns: int, nt: int) -> bool {
    &&& t.expression < ns
    &&& t.reading < ns
    &&& t.search_key < ns
    &&& t.source < ns
    &&& forall|i: int| 0 <= i < t.glossary@.len() ==> t.glossary@[i] < ns
    &&& forall|i: int| 0 <= i < t.rules@.len() ==> t.rules@[i] < nt
    &&& forall|i: int| 0 <= i < t.term_tags@.len() ==> t.term_tags@[i] < nt
    &&& forall|i: int| 0 <= i < t.definition_tags@.len() ==> t.definition_tags@[i] < nt
}

/// A kanji is well formed when its string fields index the pool, its tag
/// list indexes the tag table, and each stat pair is a tag index with an
/// interned info string.
pub open spec fn kanji_wf(k: KanjiData, ns: int, nt: int) -> bool {
    &&& k.source < ns
    &&& forall|i: int| 0 <= i < k.meanings@.len() ==> k.meanings@[i] < ns
    &&& forall|i: int| 0 <= i < k.onyomi@.len() ==> k.onyomi@[i] < ns
    &&& forall|i: int| 0 <= i < k.kunyomi@.len() ==> k.kunyomi@[i] < ns
    &&& forall|i: int| 0 <= i < k.tags@.len() ==> k.tags@[i] < nt
    &&& forall|i: int| 0 <= i < k.stats@.len()
        ==> (#[trigger] k.stats@[i]).0 < nt && k.stats@[i].1 < ns
}

} // verus!

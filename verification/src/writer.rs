//! The intake side of the builder: the string pool and the record buffers.

use vstd::prelude::*;
use crate::data::{TagData, TermData, KanjiData, tag_wf, term_wf, kanji_wf};

verus! {

/// Collects interned strings, tags, terms and kanji, then serialises them
/// in one shot.
///
/// Intake order: tags first (so that term and kanji tag references can be
/// resolved with [`get_tag`](Writer::get_tag)), then terms and kanji in any
/// order.  All strings must pass through [`intern`](Writer::intern); records
/// hold only the returned indices.
pub struct Writer {
    pub terms: Vec<TermData>,
    pub kanji: Vec<KanjiData>,
    pub tags: Vec<TagData>,
    pub strings: Vec<Vec<u8>>,
}

/// Compares two byte vectors for content equality.
pub fn bytes_eq(a: &Vec<u8>, b: &Vec<u8>) -> (r: bool)
    ensures
        r == (a@ == b@),
{
    if a.len() != b.len() {
        return false;
    }
    let mut i: usize = 0;
    while i < a.len()
        invariant
            i <= a.len(),
            a.len() == b.len(),
            forall|k: int| 0 <= k < i ==> a@[k] == b@[k],
        decreases a.len() - i,
    {
        if a[i] != b[i] {
            return false;
        }
        i = i + 1;
    }
    proof {
        assert(a@ =~= b@);
    }
    true
}

impl Writer {
    /// The string pool as a sequence of byte strings; index 0 is the empty
    /// string.
    pub open spec fn pool(self) -> Seq<Seq<u8>> {
        Seq::new(self.strings@.len() as nat, |i: int| self.strings@[i]@)
    }

    /// Internal consistency: the pool holds distinct strings with the empty
    /// string at index 0, every record references only existing strings and
    /// tags, and every table is small enough for 32-bit indices.
    pub open spec fn wf(self) -> bool {
        &&& 1 <= self.pool().len() <= u32::MAX as int
        &&& self.pool()[0] == Seq::<u8>::empty()
        &&& forall|i: int, j: int|
            0 <= i < j < self.pool().len() ==> self.pool()[i] != self.pool()[j]
        &&& self.tags@.len() <= u32::MAX as int
        &&& self.terms@.len() <= u32::MAX as int
        &&& self.kanji@.len() <= u32::MAX as int
        &&& forall|i: int|
            0 <= i < self.tags@.len() ==> tag_wf(#[trigger] self.tags@[i], self.pool().len() as int)
        &&& forall|i: int|
            0 <= i < self.terms@.len() ==> term_wf(
                #[trigger] self.terms@[i],
                self.pool().len() as int,
                self.tags@.len() as int,
            )
        &&& forall|i: int|
            0 <= i < self.kanji@.len() ==> kanji_wf(
                #[trigger] self.kanji@[i],
                self.pool().len() as int,
                self.tags@.len() as int,
            )
    }

    /// Some tag carries the name `n`.
    pub open spec fn has_tag(self, n: Seq<u8>) -> bool {
        exists|j: int| self.tag_named(n, j)
    }

    /// Tag `i` carries the name `n`.
    pub open spec fn tag_named(self, n: Seq<u8>, i: int) -> bool {
        &&& 0 <= i < self.tags@.len()
        &&& self.tags@[i].name < self.pool().len()
        &&& self.pool()[self.tags@[i].name as int] == n
    }

    /// Returns a new empty writer whose pool already holds the empty string
    /// at index 0.
    pub fn new() -> (w: Writer)
        ensures
            w.wf(),
            w.pool() == seq![Seq::<u8>::empty()],
            w.tags@ == Seq::<TagData>::empty(),
            w.terms@ == Seq::<TermData>::empty(),
            w.kanji@ == Seq::<KanjiData>::empty(),
    {
        let mut strings: Vec<Vec<u8>> = Vec::new();
        strings.push(Vec::new());
        let w = Writer { terms: Vec::new(), kanji: Vec::new(), tags: Vec::new(), strings };
        proof {
            assert(w.pool() =~= seq![Seq::<u8>::empty()]);
        }
        w
    }

    /// Interns a string: returns the existing index when the pool already
    /// holds `value`, otherwise appends it and returns the new index.  The
    /// pool's distinctness makes the returned index the unique one whose
    /// entry equals `value`, so repeated calls agree.
    pub fn intern(&mut self, value: Vec<u8>) -> (r: u32)
        requires
            old(self).wf(),
            old(self).pool().len() < u32::MAX as int,
        ensures
            final(self).wf(),
            r < final(self).pool().len(),
            final(self).pool()[r as int] == value@,
            old(self).pool().contains(value@) ==> *final(self) == *old(self),
            !old(self).pool().contains(value@) ==> {
                &&& final(self).pool() == old(self).pool().push(value@)
                &&& r as int == old(self).pool().len()
                &&& final(self).tags@ == old(self).tags@
                &&& final(self).terms@ == old(self).terms@
                &&& final(self).kanji@ == old(self).kanji@
            },
    {
        let n = self.strings.len();
        let mut i: usize = 0;
        while i < n
            invariant
                old(self).wf(),
                old(self).pool().len() < u32::MAX as int,
                n == self.strings@.len(),
                i <= n,
                *self == *old(self),
                forall|k: int| 0 <= k < i ==> self.pool()[k] != value@,
            decreases n - i,
        {
            if bytes_eq(&self.strings[i], &value) {
                proof {
                    assert(self.pool()[i as int] == value@);
                    assert(self.pool().contains(value@));
                }
                return i as u32;
            }
            i = i + 1;
        }
        proof {
            assert(forall|k: int| 0 <= k < self.pool().len() ==> self.pool()[k] != value@);
            assert(!self.pool().contains(value@));
        }
        let r = self.strings.len() as u32;
        let ghost oldw = *self;
        self.strings.push(value);
        proof {
            assert(self.pool() =~= oldw.pool().push(value@));
            assert forall|a: int|
                0 <= a < self.tags@.len() implies tag_wf(
                #[trigger] self.tags@[a],
                self.pool().len() as int,
            ) by {
                assert(tag_wf(oldw.tags@[a], oldw.pool().len() as int));
            }
            assert forall|a: int|
                0 <= a < self.terms@.len() implies term_wf(
                #[trigger] self.terms@[a],
                self.pool().len() as int,
                self.tags@.len() as int,
            ) by {
                assert(term_wf(oldw.terms@[a], oldw.pool().len() as int, oldw.tags@.len() as int));
            }
            assert forall|a: int|
                0 <= a < self.kanji@.len() implies kanji_wf(
                #[trigger] self.kanji@[a],
                self.pool().len() as int,
                self.tags@.len() as int,
            ) by {
                assert(kanji_wf(oldw.kanji@[a], oldw.pool().len() as int, oldw.tags@.len() as int));
            }
        }
        r
    }

    /// Returns the interned string at `index`.
    pub fn string(&self, index: u32) -> (r: &Vec<u8>)
        requires
            index < self.pool().len(),
        ensures
            r@ == self.pool()[index as int],
    {
        &self.strings[index as usize]
    }

    /// Appends a tag.  Tags referenced by terms or kanji must be pushed
    /// before the records that reference them.
    pub fn push_tag(&mut self, tag: TagData)
        requires
            old(self).wf(),
            old(self).tags@.len() < u32::MAX as int,
            tag_wf(tag, old(self).pool().len() as int),
        ensures
            final(self).wf(),
            final(self).tags@ == old(self).tags@.push(tag),
            final(self).pool() == old(self).pool(),
            final(self).terms@ == old(self).terms@,
            final(self).kanji@ == old(self).kanji@,
    {
        let ghost oldw = *self;
        self.tags.push(tag);
        proof {
            assert forall|a: int|
                0 <= a < self.terms@.len() implies term_wf(
                #[trigger] self.terms@[a],
                self.pool().len() as int,
                self.tags@.len() as int,
            ) by {
                assert(term_wf(oldw.terms@[a], oldw.pool().len() as int, oldw.tags@.len() as int));
            }
            assert forall|a: int|
                0 <= a < self.kanji@.len() implies kanji_wf(
                #[trigger] self.kanji@[a],
                self.pool().len() as int,
                self.tags@.len() as int,
            ) by {
                assert(kanji_wf(oldw.kanji@[a], oldw.pool().len() as int, oldw.tags@.len() as int));
            }
        }
    }

    /// Appends a term record.
    pub fn push_term(&mut self, term: TermData)
        requires
            old(self).wf(),
            old(self).terms@.len() < u32::MAX as int,
            term_wf(term, old(self).pool().len() as int, old(self).tags@.len() as int),
        ensures
            final(self).wf(),
            final(self).terms@ == old(self).terms@.push(term),
            final(self).pool() == old(self).pool(),
            final(self).tags@ == old(self).tags@,
            final(self).kanji@ == old(self).kanji@,
    {
        self.terms.push(term);
    }

    /// Appends a kanji record.
    pub fn push_kanji(&mut self, kanji: KanjiData)
        requires
            old(self).wf(),
            old(self).kanji@.len() < u32::MAX as int,
            kanji_wf(kanji, old(self).pool().len() as int, old(self).tags@.len() as int),
        ensures
            final(self).wf(),
            final(self).kanji@ == old(self).kanji@.push(kanji),
            final(self).pool() == old(self).pool(),
            final(self).tags@ == old(self).tags@,
            final(self).terms@ == old(self).terms@,
    {
        self.kanji.push(kanji);
    }

    /// Returns the index of the tag called `name`.  When several tags share
    /// the name, the latest one wins.  Referencing an undeclared tag is a
    /// programmer error, excluded by the precondition.
    pub fn get_tag(&self, name: &Vec<u8>) -> (r: u32)
        requires
            self.wf(),
            self.has_tag(name@),
        ensures
            self.tag_named(name@, r as int),
            forall|j: int| r < j < self.tags@.len() ==> !self.tag_named(name@, j),
    {
        let mut i: usize = self.tags.len();
        loop
            invariant
                self.wf(),
                i <= self.tags@.len(),
                self.has_tag(name@),
                forall|j: int| i <= j < self.tags@.len() ==> !self.tag_named(name@, j),
            decreases i,
        {
            if i == 0 {
                proof {
                    let k = choose|k: int| self.tag_named(name@, k);
                    assert(!self.tag_named(name@, k));
                    assert(false);
                }
            }
            i = i - 1;
            let t = self.tags[i];
            if bytes_eq(self.string(t.name), name) {
                return i as u32;
            }
        }
    }

    /// Resolves a list of tag names to their indices, latest binding first
    /// in case of duplicate names.
    pub fn get_tags(&self, names: &Vec<Vec<u8>>) -> (r: Vec<u32>)
        requires
            self.wf(),
            forall|i: int| 0 <= i < names@.len() ==> self.has_tag(#[trigger] names@[i]@),
        ensures
            r@.len() == names@.len(),
            forall|i: int|
                0 <= i < names@.len() ==> self.tag_named(#[trigger] names@[i]@, r@[i] as int),
            forall|i: int, j: int|
                0 <= i < names@.len() && r@[i] < j < self.tags@.len()
                    ==> !(#[trigger] self.tag_named(names@[i]@, j)),
    {
        let mut out: Vec<u32> = Vec::new();
        let mut i: usize = 0;
        while i < names.len()
            invariant
                self.wf(),
                i <= names@.len(),
                out@.len() == i,
                forall|a: int| 0 <= a < names@.len() ==> self.has_tag(#[trigger] names@[a]@),
                forall|a: int|
                    0 <= a < i ==> self.tag_named(#[trigger] names@[a]@, out@[a] as int),
                forall|a: int, j: int|
                    0 <= a < i && out@[a] < j < self.tags@.len()
                        ==> !(#[trigger] self.tag_named(names@[a]@, j)),
            decreases names@.len() - i,
        {
            let idx = self.get_tag(&names[i]);
            out.push(idx);
            i = i + 1;
        }
        out
    }
}

} // verus!

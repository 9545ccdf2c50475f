//! The per-character inverted index.
//!
//! For every code point that occurs in a term's expression or reading, the
//! index records the positions of all terms containing it.  Entries are
//! kept sorted by character, and each position list ascending, by inserting
//! terms in position order.

use vstd::prelude::*;
use crate::data::TermData;
use crate::index::pool_of;
use crate::utf8::{utf8_cps, utf8_decode};

verus! {

/// One entry while the index is being built: a code point and the term
/// positions that contain it, in ascending order.
pub struct CharEntry {
    pub character: u32,
    pub indexes: Vec<u32>,
}

/// The ghost image of a [`CharEntry`].
pub struct CixEntryM {
    pub character: u32,
    pub indexes: Seq<u32>,
}

impl View for CharEntry {
    type V = CixEntryM;

    open spec fn view(&self) -> CixEntryM {
        CixEntryM { character: self.character, indexes: self.indexes@ }
    }
}

/// The entries as their ghost images.
pub open spec fn cev(s: Seq<CharEntry>) -> Seq<CixEntryM> {
    Seq::new(s.len(), |i: int| s[i]@)
}

/// The code points contributed by one term: its expression's, then its
/// reading's.
pub open spec fn term_cps(pool: Seq<Seq<u8>>, t: TermData) -> Seq<u32> {
    utf8_cps(pool[t.expression as int]) + utf8_cps(pool[t.reading as int])
}

/// Records position `i` under character `c`, keeping entries sorted by
/// character.  When `i` is already the last position of the entry (the same
/// term mentioned `c` twice), nothing changes.
pub open spec fn cix_insert(entries: Seq<CixEntryM>, c: u32, i: u32) -> Seq<CixEntryM>
    decreases entries.len(),
{
    if entries.len() == 0 {
        seq![CixEntryM { character: c, indexes: seq![i] }]
    } else if entries[0].character < c {
        seq![entries[0]] + cix_insert(entries.skip(1), c, i)
    } else if entries[0].character == c {
        if entries[0].indexes.len() > 0 && entries[0].indexes.last() == i {
            entries
        } else {
            seq![CixEntryM { character: c, indexes: entries[0].indexes.push(i) }] + entries.skip(1)
        }
    } else {
        seq![CixEntryM { character: c, indexes: seq![i] }] + entries
    }
}

/// Records position `i` under every code point of `cps`, in order.
pub open spec fn cix_add_cps(entries: Seq<CixEntryM>, cps: Seq<u32>, i: u32) -> Seq<CixEntryM>
    decreases cps.len(),
{
    if cps.len() == 0 {
        entries
    } else {
        cix_add_cps(cix_insert(entries, cps[0], i), cps.skip(1), i)
    }
}

/// The whole index: every term's code points, in term-position order.
pub open spec fn cix_build(pool: Seq<Seq<u8>>, terms: Seq<TermData>) -> Seq<CixEntryM>
    decreases terms.len(),
{
    if terms.len() == 0 {
        Seq::empty()
    } else {
        cix_add_cps(
            cix_build(pool, terms.drop_last()),
            term_cps(pool, terms.last()),
            (terms.len() - 1) as u32,
        )
    }
}

/// Where the linear scan for `c` stops, the recursive insertion acts: on an
/// entry list sorted by character, position `k` is the first whose
/// character is not below `c`.
pub proof fn lemma_cix_insert_at(entries: Seq<CixEntryM>, c: u32, i: u32, k: int)
    requires
        0 <= k <= entries.len(),
        forall|t: int| 0 <= t < k ==> (#[trigger] entries[t]).character < c,
        k < entries.len() ==> entries[k].character >= c,
    ensures
        cix_insert(entries, c, i) == (if k < entries.len() && entries[k].character == c {
            if entries[k].indexes.len() > 0 && entries[k].indexes.last() == i {
                entries
            } else {
                entries.update(
                    k,
                    CixEntryM { character: c, indexes: entries[k].indexes.push(i) },
                )
            }
        } else {
            entries.insert(k, CixEntryM { character: c, indexes: seq![i] })
        }),
    decreases k,
{
    if k == 0 {
        if entries.len() == 0 {
            assert(cix_insert(entries, c, i) =~= entries.insert(
                0,
                CixEntryM { character: c, indexes: seq![i] },
            ));
        } else if entries[0].character == c {
            if entries[0].indexes.len() > 0 && entries[0].indexes.last() == i {
            } else {
                assert(cix_insert(entries, c, i) =~= entries.update(
                    0,
                    CixEntryM { character: c, indexes: entries[0].indexes.push(i) },
                ));
            }
        } else {
            assert(entries[0].character > c);
            assert(cix_insert(entries, c, i) =~= entries.insert(
                0,
                CixEntryM { character: c, indexes: seq![i] },
            ));
        }
    } else {
        let rest = entries.skip(1);
        assert(entries[0].character < c);
        assert forall|t: int| 0 <= t < k - 1 implies (#[trigger] rest[t]).character < c by {
            assert(rest[t] == entries[t + 1]);
        }
        lemma_cix_insert_at(rest, c, i, k - 1);
        assert(cix_insert(entries, c, i) == seq![entries[0]] + cix_insert(rest, c, i));
        if k < entries.len() && entries[k].character == c {
            if entries[k].indexes.len() > 0 && entries[k].indexes.last() == i {
                assert(seq![entries[0]] + rest =~= entries);
            } else {
                assert(seq![entries[0]] + rest.update(
                    k - 1,
                    CixEntryM { character: c, indexes: entries[k].indexes.push(i) },
                ) =~= entries.update(
                    k,
                    CixEntryM { character: c, indexes: entries[k].indexes.push(i) },
                ));
            }
        } else {
            assert(seq![entries[0]] + rest.insert(
                k - 1,
                CixEntryM { character: c, indexes: seq![i] },
            ) =~= entries.insert(k, CixEntryM { character: c, indexes: seq![i] }));
        }
    }
}

/// Builds the per-character index over the (already sorted) terms.
#[verifier::loop_isolation(false)]
pub fn build_char_index(terms: &Vec<TermData>, strings: &Vec<Vec<u8>>) -> (r: Vec<CharEntry>)
    requires
        terms@.len() <= u32::MAX as int,
        forall|i: int|
            0 <= i < terms@.len() ==> (#[trigger] terms@[i]).expression < strings@.len()
                && terms@[i].reading < strings@.len(),
    ensures
        cev(r@) == cix_build(pool_of(strings@), terms@),
        forall|t: int| 0 <= t < r@.len() ==> (#[trigger] r@[t]).indexes@.len() > 0,
{
    let ghost pool = pool_of(strings@);
    let mut entries: Vec<CharEntry> = Vec::new();
    let mut i: usize = 0;
    proof {
        assert(cev(entries@) =~= cix_build(pool, terms@.take(0)));
    }
    while i < terms.len()
        invariant
            i <= terms@.len(),
            cev(entries@) == cix_build(pool, terms@.take(i as int)),
            forall|t: int| 0 <= t < entries@.len() ==> (#[trigger] entries@[t]).indexes@.len() > 0,
        decreases terms@.len() - i,
    {
        let idx = i as u32;
        let mut cps = utf8_decode(&strings[terms[i].expression as usize]);
        let mut cps_r = utf8_decode(&strings[terms[i].reading as usize]);
        cps.append(&mut cps_r);
        proof {
            assert(cps@ == term_cps(pool, terms@[i as int]));
        }
        let ghost e0 = cev(entries@);
        let mut p: usize = 0;
        proof {
            assert(cps@.skip(0) =~= cps@);
        }
        while p < cps.len()
            invariant
                p <= cps@.len(),
                cix_add_cps(e0, cps@, idx) == cix_add_cps(cev(entries@), cps@.skip(p as int), idx),
                forall|t: int|
                    0 <= t < entries@.len() ==> (#[trigger] entries@[t]).indexes@.len() > 0,
            decreases cps@.len() - p,
        {
            let cpv = cps[p];
            let mut k: usize = 0;
            while k < entries.len() && entries[k].character < cpv
                invariant
                    k <= entries@.len(),
                    forall|t2: int| 0 <= t2 < k ==> (#[trigger] entries@[t2]).character < cpv,
                decreases entries@.len() - k,
            {
                k = k + 1;
            }
            let ghost before = cev(entries@);
            proof {
                assert forall|t2: int| 0 <= t2 < k implies (#[trigger] before[t2]).character
                    < cpv by {
                    assert(before[t2] == entries@[t2]@);
                }
                lemma_cix_insert_at(before, cpv, idx, k as int);
            }
            if k < entries.len() && entries[k].character == cpv {
                let last_pos = entries[k].indexes.len() - 1;
                let last = entries[k].indexes[last_pos];
                if last == idx {
                    proof {
                        assert(before[k as int].indexes.len() > 0);
                        assert(before[k as int].indexes.last() == idx);
                        assert(cev(entries@) == cix_insert(before, cpv, idx));
                    }
                } else {
                    let mut e2 = entries.remove(k);
                    e2.indexes.push(idx);
                    entries.insert(k, e2);
                    proof {
                        assert(cev(entries@) =~= before.update(
                            k as int,
                            CixEntryM { character: cpv, indexes: before[k as int].indexes.push(idx) },
                        ));
                        assert(cev(entries@) == cix_insert(before, cpv, idx));
                    }
                }
            } else {
                let mut v: Vec<u32> = Vec::new();
                v.push(idx);
                entries.insert(k, CharEntry { character: cpv, indexes: v });
                proof {
                    assert(cev(entries@) =~= before.insert(
                        k as int,
                        CixEntryM { character: cpv, indexes: seq![idx] },
                    ));
                    assert(cev(entries@) == cix_insert(before, cpv, idx));
                }
            }
            proof {
                assert(cps@.skip(p as int)[0] == cps@[p as int]);
                assert(cps@.skip(p as int).skip(1) =~= cps@.skip(p as int + 1));
            }
            p = p + 1;
        }
        proof {
            assert(cps@.skip(cps@.len() as int) =~= Seq::<u32>::empty());
            assert(terms@.take(i as int + 1).drop_last() =~= terms@.take(i as int));
            assert(terms@.take(i as int + 1).last() == terms@[i as int]);
        }
        i = i + 1;
    }
    proof {
        assert(terms@.take(terms@.len() as int) =~= terms@);
    }
    entries
}


/// Some entry records position `t` under character `c`.
pub open spec fn cix_has(entries: Seq<CixEntryM>, c: u32, t: u32) -> bool {
    exists|k: int|
        0 <= k < entries.len() && entries[k].character == c && entries[k].indexes.contains(t)
}

/// Some entry carries character `c`.
pub open spec fn cix_has_char(entries: Seq<CixEntryM>, c: u32) -> bool {
    exists|k: int| 0 <= k < entries.len() && entries[k].character == c
}

/// Entries are strictly sorted by character.
pub open spec fn cix_sorted(entries: Seq<CixEntryM>) -> bool {
    forall|i: int, j: int|
        0 <= i < j < entries.len() ==> (#[trigger] entries[i]).character < (
        #[trigger] entries[j]).character
}

/// Every position list is nonempty, strictly ascending, and below `bound`.
pub open spec fn cix_lists_ok(entries: Seq<CixEntryM>, bound: int) -> bool {
    forall|k: int|
        0 <= k < entries.len() ==> {
            let l = (#[trigger] entries[k]).indexes;
            &&& l.len() > 0
            &&& forall|a: int, b: int| 0 <= a < b < l.len() ==> l[a] < l[b]
            &&& forall|a: int| 0 <= a < l.len() ==> l[a] < bound
        }
}

pub proof fn lemma_cix_has_cons(x: CixEntryM, s: Seq<CixEntryM>, c: u32, t: u32)
    ensures
        cix_has(seq![x] + s, c, t) <==> ((x.character == c && x.indexes.contains(t)) || cix_has(
            s,
            c,
            t,
        )),
{
    let r = seq![x] + s;
    if x.character == c && x.indexes.contains(t) {
        assert(r[0] == x);
        assert(cix_has(r, c, t));
    }
    if cix_has(s, c, t) {
        let k = choose|k: int|
            0 <= k < s.len() && s[k].character == c && s[k].indexes.contains(t);
        assert(r[k + 1] == s[k]);
        assert(cix_has(r, c, t));
    }
    if cix_has(r, c, t) {
        let k = choose|k: int|
            0 <= k < r.len() && r[k].character == c && r[k].indexes.contains(t);
        if k == 0 {
            assert(r[0] == x);
        } else {
            assert(r[k] == s[k - 1]);
            assert(cix_has(s, c, t));
        }
    }
}

pub proof fn lemma_cix_has_char_cons(x: CixEntryM, s: Seq<CixEntryM>, c: u32)
    ensures
        cix_has_char(seq![x] + s, c) <==> (x.character == c || cix_has_char(s, c)),
{
    let r = seq![x] + s;
    if x.character == c {
        assert(r[0] == x);
    }
    if cix_has_char(s, c) {
        let k = choose|k: int| 0 <= k < s.len() && s[k].character == c;
        assert(r[k + 1] == s[k]);
    }
    if cix_has_char(r, c) {
        let k = choose|k: int| 0 <= k < r.len() && r[k].character == c;
        if k == 0 {
            assert(r[0] == x);
        } else {
            assert(r[k] == s[k - 1]);
        }
    }
}

/// One insertion keeps the entry order and the list shape, and adds
/// exactly the pair `(c, i)` to the membership relation.
pub proof fn lemma_cix_insert_props(entries: Seq<CixEntryM>, c: u32, i: u32)
    requires
        cix_sorted(entries),
        cix_lists_ok(entries, i as int + 1),
    ensures
        cix_sorted(cix_insert(entries, c, i)),
        cix_lists_ok(cix_insert(entries, c, i), i as int + 1),
        forall|c2: u32, t: u32|
            #![trigger cix_has(cix_insert(entries, c, i), c2, t)]
            cix_has(cix_insert(entries, c, i), c2, t) <==> (cix_has(entries, c2, t) || (c2 == c
                && t == i)),
        forall|c2: u32|
            #![trigger cix_has_char(cix_insert(entries, c, i), c2)]
            cix_has_char(cix_insert(entries, c, i), c2) <==> (cix_has_char(entries, c2) || c2
                == c),
    decreases entries.len(),
{
    let r = cix_insert(entries, c, i);
    if entries.len() == 0 {
        let x = CixEntryM { character: c, indexes: seq![i] };
        assert(r == seq![x]);
        assert(seq![i][0] == i);
        assert forall|c2: u32, t: u32|
            cix_has(r, c2, t) implies (cix_has(entries, c2, t) || (c2 == c && t == i)) by {
            let k = choose|k: int|
                0 <= k < r.len() && r[k].character == c2 && r[k].indexes.contains(t);
            assert(r[k] == x);
        }
        assert forall|c2: u32, t: u32|
            (cix_has(entries, c2, t) || (c2 == c && t == i)) implies cix_has(r, c2, t) by {
            if c2 == c && t == i {
                assert(r[0].indexes.contains(i));
            }
        }
        assert forall|c2: u32|
            #![trigger cix_has_char(r, c2)]
            cix_has_char(r, c2) <==> (cix_has_char(entries, c2) || c2 == c) by {
            if cix_has_char(r, c2) {
                let k = choose|k: int| 0 <= k < r.len() && r[k].character == c2;
                assert(r[k] == x);
            }
            if c2 == c {
                assert(r[0].character == c);
            }
        }
    } else {
        let e0 = entries[0];
        let rest = entries.skip(1);
        assert(seq![e0] + rest =~= entries);
        assert forall|k: int| 0 <= k < rest.len() implies rest[k] == entries[k + 1] by {}
        if e0.character < c {
            assert(cix_sorted(rest));
            assert(cix_lists_ok(rest, i as int + 1));
            lemma_cix_insert_props(rest, c, i);
            let ri = cix_insert(rest, c, i);
            assert(r == seq![e0] + ri);
            // order: every char in ri is above e0's
            assert forall|k: int| 0 <= k < ri.len() implies e0.character < (
            #[trigger] ri[k]).character by {
                assert(ri[k].character == ri[k].character);
                assert(cix_has_char(ri, ri[k].character));
                if cix_has_char(rest, ri[k].character) {
                    let j = choose|j: int| 0 <= j < rest.len() && rest[j].character == ri[
                        k].character;
                    assert(entries[j + 1].character == ri[k].character);
                } else {
                    assert(ri[k].character == c);
                }
            }
            assert forall|a: int, b: int| 0 <= a < b < r.len() implies (
            #[trigger] r[a]).character < (#[trigger] r[b]).character by {
                if a > 0 {
                    assert(r[a] == ri[a - 1] && r[b] == ri[b - 1]);
                } else {
                    assert(r[b] == ri[b - 1]);
                }
            }
            assert(cix_lists_ok(r, i as int + 1)) by {
                assert forall|k: int| 0 <= k < r.len() implies {
                    let l = (#[trigger] r[k]).indexes;
                    &&& l.len() > 0
                    &&& forall|a: int, b: int| 0 <= a < b < l.len() ==> l[a] < l[b]
                    &&& forall|a: int| 0 <= a < l.len() ==> l[a] < i as int + 1
                } by {
                    if k == 0 {
                        assert(r[0] == e0);
                        assert(entries[0] == e0);
                    } else {
                        assert(r[k] == ri[k - 1]);
                    }
                }
            }
            assert forall|c2: u32, t: u32|
                cix_has(r, c2, t) <==> (cix_has(entries, c2, t) || (c2 == c && t == i)) by {
                lemma_cix_has_cons(e0, ri, c2, t);
                lemma_cix_has_cons(e0, rest, c2, t);
            }
            assert forall|c2: u32|
                #![trigger cix_has_char(r, c2)]
                cix_has_char(r, c2) <==> (cix_has_char(entries, c2) || c2 == c) by {
                lemma_cix_has_char_cons(e0, ri, c2);
                lemma_cix_has_char_cons(e0, rest, c2);
            }
        } else if e0.character == c {
            assert(e0.indexes.len() > 0);
            if e0.indexes.last() == i {
                assert(r == entries);
                assert(e0.indexes.contains(i)) by {
                    assert(e0.indexes[e0.indexes.len() - 1] == i);
                }
                assert(cix_has(entries, c, i));
            } else {
                let e2 = CixEntryM { character: c, indexes: e0.indexes.push(i) };
                assert(r == seq![e2] + rest);
                // the pushed list is still strictly ascending and below i + 1
                assert(e0.indexes[e0.indexes.len() - 1] < i as int + 1);
                assert(e0.indexes.last() != i);
                assert forall|a: int, b: int|
                    0 <= a < b < e2.indexes.len() implies e2.indexes[a] < e2.indexes[b] by {
                    if b < e2.indexes.len() - 1 {
                        assert(e2.indexes[a] == e0.indexes[a] && e2.indexes[b] == e0.indexes[b]);
                    } else {
                        assert(e2.indexes[b] == i);
                        assert(e2.indexes[a] == e0.indexes[a]);
                        if a < e0.indexes.len() - 1 {
                            assert(e0.indexes[a] < e0.indexes[e0.indexes.len() - 1]);
                        }
                    }
                }
                assert(cix_lists_ok(r, i as int + 1)) by {
                    assert forall|k: int| 0 <= k < r.len() implies {
                        let l = (#[trigger] r[k]).indexes;
                        &&& l.len() > 0
                        &&& forall|a: int, b: int| 0 <= a < b < l.len() ==> l[a] < l[b]
                        &&& forall|a: int| 0 <= a < l.len() ==> l[a] < i as int + 1
                    } by {
                        if k == 0 {
                            assert(r[0] == e2);
                        } else {
                            assert(r[k] == rest[k - 1]);
                            assert(rest[k - 1] == entries[k]);
                        }
                    }
                }
                assert forall|a: int, b: int| 0 <= a < b < r.len() implies (
                #[trigger] r[a]).character < (#[trigger] r[b]).character by {
                    if a == 0 {
                        assert(r[b] == entries[b]);
                        assert(entries[0].character < entries[b].character);
                    } else {
                        assert(r[a] == entries[a] && r[b] == entries[b]);
                    }
                }
                assert forall|c2: u32, t: u32|
                    cix_has(r, c2, t) <==> (cix_has(entries, c2, t) || (c2 == c && t == i)) by {
                    lemma_cix_has_cons(e2, rest, c2, t);
                    lemma_cix_has_cons(e0, rest, c2, t);
                    if c2 == c && t == i {
                        assert(e2.indexes.last() == i);
                        assert(e2.indexes.contains(i));
                    }
                    if e2.character == c2 && e2.indexes.contains(t) {
                        let a = choose|a: int| 0 <= a < e2.indexes.len() && e2.indexes[a] == t;
                        if a < e0.indexes.len() {
                            assert(e0.indexes[a] == t);
                            assert(e0.indexes.contains(t));
                        }
                    }
                    if e0.character == c2 && e0.indexes.contains(t) {
                        let a = choose|a: int| 0 <= a < e0.indexes.len() && e0.indexes[a] == t;
                        assert(e2.indexes[a] == t);
                        assert(e2.indexes.contains(t));
                    }
                }
                assert forall|c2: u32|
                    #![trigger cix_has_char(r, c2)]
                    cix_has_char(r, c2) <==> (cix_has_char(entries, c2) || c2 == c) by {
                    lemma_cix_has_char_cons(e2, rest, c2);
                    lemma_cix_has_char_cons(e0, rest, c2);
                }
            }
        } else {
            let x = CixEntryM { character: c, indexes: seq![i] };
            assert(r == seq![x] + entries);
            assert(seq![i][0] == i);
            assert forall|a: int, b: int| 0 <= a < b < r.len() implies (
            #[trigger] r[a]).character < (#[trigger] r[b]).character by {
                if a == 0 {
                    if b == 1 {
                        assert(r[b] == entries[0]);
                    } else {
                        assert(r[b] == entries[b - 1]);
                        assert(entries[0].character < entries[b - 1].character);
                    }
                } else {
                    assert(r[a] == entries[a - 1] && r[b] == entries[b - 1]);
                }
            }
            assert(cix_lists_ok(r, i as int + 1)) by {
                assert forall|k: int| 0 <= k < r.len() implies {
                    let l = (#[trigger] r[k]).indexes;
                    &&& l.len() > 0
                    &&& forall|a: int, b: int| 0 <= a < b < l.len() ==> l[a] < l[b]
                    &&& forall|a: int| 0 <= a < l.len() ==> l[a] < i as int + 1
                } by {
                    if k > 0 {
                        assert(r[k] == entries[k - 1]);
                    } else {
                        assert(r[0] == x);
                    }
                }
            }
            assert forall|c2: u32, t: u32|
                cix_has(r, c2, t) <==> (cix_has(entries, c2, t) || (c2 == c && t == i)) by {
                lemma_cix_has_cons(x, entries, c2, t);
                if c2 == c && t == i {
                    assert(x.indexes.contains(i));
                }
            }
            assert forall|c2: u32|
                #![trigger cix_has_char(r, c2)]
                cix_has_char(r, c2) <==> (cix_has_char(entries, c2) || c2 == c) by {
                lemma_cix_has_char_cons(x, entries, c2);
            }
        }
    }
}

/// Adding all code points of one term keeps the shape and adds exactly the
/// pairs `(c, i)` for the characters `c` occurring in `cps`.
pub proof fn lemma_cix_add_cps_props(entries: Seq<CixEntryM>, cps: Seq<u32>, i: u32)
    requires
        cix_sorted(entries),
        cix_lists_ok(entries, i as int + 1),
    ensures
        cix_sorted(cix_add_cps(entries, cps, i)),
        cix_lists_ok(cix_add_cps(entries, cps, i), i as int + 1),
        forall|c2: u32, t: u32|
            cix_has(cix_add_cps(entries, cps, i), c2, t) <==> (cix_has(entries, c2, t) || (
            cps.contains(c2) && t == i)),
    decreases cps.len(),
{
    if cps.len() == 0 {
    } else {
        lemma_cix_insert_props(entries, cps[0], i);
        let e1 = cix_insert(entries, cps[0], i);
        lemma_cix_add_cps_props(e1, cps.skip(1), i);
        assert forall|c2: u32, t: u32|
            cix_has(cix_add_cps(entries, cps, i), c2, t) <==> (cix_has(entries, c2, t) || (
            cps.contains(c2) && t == i)) by {
            assert(cix_add_cps(entries, cps, i) == cix_add_cps(e1, cps.skip(1), i));
            assert(cix_has(cix_add_cps(e1, cps.skip(1), i), c2, t) <==> (cix_has(e1, c2, t) || (
            cps.skip(1).contains(c2) && t == i)));
            assert(cix_has(cix_insert(entries, cps[0], i), c2, t) <==> (cix_has(entries, c2, t)
                || (c2 == cps[0] && t == i)));
            if cps.contains(c2) {
                let k = choose|k: int| 0 <= k < cps.len() && cps[k] == c2;
                if k > 0 {
                    assert(cps.skip(1)[k - 1] == c2);
                    assert(cps.skip(1).contains(c2));
                }
            }
            if cps.skip(1).contains(c2) {
                let k = choose|k: int| 0 <= k < cps.skip(1).len() && cps.skip(1)[k] == c2;
                assert(cps[k + 1] == c2);
                assert(cps.contains(c2));
            }
            assert(cps[0] == c2 ==> cps.contains(c2));
        }
    }
}

/// The built char index: entries strictly sorted by character, every list
/// strictly ascending, and one membership for exactly every pair of a term
/// position and a code point of that term's expression or reading.
pub proof fn lemma_cix_build_props(pool: Seq<Seq<u8>>, terms: Seq<TermData>)
    requires
        terms.len() <= u32::MAX as int,
    ensures
        cix_sorted(cix_build(pool, terms)),
        cix_lists_ok(cix_build(pool, terms), terms.len() as int),
        forall|c2: u32, t: u32|
            cix_has(cix_build(pool, terms), c2, t) <==> (t < terms.len() && term_cps(
                pool,
                terms[t as int],
            ).contains(c2)),
    decreases terms.len(),
{
    if terms.len() == 0 {
        assert forall|c2: u32, t: u32| !cix_has(cix_build(pool, terms), c2, t) by {}
    } else {
        let dl = terms.drop_last();
        let prev = cix_build(pool, dl);
        let i = (terms.len() - 1) as u32;
        lemma_cix_build_props(pool, dl);
        assert(cix_lists_ok(prev, i as int + 1)) by {
            assert forall|k: int| 0 <= k < prev.len() implies {
                let l = (#[trigger] prev[k]).indexes;
                &&& l.len() > 0
                &&& forall|a: int, b: int| 0 <= a < b < l.len() ==> l[a] < l[b]
                &&& forall|a: int| 0 <= a < l.len() ==> l[a] < i as int + 1
            } by {
                assert(cix_lists_ok(prev, dl.len() as int));
            }
        }
        lemma_cix_add_cps_props(prev, term_cps(pool, terms.last()), i);
        assert forall|c2: u32, t: u32|
            cix_has(cix_build(pool, terms), c2, t) <==> (t < terms.len() && term_cps(
                pool,
                terms[t as int],
            ).contains(c2)) by {
            assert(cix_build(pool, terms) == cix_add_cps(prev, term_cps(pool, terms.last()), i));
            assert(cix_has(cix_add_cps(prev, term_cps(pool, terms.last()), i), c2, t) <==> (
            cix_has(prev, c2, t) || (term_cps(pool, terms.last()).contains(c2) && t == i)));
            assert(cix_has(prev, c2, t) <==> (t < dl.len() && term_cps(pool, dl[t as int]).contains(
                c2,
            )));
            assert(terms[i as int] == terms.last());
            if t < dl.len() {
                assert(dl[t as int] == terms[t as int]);
            }
        }
    }
}

} // verus!

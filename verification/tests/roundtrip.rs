use dictdb::data::{KanjiData, TagData, TermData};
use dictdb::loader::DB;
use dictdb::writer::Writer;
use dictdb::VecHandle;
use dictdb::order::lex_le_bytes;

fn term(expression: u32, reading: u32, frequency: u32, score: i32, sequence: u32) -> TermData {
    TermData {
        expression,
        reading,
        search_key: 0,
        score,
        sequence,
        frequency,
        glossary: Vec::new(),
        rules: Vec::new(),
        term_tags: Vec::new(),
        definition_tags: Vec::new(),
        source: 0,
    }
}

fn kanji(character: char) -> KanjiData {
    KanjiData {
        character,
        frequency: 0,
        meanings: Vec::new(),
        onyomi: Vec::new(),
        kunyomi: Vec::new(),
        tags: Vec::new(),
        stats: Vec::new(),
        source: 0,
    }
}

fn arena_slice(db: &DB, h: VecHandle) -> Vec<u32> {
    let s = h.offset as usize;
    let e = s + h.length as usize;
    db.vector_data[s..e].to_vec()
}

fn blob_str(db: &DB, idx: u32) -> String {
    let h = db.string_list[idx as usize];
    let s = h.offset as usize;
    let e = s + h.length as usize;
    String::from_utf8(db.string_data[s..e].to_vec()).unwrap()
}

#[test]
fn intern_round_trip_and_stability() {
    let mut w = Writer::new();
    let a = w.intern(b"inu".to_vec());
    let b = w.intern(b"neko".to_vec());
    assert_ne!(a, b);
    assert_eq!(w.intern(b"inu".to_vec()), a);
    assert_eq!(w.intern(b"neko".to_vec()), b);
    assert_eq!(w.string(a).as_slice(), b"inu");
    assert_eq!(w.string(b).as_slice(), b"neko");
    assert_eq!(w.intern(Vec::new()), 0);
    assert_eq!(w.string(0).len(), 0);
}

#[test]
fn tags_by_name() {
    let mut w = Writer::new();
    let n = w.intern(b"n".to_vec());
    let v = w.intern(b"v".to_vec());
    let cat = w.intern(b"pos".to_vec());
    w.push_tag(TagData { name: n, category: cat, order: 0, notes: 0 });
    w.push_tag(TagData { name: v, category: cat, order: 1, notes: 0 });
    assert_eq!(w.get_tag(&b"n".to_vec()), 0);
    assert_eq!(w.get_tag(&b"v".to_vec()), 1);
    let both = w.get_tags(&vec![b"v".to_vec(), b"n".to_vec()]);
    assert_eq!(both, vec![1, 0]);
}

#[test]
fn empty_builder_round_trip() {
    let w = Writer::new();
    let bytes = w.write();
    let db = DB::load(&bytes).unwrap();
    assert_eq!(db.tags.len(), 0);
    assert_eq!(db.terms.len(), 0);
    assert_eq!(db.kanji.len(), 0);
    assert_eq!(db.index_prefix_jp.len(), 0);
    assert_eq!(db.index_suffix_jp.len(), 0);
    assert_eq!(db.index_chars_jp.len(), 0);
    assert_eq!(db.vector_data.len(), 0);
    assert_eq!(db.string_list.len(), 1);
    assert_eq!(db.string_list[0].offset, 0);
    assert_eq!(db.string_list[0].length, 0);
    assert_eq!(db.string_data.len(), 0);
}

#[test]
fn empty_image_bytes_are_length_prefixes_only() {
    // Nine sections, each reduced to its u32 zero length prefix, except the
    // string table which holds the empty string's (0, 0) descriptor.
    let w = Writer::new();
    let bytes = w.write();
    let mut expect = Vec::new();
    for _ in 0..7 {
        expect.extend_from_slice(&0u32.to_le_bytes());
    }
    expect.extend_from_slice(&1u32.to_le_bytes());
    expect.extend_from_slice(&0u32.to_le_bytes());
    expect.extend_from_slice(&0u32.to_le_bytes());
    expect.extend_from_slice(&0u32.to_le_bytes());
    assert_eq!(bytes, expect);
}

#[test]
fn single_term_indexes() {
    let mut w = Writer::new();
    let n = w.intern(b"n".to_vec());
    let pos = w.intern(b"pos".to_vec());
    w.push_tag(TagData { name: n, category: pos, order: 0, notes: 0 });
    let inu = w.intern("いぬ".as_bytes().to_vec());
    let katakana = w.intern("イヌ".as_bytes().to_vec());
    let dog = w.intern(b"dog".to_vec());
    let tag = w.get_tag(&b"n".to_vec());
    let mut t = term(inu, katakana, 0, 0, 0);
    t.glossary = vec![dog];
    t.term_tags = vec![tag];
    w.push_term(t);
    let bytes = w.write();
    let db = DB::load(&bytes).unwrap();
    assert_eq!(db.terms.len(), 1);
    assert_eq!(db.tags.len(), 1);
    assert_eq!(blob_str(&db, db.terms[0].expression), "いぬ");
    assert_eq!(blob_str(&db, db.terms[0].reading), "イヌ");
    assert_eq!(arena_slice(&db, db.terms[0].glossary), vec![dog]);
    assert_eq!(arena_slice(&db, db.terms[0].term_tags), vec![tag]);
    // prefix index: "いぬ" before "イヌ" in byte order
    assert_eq!(db.index_prefix_jp.len(), 2);
    assert_eq!(db.index_prefix_jp[0].key, inu);
    assert_eq!(db.index_prefix_jp[0].term, 0);
    assert_eq!(db.index_prefix_jp[1].key, katakana);
    assert_eq!(db.index_prefix_jp[1].term, 0);
    assert_eq!(db.index_suffix_jp.len(), 2);
    // char index: い, ぬ, イ, ヌ each point at term 0
    assert_eq!(db.index_chars_jp.len(), 4);
    let want = ['い', 'ぬ', 'イ', 'ヌ'];
    for (e, c) in db.index_chars_jp.iter().zip(want.iter()) {
        assert_eq!(e.character, *c as u32);
        assert_eq!(arena_slice(&db, e.indexes), vec![0]);
    }
    // entries sorted ascending by code point
    for pair in db.index_chars_jp.windows(2) {
        assert!(pair[0].character < pair[1].character);
    }
}

#[test]
fn relevance_order() {
    let mut w = Writer::new();
    let e0 = w.intern(b"aaa".to_vec());
    let e1 = w.intern(b"bbb".to_vec());
    let e2 = w.intern(b"ccc".to_vec());
    w.push_term(term(e0, 0, 0, 9, 10));
    w.push_term(term(e1, 0, 5, 1, 11));
    w.push_term(term(e2, 0, 5, 2, 12));
    let bytes = w.write();
    let db = DB::load(&bytes).unwrap();
    // frequency descending, then score descending, stable on full ties
    assert_eq!(db.terms[0].sequence, 12);
    assert_eq!(db.terms[1].sequence, 11);
    assert_eq!(db.terms[2].sequence, 10);
    // all index entries reference the new positions
    for e in &db.index_prefix_jp {
        assert!((e.term as usize) < db.terms.len());
        assert_eq!(db.terms[e.term as usize].expression, e.key);
    }
}

#[test]
fn relevance_order_is_stable() {
    let mut w = Writer::new();
    let e0 = w.intern(b"x".to_vec());
    let e1 = w.intern(b"y".to_vec());
    w.push_term(term(e0, 0, 3, 7, 100));
    w.push_term(term(e1, 0, 3, 7, 101));
    let bytes = w.write();
    let db = DB::load(&bytes).unwrap();
    assert_eq!(db.terms[0].sequence, 100);
    assert_eq!(db.terms[1].sequence, 101);
}

#[test]
fn suffix_order_reverses() {
    // "ab" and "ba": forward order has "ab" first, but the suffix index
    // sorts by the reversed strings, putting "ba" (reversed "ab") first.
    let mut w = Writer::new();
    let ab = w.intern(b"ab".to_vec());
    let ba = w.intern(b"ba".to_vec());
    w.push_term(term(ab, 0, 0, 0, 0));
    w.push_term(term(ba, 0, 0, 0, 1));
    let bytes = w.write();
    let db = DB::load(&bytes).unwrap();
    assert_eq!(db.index_prefix_jp[0].key, ab);
    assert_eq!(db.index_prefix_jp[1].key, ba);
    assert_eq!(db.index_suffix_jp[0].key, ba);
    assert_eq!(db.index_suffix_jp[1].key, ab);
}

#[test]
fn suffix_order_with_combining_marks() {
    // "ba\u{301}" ends in the cluster a-with-acute; its grapheme reversal
    // is "a\u{301}b", which sorts after "ac" (the reversal of "ca").
    let mut w = Writer::new();
    let ba = w.intern("ba\u{301}".as_bytes().to_vec());
    let ca = w.intern("ca".as_bytes().to_vec());
    w.push_term(term(ba, 0, 0, 0, 0));
    w.push_term(term(ca, 0, 0, 0, 1));
    let bytes = w.write();
    let db = DB::load(&bytes).unwrap();
    assert_eq!(db.index_suffix_jp[0].key, ca);
    assert_eq!(db.index_suffix_jp[1].key, ba);
}

#[test]
fn suffix_order_keeps_marks_with_base() {
    // "a\u{301}" is a single grapheme cluster, so its reversal is itself
    // and starts with the byte of 'a', before "b".  Reversing code points
    // instead would put the combining mark's bytes first and flip the
    // order.
    let mut w = Writer::new();
    let am = w.intern("a\u{301}".as_bytes().to_vec());
    let b = w.intern("b".as_bytes().to_vec());
    w.push_term(term(am, 0, 0, 0, 0));
    w.push_term(term(b, 0, 0, 0, 1));
    let bytes = w.write();
    let db = DB::load(&bytes).unwrap();
    assert_eq!(db.index_suffix_jp[0].key, am);
    assert_eq!(db.index_suffix_jp[1].key, b);
}

#[test]
fn empty_vector_field_is_sentinel() {
    let mut w = Writer::new();
    w.push_kanji(kanji('犬'));
    let bytes = w.write();
    let db = DB::load(&bytes).unwrap();
    assert_eq!(db.kanji.len(), 1);
    assert_eq!(db.kanji[0].character, '犬' as u32);
    let h = db.kanji[0].meanings;
    assert_eq!(h.offset, 0);
    assert_eq!(h.length, 0);
    assert_eq!(db.vector_data.len(), 0);
}

#[test]
fn stats_flattening() {
    let mut w = Writer::new();
    let c1 = w.intern(b"misc".to_vec());
    for extra in 0..5 {
        let name = w.intern(vec![b's', extra]);
        w.push_tag(TagData { name, category: c1, order: 0, notes: 0 });
    }
    for extra in 0..4 {
        w.intern(vec![b'p', extra]);
    }
    let mut k = kanji('水');
    k.stats = vec![(3, 7), (4, 8)];
    w.push_kanji(k);
    let bytes = w.write();
    let db = DB::load(&bytes).unwrap();
    let h = db.kanji[0].stats;
    assert_eq!(h.length, 4);
    assert_eq!(h.length % 2, 0);
    assert_eq!(arena_slice(&db, h), vec![3, 7, 4, 8]);
}

#[test]
fn kanji_sorted_by_frequency() {
    let mut w = Writer::new();
    let mut a = kanji('一');
    a.frequency = 1;
    let mut b = kanji('二');
    b.frequency = 9;
    w.push_kanji(a);
    w.push_kanji(b);
    let bytes = w.write();
    let db = DB::load(&bytes).unwrap();
    assert_eq!(db.kanji[0].character, '二' as u32);
    assert_eq!(db.kanji[1].character, '一' as u32);
}

#[test]
fn char_index_merges_terms() {
    let mut w = Writer::new();
    let ab = w.intern(b"ab".to_vec());
    let bc = w.intern(b"bc".to_vec());
    w.push_term(term(ab, 0, 9, 0, 0));
    w.push_term(term(bc, 0, 1, 0, 1));
    let bytes = w.write();
    let db = DB::load(&bytes).unwrap();
    // sorted terms: "ab" (freq 9) then "bc" (freq 1)
    assert_eq!(db.index_chars_jp.len(), 3);
    assert_eq!(db.index_chars_jp[0].character, 'a' as u32);
    assert_eq!(arena_slice(&db, db.index_chars_jp[0].indexes), vec![0]);
    assert_eq!(db.index_chars_jp[1].character, 'b' as u32);
    assert_eq!(arena_slice(&db, db.index_chars_jp[1].indexes), vec![0, 1]);
    assert_eq!(db.index_chars_jp[2].character, 'c' as u32);
    assert_eq!(arena_slice(&db, db.index_chars_jp[2].indexes), vec![1]);
}

#[test]
fn load_rejects_truncated_image() {
    let mut w = Writer::new();
    let e = w.intern(b"word".to_vec());
    w.push_term(term(e, 0, 0, 0, 0));
    let bytes = w.write();
    assert!(DB::load(&bytes).is_some());
    for cut in [0usize, 3, 7, bytes.len() - 1] {
        let truncated = bytes[..cut].to_vec();
        assert!(DB::load(&truncated).is_none());
    }
}

#[test]
fn tag_fields_round_trip_bit_equal() {
    let mut w = Writer::new();
    let n = w.intern(b"adj".to_vec());
    let c = w.intern(b"pos".to_vec());
    let note = w.intern(b"a note".to_vec());
    w.push_tag(TagData { name: n, category: c, order: -5, notes: note });
    let bytes = w.write();
    let db = DB::load(&bytes).unwrap();
    assert_eq!(db.tags[0].name, n);
    assert_eq!(db.tags[0].category, c);
    assert_eq!(db.tags[0].order, (-5i32) as u32);
    assert_eq!(db.tags[0].order as i32, -5);
    assert_eq!(db.tags[0].notes, note);
    assert_eq!(blob_str(&db, db.tags[0].name), "adj");
}

#[test]
fn utf8_decode_code_points() {
    let s = "aé漢\u{1F389}";
    let cps = dictdb::utf8::utf8_decode(&s.as_bytes().to_vec());
    let want: Vec<u32> = s.chars().map(|c| c as u32).collect();
    assert_eq!(cps, want);
}

#[test]
fn byte_order_comparison() {
    assert!(lex_le_bytes(&b"".to_vec(), &b"a".to_vec()));
    assert!(lex_le_bytes(&b"a".to_vec(), &b"a".to_vec()));
    assert!(lex_le_bytes(&b"a".to_vec(), &b"ab".to_vec()));
    assert!(!lex_le_bytes(&b"ab".to_vec(), &b"a".to_vec()));
    assert!(lex_le_bytes(&b"ab".to_vec(), &b"b".to_vec()));
    assert!(!lex_le_bytes(&b"b".to_vec(), &b"ab".to_vec()));
}

#[test]
fn char_index_statistics() {
    let mut w = Writer::new();
    let ab = w.intern(b"ab".to_vec());
    let bc = w.intern(b"bc".to_vec());
    w.push_term(term(ab, 0, 9, 0, 0));
    w.push_term(term(bc, 0, 1, 0, 1));
    let bytes = w.write();
    let db = DB::load(&bytes).unwrap();
    let (total, chars, max) = db.char_index_stats();
    // 'a' -> [0], 'b' -> [0, 1], 'c' -> [1]
    assert_eq!(total, 4);
    assert_eq!(chars, 3);
    assert_eq!(max, 2);
}

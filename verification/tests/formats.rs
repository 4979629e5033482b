use montre::bitmap::{bitmap_insert, bitmap_new};
use montre::corpus::{EmptyNode, EmptyNodeStore};
use montre::formats::mwt::{encode_mwts, MWTEntry, MappedMWTs};
use montre::formats::sentence_ids::{encode_sentence_ids, MappedSentenceIds};
use montre::formats::spacing::{encode_spacing, SpacingIndex};
use montre::formats::spans_flat::{encode_flat_spans, MappedSpans};
use montre::formats::IndexError;
use montre::formats::forward_flat::{encode_flat_forward, read_dir_entry, read_header, ENCODING_DENSE_NUMERIC, ENCODING_DICT};
use montre::forward::InMemoryForward;
use montre::inverted::InMemoryInverted;
use montre::span::Span;
use montre::spans::InMemorySpans;
use montre::value::Value;

// ---- inverted ----

#[test]
fn basic_insert_and_get() {
    let mut index = InMemoryInverted::new();
    index.insert("word", "the", &[0, 5, 10]);
    index.insert("word", "cat", &[3, 8]);

    let the_positions = index.get("word", "the").unwrap();
    assert!(the_positions.contains(0));
    assert!(the_positions.contains(5));
    assert!(the_positions.contains(10));
    assert!(!the_positions.contains(3));

    let cat_positions = index.get("word", "cat").unwrap();
    assert!(cat_positions.contains(3));
    assert!(cat_positions.contains(8));
}

#[test]
fn get_missing_layer() {
    let index = InMemoryInverted::new();
    assert!(index.get("word", "the").is_none());
}

#[test]
fn get_missing_value() {
    let mut index = InMemoryInverted::new();
    index.insert("word", "the", &[0]);
    assert!(index.get("word", "elephant").is_none());
}

#[test]
fn layers_returns_all() {
    let mut index = InMemoryInverted::new();
    index.insert("word", "the", &[0]);
    index.insert("pos", "DET", &[0]);
    index.insert("lemma", "the", &[0]);

    let mut layers = index.layers();
    layers.sort();
    assert_eq!(layers, vec!["lemma", "pos", "word"]);
}

#[test]
fn values_for_layer() {
    let mut index = InMemoryInverted::new();
    index.insert("pos", "DET", &[0, 5]);
    index.insert("pos", "NOUN", &[3, 8]);
    index.insert("pos", "VERB", &[4]);

    let mut values = index.values("pos").unwrap();
    values.sort();
    assert_eq!(values, vec!["DET", "NOUN", "VERB"]);
}

#[test]
fn values_missing_layer() {
    let index = InMemoryInverted::new();
    assert!(index.values("nonexistent").is_none());
}

#[test]
fn incremental_insert() {
    let mut index = InMemoryInverted::new();
    index.insert("word", "the", &[0]);
    index.insert("word", "the", &[5, 10]);

    let positions = index.get("word", "the").unwrap();
    assert_eq!(positions.len(), 3);
}

#[test]
fn inverted_merge_shifts_positions() {
    let mut a = InMemoryInverted::new();
    a.insert("word", "the", &[0, 2]);
    let mut b = InMemoryInverted::new();
    b.insert("word", "the", &[1]);
    b.insert("word", "dog", &[0]);
    a.merge_from(b, 10);
    let the: Vec<u32> = a.get("word", "the").unwrap().iter().collect();
    assert_eq!(the, vec![0, 2, 11]);
    let dog: Vec<u32> = a.get("word", "dog").unwrap().iter().collect();
    assert_eq!(dog, vec![10]);
}

// ---- forward ----

#[test]
fn basic_forward_index() {
    let mut index = InMemoryForward::new();
    let word_layer = index.add_layer("word");

    index.set(word_layer, 0, Value::from_text("the"));
    index.set(word_layer, 1, Value::from_text("cat"));
    index.set(word_layer, 2, Value::from_text("sat"));

    assert_eq!(index.get_str(0, "word"), Some("the"));
    assert_eq!(index.get_str(1, "word"), Some("cat"));
    assert_eq!(index.token_count(), 3);
}

#[test]
fn get_str_returns_string_values() {
    let mut index = InMemoryForward::new();
    let word_layer = index.add_layer("word");

    index.set(word_layer, 0, Value::from_text("the"));
    index.set(word_layer, 1, Value::from_text("cat"));

    assert_eq!(index.get_str(0, "word"), Some("the"));
    assert_eq!(index.get_str(1, "word"), Some("cat"));
    assert_eq!(index.get_str(5, "word"), None);
    assert_eq!(index.get_str(0, "nonexistent"), None);
}

#[test]
fn get_int_returns_integer_values() {
    let mut index = InMemoryForward::new();
    let head_layer = index.add_layer("head");

    index.set(head_layer, 0, Value::Int(3));
    index.set(head_layer, 1, Value::Int(0));

    assert_eq!(index.get_int(0, "head"), Some(3));
    assert_eq!(index.get_int(1, "head"), Some(0));
    assert_eq!(index.get_int(5, "head"), None);
}

#[test]
fn get_str_returns_none_for_int() {
    let mut index = InMemoryForward::new();
    let head_layer = index.add_layer("head");

    index.set(head_layer, 0, Value::Int(3));

    assert_eq!(index.get_str(0, "head"), None);
}

#[test]
fn get_int_returns_none_for_str() {
    let mut index = InMemoryForward::new();
    let word_layer = index.add_layer("word");

    index.set(word_layer, 0, Value::from_text("the"));

    assert_eq!(index.get_int(0, "word"), None);
}

#[test]
fn forward_gap_is_filled_and_layers_kept_in_order() {
    let mut index = InMemoryForward::new();
    let w = index.add_layer("word");
    let h = index.add_layer("head");
    assert_eq!((w, h), (0, 1));
    index.set(w, 3, Value::from_text("x"));
    index.set(h, 1, Value::Int(7));
    assert_eq!(index.token_count(), 4);
    // positions skipped over hold empty text
    assert_eq!(index.get_str(1, "word"), Some(""));
    assert_eq!(index.get_str(3, "word"), Some("x"));
    assert_eq!(index.get_int(1, "head"), Some(7));
    assert_eq!(index.get_int(0, "head"), None);
    assert_eq!(index.layer_names(), &["word".to_string(), "head".to_string()]);
}

// ---- multi-word tokens ----

fn mwt(start: u64, end: u64, form: &str, no_space_after: bool) -> MWTEntry {
    MWTEntry { start, end, form: form.to_string(), no_space_after }
}

#[test]
fn roundtrip_mwts() {
    let entries = vec![mwt(2, 4, "au", false), mwt(10, 12, "du", true), mwt(20, 22, "des", false)];
    let mapped = MappedMWTs::decode(&encode_mwts(&entries)).unwrap();

    assert_eq!(mapped.len(), 3);

    let e0 = mapped.get(0).unwrap();
    assert_eq!(e0.start, 2);
    assert_eq!(e0.end, 4);
    assert_eq!(e0.form, "au");
    assert!(!e0.no_space_after);

    let e1 = mapped.get(1).unwrap();
    assert_eq!(e1.form, "du");
    assert!(e1.no_space_after);
}

#[test]
fn covering_lookup() {
    let entries = vec![mwt(5, 7, "au", false), mwt(15, 17, "du", false)];
    let mapped = MappedMWTs::decode(&encode_mwts(&entries)).unwrap();

    assert!(mapped.covering(4).is_none());
    assert_eq!(mapped.covering(5).unwrap().form, "au");
    assert_eq!(mapped.covering(6).unwrap().form, "au");
    assert!(mapped.covering(7).is_none());
    assert_eq!(mapped.covering(15).unwrap().form, "du");
    assert!(mapped.covering(17).is_none());
}

#[test]
fn in_range_lookup() {
    let entries = vec![mwt(2, 4, "au", false), mwt(10, 12, "du", false), mwt(20, 22, "des", false)];
    let mapped = MappedMWTs::decode(&encode_mwts(&entries)).unwrap();

    let found = mapped.in_range(0, 15);
    assert_eq!(found.len(), 2);
    assert_eq!(found[0].form, "au");
    assert_eq!(found[1].form, "du");

    let found = mapped.in_range(5, 10);
    assert_eq!(found.len(), 0);
}

#[test]
fn roundtrip_empty() {
    let mapped = MappedMWTs::decode(&encode_mwts(&[])).unwrap();

    assert_eq!(mapped.len(), 0);
    assert!(mapped.is_empty());
    assert!(mapped.covering(0).is_none());
}

#[test]
fn roundtrip_unicode_form() {
    let entries = vec![mwt(0, 2, "l'homme", true)];
    let mapped = MappedMWTs::decode(&encode_mwts(&entries)).unwrap();

    let e = mapped.get(0).unwrap();
    assert_eq!(e.form, "l'homme");
    assert!(e.no_space_after);
}

#[test]
fn mwt_decode_rejects_bad_magic() {
    let mut bytes = encode_mwts(&[mwt(0, 2, "au", false)]);
    bytes[0] ^= 0xff;
    assert!(MappedMWTs::decode(&bytes).is_err());
    assert!(MappedMWTs::decode(&[1, 2, 3]).is_err());
}

// ---- sentence ids ----

#[test]
fn roundtrip_sentence_ids() {
    let ids: Vec<String> =
        vec!["doc1:0".into(), "doc1:1".into(), "test-sent-42".into(), "la-parure:127".into()];
    let mapped = MappedSentenceIds::decode(&encode_sentence_ids(&ids)).unwrap();

    assert_eq!(mapped.len(), 4);
    assert_eq!(mapped.get(0), Some("doc1:0"));
    assert_eq!(mapped.get(1), Some("doc1:1"));
    assert_eq!(mapped.get(2), Some("test-sent-42"));
    assert_eq!(mapped.get(3), Some("la-parure:127"));
    assert_eq!(mapped.get(4), None);
}

#[test]
fn roundtrip_empty_sentence_ids() {
    let mapped = MappedSentenceIds::decode(&encode_sentence_ids(&[])).unwrap();

    assert_eq!(mapped.len(), 0);
    assert!(mapped.is_empty());
    assert_eq!(mapped.get(0), None);
}

#[test]
fn roundtrip_unicode() {
    let ids: Vec<String> = vec!["données:0".into(), "日本語:1".into()];
    let mapped = MappedSentenceIds::decode(&encode_sentence_ids(&ids)).unwrap();

    assert_eq!(mapped.get(0), Some("données:0"));
    assert_eq!(mapped.get(1), Some("日本語:1"));
}

#[test]
fn sentence_ids_decode_rejects_short_input() {
    assert!(MappedSentenceIds::decode(&[0u8; 4]).is_err());
}

// ---- spacing ----

#[test]
fn roundtrip_spacing() {
    let mut bitmap = bitmap_new();
    bitmap_insert(&mut bitmap, 3);
    bitmap_insert(&mut bitmap, 10);
    bitmap_insert(&mut bitmap, 42);

    let mapped = SpacingIndex::decode(&encode_spacing(&bitmap)).unwrap();

    assert!(mapped.has_no_space_after(3));
    assert!(mapped.has_no_space_after(10));
    assert!(mapped.has_no_space_after(42));
    assert!(!mapped.has_no_space_after(0));
    assert!(!mapped.has_no_space_after(4));
    assert_eq!(mapped.len(), 3);
}

#[test]
fn roundtrip_empty_spacing() {
    let bitmap = bitmap_new();
    let mapped = SpacingIndex::decode(&encode_spacing(&bitmap)).unwrap();

    assert!(mapped.is_empty());
    assert!(!mapped.has_no_space_after(0));
}

#[test]
fn spacing_positions_are_cut_to_32_bits() {
    let mut bitmap = bitmap_new();
    bitmap_insert(&mut bitmap, 1);
    let mapped = SpacingIndex::decode(&encode_spacing(&bitmap)).unwrap();
    assert!(mapped.has_no_space_after(1 + (1u64 << 32)));
    assert!(!mapped.has_no_space_after(2 + (1u64 << 32)));
}

// ---- flat spans ----

fn build_test_spans() -> InMemorySpans {
    let mut spans = InMemorySpans::new();
    spans.add_span("sentence", Span::new(0, 5));
    spans.add_span("sentence", Span::new(5, 12));
    spans.add_span("sentence", Span::new(12, 20));
    spans.add_span("document", Span::new(0, 12));
    spans.add_span("document", Span::new(12, 20));
    spans.finalize();
    spans
}

fn mapped_of(spans: &InMemorySpans) -> MappedSpans {
    MappedSpans::decode(&encode_flat_spans(spans).unwrap()).unwrap()
}

#[test]
fn roundtrip() {
    let original = build_test_spans();
    let mapped = mapped_of(&original);

    assert_eq!(original.spans("sentence").unwrap(), mapped.spans("sentence").unwrap());
    assert_eq!(original.spans("document").unwrap(), mapped.spans("document").unwrap());
    assert!(mapped.spans("nonexistent").is_none());
}

#[test]
fn mapped_containing() {
    let mapped = mapped_of(&build_test_spans());

    assert_eq!(mapped.containing("sentence", 0), Some(&Span::new(0, 5)));
    assert_eq!(mapped.containing("sentence", 4), Some(&Span::new(0, 5)));
    assert_eq!(mapped.containing("sentence", 5), Some(&Span::new(5, 12)));
    assert_eq!(mapped.containing("sentence", 15), Some(&Span::new(12, 20)));
    assert_eq!(mapped.containing("sentence", 20), None);
    assert_eq!(mapped.containing_with_index("document", 13), Some((1, &Span::new(12, 20))));
}

#[test]
fn mapped_layers() {
    let mapped = mapped_of(&build_test_spans());

    let mut layers = mapped.layers();
    layers.sort();
    assert_eq!(layers, vec!["document", "sentence"]);
}

#[test]
fn empty_spans() {
    let mapped = mapped_of(&InMemorySpans::new());

    assert!(mapped.layers().is_empty());
    assert!(mapped.spans("sentence").is_none());
}

#[test]
fn flat_spans_layers_written_in_name_order() {
    let mapped = mapped_of(&build_test_spans());
    assert_eq!(mapped.layers(), vec!["document", "sentence"]);
}

#[test]
fn flat_spans_decode_rejects_truncated_file() {
    let bytes = encode_flat_spans(&build_test_spans()).unwrap();
    match MappedSpans::decode(&bytes[..bytes.len() - 8]) {
        Err(IndexError::Format(_)) => {}
        Err(other) => panic!("unexpected error {:?}", other),
        Ok(_) => panic!("a truncated file was accepted"),
    }
}

// ---- empty nodes ----

fn node(sentence_index: u32, node_id: &str, form: &str) -> EmptyNode {
    EmptyNode {
        sentence_index,
        node_id: node_id.to_string(),
        form: form.to_string(),
        lemma: None,
        upos: None,
        xpos: None,
        feats: None,
        deps: None,
        misc: None,
    }
}

#[test]
fn roundtrip_empty_nodes() {
    let mut apple = node(2, "6.1", "apple");
    apple.lemma = Some("apple".into());
    apple.upos = Some("NOUN".into());
    apple.feats = Some("Number=Sing".into());
    apple.deps = Some("2:obj".into());
    let store = EmptyNodeStore::new(vec![apple, node(5, "3.1", "be")]);

    assert_eq!(store.len(), 2);
    assert_eq!(store.nodes()[0].form, "apple");
    assert_eq!(store.nodes()[1].sentence_index, 5);
}

#[test]
fn per_sentence_lookup() {
    let store = EmptyNodeStore::new(vec![node(2, "4.1", "a"), node(2, "4.2", "b"), node(7, "1.1", "c")]);

    let s2 = store.in_sentence(2);
    assert_eq!(s2.len(), 2);
    assert_eq!(s2[0].form, "a");
    assert_eq!(s2[1].form, "b");

    let s7 = store.in_sentence(7);
    assert_eq!(s7.len(), 1);

    let s0 = store.in_sentence(0);
    assert_eq!(s0.len(), 0);
    assert!(!store.is_empty());
}

#[test]
fn forward_file_reads_back_header_and_directory() {
    let mut index = InMemoryForward::new();
    let word = index.add_layer("word");
    let head = index.add_layer("head");
    index.set(word, 0, Value::from_text("the"));
    index.set(word, 1, Value::from_text("cat"));
    index.set(word, 2, Value::from_text("the"));
    index.set(head, 0, Value::Int(2));
    index.set(head, 1, Value::Int(0));
    index.set(head, 2, Value::Int(2));
    let bytes = encode_flat_forward(&index).unwrap();
    assert_eq!(read_header(&bytes), Some((1, 2)));
    let w = read_dir_entry(&bytes, 0).unwrap();
    assert_eq!(w.encoding, ENCODING_DICT);
    assert_eq!(w.name_len, 4);
    assert_eq!(w.vocab_count, 2);
    assert_eq!(w.data_count, 3);
    let h = read_dir_entry(&bytes, 1).unwrap();
    assert_eq!(h.encoding, ENCODING_DENSE_NUMERIC);
    assert_eq!(h.data_count, 3);
    assert!(read_dir_entry(&bytes[..16 + 64], 1).is_none());
    // Names after the directory, values eight-byte aligned.
    let pool = 16 + 64 * 2;
    let name = &bytes[pool + w.name_offset as usize..pool + w.name_offset as usize + w.name_len as usize];
    assert_eq!(name, b"word");
    assert_eq!(w.data_offset % 8, 0);
    assert_eq!(h.data_offset % 8, 0);
    // The term table: offsets, then term bytes; terms sorted.
    let tt = w.vocab_offset as usize;
    let off = |k: usize| u32::from_le_bytes(bytes[tt + 4 * k..tt + 4 * k + 4].try_into().unwrap()) as usize;
    let base = tt + 4 * (w.vocab_count as usize + 1);
    let term = |k: usize| std::str::from_utf8(&bytes[base + off(k)..base + off(k + 1)]).unwrap().to_string();
    assert_eq!((term(0), term(1)), ("cat".to_string(), "the".to_string()));
    // Ids, one byte each, name the terms of the positions in order.
    assert_eq!(w.id_width, 1);
    let ids = &bytes[w.data_offset as usize..w.data_offset as usize + 3];
    assert_eq!(ids, &[1, 0, 1]);
}

use montre::lexicon::InMemoryLexicon;
use montre::span::{span_containing, Span};
use montre::spans::{sort_spans_by_start, InMemorySpans};

#[test]
fn lexicon_roundtrip() {
    let mut lex = InMemoryLexicon::new();

    let id_the = lex.add_term("word", "the");
    let id_cat = lex.add_term("word", "cat");
    let id_the2 = lex.add_term("word", "the");

    assert_eq!(id_the, id_the2);
    assert_ne!(id_the, id_cat);

    assert_eq!(lex.id_to_term("word", id_the), Some("the"));
    assert_eq!(lex.id_to_term("word", id_cat), Some("cat"));
    assert_eq!(lex.term_to_id("word", "the"), Some(id_the));
}

#[test]
fn lexicon_ids_are_dense_per_layer() {
    let mut lex = InMemoryLexicon::new();
    assert_eq!(lex.add_term("word", "a"), 0);
    assert_eq!(lex.add_term("word", "b"), 1);
    assert_eq!(lex.add_term("lemma", "b"), 0);
    assert_eq!(lex.term_count("word"), 2);
    assert_eq!(lex.term_count("lemma"), 1);
    assert_eq!(lex.term_count("upos"), 0);
    assert_eq!(lex.term_to_id("upos", "a"), None);
    assert_eq!(lex.id_to_term("word", 2), None);
}

#[test]
fn lexicon_merge_adds_missing_terms() {
    let mut a = InMemoryLexicon::new();
    a.add_term("word", "x");
    let mut b = InMemoryLexicon::new();
    b.add_term("word", "y");
    b.add_term("word", "x");
    b.add_term("lemma", "z");
    a.merge_from(b);
    assert_eq!(a.term_to_id("word", "x"), Some(0));
    assert_eq!(a.term_to_id("word", "y"), Some(1));
    assert_eq!(a.term_to_id("lemma", "z"), Some(0));
    assert_eq!(a.term_count("word"), 2);
}

#[test]
fn find_containing_span() {
    let mut index = InMemorySpans::new();
    index.add_span("sentence", Span::new(0, 5));
    index.add_span("sentence", Span::new(5, 12));
    index.add_span("sentence", Span::new(12, 20));
    index.finalize();

    assert_eq!(index.containing("sentence", 0), Some(&Span::new(0, 5)));
    assert_eq!(index.containing("sentence", 4), Some(&Span::new(0, 5)));
    assert_eq!(index.containing("sentence", 5), Some(&Span::new(5, 12)));
    assert_eq!(index.containing("sentence", 15), Some(&Span::new(12, 20)));
}

#[test]
fn containing_position_beyond_all_spans() {
    let mut index = InMemorySpans::new();
    index.add_span("sentence", Span::new(0, 5));
    index.finalize();
    assert_eq!(index.containing("sentence", 100), None);
}

#[test]
fn containing_missing_layer() {
    let index = InMemorySpans::new();
    assert_eq!(index.containing("nonexistent", 0), None);
}

#[test]
fn spans_returns_sorted() {
    let mut index = InMemorySpans::new();
    index.add_span("sentence", Span::new(10, 20));
    index.add_span("sentence", Span::new(0, 10));
    index.add_span("sentence", Span::new(20, 30));
    index.finalize();

    let spans = index.spans("sentence").unwrap();
    assert_eq!(spans[0], Span::new(0, 10));
    assert_eq!(spans[1], Span::new(10, 20));
    assert_eq!(spans[2], Span::new(20, 30));
}

#[test]
fn multiple_layers() {
    let mut index = InMemorySpans::new();
    index.add_span("sentence", Span::new(0, 5));
    index.add_span("document", Span::new(0, 20));
    index.finalize();

    assert!(index.spans("sentence").is_some());
    assert!(index.spans("document").is_some());
    assert!(index.spans("paragraph").is_none());

    let mut layers = index.layers();
    layers.sort();
    assert_eq!(layers, vec!["document", "sentence"]);
}

#[test]
fn containing_at_boundary() {
    let mut index = InMemorySpans::new();
    index.add_span("s", Span::new(0, 10));
    index.add_span("s", Span::new(10, 20));
    index.finalize();

    assert_eq!(index.containing("s", 9), Some(&Span::new(0, 10)));
    assert_eq!(index.containing("s", 10), Some(&Span::new(10, 20)));
}

#[test]
fn single_span() {
    let mut index = InMemorySpans::new();
    index.add_span("document", Span::new(0, 100));
    index.finalize();

    assert_eq!(index.containing("document", 0), Some(&Span::new(0, 100)));
    assert_eq!(index.containing("document", 50), Some(&Span::new(0, 100)));
    assert_eq!(index.containing("document", 99), Some(&Span::new(0, 100)));
    assert_eq!(index.containing("document", 100), None);
}

#[test]
fn containing_with_index_returns_correct_position() {
    let mut index = InMemorySpans::new();
    index.add_span("sentence", Span::new(0, 5));
    index.add_span("sentence", Span::new(5, 12));
    index.add_span("sentence", Span::new(12, 20));
    index.finalize();

    let spans = index.spans("sentence").unwrap();

    let (idx, span) = index.containing_with_index("sentence", 0).unwrap();
    assert_eq!(idx, 0);
    assert_eq!(span, &spans[0]);

    let (idx, span) = index.containing_with_index("sentence", 7).unwrap();
    assert_eq!(idx, 1);
    assert_eq!(span, &spans[1]);

    let (idx, span) = index.containing_with_index("sentence", 15).unwrap();
    assert_eq!(idx, 2);
    assert_eq!(span, &spans[2]);

    assert_eq!(index.containing_with_index("sentence", 100), None);
    assert_eq!(index.containing_with_index("nonexistent", 0), None);
}

#[test]
fn span_contains() {
    let span = Span::new(10, 20);
    assert!(span.contains(10));
    assert!(span.contains(15));
    assert!(!span.contains(20));
    assert!(!span.contains(5));
}

#[test]
fn span_overlaps() {
    let a = Span::new(10, 20);
    let b = Span::new(15, 25);
    let c = Span::new(20, 30);
    let d = Span::new(5, 15);

    assert!(a.overlaps(&b));
    assert!(!a.overlaps(&c));
    assert!(a.overlaps(&d));
}

#[test]
fn span_len_and_empty() {
    assert_eq!(Span::new(3, 8).len(), 5);
    assert!(Span::new(4, 4).is_empty());
    assert!(!Span::new(4, 5).is_empty());
    assert!(Span::new(0, 10).contains_span(&Span::new(2, 10)));
    assert!(!Span::new(0, 10).contains_span(&Span::new(2, 11)));
}

#[test]
fn span_containing_on_slices() {
    let spans = [Span::new(0, 3), Span::new(3, 3), Span::new(5, 9)];
    assert_eq!(span_containing(&spans, 0), Some(0));
    assert_eq!(span_containing(&spans, 2), Some(0));
    assert_eq!(span_containing(&spans, 4), None);
    assert_eq!(span_containing(&spans, 8), Some(2));
    assert_eq!(span_containing(&spans, 9), None);
    assert_eq!(span_containing(&[], 0), None);
}

#[test]
fn merge_from_shifts_other_spans() {
    let mut a = InMemorySpans::new();
    a.add_span("sentence", Span::new(0, 4));
    let mut b = InMemorySpans::new();
    b.add_span("sentence", Span::new(0, 2));
    b.add_span("doc", Span::new(0, 2));
    a.merge_from(b, 4);
    assert_eq!(a.spans("sentence").unwrap(), &[Span::new(0, 4), Span::new(4, 6)]);
    assert_eq!(a.spans("doc").unwrap(), &[Span::new(4, 6)]);
}

#[test]
fn sort_by_start_keeps_equal_starts_in_order() {
    let src = vec![Span::new(5, 7), Span::new(0, 3), Span::new(5, 6), Span::new(2, 4), Span::new(5, 9)];
    let sorted = sort_spans_by_start(&src);
    assert_eq!(
        sorted,
        vec![Span::new(0, 3), Span::new(2, 4), Span::new(5, 7), Span::new(5, 6), Span::new(5, 9)]
    );
}

#[test]
fn merge_keeps_layer_order_then_adds_new_layers() {
    let mut a = InMemorySpans::new();
    a.add_span("sentence", Span::new(0, 3));
    a.add_span("paragraph", Span::new(0, 3));
    let mut b = InMemorySpans::new();
    b.add_span("quote", Span::new(1, 2));
    b.add_span("sentence", Span::new(0, 2));
    a.merge_from(b, 3);
    assert_eq!(a.layers(), vec!["sentence", "paragraph", "quote"]);
    assert_eq!(a.spans("sentence").unwrap(), &[Span::new(0, 3), Span::new(3, 5)]);
    assert_eq!(a.spans("quote").unwrap(), &[Span::new(4, 5)]);
}

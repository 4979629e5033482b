use montre::bitmap::{bitmap_insert, bitmap_new};
use montre::builder::CorpusBuilder;
use montre::cli::{
    build_full_query, build_position_mask, component_name_for_document, component_rows, docs_listing,
    document_collision_warnings, path_file_stem, resolve_cli_layer_name, resolve_document_name, vocab_values,
};
use montre::formats::spacing::{encode_spacing, SpacingIndex};
use montre::conllu::ConllUReader;
use montre::corpus::{AlignmentIndex, AlignmentMeta, ComponentMeta, Corpus, CorpusParts};
use montre::formats::sentence_ids::{encode_sentence_ids, MappedSentenceIds};
use montre::formats::spans_flat::{encode_flat_spans, MappedSpans};
use montre::handlers::alignment::{handle_alignment_list, handle_alignment_project};
use montre::handlers::corpus::{handle_corpus_documents, handle_corpus_info, handle_corpus_layer_info};
use montre::handlers::query::{
    handle_query_delete_named, handle_query_discard, handle_query_hits, handle_query_list_named,
    handle_query_materialize, handle_query_metadata, handle_query_save,
};
use montre::handlers::text::{
    handle_text_annotations, handle_text_annotations_range, handle_text_document, handle_text_sentence,
    handle_text_sentences, handle_text_surface,
};
use montre::protocol::error_codes;
use montre::protocol::{
    AlignmentProjectParams, AlignmentSource, AnchorKind, AnnotationValue, CorpusDocumentsParams,
    CorpusLayerInfoParams, Hit, Interest, InterestKind, LayerKind, ProcessKind, RegisterParams, PROTOCOL_VERSION, ProtocolError, QueryDeleteNamedParams,
    QueryDiscardParams, QueryHitsParams, QueryMaterializeParams, QueryMetadataParams, QuerySaveParams,
    ResultForm, TextAnnotationsParams, TextAnnotationsRangeParams, TextDocumentParams, TextSentenceParams,
    TextSentencesParams, TextSurfaceParams,
};
use montre::span::Span;
use montre::state::interest::transform_interest;
use montre::state::{Notification, ResultEntry, State};

const EN: &str = "# sent_id = en-1
1\tThe\tthe\tDET\tDT\t_\t2\tdet\t_\t_
2\thouse\thouse\tNOUN\tNN\t_\t4\tnsubj\t_\t_
3\tis\tbe\tAUX\tVBZ\t_\t4\tcop\t_\t_
4\tred\tred\tADJ\tJJ\t_\t0\troot\t_\tSpaceAfter=No
5\t.\t.\tPUNCT\t.\t_\t4\tpunct\t_\t_

# sent_id = en-2
1\tIt\tit\tPRON\tPRP\t_\t3\tnsubj\t_\t_
2\tis\tbe\tAUX\tVBZ\t_\t3\tcop\t_\t_
3\tbig\tbig\tADJ\tJJ\t_\t0\troot\t_\tSpaceAfter=No
4\t.\t.\tPUNCT\t.\t_\t3\tpunct\t_\t_
";

const FR: &str = "# sent_id = fr-1
1\tLa\tle\tDET\t_\t_\t2\tdet\t_\t_
2\tmaison\tmaison\tNOUN\t_\t_\t4\tnsubj\t_\t_
3\test\têtre\tAUX\t_\t_\t4\tcop\t_\t_
4\trouge\trouge\tADJ\t_\t_\t0\troot\t_\tSpaceAfter=No
5\t.\t.\tPUNCT\t_\t_\t4\tpunct\t_\t_

# sent_id = fr-2
1\tElle\telle\tPRON\t_\t_\t3\tnsubj\t_\t_
2\test\têtre\tAUX\t_\t_\t3\tcop\t_\t_
3\tgrande\tgrand\tADJ\t_\t_\t0\troot\t_\tSpaceAfter=No
4\t.\t.\tPUNCT\t_\t_\t3\tpunct\t_\t_
";

fn make_corpus() -> Corpus {
    make_corpus_named("en/the_house.conllu", "fr/la_maison.conllu")
}

fn make_corpus_named(en_name: &str, fr_name: &str) -> Corpus {
    let mut builder = CorpusBuilder::new("parallel".to_string());
    let en = ConllUReader::new(EN).read_sentences().unwrap();
    builder.add_document(en_name.to_string(), en);
    let fr = ConllUReader::new(FR).read_sentences().unwrap();
    builder.add_document(fr_name.to_string(), fr);
    let (mut meta, sink) = builder.finish();
    meta.components = vec![
        ComponentMeta { id: 0, name: "en".to_string(), language: "en".to_string(), document_range: (0, 1) },
        ComponentMeta { id: 1, name: "fr".to_string(), language: "fr".to_string(), document_range: (1, 2) },
    ];
    meta.alignments = vec![AlignmentMeta {
        name: "labse".to_string(),
        source_component: "en".to_string(),
        target_component: "fr".to_string(),
        source_layer: "sentence".to_string(),
        target_layer: "sentence".to_string(),
        directed: true,
        edge_count: 2,
    }];
    let index = sink.into_index();
    let mut alignments = AlignmentIndex::new();
    alignments.add("labse", vec![((0, 0), (0, 0)), ((0, 1), (0, 1))]);
    let spans = MappedSpans::decode(&encode_flat_spans(&index.spans).unwrap()).unwrap();
    let ids = MappedSentenceIds::decode(&encode_sentence_ids(&index.sentence_ids)).unwrap();
    let mut no_space = bitmap_new();
    for p in [3, 7, 12, 16] {
        bitmap_insert(&mut no_space, p);
    }
    let spacing = SpacingIndex::decode(&encode_spacing(&no_space)).unwrap();
    let parts = CorpusParts {
        path: "/corpora/parallel".to_string(),
        meta,
        inverted: index.inverted,
        forward: index.forward.unwrap(),
        spans,
        lexicon: index.lexicon,
        alignments,
        sentence_ids: Some(ids),
        mwts: None,
        spacing: Some(spacing),
        empty_nodes: None,
    };
    match Corpus::from_parts(parts) {
        Ok(c) => c,
        Err(e) => panic!("corpus assembly failed: {:?}", e),
    }
}

fn find_doc(corpus: &Corpus, needle: &str) -> u32 {
    corpus.document_names().iter().position(|n| n.contains(needle)).map(|i| i as u32).unwrap()
}

fn err<T>(r: Result<T, ProtocolError>) -> ProtocolError {
    match r {
        Ok(_) => panic!("expected an error"),
        Err(e) => e,
    }
}

fn ok<T>(r: Result<T, ProtocolError>) -> T {
    match r {
        Ok(v) => v,
        Err(e) => panic!("unexpected error {} {}", e.code, e.message),
    }
}

fn text(v: &AnnotationValue) -> &str {
    match v {
        AnnotationValue::String(s) => s.as_str(),
        AnnotationValue::Int(_) => panic!("expected a string value"),
    }
}

#[test]
fn fixture_has_expected_shape() {
    let c = make_corpus();
    assert_eq!(c.token_count(), 18);
    assert_eq!(c.document_names().len(), 2);
    assert_eq!(c.document_span(0), Some(Span::new(0, 9)));
    assert_eq!(c.document_span(1), Some(Span::new(9, 18)));
    assert_eq!(c.sentence_span(2), Some(Span::new(9, 14)));
    assert_eq!(c.sentence_id(3), Some("fr-2"));
    assert_eq!(c.document_at(10), Some("fr/la_maison.conllu"));
    assert_eq!(c.document_at(18), None);
    assert!(c.is_multi_component());
}

// ---- corpus ----

#[test]
fn corpus_info_returns_expected_shape() {
    let c = make_corpus();
    let info = handle_corpus_info(&c, "/canonical/parallel", "test-corpus-id");
    assert_eq!(info.name, "parallel");
    assert_eq!(info.canonical_path, "/canonical/parallel");
    assert_eq!(info.stable_key, "test-corpus-id");
    assert_eq!(info.components, vec!["en".to_string(), "fr".to_string()]);
    assert!(info.layers.iter().any(|l| l == "word"));
    assert!(info.layers.iter().any(|l| l == "head"));
    assert_eq!(info.alignments, vec!["labse".to_string()]);
}

#[test]
fn corpus_documents_returns_all_without_filter() {
    let c = make_corpus();
    let rep = ok(handle_corpus_documents(&c, &CorpusDocumentsParams { component: None }));
    assert_eq!(rep.documents.len(), 2);
    assert_eq!(rep.documents[0].index, 0);
    assert_eq!(rep.documents[0].name, "en/the_house.conllu");
    assert_eq!(rep.documents[0].component, "en");
    assert_eq!(rep.documents[0].sentence_count, 2);
    assert_eq!(rep.documents[1].component, "fr");
}

#[test]
fn corpus_documents_filters_by_component() {
    let c = make_corpus();
    let rep = ok(handle_corpus_documents(&c, &CorpusDocumentsParams { component: Some("fr".to_string()) }));
    assert_eq!(rep.documents.len(), 1);
    assert_eq!(rep.documents[0].index, 1);
    assert_eq!(rep.documents[0].name, "fr/la_maison.conllu");
}

#[test]
fn corpus_documents_unknown_component_rejected() {
    let c = make_corpus();
    let e = err(handle_corpus_documents(&c, &CorpusDocumentsParams { component: Some("de".to_string()) }));
    assert_eq!(e.code, error_codes::INVALID_PARAMS);
}

#[test]
fn corpus_layer_info_indexed_string_layer() {
    let c = make_corpus();
    let info = ok(handle_corpus_layer_info(&c, &CorpusLayerInfoParams { layer: "upos".to_string() }));
    assert_eq!(info.name, "upos");
    assert_eq!(info.kind, LayerKind::String);
    // DET NOUN AUX ADJ PUNCT PRON
    assert_eq!(info.value_count, 6);
}

#[test]
fn corpus_layer_info_head_classified_as_int() {
    let c = make_corpus();
    let info = ok(handle_corpus_layer_info(&c, &CorpusLayerInfoParams { layer: "head".to_string() }));
    assert_eq!(info.kind, LayerKind::Int);
}

#[test]
fn corpus_layer_info_unknown_layer_rejected() {
    let c = make_corpus();
    let e = err(handle_corpus_layer_info(&c, &CorpusLayerInfoParams { layer: "nonexistent".to_string() }));
    assert_eq!(e.code, error_codes::INVALID_PARAMS);
}

// ---- text ----

#[test]
fn text_surface_returns_text_for_range() {
    let c = make_corpus();
    let rep = ok(handle_text_surface(&c, &TextSurfaceParams { start: 0, end: 5 }));
    assert_eq!(rep.surface, "The house is red.");
}

#[test]
fn text_surface_rejects_inverted_range() {
    let c = make_corpus();
    let e = err(handle_text_surface(&c, &TextSurfaceParams { start: 5, end: 2 }));
    assert_eq!(e.code, error_codes::INVALID_PARAMS);
    assert_eq!(e.message, "start must be <= end");
}

#[test]
fn text_surface_clamps_end_past_token_count() {
    let c = make_corpus();
    let rep = ok(handle_text_surface(&c, &TextSurfaceParams { start: 14, end: 1000 }));
    assert_eq!(rep.surface, "Elle est grande.");
}

#[test]
fn text_surface_empty_range_returns_empty_surface() {
    let c = make_corpus();
    let rep = ok(handle_text_surface(&c, &TextSurfaceParams { start: 3, end: 3 }));
    assert_eq!(rep.surface, "");
}

#[test]
fn text_surface_start_past_token_count_clamps_to_empty() {
    let c = make_corpus();
    let rep = ok(handle_text_surface(&c, &TextSurfaceParams { start: 500, end: 600 }));
    assert_eq!(rep.surface, "");
}

#[test]
fn text_sentence_returns_sentence_data() {
    let c = make_corpus();
    let doc = find_doc(&c, "la_maison");
    let rep = ok(handle_text_sentence(&c, &TextSentenceParams { doc, sent: 1 }));
    assert_eq!(rep.span, Span::new(14, 18));
    assert_eq!(rep.surface, "Elle est grande.");
    assert_eq!(rep.sentence_id, "fr-2");
}

#[test]
fn text_sentence_out_of_range_rejected() {
    let c = make_corpus();
    let e = err(handle_text_sentence(&c, &TextSentenceParams { doc: 0, sent: 9 }));
    assert_eq!(e.code, error_codes::INVALID_PARAMS);
    assert_eq!(e.message, "sentence 9 not found in document 0");
}

#[test]
fn text_sentences_returns_range() {
    let c = make_corpus();
    let rep = ok(handle_text_sentences(&c, &TextSentencesParams { doc: 0, sent_start: 0, sent_end: 2 }));
    assert_eq!(rep.sentences.len(), 2);
    assert_eq!(rep.sentences[0].sent, 0);
    assert_eq!(rep.sentences[0].surface, "The house is red.");
    assert_eq!(rep.sentences[0].sentence_id, "en-1");
    assert_eq!(rep.sentences[1].span, Span::new(5, 9));
}

#[test]
fn text_sentences_clamps_sent_end_to_doc_count() {
    let c = make_corpus();
    let rep = ok(handle_text_sentences(&c, &TextSentencesParams { doc: 1, sent_start: 1, sent_end: 40 }));
    assert_eq!(rep.sentences.len(), 1);
    assert_eq!(rep.sentences[0].sent, 1);
    assert_eq!(rep.sentences[0].sentence_id, "fr-2");
}

#[test]
fn text_sentences_empty_range_after_clamp_returns_empty() {
    let c = make_corpus();
    let rep = ok(handle_text_sentences(&c, &TextSentencesParams { doc: 1, sent_start: 5, sent_end: 9 }));
    assert!(rep.sentences.is_empty());
}

#[test]
fn text_sentences_nonexistent_doc_rejected() {
    let c = make_corpus();
    let e = err(handle_text_sentences(&c, &TextSentencesParams { doc: 7, sent_start: 0, sent_end: 1 }));
    assert_eq!(e.code, error_codes::INVALID_PARAMS);
}

#[test]
fn text_sentences_inverted_range_rejected() {
    let c = make_corpus();
    let e = err(handle_text_sentences(&c, &TextSentencesParams { doc: 0, sent_start: 2, sent_end: 1 }));
    assert_eq!(e.code, error_codes::INVALID_PARAMS);
}

#[test]
fn text_document_returns_metadata() {
    let c = make_corpus();
    let rep = ok(handle_text_document(&c, &TextDocumentParams { doc: 1 }));
    assert_eq!(rep.index, 1);
    assert_eq!(rep.name, "fr/la_maison.conllu");
    assert_eq!(rep.component, "fr");
    assert_eq!(rep.span, Span::new(9, 18));
    assert_eq!(rep.sentence_count, 2);
}

#[test]
fn text_document_out_of_range_rejected() {
    let c = make_corpus();
    let e = err(handle_text_document(&c, &TextDocumentParams { doc: 2 }));
    assert_eq!(e.code, error_codes::INVALID_PARAMS);
}

#[test]
fn text_annotations_returns_values_at_positions() {
    let c = make_corpus();
    let rep = handle_text_annotations(
        &c,
        &TextAnnotationsParams { positions: vec![1, 10], layers: vec!["word".to_string(), "lemma".to_string()] },
    );
    assert_eq!(rep.values.len(), 4);
    assert_eq!(rep.values[0].position, 1);
    assert_eq!(rep.values[0].layer, "word");
    assert_eq!(text(&rep.values[0].value), "house");
    assert_eq!(text(&rep.values[1].value), "house");
    assert_eq!(rep.values[2].position, 10);
    assert_eq!(text(&rep.values[2].value), "maison");
}

#[test]
fn text_annotations_skips_missing_values() {
    let c = make_corpus();
    // the French tokens have no xpos
    let rep = handle_text_annotations(
        &c,
        &TextAnnotationsParams { positions: vec![0, 9], layers: vec!["xpos".to_string(), "nosuch".to_string()] },
    );
    assert_eq!(rep.values.len(), 1);
    assert_eq!(rep.values[0].position, 0);
    assert_eq!(text(&rep.values[0].value), "DT");
}

#[test]
fn text_annotations_range_with_explicit_layers() {
    let c = make_corpus();
    let rep = ok(handle_text_annotations_range(
        &c,
        &TextAnnotationsRangeParams { start: 5, end: 7, layers: Some(vec!["upos".to_string()]) },
    ));
    assert_eq!(rep.rows.len(), 2);
    assert_eq!(rep.rows[0].position, 5);
    assert_eq!(rep.rows[0].values.len(), 1);
    assert_eq!(rep.rows[0].values[0].0, "upos");
    assert_eq!(text(&rep.rows[0].values[0].1), "PRON");
    assert_eq!(text(&rep.rows[1].values[0].1), "AUX");
}

#[test]
fn text_annotations_range_with_default_layers() {
    let c = make_corpus();
    let rep = ok(handle_text_annotations_range(&c, &TextAnnotationsRangeParams { start: 0, end: 1, layers: None }));
    assert_eq!(rep.rows.len(), 1);
    let names: Vec<&str> = rep.rows[0].values.iter().map(|(n, _)| n.as_str()).collect();
    assert!(names.contains(&"word"));
    assert!(names.contains(&"deprel"));
}

#[test]
fn text_annotations_range_serializes_head_as_int() {
    let c = make_corpus();
    let rep = ok(handle_text_annotations_range(
        &c,
        &TextAnnotationsRangeParams { start: 3, end: 4, layers: Some(vec!["head".to_string()]) },
    ));
    match &rep.rows[0].values[0].1 {
        AnnotationValue::Int(h) => assert_eq!(*h, 0),
        other => panic!("head should be an integer, got {:?}", other),
    }
}

#[test]
fn text_annotations_range_rejects_inverted_range() {
    let c = make_corpus();
    let e = err(handle_text_annotations_range(&c, &TextAnnotationsRangeParams { start: 4, end: 3, layers: None }));
    assert_eq!(e.code, error_codes::INVALID_PARAMS);
}

#[test]
fn text_annotations_range_clamps_end_past_token_count() {
    let c = make_corpus();
    let rep = ok(handle_text_annotations_range(
        &c,
        &TextAnnotationsRangeParams { start: 16, end: 99, layers: Some(vec!["word".to_string()]) },
    ));
    assert_eq!(rep.rows.len(), 2);
    assert_eq!(rep.rows[1].position, 17);
    assert_eq!(text(&rep.rows[1].values[0].1), ".");
}

#[test]
fn text_annotations_range_empty_after_clamp_returns_no_rows() {
    let c = make_corpus();
    let rep = ok(handle_text_annotations_range(&c, &TextAnnotationsRangeParams { start: 40, end: 50, layers: None }));
    assert!(rep.rows.is_empty());
}

#[test]
fn text_annotations_empty_positions_returns_empty_values() {
    let c = make_corpus();
    let rep = handle_text_annotations(&c, &TextAnnotationsParams { positions: vec![], layers: vec!["word".to_string()] });
    assert!(rep.values.is_empty());
}

#[test]
fn text_annotations_out_of_range_position_omitted() {
    let c = make_corpus();
    let rep = handle_text_annotations(&c, &TextAnnotationsParams { positions: vec![100, 2], layers: vec!["word".to_string()] });
    assert_eq!(rep.values.len(), 1);
    assert_eq!(rep.values[0].position, 2);
    assert_eq!(text(&rep.values[0].value), "is");
}

// ---- alignment ----

#[test]
fn alignment_list_returns_known_alignments() {
    let c = make_corpus();
    let rep = handle_alignment_list(&c);
    assert_eq!(rep.alignments.len(), 1);
    let a = &rep.alignments[0];
    assert_eq!(a.name, "labse");
    assert_eq!(a.source_component, "en");
    assert_eq!(a.target_component, "fr");
    assert_eq!(a.edge_count, 2);
}

#[test]
fn alignment_project_returns_target_for_known_pair() {
    let c = make_corpus();
    let rep = ok(handle_alignment_project(
        &c,
        &AlignmentProjectParams { source: AlignmentSource { doc: 0, start: 5, end: 9 }, alignment_name: "labse".to_string() },
    ));
    assert_eq!(rep.targets.len(), 1);
    assert_eq!(rep.targets[0].doc, 1);
    assert_eq!(rep.targets[0].start, 14);
    assert_eq!(rep.targets[0].end, 18);
}

#[test]
fn alignment_project_spanning_two_sentences_gives_both_targets() {
    let c = make_corpus();
    let rep = ok(handle_alignment_project(
        &c,
        &AlignmentProjectParams { source: AlignmentSource { doc: 0, start: 3, end: 7 }, alignment_name: "labse".to_string() },
    ));
    assert_eq!(rep.targets.len(), 2);
    assert_eq!((rep.targets[0].start, rep.targets[0].end), (9, 14));
    assert_eq!((rep.targets[1].start, rep.targets[1].end), (14, 18));
}

#[test]
fn alignment_project_unknown_alignment_rejected() {
    let c = make_corpus();
    let e = err(handle_alignment_project(
        &c,
        &AlignmentProjectParams { source: AlignmentSource { doc: 0, start: 0, end: 1 }, alignment_name: "nope".to_string() },
    ));
    assert_eq!(e.code, error_codes::ALIGNMENT_NOT_FOUND);
}

#[test]
fn alignment_project_source_outside_alignment_rejected() {
    let c = make_corpus();
    let e = err(handle_alignment_project(
        &c,
        &AlignmentProjectParams { source: AlignmentSource { doc: 1, start: 9, end: 10 }, alignment_name: "labse".to_string() },
    ));
    assert_eq!(e.code, error_codes::SPAN_OUTSIDE_ALIGNMENT);
}

// ---- interest transforms ----

fn hit(start: u32, end: u32, doc: u32, sent: u32) -> Hit {
    Hit { span: Span::new(start as u64, end as u64), document_index: doc, sentence_index: sent, captures: None }
}

#[test]
fn transform_sentence_mirror_passes_sentence_through() {
    let c = make_corpus();
    let doc = find_doc(&c, "la_maison");
    let out = transform_interest(&c, &vec![], &Interest::Sentence { doc, sent: 0 }, &AnchorKind::SentenceMirror);
    assert_eq!(out.len(), 1);
    match &out[0] {
        Interest::Sentence { doc: d, sent: s } => {
            assert_eq!(*d, doc);
            assert_eq!(*s, 0);
        }
        other => panic!("unexpected {:?}", other),
    }
}

#[test]
fn transform_sentence_mirror_widens_position_to_containing_sentence() {
    let c = make_corpus();
    let out = transform_interest(&c, &vec![], &Interest::Position { doc: 1, position: 15 }, &AnchorKind::SentenceMirror);
    assert_eq!(out.len(), 1);
    assert!(matches!(out[0], Interest::Sentence { doc: 1, sent: 1 }));
}

#[test]
fn transform_sentence_mirror_widens_span_to_sentence_containing_start() {
    let c = make_corpus();
    let out = transform_interest(&c, &vec![], &Interest::Span { doc: 0, start: 6, end: 12 }, &AnchorKind::SentenceMirror);
    assert_eq!(out.len(), 1);
    assert!(matches!(out[0], Interest::Sentence { doc: 0, sent: 1 }));
}

#[test]
fn transform_sentence_mirror_position_outside_any_sentence_returns_empty() {
    let c = make_corpus();
    let out = transform_interest(&c, &vec![], &Interest::Position { doc: 0, position: 500 }, &AnchorKind::SentenceMirror);
    assert!(out.is_empty());
    // a position of another document than the one named
    let out = transform_interest(&c, &vec![], &Interest::Position { doc: 0, position: 12 }, &AnchorKind::SentenceMirror);
    assert!(out.is_empty());
}

#[test]
fn transform_sentence_mirror_defensively_rejects_hit_input() {
    let c = make_corpus();
    let out = transform_interest(
        &c,
        &vec![],
        &Interest::Hit { result: "r-x".to_string(), hit_idx: 0 },
        &AnchorKind::SentenceMirror,
    );
    assert!(out.is_empty());
}

#[test]
fn transform_alignment_projects_sentence_to_target_doc() {
    let c = make_corpus();
    let kind = AnchorKind::Alignment { name: "labse".to_string() };
    let out = transform_interest(&c, &vec![], &Interest::Sentence { doc: 0, sent: 0 }, &kind);
    assert_eq!(out.len(), 1);
    assert!(matches!(out[0], Interest::Span { doc: 1, start: 9, end: 14 }));
}

#[test]
fn transform_alignment_projects_span_to_target_doc() {
    let c = make_corpus();
    let kind = AnchorKind::Alignment { name: "labse".to_string() };
    let out = transform_interest(&c, &vec![], &Interest::Span { doc: 0, start: 6, end: 8 }, &kind);
    assert_eq!(out.len(), 1);
    assert!(matches!(out[0], Interest::Span { doc: 1, start: 14, end: 18 }));
}

#[test]
fn transform_alignment_unknown_name_returns_empty() {
    let c = make_corpus();
    let kind = AnchorKind::Alignment { name: "missing".to_string() };
    let out = transform_interest(&c, &vec![], &Interest::Sentence { doc: 0, sent: 0 }, &kind);
    assert!(out.is_empty());
}

#[test]
fn transform_alignment_defensively_rejects_position_input() {
    let c = make_corpus();
    let kind = AnchorKind::Alignment { name: "labse".to_string() };
    let out = transform_interest(&c, &vec![], &Interest::Position { doc: 0, position: 1 }, &kind);
    assert!(out.is_empty());
}

fn result_with_hits(state: &mut State, hits: Vec<Hit>) -> ResultEntry {
    let meta = state.insert_result_with("[]".to_string(), vec![], "r-kwic".to_string(), "t0".to_string());
    ResultEntry { cql: "[]".to_string(), hits, metadata: meta }
}

#[test]
fn transform_kwic_projects_hit_to_span() {
    let c = make_corpus();
    let mut state = State::new(1, "id".to_string(), 0);
    let results = vec![result_with_hits(&mut state, vec![hit(1, 2, 0, 0), hit(10, 12, 1, 2)])];
    let out = transform_interest(
        &c,
        &results,
        &Interest::Hit { result: "r-kwic".to_string(), hit_idx: 1 },
        &AnchorKind::KwicSelection,
    );
    assert_eq!(out.len(), 1);
    assert!(matches!(out[0], Interest::Span { doc: 1, start: 10, end: 12 }));
}

#[test]
fn transform_kwic_unknown_result_returns_empty() {
    let c = make_corpus();
    let out = transform_interest(
        &c,
        &vec![],
        &Interest::Hit { result: "r-none".to_string(), hit_idx: 0 },
        &AnchorKind::KwicSelection,
    );
    assert!(out.is_empty());
}

#[test]
fn transform_kwic_hit_idx_out_of_range_returns_empty() {
    let c = make_corpus();
    let mut state = State::new(1, "id".to_string(), 0);
    let results = vec![result_with_hits(&mut state, vec![hit(1, 2, 0, 0)])];
    let out = transform_interest(
        &c,
        &results,
        &Interest::Hit { result: "r-kwic".to_string(), hit_idx: 1 },
        &AnchorKind::KwicSelection,
    );
    assert!(out.is_empty());
}

#[test]
fn transform_inert_kinds_return_empty() {
    let c = make_corpus();
    for kind in [AnchorKind::DocPickerSelection, AnchorKind::NamedResultsSelection, AnchorKind::ConlluView] {
        let out = transform_interest(&c, &vec![], &Interest::Document { doc: 0 }, &kind);
        assert!(out.is_empty());
        let out = transform_interest(&c, &vec![], &Interest::Sentence { doc: 0, sent: 0 }, &kind);
        assert!(out.is_empty());
    }
}

// ---- query ----

fn state_with_hits(n: u32) -> (State, String) {
    let mut state = State::new(1, "test-corpus-id".to_string(), 0);
    let hits: Vec<Hit> = (0..n).map(|i| hit(i, i + 1, 0, 0)).collect();
    let h = state.insert_result("[upos=\"NOUN\"]".to_string(), hits).handle;
    (state, h)
}

#[test]
fn query_hits_returns_all_hits_under_limit() {
    let (state, h) = state_with_hits(3);
    let rep = ok(handle_query_hits(&state, &QueryHitsParams { handle: h, offset: 0, limit: 10 }));
    assert_eq!(rep.hits.len(), 3);
    assert_eq!(rep.total_count, 3);
    assert_eq!(rep.offset, 0);
    assert_eq!(rep.limit, 10);
}

#[test]
fn query_hits_pagination_slices_correctly() {
    let (state, h) = state_with_hits(5);
    let rep = ok(handle_query_hits(&state, &QueryHitsParams { handle: h.clone(), offset: 1, limit: 2 }));
    assert_eq!(rep.hits.len(), 2);
    assert_eq!(rep.hits[0].span, Span::new(1, 2));
    assert_eq!(rep.hits[1].span, Span::new(2, 3));
    assert_eq!(rep.total_count, 5);
    let rep = ok(handle_query_hits(&state, &QueryHitsParams { handle: h, offset: 9, limit: 2 }));
    assert!(rep.hits.is_empty());
}

#[test]
fn query_hits_invalid_handle_rejected() {
    let (state, _) = state_with_hits(1);
    let e = err(handle_query_hits(&state, &QueryHitsParams { handle: "r-nope".to_string(), offset: 0, limit: 1 }));
    assert_eq!(e.code, error_codes::RESULT_HANDLE_INVALID);
}

#[test]
fn query_hits_limit_exceeded_rejected() {
    let (state, h) = state_with_hits(1);
    let e = err(handle_query_hits(&state, &QueryHitsParams { handle: h, offset: 0, limit: 1001 }));
    assert_eq!(e.code, error_codes::PAGE_LIMIT_EXCEEDED);
    assert_eq!(e.message, "limit 1001 exceeds maximum 1000");
}

#[test]
fn query_metadata_returns_metadata() {
    let (state, h) = state_with_hits(2);
    let m = ok(handle_query_metadata(&state, &QueryMetadataParams { handle: h.clone() }));
    assert_eq!(m.handle, h);
    assert_eq!(m.query, "[upos=\"NOUN\"]");
    assert_eq!(m.hit_count, 2);
    assert_eq!(m.corpus_id, "test-corpus-id");
    assert_eq!(m.form, ResultForm::Session);
    assert!(m.name.is_none());
}

#[test]
fn query_metadata_invalid_handle_rejected() {
    let (state, _) = state_with_hits(0);
    let e = err(handle_query_metadata(&state, &QueryMetadataParams { handle: "r-x".to_string() }));
    assert_eq!(e.code, error_codes::RESULT_HANDLE_INVALID);
}

#[test]
fn query_save_succeeds_and_returns_query_backed_form() {
    let (mut state, h) = state_with_hits(2);
    let (rep, _) = ok(handle_query_save(&mut state, QuerySaveParams { handle: h.clone(), name: "nouns".to_string() }));
    assert!(rep.ok);
    assert_eq!(rep.form, ResultForm::QueryBacked);
    let m = ok(handle_query_metadata(&state, &QueryMetadataParams { handle: h }));
    assert_eq!(m.name.as_deref(), Some("nouns"));
}

#[test]
fn query_save_duplicate_name_returns_1201() {
    let (mut state, h) = state_with_hits(2);
    let h2 = state.insert_result("x".to_string(), vec![]).handle;
    ok(handle_query_save(&mut state, QuerySaveParams { handle: h, name: "n".to_string() }));
    let e = err(handle_query_save(&mut state, QuerySaveParams { handle: h2, name: "n".to_string() }));
    assert_eq!(e.code, 1201);
}

#[test]
fn query_save_invalid_handle_returns_1200() {
    let (mut state, _) = state_with_hits(0);
    let e = err(handle_query_save(&mut state, QuerySaveParams { handle: "r-zz".to_string(), name: "n".to_string() }));
    assert_eq!(e.code, 1200);
}

#[test]
fn query_materialize_succeeds_and_populates_materialized_at() {
    let (mut state, h) = state_with_hits(4);
    ok(handle_query_save(&mut state, QuerySaveParams { handle: h, name: "n".to_string() }));
    let (rep, _) = ok(handle_query_materialize(&mut state, QueryMaterializeParams { name: "n".to_string() }));
    assert!(rep.ok);
    assert_eq!(rep.hit_count, 4);
    assert!(!rep.materialized_at.is_empty());
}

#[test]
fn query_materialize_unknown_name_returns_1202() {
    let (mut state, _) = state_with_hits(0);
    let e = err(handle_query_materialize(&mut state, QueryMaterializeParams { name: "n".to_string() }));
    assert_eq!(e.code, 1202);
}

#[test]
fn query_materialize_already_materialized_returns_1205() {
    let (mut state, h) = state_with_hits(1);
    ok(handle_query_save(&mut state, QuerySaveParams { handle: h, name: "n".to_string() }));
    ok(handle_query_materialize(&mut state, QueryMaterializeParams { name: "n".to_string() }));
    let e = err(handle_query_materialize(&mut state, QueryMaterializeParams { name: "n".to_string() }));
    assert_eq!(e.code, 1205);
}

#[test]
fn query_list_named_empty() {
    let (state, _) = state_with_hits(1);
    assert!(handle_query_list_named(&state).names.is_empty());
}

#[test]
fn query_list_named_includes_saved() {
    let (mut state, h) = state_with_hits(3);
    ok(handle_query_save(&mut state, QuerySaveParams { handle: h, name: "nouns".to_string() }));
    let rep = handle_query_list_named(&state);
    assert_eq!(rep.names.len(), 1);
    assert_eq!(rep.names[0].name, "nouns");
    assert_eq!(rep.names[0].hit_count, 3);
}

#[test]
fn query_delete_named_succeeds() {
    let (mut state, h) = state_with_hits(1);
    ok(handle_query_save(&mut state, QuerySaveParams { handle: h.clone(), name: "n".to_string() }));
    let (rep, _) = ok(handle_query_delete_named(&mut state, &QueryDeleteNamedParams { name: "n".to_string() }));
    assert!(rep.ok);
    assert!(handle_query_list_named(&state).names.is_empty());
    assert!(handle_query_metadata(&state, &QueryMetadataParams { handle: h }).is_err());
}

#[test]
fn query_delete_named_unknown_returns_1202() {
    let (mut state, _) = state_with_hits(1);
    let e = err(handle_query_delete_named(&mut state, &QueryDeleteNamedParams { name: "n".to_string() }));
    assert_eq!(e.code, 1202);
}

#[test]
fn query_discard_session_handle_removes_entry() {
    let (mut state, h) = state_with_hits(1);
    let rep = handle_query_discard(&mut state, &QueryDiscardParams { handle: h.clone() });
    assert!(rep.ok);
    assert!(handle_query_metadata(&state, &QueryMetadataParams { handle: h }).is_err());
}

#[test]
fn query_discard_named_handle_is_no_op() {
    let (mut state, h) = state_with_hits(1);
    ok(handle_query_save(&mut state, QuerySaveParams { handle: h.clone(), name: "n".to_string() }));
    let rep = handle_query_discard(&mut state, &QueryDiscardParams { handle: h.clone() });
    assert!(rep.ok);
    assert!(handle_query_metadata(&state, &QueryMetadataParams { handle: h }).is_ok());
}

// ---- command line ----

fn strings(v: &[&str]) -> Vec<String> {
    v.iter().map(|s| s.to_string()).collect()
}

#[test]
fn cli_layer_alias() {
    assert_eq!(resolve_cli_layer_name("pos"), "upos");
    assert_eq!(resolve_cli_layer_name("word"), "word");
}

#[test]
fn file_stems_follow_path_rules() {
    assert_eq!(path_file_stem("data/x/y.tar.gz").as_deref(), Some("y.tar"));
    assert_eq!(path_file_stem(".bashrc").as_deref(), Some(".bashrc"));
    assert_eq!(path_file_stem("dir/name/").as_deref(), Some("name"));
    assert_eq!(path_file_stem("plain").as_deref(), Some("plain"));
    assert_eq!(path_file_stem("a/..").as_deref(), None);
    assert_eq!(path_file_stem("/").as_deref(), None);
}

#[test]
fn resolve_document_name_exact_stem_missing_and_ambiguous() {
    let names = strings(&["en/a.conllu", "fr/a.conllu", "fr/b.conllu"]);
    assert_eq!(resolve_document_name("fr/b.conllu", &names).unwrap(), "fr/b.conllu");
    assert_eq!(resolve_document_name("b", &names).unwrap(), "fr/b.conllu");
    assert_eq!(
        resolve_document_name("zz", &names).unwrap_err(),
        "Document 'zz' not found. Use `montre docs` to list available documents."
    );
    assert_eq!(
        resolve_document_name("a", &names).unwrap_err(),
        "Document 'a' is ambiguous, matches: en/a.conllu, fr/a.conllu"
    );
}

#[test]
fn full_query_adds_component_and_document_restrictions() {
    let c = make_corpus();
    let q = build_full_query("[word=\"x\"]", &strings(&["en"]), &strings(&["the_house"]), &c).unwrap();
    assert_eq!(q, "[word=\"x\"] within component:\"en\" within doc:\"en/the_house.conllu\"");
    let q = build_full_query("[]", &[], &[], &c).unwrap();
    assert_eq!(q, "[]");
    let e = build_full_query("[]", &[], &strings(&["nope"]), &c).unwrap_err();
    assert!(e.starts_with("Document 'nope' not found"));
}

#[test]
fn collision_warnings_for_shared_names() {
    let c = make_corpus_named("a.conllu", "a.conllu");
    let w = document_collision_warnings(&strings(&["a.conllu"]), &c, true);
    assert_eq!(
        w,
        vec!["warning: document name 'a.conllu' matches 2 documents across components en, fr; use --component to disambiguate"
            .to_string()]
    );
    assert!(document_collision_warnings(&strings(&["a.conllu"]), &c, false).is_empty());
    let c = make_corpus();
    assert!(document_collision_warnings(&strings(&["en/the_house.conllu"]), &c, true).is_empty());
}

#[test]
fn vocab_lists_sorted_values_within_selection() {
    let c = make_corpus();
    let all = vocab_values(&c, "pos", &[], &[]).unwrap();
    assert_eq!(all, strings(&["ADJ", "AUX", "DET", "NOUN", "PRON", "PUNCT"]));
    let fr = vocab_values(&c, "word", &strings(&["fr"]), &[]).unwrap();
    assert_eq!(fr, strings(&[".", "Elle", "La", "est", "grande", "maison", "rouge"]));
    let house = vocab_values(&c, "lemma", &[], &strings(&["the_house"])).unwrap();
    assert_eq!(house, strings(&[".", "be", "big", "house", "it", "red", "the"]));
    let none = vocab_values(&c, "word", &strings(&["fr"]), &strings(&["the_house"])).unwrap();
    assert!(none.is_empty());
    assert_eq!(vocab_values(&c, "nope", &[], &[]).unwrap_err(), "Layer 'nope' not found");
    assert_eq!(vocab_values(&c, "word", &strings(&["de"]), &[]).unwrap_err(), "Component 'de' not found");
}

#[test]
fn position_mask_covers_selected_documents() {
    let c = make_corpus();
    assert!(build_position_mask(&c, &[], &[]).unwrap().is_none());
    let m = build_position_mask(&c, &strings(&["fr"]), &[]).unwrap().unwrap();
    let positions: Vec<u32> = m.iter().collect();
    assert_eq!(positions, (9..18).collect::<Vec<u32>>());
}

#[test]
fn docs_and_component_listings() {
    let c = make_corpus();
    let rows = docs_listing(&c, None).unwrap();
    assert_eq!(
        rows,
        vec![
            ("en".to_string(), "en/the_house.conllu".to_string()),
            ("fr".to_string(), "fr/la_maison.conllu".to_string())
        ]
    );
    let rows = docs_listing(&c, Some("fr")).unwrap();
    assert_eq!(rows, vec![("fr".to_string(), "fr/la_maison.conllu".to_string())]);
    assert_eq!(docs_listing(&c, Some("de")).unwrap_err(), "Component 'de' not found. Available: en, fr");
    assert_eq!(component_rows(&c), vec![("en".to_string(), "en".to_string()), ("fr".to_string(), "fr".to_string())]);
    assert_eq!(component_name_for_document(&c, 1), "fr");
    assert_eq!(component_name_for_document(&c, 5), "parallel");
}

fn register_with(state: &mut State, provides: Vec<InterestKind>, consumes: Vec<InterestKind>) -> u32 {
    state
        .register(RegisterParams {
            protocol_version: PROTOCOL_VERSION,
            kind: ProcessKind::External,
            label: None,
            provides,
            consumes,
        })
        .unwrap()
        .0
        .process_id
}

#[test]
fn new_anchor_first_passes_master_interest_to_follower() {
    let c = make_corpus();
    let mut state = State::new(1, "id".to_string(), 0);
    let master = register_with(&mut state, vec![InterestKind::Position, InterestKind::Sentence], vec![]);
    let follower = register_with(&mut state, vec![], vec![InterestKind::Sentence]);
    assert!(state.publish_interest(&c, master, Interest::Position { doc: 1, position: 15 }).is_empty());
    let anchor = state.anchor_create(master, follower, AnchorKind::SentenceMirror).unwrap();
    let out = state.anchor_first_updates(&c, anchor);
    assert_eq!(out.len(), 1);
    assert_eq!(out[0].recipients, vec![follower]);
    match &out[0].notification {
        Notification::AnchorUpdate { anchor_id, interest } => {
            assert_eq!(*anchor_id, anchor);
            assert!(matches!(interest, Interest::Sentence { doc: 1, sent: 1 }));
        },
        other => panic!("unexpected {:?}", other),
    }
}

#[test]
fn new_anchor_without_master_interest_sends_nothing() {
    let c = make_corpus();
    let mut state = State::new(1, "id".to_string(), 0);
    let master = register_with(&mut state, vec![InterestKind::Sentence], vec![]);
    let follower = register_with(&mut state, vec![], vec![InterestKind::Sentence]);
    let anchor = state.anchor_create(master, follower, AnchorKind::SentenceMirror).unwrap();
    assert!(state.anchor_first_updates(&c, anchor).is_empty());
    assert!(state.anchor_first_updates(&c, anchor + 100).is_empty());
}

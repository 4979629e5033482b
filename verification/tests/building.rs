use montre::builder::{CorpusBuilder, IndexSink};
use montre::conllu::{BuildError, ConllUReader};
use montre::corpus::ComponentMeta;
use montre::daemon::{route, Method};
use montre::input::InputFormat;
use montre::manifest::{AlignmentConfig, ComponentConfig, CorpusConfig, Manifest};
use montre::multi::{
    alignment_components, alignment_meta_for, assemble_alignments, assemble_components, build_doc_name_map,
    find_component, parse_alignment_text, MultiCorpusBuilder,
};
use montre::protocol::error_codes;

#[test]
fn build_from_conllu() {
    let conllu = "1\tThe\tthe\tDET\tDT\t_\t2\tdet\t_\t_
2\tcat\tcat\tNOUN\tNN\t_\t3\tnsubj\t_\t_
3\tsat\tsit\tVERB\tVBD\t_\t0\troot\t_\t_
";

    let mut reader = ConllUReader::new(conllu);
    let sentences = reader.read_sentences().unwrap();

    let mut builder = CorpusBuilder::new("test".to_string());
    builder.add_document("test_doc.conllu".to_string(), sentences);

    let positions = builder.sink().inverted().get("word", "cat").unwrap();
    assert!(positions.contains(1));

    let positions = builder.sink().inverted().get("upos", "NOUN").unwrap();
    assert!(positions.contains(1));

    assert_eq!(builder.document_count(), 1);
}

#[test]
fn multi_document() {
    let doc1 = "1\tHello\thello\tINTJ\tUH\t_\t0\troot\t_\t_\n";
    let doc2 = "1\tWorld\tworld\tNOUN\tNN\t_\t0\troot\t_\t_\n";

    let mut builder = CorpusBuilder::new("test".to_string());

    let mut reader1 = ConllUReader::new(doc1);
    builder.add_document("doc1.conllu".to_string(), reader1.read_sentences().unwrap());

    let mut reader2 = ConllUReader::new(doc2);
    builder.add_document("doc2.conllu".to_string(), reader2.read_sentences().unwrap());

    assert_eq!(builder.current_position(), 2);
    assert_eq!(builder.document_count(), 2);

    let hello_pos = builder.sink().inverted().get("word", "Hello").unwrap();
    assert!(hello_pos.contains(0));

    let world_pos = builder.sink().inverted().get("word", "World").unwrap();
    assert!(world_pos.contains(1));
}

#[test]
fn sink_records_spans_lexicon_forward_and_ids() {
    let text = "# sent_id = a
1\tDogs\tdog\tNOUN\t_\tNumber=Plur\t2\tnsubj\t_\t_
2\tbark\tbark\tVERB\t_\t_\t0\troot\t_\t_

1\tYes\tyes\tINTJ\t_\t_\t0\troot\t_\t_
";
    let mut sink = IndexSink::new().with_decompose_feats(true);
    sink.add_document("d", ConllUReader::new(text).read_sentences().unwrap());
    assert_eq!(sink.current_position(), 3);
    assert_eq!(sink.document_names(), &["d".to_string()]);
    assert_eq!(sink.sentence_ids().len(), 2);
    assert_eq!(sink.sentence_ids()[0], "a");
    let fwd = sink.forward().unwrap();
    assert_eq!(fwd.get_str(0, "word"), Some("Dogs"));
    assert_eq!(fwd.get_int(0, "head"), Some(2));
    assert_eq!(fwd.get_str(0, "feats"), Some("Number=Plur"));
    assert!(sink.inverted().get("feats.Number", "Plur").unwrap().contains(0));
    assert_eq!(sink.lexicon().term_to_id("lemma", "dog"), Some(0));
    let index = sink.into_index();
    assert_eq!(index.spans.spans("sentence").unwrap().len(), 2);
    assert_eq!(index.spans.spans("document").unwrap().len(), 1);
    assert_eq!(index.token_count, 3);
}

#[test]
fn sink_merge_shifts_second_sink() {
    let a_text = "1\tA\ta\tX\t_\t_\t0\troot\t_\t_\n";
    let b_text = "1\tB\tb\tX\t_\t_\t0\troot\t_\t_\n2\tC\tc\tX\t_\t_\t1\tdep\t_\t_\n";
    let mut a = IndexSink::new();
    a.add_document("a", ConllUReader::new(a_text).read_sentences().unwrap());
    let mut b = IndexSink::new();
    b.add_document("b", ConllUReader::new(b_text).read_sentences().unwrap());
    a.merge_from(b);
    assert_eq!(a.current_position(), 3);
    assert_eq!(a.document_names(), &["a".to_string(), "b".to_string()]);
    assert!(a.inverted().get("word", "C").unwrap().contains(2));
    assert_eq!(a.forward().unwrap().get_str(1, "word"), Some("B"));
    assert_eq!(a.forward().unwrap().get_int(2, "head"), Some(1));
}

#[test]
fn builder_meta_lists_layers_and_documents() {
    let mut builder = CorpusBuilder::new("c".to_string());
    builder.add_sentences(ConllUReader::new("1\tx\tx\tX\t_\t_\t0\troot\t_\t_\n").read_sentences().unwrap());
    let meta = builder.corpus_meta();
    assert_eq!(meta.name, "c");
    assert_eq!(meta.token_count, 1);
    assert!(meta.layers.iter().any(|l| l == "word"));
    assert!(meta.span_layers.iter().any(|l| l == "sentence"));
    assert!(meta.components.is_empty());
}

// ---- multi-component builds ----

fn comp(id: u32, name: &str, range: (usize, usize)) -> ComponentMeta {
    ComponentMeta { id, name: name.to_string(), language: name.to_string(), document_range: range }
}

fn names() -> Vec<String> {
    vec!["en/a".to_string(), "en/b".to_string(), "fr/a".to_string(), "fr/b".to_string()]
}

#[test]
fn doc_name_map_counts_within_component() {
    let m = build_doc_name_map(&comp(1, "fr", (2, 4)), &names());
    assert_eq!(m, vec![("fr/a".to_string(), 0), ("fr/b".to_string(), 1)]);
    assert!(build_doc_name_map(&comp(1, "fr", (3, 3)), &names()).is_empty());
}

#[test]
fn alignment_text_parses_edges_and_skips_comments() {
    let text = "# header\nen/a\t0\tfr/a\t1\n\nen/b\t2\tfr/b\t0\n";
    let edges =
        parse_alignment_text(text, &comp(0, "en", (0, 2)), &comp(1, "fr", (2, 4)), &names(), true, "x.tsv").unwrap();
    assert_eq!(edges, vec![((0, 0), (0, 1)), ((1, 2), (1, 0))]);
}

#[test]
fn alignment_text_lenient_skips_unknown_documents() {
    let text = "en/zz\t0\tfr/a\t0\nen/a\t0\tfr/a\t0\nshort\tline\n";
    let edges =
        parse_alignment_text(text, &comp(0, "en", (0, 2)), &comp(1, "fr", (2, 4)), &names(), false, "x.tsv").unwrap();
    assert_eq!(edges, vec![((0, 0), (0, 0))]);
}

#[test]
fn alignment_text_strict_rejects_unknown_document() {
    let text = "en/zz\t0\tfr/a\t0\n";
    match parse_alignment_text(text, &comp(0, "en", (0, 2)), &comp(1, "fr", (2, 4)), &names(), true, "x.tsv") {
        Err(BuildError::Alignment(m)) => assert!(m.contains("en/zz")),
        other => panic!("unexpected {:?}", other),
    }
}

#[test]
fn alignment_text_bad_index_always_rejected() {
    let text = "en/a\tzero\tfr/a\t0\n";
    assert!(parse_alignment_text(text, &comp(0, "en", (0, 2)), &comp(1, "fr", (2, 4)), &names(), false, "x.tsv")
        .is_err());
}

#[test]
fn alignment_text_error_messages_cite_line() {
    let cases = [
        ("# c\nshort\tline\n", "Invalid alignment line 2 in \"x.tsv\": expected 4 tab-separated fields"),
        ("en/zz\t0\tfr/a\t0\n", "Unknown source document 'en/zz' at line 1 (not in component 'en')"),
        ("\nen/a\t0\tfr/zz\t0\n", "Unknown target document 'fr/zz' at line 2 (not in component 'fr')"),
        ("en/a\tzero\tfr/a\t0\n", "Invalid source sentence index at line 1: zero"),
        ("en/a\t0\tfr/a\t-1\n", "Invalid target sentence index at line 1: -1"),
    ];
    for (text, want) in cases {
        match parse_alignment_text(text, &comp(0, "en", (0, 2)), &comp(1, "fr", (2, 4)), &names(), true, "\"x.tsv\"") {
            Err(BuildError::Alignment(m)) => assert_eq!(m, want),
            other => panic!("unexpected {:?}", other),
        }
    }
}

fn manifest() -> Manifest {
    Manifest {
        corpus: CorpusConfig { name: "maupassant".to_string(), decompose_feats: false },
        components: vec![
            ("fr".to_string(), ComponentConfig { path: "data/fr".to_string(), language: Some("fr".to_string()), format: None }),
            ("en".to_string(), ComponentConfig { path: "data/en".to_string(), language: Some("en".to_string()), format: None }),
        ],
        span_layers: vec![],
        alignments: vec![(
            "labse".to_string(),
            AlignmentConfig {
                source: "fr".to_string(),
                target: "en".to_string(),
                source_layer: "sentence".to_string(),
                target_layer: "sentence".to_string(),
                edges: "alignments/labse.tsv".to_string(),
                directed: true,
            },
        )],
    }
}

#[test]
fn manifest_names_and_component_order() {
    let m = manifest();
    assert!(!m.is_single_component());
    assert_eq!(m.component_names(), vec!["fr", "en"]);
    assert_eq!(m.alignment_names(), vec!["labse"]);
    let b = MultiCorpusBuilder::from_manifest(m, "/base".to_string()).strict(true);
    assert!(b.is_strict_build());
    assert!(!b.decomposes_feats());
    assert_eq!(b.manifest_dir(), "/base");
    assert_eq!(b.component_order(), vec!["en".to_string(), "fr".to_string()]);
}

#[test]
fn alignment_components_resolve_and_fail() {
    let comps = vec![comp(0, "en", (0, 2)), comp(1, "fr", (2, 4))];
    let m = manifest();
    assert_eq!(find_component(&comps, "fr"), Some(1));
    assert_eq!(find_component(&comps, "de"), None);
    assert_eq!(alignment_components(&comps, &m.alignments[0].1).unwrap(), (1, 0));
    let bad = AlignmentConfig {
        source: "de".to_string(),
        target: "en".to_string(),
        source_layer: "sentence".to_string(),
        target_layer: "sentence".to_string(),
        edges: "e.tsv".to_string(),
        directed: false,
    };
    assert!(matches!(alignment_components(&comps, &bad), Err(BuildError::Alignment(m)) if m == "Source component not found: de"));
    let meta = alignment_meta_for("labse", &m.alignments[0].1, 7);
    assert_eq!(meta.name, "labse");
    assert_eq!(meta.source_component, "fr");
    assert_eq!(meta.edge_count, 7);
    assert!(meta.directed);
}

// ---- input formats ----

#[test]
fn input_format_from_extension() {
    assert_eq!(InputFormat::from_path("data/fr/a.conllu"), Some(InputFormat::ConllU));
    assert_eq!(InputFormat::from_path("a.conll"), Some(InputFormat::ConllU));
    assert_eq!(InputFormat::from_path("x/y.json"), Some(InputFormat::StanzaJson));
    assert_eq!(InputFormat::from_path("x/y.vrt"), Some(InputFormat::Vrt));
    assert_eq!(InputFormat::from_path("x/y.tsv"), Some(InputFormat::Tsv));
    assert_eq!(InputFormat::from_path("x/y.txt"), None);
    assert_eq!(InputFormat::from_path("x/.conllu"), None);
    assert_eq!(InputFormat::from_path("x/noext"), None);
    assert_eq!(InputFormat::from_path("x/a.conllu/"), Some(InputFormat::ConllU));
}

// ---- request routing ----

#[test]
fn route_requires_registration_first() {
    assert_eq!(route("corpus.info", false).unwrap_err().code, error_codes::NOT_REGISTERED);
    assert_eq!(route("session.register", false).unwrap(), Method::SessionRegister);
    assert_eq!(route("corpus.info", true).unwrap(), Method::CorpusInfo);
    assert_eq!(route("daemon.shutdown", true).unwrap(), Method::DaemonShutdown);
}

#[test]
fn route_unknown_method() {
    let e = route("no.such", true).unwrap_err();
    assert_eq!(e.code, error_codes::METHOD_NOT_FOUND);
    assert_eq!(e.message, "Method not found: no.such");
}

#[test]
fn components_assemble_in_order_with_document_ranges() {
    let one = "1\tA\ta\tX\t_\t_\t0\troot\t_\t_\n";
    let two = "1\tB\tb\tX\t_\t_\t0\troot\t_\t_\n2\tC\tc\tX\t_\t_\t1\tdep\t_\t_\n";
    let mut en = IndexSink::new_without_forward();
    en.add_document("en/a", ConllUReader::new(one).read_sentences().unwrap());
    en.add_document("en/b", ConllUReader::new(two).read_sentences().unwrap());
    let mut fr = IndexSink::new_without_forward();
    fr.add_document("fr/a", ConllUReader::new(two).read_sentences().unwrap());
    let mut combined = IndexSink::new_without_forward();
    let comps = assemble_components(
        &mut combined,
        vec![("en".to_string(), "en".to_string(), en), ("fr".to_string(), "fr".to_string(), fr)],
    );
    assert_eq!(combined.current_position(), 5);
    assert_eq!(combined.document_names(), &["en/a".to_string(), "en/b".to_string(), "fr/a".to_string()]);
    assert_eq!(comps.len(), 2);
    assert_eq!((comps[0].id, comps[0].name.as_str(), comps[0].document_range), (0, "en", (0, 2)));
    assert_eq!((comps[1].id, comps[1].name.as_str(), comps[1].document_range), (1, "fr", (2, 3)));
}

fn labse(source: &str) -> (String, AlignmentConfig) {
    (
        "labse".to_string(),
        AlignmentConfig {
            source: source.to_string(),
            target: "fr".to_string(),
            source_layer: "sentence".to_string(),
            target_layer: "sentence".to_string(),
            edges: "alignments".to_string(),
            directed: true,
        },
    )
}

#[test]
fn alignments_assemble_files_in_order() {
    let comps = vec![comp(0, "en", (0, 2)), comp(1, "fr", (2, 4))];
    let files = vec![vec![
        ("\"a.tsv\"".to_string(), "en/a\t0\tfr/a\t1\n".to_string()),
        ("\"b.tsv\"".to_string(), "# b\nen/b\t2\tfr/b\t0\n".to_string()),
    ]];
    let (idx, metas) = assemble_alignments(&vec![labse("en")], &comps, &names(), &files, true).unwrap();
    assert_eq!(metas.len(), 1);
    assert_eq!(metas[0].name, "labse");
    assert_eq!(metas[0].edge_count, 2);
    assert_eq!(idx.get("labse").unwrap(), &[((0, 0), (0, 1)), ((1, 2), (1, 0))]);
    assert!(idx.get("other").is_none());
    assert_eq!(idx.names(), vec!["labse"]);
}

#[test]
fn alignments_assemble_reports_first_failure() {
    let comps = vec![comp(0, "en", (0, 2)), comp(1, "fr", (2, 4))];
    match assemble_alignments(&vec![labse("de")], &comps, &names(), &vec![vec![]], true) {
        Err(BuildError::Alignment(m)) => assert_eq!(m, "Source component not found: de"),
        other => panic!("unexpected {:?}", other.map(|(_, m)| m.len())),
    }
    let files = vec![vec![
        ("\"a.tsv\"".to_string(), "en/a\t0\tfr/a\t1\n".to_string()),
        ("\"b.tsv\"".to_string(), "en/zz\t0\tfr/a\t0\n".to_string()),
    ]];
    match assemble_alignments(&vec![labse("en")], &comps, &names(), &files, true) {
        Err(BuildError::Alignment(m)) => assert_eq!(m, "Unknown source document 'en/zz' at line 1 (not in component 'en')"),
        other => panic!("unexpected {:?}", other.map(|(_, m)| m.len())),
    }
}

#[test]
fn multi_build_assembles_components_and_alignments() {
    let sent = "1\tA\ta\tX\t_\t_\t0\troot\t_\t_\n";
    let sink_of = |docs: &[&str]| {
        let mut s = IndexSink::new_without_forward();
        for d in docs {
            s.add_document(d, ConllUReader::new(sent).read_sentences().unwrap());
        }
        s
    };
    let b = MultiCorpusBuilder::from_manifest(manifest(), "/base".to_string());
    let order = b.component_order();
    assert_eq!(order, vec!["en".to_string(), "fr".to_string()]);
    let sinks = vec![sink_of(&["en/a", "en/b"]), sink_of(&["fr/a", "fr/b"])];
    let files = vec![vec![("\"labse.tsv\"".to_string(), "fr/a\t0\ten/b\t0\n".to_string())]];
    let (combined, meta, idx) = b.assemble(&order, sinks, &files).unwrap();
    assert_eq!(meta.name, "maupassant");
    assert_eq!(meta.token_count, 4);
    assert_eq!(combined.current_position(), 4);
    assert_eq!(meta.document_names, vec!["en/a", "en/b", "fr/a", "fr/b"]);
    assert_eq!((meta.components[0].id, meta.components[0].name.as_str(), meta.components[0].language.as_str(),
        meta.components[0].document_range), (0, "en", "en", (0, 2)));
    assert_eq!((meta.components[1].id, meta.components[1].name.as_str(), meta.components[1].document_range), (1, "fr", (2, 4)));
    assert_eq!(meta.alignments.len(), 1);
    assert_eq!(meta.alignments[0].edge_count, 1);
    assert_eq!(idx.get("labse").unwrap(), &[((0, 0), (1, 0))]);

    let bad = vec![vec![("\"labse.tsv\"".to_string(), "fr/zz\t0\ten/b\t0\n".to_string())]];
    let b = MultiCorpusBuilder::from_manifest(manifest(), "/base".to_string()).strict(true);
    match b.assemble(&order, vec![sink_of(&["en/a", "en/b"]), sink_of(&["fr/a", "fr/b"])], &bad) {
        Err(BuildError::Alignment(m)) => assert_eq!(m, "Unknown source document 'fr/zz' at line 1 (not in component 'fr')"),
        Err(other) => panic!("unexpected {:?}", other),
        Ok(_) => panic!("expected an error"),
    }
}

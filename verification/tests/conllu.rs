use montre::conllu::{BuildError, ConllUReader};

const SAMPLE_CONLLU: &str = "# sent_id = 1
# text = The cat sat.
1\tThe\tthe\tDET\tDT\t_\t2\tdet\t_\t_
2\tcat\tcat\tNOUN\tNN\t_\t3\tnsubj\t_\t_
3\tsat\tsit\tVERB\tVBD\t_\t0\troot\t_\t_
4\t.\t.\tPUNCT\t.\t_\t3\tpunct\t_\t_

# sent_id = 2
# text = Dogs bark.
1\tDogs\tdog\tNOUN\tNNS\t_\t2\tnsubj\t_\t_
2\tbark\tbark\tVERB\tVBP\t_\t0\troot\t_\t_
3\t.\t.\tPUNCT\t.\t_\t2\tpunct\t_\t_
";

const MALFORMED_CONLLU: &str = "# sent_id = 1
# text = Good sentence.
1\tGood\tgood\tADJ\tJJ\t_\t2\tamod\t_\t_
2\tsentence\tsentence\tNOUN\tNN\t_\t0\troot\t_\t_
3\t.\t.\tPUNCT\t.\t_\t2\tpunct\t_\t_

# sent_id = 2
# text = Bad sentence - missing fields
1\tBad
2\tsentence

# sent_id = 3
# text = Another good one.
1\tAnother\tanother\tDET\tDT\t_\t3\tdet\t_\t_
2\tgood\tgood\tADJ\tJJ\t_\t3\tamod\t_\t_
3\tone\tone\tNOUN\tNN\t_\t0\troot\t_\t_
4\t.\t.\tPUNCT\t.\t_\t3\tpunct\t_\t_
";

#[test]
fn parse_valid_conllu() {
    let mut reader = ConllUReader::new(SAMPLE_CONLLU).with_source_name("test.conllu".to_string());
    let sentences = reader.read_sentences().unwrap();

    assert_eq!(sentences.len(), 2);
    assert_eq!(reader.stats().sentences_parsed, 2);
    assert_eq!(reader.stats().sentences_skipped, 0);
    assert_eq!(reader.stats().tokens_parsed, 7);

    assert_eq!(sentences[0].tokens.len(), 4);
    assert_eq!(sentences[0].tokens[0].word, "The");
    assert_eq!(sentences[1].tokens.len(), 3);
    assert_eq!(sentences[1].tokens[0].word, "Dogs");
}

#[test]
fn skip_malformed_sentences() {
    let mut reader =
        ConllUReader::new(MALFORMED_CONLLU).with_source_name("malformed.conllu".to_string());
    let sentences = reader.read_sentences().unwrap();

    assert_eq!(sentences.len(), 2);
    assert_eq!(reader.stats().sentences_parsed, 2);
    assert_eq!(reader.stats().sentences_skipped, 1);

    assert_eq!(sentences[0].tokens[0].word, "Good");
    assert_eq!(sentences[1].tokens[0].word, "Another");
}

#[test]
fn span_positions_account_for_skipped() {
    let mut reader = ConllUReader::new(MALFORMED_CONLLU);
    let sentences = reader.read_sentences().unwrap();

    assert_eq!(sentences[0].span.start, 0);
    assert_eq!(sentences[0].span.end, 3);
    assert_eq!(sentences[1].span.start, 3);
    assert_eq!(sentences[1].span.end, 7);
}

#[test]
fn empty_input() {
    let mut reader = ConllUReader::new("");
    let sentences = reader.read_sentences().unwrap();
    assert!(sentences.is_empty());
}

#[test]
fn comments_only() {
    let mut reader = ConllUReader::new("# just a comment\n# another comment\n\n");
    let sentences = reader.read_sentences().unwrap();
    assert!(sentences.is_empty());
}

#[test]
fn skips_multiword_tokens() {
    let input = "\
1\tDon\tdo\tAUX\t_\t_\t0\troot\t_\t_
2-3\tdon't\t_\t_\t_\t_\t_\t_\t_\t_
2\tdo\tdo\tAUX\t_\t_\t0\troot\t_\t_
3\tnot\tnot\tPART\t_\t_\t2\tadvmod\t_\t_
4\tworry\tworry\tVERB\t_\t_\t2\txcomp\t_\t_
";
    let mut reader = ConllUReader::new(input);
    let sentences = reader.read_sentences().unwrap();

    assert_eq!(sentences.len(), 1);
    assert_eq!(sentences[0].tokens.len(), 4);
    assert_eq!(sentences[0].tokens[0].word, "Don");
    assert_eq!(sentences[0].tokens[1].word, "do");
    assert_eq!(sentences[0].tokens[2].word, "not");
    assert_eq!(sentences[0].tokens[3].word, "worry");
}

#[test]
fn skips_empty_node_tokens() {
    let input = "\
1\tThey\tthey\tPRON\t_\t_\t2\tnsubj\t_\t_
2\tran\trun\tVERB\t_\t_\t0\troot\t_\t_
2.1\tand\tand\tCCONJ\t_\t_\t_\t_\t_\t_
3\tjumped\tjump\tVERB\t_\t_\t2\tconj\t_\t_
";
    let mut reader = ConllUReader::new(input);
    let sentences = reader.read_sentences().unwrap();

    assert_eq!(sentences[0].tokens.len(), 3);
    assert_eq!(sentences[0].tokens[2].word, "jumped");
}

#[test]
fn strict_mode_rejects_malformed() {
    let mut reader = ConllUReader::new(MALFORMED_CONLLU).with_source_name("test.conllu".to_string());
    let result = reader.read_sentences_strict();
    assert!(result.is_err());
}

#[test]
fn strict_error_names_source_line_and_field_count() {
    let mut reader = ConllUReader::new(MALFORMED_CONLLU).with_source_name("test.conllu".to_string());
    match reader.read_sentences_strict() {
        Err(BuildError::Parse { line, message }) => {
            assert_eq!(line, 9);
            assert_eq!(message, "test.conllu:9: expected 10 fields, found 2");
        },
        other => panic!("unexpected {:?}", other),
    }
}

#[test]
fn underscore_fields_become_none() {
    let input = "1\tHello\t_\t_\t_\t_\t0\troot\t_\t_\n";
    let mut reader = ConllUReader::new(input);
    let sentences = reader.read_sentences().unwrap();

    let token = &sentences[0].tokens[0];
    assert_eq!(token.word, "Hello");
    assert!(token.lemma.is_none());
    assert!(token.upos.is_none());
    assert!(token.xpos.is_none());
}

#[test]
fn multiword_and_empty_nodes_are_recorded() {
    let input = "\
# sent_id = s1
1\tDon\tdo\tAUX\t_\t_\t0\troot\t_\t_
2-3\tdon't\t_\t_\t_\t_\t_\t_\t_\tSpaceAfter=No
2\tdo\tdo\tAUX\t_\t_\t0\troot\t_\t_
2.1\tand\tand\tCCONJ\t_\t_\t_\t_\t_\t_
3\tnot\tnot\tPART\t_\t_\t2\tadvmod\t_\tSpaceAfter=No
";
    let mut reader = ConllUReader::new(input);
    let sentences = reader.read_sentences().unwrap();
    assert_eq!(sentences.len(), 1);
    let s = &sentences[0];
    assert_eq!(s.sent_id.as_deref(), Some("s1"));
    assert_eq!(s.mwts.len(), 1);
    assert_eq!(s.mwts[0].first, 2);
    assert_eq!(s.mwts[0].last, 3);
    assert_eq!(s.mwts[0].form, "don't");
    assert!(s.mwts[0].no_space_after);
    assert_eq!(s.empty_nodes.len(), 1);
    assert_eq!(s.empty_nodes[0].major, 2);
    assert_eq!(s.empty_nodes[0].minor, 1);
    assert_eq!(s.empty_nodes[0].form, "and");
    assert!(s.tokens[2].space_after_no);
    assert_eq!(s.tokens[0].head, Some(0));
    assert_eq!(s.tokens[2].head, Some(2));
    assert_eq!(s.tokens[2].deprel.as_deref(), Some("advmod"));
}

#[test]
fn strict_mode_reports_line_of_malformed_token() {
    let mut reader = ConllUReader::new(MALFORMED_CONLLU);
    match reader.read_sentences_strict() {
        Err(montre::conllu::BuildError::Parse { line, .. }) => assert_eq!(line, 9),
        other => panic!("unexpected result: {:?}", other.map(|v| v.len())),
    }
}

#[test]
fn strict_success_reads_as_lenient() {
    let input = "# sent_id = a\n1\tHi\thi\tINTJ\tUH\t_\t0\troot\t_\t_\n\n# only a comment\n\n1\tYo\tyo\tINTJ\tUH\t_\t0\troot\t_\t_\n2\t!\t!\tPUNCT\t.\t_\t1\tpunct\t_\t_\n";
    let mut strict = ConllUReader::new(input);
    let mut lenient = ConllUReader::new(input);
    let a = strict.read_sentences_strict().unwrap();
    let b = lenient.read_sentences().unwrap();
    assert_eq!(format!("{:?}", a), format!("{:?}", b));
    assert_eq!(a.len(), 2);
    assert_eq!(strict.stats().tokens_parsed, lenient.stats().tokens_parsed);
    assert_eq!(strict.stats().sentences_parsed, lenient.stats().sentences_parsed);
    assert_eq!(strict.stats().sentences_skipped, 0);
    assert_eq!(lenient.stats().sentences_skipped, 1);
}

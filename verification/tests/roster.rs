use montre::protocol::{
    anchor_kind_compat, AnchorKind, InterestKind, ProcessInfo, ProcessKind, RosterFilter,
};

fn make_info(kind: ProcessKind, provides: Vec<InterestKind>) -> ProcessInfo {
    ProcessInfo { id: 1, kind, label: None, provides, consumes: vec![], current_interest: None }
}

#[test]
fn roster_filter_kind_match_and_mismatch() {
    let info = make_info(ProcessKind::Reader, vec![]);
    let filter = RosterFilter { kinds: vec![ProcessKind::Reader], ..Default::default() };
    assert!(filter.matches(&info));

    let filter = RosterFilter { kinds: vec![ProcessKind::Kwic], ..Default::default() };
    assert!(!filter.matches(&info));
}

#[test]
fn roster_filter_provides_any_of() {
    let info = make_info(ProcessKind::Reader, vec![InterestKind::Sentence, InterestKind::Document]);
    let filter = RosterFilter { provides_any_of: vec![InterestKind::Sentence], ..Default::default() };
    assert!(filter.matches(&info));

    let filter = RosterFilter { provides_any_of: vec![InterestKind::Hit], ..Default::default() };
    assert!(!filter.matches(&info));
}

#[test]
fn roster_filter_combines_with_and() {
    let info = make_info(ProcessKind::Reader, vec![InterestKind::Sentence]);
    let filter = RosterFilter {
        kinds: vec![ProcessKind::Reader],
        provides_any_of: vec![InterestKind::Sentence],
        ..Default::default()
    };
    assert!(filter.matches(&info));

    let filter = RosterFilter {
        kinds: vec![ProcessKind::Reader],
        provides_any_of: vec![InterestKind::Hit],
        ..Default::default()
    };
    assert!(!filter.matches(&info));
}

#[test]
fn roster_filter_within_field_is_or() {
    let info = make_info(ProcessKind::Reader, vec![InterestKind::Sentence]);
    let filter = RosterFilter {
        provides_any_of: vec![InterestKind::Sentence, InterestKind::Hit],
        ..Default::default()
    };
    assert!(filter.matches(&info));

    let filter = RosterFilter {
        provides_any_of: vec![InterestKind::Document, InterestKind::Hit],
        ..Default::default()
    };
    assert!(!filter.matches(&info));
}

#[test]
fn roster_filter_consumes_any_of() {
    let info = ProcessInfo {
        id: 1,
        kind: ProcessKind::Reader,
        label: None,
        provides: vec![],
        consumes: vec![InterestKind::Sentence],
        current_interest: None,
    };
    let filter = RosterFilter {
        consumes_any_of: vec![InterestKind::Sentence, InterestKind::Span],
        ..Default::default()
    };
    assert!(filter.matches(&info));

    let filter = RosterFilter { consumes_any_of: vec![InterestKind::Hit], ..Default::default() };
    assert!(!filter.matches(&info));
}

#[test]
fn roster_filter_empty_matches_everything() {
    let info = make_info(ProcessKind::External, vec![]);
    assert!(RosterFilter::default().matches(&info));
}

#[test]
fn coupler_kind_compat_sentence_mirror_accepts_position_to_sentence() {
    assert!(anchor_kind_compat(
        &AnchorKind::SentenceMirror,
        &vec![InterestKind::Position],
        &vec![InterestKind::Sentence],
    ));
}

#[test]
fn coupler_kind_compat_sentence_mirror_rejects_hit_provider() {
    assert!(!anchor_kind_compat(
        &AnchorKind::SentenceMirror,
        &vec![InterestKind::Hit],
        &vec![InterestKind::Sentence],
    ));
}

#[test]
fn coupler_kind_compat_alignment_accepts_span_to_span() {
    assert!(anchor_kind_compat(
        &AnchorKind::Alignment { name: "labse".to_string() },
        &vec![InterestKind::Span],
        &vec![InterestKind::Span],
    ));
}

#[test]
fn coupler_kind_compat_kwic_requires_hit_provider() {
    assert!(anchor_kind_compat(
        &AnchorKind::KwicSelection,
        &vec![InterestKind::Hit],
        &vec![InterestKind::Span],
    ));
    assert!(!anchor_kind_compat(
        &AnchorKind::KwicSelection,
        &vec![InterestKind::Sentence],
        &vec![InterestKind::Span],
    ));
}

#[test]
fn coupler_kind_compat_rejects_empty_master_provides() {
    assert!(!anchor_kind_compat(&AnchorKind::SentenceMirror, &vec![], &vec![InterestKind::Sentence]));
}

#[test]
fn coupler_kind_compat_rejects_empty_follower_consumes() {
    assert!(!anchor_kind_compat(&AnchorKind::SentenceMirror, &vec![InterestKind::Position], &vec![]));
}

#[test]
fn coupler_kind_compat_tbd_kinds_self_to_self() {
    assert!(anchor_kind_compat(
        &AnchorKind::DocPickerSelection,
        &vec![InterestKind::Document],
        &vec![InterestKind::Document],
    ));
    assert!(anchor_kind_compat(
        &AnchorKind::NamedResultsSelection,
        &vec![InterestKind::Results],
        &vec![InterestKind::Results],
    ));
    assert!(anchor_kind_compat(
        &AnchorKind::ConlluView,
        &vec![InterestKind::Sentence],
        &vec![InterestKind::Sentence],
    ));
}

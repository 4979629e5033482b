use montre::protocol::error_codes;
use montre::protocol::{
    anchor_kind_names, AnchorKind, ErrorData, InterestKind, ProcessId, ProcessKind, RegisterParams,
    ResultForm, ResultMetadata, RosterFilter, ShutdownReason, Topic, PROTOCOL_VERSION,
};
use montre::state::results::{named_records_from_lines, persisted_lines};
use montre::state::{server_version, NamedResultsEvent, Notification, RosterEvent, State};

fn make_state() -> State {
    State::new(1, "corpus0000000000".to_string(), 0)
}

fn make_register_params(kind: ProcessKind) -> RegisterParams {
    RegisterParams { protocol_version: PROTOCOL_VERSION, kind, label: None, provides: vec![], consumes: vec![] }
}

fn register(state: &mut State) -> ProcessId {
    state.register(make_register_params(ProcessKind::External)).unwrap().0.process_id
}

fn register_compatible(state: &mut State) -> ProcessId {
    let params = RegisterParams {
        protocol_version: PROTOCOL_VERSION,
        kind: ProcessKind::External,
        label: None,
        provides: vec![InterestKind::Position, InterestKind::Span, InterestKind::Sentence],
        consumes: vec![InterestKind::Sentence],
    };
    state.register(params).unwrap().0.process_id
}

#[test]
fn register_happy_path() {
    let mut state = make_state();
    let (reply, _) = state.register(make_register_params(ProcessKind::External)).unwrap();
    assert_eq!(reply.process_id, 1);
    assert_eq!(reply.daemon_epoch, 1);
    assert_eq!(reply.protocol_version, PROTOCOL_VERSION);
}

#[test]
fn register_assigns_increasing_ids() {
    let mut state = make_state();
    let r1 = register(&mut state);
    let r2 = register(&mut state);
    assert_eq!(r1, 1);
    assert_eq!(r2, 2);
}

#[test]
fn register_version_mismatch() {
    let mut state = make_state();
    let mut params = make_register_params(ProcessKind::External);
    params.protocol_version = 999;
    let err = state.register(params).unwrap_err();
    assert_eq!(err.code, error_codes::PROTOCOL_VERSION_MISMATCH);
    assert!(!state.is_registered(1));
}

#[test]
fn register_capabilities_includes_all_coupler_kinds() {
    let mut state = make_state();
    let (reply, _) = state.register(make_register_params(ProcessKind::External)).unwrap();
    for name in anchor_kind_names() {
        assert!(reply.capabilities.anchor_kinds.iter().any(|k| k == name), "expected capability '{}' present", name);
    }
}

#[test]
fn register_notifies_roster_subscribers() {
    let mut state = make_state();
    let p1 = register(&mut state);
    state.subscribe(p1, Topic::RosterChanged).unwrap();
    let (reply, out) = state.register(make_register_params(ProcessKind::Reader)).unwrap();
    assert_eq!(out.recipients, vec![p1]);
    match out.notification {
        Notification::RosterChanged { event, process } => {
            assert_eq!(event, RosterEvent::Registered);
            assert_eq!(process.id, reply.process_id);
            assert_eq!(process.kind, ProcessKind::Reader);
        }
        other => panic!("unexpected notification {:?}", other),
    }
}

#[test]
fn unregister_drops_couplers_involving_process() {
    let mut state = make_state();
    let p1 = register_compatible(&mut state);
    let p2 = register_compatible(&mut state);
    let coupler_id = state.anchor_create(p1, p2, AnchorKind::SentenceMirror).unwrap();
    assert!(state.anchor_list_for(None).iter().any(|a| a.id == coupler_id));

    state.unregister(p1, 5);
    assert!(!state.anchor_list_for(None).iter().any(|a| a.id == coupler_id));
}

#[test]
fn unregister_removes_from_subscriptions() {
    let mut state = make_state();
    let pid = register(&mut state);
    let watcher = register(&mut state);
    state.subscribe(pid, Topic::RosterChanged).unwrap();
    state.subscribe(watcher, Topic::RosterChanged).unwrap();

    let out = state.unregister(pid, 5).unwrap();
    assert!(!out.recipients.contains(&pid));
    let (_, out) = state.register(make_register_params(ProcessKind::External)).unwrap();
    assert_eq!(out.recipients, vec![watcher]);
}

#[test]
fn unregister_unknown_is_none() {
    let mut state = make_state();
    assert!(state.unregister(42, 1).is_none());
}

#[test]
fn coupler_create_unknown_master_rejected() {
    let mut state = make_state();
    let p = register(&mut state);
    let err = state.anchor_create(999, p, AnchorKind::SentenceMirror).unwrap_err();
    assert_eq!(err.code, error_codes::PROCESS_NOT_FOUND);
}

#[test]
fn coupler_create_unknown_follower_rejected() {
    let mut state = make_state();
    let p = register(&mut state);
    let err = state.anchor_create(p, 999, AnchorKind::SentenceMirror).unwrap_err();
    assert_eq!(err.code, error_codes::PROCESS_NOT_FOUND);
}

#[test]
fn coupler_create_self_loop_rejected_as_cycle() {
    let mut state = make_state();
    let p = register(&mut state);
    let err = state.anchor_create(p, p, AnchorKind::SentenceMirror).unwrap_err();
    assert_eq!(err.code, error_codes::ANCHOR_CYCLE);
}

#[test]
fn coupler_create_two_node_cycle_rejected() {
    let mut state = make_state();
    let p1 = register_compatible(&mut state);
    let p2 = register_compatible(&mut state);
    state.anchor_create(p1, p2, AnchorKind::SentenceMirror).unwrap();
    let err = state.anchor_create(p2, p1, AnchorKind::SentenceMirror).unwrap_err();
    assert_eq!(err.code, error_codes::ANCHOR_CYCLE);
}

#[test]
fn coupler_create_three_node_cycle_rejected() {
    let mut state = make_state();
    let p1 = register_compatible(&mut state);
    let p2 = register_compatible(&mut state);
    let p3 = register_compatible(&mut state);
    state.anchor_create(p1, p2, AnchorKind::SentenceMirror).unwrap();
    state.anchor_create(p2, p3, AnchorKind::SentenceMirror).unwrap();
    let err = state.anchor_create(p3, p1, AnchorKind::SentenceMirror).unwrap_err();
    assert_eq!(err.code, error_codes::ANCHOR_CYCLE);
}

#[test]
fn coupler_create_incompatible_rejected() {
    let mut state = make_state();
    let p_master = state
        .register(RegisterParams {
            protocol_version: PROTOCOL_VERSION,
            kind: ProcessKind::External,
            label: None,
            provides: vec![InterestKind::Hit],
            consumes: vec![],
        })
        .unwrap()
        .0
        .process_id;
    let p_follower = state
        .register(RegisterParams {
            protocol_version: PROTOCOL_VERSION,
            kind: ProcessKind::External,
            label: None,
            provides: vec![],
            consumes: vec![InterestKind::Sentence],
        })
        .unwrap()
        .0
        .process_id;
    let err = state.anchor_create(p_master, p_follower, AnchorKind::SentenceMirror).unwrap_err();
    assert_eq!(err.code, error_codes::ANCHOR_INCOMPATIBLE);
    assert!(err.data.is_some());
}

#[test]
fn anchor_incompatible_error_carries_kinds() {
    let mut state = make_state();
    let p_master = state
        .register(RegisterParams {
            protocol_version: PROTOCOL_VERSION,
            kind: ProcessKind::External,
            label: None,
            provides: vec![InterestKind::Hit],
            consumes: vec![],
        })
        .unwrap()
        .0
        .process_id;
    let p_follower = state
        .register(RegisterParams {
            protocol_version: PROTOCOL_VERSION,
            kind: ProcessKind::External,
            label: None,
            provides: vec![],
            consumes: vec![InterestKind::Sentence],
        })
        .unwrap()
        .0
        .process_id;
    let err = state.anchor_create(p_master, p_follower, AnchorKind::SentenceMirror).unwrap_err();
    match err.data {
        Some(ErrorData::Incompatible { master_provides, follower_consumes }) => {
            assert_eq!(master_provides, vec![InterestKind::Hit]);
            assert_eq!(follower_consumes, vec![InterestKind::Sentence]);
        },
        other => panic!("unexpected {:?}", other),
    }
    assert!(state.anchor_list_for(None).is_empty());
}

#[test]
fn coupler_remove_unknown_rejected() {
    let mut state = make_state();
    let err = state.anchor_remove(999).unwrap_err();
    assert_eq!(err.code, error_codes::ANCHOR_NOT_FOUND);
}

#[test]
fn coupler_remove_then_list_is_empty() {
    let mut state = make_state();
    let p1 = register_compatible(&mut state);
    let p2 = register_compatible(&mut state);
    let p3 = register_compatible(&mut state);
    let a = state.anchor_create(p1, p2, AnchorKind::SentenceMirror).unwrap();
    let b = state.anchor_create(p2, p3, AnchorKind::SentenceMirror).unwrap();
    assert_ne!(a, b);
    let for_p3: Vec<u32> = state.anchor_list_for(Some(p3)).iter().map(|x| x.id).collect();
    assert_eq!(for_p3, vec![b]);
    state.anchor_remove(a).unwrap();
    let all: Vec<u32> = state.anchor_list_for(None).iter().map(|x| x.id).collect();
    assert_eq!(all, vec![b]);
    // with the first link gone, the reverse link no longer closes a cycle
    assert!(state.anchor_create(p2, p1, AnchorKind::SentenceMirror).is_ok());
}

#[test]
fn update_label_and_roster_filter() {
    let mut state = make_state();
    let p1 = register(&mut state);
    let p2 = state.register(make_register_params(ProcessKind::Kwic)).unwrap().0.process_id;
    state.update_label(p1, Some("left".to_string())).unwrap();
    assert_eq!(state.update_label(77, None).unwrap_err().code, error_codes::PROCESS_NOT_FOUND);
    let all = state.roster_snapshot(None);
    assert_eq!(all.len(), 2);
    let filter = RosterFilter { kinds: vec![ProcessKind::Kwic], ..Default::default() };
    let only = state.roster_snapshot(Some(&filter));
    assert_eq!(only.len(), 1);
    assert_eq!(only[0].id, p2);
    let labelled = all.iter().find(|p| p.id == p1).unwrap();
    assert_eq!(labelled.label.as_deref(), Some("left"));
}

#[test]
fn subscribe_unknown_process_rejected() {
    let mut state = make_state();
    let err = state.subscribe(5, Topic::NamedResultsChanged).unwrap_err();
    assert_eq!(err.code, error_codes::PROCESS_NOT_FOUND);
}

#[test]
fn initiate_shutdown_marks_coordinator_and_is_idempotent() {
    let mut state = make_state();
    let p1 = register(&mut state);
    let out = state.initiate_shutdown(ShutdownReason::Requested).unwrap();
    assert_eq!(out.recipients, vec![p1]);
    match out.notification {
        Notification::Shutdown { reason, in_seconds } => {
            assert_eq!(reason, ShutdownReason::Requested);
            assert_eq!(in_seconds, 0);
        }
        other => panic!("unexpected notification {:?}", other),
    }
    assert!(state.initiate_shutdown(ShutdownReason::Signal).is_none());
}

#[test]
fn idle_timeout_fires_only_after_roster_empty_long_enough() {
    let mut state = make_state();
    state.set_idle_timeout(Some(100));
    assert!(state.check_idle_timeout(50).is_none());
    let p = register(&mut state);
    assert!(state.check_idle_timeout(1000).is_none());
    state.unregister(p, 1000);
    assert!(state.check_idle_timeout(1050).is_none());
    assert!(state.check_idle_timeout(1100).is_some());
    assert!(state.check_idle_timeout(2000).is_none());
}

#[test]
fn insert_result_returns_prefixed_handle() {
    let mut state = make_state();
    let handle = state.insert_result("foo".to_string(), vec![]).handle;
    assert!(handle.starts_with("r-"), "handle = {}", handle);
    assert!(handle.len() > "r-".len());
}

#[test]
fn insert_result_handle_is_hyphenated_v4_uuid() {
    let mut state = make_state();
    let handle = state.insert_result("foo".to_string(), vec![]).handle;
    let c: Vec<char> = handle.chars().collect();
    assert_eq!(c.len(), 38);
    assert_eq!(c[16], '4');
    for (k, ch) in c.iter().enumerate().skip(2) {
        if k == 10 || k == 15 || k == 20 || k == 25 {
            assert_eq!(*ch, '-');
        } else {
            assert!(ch.is_ascii_digit() || ('a'..='f').contains(ch), "handle = {}", handle);
        }
    }
}

#[test]
fn insert_result_distinct_handles() {
    let mut state = make_state();
    let h1 = state.insert_result("foo".to_string(), vec![]).handle;
    let h2 = state.insert_result("foo".to_string(), vec![]).handle;
    assert_ne!(h1, h2);
}

#[test]
fn save_result_duplicate_name_rejected() {
    let mut state = make_state();
    let h1 = state.insert_result("foo".to_string(), vec![]).handle;
    let h2 = state.insert_result("foo".to_string(), vec![]).handle;
    state.save_result(h1, "named".to_string()).unwrap();
    let err = state.save_result(h2, "named".to_string()).unwrap_err();
    assert_eq!(err.code, error_codes::NAMED_RESULT_ALREADY_EXISTS);
}

#[test]
fn save_result_invalid_handle_rejected() {
    let mut state = make_state();
    let err = state.save_result("r-nonexistent".to_string(), "named".to_string()).unwrap_err();
    assert_eq!(err.code, error_codes::RESULT_HANDLE_INVALID);
}

#[test]
fn materialize_unknown_name_rejected() {
    let mut state = make_state();
    let err = state.materialize_result("absent".to_string()).unwrap_err();
    assert_eq!(err.code, error_codes::NAMED_RESULT_NOT_FOUND);
}

#[test]
fn materialize_already_materialized_rejected() {
    let mut state = make_state();
    let h = state.insert_result("foo".to_string(), vec![]).handle;
    state.save_result(h, "named".to_string()).unwrap();
    state.materialize_result("named".to_string()).unwrap();
    let err = state.materialize_result("named".to_string()).unwrap_err();
    assert_eq!(err.code, error_codes::RESULT_ALREADY_MATERIALIZED);
}

#[test]
fn materialize_sets_materialized_at_and_preserves_created_at() {
    let mut state = make_state();
    let h = state.insert_result("foo".to_string(), vec![]).handle;
    state.save_result(h.clone(), "named".to_string()).unwrap();

    let created_at_before = state.result_entry(&h).unwrap().1.created_at.clone();
    assert!(state.result_entry(&h).unwrap().1.materialized_at.is_none());

    let (metadata, _) = state.materialize_result("named".to_string()).unwrap();
    assert_eq!(metadata.created_at, created_at_before);
    assert!(metadata.materialized_at.is_some());
    assert!(!metadata.materialized_at.as_ref().unwrap().is_empty());
}

#[test]
fn delete_named_removes_handle_and_table_entry() {
    let mut state = make_state();
    let h = state.insert_result("foo".to_string(), vec![]).handle;
    state.save_result(h.clone(), "named".to_string()).unwrap();
    assert!(state.result_entry(&h).is_some());

    state.delete_named("named").unwrap();
    assert!(state.result_entry(&h).is_none());
    assert!(state.list_named().is_empty());
}

#[test]
fn delete_named_unknown_rejected() {
    let mut state = make_state();
    let err = state.delete_named("absent").unwrap_err();
    assert_eq!(err.code, error_codes::NAMED_RESULT_NOT_FOUND);
}

#[test]
fn discard_handle_session_form_removed() {
    let mut state = make_state();
    let h = state.insert_result("foo".to_string(), vec![]).handle;
    assert!(state.result_entry(&h).is_some());

    state.discard_handle(&h);
    assert!(state.result_entry(&h).is_none());
}

#[test]
fn discard_handle_named_is_no_op() {
    let mut state = make_state();
    let h = state.insert_result("foo".to_string(), vec![]).handle;
    state.save_result(h.clone(), "named".to_string()).unwrap();

    state.discard_handle(&h);
    assert!(state.result_entry(&h).is_some());
    assert_eq!(state.list_named().len(), 1);
}

#[test]
fn insert_result_with_records_metadata() {
    let mut state = make_state();
    let m = state.insert_result_with("q".to_string(), vec![], "r-fixed".to_string(), "2024-01-01T00:00:00Z".to_string());
    assert_eq!(m.handle, "r-fixed");
    assert_eq!(m.query, "q");
    assert_eq!(m.hit_count, 0);
    assert_eq!(m.corpus_id, "corpus0000000000");
    assert!(m.name.is_none());
    let (hits, meta) = state.result_entry("r-fixed").unwrap();
    assert!(hits.is_empty());
    assert_eq!(meta.created_at, "2024-01-01T00:00:00Z");
}

#[test]
fn save_persists_and_replay_restores_named_record() {
    let mut state = make_state();
    let h = state.insert_result("[word=\"x\"]".to_string(), vec![]).handle;
    state.save_result(h.clone(), "keep".to_string()).unwrap();
    let records = state.named_entries();
    assert_eq!(records.len(), 1);
    assert_eq!(records[0].0, "keep");
    assert_eq!(records[0].1.handle, h);
    assert_eq!(records[0].1.cql, "[word=\"x\"]");

    let mut fresh = make_state();
    fresh.replay_named_results(records);
    assert_eq!(fresh.list_named().len(), 1);
    assert_eq!(fresh.list_named()[0].name.as_deref(), Some("keep"));
}

#[test]
fn delete_persists_removal_and_replay_omits_it() {
    let mut state = make_state();
    let h1 = state.insert_result("a".to_string(), vec![]).handle;
    let h2 = state.insert_result("b".to_string(), vec![]).handle;
    state.save_result(h1, "one".to_string()).unwrap();
    state.save_result(h2, "two".to_string()).unwrap();
    let planned = state.plan_delete("one").unwrap();
    assert_eq!(planned.len(), 1);
    assert_eq!(planned[0].0, "two");
    state.delete_named("one").unwrap();
    let records = state.named_entries();
    assert_eq!(records.len(), 1);
    let mut fresh = make_state();
    fresh.replay_named_results(records);
    let names: Vec<String> = fresh.list_named().into_iter().filter_map(|m| m.name).collect();
    assert_eq!(names, vec!["two".to_string()]);
}

#[test]
fn event_names_and_server_version() {
    assert_eq!(RosterEvent::Registered.as_str(), "registered");
    assert_eq!(RosterEvent::Unregistered.as_str(), "unregistered");
    assert_eq!(RosterEvent::LabelUpdated.as_str(), "label_updated");
    assert_eq!(NamedResultsEvent::Saved.as_str(), "saved");
    assert_eq!(NamedResultsEvent::Deleted.as_str(), "deleted");
    assert_eq!(server_version(), "0.1.0");
}

#[test]
fn idle_timeout_shutdown_names_its_reason() {
    let mut state = make_state();
    state.set_idle_timeout(Some(10));
    let out = state.check_idle_timeout(10).unwrap();
    match out.notification {
        Notification::Shutdown { reason, in_seconds } => {
            assert_eq!(reason, ShutdownReason::IdleTimeout);
            assert_eq!(in_seconds, 0);
        }
        other => panic!("unexpected notification {:?}", other),
    }
}

fn stored_meta(handle: &str, name: Option<&str>, query: &str) -> ResultMetadata {
    ResultMetadata {
        handle: handle.to_string(),
        query: query.to_string(),
        created_at: "2024-01-01T00:00:00Z".to_string(),
        materialized_at: None,
        hit_count: 3,
        corpus_id: "corpus0000000000".to_string(),
        name: name.map(|n| n.to_string()),
        form: ResultForm::QueryBacked,
    }
}

#[test]
fn named_lines_keep_named_entries_and_last_wins_on_replay() {
    let lines = vec![
        None,
        Some(stored_meta("r-1", Some("a"), "[word=\"x\"]")),
        Some(stored_meta("r-2", None, "[word=\"y\"]")),
        Some(stored_meta("r-3", Some("b"), "[word=\"z\"]")),
        Some(stored_meta("r-4", Some("a"), "[word=\"w\"]")),
    ];
    let records = named_records_from_lines(lines);
    let names: Vec<&str> = records.iter().map(|(n, _)| n.as_str()).collect();
    assert_eq!(names, vec!["a", "b", "a"]);
    assert_eq!(records[0].1.handle, "r-1");
    assert_eq!(records[0].1.cql, "[word=\"x\"]");
    assert_eq!(records[0].1.hit_count, 3);

    let mut state = make_state();
    state.replay_named_results(records);
    let listed = state.list_named();
    assert_eq!(listed.len(), 2);
    let a = listed.iter().find(|m| m.name.as_deref() == Some("a")).unwrap();
    assert_eq!(a.handle, "r-4");
    assert_eq!(a.query, "[word=\"w\"]");
}

#[test]
fn persisted_named_results_read_back() {
    let records = vec![
        ("a".to_string(), montre::state::NamedResultRecord {
            handle: "r-1".to_string(), cql: "[word=\"x\"]".to_string(), hit_count: 3, created_at: "t1".to_string() }),
        ("b".to_string(), montre::state::NamedResultRecord {
            handle: "r-2".to_string(), cql: "[word=\"y\"]".to_string(), hit_count: 0, created_at: "t2".to_string() }),
    ];
    let lines = persisted_lines("corpus0000000000", &records);
    assert_eq!(lines.len(), 2);
    assert_eq!(lines[0].form, ResultForm::QueryBacked);
    assert_eq!(lines[0].corpus_id, "corpus0000000000");
    assert!(lines[0].materialized_at.is_none());
    let back = named_records_from_lines(lines.into_iter().map(Some).collect());
    assert_eq!(back.len(), 2);
    for ((n1, r1), (n2, r2)) in back.iter().zip(records.iter()) {
        assert_eq!(n1, n2);
        assert_eq!((&r1.handle, &r1.cql, r1.hit_count, &r1.created_at), (&r2.handle, &r2.cql, r2.hit_count, &r2.created_at));
    }
    assert!(named_records_from_lines(persisted_lines("c", &vec![]).into_iter().map(Some).collect()).is_empty());
}

use montre::daemon::{idle_timeout_from_secs, next_epoch, EpochError};
use montre::ids::{derive_corpus_id, derive_socket_filename, hex_digest_prefix};

#[test]
fn socket_filename_format() {
    let name = derive_socket_filename(b"/some/canonical/path");
    assert!(name.ends_with(".sock"));
    let stem = &name[..name.len() - ".sock".len()];
    assert_eq!(stem.len(), 16);
    assert!(stem.chars().all(|c| c.is_ascii_hexdigit()));
}

#[test]
fn socket_filename_deterministic() {
    let path = b"/some/canonical/path";
    assert_eq!(derive_socket_filename(path), derive_socket_filename(path));
}

#[test]
fn socket_filename_distinct_for_distinct_paths() {
    let a = derive_socket_filename(b"/path/one");
    let b = derive_socket_filename(b"/path/two");
    assert_ne!(a, b);
}

#[test]
fn corpus_id_format() {
    let id = derive_corpus_id(b"/some/path");
    assert_eq!(id.len(), 16);
    assert!(id.chars().all(|c| c.is_ascii_hexdigit()));
}

#[test]
fn corpus_id_distinct_for_distinct_paths() {
    let a = derive_corpus_id(b"/path/one");
    let b = derive_corpus_id(b"/path/two");
    assert_ne!(a, b);
}

#[test]
fn corpus_id_of_empty_path_is_blake3_prefix() {
    // BLAKE3 of the empty input starts with af1349b9f5f9a1a6.
    assert_eq!(derive_corpus_id(b""), "af1349b9f5f9a1a6");
    assert_eq!(derive_socket_filename(b""), "af1349b9f5f9a1a6.sock");
}

#[test]
fn socket_filename_is_corpus_id_with_suffix() {
    let p = b"/data/corpora/ud-en";
    assert_eq!(derive_socket_filename(p), format!("{}.sock", derive_corpus_id(p)));
}

#[test]
fn hex_prefix_of_digest_bytes() {
    let digest = [0x00u8, 0x0f, 0xa5, 0xff, 0x12];
    assert_eq!(hex_digest_prefix(&digest, 8), "000fa5ff");
    assert_eq!(hex_digest_prefix(&digest, 9), "000fa5ff");
    assert_eq!(hex_digest_prefix(&digest, 0), "");
}

#[test]
fn epoch_starts_at_one_and_resumes() {
    assert!(matches!(next_epoch(None), Ok(1)));
    assert!(matches!(next_epoch(Some("16")), Ok(17)));
    assert!(matches!(next_epoch(Some(" 16\n")), Ok(17)));
    assert!(matches!(next_epoch(Some("+2")), Ok(3)));
}

#[test]
fn epoch_rejects_corrupted_text() {
    let msg = |t: &str| match next_epoch(Some(t)) {
        Err(EpochError::InvalidInteger(m)) => m,
        other => panic!("unexpected {:?}", other),
    };
    assert_eq!(msg("not-a-number"), "epoch file contains invalid integer: invalid digit found in string");
    assert_eq!(msg("  "), "epoch file contains invalid integer: cannot parse integer from empty string");
    assert_eq!(msg("99999999999999999999"), "epoch file contains invalid integer: number too large to fit in target type");
    assert!(matches!(next_epoch(Some("18446744073709551615")), Err(EpochError::Overflow)));
}

#[test]
fn idle_timeout_zero_disables() {
    assert_eq!(idle_timeout_from_secs(0), None);
    assert_eq!(idle_timeout_from_secs(300), Some(300));
}

//! The daemon's entry points as data: how it is started, how it fails, what its clients are
//! told, and which handler a request method goes to.
use vstd::prelude::*;
use crate::formats::IndexError;
use crate::protocol::error_codes::{METHOD_NOT_FOUND, NOT_REGISTERED};
use crate::protocol::{Interest, ProcessInfo, ProtocolError, ResultMetadata};
use crate::text::{concat, str_eq, chars_of};
use crate::chars::{all_digits, is_digit, parse_unsigned, trim, trim_chars, unsigned_text};

verus! {

/// How to start the daemon: the corpus, where to listen, and how long to wait idle (in
/// milliseconds) before shutting down.
#[derive(Debug)]
pub struct ServeOptions {
    pub corpus_path: String,
    pub socket_path: Option<String>,
    pub idle_timeout_ms: Option<u64>,
}

/// Why the daemon could not run.
#[derive(Debug)]
pub enum DaemonError {
    NotImplemented,
    CorpusLoad(IndexError),
    Io(String),
}

/// A notification as a client receives it.
#[derive(Debug)]
pub enum NotificationEnvelope {
    AnchorUpdate { anchor_id: u32, interest: Interest },
    RosterChanged { event: String, process: ProcessInfo },
    NamedResultsChanged { event: String, name: String, metadata: Option<ResultMetadata> },
    Shutdown { reason: String, in_seconds: u32 },
}

/// The request methods the daemon answers.
#[derive(Clone, Copy, Debug, PartialEq, Eq, Structural)]
pub enum Method {
    SessionRegister,
    SessionUnregister,
    SessionUpdateLabel,
    SessionRoster,
    CorpusInfo,
    CorpusDocuments,
    CorpusLayerInfo,
    TextSurface,
    TextSentence,
    TextSentences,
    TextDocument,
    TextAnnotations,
    TextAnnotationsRange,
    AlignmentList,
    AlignmentProject,
    QueryExecute,
    QueryExecuteCount,
    QueryHits,
    QueryMetadata,
    QuerySave,
    QueryMaterialize,
    QueryLoad,
    QueryListNamed,
    QueryDeleteNamed,
    QueryDiscard,
    AnchorCreate,
    AnchorRemove,
    AnchorList,
    SubscriptionSubscribe,
    SubscriptionUnsubscribe,
    DaemonShutdown,
}

/// The wire name of each method.
pub open spec fn method_table() -> Seq<(Seq<char>, Method)> {
    seq![
        ("session.register"@, Method::SessionRegister),
        ("session.unregister"@, Method::SessionUnregister),
        ("session.update_label"@, Method::SessionUpdateLabel),
        ("session.roster"@, Method::SessionRoster),
        ("corpus.info"@, Method::CorpusInfo),
        ("corpus.documents"@, Method::CorpusDocuments),
        ("corpus.layer_info"@, Method::CorpusLayerInfo),
        ("text.surface"@, Method::TextSurface),
        ("text.sentence"@, Method::TextSentence),
        ("text.sentences"@, Method::TextSentences),
        ("text.document"@, Method::TextDocument),
        ("text.annotations"@, Method::TextAnnotations),
        ("text.annotations_range"@, Method::TextAnnotationsRange),
        ("alignment.list"@, Method::AlignmentList),
        ("alignment.project"@, Method::AlignmentProject),
        ("query.execute"@, Method::QueryExecute),
        ("query.execute_count"@, Method::QueryExecuteCount),
        ("query.hits"@, Method::QueryHits),
        ("query.metadata"@, Method::QueryMetadata),
        ("query.save"@, Method::QuerySave),
        ("query.materialize"@, Method::QueryMaterialize),
        ("query.load"@, Method::QueryLoad),
        ("query.list_named"@, Method::QueryListNamed),
        ("query.delete_named"@, Method::QueryDeleteNamed),
        ("query.discard"@, Method::QueryDiscard),
        ("coupler.create"@, Method::AnchorCreate),
        ("coupler.remove"@, Method::AnchorRemove),
        ("coupler.list"@, Method::AnchorList),
        ("subscription.subscribe"@, Method::SubscriptionSubscribe),
        ("subscription.unsubscribe"@, Method::SubscriptionUnsubscribe),
        ("daemon.shutdown"@, Method::DaemonShutdown)
    ]
}

/// The method of the first table entry named `name`.
pub open spec fn method_named(name: Seq<char>) -> Option<Method> {
    let i = crate::forward::first_index_of(method_table().map_values(|e: (Seq<char>, Method)| e.0), name);
    if i >= 0 { Some(method_table()[i].1) } else { None }
}

/// The wire names of the methods, in table order.
fn method_names() -> (r: Vec<(&'static str, Method)>)
    ensures
        r@.map_values(|e: (&'static str, Method)| (e.0@, e.1)) == method_table(),
{
    let r: Vec<(&'static str, Method)> = vec![
        ("session.register", Method::SessionRegister),
        ("session.unregister", Method::SessionUnregister),
        ("session.update_label", Method::SessionUpdateLabel),
        ("session.roster", Method::SessionRoster),
        ("corpus.info", Method::CorpusInfo),
        ("corpus.documents", Method::CorpusDocuments),
        ("corpus.layer_info", Method::CorpusLayerInfo),
        ("text.surface", Method::TextSurface),
        ("text.sentence", Method::TextSentence),
        ("text.sentences", Method::TextSentences),
        ("text.document", Method::TextDocument),
        ("text.annotations", Method::TextAnnotations),
        ("text.annotations_range", Method::TextAnnotationsRange),
        ("alignment.list", Method::AlignmentList),
        ("alignment.project", Method::AlignmentProject),
        ("query.execute", Method::QueryExecute),
        ("query.execute_count", Method::QueryExecuteCount),
        ("query.hits", Method::QueryHits),
        ("query.metadata", Method::QueryMetadata),
        ("query.save", Method::QuerySave),
        ("query.materialize", Method::QueryMaterialize),
        ("query.load", Method::QueryLoad),
        ("query.list_named", Method::QueryListNamed),
        ("query.delete_named", Method::QueryDeleteNamed),
        ("query.discard", Method::QueryDiscard),
        ("coupler.create", Method::AnchorCreate),
        ("coupler.remove", Method::AnchorRemove),
        ("coupler.list", Method::AnchorList),
        ("subscription.subscribe", Method::SubscriptionSubscribe),
        ("subscription.unsubscribe", Method::SubscriptionUnsubscribe),
        ("daemon.shutdown", Method::DaemonShutdown),
    ];
    proof { assert(r@.map_values(|e: (&'static str, Method)| (e.0@, e.1)) =~= method_table()); }
    r
}

/// The handler a request goes to. Refused when the connection has not registered and the
/// method is not `session.register`, or when no method has that name.
pub fn route(method: &str, registered: bool) -> (r: Result<Method, ProtocolError>)
    ensures
        !registered && method@ != "session.register"@ ==> (r matches Err(e) && e.code == NOT_REGISTERED),
        registered || method@ == "session.register"@ ==> match method_named(method@) {
            Some(m) => r == Ok::<Method, ProtocolError>(m),
            None => r matches Err(e) && e.code == METHOD_NOT_FOUND && e.message@ == "Method not found: "@ + method@,
        },
{
    if !registered && !str_eq(method, "session.register") {
        return Err(ProtocolError::with_text(NOT_REGISTERED, "session.register must be the first call on a connection"));
    }
    let table = method_names();
    let ghost names = method_table().map_values(|e: (Seq<char>, Method)| e.0);
    let mut i: usize = 0;
    while i < table.len()
        invariant
            0 <= i <= table@.len(),
            table@.map_values(|e: (&'static str, Method)| (e.0@, e.1)) == method_table(),
            names == method_table().map_values(|e: (Seq<char>, Method)| e.0),
            forall|k: int| 0 <= k < i ==> names[k] != method@,
            registered || method@ == "session.register"@,
        decreases table@.len() - i,
    {
        proof {
            assert(method_table()[i as int] == (table@[i as int].0@, table@[i as int].1));
            assert(names[i as int] == table@[i as int].0@);
        }
        if str_eq(table[i].0, method) {
            proof { crate::forward::lemma_first_index_of(names, method@, i as int); }
            return Ok(table[i].1);
        }
        i = i + 1;
    }
    proof { crate::forward::lemma_first_index_absent(names, method@); }
    Err(ProtocolError::new(METHOD_NOT_FOUND, concat("Method not found: ", method)))
}

/// Why the epoch counter could not be advanced.
#[derive(Debug)]
pub enum EpochError {
    /// The stored text is not an unsigned 64-bit integer; the message says why.
    InvalidInteger(String),
    /// The stored epoch is the largest there is.
    Overflow,
}

/// What Rust's integer parsing says of text `t` that is not an unsigned 64-bit integer.
pub open spec fn integer_error_text(t: Seq<char>) -> Seq<char> {
    if t.len() == 0 {
        "cannot parse integer from empty string"@
    } else if unsigned_text(t) is None {
        "invalid digit found in string"@
    } else {
        "number too large to fit in target type"@
    }
}

/// The next epoch, given what the epoch file holds (`None` when there is no file): one more
/// than the number it holds once trimmed, or 1 when there is none.
pub open spec fn next_epoch_spec(content: Option<Seq<char>>) -> Result<nat, Option<Seq<char>>> {
    match content {
        None => Ok(1),
        Some(t) => match unsigned_text(trim(t)) {
            Some(n) if n < u64::MAX => Ok(n + 1),
            Some(n) if n == u64::MAX => Err(None),
            _ => Err(Some("epoch file contains invalid integer: "@ + integer_error_text(trim(t)))),
        },
    }
}

/// Advances the epoch counter whose file holds `content` (`None` when there is no file yet):
/// the new epoch, which is also what the file is to hold next, written in decimal.
pub fn next_epoch(content: Option<&str>) -> (r: Result<u64, EpochError>)
    ensures
        match next_epoch_spec(match content { Some(t) => Some(t@), None => None }) {
            Ok(n) => r == Ok::<u64, EpochError>(n as u64),
            Err(None) => r matches Err(EpochError::Overflow),
            Err(Some(m)) => r matches Err(EpochError::InvalidInteger(msg)) && msg@ == m,
        },
{
    let text = match content {
        None => return Ok(1),
        Some(t) => t,
    };
    let chars = chars_of(text);
    let t = trim_chars(chars.as_slice());
    match parse_unsigned(t.as_slice(), u64::MAX) {
        Some(n) => {
            if n == u64::MAX {
                Err(EpochError::Overflow)
            } else {
                Ok(n + 1)
            }
        },
        None => {
            let why = if t.len() == 0 {
                "cannot parse integer from empty string"
            } else if !looks_unsigned(t.as_slice()) {
                "invalid digit found in string"
            } else {
                "number too large to fit in target type"
            };
            Err(EpochError::InvalidInteger(concat("epoch file contains invalid integer: ", why)))
        },
    }
}

/// Whether `s` is unsigned decimal text with an optional `+`, whatever its size.
fn looks_unsigned(s: &[char]) -> (r: bool)
    ensures
        r == unsigned_text(s@) is Some,
{
    let start: usize = if s.len() > 0 && s[0] == '+' { 1 } else { 0 };
    if start >= s.len() {
        return false;
    }
    let mut i = start;
    while i < s.len()
        invariant
            start <= i <= s@.len(),
            start < s@.len(),
            start == (if s@.len() > 0 && s@[0] == '+' { 1usize } else { 0usize }),
            forall|k: int| start <= k < i ==> is_digit(#[trigger] s@[k]),
        decreases s@.len() - i,
    {
        if !(s[i] >= '0' && s[i] <= '9') {
            proof {
                assert(!is_digit(s@[i as int]));
                if start == 1 {
                    assert(s@.drop_first()[i - 1] == s@[i as int]);
                    assert(!all_digits(s@.drop_first()));
                } else {
                    assert(!all_digits(s@));
                }
            }
            return false;
        }
        i = i + 1;
    }
    proof {
        if start == 1 {
            assert forall|k: int| 0 <= k < s@.drop_first().len() implies is_digit(#[trigger] s@.drop_first()[k]) by {
                assert(s@.drop_first()[k] == s@[k + 1]);
            }
        }
    }
    true
}

/// The idle shutdown delay for `--idle-timeout` given in seconds: none for 0, which turns
/// idle shutdown off.
pub fn idle_timeout_from_secs(secs: u64) -> (r: Option<u64>)
    ensures
        r == (if secs == 0 { None } else { Some(secs) }),
{
    if secs == 0 { None } else { Some(secs) }
}

} // verus!

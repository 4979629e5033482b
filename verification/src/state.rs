//! The daemon's session state: who is connected, how processes are anchored to each other,
//! which notifications go where, and the table of query results.
use vstd::prelude::*;
use crate::graph::{has_cycle, reachable, reaches, is_path, step_ok, has_edge, lemma_add_edge_keeps_acyclic};
use crate::protocol::{
    Anchor, AnchorId, AnchorKind, Capabilities, Hit, Interest, InterestKind, ProcessId, ProcessInfo,
    ProtocolError, RegisterParams, RegisterReply, ResultForm, ResultHandle, ResultMetadata, RosterFilter,
    ShutdownReason, Topic, ErrorData, PROTOCOL_VERSION, anchor_kind_compat, anchor_compatible,
    anchor_kind_names, filter_matches, same_interest, same_anchor_kind,
};
use crate::protocol::error_codes;
use crate::text::{concat, u64_to_decimal, str_eq, to_owned_string};

pub mod results;
pub mod interest;

verus! {

/// The version string the daemon reports.
pub fn server_version() -> (r: &'static str)
    ensures
        r@ == "0.1.0"@,
{
    "0.1.0"
}

/// A named result as it is persisted: enough to run its query again.
#[derive(Debug)]
pub struct NamedResultRecord {
    pub handle: ResultHandle,
    pub cql: String,
    pub hit_count: u64,
    pub created_at: String,
}

/// A stored query result.
#[derive(Debug)]
pub struct ResultEntry {
    pub cql: String,
    pub hits: Vec<Hit>,
    pub metadata: ResultMetadata,
}

/// The answer to loading a named result.
#[derive(Debug)]
pub enum LoadOutcome {
    /// The result is in the table.
    Realized(ResultMetadata),
    /// The result must be computed again from its query.
    Pending { handle: ResultHandle, cql: String, created_at: String },
}

#[derive(Clone, Copy, Debug, PartialEq, Eq, Structural)]
pub enum RosterEvent {
    Registered,
    Unregistered,
    LabelUpdated,
}

impl RosterEvent {
    /// The event's name on the wire.
    pub fn as_str(self) -> (r: &'static str)
        ensures
            r@ == match self {
                RosterEvent::Registered => "registered"@,
                RosterEvent::Unregistered => "unregistered"@,
                RosterEvent::LabelUpdated => "label_updated"@,
            },
    {
        match self {
            RosterEvent::Registered => "registered",
            RosterEvent::Unregistered => "unregistered",
            RosterEvent::LabelUpdated => "label_updated",
        }
    }
}

#[derive(Clone, Copy, Debug, PartialEq, Eq, Structural)]
pub enum NamedResultsEvent {
    Saved,
    Deleted,
}

impl NamedResultsEvent {
    /// The event's name on the wire.
    pub fn as_str(self) -> (r: &'static str)
        ensures
            r@ == match self {
                NamedResultsEvent::Saved => "saved"@,
                NamedResultsEvent::Deleted => "deleted"@,
            },
    {
        match self {
            NamedResultsEvent::Saved => "saved",
            NamedResultsEvent::Deleted => "deleted",
        }
    }
}

/// A notification the daemon sends.
#[derive(Debug)]
pub enum Notification {
    RosterChanged { event: RosterEvent, process: ProcessInfo },
    NamedResultsChanged { event: NamedResultsEvent, name: String, metadata: Option<ResultMetadata> },
    AnchorUpdate { anchor_id: AnchorId, interest: Interest },
    Shutdown { reason: ShutdownReason, in_seconds: u32 },
}

/// A notification and the processes it goes to.
#[derive(Debug)]
pub struct Outgoing {
    pub recipients: Vec<ProcessId>,
    pub notification: Notification,
}

/// The (master, follower) pairs of a list of anchors.
pub open spec fn anchor_edges(a: Seq<Anchor>) -> Seq<(u32, u32)> {
    a.map_values(|x: Anchor| (x.master, x.follower))
}

/// The ids of a list of processes.
pub open spec fn process_ids(r: Seq<ProcessInfo>) -> Seq<u32> {
    r.map_values(|p: ProcessInfo| p.id)
}

/// The ids of a list of anchors.
pub open spec fn anchor_ids(a: Seq<Anchor>) -> Seq<u32> {
    a.map_values(|x: Anchor| x.id)
}

/// The anchors of `a` that touch neither end at `pid`, in order.
pub open spec fn anchors_without(a: Seq<Anchor>, pid: u32) -> Seq<Anchor> {
    a.filter(|x: Anchor| x.master != pid && x.follower != pid)
}

/// The members of `subs` that are among `ids`, in order.
pub open spec fn registered_only(subs: Seq<u32>, ids: Seq<u32>) -> Seq<u32>
    decreases subs.len(),
{
    if subs.len() == 0 {
        Seq::empty()
    } else {
        let rest = registered_only(subs.drop_last(), ids);
        if ids.contains(subs.last()) { rest.push(subs.last()) } else { rest }
    }
}

/// What `registered_only` keeps is among both lists.
pub proof fn lemma_registered_only(subs: Seq<u32>, ids: Seq<u32>)
    ensures
        registered_only(subs, ids).to_set().subset_of(subs.to_set()),
        forall|k: int| 0 <= k < registered_only(subs, ids).len() ==> ids.contains(#[trigger] registered_only(subs, ids)[k]),
    decreases subs.len(),
{
    if subs.len() > 0 {
        lemma_registered_only(subs.drop_last(), ids);
        let rest = registered_only(subs.drop_last(), ids);
        let r = registered_only(subs, ids);
        assert forall|x: u32| r.to_set().contains(x) implies subs.to_set().contains(x) by {
            let k = choose|k: int| 0 <= k < r.len() && r[k] == x;
            if k < rest.len() {
                assert(rest[k] == x);
                assert(rest.to_set().contains(x));
                let q = choose|q: int| 0 <= q < subs.drop_last().len() && subs.drop_last()[q] == x;
                assert(subs[q] == x);
            } else {
                assert(subs[subs.len() - 1] == x);
            }
        }
        assert forall|k: int| 0 <= k < r.len() implies ids.contains(#[trigger] r[k]) by {
            if k < rest.len() {
                assert(rest[k] == r[k]);
            }
        }
    }
}

/// The session state of the daemon.
#[derive(Debug)]
pub struct State {
    daemon_epoch: u64,
    corpus_id: String,
    roster: Vec<ProcessInfo>,
    anchors: Vec<Anchor>,
    roster_subscribers: Vec<ProcessId>,
    named_subscribers: Vec<ProcessId>,
    named_results: Vec<(String, NamedResultRecord)>,
    results: Vec<ResultEntry>,
    idle_timeout_ms: Option<u64>,
    roster_emptied_at: Option<u64>,
    next_process_id: ProcessId,
    next_anchor_id: AnchorId,
    shutting_down: bool,
}

impl State {
    /// The ids of the registered processes.
    pub closed spec fn ids(&self) -> Seq<u32> {
        process_ids(self.roster@)
    }

    /// The anchors, in creation order.
    pub closed spec fn anchor_list(&self) -> Seq<Anchor> {
        self.anchors@
    }

    /// The anchor graph: an edge from each master to its follower.
    pub open spec fn edges(&self) -> Seq<(u32, u32)> {
        anchor_edges(self.anchor_list())
    }

    /// The subscribers of a topic.
    pub closed spec fn subscribers(&self, topic: Topic) -> Seq<u32> {
        match topic {
            Topic::RosterChanged => self.roster_subscribers@,
            Topic::NamedResultsChanged => self.named_subscribers@,
        }
    }

    /// The names of the named results.
    pub closed spec fn named(&self) -> Seq<Seq<char>> {
        self.named_results@.map_values(|e: (String, NamedResultRecord)| e.0@)
    }

    /// The handles in the result table.
    pub closed spec fn handles(&self) -> Seq<Seq<char>> {
        self.results@.map_values(|e: ResultEntry| e.metadata.handle@)
    }

    /// The form of the result stored under handle position `i`.
    pub closed spec fn form_at(&self, i: int) -> ResultForm {
        self.results@[i].metadata.form
    }

    /// The epoch this daemon run was started with.
    pub closed spec fn epoch(&self) -> u64 {
        self.daemon_epoch
    }

    /// The next process id to be handed out.
    pub closed spec fn next_id(&self) -> u32 {
        self.next_process_id
    }

    /// The next anchor id to be handed out.
    pub closed spec fn next_anchor(&self) -> u32 {
        self.next_anchor_id
    }

    /// Shutdown has begun.
    pub closed spec fn is_shutting_down(&self) -> bool {
        self.shutting_down
    }

    /// The time at which the roster last became empty, if it is empty.
    pub closed spec fn emptied_at(&self) -> Option<u64> {
        self.roster_emptied_at
    }

    /// The idle timeout, in milliseconds, if one is set.
    pub closed spec fn idle_timeout(&self) -> Option<u64> {
        self.idle_timeout_ms
    }

    /// `self` is `old` with only its idle timeout changed.
    pub closed spec fn same_but_timeout(&self, old: &State) -> bool {
        *self == State { idle_timeout_ms: self.idle_timeout_ms, ..*old }
    }

    /// The roster has been empty for at least the idle timeout at time `now`.
    pub open spec fn idle_due(&self, now: u64) -> bool {
        &&& self.idle_timeout() matches Some(t)
        &&& self.emptied_at() matches Some(e)
        &&& now >= e
        &&& now - e >= t
    }

    /// Internal consistency: ids, anchor ids, names and handles are unique; every anchor joins
    /// two registered processes; the anchor graph has no cycle.
    pub closed spec fn wf(&self) -> bool {
        &&& process_ids(self.roster@).no_duplicates()
        &&& anchor_ids(self.anchors@).no_duplicates()
        &&& self.named().no_duplicates()
        &&& self.handles().no_duplicates()
        &&& self.roster_subscribers@.no_duplicates()
        &&& self.named_subscribers@.no_duplicates()
        &&& forall|i: int| 0 <= i < self.anchors@.len() ==> process_ids(self.roster@).contains(#[trigger] self.anchors@[i].master)
            && process_ids(self.roster@).contains(self.anchors@[i].follower)
        &&& !has_cycle(anchor_edges(self.anchors@))
    }

    /// In a well-formed state the anchors form no cycle: no process follows itself, however
    /// far the updates are passed on.
    pub proof fn lemma_anchors_acyclic(&self)
        requires
            self.wf(),
        ensures
            !has_cycle(self.edges()),
    {
    }

    /// A fresh state: nobody registered, the roster counted as empty since `now`.
    pub fn new(daemon_epoch: u64, corpus_id: String, now: u64) -> (s: Self)
        ensures
            s.wf(),
            s.ids() == Seq::<u32>::empty(),
            s.anchor_list() == Seq::<Anchor>::empty(),
            s.named() == Seq::<Seq<char>>::empty(),
            s.handles() == Seq::<Seq<char>>::empty(),
            s.next_id() == 1,
            s.emptied_at() == Some(now),
            !s.is_shutting_down(),
    {
        let s = State {
            daemon_epoch,
            corpus_id,
            roster: Vec::new(),
            anchors: Vec::new(),
            roster_subscribers: Vec::new(),
            named_subscribers: Vec::new(),
            named_results: Vec::new(),
            results: Vec::new(),
            idle_timeout_ms: None,
            roster_emptied_at: Some(now),
            next_process_id: 1,
            next_anchor_id: 1,
            shutting_down: false,
        };
        proof {
            assert(process_ids(s.roster@) =~= Seq::<u32>::empty());
            assert(anchor_ids(s.anchors@) =~= Seq::<u32>::empty());
            assert(s.named() =~= Seq::<Seq<char>>::empty());
            assert(s.handles() =~= Seq::<Seq<char>>::empty());
            assert(anchor_edges(s.anchors@) =~= Seq::<(u32, u32)>::empty());
            assert(!has_cycle(anchor_edges(s.anchors@))) by {
                if has_cycle(anchor_edges(s.anchors@)) {
                    let p = choose|p: Seq<u32>| #[trigger] is_path(anchor_edges(s.anchors@), p) && p.len() >= 2 && p[0] == p.last();
                    assert(step_ok(anchor_edges(s.anchors@), p, 0));
                }
            }
        }
        s
    }

    /// Sets (or clears) the idle timeout, in milliseconds.
    pub fn set_idle_timeout(&mut self, timeout_ms: Option<u64>)
        requires
            old(self).wf(),
        ensures
            final(self).wf(),
            final(self).idle_timeout() == timeout_ms,
            final(self).same_but_timeout(old(self)),
            final(self).ids() == old(self).ids(),
            final(self).anchor_list() == old(self).anchor_list(),
            final(self).emptied_at() == old(self).emptied_at(),
            final(self).is_shutting_down() == old(self).is_shutting_down(),
    {
        self.idle_timeout_ms = timeout_ms;
    }

    fn roster_index(&self, pid: ProcessId) -> (r: Option<usize>)
        ensures
            r matches Some(i) ==> i < self.roster@.len() && self.roster@[i as int].id == pid,
            r is None <==> !process_ids(self.roster@).contains(pid),
    {
        let mut i: usize = 0;
        while i < self.roster.len()
            invariant
                0 <= i <= self.roster@.len(),
                forall|j: int| 0 <= j < i ==> self.roster@[j].id != pid,
            decreases self.roster@.len() - i,
        {
            if self.roster[i].id == pid {
                proof { assert(process_ids(self.roster@)[i as int] == pid); }
                return Some(i);
            }
            i = i + 1;
        }
        proof {
            if process_ids(self.roster@).contains(pid) {
                let j = choose|j: int| 0 <= j < process_ids(self.roster@).len() && process_ids(self.roster@)[j] == pid;
                assert(self.roster@[j].id == pid);
            }
        }
        None
    }

    /// Whether `pid` is registered.
    pub fn is_registered(&self, pid: ProcessId) -> (r: bool)
        ensures
            r == self.ids().contains(pid),
    {
        self.roster_index(pid).is_some()
    }

    /// Registers a process under the next process id. A client of another protocol version is
    /// refused and nothing changes.
    pub fn register(&mut self, params: RegisterParams) -> (r: Result<(RegisterReply, Outgoing), ProtocolError>)
        requires
            old(self).wf(),
        ensures
            final(self).wf(),
            params.protocol_version != PROTOCOL_VERSION ==> r is Err && *final(self) == *old(self),
            r matches Err(e) ==> e.code == error_codes::PROTOCOL_VERSION_MISMATCH,
            params.protocol_version == PROTOCOL_VERSION ==> r is Ok,
            r matches Ok((reply, out)) ==> {
                &&& reply.process_id == old(self).next_id()
                &&& reply.protocol_version == PROTOCOL_VERSION
                &&& reply.daemon_epoch == old(self).epoch()
                &&& final(self).ids().to_set() == old(self).ids().to_set().insert(reply.process_id)
                &&& final(self).next_id() == (if old(self).next_id() == u32::MAX { 0 } else { old(self).next_id() + 1 })
                &&& final(self).anchor_list() == old(self).anchor_list()
                &&& final(self).emptied_at() is None
                &&& out.recipients@.to_set().subset_of(final(self).subscribers(Topic::RosterChanged).to_set())
                &&& out.notification matches Notification::RosterChanged { event, process }
                    && event == RosterEvent::Registered && process.id == reply.process_id
            },
            final(self).named() == old(self).named(),
            final(self).handles() == old(self).handles(),
    {
        if params.protocol_version != PROTOCOL_VERSION {
            let m1 = concat("client requested protocol version ", u64_to_decimal(params.protocol_version as u64).as_str());
            let m2 = concat(m1.as_str(), ", daemon supports ");
            let m3 = concat(m2.as_str(), u64_to_decimal(PROTOCOL_VERSION as u64).as_str());
            return Err(ProtocolError::new(error_codes::PROTOCOL_VERSION_MISMATCH, m3));
        }
        let process_id = self.next_process_id;
        self.next_process_id = self.next_process_id.wrapping_add(1);
        let info = ProcessInfo {
            id: process_id,
            kind: params.kind,
            label: params.label,
            provides: params.provides,
            consumes: params.consumes,
            current_interest: None,
        };
        let shown = clone_process_info(&info);
        let ghost before = self.roster@;
        match self.roster_index(process_id) {
            Some(i) => {
                self.roster.set(i, info);
                proof {
                    assert(process_ids(self.roster@) =~= process_ids(before).update(i as int, process_id));
                    assert(process_ids(before)[i as int] == process_id);
                    assert(process_ids(self.roster@) =~= process_ids(before));
                    assert(process_ids(before).to_set().contains(process_id));
                    assert(process_ids(before).to_set().insert(process_id) =~= process_ids(before).to_set());
                }
            },
            None => {
                self.roster.push(info);
                proof {
                    assert(process_ids(self.roster@) =~= process_ids(before).push(process_id));
                    process_ids(before).lemma_push_to_set_commute(process_id);
                }
            },
        }
        self.roster_emptied_at = None;
        let recipients = self.live_subscribers(Topic::RosterChanged);
        let out = Outgoing { recipients, notification: Notification::RosterChanged { event: RosterEvent::Registered, process: shown } };
        let reply = RegisterReply {
            process_id,
            server_version: to_owned_string(server_version()),
            protocol_version: PROTOCOL_VERSION,
            daemon_epoch: self.daemon_epoch,
            capabilities: Capabilities {
                observations: false,
                workspaces: false,
                anchor_kinds: kind_name_strings(),
            },
        };
        proof {
            assert(self.ids().to_set() =~= old(self).ids().to_set().insert(process_id));
            assert forall|i: int| 0 <= i < self.anchors@.len() implies process_ids(self.roster@).contains(#[trigger] self.anchors@[i].master)
                && process_ids(self.roster@).contains(self.anchors@[i].follower) by {
                assert(old(self).ids().contains(self.anchors@[i].master));
                assert(old(self).ids().contains(self.anchors@[i].follower));
                assert(self.ids().to_set().contains(self.anchors@[i].master));
                assert(self.ids().to_set().contains(self.anchors@[i].follower));
            }
            assert(self.named() == old(self).named());
            assert(self.handles() == old(self).handles());
        }
        Ok((reply, out))
    }

    /// The subscribers of `topic` that are registered, in subscription order.
    fn live_subscribers(&self, topic: Topic) -> (r: Vec<ProcessId>)
        ensures
            r@ == registered_only(self.subscribers(topic), self.ids()),
            r@.to_set().subset_of(self.subscribers(topic).to_set()),
            forall|k: int| 0 <= k < r@.len() ==> self.ids().contains(#[trigger] r@[k]),
    {
        let subs = match topic {
            Topic::RosterChanged => &self.roster_subscribers,
            Topic::NamedResultsChanged => &self.named_subscribers,
        };
        let mut r: Vec<ProcessId> = Vec::new();
        let mut i: usize = 0;
        proof { assert(subs@.subrange(0, 0) =~= Seq::<u32>::empty()); }
        while i < subs.len()
            invariant
                0 <= i <= subs@.len(),
                subs@ == self.subscribers(topic),
                r@ == registered_only(subs@.subrange(0, i as int), self.ids()),
            decreases subs@.len() - i,
        {
            proof {
                let t = subs@.subrange(0, i + 1);
                assert(t.drop_last() =~= subs@.subrange(0, i as int));
                assert(t.last() == subs@[i as int]);
            }
            if self.is_registered(subs[i]) {
                r.push(subs[i]);
            }
            i = i + 1;
        }
        proof {
            assert(subs@.subrange(0, i as int) =~= subs@);
            lemma_registered_only(subs@, self.ids());
        }
        r
    }

    /// Removes `pid` from the roster, drops every anchor that touches it and every subscription
    /// it holds. An unknown id changes nothing.
    pub fn unregister(&mut self, pid: ProcessId, now: u64) -> (r: Option<Outgoing>)
        requires
            old(self).wf(),
        ensures
            final(self).wf(),
            !old(self).ids().contains(pid) ==> r is None && *final(self) == *old(self),
            old(self).ids().contains(pid) ==> {
                &&& final(self).ids().to_set() == old(self).ids().to_set().remove(pid)
                &&& final(self).anchor_list() == anchors_without(old(self).anchor_list(), pid)
                &&& !final(self).subscribers(Topic::RosterChanged).contains(pid)
                &&& !final(self).subscribers(Topic::NamedResultsChanged).contains(pid)
                &&& (final(self).ids().len() == 0 ==> final(self).emptied_at() == Some(now))
                &&& (final(self).ids().len() != 0 ==> final(self).emptied_at() == old(self).emptied_at())
                &&& r matches Some(out) && out.notification matches Notification::RosterChanged { event, process }
                    && event == RosterEvent::Unregistered && process.id == pid
                &&& (r matches Some(out) ==> out.recipients@.to_set().subset_of(final(self).subscribers(Topic::RosterChanged).to_set()))
            },
            final(self).named() == old(self).named(),
            final(self).handles() == old(self).handles(),
            final(self).next_id() == old(self).next_id(),
    {
        let i = match self.roster_index(pid) {
            Some(i) => i,
            None => return None,
        };
        let ghost before = self.roster@;
        let info = self.roster.remove(i);
        proof {
            assert(process_ids(self.roster@) =~= process_ids(before).remove(i as int));
            assert forall|x: u32| #[trigger] process_ids(self.roster@).contains(x) <==> (process_ids(before).contains(x) && x != pid) by {
                if process_ids(self.roster@).contains(x) {
                    let k = choose|k: int| 0 <= k < process_ids(self.roster@).len() && process_ids(self.roster@)[k] == x;
                    if k < i { assert(process_ids(before)[k] == x); } else { assert(process_ids(before)[k + 1] == x); }
                    assert(process_ids(before)[i as int] == pid);
                }
                if process_ids(before).contains(x) && x != pid {
                    let k = choose|k: int| 0 <= k < process_ids(before).len() && process_ids(before)[k] == x;
                    if k < i { assert(process_ids(self.roster@)[k] == x); } else { assert(k != i); assert(process_ids(self.roster@)[k - 1] == x); }
                }
            }
            assert(self.ids().to_set() =~= old(self).ids().to_set().remove(pid));
        }
        self.drop_anchors_of(pid);
        self.roster_subscribers = remove_id(&self.roster_subscribers, pid);
        self.named_subscribers = remove_id(&self.named_subscribers, pid);
        if self.roster.len() == 0 {
            self.roster_emptied_at = Some(now);
        }
        let recipients = self.live_subscribers(Topic::RosterChanged);
        proof {
            assert(self.named() == old(self).named());
            assert(self.handles() == old(self).handles());
        }
        Some(Outgoing { recipients, notification: Notification::RosterChanged { event: RosterEvent::Unregistered, process: info } })
    }

    /// Drops every anchor that has `pid` at either end; `pid` is no longer registered.
    fn drop_anchors_of(&mut self, pid: ProcessId)
        requires
            !process_ids(old(self).roster@).contains(pid),
            anchor_ids(old(self).anchors@).no_duplicates(),
            !has_cycle(anchor_edges(old(self).anchors@)),
            forall|i: int| 0 <= i < old(self).anchors@.len() ==> (process_ids(old(self).roster@).contains(#[trigger] old(self).anchors@[i].master)
                || old(self).anchors@[i].master == pid)
                && (process_ids(old(self).roster@).contains(old(self).anchors@[i].follower) || old(self).anchors@[i].follower == pid),
        ensures
            final(self).roster@ == old(self).roster@,
            final(self).roster_subscribers@ == old(self).roster_subscribers@,
            final(self).named_subscribers@ == old(self).named_subscribers@,
            final(self).named_results@ == old(self).named_results@,
            final(self).results@ == old(self).results@,
            final(self).roster_emptied_at == old(self).roster_emptied_at,
            final(self).next_process_id == old(self).next_process_id,
            final(self).next_anchor_id == old(self).next_anchor_id,
            final(self).daemon_epoch == old(self).daemon_epoch,
            final(self).shutting_down == old(self).shutting_down,
            final(self).idle_timeout_ms == old(self).idle_timeout_ms,
            final(self).corpus_id == old(self).corpus_id,
            final(self).anchors@ == anchors_without(old(self).anchors@, pid),
            anchor_ids(final(self).anchors@).no_duplicates(),
            !has_cycle(anchor_edges(final(self).anchors@)),
            forall|i: int| 0 <= i < final(self).anchors@.len() ==> process_ids(final(self).roster@).contains(#[trigger] final(self).anchors@[i].master)
                && process_ids(final(self).roster@).contains(final(self).anchors@[i].follower),
    {
        let mut all: Vec<Anchor> = Vec::new();
        std::mem::swap(&mut all, &mut self.anchors);
        let ghost orig = all@;
        let mut rev: Vec<Anchor> = Vec::new();
        while all.len() > 0
            invariant
                rev@.len() + all@.len() == orig.len(),
                all@ == orig.subrange(0, all@.len() as int),
                forall|k: int| 0 <= k < rev@.len() ==> rev@[k] == orig[orig.len() - 1 - k],
            decreases all@.len(),
        {
            let x = all.pop().unwrap();
            rev.push(x);
            proof { assert(all@ =~= orig.subrange(0, all@.len() as int)); }
        }
        let ghost pred = |x: Anchor| x.master != pid && x.follower != pid;
        let mut kept: Vec<Anchor> = Vec::new();
        while rev.len() > 0
            invariant
                rev@.len() <= orig.len(),
                forall|k: int| 0 <= k < rev@.len() ==> rev@[k] == orig[orig.len() - 1 - k],
                kept@ == orig.subrange(0, orig.len() - rev@.len()).filter(pred),
                pred == |x: Anchor| x.master != pid && x.follower != pid,
            decreases rev@.len(),
        {
            let ghost done = orig.len() - rev@.len();
            let x = rev.pop().unwrap();
            proof {
                assert(x == orig[done]);
                assert(orig.subrange(0, done + 1) =~= orig.subrange(0, done).push(x));
                orig.subrange(0, done).lemma_filter_push(x, pred);
            }
            if x.master != pid && x.follower != pid {
                kept.push(x);
            }
        }
        proof {
            assert(orig.subrange(0, orig.len() as int) =~= orig);
            assert(kept@ == anchors_without(orig, pid));
            lemma_filter_subseq(orig, pred);
            let e1 = anchor_edges(orig);
            let e2 = anchor_edges(kept@);
            assert forall|k: int| 0 <= k < e2.len() implies has_edge(e1, #[trigger] e2[k].0, e2[k].1) by {
                let j = choose|j: int| 0 <= j < orig.len() && orig[j] == kept@[k];
                assert(e1[j] == e2[k]);
            }
            crate::graph::lemma_subgraph_no_cycle(e1, e2);
            assert forall|a: int, b: int| 0 <= a < b < kept@.len() implies anchor_ids(kept@)[a] != anchor_ids(kept@)[b] by {
                lemma_filter_order(orig, pred, a, b);
            }
            assert forall|k: int| 0 <= k < kept@.len() implies process_ids(old(self).roster@).contains(#[trigger] kept@[k].master)
                && process_ids(old(self).roster@).contains(kept@[k].follower) by {
                let j = choose|j: int| 0 <= j < orig.len() && orig[j] == kept@[k];
                assert(pred(kept@[k]));
            }
        }
        self.anchors = kept;
    }

    /// Sets the label of a registered process.
    #[verifier::spinoff_prover]
    pub fn update_label(&mut self, pid: ProcessId, label: Option<String>) -> (r: Result<Outgoing, ProtocolError>)
        requires
            old(self).wf(),
        ensures
            final(self).wf(),
            r is Err <==> !old(self).ids().contains(pid),
            r matches Err(e) ==> e.code == error_codes::PROCESS_NOT_FOUND && *final(self) == *old(self),
            final(self).ids() == old(self).ids(),
            final(self).anchor_list() == old(self).anchor_list(),
            r matches Ok(out) ==> out.notification matches Notification::RosterChanged { event, process }
                && event == RosterEvent::LabelUpdated && process.id == pid,
    {
        let i = match self.roster_index(pid) {
            Some(i) => i,
            None => return Err(ProtocolError::with_text(error_codes::PROCESS_NOT_FOUND, "process not found")),
        };
        let ghost before = self.roster@;
        let old_info = self.roster.remove(i);
        let info = ProcessInfo {
            id: old_info.id,
            kind: old_info.kind,
            label,
            provides: old_info.provides,
            consumes: old_info.consumes,
            current_interest: old_info.current_interest,
        };
        let shown = clone_process_info(&info);
        self.roster.insert(i, info);
        proof {
            assert(process_ids(self.roster@) =~= process_ids(before));
        }
        let recipients = self.live_subscribers(Topic::RosterChanged);
        Ok(Outgoing { recipients, notification: Notification::RosterChanged { event: RosterEvent::LabelUpdated, process: shown } })
    }

    /// The registered processes that pass the filter (all of them without a filter).
    pub fn roster_snapshot(&self, filter: Option<&RosterFilter>) -> (r: Vec<ProcessInfo>)
        ensures
            r@.len() <= self.ids().len(),
            forall|k: int| 0 <= k < r@.len() ==> self.ids().contains(#[trigger] r@[k].id),
            forall|k: int| 0 <= k < r@.len() ==> (filter matches Some(f) ==> filter_matches(*f, #[trigger] r@[k].kind, r@[k].provides@, r@[k].consumes@)),
            filter is None ==> process_ids(r@) == self.ids(),
    {
        let mut r: Vec<ProcessInfo> = Vec::new();
        let mut i: usize = 0;
        while i < self.roster.len()
            invariant
                0 <= i <= self.roster@.len(),
                r@.len() <= i,
                forall|k: int| 0 <= k < r@.len() ==> process_ids(self.roster@).contains(#[trigger] r@[k].id),
                forall|k: int| 0 <= k < r@.len() ==> (filter matches Some(f) ==> filter_matches(*f, #[trigger] r@[k].kind, r@[k].provides@, r@[k].consumes@)),
                filter is None ==> process_ids(r@) == process_ids(self.roster@).subrange(0, i as int),
            decreases self.roster@.len() - i,
        {
            let keep = match filter {
                None => true,
                Some(f) => f.matches(&self.roster[i]),
            };
            if keep {
                let c = clone_process_info(&self.roster[i]);
                proof { assert(process_ids(self.roster@)[i as int] == c.id); }
                r.push(c);
            }
            proof {
                if filter is None {
                    assert(process_ids(r@) =~= process_ids(self.roster@).subrange(0, i + 1));
                }
            }
            i = i + 1;
        }
        proof {
            assert(process_ids(self.roster@).subrange(0, self.roster@.len() as int) =~= process_ids(self.roster@));
        }
        r
    }

    /// Subscribes a registered process to a topic.
    pub fn subscribe(&mut self, pid: ProcessId, topic: Topic) -> (r: Result<(), ProtocolError>)
        requires
            old(self).wf(),
        ensures
            final(self).wf(),
            r is Err <==> !old(self).ids().contains(pid),
            r matches Err(e) ==> e.code == error_codes::PROCESS_NOT_FOUND && *final(self) == *old(self),
            r is Ok ==> final(self).subscribers(topic).to_set() == old(self).subscribers(topic).to_set().insert(pid),
            final(self).ids() == old(self).ids(),
            final(self).anchor_list() == old(self).anchor_list(),
    {
        if !self.is_registered(pid) {
            return Err(ProtocolError::with_text(error_codes::PROCESS_NOT_FOUND, "process not found"));
        }
        match topic {
            Topic::RosterChanged => { self.roster_subscribers = add_id(&self.roster_subscribers, pid); },
            Topic::NamedResultsChanged => { self.named_subscribers = add_id(&self.named_subscribers, pid); },
        }
        Ok(())
    }

    /// Removes a process from a topic's subscribers.
    pub fn unsubscribe(&mut self, pid: ProcessId, topic: Topic)
        requires
            old(self).wf(),
        ensures
            final(self).wf(),
            final(self).subscribers(topic).to_set() == old(self).subscribers(topic).to_set().remove(pid),
            final(self).ids() == old(self).ids(),
            final(self).anchor_list() == old(self).anchor_list(),
    {
        match topic {
            Topic::RosterChanged => { self.roster_subscribers = remove_id(&self.roster_subscribers, pid); },
            Topic::NamedResultsChanged => { self.named_subscribers = remove_id(&self.named_subscribers, pid); },
        }
        proof {
            assert(self.subscribers(topic).to_set() =~= old(self).subscribers(topic).to_set().remove(pid));
        }
    }

    /// The registered processes, in registration order.
    pub closed spec fn roster_list(&self) -> Seq<ProcessInfo> {
        self.roster@
    }

    /// The registered process with id `pid` (meaningful when `pid` is registered).
    pub closed spec fn process_of(&self, pid: u32) -> ProcessInfo {
        self.roster_list()[process_ids(self.roster_list()).index_of(pid)]
    }

    /// The process at roster position `i` is the one `process_of` names by its id.
    proof fn lemma_process_at(&self, i: int)
        requires
            self.wf(),
            0 <= i < self.roster@.len(),
        ensures
            self.process_of(self.roster@[i].id) == self.roster@[i],
    {
        let ids = process_ids(self.roster@);
        let pid = self.roster@[i].id;
        assert(ids[i] == pid);
        assert(ids.contains(pid));
        let j = ids.index_of(pid);
        assert(ids[j] == pid);
        assert(i == j);
    }

    /// The stored query results.
    pub closed spec fn result_list(&self) -> Seq<ResultEntry> {
        self.results@
    }

    /// Records `interest` as the current interest of `process_id` and tells the followers of its
    /// anchors what each anchor makes of it. Nothing happens when the process is not registered
    /// or did not declare that it provides interests of that kind.
    pub fn publish_interest(&mut self, corpus: &crate::corpus::Corpus, process_id: ProcessId, interest: Interest)
        -> (r: Vec<Outgoing>)
        requires
            old(self).wf(),
        ensures
            final(self).wf(),
            final(self).ids() == old(self).ids(),
            final(self).anchor_list() == old(self).anchor_list(),
            final(self).result_list() == old(self).result_list(),
            ({
                let i = process_ids(old(self).roster_list()).index_of(process_id);
                let accepted = old(self).ids().contains(process_id)
                    && old(self).roster_list()[i].provides@.contains(crate::protocol::interest_kind(interest));
                &&& !accepted ==> *final(self) == *old(self) && r@.len() == 0
                &&& accepted ==> {
                    &&& final(self).roster_list().len() == old(self).roster_list().len()
                    &&& forall|k: int| 0 <= k < old(self).roster_list().len() && k != i
                        ==> #[trigger] final(self).roster_list()[k] == old(self).roster_list()[k]
                    &&& with_interest(final(self).roster_list()[i], old(self).roster_list()[i], interest)
                    &&& outgoing_updates(r@, publish_updates(corpus, old(self).result_list(), old(self).anchor_list(),
                        old(self).ids(), process_id, interest))
                }
            }),
    {
        let i = match self.roster_index(process_id) {
            Some(i) => i,
            None => {
                let r: Vec<Outgoing> = Vec::new();
                return r;
            },
        };
        proof {
            let ids = process_ids(self.roster@);
            assert(ids[i as int] == process_id);
            assert(ids.index_of(process_id) == i) by {
                let j = ids.index_of(process_id);
                assert(ids.contains(process_id));
                if j != i { assert(ids[j] == process_id); }
            }
        }
        let kind = interest.kind();
        if !kinds_contain(&self.roster[i].provides, kind) {
            let r: Vec<Outgoing> = Vec::new();
            return r;
        }
        let ghost before = self.roster@;
        let old_info = self.roster.remove(i);
        let info = ProcessInfo {
            id: old_info.id,
            kind: old_info.kind,
            label: old_info.label,
            provides: old_info.provides,
            consumes: old_info.consumes,
            current_interest: Some(interest.clone()),
        };
        self.roster.insert(i, info);
        proof {
            assert(process_ids(self.roster@) =~= process_ids(before));
            assert forall|k: int| 0 <= k < before.len() && k != i implies #[trigger] self.roster@[k] == before[k] by {}
        }
        let ghost anchors = self.anchors@;
        let ghost ids = process_ids(self.roster@);
        let mut out: Vec<Outgoing> = Vec::new();
        let mut a: usize = 0;
        proof { assert(anchors.subrange(0, 0) =~= Seq::<Anchor>::empty()); }
        while a < self.anchors.len()
            invariant
                0 <= a <= self.anchors@.len(),
                anchors == self.anchors@,
                ids == process_ids(self.roster@),
                outgoing_updates(out@, publish_updates(corpus, self.results@, anchors.subrange(0, a as int), ids, process_id, interest)),
            decreases self.anchors@.len() - a,
        {
            let anchor = &self.anchors[a];
            let ghost done = publish_updates(corpus, self.results@, anchors.subrange(0, a as int), ids, process_id, interest);
            proof { assert(anchors.subrange(0, a + 1).drop_last() =~= anchors.subrange(0, a as int)); }
            if anchor.master == process_id && self.is_registered(anchor.follower) {
                let derived = crate::state::interest::transform_interest(corpus, &self.results, &interest, &anchor.kind);
                let ghost spec_derived = crate::state::interest::transformed(corpus, self.results@, interest, anchor.kind);
                let ghost out0 = out@;
                let mut d: usize = 0;
                while d < derived.len()
                    invariant
                        0 <= d <= derived@.len(),
                        crate::state::interest::same_interests(derived@, spec_derived),
                        out@.len() == out0.len() + d,
                        forall|k: int| 0 <= k < out0.len() ==> #[trigger] out@[k] == out0[k],
                        forall|k: int| 0 <= k < d ==> update_is(#[trigger] out@[out0.len() + k], anchor.follower, anchor.id, spec_derived[k]),
                    decreases derived@.len() - d,
                {
                    let mut recipients: Vec<ProcessId> = Vec::new();
                    recipients.push(anchor.follower);
                    out.push(Outgoing {
                        recipients,
                        notification: Notification::AnchorUpdate { anchor_id: anchor.id, interest: derived[d].clone() },
                    });
                    proof { assert(update_is(out@[out0.len() + d], anchor.follower, anchor.id, spec_derived[d as int])); }
                    d = d + 1;
                }
                proof {
                    let next = publish_updates(corpus, self.results@, anchors.subrange(0, a + 1), ids, process_id, interest);
                    assert(anchors.subrange(0, a + 1).last() == *anchor);
                    assert(next =~= done + anchor_updates(*anchor, spec_derived));
                    assert forall|k: int| 0 <= k < out@.len() implies update_is(#[trigger] out@[k], next[k].0, next[k].1, next[k].2) by {
                        if k >= out0.len() {
                            let q = k - out0.len();
                            assert(out@[out0.len() + q] == out@[k]);
                        }
                    }
                }
            } else {
                proof {
                    let next = publish_updates(corpus, self.results@, anchors.subrange(0, a + 1), ids, process_id, interest);
                    assert(next =~= done);
                }
            }
            a = a + 1;
        }
        proof { assert(anchors.subrange(0, a as int) =~= anchors); }
        out
    }

    /// Whether a new anchor from `master` to `follower` would close a cycle.
    pub fn anchor_creates_cycle(&self, master: ProcessId, follower: ProcessId) -> (r: bool)
        ensures
            r == (master == follower || reachable(self.edges(), follower, master)),
    {
        if master == follower {
            return true;
        }
        let mut edges: Vec<(u32, u32)> = Vec::new();
        let mut i: usize = 0;
        while i < self.anchors.len()
            invariant
                0 <= i <= self.anchors@.len(),
                edges@ == anchor_edges(self.anchors@).subrange(0, i as int),
            decreases self.anchors@.len() - i,
        {
            edges.push((self.anchors[i].master, self.anchors[i].follower));
            i = i + 1;
            proof { assert(edges@ =~= anchor_edges(self.anchors@).subrange(0, i as int)); }
        }
        proof { assert(edges@ =~= anchor_edges(self.anchors@)); }
        reaches(&edges, follower, master)
    }

    /// Links `follower` to `master`. Refused when either process is unknown, when the link
    /// would close a cycle, or when the kind does not fit the master's provides and the
    /// follower's consumes.
    #[verifier::spinoff_prover]
    #[verifier::rlimit(40)]
    pub fn anchor_create(&mut self, master: ProcessId, follower: ProcessId, kind: AnchorKind) -> (r: Result<AnchorId, ProtocolError>)
        requires
            old(self).wf(),
        ensures
            final(self).wf(),
            !old(self).ids().contains(master) ==> (r matches Err(e) && e.code == error_codes::PROCESS_NOT_FOUND),
            old(self).ids().contains(master) && !old(self).ids().contains(follower) ==> (r matches Err(e) && e.code == error_codes::PROCESS_NOT_FOUND),
            old(self).ids().contains(master) && old(self).ids().contains(follower)
                && (master == follower || reachable(old(self).edges(), follower, master)) ==> (r matches Err(e) && e.code == error_codes::ANCHOR_CYCLE),
            r matches Err(e) ==> *final(self) == *old(self),
            r matches Err(e) ==> e.code == error_codes::PROCESS_NOT_FOUND || e.code == error_codes::ANCHOR_CYCLE
                || e.code == error_codes::ANCHOR_INCOMPATIBLE,
            r matches Err(e) && e.code == error_codes::ANCHOR_INCOMPATIBLE ==> old(self).ids().contains(master)
                && old(self).ids().contains(follower) && master != follower && !reachable(old(self).edges(), follower, master),
            r is Ok ==> old(self).ids().contains(master) && old(self).ids().contains(follower)
                && master != follower && !reachable(old(self).edges(), follower, master),
            r matches Err(e) && e.code == error_codes::ANCHOR_CYCLE ==> master == follower || reachable(old(self).edges(), follower, master),
            r matches Err(e) && e.code == error_codes::PROCESS_NOT_FOUND ==> !old(self).ids().contains(master)
                || !old(self).ids().contains(follower),
            old(self).ids().contains(master) && old(self).ids().contains(follower) && master != follower
                && !reachable(old(self).edges(), follower, master) ==> {
                let mp = old(self).process_of(master).provides@;
                let fc = old(self).process_of(follower).consumes@;
                &&& (r is Ok <==> anchor_compatible(kind, mp, fc))
                &&& !anchor_compatible(kind, mp, fc) ==> (r matches Err(e) && e.code == error_codes::ANCHOR_INCOMPATIBLE
                    && (e.data matches Some(ErrorData::Incompatible { master_provides, follower_consumes })
                    && master_provides@ == mp && follower_consumes@ == fc))
            },
            !has_cycle(final(self).edges()),
            r matches Ok(id) ==> {
                &&& id == old(self).next_anchor()
                &&& final(self).next_anchor() == (if old(self).next_anchor() == u32::MAX { 0 } else { old(self).next_anchor() + 1 })
                &&& anchor_ids(final(self).anchor_list()).to_set() == anchor_ids(old(self).anchor_list()).to_set().insert(id)
                &&& exists|k: int| 0 <= k < final(self).anchor_list().len() && (#[trigger] final(self).anchor_list()[k]).id == id
                    && final(self).anchor_list()[k].master == master && final(self).anchor_list()[k].follower == follower
                    && final(self).anchor_list()[k].kind == kind
                &&& forall|k: int| 0 <= k < final(self).anchor_list().len() && (#[trigger] final(self).anchor_list()[k]).id != id
                    ==> exists|j: int| 0 <= j < old(self).anchor_list().len() && old(self).anchor_list()[j] == final(self).anchor_list()[k]
            },
            final(self).ids() == old(self).ids(),
            final(self).named() == old(self).named(),
            final(self).handles() == old(self).handles(),
    {
        let mi = match self.roster_index(master) {
            Some(i) => i,
            None => {
                let m = concat(concat("master process ", u64_to_decimal(master as u64).as_str()).as_str(), " not found");
                return Err(ProtocolError::new(error_codes::PROCESS_NOT_FOUND, m));
            },
        };
        let fi = match self.roster_index(follower) {
            Some(i) => i,
            None => {
                let m = concat(concat("follower process ", u64_to_decimal(follower as u64).as_str()).as_str(), " not found");
                return Err(ProtocolError::new(error_codes::PROCESS_NOT_FOUND, m));
            },
        };
        proof {
            self.lemma_process_at(mi as int);
            self.lemma_process_at(fi as int);
        }
        if self.anchor_creates_cycle(master, follower) {
            return Err(ProtocolError::with_text(error_codes::ANCHOR_CYCLE, "anchor would create a cycle in the dependency graph"));
        }
        if !anchor_kind_compat(&kind, &self.roster[mi].provides, &self.roster[fi].consumes) {
            let m = concat(concat("anchor kind '", kind.variant_name()).as_str(), "' incompatible with master provides / follower consumes");
            let data = ErrorData::Incompatible {
                master_provides: clone_kinds(&self.roster[mi].provides),
                follower_consumes: clone_kinds(&self.roster[fi].consumes),
            };
            return Err(ProtocolError::new(error_codes::ANCHOR_INCOMPATIBLE, m).with_data(data));
        }
        let id = self.next_anchor_id;
        self.next_anchor_id = self.next_anchor_id.wrapping_add(1);
        let ghost before = self.anchors@;
        let ghost roster_ids = process_ids(self.roster@);
        proof {
            lemma_add_edge_keeps_acyclic(anchor_edges(before), master, follower);
            assert(roster_ids[mi as int] == master);
            assert(roster_ids[fi as int] == follower);
            assert(roster_ids.contains(master) && roster_ids.contains(follower));
            assert forall|k: int| 0 <= k < before.len() implies roster_ids.contains(#[trigger] before[k].master)
                && roster_ids.contains(before[k].follower) by {
                assert(old(self).anchors@[k] == before[k]);
            }
        }
        let anchor = Anchor { id, master, follower, kind };
        let found = self.anchor_index(id);
        let ghost bigger = anchor_edges(before).push((master, follower));
        if let Some(i) = found {
            self.anchors.set(i, anchor);
            proof {
                let after = self.anchors@;
                assert(anchor_ids(after) =~= anchor_ids(before).update(i as int, id));
                assert(anchor_ids(before)[i as int] == id);
                assert(anchor_ids(after) =~= anchor_ids(before));
                assert(anchor_ids(before).to_set().insert(id) =~= anchor_ids(before).to_set());
                let e2 = anchor_edges(after);
                assert forall|k: int| 0 <= k < e2.len() implies has_edge(bigger, #[trigger] e2[k].0, e2[k].1) by {
                    if k == i { assert(bigger[before.len() as int] == e2[k]); } else { assert(bigger[k] == e2[k]); }
                }
                crate::graph::lemma_subgraph_no_cycle(bigger, e2);
                assert(after[i as int].id == id);
                assert forall|k: int| 0 <= k < after.len() && (#[trigger] after[k]).id != id
                    implies exists|j: int| 0 <= j < before.len() && before[j] == after[k] by {
                    assert(before[k] == after[k]);
                }
            }
        } else {
            self.anchors.push(anchor);
            proof {
                let after = self.anchors@;
                assert(anchor_edges(after) =~= bigger);
                assert(anchor_ids(after) =~= anchor_ids(before).push(id));
                anchor_ids(before).lemma_push_to_set_commute(id);
                assert(!anchor_ids(before).contains(id)) by {
                    if anchor_ids(before).contains(id) {
                        let j = choose|j: int| 0 <= j < anchor_ids(before).len() && anchor_ids(before)[j] == id;
                        assert(before[j].id == id);
                    }
                }
                assert(after[before.len() as int].id == id);
                assert forall|k: int| 0 <= k < after.len() && (#[trigger] after[k]).id != id
                    implies exists|j: int| 0 <= j < before.len() && before[j] == after[k] by {
                    assert(before[k] == after[k]);
                }
            }
        }
        proof {
            assert(roster_ids == process_ids(self.roster@));
            assert forall|k: int| 0 <= k < self.anchors@.len() implies roster_ids.contains(#[trigger] self.anchors@[k].master)
                && roster_ids.contains(self.anchors@[k].follower) by {
                if let Some(i) = found {
                    if k != i {
                        assert(before[k] == self.anchors@[k]);
                    } else {
                        assert(self.anchors@[k].master == master && self.anchors@[k].follower == follower);
                    }
                } else {
                    if k < before.len() {
                        assert(before[k] == self.anchors@[k]);
                    } else {
                        assert(self.anchors@[k].master == master && self.anchors@[k].follower == follower);
                    }
                }
            }
        }
        Ok(id)
    }

    /// What a newly created anchor first tells its follower: the master's current interest (if
    /// it has one) as the anchor's kind transforms it, one update per interest passed on. Nothing
    /// for an unknown anchor.
    pub fn anchor_first_updates(&self, corpus: &crate::corpus::Corpus, anchor_id: AnchorId) -> (r: Vec<Outgoing>)
        requires
            self.wf(),
        ensures
            !anchor_ids(self.anchor_list()).contains(anchor_id) ==> r@.len() == 0,
            anchor_ids(self.anchor_list()).contains(anchor_id) ==> {
                let a = self.anchor_list()[anchor_ids(self.anchor_list()).index_of(anchor_id)];
                outgoing_updates(r@, first_updates(corpus, self.result_list(), a, self.process_of(a.master).current_interest))
            },
    {
        let mut out: Vec<Outgoing> = Vec::new();
        let k = match self.anchor_index(anchor_id) {
            Some(k) => k,
            None => return out,
        };
        proof {
            let ids = anchor_ids(self.anchors@);
            assert(ids[k as int] == anchor_id);
            assert(ids.contains(anchor_id));
            let j = ids.index_of(anchor_id);
            assert(ids[j] == anchor_id);
            assert(j == k);
        }
        let anchor = &self.anchors[k];
        let mi = match self.roster_index(anchor.master) {
            Some(i) => i,
            None => {
                proof {
                    assert(process_ids(self.roster@).contains(self.anchors@[k as int].master));
                }
                return out;
            },
        };
        proof { self.lemma_process_at(mi as int); }
        let current = match &self.roster[mi].current_interest {
            Some(i) => i,
            None => return out,
        };
        let derived = crate::state::interest::transform_interest(corpus, &self.results, current, &anchor.kind);
        let ghost spec_derived = crate::state::interest::transformed(corpus, self.results@, *current, anchor.kind);
        let mut d: usize = 0;
        while d < derived.len()
            invariant
                0 <= d <= derived@.len(),
                crate::state::interest::same_interests(derived@, spec_derived),
                out@.len() == d,
                forall|q: int| 0 <= q < d ==> update_is(#[trigger] out@[q], anchor.follower, anchor.id, spec_derived[q]),
            decreases derived@.len() - d,
        {
            let mut recipients: Vec<ProcessId> = Vec::new();
            recipients.push(anchor.follower);
            out.push(Outgoing {
                recipients,
                notification: Notification::AnchorUpdate { anchor_id: anchor.id, interest: derived[d].clone() },
            });
            proof { assert(update_is(out@[d as int], anchor.follower, anchor.id, spec_derived[d as int])); }
            d = d + 1;
        }
        proof {
            let ups = anchor_updates(*anchor, spec_derived);
            assert forall|q: int| 0 <= q < out@.len() implies update_is(#[trigger] out@[q], ups[q].0, ups[q].1, ups[q].2) by {}
        }
        out
    }

    fn anchor_index(&self, id: AnchorId) -> (r: Option<usize>)
        ensures
            r matches Some(i) ==> i < self.anchors@.len() && self.anchors@[i as int].id == id,
            r is None ==> forall|j: int| 0 <= j < self.anchors@.len() ==> self.anchors@[j].id != id,
            r is None <==> !anchor_ids(self.anchors@).contains(id),
    {
        let mut i: usize = 0;
        while i < self.anchors.len()
            invariant
                0 <= i <= self.anchors@.len(),
                forall|j: int| 0 <= j < i ==> self.anchors@[j].id != id,
            decreases self.anchors@.len() - i,
        {
            if self.anchors[i].id == id {
                proof { assert(anchor_ids(self.anchors@)[i as int] == id); }
                return Some(i);
            }
            i = i + 1;
        }
        proof {
            if anchor_ids(self.anchors@).contains(id) {
                let j = choose|j: int| 0 <= j < anchor_ids(self.anchors@).len() && anchor_ids(self.anchors@)[j] == id;
                assert(self.anchors@[j].id == id);
            }
        }
        None
    }

    /// Removes the anchor with the given id.
    #[verifier::spinoff_prover]
    #[verifier::rlimit(40)]
    pub fn anchor_remove(&mut self, anchor_id: AnchorId) -> (r: Result<(), ProtocolError>)
        requires
            old(self).wf(),
        ensures
            final(self).wf(),
            r is Err <==> !anchor_ids(old(self).anchor_list()).contains(anchor_id),
            r matches Err(e) ==> e.code == error_codes::ANCHOR_NOT_FOUND && *final(self) == *old(self),
            r is Ok ==> anchor_ids(final(self).anchor_list()).to_set() == anchor_ids(old(self).anchor_list()).to_set().remove(anchor_id),
            r is Ok ==> forall|k: int| 0 <= k < final(self).anchor_list().len() ==> exists|j: int| 0 <= j < old(self).anchor_list().len()
                && old(self).anchor_list()[j] == #[trigger] final(self).anchor_list()[k],
            final(self).ids() == old(self).ids(),
            final(self).named() == old(self).named(),
            final(self).handles() == old(self).handles(),
    {
        let i = match self.anchor_index(anchor_id) {
            Some(i) => i,
            None => return Err(ProtocolError::with_text(error_codes::ANCHOR_NOT_FOUND, "anchor not found")),
        };
        let ghost before = self.anchors@;
        self.anchors.remove(i);
        proof {
            let after = self.anchors@;
            assert(after == self.anchor_list());
            assert(before == old(self).anchor_list());
            assert(after =~= before.remove(i as int));
            assert(anchor_ids(after) =~= anchor_ids(before).remove(i as int));
            assert forall|k: int| 0 <= k < self.anchor_list().len() implies exists|j: int| 0 <= j < old(self).anchor_list().len() && old(self).anchor_list()[j] == #[trigger] self.anchor_list()[k] by {
                if k < i { assert(before[k] == after[k]); } else { assert(before[k + 1] == after[k]); }
            }
            let e1 = anchor_edges(before);
            let e2 = anchor_edges(after);
            assert forall|k: int| 0 <= k < e2.len() implies has_edge(e1, #[trigger] e2[k].0, e2[k].1) by {
                if k < i { assert(e1[k] == e2[k]); } else { assert(e1[k + 1] == e2[k]); }
            }
            crate::graph::lemma_subgraph_no_cycle(e1, e2);
            assert forall|x: u32| #[trigger] anchor_ids(after).to_set().contains(x) <==> anchor_ids(before).to_set().remove(anchor_id).contains(x) by {
                if anchor_ids(after).contains(x) {
                    let k = choose|k: int| 0 <= k < anchor_ids(after).len() && anchor_ids(after)[k] == x;
                    if k < i { assert(anchor_ids(before)[k] == x); } else { assert(anchor_ids(before)[k + 1] == x); }
                    assert(anchor_ids(before)[i as int] == anchor_id);
                }
                if anchor_ids(before).contains(x) && x != anchor_id {
                    let k = choose|k: int| 0 <= k < anchor_ids(before).len() && anchor_ids(before)[k] == x;
                    if k < i { assert(anchor_ids(after)[k] == x); } else { assert(k != i); assert(anchor_ids(after)[k - 1] == x); }
                }
            }
            assert(anchor_ids(after).to_set() =~= anchor_ids(before).to_set().remove(anchor_id));
            assert forall|k: int| 0 <= k < after.len() implies process_ids(self.roster@).contains(#[trigger] after[k].master)
                && process_ids(self.roster@).contains(after[k].follower) by {
                if k < i { assert(before[k] == after[k]); } else { assert(before[k + 1] == after[k]); }
            }
        }
        Ok(())
    }

    /// The anchors that involve `filter` (all anchors without a filter).
    pub fn anchor_list_for(&self, filter: Option<ProcessId>) -> (r: Vec<Anchor>)
        ensures
            forall|k: int| 0 <= k < r@.len() ==> (filter matches Some(p) ==> (#[trigger] r@[k]).master == p || r@[k].follower == p),
            forall|k: int| 0 <= k < r@.len() ==> exists|j: int| 0 <= j < self.anchor_list().len()
                && self.anchor_list()[j].id == (#[trigger] r@[k]).id && self.anchor_list()[j].master == r@[k].master
                && self.anchor_list()[j].follower == r@[k].follower,
            forall|j: int| 0 <= j < self.anchor_list().len() && (filter matches Some(p) ==> (#[trigger] self.anchor_list()[j]).master == p || self.anchor_list()[j].follower == p)
                ==> exists|k: int| 0 <= k < r@.len() && r@[k].id == self.anchor_list()[j].id,
    {
        let mut r: Vec<Anchor> = Vec::new();
        let mut i: usize = 0;
        while i < self.anchors.len()
            invariant
                0 <= i <= self.anchors@.len(),
                forall|k: int| 0 <= k < r@.len() ==> (filter matches Some(p) ==> (#[trigger] r@[k]).master == p || r@[k].follower == p),
                forall|k: int| 0 <= k < r@.len() ==> exists|j: int| 0 <= j < self.anchors@.len()
                    && self.anchors@[j].id == (#[trigger] r@[k]).id && self.anchors@[j].master == r@[k].master
                    && self.anchors@[j].follower == r@[k].follower,
                forall|j: int| 0 <= j < i && (filter matches Some(p) ==> (#[trigger] self.anchors@[j]).master == p || self.anchors@[j].follower == p)
                    ==> exists|k: int| 0 <= k < r@.len() && r@[k].id == self.anchors@[j].id,
            decreases self.anchors@.len() - i,
        {
            let keep = match filter {
                None => true,
                Some(p) => self.anchors[i].master == p || self.anchors[i].follower == p,
            };
            let ghost old_r = r@;
            if keep {
                let c = self.anchors[i].clone();
                r.push(c);
                proof {
                    let n = r@.len() - 1;
                    assert(r@[n].id == self.anchors@[i as int].id);
                }
            }
            proof {
                assert forall|j: int| 0 <= j < i + 1 && (filter matches Some(p) ==> (#[trigger] self.anchors@[j]).master == p || self.anchors@[j].follower == p)
                    implies exists|k: int| 0 <= k < r@.len() && r@[k].id == self.anchors@[j].id by {
                    if j < i {
                        let k = choose|k: int| 0 <= k < old_r.len() && old_r[k].id == self.anchors@[j].id;
                        assert(r@[k] == old_r[k]);
                    } else {
                        assert(r@[r@.len() - 1].id == self.anchors@[j].id);
                    }
                }
            }
            i = i + 1;
        }
        r
    }

    /// Begins shutdown: the first call marks the state and tells every registered process;
    /// later calls do nothing.
    pub fn initiate_shutdown(&mut self, reason: ShutdownReason) -> (r: Option<Outgoing>)
        requires
            old(self).wf(),
        ensures
            final(self).wf(),
            final(self).is_shutting_down(),
            old(self).is_shutting_down() ==> r is None,
            !old(self).is_shutting_down() ==> (r matches Some(out) && process_ids_of(out.recipients@) == old(self).ids()
                && (out.notification matches Notification::Shutdown { reason: why, in_seconds } && why == reason && in_seconds == 0)),
            final(self).ids() == old(self).ids(),
            final(self).anchor_list() == old(self).anchor_list(),
            final(self).emptied_at() == old(self).emptied_at(),
            final(self).idle_timeout() == old(self).idle_timeout(),
    {
        if self.shutting_down {
            return None;
        }
        self.shutting_down = true;
        let mut recipients: Vec<ProcessId> = Vec::new();
        let mut i: usize = 0;
        while i < self.roster.len()
            invariant
                0 <= i <= self.roster@.len(),
                recipients@ == process_ids(self.roster@).subrange(0, i as int),
            decreases self.roster@.len() - i,
        {
            recipients.push(self.roster[i].id);
            i = i + 1;
            proof { assert(recipients@ =~= process_ids(self.roster@).subrange(0, i as int)); }
        }
        proof { assert(recipients@ =~= process_ids(self.roster@)); }
        Some(Outgoing { recipients, notification: Notification::Shutdown { reason, in_seconds: 0 } })
    }

    /// At time `now`: when an idle timeout is set and the roster has been empty for at least
    /// that long, shutdown begins.
    pub fn check_idle_timeout(&mut self, now: u64) -> (r: Option<Outgoing>)
        requires
            old(self).wf(),
        ensures
            final(self).wf(),
            final(self).ids() == old(self).ids(),
            final(self).anchor_list() == old(self).anchor_list(),
            !old(self).idle_due(now) ==> r is None && *final(self) == *old(self),
            old(self).idle_due(now) ==> final(self).is_shutting_down()
                && final(self).emptied_at() == old(self).emptied_at()
                && final(self).idle_timeout() == old(self).idle_timeout(),
            old(self).idle_due(now) && old(self).is_shutting_down() ==> r is None,
            old(self).idle_due(now) && !old(self).is_shutting_down() ==> (r matches Some(out)
                && process_ids_of(out.recipients@) == old(self).ids()
                && (out.notification matches Notification::Shutdown { reason, in_seconds }
                    && reason == ShutdownReason::IdleTimeout && in_seconds == 0)),
    {
        let timeout = match self.idle_timeout_ms {
            Some(t) => t,
            None => return None,
        };
        let emptied = match self.roster_emptied_at {
            Some(e) => e,
            None => return None,
        };
        if now >= emptied && now - emptied >= timeout {
            self.initiate_shutdown(ShutdownReason::IdleTimeout)
        } else {
            None
        }
    }

} // impl State

/// `after` is `before` with its current interest set to (a copy of) `interest`.
pub open spec fn with_interest(after: ProcessInfo, before: ProcessInfo, interest: Interest) -> bool {
    &&& after.id == before.id
    &&& after.kind == before.kind
    &&& after.label == before.label
    &&& after.provides == before.provides
    &&& after.consumes == before.consumes
    &&& after.current_interest matches Some(x) && same_interest(x, interest)
}

/// The updates an anchor sends: one to its follower per interest it passes on.
pub open spec fn anchor_updates(a: Anchor, derived: Seq<Interest>) -> Seq<(u32, u32, Interest)> {
    derived.map_values(|x: Interest| (a.follower, a.id, x))
}

/// The updates publishing `interest` for `pid` sends: for each anchor in order whose master is
/// `pid` and whose follower is registered, what the anchor passes on.
pub open spec fn publish_updates(c: &crate::corpus::Corpus, results: Seq<ResultEntry>, anchors: Seq<Anchor>, ids: Seq<u32>,
    pid: u32, interest: Interest) -> Seq<(u32, u32, Interest)>
    decreases anchors.len(),
{
    if anchors.len() == 0 {
        Seq::empty()
    } else {
        let rest = publish_updates(c, results, anchors.drop_last(), ids, pid, interest);
        let a = anchors.last();
        if a.master == pid && ids.contains(a.follower) {
            rest + anchor_updates(a, crate::state::interest::transformed(c, results, interest, a.kind))
        } else {
            rest
        }
    }
}

/// The notification goes to `follower` alone and says that anchor `anchor_id` passes on
/// `interest`.
pub open spec fn update_is(o: Outgoing, follower: u32, anchor_id: u32, interest: Interest) -> bool {
    &&& o.recipients@ == seq![follower]
    &&& o.notification matches Notification::AnchorUpdate { anchor_id: id, interest: x }
    &&& id == anchor_id
    &&& same_interest(x, interest)
}

/// The updates a new anchor sends first: those the master's current interest gives, none when
/// it has none.
pub open spec fn first_updates(c: &crate::corpus::Corpus, results: Seq<ResultEntry>, a: Anchor, current: Option<Interest>)
    -> Seq<(u32, u32, Interest)> {
    match current {
        Some(i) => anchor_updates(a, crate::state::interest::transformed(c, results, i, a.kind)),
        None => Seq::empty(),
    }
}

/// The notifications are the updates, in order.
pub open spec fn outgoing_updates(out: Seq<Outgoing>, updates: Seq<(u32, u32, Interest)>) -> bool {
    &&& out.len() == updates.len()
    &&& forall|k: int| 0 <= k < out.len() ==> update_is(#[trigger] out[k], updates[k].0, updates[k].1, updates[k].2)
}

/// Whether `k` is among `kinds`.
fn kinds_contain(kinds: &Vec<InterestKind>, k: InterestKind) -> (r: bool)
    ensures
        r == kinds@.contains(k),
{
    let mut i: usize = 0;
    while i < kinds.len()
        invariant
            0 <= i <= kinds@.len(),
            forall|j: int| 0 <= j < i ==> kinds@[j] != k,
        decreases kinds@.len() - i,
    {
        if kinds[i] == k {
            return true;
        }
        i = i + 1;
    }
    false
}

/// Two process descriptions agree on every field.
pub open spec fn same_process(a: ProcessInfo, b: ProcessInfo) -> bool {
    &&& a.id == b.id
    &&& a.kind == b.kind
    &&& a.label.is_some() == b.label.is_some()
    &&& (a.label matches Some(x) ==> b.label.unwrap()@ == x@)
    &&& a.provides@ == b.provides@
    &&& a.consumes@ == b.consumes@
    &&& a.current_interest.is_some() == b.current_interest.is_some()
    &&& (a.current_interest matches Some(x) ==> same_interest(x, b.current_interest.unwrap()))
}

fn clone_kinds(v: &Vec<InterestKind>) -> (r: Vec<InterestKind>)
    ensures
        r@ == v@,
{
    let mut r: Vec<InterestKind> = Vec::new();
    let mut i: usize = 0;
    while i < v.len()
        invariant
            0 <= i <= v@.len(),
            r@ == v@.subrange(0, i as int),
        decreases v@.len() - i,
    {
        r.push(v[i]);
        i = i + 1;
        proof { assert(r@ =~= v@.subrange(0, i as int)); }
    }
    proof { assert(v@.subrange(0, v@.len() as int) =~= v@); }
    r
}

fn clone_opt_string(v: &Option<String>) -> (r: Option<String>)
    ensures
        r.is_some() == v.is_some(),
        r matches Some(x) ==> x@ == v.unwrap()@,
{
    match v {
        Some(s) => Some(s.clone()),
        None => None,
    }
}

/// A copy of a process description.
pub fn clone_process_info(p: &ProcessInfo) -> (r: ProcessInfo)
    ensures
        same_process(r, *p),
{
    let interest = match &p.current_interest {
        Some(i) => Some(i.clone()),
        None => None,
    };
    ProcessInfo {
        id: p.id,
        kind: p.kind,
        label: clone_opt_string(&p.label),
        provides: clone_kinds(&p.provides),
        consumes: clone_kinds(&p.consumes),
        current_interest: interest,
    }
}

fn kind_name_strings() -> (r: Vec<String>)
    ensures
        r@.len() == 6,
{
    let names = anchor_kind_names();
    let mut r: Vec<String> = Vec::new();
    let mut i: usize = 0;
    while i < names.len()
        invariant
            0 <= i <= names@.len(),
            names@.len() == 6,
            r@.len() == i,
        decreases names@.len() - i,
    {
        r.push(to_owned_string(names[i]));
        i = i + 1;
    }
    r
}

/// Every element of a filtered sequence comes from the original.
pub proof fn lemma_filter_subseq<A>(s: Seq<A>, pred: spec_fn(A) -> bool)
    ensures
        forall|k: int| 0 <= k < s.filter(pred).len() ==> pred(#[trigger] s.filter(pred)[k])
            && exists|j: int| 0 <= j < s.len() && s[j] == s.filter(pred)[k],
    decreases s.len(),
{
    reveal(Seq::filter);
    if s.len() > 0 {
        lemma_filter_subseq(s.drop_last(), pred);
        assert forall|k: int| 0 <= k < s.filter(pred).len() implies pred(#[trigger] s.filter(pred)[k])
            && exists|j: int| 0 <= j < s.len() && s[j] == s.filter(pred)[k] by {
            if pred(s.last()) && k == s.filter(pred).len() - 1 {
                assert(s[s.len() - 1] == s.filter(pred)[k]);
            } else {
                let j = choose|j: int| 0 <= j < s.drop_last().len() && s.drop_last()[j] == s.drop_last().filter(pred)[k];
                assert(s[j] == s.filter(pred)[k]);
            }
        }
    }
}

/// Filtering keeps the order: two positions of the filtered sequence come from two increasing
/// positions of the original.
pub proof fn lemma_filter_order(s: Seq<Anchor>, pred: spec_fn(Anchor) -> bool, a: int, b: int)
    requires
        anchor_ids(s).no_duplicates(),
        0 <= a < b < s.filter(pred).len(),
    ensures
        s.filter(pred)[a].id != s.filter(pred)[b].id,
    decreases s.len(),
{
    reveal(Seq::filter);
    let t = s.drop_last();
    assert(anchor_ids(t) =~= anchor_ids(s).drop_last());
    if pred(s.last()) && b == s.filter(pred).len() - 1 {
        lemma_filter_subseq(t, pred);
        let j = choose|j: int| 0 <= j < t.len() && t[j] == t.filter(pred)[a];
        assert(anchor_ids(s)[j] != anchor_ids(s)[s.len() - 1]);
    } else {
        lemma_filter_order(t, pred, a, b);
    }
}

/// A copy of the ids with `pid` removed.
#[verifier::spinoff_prover]
fn remove_id(v: &Vec<ProcessId>, pid: ProcessId) -> (r: Vec<ProcessId>)
    requires
        v@.no_duplicates(),
    ensures
        r@.no_duplicates(),
        !r@.contains(pid),
        forall|x: u32| r@.contains(x) <==> (v@.contains(x) && x != pid),
{
    let mut r: Vec<ProcessId> = Vec::new();
    let mut i: usize = 0;
    while i < v.len()
        invariant
            0 <= i <= v@.len(),
            v@.no_duplicates(),
            r@.no_duplicates(),
            forall|x: u32| r@.contains(x) <==> (v@.subrange(0, i as int).contains(x) && x != pid),
        decreases v@.len() - i,
    {
        let ghost old_r = r@;
        let ghost s0 = v@.subrange(0, i as int);
        let ghost s1 = v@.subrange(0, i + 1);
        proof {
            assert(s1 =~= s0.push(v@[i as int]));
            s0.lemma_push_to_set_commute(v@[i as int]);
            assert forall|x: u32| s1.contains(x) <==> (s0.contains(x) || x == v@[i as int]) by {
                assert(s1.to_set().contains(x) == s1.contains(x));
                assert(s0.to_set().contains(x) == s0.contains(x));
            }
        }
        if v[i] != pid {
            proof {
                if r@.contains(v@[i as int]) {
                    let q = choose|q: int| 0 <= q < s0.len() && s0[q] == v@[i as int];
                    assert(v@[q] == v@[i as int]);
                }
            }
            r.push(v[i]);
            proof {
                old_r.lemma_push_to_set_commute(v@[i as int]);
                assert forall|x: u32| r@.contains(x) <==> (old_r.contains(x) || x == v@[i as int]) by {
                    assert(r@.to_set().contains(x) == r@.contains(x));
                    assert(old_r.to_set().contains(x) == old_r.contains(x));
                }
            }
        }
        proof {
            assert forall|x: u32| r@.contains(x) <==> (s1.contains(x) && x != pid) by {
                assert(old_r.contains(x) <==> (s0.contains(x) && x != pid));
                assert(s1.contains(x) <==> (s0.contains(x) || x == v@[i as int]));
                if v@[i as int] != pid {
                    assert(r@.contains(x) <==> (old_r.contains(x) || x == v@[i as int]));
                } else {
                    assert(r@ == old_r);
                }
            }
            assert(v@.subrange(0, i + 1) == s1);
        }
        i = i + 1;
    }
    proof { assert(v@.subrange(0, v@.len() as int) =~= v@); }
    r
}

/// The ids, as a sequence (identity; names the recipients of a notification).
pub open spec fn process_ids_of(v: Seq<ProcessId>) -> Seq<u32> {
    v
}

/// A copy of the ids with `pid` added when missing.
fn add_id(v: &Vec<ProcessId>, pid: ProcessId) -> (r: Vec<ProcessId>)
    requires
        v@.no_duplicates(),
    ensures
        r@.no_duplicates(),
        r@.to_set() == v@.to_set().insert(pid),
{
    let mut r: Vec<ProcessId> = Vec::new();
    let mut i: usize = 0;
    let mut found = false;
    while i < v.len()
        invariant
            0 <= i <= v@.len(),
            r@ == v@.subrange(0, i as int),
            found == v@.subrange(0, i as int).contains(pid),
        decreases v@.len() - i,
    {
        let ghost s0 = v@.subrange(0, i as int);
        if v[i] == pid {
            found = true;
        }
        r.push(v[i]);
        i = i + 1;
        proof {
            assert(v@.subrange(0, i as int) =~= s0.push(v@[i - 1]));
            s0.lemma_push_to_set_commute(v@[i - 1]);
            assert(v@.subrange(0, i as int).to_set().contains(pid) == v@.subrange(0, i as int).contains(pid));
            assert(s0.to_set().contains(pid) == s0.contains(pid));
            assert(r@ =~= v@.subrange(0, i as int));
        }
    }
    proof { assert(v@.subrange(0, v@.len() as int) =~= v@); }
    if !found {
        let ghost before = r@;
        r.push(pid);
        proof {
            before.lemma_push_to_set_commute(pid);
        }
    } else {
        proof {
            assert(v@.to_set().contains(pid));
            assert(v@.to_set().insert(pid) =~= v@.to_set());
        }
    }
    r
}

} // verus!

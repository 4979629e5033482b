//! The table of query results and the named results that refer to it.
use vstd::prelude::*;
use crate::protocol::{Hit, ProtocolError, ResultForm, ResultHandle, ResultMetadata, Topic};
use crate::protocol::error_codes;
use crate::text::{concat, str_eq};
use super::{LoadOutcome, NamedResultRecord, NamedResultsEvent, Notification, Outgoing, ResultEntry, State};

verus! {

/// The text of an optional string.
pub open spec fn opt_view(o: Option<String>) -> Option<Seq<char>> {
    match o {
        Some(s) => Some(s@),
        None => None,
    }
}

/// What the metadata of a result says, as plain values.
pub struct MetaView {
    pub handle: Seq<char>,
    pub query: Seq<char>,
    pub created_at: Seq<char>,
    pub materialized_at: Option<Seq<char>>,
    pub hit_count: u64,
    pub corpus_id: Seq<char>,
    pub name: Option<Seq<char>>,
    pub form: ResultForm,
}

pub open spec fn meta_view(m: ResultMetadata) -> MetaView {
    MetaView {
        handle: m.handle@,
        query: m.query@,
        created_at: m.created_at@,
        materialized_at: opt_view(m.materialized_at),
        hit_count: m.hit_count,
        corpus_id: m.corpus_id@,
        name: opt_view(m.name),
        form: m.form,
    }
}

/// A stored result: its metadata, its query text and its hits.
pub struct ResultView {
    pub meta: MetaView,
    pub cql: Seq<char>,
    pub hits: Seq<Hit>,
}

pub open spec fn result_view(e: ResultEntry) -> ResultView {
    ResultView { meta: meta_view(e.metadata), cql: e.cql@, hits: e.hits@ }
}

/// A persisted named result, as plain values.
pub struct RecordView {
    pub handle: Seq<char>,
    pub cql: Seq<char>,
    pub hit_count: u64,
    pub created_at: Seq<char>,
}

pub open spec fn record_view(r: NamedResultRecord) -> RecordView {
    RecordView { handle: r.handle@, cql: r.cql@, hit_count: r.hit_count, created_at: r.created_at@ }
}

/// A list of named results, as (name, record) pairs of plain values.
pub open spec fn named_views(v: Seq<(String, NamedResultRecord)>) -> Seq<(Seq<char>, RecordView)> {
    v.map_values(|e: (String, NamedResultRecord)| (e.0@, record_view(e.1)))
}

/// The record that the last entry named `n` of `v` holds.
pub open spec fn last_record(v: Seq<(Seq<char>, RecordView)>, n: Seq<char>) -> Option<RecordView>
    decreases v.len(),
{
    if v.len() == 0 {
        None
    } else if v.last().0 == n {
        Some(v.last().1)
    } else {
        last_record(v.drop_last(), n)
    }
}

/// Keeps the entries of a named-result list whose name is not `n`.
pub open spec fn other_names(n: Seq<char>) -> spec_fn((Seq<char>, RecordView)) -> bool {
    |e: (Seq<char>, RecordView)| e.0 != n
}

/// The metadata a stored result gets once it is saved under `name`.
pub open spec fn saved_meta(m: MetaView, name: Seq<char>) -> MetaView {
    MetaView { name: Some(name), form: ResultForm::QueryBacked, ..m }
}

/// The metadata a named result gets once it is materialized at time `at`.
pub open spec fn materialized_meta(m: MetaView, at: Seq<char>) -> MetaView {
    MetaView { materialized_at: Some(at), form: ResultForm::Materialized, ..m }
}

/// The metadata listed for a named result whose hits are not in the table.
pub open spec fn pending_meta(name: Seq<char>, r: RecordView, corpus_id: Seq<char>) -> MetaView {
    MetaView {
        handle: r.handle,
        query: r.cql,
        created_at: r.created_at,
        materialized_at: None,
        hit_count: r.hit_count,
        corpus_id,
        name: Some(name),
        form: ResultForm::QueryBacked,
    }
}

impl State {
    /// The corpus this daemon serves.
    pub closed spec fn corpus(&self) -> Seq<char> {
        self.corpus_id@
    }

    /// The named results in the order they were saved.
    pub closed spec fn named_list(&self) -> Seq<(Seq<char>, RecordView)> {
        named_views(self.named_results@)
    }

    closed spec fn result_index(&self, h: Seq<char>) -> int {
        choose|i: int| 0 <= i < self.results@.len() && self.results@[i].metadata.handle@ == h
    }

    /// The result stored under handle `h`.
    pub closed spec fn result_of(&self, h: Seq<char>) -> Option<ResultView> {
        if self.handles().contains(h) {
            Some(result_view(self.results@[self.result_index(h)]))
        } else {
            None
        }
    }

    closed spec fn record_index(&self, n: Seq<char>) -> int {
        choose|i: int| 0 <= i < self.named_results@.len() && self.named_results@[i].0@ == n
    }

    /// The record saved under the name `n`.
    pub closed spec fn record_of(&self, n: Seq<char>) -> Option<RecordView> {
        if self.named().contains(n) {
            Some(record_view(self.named_results@[self.record_index(n)].1))
        } else {
            None
        }
    }

    /// Everything but the result table and the named results is the same in both states.
    pub open spec fn same_session(&self, o: &State) -> bool {
        &&& self.ids() == o.ids()
        &&& self.anchor_list() == o.anchor_list()
        &&& self.subscribers(Topic::RosterChanged) == o.subscribers(Topic::RosterChanged)
        &&& self.subscribers(Topic::NamedResultsChanged) == o.subscribers(Topic::NamedResultsChanged)
        &&& self.next_id() == o.next_id()
        &&& self.next_anchor() == o.next_anchor()
        &&& self.epoch() == o.epoch()
        &&& self.is_shutting_down() == o.is_shutting_down()
        &&& self.emptied_at() == o.emptied_at()
        &&& self.corpus() == o.corpus()
    }

    /// The results of `o` are those of `self`, but for handle `h`.
    pub open spec fn results_agree_except(&self, o: &State, h: Seq<char>) -> bool {
        forall|k: Seq<char>| k != h ==> #[trigger] self.result_of(k) == o.result_of(k)
    }

    proof fn lemma_result_at(&self, i: int)
        requires
            self.handles().no_duplicates(),
            0 <= i < self.results@.len(),
        ensures
            self.handles().contains(self.results@[i].metadata.handle@),
            self.result_index(self.results@[i].metadata.handle@) == i,
            self.result_of(self.results@[i].metadata.handle@) == Some(result_view(self.results@[i])),
    {
        let h = self.results@[i].metadata.handle@;
        assert(self.handles()[i] == h);
        let j = self.result_index(h);
        assert(self.handles()[j] == h);
    }

    proof fn lemma_record_at(&self, i: int)
        requires
            self.named().no_duplicates(),
            0 <= i < self.named_results@.len(),
        ensures
            self.named().contains(self.named_results@[i].0@),
            self.record_index(self.named_results@[i].0@) == i,
            self.record_of(self.named_results@[i].0@) == Some(record_view(self.named_results@[i].1)),
    {
        let n = self.named_results@[i].0@;
        assert(self.named()[i] == n);
        let j = self.record_index(n);
        assert(self.named()[j] == n);
    }

    proof fn lemma_no_result(&self, h: Seq<char>)
        requires
            forall|i: int| 0 <= i < self.results@.len() ==> self.results@[i].metadata.handle@ != h,
        ensures
            self.result_of(h) is None,
    {
        if self.handles().contains(h) {
            let i = choose|i: int| 0 <= i < self.handles().len() && self.handles()[i] == h;
            assert(self.results@[i].metadata.handle@ == h);
        }
    }

    proof fn lemma_no_record(&self, n: Seq<char>)
        requires
            forall|i: int| 0 <= i < self.named_results@.len() ==> self.named_results@[i].0@ != n,
        ensures
            self.record_of(n) is None,
    {
        if self.named().contains(n) {
            let i = choose|i: int| 0 <= i < self.named().len() && self.named()[i] == n;
            assert(self.named_results@[i].0@ == n);
        }
    }

    /// Position of the result stored under `h`.
    fn find_result(&self, h: &str) -> (r: Option<usize>)
        ensures
            r matches Some(i) ==> i < self.results@.len() && self.results@[i as int].metadata.handle@ == h@,
            r is None ==> forall|i: int| 0 <= i < self.results@.len() ==> self.results@[i].metadata.handle@ != h@,
    {
        let mut i: usize = 0;
        while i < self.results.len()
            invariant
                0 <= i <= self.results@.len(),
                forall|j: int| 0 <= j < i ==> self.results@[j].metadata.handle@ != h@,
            decreases self.results@.len() - i,
        {
            if str_eq(self.results[i].metadata.handle.as_str(), h) {
                return Some(i);
            }
            i = i + 1;
        }
        None
    }

    /// Position of the record saved under `n`.
    fn find_record(&self, n: &str) -> (r: Option<usize>)
        ensures
            r matches Some(i) ==> i < self.named_results@.len() && self.named_results@[i as int].0@ == n@,
            r is None ==> forall|i: int| 0 <= i < self.named_results@.len() ==> self.named_results@[i].0@ != n@,
    {
        let mut i: usize = 0;
        while i < self.named_results.len()
            invariant
                0 <= i <= self.named_results@.len(),
                forall|j: int| 0 <= j < i ==> self.named_results@[j].0@ != n@,
            decreases self.named_results@.len() - i,
        {
            if str_eq(self.named_results[i].0.as_str(), n) {
                return Some(i);
            }
            i = i + 1;
        }
        None
    }


    /// Stores `hits` as a session result of query `cql` under `handle`, created at
    /// `created_at`; a result already stored under that handle is replaced.
    pub fn insert_result_with(&mut self, cql: String, hits: Vec<Hit>, handle: String, created_at: String) -> (r: ResultMetadata)
        requires
            old(self).wf(),
        ensures
            final(self).wf(),
            meta_view(r) == (MetaView {
                handle: handle@,
                query: cql@,
                created_at: created_at@,
                materialized_at: None,
                hit_count: hits@.len() as u64,
                corpus_id: old(self).corpus(),
                name: None,
                form: ResultForm::Session,
            }),
            final(self).result_of(handle@) == Some(ResultView { meta: meta_view(r), cql: cql@, hits: hits@ }),
            final(self).results_agree_except(old(self), handle@),
            final(self).named_list() == old(self).named_list(),
            final(self).same_session(old(self)),
    {
        let metadata = ResultMetadata {
            handle: handle.clone(),
            query: cql.clone(),
            created_at,
            materialized_at: None,
            hit_count: hits.len() as u64,
            corpus_id: self.corpus_id.clone(),
            name: None,
            form: ResultForm::Session,
        };
        let reply = clone_metadata(&metadata);
        let entry = ResultEntry { cql, hits, metadata };
        self.put_result(entry);
        reply
    }

    /// Stores `entry` under its handle, replacing what was stored there.
    fn put_result(&mut self, entry: ResultEntry)
        requires
            old(self).wf(),
        ensures
            final(self).wf(),
            final(self).result_of(entry.metadata.handle@) == Some(result_view(entry)),
            final(self).results_agree_except(old(self), entry.metadata.handle@),
            final(self).named_list() == old(self).named_list(),
            final(self).same_session(old(self)),
            final(self).named_results == old(self).named_results,
    {
        let ghost h = entry.metadata.handle@;
        let ghost before = self.results@;
        proof {
            old(self).lemma_results_frame();
        }
        match self.find_result(entry.metadata.handle.as_str()) {
            Some(i) => {
                let _ = self.results.remove(i);
                self.results.insert(i, entry);
                proof {
                    assert(self.results@ =~= before.update(i as int, entry));
                    assert(self.handles() =~= old(self).handles());
                    self.lemma_result_at(i as int);
                    assert forall|k: Seq<char>| k != h implies #[trigger] self.result_of(k) == old(self).result_of(k) by {
                        if old(self).handles().contains(k) {
                            let j = choose|j: int| 0 <= j < old(self).handles().len() && old(self).handles()[j] == k;
                            old(self).lemma_result_at(j);
                            self.lemma_result_at(j);
                        }
                    }
                }
            },
            None => {
                self.results.push(entry);
                proof {
                    assert(self.handles() =~= old(self).handles().push(h));
                    assert(!old(self).handles().contains(h)) by {
                        if old(self).handles().contains(h) {
                            let j = choose|j: int| 0 <= j < old(self).handles().len() && old(self).handles()[j] == h;
                            assert(before[j].metadata.handle@ == h);
                        }
                    }
                    self.lemma_result_at(before.len() as int);
                    assert forall|k: Seq<char>| k != h implies #[trigger] self.result_of(k) == old(self).result_of(k) by {
                        if old(self).handles().contains(k) {
                            let j = choose|j: int| 0 <= j < old(self).handles().len() && old(self).handles()[j] == k;
                            old(self).lemma_result_at(j);
                            self.lemma_result_at(j);
                        } else {
                            assert(!self.handles().contains(k)) by {
                                if self.handles().contains(k) {
                                    let j = choose|j: int| 0 <= j < self.handles().len() && self.handles()[j] == k;
                                    if j < before.len() {
                                        assert(old(self).handles()[j] == k);
                                    }
                                }
                            }
                        }
                    }
                }
            },
        }
    }

    /// The named results as (name, record) pairs, in the order they were saved.
    pub fn named_entries(&self) -> (r: Vec<(String, NamedResultRecord)>)
        ensures
            named_views(r@) == self.named_list(),
    {
        let mut r: Vec<(String, NamedResultRecord)> = Vec::new();
        let mut i: usize = 0;
        while i < self.named_results.len()
            invariant
                0 <= i <= self.named_results@.len(),
                named_views(r@) == named_views(self.named_results@).subrange(0, i as int),
            decreases self.named_results@.len() - i,
        {
            let name = self.named_results[i].0.clone();
            let rec = clone_record(&self.named_results[i].1);
            let ghost r0 = r@;
            r.push((name, rec));
            i = i + 1;
            proof {
                assert(named_views(r@) =~= named_views(r0).push((self.named_results@[i - 1].0@, record_view(self.named_results@[i - 1].1))));
                assert(named_views(r@) =~= named_views(self.named_results@).subrange(0, i as int));
            }
        }
        proof { assert(named_views(self.named_results@).subrange(0, i as int) =~= named_views(self.named_results@)); }
        r
    }

    /// What saving the result under `handle` as `name` will persist: the named results with
    /// the new one at the end. Refused as `save_result` refuses it.
    pub fn plan_save(&self, handle: &str, name: &str) -> (r: Result<Vec<(String, NamedResultRecord)>, ProtocolError>)
        requires
            self.wf(),
        ensures
            self.record_of(name@) is Some ==> (r matches Err(e) && e.code == error_codes::NAMED_RESULT_ALREADY_EXISTS),
            self.record_of(name@) is None && self.result_of(handle@) is None ==> (r matches Err(e)
                && e.code == error_codes::RESULT_HANDLE_INVALID),
            r matches Ok(v) ==> self.record_of(name@) is None && (self.result_of(handle@) matches Some(res)
                && named_views(v@) == self.named_list().push((name@, RecordView {
                    handle: handle@, cql: res.cql, hit_count: res.meta.hit_count, created_at: res.meta.created_at,
                }))),
    {
        proof { self.lemma_results_frame(); }
        if let Some(k) = self.find_record(name) {
            proof { self.lemma_record_at(k as int); }
            return Err(name_in_use(name));
        }
        proof { self.lemma_no_record(name@); }
        let i = match self.find_result(handle) {
            Some(i) => i,
            None => {
                proof { self.lemma_no_result(handle@); }
                return Err(ProtocolError::with_text(error_codes::RESULT_HANDLE_INVALID, "handle not found"));
            },
        };
        proof { self.lemma_result_at(i as int); }
        let record = NamedResultRecord {
            handle: self.results[i].metadata.handle.clone(),
            cql: self.results[i].cql.clone(),
            hit_count: self.results[i].metadata.hit_count,
            created_at: self.results[i].metadata.created_at.clone(),
        };
        let mut v = self.named_entries();
        let ghost v0 = v@;
        v.push((name.to_owned(), record));
        proof { assert(named_views(v@) =~= named_views(v0).push((name@, record_view(record)))); }
        Ok(v)
    }

    /// Saves the result stored under `handle` as `name`: the result becomes query-backed and
    /// carries the name, and a record of it is kept. Refused when the name is taken, or when no
    /// result is stored under the handle; nothing changes then.
    pub fn save_result(&mut self, handle: String, name: String) -> (r: Result<(ResultMetadata, Outgoing), ProtocolError>)
        requires
            old(self).wf(),
        ensures
            final(self).wf(),
            final(self).same_session(old(self)),
            old(self).record_of(name@) is Some ==> (r matches Err(e) && e.code == error_codes::NAMED_RESULT_ALREADY_EXISTS),
            old(self).record_of(name@) is None && old(self).result_of(handle@) is None ==> (r matches Err(e)
                && e.code == error_codes::RESULT_HANDLE_INVALID),
            r is Err ==> *final(self) == *old(self),
            r matches Ok((m, out)) ==> {
                &&& old(self).record_of(name@) is None
                &&& old(self).result_of(handle@) matches Some(res)
                &&& meta_view(m) == saved_meta(res.meta, name@)
                &&& final(self).result_of(handle@) == Some(ResultView { meta: saved_meta(res.meta, name@), ..res })
                &&& final(self).results_agree_except(old(self), handle@)
                &&& final(self).named_list() == old(self).named_list().push((name@, RecordView {
                    handle: handle@, cql: res.cql, hit_count: res.meta.hit_count, created_at: res.meta.created_at,
                }))
                &&& out.recipients@.to_set().subset_of(old(self).subscribers(Topic::NamedResultsChanged).to_set())
                &&& out.notification matches Notification::NamedResultsChanged { event, name: n, metadata: Some(nm) }
                    && event == NamedResultsEvent::Saved && n@ == name@ && meta_view(nm) == meta_view(m)
            },
            old(self).record_of(name@) is None && old(self).result_of(handle@) is Some ==> r is Ok,
    {
        proof { self.lemma_results_frame(); }
        if let Some(k) = self.find_record(name.as_str()) {
            proof { self.lemma_record_at(k as int); }
            return Err(name_in_use(name.as_str()));
        }
        proof { self.lemma_no_record(name@); }
        let i = match self.find_result(handle.as_str()) {
            Some(i) => i,
            None => {
                proof { self.lemma_no_result(handle@); }
                return Err(ProtocolError::with_text(error_codes::RESULT_HANDLE_INVALID, "handle not found"));
            },
        };
        proof { self.lemma_result_at(i as int); }
        let ghost res = result_view(self.results@[i as int]);
        let entry = self.results.remove(i);
        let record = NamedResultRecord {
            handle: entry.metadata.handle.clone(),
            cql: entry.cql.clone(),
            hit_count: entry.metadata.hit_count,
            created_at: entry.metadata.created_at.clone(),
        };
        let ResultEntry { cql, hits, metadata } = entry;
        let promoted_meta = ResultMetadata { name: Some(name.clone()), form: ResultForm::QueryBacked, ..metadata };
        let reply = clone_metadata(&promoted_meta);
        let shown = clone_metadata(&promoted_meta);
        let ghost mid = self.results@;
        self.results.insert(i, ResultEntry { cql, hits, metadata: promoted_meta });
        let ghost named_before = self.named_results@;
        self.named_results.push((name.clone(), record));
        proof {
            assert(self.results@ =~= old(self).results@.update(i as int, self.results@[i as int]));
            assert(self.handles() =~= old(self).handles());
            self.lemma_result_at(i as int);
            assert forall|k: Seq<char>| k != handle@ implies #[trigger] self.result_of(k) == old(self).result_of(k) by {
                if old(self).handles().contains(k) {
                    let j = choose|j: int| 0 <= j < old(self).handles().len() && old(self).handles()[j] == k;
                    old(self).lemma_result_at(j);
                    self.lemma_result_at(j);
                }
            }
            assert(self.named() =~= old(self).named().push(name@));
            assert(!old(self).named().contains(name@)) by {
                if old(self).named().contains(name@) {
                    let j = choose|j: int| 0 <= j < old(self).named().len() && old(self).named()[j] == name@;
                    assert(named_before[j].0@ == name@);
                }
            }
            assert(self.named_list() =~= old(self).named_list().push((name@, record_view(record))));
        }
        let recipients = self.live_subscribers(Topic::NamedResultsChanged);
        let out = Outgoing {
            recipients,
            notification: Notification::NamedResultsChanged { event: NamedResultsEvent::Saved, name, metadata: Some(shown) },
        };
        Ok((reply, out))
    }

    /// Marks the named result `name` as materialized at time `at`. Refused when no result has
    /// that name, when its hits are not in the table, or when it is materialized already;
    /// nothing changes then.
    pub fn materialize_result_at(&mut self, name: &str, at: String) -> (r: Result<(ResultMetadata, Outgoing), ProtocolError>)
        requires
            old(self).wf(),
        ensures
            final(self).wf(),
            final(self).same_session(old(self)),
            final(self).named_list() == old(self).named_list(),
            r is Err ==> *final(self) == *old(self),
            old(self).record_of(name@) is None <==> (r matches Err(e) && e.code == error_codes::NAMED_RESULT_NOT_FOUND),
            old(self).record_of(name@) matches Some(rec) ==> {
                &&& old(self).result_of(rec.handle) is None <==> (r matches Err(e) && e.code == error_codes::RESULT_HANDLE_INVALID)
                &&& (old(self).result_of(rec.handle) matches Some(res) && res.meta.form == ResultForm::Materialized)
                    <==> (r matches Err(e) && e.code == error_codes::RESULT_ALREADY_MATERIALIZED)
                &&& old(self).result_of(rec.handle) matches Some(res) ==> (res.meta.form != ResultForm::Materialized ==> (r matches Ok((m, out))
                    && meta_view(m) == materialized_meta(res.meta, at@)
                    && final(self).result_of(rec.handle) == Some(ResultView { meta: materialized_meta(res.meta, at@), ..res })
                    && final(self).results_agree_except(old(self), rec.handle)
                    && out.recipients@.to_set().subset_of(old(self).subscribers(Topic::NamedResultsChanged).to_set())
                    && (out.notification matches Notification::NamedResultsChanged { event, name: n, metadata: Some(nm) }
                        && event == NamedResultsEvent::Saved && n@ == name@ && meta_view(nm) == meta_view(m))))
            },
    {
        proof { self.lemma_results_frame(); }
        let k = match self.find_record(name) {
            Some(k) => k,
            None => {
                proof { self.lemma_no_record(name@); }
                return Err(name_not_found(name));
            },
        };
        proof { self.lemma_record_at(k as int); }
        let i = match self.find_result(self.named_results[k].1.handle.as_str()) {
            Some(i) => i,
            None => {
                proof { self.lemma_no_result(self.named_results@[k as int].1.handle@); }
                return Err(ProtocolError::with_text(error_codes::RESULT_HANDLE_INVALID, "handle not found"));
            },
        };
        proof { self.lemma_result_at(i as int); }
        if self.results[i].metadata.form == ResultForm::Materialized {
            let m1 = concat("name '", name);
            let m2 = concat(m1.as_str(), "' is already materialized");
            return Err(ProtocolError::new(error_codes::RESULT_ALREADY_MATERIALIZED, m2));
        }
        let ghost h = self.results@[i as int].metadata.handle@;
        let entry = self.results.remove(i);
        let ResultEntry { cql, hits, metadata } = entry;
        let promoted_meta = ResultMetadata { materialized_at: Some(at), form: ResultForm::Materialized, ..metadata };
        let reply = clone_metadata(&promoted_meta);
        let shown = clone_metadata(&promoted_meta);
        self.results.insert(i, ResultEntry { cql, hits, metadata: promoted_meta });
        proof {
            assert(self.results@ =~= old(self).results@.update(i as int, self.results@[i as int]));
            assert(self.handles() =~= old(self).handles());
            self.lemma_result_at(i as int);
            assert forall|q: Seq<char>| q != h implies #[trigger] self.result_of(q) == old(self).result_of(q) by {
                if old(self).handles().contains(q) {
                    let j = choose|j: int| 0 <= j < old(self).handles().len() && old(self).handles()[j] == q;
                    old(self).lemma_result_at(j);
                    self.lemma_result_at(j);
                }
            }
        }
        let recipients = self.live_subscribers(Topic::NamedResultsChanged);
        let out = Outgoing {
            recipients,
            notification: Notification::NamedResultsChanged {
                event: NamedResultsEvent::Saved,
                name: name.to_owned(),
                metadata: Some(shown),
            },
        };
        Ok((reply, out))
    }

    /// Marks the named result `name` as materialized now; see `materialize_result_at`.
    pub fn materialize_result(&mut self, name: String) -> (r: Result<(ResultMetadata, Outgoing), ProtocolError>)
        requires
            old(self).wf(),
        ensures
            final(self).wf(),
            final(self).same_session(old(self)),
            final(self).named_list() == old(self).named_list(),
            r is Err ==> *final(self) == *old(self),
            old(self).record_of(name@) is None <==> (r matches Err(e) && e.code == error_codes::NAMED_RESULT_NOT_FOUND),
            old(self).record_of(name@) matches Some(rec) ==> {
                &&& old(self).result_of(rec.handle) is None <==> (r matches Err(e) && e.code == error_codes::RESULT_HANDLE_INVALID)
                &&& (old(self).result_of(rec.handle) matches Some(res) && res.meta.form == ResultForm::Materialized)
                    <==> (r matches Err(e) && e.code == error_codes::RESULT_ALREADY_MATERIALIZED)
                &&& old(self).result_of(rec.handle) matches Some(res) ==> (res.meta.form != ResultForm::Materialized ==> (r matches Ok((m, out))
                    && m.materialized_at is Some
                    && meta_view(m) == materialized_meta(res.meta, m.materialized_at.unwrap()@)
                    && final(self).result_of(rec.handle) == Some(ResultView { meta: meta_view(m), ..res })
                    && final(self).results_agree_except(old(self), rec.handle)
                    && out.recipients@.to_set().subset_of(old(self).subscribers(Topic::NamedResultsChanged).to_set())
                    && (out.notification matches Notification::NamedResultsChanged { event, name: n, metadata: Some(nm) }
                        && event == NamedResultsEvent::Saved && n@ == name@ && meta_view(nm) == meta_view(m))))
            },
    {
        let at = now_rfc3339();
        self.materialize_result_at(name.as_str(), at)
    }

    /// The hits and metadata of the result stored under `handle`.
    pub fn result_entry(&self, handle: &str) -> (r: Option<(&[Hit], &ResultMetadata)>)
        requires
            self.wf(),
        ensures
            self.result_of(handle@) is None <==> r is None,
            r matches Some((h, m)) ==> self.result_of(handle@) == Some(ResultView { meta: meta_view(*m), cql: self.result_of(handle@).unwrap().cql, hits: h@ }),
    {
        proof { self.lemma_results_frame(); }
        match self.find_result(handle) {
            Some(i) => {
                proof { self.lemma_result_at(i as int); }
                Some((self.results[i].hits.as_slice(), &self.results[i].metadata))
            },
            None => {
                proof { self.lemma_no_result(handle@); }
                None
            },
        }
    }

    /// Looks up the named result `name`: its metadata when its hits are in the table, else what
    /// is needed to compute them again. Refused when no result has that name.
    pub fn load_named(&self, name: &str) -> (r: Result<LoadOutcome, ProtocolError>)
        requires
            self.wf(),
        ensures
            self.record_of(name@) is None <==> (r matches Err(e) && e.code == error_codes::NAMED_RESULT_NOT_FOUND),
            self.record_of(name@) matches Some(rec) ==> match r {
                Ok(LoadOutcome::Realized(m)) => self.result_of(rec.handle) matches Some(res) && meta_view(m) == res.meta,
                Ok(LoadOutcome::Pending { handle, cql, created_at }) => self.result_of(rec.handle) is None
                    && handle@ == rec.handle && cql@ == rec.cql && created_at@ == rec.created_at,
                Err(_) => false,
            },
    {
        proof { self.lemma_results_frame(); }
        let k = match self.find_record(name) {
            Some(k) => k,
            None => {
                proof { self.lemma_no_record(name@); }
                return Err(name_not_found(name));
            },
        };
        proof { self.lemma_record_at(k as int); }
        let rec = &self.named_results[k].1;
        match self.find_result(rec.handle.as_str()) {
            Some(i) => {
                proof { self.lemma_result_at(i as int); }
                Ok(LoadOutcome::Realized(clone_metadata(&self.results[i].metadata)))
            },
            None => {
                proof { self.lemma_no_result(rec.handle@); }
                Ok(LoadOutcome::Pending { handle: rec.handle.clone(), cql: rec.cql.clone(), created_at: rec.created_at.clone() })
            },
        }
    }

    /// The metadata of every named result, in the order they were saved: what the table holds
    /// for it, or, when its hits are not in the table, what its record says.
    pub fn list_named(&self) -> (r: Vec<ResultMetadata>)
        requires
            self.wf(),
        ensures
            r@.len() == self.named_list().len(),
            forall|k: int| 0 <= k < r@.len() ==> meta_view(#[trigger] r@[k]) == (match self.result_of(self.named_list()[k].1.handle) {
                Some(res) => res.meta,
                None => pending_meta(self.named_list()[k].0, self.named_list()[k].1, self.corpus()),
            }),
    {
        let mut r: Vec<ResultMetadata> = Vec::new();
        let mut k: usize = 0;
        while k < self.named_results.len()
            invariant
                0 <= k <= self.named_results@.len(),
                self.wf(),
                r@.len() == k,
                forall|q: int| 0 <= q < k ==> meta_view(#[trigger] r@[q]) == (match self.result_of(self.named_list()[q].1.handle) {
                    Some(res) => res.meta,
                    None => pending_meta(self.named_list()[q].0, self.named_list()[q].1, self.corpus()),
                }),
            decreases self.named_results@.len() - k,
        {
            proof { self.lemma_results_frame(); }
            let name = &self.named_results[k].0;
            let rec = &self.named_results[k].1;
            let m = match self.find_result(rec.handle.as_str()) {
                Some(i) => {
                    proof { self.lemma_result_at(i as int); }
                    clone_metadata(&self.results[i].metadata)
                },
                None => {
                    proof { self.lemma_no_result(rec.handle@); }
                    ResultMetadata {
                        handle: rec.handle.clone(),
                        query: rec.cql.clone(),
                        created_at: rec.created_at.clone(),
                        materialized_at: None,
                        hit_count: rec.hit_count,
                        corpus_id: self.corpus_id.clone(),
                        name: Some(name.clone()),
                        form: ResultForm::QueryBacked,
                    }
                },
            };
            r.push(m);
            k = k + 1;
        }
        r
    }

    /// Stores `hits` as a new session result of query `cql`, under a fresh handle and stamped
    /// with the current time; see `insert_result_with`.
    pub fn insert_result(&mut self, cql: String, hits: Vec<Hit>) -> (r: ResultMetadata)
        requires
            old(self).wf(),
        ensures
            final(self).wf(),
            is_result_handle(r.handle@),
            meta_view(r) == (MetaView {
                handle: r.handle@,
                query: cql@,
                created_at: r.created_at@,
                materialized_at: None,
                hit_count: hits@.len() as u64,
                corpus_id: old(self).corpus(),
                name: None,
                form: ResultForm::Session,
            }),
            final(self).result_of(r.handle@) == Some(ResultView { meta: meta_view(r), cql: cql@, hits: hits@ }),
            final(self).results_agree_except(old(self), r.handle@),
            final(self).named_list() == old(self).named_list(),
            final(self).same_session(old(self)),
    {
        let handle = generate_handle();
        let created_at = now_rfc3339();
        self.insert_result_with(cql, hits, handle, created_at)
    }

    /// Stores a result computed again for a named result, under the handle its metadata holds.
    pub fn install_replayed_result(&mut self, entry: ResultEntry)
        requires
            old(self).wf(),
        ensures
            final(self).wf(),
            final(self).result_of(entry.metadata.handle@) == Some(result_view(entry)),
            final(self).results_agree_except(old(self), entry.metadata.handle@),
            final(self).named_list() == old(self).named_list(),
            final(self).same_session(old(self)),
    {
        self.put_result(entry);
    }

    /// Removes the result stored under `handle` when it is a session result; a named result,
    /// or an unknown handle, is left as it is.
    pub fn discard_handle(&mut self, handle: &str)
        requires
            old(self).wf(),
        ensures
            final(self).wf(),
            (old(self).result_of(handle@) matches Some(res) && res.meta.form == ResultForm::Session)
                ==> final(self).result_of(handle@) is None,
            !(old(self).result_of(handle@) matches Some(res) && res.meta.form == ResultForm::Session)
                ==> *final(self) == *old(self),
            final(self).results_agree_except(old(self), handle@),
            final(self).named_list() == old(self).named_list(),
            final(self).same_session(old(self)),
    {
        proof { self.lemma_results_frame(); }
        match self.find_result(handle) {
            Some(i) => {
                proof { self.lemma_result_at(i as int); }
                if self.results[i].metadata.form == ResultForm::Session {
                    self.drop_result_at(i);
                }
            },
            None => {
                proof { self.lemma_no_result(handle@); }
            },
        }
    }

    /// Removes the result at position `i` of the table.
    fn drop_result_at(&mut self, i: usize)
        requires
            old(self).wf(),
            i < old(self).results@.len(),
        ensures
            final(self).wf(),
            final(self).result_of(old(self).results@[i as int].metadata.handle@) is None,
            final(self).results_agree_except(old(self), old(self).results@[i as int].metadata.handle@),
            final(self).named_results == old(self).named_results,
            final(self).named_list() == old(self).named_list(),
            final(self).same_session(old(self)),
    {
        proof { self.lemma_results_frame(); }
        let ghost h = self.results@[i as int].metadata.handle@;
        let ghost before = self.results@;
        let _ = self.results.remove(i);
        proof {
            assert(self.handles() =~= old(self).handles().remove(i as int));
            lemma_remove_keeps_unique(old(self).handles(), i as int);
            assert(old(self).handles()[i as int] == h);
            assert forall|j: int| 0 <= j < self.results@.len() implies self.results@[j].metadata.handle@ != h by {
                assert(self.handles()[j] == self.results@[j].metadata.handle@);
                if j < i {
                    assert(old(self).handles()[j] == self.handles()[j]);
                    assert(old(self).handles()[j] != old(self).handles()[i as int]);
                } else {
                    assert(old(self).handles()[j + 1] == self.handles()[j]);
                    assert(old(self).handles()[j + 1] != old(self).handles()[i as int]);
                }
            }
            self.lemma_no_result(h);
            assert forall|q: Seq<char>| q != h implies #[trigger] self.result_of(q) == old(self).result_of(q) by {
                if old(self).handles().contains(q) {
                    let j = choose|j: int| 0 <= j < old(self).handles().len() && old(self).handles()[j] == q;
                    old(self).lemma_result_at(j);
                    if j < i {
                        self.lemma_result_at(j);
                    } else {
                        assert(j != i);
                        assert(self.results@[j - 1] == before[j]);
                        self.lemma_result_at(j - 1);
                    }
                } else {
                    assert forall|j: int| 0 <= j < self.results@.len() implies self.results@[j].metadata.handle@ != q by {
                        if j < i {
                            assert(old(self).handles()[j] == self.handles()[j]);
                        } else {
                            assert(old(self).handles()[j + 1] == self.handles()[j]);
                        }
                    }
                    self.lemma_no_result(q);
                }
            }
        }
    }

    /// What deleting the named result `name` will persist: the other named results, in order.
    /// Refused when no result has that name.
    pub fn plan_delete(&self, name: &str) -> (r: Result<Vec<(String, NamedResultRecord)>, ProtocolError>)
        requires
            self.wf(),
        ensures
            self.record_of(name@) is None <==> (r matches Err(e) && e.code == error_codes::NAMED_RESULT_NOT_FOUND),
            r matches Ok(v) ==> named_views(v@) == self.named_list().filter(other_names(name@)),
    {
        proof { self.lemma_results_frame(); }
        match self.find_record(name) {
            Some(k) => {
                proof { self.lemma_record_at(k as int); }
            },
            None => {
                proof { self.lemma_no_record(name@); }
                return Err(name_not_found(name));
            },
        }
        let mut v: Vec<(String, NamedResultRecord)> = Vec::new();
        let mut i: usize = 0;
        let ghost pred = other_names(name@);
        while i < self.named_results.len()
            invariant
                0 <= i <= self.named_results@.len(),
                named_views(v@) == self.named_list().subrange(0, i as int).filter(pred),
                pred == other_names(name@),
            decreases self.named_results@.len() - i,
        {
            let ghost v0 = v@;
            let ghost sub = self.named_list().subrange(0, i as int);
            proof {
                assert(self.named_list().subrange(0, i + 1) =~= sub.push(self.named_list()[i as int]));
                reveal(Seq::filter);
                assert(sub.push(self.named_list()[i as int]).drop_last() =~= sub);
            }
            if !str_eq(self.named_results[i].0.as_str(), name) {
                v.push((self.named_results[i].0.clone(), clone_record(&self.named_results[i].1)));
                proof { assert(named_views(v@) =~= named_views(v0).push(self.named_list()[i as int])); }
            }
            i = i + 1;
        }
        proof { assert(self.named_list().subrange(0, i as int) =~= self.named_list()); }
        Ok(v)
    }

    /// Deletes the named result `name` and the result stored under its handle. Refused when no
    /// result has that name; nothing changes then.
    #[verifier::spinoff_prover]
    #[verifier::rlimit(30)]
    pub fn delete_named(&mut self, name: &str) -> (r: Result<Outgoing, ProtocolError>)
        requires
            old(self).wf(),
        ensures
            final(self).wf(),
            final(self).same_session(old(self)),
            old(self).record_of(name@) is None <==> (r matches Err(e) && e.code == error_codes::NAMED_RESULT_NOT_FOUND),
            r is Err ==> *final(self) == *old(self),
            r matches Ok(out) ==> {
                &&& old(self).record_of(name@) matches Some(rec)
                &&& final(self).record_of(name@) is None
                &&& final(self).named_list() == old(self).named_list().filter(other_names(name@))
                &&& final(self).result_of(rec.handle) is None
                &&& final(self).results_agree_except(old(self), rec.handle)
                &&& out.recipients@.to_set().subset_of(old(self).subscribers(Topic::NamedResultsChanged).to_set())
                &&& out.notification matches Notification::NamedResultsChanged { event, name: n, metadata: None }
                    && event == NamedResultsEvent::Deleted && n@ == name@
            },
    {
        proof { self.lemma_results_frame(); }
        let k = match self.find_record(name) {
            Some(k) => k,
            None => {
                proof { self.lemma_no_record(name@); }
                return Err(name_not_found(name));
            },
        };
        proof { self.lemma_record_at(k as int); }
        let ghost named_before = self.named_results@;
        let (_, record) = self.named_results.remove(k);
        let ghost rh = record.handle@;
        proof {
            assert(record == named_before[k as int].1);
            assert(old(self).record_of(name@) == Some(record_view(record)));
            assert(self.named() =~= old(self).named().remove(k as int));
            lemma_remove_keeps_unique(old(self).named(), k as int);
            assert(old(self).named()[k as int] == name@);
            assert forall|j: int| 0 <= j < self.named_results@.len() implies self.named_results@[j].0@ != name@ by {
                assert(self.named()[j] == self.named_results@[j].0@);
                if j < k {
                    assert(old(self).named()[j] == self.named()[j]);
                    assert(old(self).named()[j] != old(self).named()[k as int]);
                } else {
                    assert(old(self).named()[j + 1] == self.named()[j]);
                    assert(old(self).named()[j + 1] != old(self).named()[k as int]);
                }
            }
            self.lemma_no_record(name@);
            assert forall|j: int| 0 <= j < old(self).named_list().len() && j != k implies old(self).named_list()[j].0 != name@ by {
                assert(old(self).named_list()[j].0 == old(self).named()[j]);
                assert(old(self).named()[j] != old(self).named()[k as int]);
            }
            lemma_filter_unique(old(self).named_list(), k as int, name@);
            assert(named_views(self.named_results@) =~= old(self).named_list().remove(k as int));
        }
        let ghost mid = *self;
        match self.find_result(record.handle.as_str()) {
            Some(i) => {
                self.drop_result_at(i);
            },
            None => {
                proof { self.lemma_no_result(rh); }
            },
        }
        proof {
            assert(self.result_of(rh) is None);
            assert(self.named_results == mid.named_results);
            assert(self.record_of(name@) == mid.record_of(name@));
            assert(self.named_list() == old(self).named_list().filter(other_names(name@)));
            assert forall|q: Seq<char>| q != rh implies #[trigger] self.result_of(q) == old(self).result_of(q) by {
                assert(self.result_of(q) == mid.result_of(q));
                assert(mid.results == old(self).results);
            }
        }
        let recipients = self.live_subscribers(Topic::NamedResultsChanged);
        Ok(Outgoing {
            recipients,
            notification: Notification::NamedResultsChanged { event: NamedResultsEvent::Deleted, name: name.to_owned(), metadata: None },
        })
    }

    /// Replaces the named results with those read back from storage; where a name occurs more
    /// than once, the last occurrence counts. The result table is not touched.
    pub fn replay_named_results(&mut self, loaded: Vec<(String, NamedResultRecord)>)
        requires
            old(self).wf(),
        ensures
            final(self).wf(),
            forall|n: Seq<char>| #[trigger] final(self).record_of(n) == last_record(named_views(loaded@), n),
            forall|h: Seq<char>| #[trigger] final(self).result_of(h) == old(self).result_of(h),
            final(self).same_session(old(self)),
    {
        self.named_results = Vec::new();
        let mut i: usize = 0;
        let ghost lv = named_views(loaded@);
        proof {
            assert(self.named() =~= Seq::<Seq<char>>::empty());
            assert forall|n: Seq<char>| #[trigger] self.record_of(n) == last_record(lv.subrange(0, 0), n) by {
                self.lemma_no_record(n);
            }
            assert forall|h: Seq<char>| #[trigger] self.result_of(h) == old(self).result_of(h) by {}
        }
        while i < loaded.len()
            invariant
                0 <= i <= loaded@.len(),
                lv == named_views(loaded@),
                self.wf(),
                self.same_session(old(self)),
                self.results == old(self).results,
                forall|n: Seq<char>| #[trigger] self.record_of(n) == last_record(lv.subrange(0, i as int), n),
            decreases loaded@.len() - i,
        {
            let name = loaded[i].0.clone();
            let rec = clone_record(&loaded[i].1);
            self.put_record(name, rec);
            i = i + 1;
            proof {
                let sub = lv.subrange(0, i as int);
                assert(sub.drop_last() =~= lv.subrange(0, i - 1));
                assert(sub.last() == lv[i - 1]);
                assert forall|n: Seq<char>| #[trigger] self.record_of(n) == last_record(sub, n) by {}
            }
        }
        proof {
            assert(lv.subrange(0, i as int) =~= lv);
            assert forall|h: Seq<char>| #[trigger] self.result_of(h) == old(self).result_of(h) by {}
        }
    }

    /// Keeps `rec` under `name`, replacing what was kept under that name.
    fn put_record(&mut self, name: String, rec: NamedResultRecord)
        requires
            old(self).wf(),
        ensures
            final(self).wf(),
            final(self).record_of(name@) == Some(record_view(rec)),
            forall|n: Seq<char>| n != name@ ==> #[trigger] final(self).record_of(n) == old(self).record_of(n),
            final(self).results == old(self).results,
            final(self).same_session(old(self)),
    {
        proof { self.lemma_results_frame(); }
        let ghost nm = name@;
        let ghost before = self.named_results@;
        match self.find_record(name.as_str()) {
            Some(k) => {
                let _ = self.named_results.remove(k);
                self.named_results.insert(k, (name, rec));
                proof {
                    assert(self.named_results@ =~= before.update(k as int, self.named_results@[k as int]));
                    assert(self.named() =~= old(self).named());
                    self.lemma_record_at(k as int);
                    assert forall|n: Seq<char>| n != nm implies #[trigger] self.record_of(n) == old(self).record_of(n) by {
                        if old(self).named().contains(n) {
                            let j = choose|j: int| 0 <= j < old(self).named().len() && old(self).named()[j] == n;
                            old(self).lemma_record_at(j);
                            self.lemma_record_at(j);
                        }
                    }
                }
            },
            None => {
                self.named_results.push((name, rec));
                proof {
                    assert(self.named() =~= old(self).named().push(nm));
                    assert(!old(self).named().contains(nm)) by {
                        if old(self).named().contains(nm) {
                            let j = choose|j: int| 0 <= j < old(self).named().len() && old(self).named()[j] == nm;
                            assert(before[j].0@ == nm);
                        }
                    }
                    self.lemma_record_at(before.len() as int);
                    assert forall|n: Seq<char>| n != nm implies #[trigger] self.record_of(n) == old(self).record_of(n) by {
                        if old(self).named().contains(n) {
                            let j = choose|j: int| 0 <= j < old(self).named().len() && old(self).named()[j] == n;
                            old(self).lemma_record_at(j);
                            self.lemma_record_at(j);
                        } else {
                            assert(!self.named().contains(n)) by {
                                if self.named().contains(n) {
                                    let j = choose|j: int| 0 <= j < self.named().len() && self.named()[j] == n;
                                    if j < before.len() {
                                        assert(old(self).named()[j] == n);
                                    }
                                }
                            }
                        }
                    }
                }
            },
        }
    }

    proof fn lemma_results_frame(&self)
        requires
            self.wf(),
        ensures
            self.handles().no_duplicates(),
            self.named().no_duplicates(),
    {
    }

} // impl State

/// A fresh result handle: `r-` and a random (version 4) UUID.
///
/// Calls `uuid::Uuid::new_v4` and writes the UUID after the prefix with its `Display`, which is
/// the lower-case hyphenated form: 8, 4, 4, 4 and 12 hexadecimal digits joined by hyphens, the
/// version digit `4` first in the third group. The contract claims that form; which digits
/// come out is random and is not stated.
#[verifier::external_body]
fn generate_handle() -> (r: String)
    ensures
        is_result_handle(r@),
{
    format!("r-{}", uuid::Uuid::new_v4())
}

/// A handle as `generate_handle` makes them: `r-`, then a version 4 UUID in lower-case
/// hyphenated form.
pub open spec fn is_result_handle(s: Seq<char>) -> bool {
    &&& s.len() == 38
    &&& s[0] == 'r'
    &&& s[1] == '-'
    &&& s[16] == '4'
    &&& forall|k: int| 2 <= k < 38 ==> if k == 10 || k == 15 || k == 20 || k == 25 {
        #[trigger] s[k] == '-'
    } else {
        ('0' <= s[k] <= '9') || ('a' <= s[k] <= 'f')
    }
}

/// The current UTC time in RFC 3339 form.
///
/// Calls `time::OffsetDateTime::now_utc` and formats it with the RFC 3339 description; the
/// text depends on the clock, so no contract is claimed of it. A formatting failure, which
/// the `time` crate reports only for years that cannot be written in four digits, gives the
/// empty string.
#[verifier::external_body]
fn now_rfc3339() -> (r: String)
{
    time::OffsetDateTime::now_utc().format(&time::format_description::well_known::Rfc3339).unwrap_or_default()
}

/// Removing an element keeps a list free of repeats.
proof fn lemma_remove_keeps_unique<A>(s: Seq<A>, i: int)
    requires
        s.no_duplicates(),
        0 <= i < s.len(),
    ensures
        s.remove(i).no_duplicates(),
{
    let t = s.remove(i);
    assert forall|a: int, b: int| 0 <= a < t.len() && 0 <= b < t.len() && a != b implies t[a] != t[b] by {
        let oa = if a < i { a } else { a + 1 };
        let ob = if b < i { b } else { b + 1 };
        assert(t[a] == s[oa]);
        assert(t[b] == s[ob]);
    }
}

/// Filtering one name out of a list in which it occurs once, at `k`, removes position `k`.
proof fn lemma_filter_unique(v: Seq<(Seq<char>, RecordView)>, k: int, n: Seq<char>)
    requires
        0 <= k < v.len(),
        v[k].0 == n,
        forall|j: int| 0 <= j < v.len() && j != k ==> v[j].0 != n,
    ensures
        v.filter(other_names(n)) == v.remove(k),
    decreases v.len(),
{
    reveal(Seq::filter);
    if k == v.len() - 1 {
        assert(v.drop_last() =~= v.remove(k));
        lemma_filter_keeps_all(v.drop_last(), n);
    } else {
        lemma_filter_unique(v.drop_last(), k, n);
        assert(v.drop_last().remove(k).push(v.last()) =~= v.remove(k));
    }
}

/// Filtering out a name that does not occur keeps the list.
proof fn lemma_filter_keeps_all(v: Seq<(Seq<char>, RecordView)>, n: Seq<char>)
    requires
        forall|j: int| 0 <= j < v.len() ==> v[j].0 != n,
    ensures
        v.filter(other_names(n)) == v,
    decreases v.len(),
{
    reveal(Seq::filter);
    if v.len() > 0 {
        lemma_filter_keeps_all(v.drop_last(), n);
        assert(v.drop_last().push(v.last()) =~= v);
    }
}

fn name_in_use(name: &str) -> (e: ProtocolError)
    ensures
        e.code == error_codes::NAMED_RESULT_ALREADY_EXISTS,
{
    let m1 = concat("name '", name);
    let m2 = concat(m1.as_str(), "' already in use");
    ProtocolError::new(error_codes::NAMED_RESULT_ALREADY_EXISTS, m2)
}

fn name_not_found(name: &str) -> (e: ProtocolError)
    ensures
        e.code == error_codes::NAMED_RESULT_NOT_FOUND,
{
    let m1 = concat("name '", name);
    let m2 = concat(m1.as_str(), "' not found");
    ProtocolError::new(error_codes::NAMED_RESULT_NOT_FOUND, m2)
}

/// A copy of result metadata.
pub fn clone_metadata(m: &ResultMetadata) -> (r: ResultMetadata)
    ensures
        meta_view(r) == meta_view(*m),
{
    ResultMetadata {
        handle: m.handle.clone(),
        query: m.query.clone(),
        created_at: m.created_at.clone(),
        materialized_at: clone_opt(&m.materialized_at),
        hit_count: m.hit_count,
        corpus_id: m.corpus_id.clone(),
        name: clone_opt(&m.name),
        form: m.form,
    }
}

fn clone_opt(o: &Option<String>) -> (r: Option<String>)
    ensures
        opt_view(r) == opt_view(*o),
{
    match o {
        Some(s) => Some(s.clone()),
        None => None,
    }
}

/// A copy of a named-result record.
pub fn clone_record(r: &NamedResultRecord) -> (c: NamedResultRecord)
    ensures
        record_view(c) == record_view(*r),
{
    NamedResultRecord { handle: r.handle.clone(), cql: r.cql.clone(), hit_count: r.hit_count, created_at: r.created_at.clone() }
}

/// The named results that lines of the named-results file give, in file order: each line read
/// as metadata (`None` when it could not be) that carries a name gives that name and its
/// record; other lines give nothing.
pub open spec fn records_from_lines(lines: Seq<Option<ResultMetadata>>) -> Seq<(Seq<char>, RecordView)>
    decreases lines.len(),
{
    if lines.len() == 0 {
        Seq::empty()
    } else {
        let prev = records_from_lines(lines.drop_last());
        match lines.last() {
            Some(m) => match m.name {
                Some(n) => prev.push((n@, RecordView { handle: m.handle@, cql: m.query@, hit_count: m.hit_count, created_at: m.created_at@ })),
                None => prev,
            },
            None => prev,
        }
    }
}

/// The named results the lines of the named-results file give; see `records_from_lines`. What
/// `replay_named_results` takes.
pub fn named_records_from_lines(lines: Vec<Option<ResultMetadata>>) -> (r: Vec<(String, NamedResultRecord)>)
    ensures
        named_views(r@) == records_from_lines(lines@),
{
    let mut r: Vec<(String, NamedResultRecord)> = Vec::new();
    let mut i: usize = 0;
    while i < lines.len()
        invariant
            0 <= i <= lines@.len(),
            named_views(r@) == records_from_lines(lines@.subrange(0, i as int)),
        decreases lines@.len() - i,
    {
        let ghost r0 = named_views(r@);
        proof {
            assert(lines@.subrange(0, i + 1).drop_last() =~= lines@.subrange(0, i as int));
            assert(lines@.subrange(0, i + 1).last() == lines@[i as int]);
        }
        match &lines[i] {
            Some(m) => match &m.name {
                Some(n) => {
                    let rec = NamedResultRecord {
                        handle: m.handle.clone(),
                        cql: m.query.clone(),
                        hit_count: m.hit_count,
                        created_at: m.created_at.clone(),
                    };
                    r.push((n.clone(), rec));
                    proof { assert(named_views(r@) =~= r0.push((n@, record_view(rec)))); }
                },
                None => {},
            },
            None => {},
        }
        i = i + 1;
    }
    proof { assert(lines@.subrange(0, i as int) =~= lines@); }
    r
}

/// The metadata the named-results file holds for each named result, one per line: that of
/// a query-backed result of this corpus, not materialized, under its name.
pub fn persisted_lines(corpus_id: &str, records: &Vec<(String, NamedResultRecord)>) -> (r: Vec<ResultMetadata>)
    ensures
        r@.len() == records@.len(),
        forall|k: int| 0 <= k < r@.len() ==> meta_view(#[trigger] r@[k])
            == pending_meta(records@[k].0@, record_view(records@[k].1), corpus_id@),
{
    let mut r: Vec<ResultMetadata> = Vec::new();
    let mut i: usize = 0;
    while i < records.len()
        invariant
            0 <= i <= records@.len(),
            r@.len() == i,
            forall|k: int| 0 <= k < i ==> meta_view(#[trigger] r@[k])
                == pending_meta(records@[k].0@, record_view(records@[k].1), corpus_id@),
        decreases records@.len() - i,
    {
        let rec = &records[i].1;
        r.push(ResultMetadata {
            handle: rec.handle.clone(),
            query: rec.cql.clone(),
            created_at: rec.created_at.clone(),
            materialized_at: None,
            hit_count: rec.hit_count,
            corpus_id: corpus_id.to_owned(),
            name: Some(records[i].0.clone()),
            form: ResultForm::QueryBacked,
        });
        i = i + 1;
    }
    r
}

/// Reading back what was persisted gives the named results that were persisted, in order:
/// every persisted line carries its name and record.
pub proof fn lemma_persisted_reads_back(corpus_id: Seq<char>, records: Seq<(String, NamedResultRecord)>,
    lines: Seq<ResultMetadata>)
    requires
        lines.len() == records.len(),
        forall|k: int| 0 <= k < lines.len() ==> meta_view(#[trigger] lines[k])
            == pending_meta(records[k].0@, record_view(records[k].1), corpus_id),
    ensures
        records_from_lines(lines.map_values(|m: ResultMetadata| Some(m))) == named_views(records),
    decreases lines.len(),
{
    let ls = lines.map_values(|m: ResultMetadata| Some(m));
    if lines.len() == 0 {
        assert(named_views(records) =~= Seq::<(Seq<char>, RecordView)>::empty());
    } else {
        let n = lines.len() - 1;
        lemma_persisted_reads_back(corpus_id, records.drop_last(), lines.drop_last());
        assert(ls.drop_last() =~= lines.drop_last().map_values(|m: ResultMetadata| Some(m)));
        assert(meta_view(lines[n]) == pending_meta(records[n].0@, record_view(records[n].1), corpus_id));
        let m = lines[n];
        assert(m.name is Some);
        assert(named_views(records) =~= named_views(records.drop_last()).push((records[n].0@, record_view(records[n].1))));
    }
}

} // verus!

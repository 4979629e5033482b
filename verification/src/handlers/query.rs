//! Query-result requests: pages of hits, metadata, and the life of saved results.
use vstd::prelude::*;
use crate::protocol::error_codes::{NAMED_RESULT_ALREADY_EXISTS, PAGE_LIMIT_EXCEEDED, RESULT_HANDLE_INVALID};
use crate::protocol::{
    clone_hit, same_hit, Hit, NamedResultEntry, OkReply, ProtocolError, QueryDeleteNamedParams, QueryDiscardParams,
    QueryHitsParams, QueryHitsReply, QueryListNamedReply, QueryLoadReply, QueryMaterializeParams,
    QueryMaterializeReply, QueryMetadataParams, QuerySaveParams, QuerySaveReply, ResultForm, ResultMetadata, Topic,
};
use crate::state::{NamedResultsEvent, Notification, Outgoing, ResultEntry, State, LoadOutcome};
use crate::state::results::{clone_metadata, meta_view, opt_view, saved_meta, MetaView, RecordView, ResultView};
use crate::text::{concat, decimal_digits, u64_to_decimal};

verus! {

/// The most hits a page may ask for.
pub const MAX_HITS_PER_PAGE: u64 = 1000;

/// `[start, end)` of the page at `offset` of at most `limit` hits, in a list of `n`.
pub open spec fn page_bounds(n: int, offset: u64, limit: u64) -> (int, int) {
    let o = offset as usize as int;
    let start = if o < n { o } else { n };
    let l = limit as usize as int;
    let e = if start + l > usize::MAX { usize::MAX as int } else { start + l };
    (start, if e < n { e } else { n })
}

/// A page of the hits of a stored result. Refused when the page is larger than
/// `MAX_HITS_PER_PAGE` or the handle is unknown.
pub fn handle_query_hits(state: &State, params: &QueryHitsParams) -> (r: Result<QueryHitsReply, ProtocolError>)
    requires
        state.wf(),
    ensures
        params.limit > MAX_HITS_PER_PAGE ==> (r matches Err(e) && e.code == PAGE_LIMIT_EXCEEDED
            && e.message@ == "limit "@ + decimal_digits(params.limit as nat) + " exceeds maximum 1000"@),
        params.limit <= MAX_HITS_PER_PAGE && state.result_of(params.handle@) is None
            ==> (r matches Err(e) && e.code == RESULT_HANDLE_INVALID),
        params.limit <= MAX_HITS_PER_PAGE && state.result_of(params.handle@) is Some ==> (r matches Ok(rep) && {
            let hits = state.result_of(params.handle@).unwrap().hits;
            let (start, end) = page_bounds(hits.len() as int, params.offset, params.limit);
            &&& rep.offset == params.offset
            &&& rep.limit == params.limit
            &&& rep.total_count == hits.len()
            &&& rep.hits@.len() == end - start
            &&& forall|k: int| 0 <= k < rep.hits@.len() ==> same_hit(#[trigger] rep.hits@[k], hits[start + k])
        }),
{
    if params.limit > MAX_HITS_PER_PAGE {
        let a = concat("limit ", u64_to_decimal(params.limit).as_str());
        proof { reveal_strlit(" exceeds maximum 1000"); }
        return Err(ProtocolError::new(PAGE_LIMIT_EXCEEDED, concat(a.as_str(), " exceeds maximum 1000")));
    }
    let hits = match state.result_entry(params.handle.as_str()) {
        Some((h, _)) => h,
        None => return Err(ProtocolError::with_text(RESULT_HANDLE_INVALID, "handle not found")),
    };
    let n = hits.len();
    let offset = params.offset as usize;
    let limit = params.limit as usize;
    let start = if offset < n { offset } else { n };
    let e = start.saturating_add(limit);
    let end = if e < n { e } else { n };
    let mut page: Vec<Hit> = Vec::new();
    let mut i = start;
    while i < end
        invariant
            start <= i <= end <= n,
            n == hits@.len(),
            page@.len() == i - start,
            forall|k: int| 0 <= k < page@.len() ==> same_hit(#[trigger] page@[k], hits@[start + k]),
        decreases end - i,
    {
        page.push(clone_hit(&hits[i]));
        i = i + 1;
    }
    Ok(QueryHitsReply { hits: page, offset: params.offset, limit: params.limit, total_count: n as u64 })
}

/// The metadata of a stored result. Refused when the handle is unknown.
pub fn handle_query_metadata(state: &State, params: &QueryMetadataParams) -> (r: Result<ResultMetadata, ProtocolError>)
    requires
        state.wf(),
    ensures
        state.result_of(params.handle@) is None <==> (r matches Err(e) && e.code == RESULT_HANDLE_INVALID),
        r matches Ok(m) ==> meta_view(m) == state.result_of(params.handle@).unwrap().meta,
{
    match state.result_entry(params.handle.as_str()) {
        Some((_, m)) => Ok(clone_metadata(m)),
        None => Err(ProtocolError::with_text(RESULT_HANDLE_INVALID, "handle not found")),
    }
}

/// Saves a result under a name; the reply says that it is now backed by its query. Refused as
/// `State::save_result` refuses.
pub fn handle_query_save(state: &mut State, params: QuerySaveParams) -> (r: Result<(QuerySaveReply, Outgoing), ProtocolError>)
    requires
        old(state).wf(),
    ensures
        final(state).wf(),
        old(state).record_of(params.name@) is Some ==> (r matches Err(e) && e.code == NAMED_RESULT_ALREADY_EXISTS),
        old(state).record_of(params.name@) is None && old(state).result_of(params.handle@) is None
            ==> (r matches Err(e) && e.code == RESULT_HANDLE_INVALID),
        old(state).record_of(params.name@) is None && old(state).result_of(params.handle@) is Some ==> r is Ok,
        r is Err ==> *final(state) == *old(state),
        r matches Ok((rep, out)) ==> {
            let res = old(state).result_of(params.handle@).unwrap();
            &&& rep.ok && rep.form == ResultForm::QueryBacked
            &&& final(state).result_of(params.handle@) == Some(ResultView { meta: saved_meta(res.meta, params.name@), ..res })
            &&& final(state).results_agree_except(old(state), params.handle@)
            &&& final(state).named_list() == old(state).named_list().push((params.name@, RecordView {
                handle: params.handle@, cql: res.cql, hit_count: res.meta.hit_count, created_at: res.meta.created_at,
            }))
            &&& final(state).same_session(old(state))
            &&& out.notification matches Notification::NamedResultsChanged { event, name: n, metadata: Some(_) }
                && event == NamedResultsEvent::Saved && n@ == params.name@
        },
{
    match state.save_result(params.handle, params.name) {
        Ok((_, out)) => Ok((QuerySaveReply { ok: true, form: ResultForm::QueryBacked }, out)),
        Err(e) => Err(e),
    }
}

/// Materializes a named result; the reply gives its hit count and when it was materialized.
/// Refused as `State::materialize_result` refuses.
pub fn handle_query_materialize(state: &mut State, params: QueryMaterializeParams)
    -> (r: Result<(QueryMaterializeReply, Outgoing), ProtocolError>)
    requires
        old(state).wf(),
    ensures
        final(state).wf(),
        r is Err <==> old(state).record_of(params.name@) is None
            || old(state).result_of(old(state).record_of(params.name@).unwrap().handle) is None
            || old(state).result_of(old(state).record_of(params.name@).unwrap().handle).unwrap().meta.form == ResultForm::Materialized,
        r matches Ok((rep, _)) ==> rep.ok
            && rep.hit_count == old(state).result_of(old(state).record_of(params.name@).unwrap().handle).unwrap().meta.hit_count
            && final(state).result_of(old(state).record_of(params.name@).unwrap().handle).unwrap().meta.materialized_at == Some(rep.materialized_at@),
        r matches Ok((rep, out)) ==> out.recipients@.to_set().subset_of(old(state).subscribers(Topic::NamedResultsChanged).to_set())
            && (out.notification matches Notification::NamedResultsChanged { event, name: n, metadata: Some(nm) }
                && event == NamedResultsEvent::Saved && n@ == params.name@
                && meta_view(nm) == final(state).result_of(old(state).record_of(params.name@).unwrap().handle).unwrap().meta),
{
    match state.materialize_result(params.name) {
        Ok((m, out)) => {
            let at = match m.materialized_at {
                Some(t) => t,
                None => String::new(),
            };
            Ok((QueryMaterializeReply { ok: true, hit_count: m.hit_count, materialized_at: at }, out))
        },
        Err(e) => Err(e),
    }
}

/// Deletes the named result; the reply says it went. Refused as `State::delete_named` refuses.
pub fn handle_query_delete_named(state: &mut State, params: &QueryDeleteNamedParams) -> (r: Result<(OkReply, Outgoing), ProtocolError>)
    requires
        old(state).wf(),
    ensures
        final(state).wf(),
        old(state).record_of(params.name@) is None <==> (r matches Err(e) && e.code == crate::protocol::error_codes::NAMED_RESULT_NOT_FOUND),
        r matches Ok((rep, _)) ==> rep.ok && final(state).record_of(params.name@) is None,
{
    match state.delete_named(params.name.as_str()) {
        Ok(out) => Ok((OkReply { ok: true }, out)),
        Err(e) => Err(e),
    }
}

/// Drops a session result; the reply is always that it went.
pub fn handle_query_discard(state: &mut State, params: &QueryDiscardParams) -> (r: OkReply)
    requires
        old(state).wf(),
    ensures
        final(state).wf(),
        r.ok,
        (old(state).result_of(params.handle@) matches Some(res) && res.meta.form == ResultForm::Session)
            ==> final(state).result_of(params.handle@) is None,
{
    state.discard_handle(params.handle.as_str());
    OkReply { ok: true }
}

/// The reply to loading a named result whose hits are in the table.
pub fn load_reply_realized(metadata: ResultMetadata) -> (r: QueryLoadReply)
    ensures
        r.handle == metadata.handle,
        r.hit_count == metadata.hit_count,
        r.form == metadata.form,
{
    QueryLoadReply { handle: metadata.handle, hit_count: metadata.hit_count, form: metadata.form }
}

/// Installs the hits computed again for the named result `name` from its stored query, and
/// answers with its handle and count, as a query-backed result.
pub fn finish_query_load(state: &mut State, name: String, handle: String, cql: String, created_at: String, corpus_id: String,
    hits: Vec<Hit>) -> (r: QueryLoadReply)
    requires
        old(state).wf(),
    ensures
        final(state).wf(),
        r.handle@ == handle@,
        r.hit_count == hits@.len(),
        r.form == ResultForm::QueryBacked,
        final(state).result_of(handle@) matches Some(res) && res.hits == hits@ && res.cql == cql@ && res.meta == (MetaView {
            handle: handle@,
            query: cql@,
            created_at: created_at@,
            materialized_at: None,
            hit_count: hits@.len() as u64,
            corpus_id: corpus_id@,
            name: Some(name@),
            form: ResultForm::QueryBacked,
        }),
{
    let hit_count = hits.len() as u64;
    let metadata = ResultMetadata {
        handle: handle.clone(),
        query: cql.clone(),
        created_at,
        materialized_at: None,
        hit_count,
        corpus_id,
        name: Some(name),
        form: ResultForm::QueryBacked,
    };
    let entry = ResultEntry { cql, hits, metadata };
    state.install_replayed_result(entry);
    QueryLoadReply { handle, hit_count, form: ResultForm::QueryBacked }
}

/// The metadata that `State::list_named` gives for the `k`-th named result.
pub open spec fn listed_meta(state: &State, k: int) -> MetaView {
    match state.result_of(state.named_list()[k].1.handle) {
        Some(res) => res.meta,
        None => crate::state::results::pending_meta(state.named_list()[k].0, state.named_list()[k].1, state.corpus()),
    }
}

/// The (name, hit count, creation time) of those of the first `n` listed results that have a
/// name, in order.
pub open spec fn named_rows(state: &State, n: nat) -> Seq<(Seq<char>, u64, Seq<char>)>
    decreases n,
{
    if n == 0 {
        Seq::empty()
    } else {
        let rest = named_rows(state, (n - 1) as nat);
        let m = listed_meta(state, n - 1);
        match m.name {
            Some(name) => rest.push((name, m.hit_count, m.created_at)),
            None => rest,
        }
    }
}

/// A named-result entry as plain values.
pub open spec fn row_of(e: NamedResultEntry) -> (Seq<char>, u64, Seq<char>) {
    (e.name@, e.hit_count, e.created_at@)
}

/// The named results, with their hit counts and creation times, in the order they were saved.
pub fn handle_query_list_named(state: &State) -> (r: QueryListNamedReply)
    requires
        state.wf(),
    ensures
        r.names@.map_values(|e: NamedResultEntry| row_of(e)) == named_rows(state, state.named_list().len()),
{
    let entries = state.list_named();
    let mut names: Vec<NamedResultEntry> = Vec::new();
    let mut i: usize = 0;
    proof { assert(names@.map_values(|e: NamedResultEntry| row_of(e)) =~= named_rows(state, 0)); }
    while i < entries.len()
        invariant
            0 <= i <= entries@.len(),
            entries@.len() == state.named_list().len(),
            forall|k: int| 0 <= k < entries@.len() ==> meta_view(#[trigger] entries@[k]) == listed_meta(state, k),
            names@.map_values(|e: NamedResultEntry| row_of(e)) == named_rows(state, i as nat),
        decreases entries@.len() - i,
    {
        let m = &entries[i];
        let ghost before = names@.map_values(|e: NamedResultEntry| row_of(e));
        proof { assert(meta_view(*m) == listed_meta(state, i as int)); }
        match &m.name {
            Some(n) => {
                let e = NamedResultEntry { name: n.clone(), hit_count: m.hit_count, created_at: m.created_at.clone() };
                names.push(e);
                proof { assert(names@.map_values(|e: NamedResultEntry| row_of(e)) =~= before.push(row_of(e))); }
            },
            None => {},
        }
        i = i + 1;
    }
    QueryListNamedReply { names }
}

} // verus!

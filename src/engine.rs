use crate::compare::{check_compare, check_compare_spec, txn_success_spec};
use crate::index::{
    coord_lt, index_before,
    index_wf,
    room,
    delete_index, put_index, DeletionView,
    delete_spec, deletes, entry_follows, from_rev_spec, get_spec, has_key, history_of, history_wf,
    index_has, latest_at, lemma_delete_spec_entry, lemma_delete_spec_len, lemma_has_after_insert,
    lemma_has_after_update, lemma_point_get, lemma_version_counts_puts, next_rev, trailing_puts,
    Deletion, HistoryView, RevisionIndex, INDEX_LIMIT,
};
use crate::pool::{ops_view, pending_of, ProposeId, SpeculativePool, SyncOp, SyncOpView};
use crate::range::{get_range, handle_range_request, lemma_range_kvs_len, range_kvs, range_spec};
use crate::store::{
    lemma_get_push,
    tombstone_kv, all_before, lemma_get_absent, store_get, tombstones_of, values_spec, VersionedStore,
};
use crate::types::{
    events_view, EventView, DeleteRangeRequestView, copy_bytes, kvs_view, opt_kv_view, DeleteRangeRequest, DeleteRangeResponse, Event, EventType,
    ExecuteError, KeyRevision, KeyValue, KeyValueView, PutRequest, PutRequestView, PutResponse,
    RangeRequest, RequestWrapper, ResponseHeader, ResponseWrapper, Revision, TxnRequest,
    TxnResponse,
};
use vstd::prelude::*;

verus! {


/// Vends response headers.
#[derive(Debug, Clone, Copy)]
pub struct HeaderSource {
    pub cluster_id: u64,
    pub member_id: u64,
    pub raft_term: u64,
}

impl HeaderSource {
    pub open spec fn header_spec(self, revision: i64) -> ResponseHeader {
        ResponseHeader {
            cluster_id: self.cluster_id,
            member_id: self.member_id,
            revision,
            raft_term: self.raft_term,
        }
    }

    /// A header that carries `revision`.
    pub fn gen_header(&self, revision: i64) -> (r: ResponseHeader)
        ensures
            r == self.header_spec(revision),
    {
        ResponseHeader {
            cluster_id: self.cluster_id,
            member_id: self.member_id,
            revision,
            raft_term: self.raft_term,
        }
    }
}

/// The pair a write to `key` replaces, if any.
pub open spec fn prev_spec(idx: Seq<HistoryView>, st: Seq<(Revision, KeyValueView)>, key: Seq<u8>) -> Option<KeyValueView> {
    let kvs = range_kvs(idx, st, key, Seq::empty(), 0);
    if kvs.len() > 0 {
        Some(kvs[0])
    } else {
        None
    }
}

/// The error a request meets on execution, if any.
pub open spec fn request_error(
    idx: Seq<HistoryView>,
    st: Seq<(Revision, KeyValueView)>,
    req: RequestWrapper,
) -> Option<ExecuteError> {
    match req {
        RequestWrapper::PutRequest(q) => if prev_spec(idx, st, q.key@) is None && (q.ignore_lease
            || q.ignore_value) {
            Some(ExecuteError::InvalidCommand)
        } else {
            None
        },
        RequestWrapper::TxnRequest(_) => Some(ExecuteError::NestedTxn),
        _ => None,
    }
}

/// Whether `resp` is the response to a request that is not a transaction.
pub open spec fn request_response(
    idx: Seq<HistoryView>,
    st: Seq<(Revision, KeyValueView)>,
    hdr: ResponseHeader,
    req: RequestWrapper,
    resp: ResponseWrapper,
) -> bool {
    match (req, resp) {
        (RequestWrapper::RangeRequest(q), ResponseWrapper::RangeResponse(r)) => r@ == range_spec(
            idx,
            st,
            hdr,
            q,
        ),
        (RequestWrapper::PutRequest(q), ResponseWrapper::PutResponse(r)) => {
            &&& r.header == hdr
            &&& opt_kv_view(r.prev_kv) == if q.prev_kv {
                prev_spec(idx, st, q.key@)
            } else {
                None
            }
        },
        (RequestWrapper::DeleteRangeRequest(q), ResponseWrapper::DeleteRangeResponse(r)) => {
            let kvs = range_kvs(idx, st, q.key@, q.range_end@, 0);
            &&& r.header == hdr
            &&& r.deleted == kvs.len()
            &&& kvs_view(r.prev_kvs@) == if q.prev_kv {
                kvs
            } else {
                Seq::empty()
            }
        },
        _ => false,
    }
}

/// The mutation a request buffers.
pub open spec fn op_of(req: RequestWrapper) -> Seq<SyncOpView> {
    match req {
        RequestWrapper::PutRequest(q) => seq![SyncOpView::Put(q@)],
        RequestWrapper::DeleteRangeRequest(q) => seq![SyncOpView::DeleteRange(q@)],
        _ => Seq::empty(),
    }
}

/// The mutations a list of requests buffers, in order.
pub open spec fn ops_of(reqs: Seq<RequestWrapper>) -> Seq<SyncOpView>
    decreases reqs.len(),
{
    if reqs.len() == 0 {
        Seq::empty()
    } else {
        ops_of(reqs.drop_last()) + op_of(reqs.last())
    }
}

/// The branch of a transaction that its compares select.
pub open spec fn txn_branch(
    idx: Seq<HistoryView>,
    st: Seq<(Revision, KeyValueView)>,
    t: TxnRequest,
) -> Seq<RequestWrapper> {
    if txn_success_spec(idx, st, t.compare@) {
        t.success@
    } else {
        t.failure@
    }
}

/// Whether some request of the list meets an error.
pub open spec fn branch_fails(
    idx: Seq<HistoryView>,
    st: Seq<(Revision, KeyValueView)>,
    reqs: Seq<RequestWrapper>,
) -> bool {
    exists|j: int| 0 <= j < reqs.len() && (#[trigger] request_error(idx, st, reqs[j])) is Some
}

/// `e` is the error of the first request of the list that meets one.
pub open spec fn first_error(
    idx: Seq<HistoryView>,
    st: Seq<(Revision, KeyValueView)>,
    reqs: Seq<RequestWrapper>,
    e: ExecuteError,
) -> bool {
    exists|j: int|
        0 <= j < reqs.len() && #[trigger] request_error(idx, st, reqs[j]) == Some(e) && forall|k: int|
            0 <= k < j ==> (#[trigger] request_error(idx, st, reqs[k])) is None
}

/// What speculative execution of `req` for proposal `id` answers, and the
/// pool it leaves.
pub open spec fn execute_spec(
    idx: Seq<HistoryView>,
    st: Seq<(Revision, KeyValueView)>,
    hdr: ResponseHeader,
    pool: Map<ProposeId, Seq<SyncOpView>>,
    id: ProposeId,
    req: RequestWrapper,
    r: Result<ResponseWrapper, ExecuteError>,
    pool2: Map<ProposeId, Seq<SyncOpView>>,
) -> bool {
    match req {
        RequestWrapper::TxnRequest(t) => {
            let branch = txn_branch(idx, st, t);
            match r {
                Ok(ResponseWrapper::TxnResponse(tr)) => {
                    &&& !branch_fails(idx, st, branch)
                    &&& tr.header == hdr
                    &&& tr.succeeded == txn_success_spec(idx, st, t.compare@)
                    &&& tr.responses@.len() == branch.len()
                    &&& forall|j: int|
                        0 <= j < branch.len() ==> request_response(
                            idx,
                            st,
                            hdr,
                            #[trigger] branch[j],
                            tr.responses@[j],
                        )
                    &&& pool2 == pool.insert(id, pending_of(pool, id) + ops_of(branch))
                },
                Ok(_) => false,
                Err(e) => {
                    &&& first_error(idx, st, branch, e)
                    &&& pool2 == pool.insert(id, pending_of(pool, id))
                },
            }
        },
        _ => match r {
            Ok(resp) => {
                &&& request_error(idx, st, req) is None
                &&& request_response(idx, st, hdr, req, resp)
                &&& pool2 == pool.insert(id, pending_of(pool, id) + op_of(req))
            },
            Err(e) => {
                &&& request_error(idx, st, req) == Some(e)
                &&& pool2 == pool.insert(id, pending_of(pool, id))
            },
        },
    }
}

/// The pair that a committed write stores.
pub open spec fn put_kv_spec(q: PutRequestView, nr: KeyRevision, prev: Option<KeyValueView>) -> KeyValueView {
    KeyValueView {
        key: q.key,
        create_revision: nr.create_revision,
        mod_revision: nr.mod_revision,
        version: nr.version,
        value: match prev {
            Some(p) => if q.ignore_value {
                p.value
            } else {
                q.value
            },
            None => q.value,
        },
        lease: match prev {
            Some(p) => if q.ignore_lease {
                p.lease
            } else {
                q.lease
            },
            None => q.lease,
        },
    }
}

/// Whether a committed write is skipped: it keeps a value or lease that
/// the key does not have.
pub open spec fn put_skipped(
    idx: Seq<HistoryView>,
    st: Seq<(Revision, KeyValueView)>,
    q: PutRequestView,
) -> bool {
    prev_spec(idx, st, q.key) is None && (q.ignore_lease || q.ignore_value)
}

/// What a delete event carries as its pair.
pub open spec fn deleted_kv(key: Seq<u8>, revision: i64) -> KeyValueView {
    KeyValueView {
        key,
        create_revision: 0,
        mod_revision: revision,
        version: 0,
        value: Seq::empty(),
        lease: 0,
    }
}

/// The store holds at `r`'s coordinate a pair of key `k` with `r`'s version
/// and revisions.
pub open spec fn entry_stored(st: Seq<(Revision, KeyValueView)>, k: Seq<u8>, r: KeyRevision) -> bool {
    match store_get(st, r.coord()) {
        Some(kv) => kv.key == k && kv.version == r.version && kv.create_revision == r.create_revision
            && kv.mod_revision == r.mod_revision,
        None => false,
    }
}

/// Every coordinate of the index has its pair in the store.
pub open spec fn store_matches(idx: Seq<HistoryView>, st: Seq<(Revision, KeyValueView)>) -> bool {
    forall|i: int, t: int|
        0 <= i < idx.len() && 0 <= t < idx[i].1.len() ==> #[trigger] entry_stored(st, idx[i].0, idx[i].1[t])
}

/// Where the store holds every coordinate of the index and every stored
/// coordinate lies before `(main, sub)`, so does every coordinate of the index.
pub proof fn lemma_index_before(idx: Seq<HistoryView>, st: Seq<(Revision, KeyValueView)>, main: i64, sub: i64)
    requires
        store_matches(idx, st),
        all_before(st, main as int, sub as int),
    ensures
        index_before(idx, main, sub),
{
    assert forall|i: int, t: int| 0 <= i < idx.len() && 0 <= t < idx[i].1.len() implies coord_lt(
        #[trigger] idx[i].1[t].coord(),
        Revision { main, sub },
    ) by {
        assert(entry_stored(st, idx[i].0, idx[i].1[t]));
        crate::store::lemma_get_some(st, idx[i].1[t].coord());
    }
}

/// Events, index and store while a commit applies its mutations.
pub struct SyncState {
    pub events: Seq<EventView>,
    pub idx: Seq<HistoryView>,
    pub st: Seq<(Revision, KeyValueView)>,
}

/// What applying a write at `(main, sub)` emits and leaves.
pub open spec fn put_step(
    idx: Seq<HistoryView>,
    st: Seq<(Revision, KeyValueView)>,
    q: PutRequestView,
    main: i64,
    sub: i64,
) -> SyncState {
    if put_skipped(idx, st, q) {
        SyncState { events: Seq::empty(), idx, st }
    } else {
        let nr = next_rev(history_of(idx, q.key), main, sub);
        let prev = prev_spec(idx, st, q.key);
        let kv = put_kv_spec(q, nr, prev);
        SyncState {
            events: seq![EventView { event_type: EventType::Put, kv, prev_kv: prev }],
            idx: put_index(idx, q.key, nr),
            st: st.push((Revision { main, sub }, kv)),
        }
    }
}

/// What deleting a range at `main`, tombstones numbered from `sub`, emits
/// and leaves.
pub open spec fn delete_step(
    idx: Seq<HistoryView>,
    st: Seq<(Revision, KeyValueView)>,
    q: DeleteRangeRequestView,
    main: i64,
    sub: i64,
) -> SyncState {
    let ds = delete_spec(idx, q.key, q.range_end, main, sub);
    SyncState {
        events: ds.map_values(
            |d: DeletionView|
                EventView {
                    event_type: EventType::Delete,
                    kv: deleted_kv(d.key, main),
                    prev_kv: store_get(st, d.prev),
                },
        ),
        idx: delete_index(idx, q.key, q.range_end, main, sub),
        st: st + ds.map_values(|d: DeletionView| (d.tombstone, tombstone_kv(d))),
    }
}

/// What applying one buffered mutation emits and leaves.
pub open spec fn op_step(
    idx: Seq<HistoryView>,
    st: Seq<(Revision, KeyValueView)>,
    op: SyncOpView,
    main: i64,
    sub: i64,
) -> SyncState {
    match op {
        SyncOpView::Put(q) => put_step(idx, st, q, main, sub),
        SyncOpView::DeleteRange(q) => delete_step(idx, st, q, main, sub),
    }
}

/// Applying buffered mutations in order at `main`: each one's events are
/// numbered after those of the mutations before it.
pub open spec fn sync_spec(
    idx: Seq<HistoryView>,
    st: Seq<(Revision, KeyValueView)>,
    ops: Seq<SyncOpView>,
    main: i64,
) -> SyncState
    decreases ops.len(),
{
    if ops.len() == 0 {
        SyncState { events: Seq::empty(), idx, st }
    } else {
        let s = sync_spec(idx, st, ops.drop_last(), main);
        let t = op_step(s.idx, s.st, ops.last(), main, s.events.len() as i64);
        SyncState { events: s.events + t.events, idx: t.idx, st: t.st }
    }
}

/// Every event stands in the index at its revision and rank.
pub open spec fn events_indexed(idx: Seq<HistoryView>, events: Seq<Event>, revision: i64, sub: int) -> bool {
    forall|k: int|
        0 <= k < events.len() ==> index_has(
            idx,
            (#[trigger] events[k]).kv.key@,
            Revision { main: revision, sub: (sub + k) as i64 },
        )
}

/// The replicated key-value engine: index, store, revision counter and the
/// mutations of proposals that wait for commit.
pub struct KvEngine {
    index: RevisionIndex,
    store: VersionedStore,
    revision: i64,
    header: HeaderSource,
    pool: SpeculativePool,
    /// Revision the engine started at
    initial_revision: Ghost<int>,
    /// Number of commits that produced events
    mutating_commits: Ghost<nat>,
}

impl KvEngine {
    pub closed spec fn index_view(&self) -> Seq<HistoryView> {
        self.index@
    }

    pub closed spec fn store_view(&self) -> Seq<(Revision, KeyValueView)> {
        self.store@
    }

    pub closed spec fn pool_view(&self) -> Map<ProposeId, Seq<SyncOpView>> {
        self.pool@
    }

    pub closed spec fn revision_spec(&self) -> i64 {
        self.revision
    }

    pub closed spec fn header_source(&self) -> HeaderSource {
        self.header
    }

    pub closed spec fn initial(&self) -> int {
        self.initial_revision@
    }

    pub closed spec fn commits_with_events(&self) -> nat {
        self.mutating_commits@
    }

    /// The header of responses at the current revision.
    pub open spec fn header_now(&self) -> ResponseHeader {
        self.header_source().header_spec(self.revision_spec())
    }

    /// Well formed: the index invariant, every stored coordinate at or before
    /// the current revision, the store holding the pair of every coordinate
    /// of the index, and the revision equal to the starting one plus
    /// the number of commits that produced events.
    pub closed spec fn wf(&self) -> bool {
        &&& self.index.wf()
        &&& all_before(self.store@, self.revision + 1, 0)
        &&& store_matches(self.index@, self.store@)
        &&& self.revision == self.initial_revision@ + self.mutating_commits@
        &&& self.revision >= 0
    }

    /// An engine with nothing stored, at `revision`.
    pub fn new(header: HeaderSource, revision: i64) -> (r: Self)
        requires
            revision >= 0,
        ensures
            r.wf(),
            r.revision_spec() == revision,
            r.initial() == revision,
            r.commits_with_events() == 0,
            r.index_view().len() == 0,
            forall|n: int| 0 <= n <= INDEX_LIMIT ==> #[trigger] r.index_within(n),
            r.store_view().len() == 0,
            r.pool_view() == Map::<ProposeId, Seq<SyncOpView>>::empty(),
            r.header_source() == header,
    {
        KvEngine {
            index: RevisionIndex::new(),
            store: VersionedStore::new(),
            revision,
            header,
            pool: SpeculativePool::new(),
            initial_revision: Ghost(revision as int),
            mutating_commits: Ghost(0),
        }
    }

    /// The current revision.
    pub fn revision(&self) -> (r: i64)
        ensures
            r == self.revision_spec(),
    {
        self.revision
    }

    /// Whether mutations are buffered for proposal `id`.
    pub fn has_proposal(&self, id: ProposeId) -> (r: bool)
        ensures
            r == self.pool_view().contains_key(id),
    {
        self.pool.contains(id)
    }

    /// Answers a request that is not a transaction, without changing anything.
    fn handle_request(&self, req: &RequestWrapper) -> (r: Result<(ResponseWrapper, Option<SyncOp>), ExecuteError>)
        requires
            self.wf(),
        ensures
            match r {
                Ok((resp, op)) => {
                    &&& request_error(self.index@, self.store@, *req) is None
                    &&& request_response(self.index@, self.store@, self.header_now(), *req, resp)
                    &&& op_of(*req) == match op {
                        Some(o) => seq![o@],
                        None => Seq::<SyncOpView>::empty(),
                    }
                },
                Err(e) => request_error(self.index@, self.store@, *req) == Some(e),
            },
    {
        let header = self.header.gen_header(self.revision);
        match req {
            RequestWrapper::RangeRequest(q) => {
                let r = handle_range_request(&self.index, &self.store, header, q);
                Ok((ResponseWrapper::RangeResponse(r), None))
            },
            RequestWrapper::PutRequest(q) => {
                let no_end: Vec<u8> = Vec::new();
                assert(no_end@ =~= Seq::<u8>::empty());
                let prevs = get_range(&self.index, &self.store, q.key.as_slice(), no_end.as_slice(), 0);
                let prev = if prevs.len() > 0 {
                    assert(kvs_view(prevs@)[0] == prevs@[0]@);
                    Some(prevs[0].duplicate())
                } else {
                    None
                };
                if prev.is_none() && (q.ignore_lease || q.ignore_value) {
                    return Err(ExecuteError::InvalidCommand);
                }
                let r = PutResponse { header, prev_kv: if q.prev_kv { prev } else { None } };
                Ok((ResponseWrapper::PutResponse(r), Some(SyncOp::Put(q.duplicate()))))
            },
            RequestWrapper::DeleteRangeRequest(q) => {
                let prevs = get_range(&self.index, &self.store, q.key.as_slice(), q.range_end.as_slice(), 0);
                proof {
                    lemma_range_kvs_len(self.index@, self.store@, q.key@, q.range_end@, 0);
                }
                let deleted = prevs.len() as i64;
                let prev_kvs = if q.prev_kv {
                    prevs
                } else {
                    let v: Vec<KeyValue> = Vec::new();
                    assert(kvs_view(v@) =~= Seq::<KeyValueView>::empty());
                    v
                };
                let r = DeleteRangeResponse { header, deleted, prev_kvs };
                Ok((ResponseWrapper::DeleteRangeResponse(r), Some(SyncOp::DeleteRange(q.duplicate()))))
            },
            RequestWrapper::TxnRequest(_) => Err(ExecuteError::NestedTxn),
        }
    }

    /// Evaluates the compares of a transaction, answers the selected branch,
    /// and returns the mutations to buffer.
    fn handle_txn_request(&self, t: &TxnRequest) -> (r: Result<(TxnResponse, Vec<SyncOp>), ExecuteError>)
        requires
            self.wf(),
        ensures
            ({
                let idx = self.index@;
                let st = self.store@;
                let branch = txn_branch(idx, st, *t);
                match r {
                    Ok((tr, ops)) => {
                        &&& !branch_fails(idx, st, branch)
                        &&& tr.header == self.header_now()
                        &&& tr.succeeded == txn_success_spec(idx, st, t.compare@)
                        &&& tr.responses@.len() == branch.len()
                        &&& forall|j: int|
                            0 <= j < branch.len() ==> request_response(
                                idx,
                                st,
                                self.header_now(),
                                #[trigger] branch[j],
                                tr.responses@[j],
                            )
                        &&& ops_view(ops@) == ops_of(branch)
                    },
                    Err(e) => first_error(idx, st, branch, e),
                }
            }),
    {
        let mut success = true;
        let mut i: usize = 0;
        while i < t.compare.len()
            invariant
                i <= t.compare@.len(),
                success == forall|k: int| 0 <= k < i ==> check_compare_spec(self.index@, self.store@, #[trigger] t.compare@[k]),
            decreases t.compare@.len() - i,
        {
            let c = check_compare(&self.index, &self.store, &t.compare[i]);
            success = success && c;
            i = i + 1;
        }
        let branch = if success {
            &t.success
        } else {
            &t.failure
        };
        let ghost bs = branch@;
        assert(bs == txn_branch(self.index@, self.store@, *t));
        let mut responses: Vec<ResponseWrapper> = Vec::new();
        let mut ops: Vec<SyncOp> = Vec::new();
        let mut j: usize = 0;
        while j < branch.len()
            invariant
                bs == branch@,
                bs == txn_branch(self.index@, self.store@, *t),
                success == txn_success_spec(self.index@, self.store@, t.compare@),
                j <= bs.len(),
                self.wf(),
                responses@.len() == j,
                forall|k: int|
                    0 <= k < j ==> request_response(
                        self.index@,
                        self.store@,
                        self.header_now(),
                        #[trigger] bs[k],
                        responses@[k],
                    ),
                forall|k: int| 0 <= k < j ==> (#[trigger] request_error(self.index@, self.store@, bs[k])) is None,
                ops_view(ops@) == ops_of(bs.take(j as int)),
            decreases bs.len() - j,
        {
            assert(bs.take(j + 1).drop_last() =~= bs.take(j as int));
            match self.handle_request(&branch[j]) {
                Ok((resp, op)) => {
                    responses.push(resp);
                    let ghost before = ops@;
                    match op {
                        Some(o) => {
                            ops.push(o);
                            assert(ops_view(ops@) =~= ops_view(before) + op_of(bs[j as int]));
                        },
                        None => {
                            assert(ops_view(ops@) =~= ops_view(before) + op_of(bs[j as int]));
                        },
                    }
                },
                Err(e) => {
                    assert(request_error(self.index@, self.store@, bs[j as int]) == Some(e));
                    return Err(e);
                },
            }
            j = j + 1;
        }
        assert(bs.take(j as int) =~= bs);
        let header = self.header.gen_header(self.revision);
        Ok((TxnResponse { header, succeeded: success, responses }, ops))
    }

    /// Executes `req` for proposal `id` without touching the index, the store
    /// or the revision: answers it as if it applied now, and buffers its
    /// mutations under `id`.
    pub fn execute(&mut self, id: ProposeId, req: &RequestWrapper) -> (r: Result<ResponseWrapper, ExecuteError>)
        requires
            old(self).wf(),
        ensures
            final(self).wf(),
            final(self).index_view() == old(self).index_view(),
            final(self).store_view() == old(self).store_view(),
            final(self).revision_spec() == old(self).revision_spec(),
            final(self).header_source() == old(self).header_source(),
            final(self).initial() == old(self).initial(),
            final(self).commits_with_events() == old(self).commits_with_events(),
            execute_spec(
                old(self).index_view(),
                old(self).store_view(),
                old(self).header_now(),
                old(self).pool_view(),
                id,
                *req,
                r,
                final(self).pool_view(),
            ),
    {
        match req {
            RequestWrapper::TxnRequest(t) => {
                match self.handle_txn_request(t) {
                    Ok((tr, ops)) => {
                        self.pool.extend(id, ops);
                        Ok(ResponseWrapper::TxnResponse(tr))
                    },
                    Err(e) => {
                        self.pool.init(id);
                        Err(e)
                    },
                }
            },
            _ => {
                match self.handle_request(req) {
                    Ok((resp, op)) => {
                        let mut ops: Vec<SyncOp> = Vec::new();
                        match op {
                            Some(o) => ops.push(o),
                            None => {},
                        }
                        assert(ops_view(ops@) =~= op_of(*req));
                        self.pool.extend(id, ops);
                        Ok(resp)
                    },
                    Err(e) => {
                        self.pool.init(id);
                        Err(e)
                    },
                }
            },
        }
    }

    /// Applies a buffered write at `(revision, sub)`.
    fn sync_put_request(&mut self, q: PutRequest, revision: i64, sub: i64) -> (r: Vec<Event>)
        requires
            old(self).index.wf(),
            old(self).index.within(1),
            all_before(old(self).store@, revision as int, sub as int),
            0 <= sub,
            store_matches(old(self).index@, old(self).store@),
        ensures
            final(self).index.wf(),
            store_matches(final(self).index@, final(self).store@),
            forall|n: int| #[trigger] old(self).index.within(n) ==> final(self).index.within(n - 1),
            forall|k: Seq<u8>, c: Revision| index_has(old(self).index@, k, c) ==> index_has(final(self).index@, k, c),
            final(self).revision == old(self).revision,
            final(self).header == old(self).header,
            final(self).pool == old(self).pool,
            final(self).initial_revision == old(self).initial_revision,
            final(self).mutating_commits == old(self).mutating_commits,
            r@.len() <= 1,
            all_before(final(self).store@, revision as int, sub + r@.len()),
            r@.len() == 0 <==> put_skipped(old(self).index@, old(self).store@, q@),
            r@.len() == 0 ==> final(self).store@ == old(self).store@,
            r@.len() == 1 ==> {
                let prev = prev_spec(old(self).index@, old(self).store@, q.key@);
                let nr = next_rev(history_of(old(self).index@, q.key@), revision, sub);
                &&& r@[0].event_type == EventType::Put
                &&& r@[0].kv@ == put_kv_spec(q@, nr, prev)
                &&& opt_kv_view(r@[0].prev_kv) == prev
                &&& range_kvs(final(self).index@, final(self).store@, q.key@, Seq::empty(), 0)
                    == seq![r@[0].kv@]
            },
            events_indexed(final(self).index@, r@, revision, sub as int),
            ({
                let s = put_step(old(self).index@, old(self).store@, q@, revision, sub);
                &&& events_view(r@) == s.events
                &&& final(self).index@ == s.idx
                &&& final(self).store@ == s.st
            }),
    {
        let no_end: Vec<u8> = Vec::new();
        assert(no_end@ =~= Seq::<u8>::empty());
        let prevs = get_range(&self.index, &self.store, q.key.as_slice(), no_end.as_slice(), 0);
        let prev = if prevs.len() > 0 {
            assert(kvs_view(prevs@)[0] == prevs@[0]@);
            Some(prevs[0].duplicate())
        } else {
            None
        };
        if prev.is_none() && (q.ignore_lease || q.ignore_value) {
            let r: Vec<Event> = Vec::new();
            assert(events_view(r@) =~= Seq::<EventView>::empty());
            return r;
        }
        let ghost oi = self.index@;
        let ghost ost = self.store@;
        proof {
            lemma_index_before(oi, ost, revision, sub);
        }
        let nr = self.index.insert_or_update(q.key.as_slice(), revision, sub);
        let ghost e = self.index@;
        let ghost pos = if has_key(oi, q.key@) {
            choose|i: int| 0 <= i < oi.len() && oi[i].0 == q.key@ && e == oi.update(i, (q.key@, oi[i].1.push(nr)))
        } else {
            choose|i: int| 0 <= i <= oi.len() && e == oi.insert(i, (q.key@, seq![nr]))
        };
        proof {
            assert forall|k: Seq<u8>, c: Revision| index_has(oi, k, c) implies index_has(self.index@, k, c) by {
                if has_key(oi, q.key@) {
                    let i = choose|i: int|
                        0 <= i < oi.len() && oi[i].0 == q.key@ && self.index@ == oi.update(i, (q.key@, oi[i].1.push(nr)));
                    lemma_has_after_update(oi, i, nr, k, c);
                } else {
                    let i = choose|i: int| 0 <= i <= oi.len() && self.index@ == oi.insert(i, (q.key@, seq![nr]));
                    lemma_has_after_insert(oi, i, (q.key@, seq![nr]), k, c);
                }
            }
            let e = self.index@;
            let i = if has_key(oi, q.key@) {
                let i = choose|i: int|
                    0 <= i < oi.len() && oi[i].0 == q.key@ && e == oi.update(i, (q.key@, oi[i].1.push(nr)));
                assert(e[i].1[oi[i].1.len() as int] == nr);
                i
            } else {
                let i = choose|i: int| 0 <= i <= oi.len() && e == oi.insert(i, (q.key@, seq![nr]));
                assert(e[i].1[0] == nr);
                i
            };
            assert(index_has(e, q.key@, Revision { main: revision, sub }));
            assert(e[i].0 == q.key@ && e[i].1.last() == nr);
            lemma_point_get(e, i);
            assert(nr.version != 0) by {
                let h = history_of(oi, q.key@);
                if h.len() > 0 && !h.last().is_tombstone() {
                    crate::index::lemma_history_of(oi, i);
                    assert(history_wf(oi[i].1));
                    assert(entry_follows(oi[i].1, oi[i].1.len() - 1));
                }
            }
            assert(latest_at(e[i].1, 0) == Some(nr));
            assert(get_spec(e, q.key@, Seq::empty(), 0) == seq![nr.coord()]);
        }
        let value = match &prev {
            Some(p) => if q.ignore_value {
                copy_bytes(&p.value)
            } else {
                copy_bytes(&q.value)
            },
            None => copy_bytes(&q.value),
        };
        let lease = match &prev {
            Some(p) => if q.ignore_lease {
                p.lease
            } else {
                q.lease
            },
            None => q.lease,
        };
        let kv = KeyValue {
            key: copy_bytes(&q.key),
            create_revision: nr.create_revision,
            mod_revision: nr.mod_revision,
            version: nr.version,
            value,
            lease,
        };
        let c = Revision { main: revision, sub };
        proof {
            assert forall|i: int| 0 <= i < self.store@.len() implies (#[trigger] self.store@[i]).0 != c by {}
            lemma_get_absent(self.store@, c);
        }
        self.store.insert(c, kv.duplicate());
        proof {
            let st1 = self.store@;
            assert(st1 == ost.push((c, kv@)));
            assert forall|a: int, t: int| 0 <= a < e.len() && 0 <= t < e[a].1.len() implies #[trigger] entry_stored(
                st1,
                e[a].0,
                e[a].1[t],
            ) by {
                lemma_get_push(ost, c, kv@, e[a].1[t].coord());
                if has_key(oi, q.key@) {
                    if a == pos && t == oi[pos].1.len() {
                        assert(e[a].1[t] == nr);
                    } else {
                        assert(e[a].1[t] == oi[a].1[t]);
                        assert(entry_stored(ost, oi[a].0, oi[a].1[t]));
                    }
                } else if a < pos {
                    assert(entry_stored(ost, oi[a].0, oi[a].1[t]));
                } else if a == pos {
                    assert(e[a].1[t] == nr);
                } else {
                    assert(entry_stored(ost, oi[a - 1].0, oi[a - 1].1[t]));
                }
            }
            let cs = seq![c];
            assert(cs.drop_last() =~= Seq::<Revision>::empty());
            assert(store_get(self.store@, c) == Some(kv@));
            assert(cs.last() == c);
            assert(values_spec(self.store@, cs.drop_last()) == Seq::<KeyValueView>::empty());
            assert(values_spec(self.store@, cs) == Seq::<KeyValueView>::empty().push(kv@));
            assert(values_spec(self.store@, cs) =~= seq![kv@]);
        }
        let mut r: Vec<Event> = Vec::new();
        r.push(Event { event_type: EventType::Put, kv, prev_kv: prev });
        assert(events_view(r@) =~= seq![r@[0]@]);
        r
    }

    /// Applies a buffered deletion at `revision`, numbering the tombstones
    /// from `sub`.
    fn sync_delete_range_request(&mut self, q: DeleteRangeRequest, revision: i64, sub: i64) -> (r: Vec<Event>)
        requires
            old(self).index.wf(),
            old(self).index.within(1),
            all_before(old(self).store@, revision as int, sub as int),
            0 <= sub,
            store_matches(old(self).index@, old(self).store@),
            sub + old(self).index@.len() <= i64::MAX,
        ensures
            final(self).index.wf(),
            store_matches(final(self).index@, final(self).store@),
            forall|n: int| #[trigger] old(self).index.within(n) ==> final(self).index.within(n - 1),
            forall|k: Seq<u8>, c: Revision| index_has(old(self).index@, k, c) ==> index_has(final(self).index@, k, c),
            final(self).revision == old(self).revision,
            final(self).header == old(self).header,
            final(self).pool == old(self).pool,
            final(self).initial_revision == old(self).initial_revision,
            final(self).mutating_commits == old(self).mutating_commits,
            r@.len() == delete_spec(old(self).index@, q.key@, q.range_end@, revision, sub).len(),
            r@.len() <= old(self).index@.len(),
            all_before(final(self).store@, revision as int, sub + r@.len()),
            r@.len() == 0 ==> final(self).store@ == old(self).store@,
            forall|k: int|
                0 <= k < r@.len() ==> {
                    let d = delete_spec(old(self).index@, q.key@, q.range_end@, revision, sub)[k];
                    &&& (#[trigger] r@[k]).event_type == EventType::Delete
                    &&& r@[k].kv@ == deleted_kv(d.key, revision)
                    &&& opt_kv_view(r@[k].prev_kv) == store_get(old(self).store@, d.prev)
                },
            events_indexed(final(self).index@, r@, revision, sub as int),
            ({
                let s = delete_step(old(self).index@, old(self).store@, q@, revision, sub);
                &&& events_view(r@) == s.events
                &&& final(self).index@ == s.idx
                &&& final(self).store@ == s.st
            }),
    {
        let ghost oi = self.index@;
        let ghost ost = self.store@;
        proof {
            lemma_index_before(oi, ost, revision, sub);
        }
        let dels = self.index.delete(q.key.as_slice(), q.range_end.as_slice(), revision, sub);
        let ghost ds = delete_spec(oi, q.key@, q.range_end@, revision, sub);
        proof {
            assert(dels@.len() == ds.len());
            assert forall|k: Seq<u8>, c: Revision| index_has(oi, k, c) implies index_has(self.index@, k, c) by {
                let (a, t) = choose|a: int, t: int|
                    0 <= a < oi.len() && 0 <= t < oi[a].1.len() && oi[a].0 == k && (#[trigger] oi[a].1[t]).coord() == c;
                assert(self.index@[a].0 == oi[a].0);
                assert(self.index@[a].1[t] == oi[a].1[t]);
            }
            assert forall|k: int| 0 <= k < dels@.len() implies (#[trigger] dels@[k]).tombstone
                == (Revision { main: revision, sub: (sub + k) as i64 }) by {
                lemma_delete_spec_entry(oi, q.key@, q.range_end@, revision, sub, k);
                assert(dels@[k]@ == ds[k]);
            }
        }
        let mut events: Vec<Event> = Vec::new();
        let mut k: usize = 0;
        while k < dels.len()
            invariant
                k <= dels@.len(),
                events@.len() == k,
                self.store@ == ost,
                dels@.map_values(|d: Deletion| d@) == ds,
                forall|j: int|
                    0 <= j < k ==> {
                        &&& (#[trigger] events@[j]).event_type == EventType::Delete
                        &&& events@[j].kv@ == deleted_kv(ds[j].key, revision)
                        &&& opt_kv_view(events@[j].prev_kv) == store_get(ost, ds[j].prev)
                    },
            decreases dels@.len() - k,
        {
            let d = &dels[k];
            assert(d@ == ds[k as int]);
            let prev_kv = self.store.get(d.prev);
            let kv = KeyValue {
                key: copy_bytes(&d.key),
                create_revision: 0,
                mod_revision: revision,
                version: 0,
                value: Vec::new(),
                lease: 0,
            };
            assert(kv@ =~= deleted_kv(ds[k as int].key, revision));
            events.push(Event { event_type: EventType::Delete, kv, prev_kv });
            k = k + 1;
        }
        proof {
            lemma_delete_spec_len(oi, q.key@, q.range_end@, revision, sub);
            assert forall|j: int| 0 <= j < dels@.len() implies store_get(ost, #[trigger] dels@[j].tombstone) is None by {
                let c = dels@[j].tombstone;
                assert forall|i: int| 0 <= i < ost.len() implies (#[trigger] ost[i]).0 != c by {}
                lemma_get_absent(ost, c);
            }
            assert forall|j: int, l: int| 0 <= j < l < dels@.len() implies #[trigger] dels@[j].tombstone
                != #[trigger] dels@[l].tombstone by {}
        }
        let _prevs = self.store.mark_deletions(dels.as_slice());
        proof {
            let added = tombstones_of(dels@);
            assert forall|i: int| 0 <= i < self.store@.len() implies (#[trigger] self.store@[i]).0.main
                < revision || (self.store@[i].0.main == revision && self.store@[i].0.sub < sub + dels@.len()) by {
                if i >= ost.len() {
                    assert(self.store@[i] == added[i - ost.len()]);
                }
            }
            if dels@.len() == 0 {
                assert(self.store@ =~= ost);
            }
            assert forall|j: int| 0 <= j < events@.len() implies index_has(
                self.index@,
                (#[trigger] events@[j]).kv.key@,
                Revision { main: revision, sub: (sub + j) as i64 },
            ) by {
                lemma_delete_spec_entry(oi, q.key@, q.range_end@, revision, sub, j);
                let i = choose|i: int|
                    0 <= i < oi.len() && deletes(oi[i], q.key@, q.range_end@) && delete_spec(oi.take(i), q.key@, q.range_end@, revision, sub).len()
                        == j && #[trigger] delete_spec(oi, q.key@, q.range_end@, revision, sub)[j].key == oi[i].0;
                let h = self.index@[i].1;
                assert(h[oi[i].1.len() as int].coord() == Revision { main: revision, sub: (sub + j) as i64 });
            }
            let dstep = delete_step(oi, ost, q@, revision, sub);
            let e = self.index@;
            let st1 = self.store@;
            assert forall|a: int, t: int| 0 <= a < e.len() && 0 <= t < e[a].1.len() implies #[trigger] entry_stored(
                st1,
                e[a].0,
                e[a].1[t],
            ) by {
                assert(e[a].0 == oi[a].0);
                if t < oi[a].1.len() {
                    assert(e[a].1[t] == oi[a].1[t]);
                    assert(entry_stored(ost, oi[a].0, oi[a].1[t]));
                    assert forall|j: int| 0 <= j < added.len() implies (#[trigger] added[j]).0 != oi[a].1[t].coord() by {
                        assert(added[j].0 == dels@[j].tombstone);
                        assert(store_get(ost, dels@[j].tombstone) is None);
                    }
                    crate::store::lemma_get_skip(ost, added, oi[a].1[t].coord());
                } else {
                    let k = delete_spec(oi.take(a), q.key@, q.range_end@, revision, sub).len() as int;
                    crate::index::lemma_delete_spec_at(oi, q.key@, q.range_end@, revision, sub, a);
                    lemma_delete_spec_entry(oi, q.key@, q.range_end@, revision, sub, k);
                    assert(dels@[k]@ == ds[k]);
                    assert(added[k] == (dels@[k].tombstone, tombstone_kv(ds[k])));
                    assert forall|l: int| k < l < added.len() implies (#[trigger] added[l]).0 != added[k].0 by {
                        assert(added[l].0 == dels@[l].tombstone);
                    }
                    crate::store::lemma_get_last_in(ost, added, k);
                    assert(e[a].1[t] == crate::index::tombstone_at(revision, sub + k));
                }
            }
            assert(events_view(events@) =~= dstep.events);
            assert(tombstones_of(dels@) =~= ds.map_values(|d: DeletionView| (d.tombstone, tombstone_kv(d))));
            assert(self.store@ =~= dstep.st);
        }
        events
    }

    /// Room in the index for `n` more keys and `n` more entries per key.
    pub open spec fn index_within(&self, n: int) -> bool {
        room(self.index_view(), n)
    }

    /// Whether proposal `id` can be committed: its mutations are buffered,
    /// the revision can advance, and the index has room for them.
    pub open spec fn can_commit_spec(&self, id: ProposeId) -> bool {
        &&& self.pool_view().contains_key(id)
        &&& self.revision_spec() < i64::MAX
        &&& self.index_within(self.pool_view()[id].len() as int)
    }

    /// Tests `can_commit_spec`.
    pub fn can_commit(&self, id: ProposeId) -> (r: bool)
        ensures
            r == self.can_commit_spec(id),
    {
        if !self.pool.contains(id) || self.revision == i64::MAX {
            return false;
        }
        let n = self.pool.pending_len(id);
        self.index.has_room(n as u64)
    }

    /// Commits proposal `id`: applies its buffered mutations in order at the
    /// next revision, numbering the events from 0, and advances the revision
    /// if and only if some event came out. Returns the revision and the
    /// events.
    pub fn commit(&mut self, id: ProposeId) -> (r: (i64, Vec<Event>))
        requires
            old(self).wf(),
            old(self).can_commit_spec(id),
        ensures
            final(self).wf(),
            final(self).pool_view() == old(self).pool_view().remove(id),
            final(self).header_source() == old(self).header_source(),
            final(self).initial() == old(self).initial(),
            r.1@.len() > 0 ==> {
                &&& r.0 == old(self).revision_spec() + 1
                &&& final(self).revision_spec() == r.0
                &&& final(self).commits_with_events() == old(self).commits_with_events() + 1
            },
            r.1@.len() == 0 ==> {
                &&& r.0 == old(self).revision_spec()
                &&& final(self).revision_spec() == r.0
                &&& final(self).commits_with_events() == old(self).commits_with_events()
                &&& final(self).store_view() == old(self).store_view()
            },
            events_indexed(final(self).index_view(), r.1@, r.0, 0),
            ({
                let s = sync_spec(
                    old(self).index_view(),
                    old(self).store_view(),
                    old(self).pool_view()[id],
                    (old(self).revision_spec() + 1) as i64,
                );
                &&& events_view(r.1@) == s.events
                &&& final(self).index_view() == s.idx
                &&& final(self).store_view() == s.st
            }),
            forall|m: int|
                #![trigger final(self).index_within(m)]
                old(self).index_within(m + old(self).pool_view()[id].len()) ==> final(self).index_within(m),
            forall|q: PutRequestView|
                old(self).pool_view()[id] == seq![SyncOpView::Put(q)] && !put_skipped(
                    old(self).index_view(),
                    old(self).store_view(),
                    q,
                ) ==> {
                    &&& r.1@.len() == 1
                    &&& range_kvs(final(self).index_view(), final(self).store_view(), q.key, Seq::empty(), 0)
                        == seq![
                        put_kv_spec(
                            q,
                            next_rev(history_of(old(self).index_view(), q.key), r.0, 0),
                            prev_spec(old(self).index_view(), old(self).store_view(), q.key),
                        ),
                    ]
                },
    {
        let ghost n = self.pool@[id].len() as int;
        let ghost pool0 = self.pool@[id];
        let ghost idx0 = self.index@;
        let mut rest = self.pool.take(id);
        let revision = self.revision;
        let next = revision + 1;
        let ghost ost = self.store@;
        let mut sub: i64 = 0;
        let mut all: Vec<Event> = Vec::new();
        proof {
            assert(n <= INDEX_LIMIT);
            assert forall|i: int| 0 <= i < ost.len() implies (#[trigger] ost[i]).0.main < next
                || (ost[i].0.main == next && ost[i].0.sub < 0) by {}
        }
        assert(pool0.skip(0) =~= pool0);
        assert(pool0.take(0) =~= Seq::<SyncOpView>::empty());
        assert(events_view(all@) =~= Seq::<EventView>::empty());
        while rest.len() > 0
            invariant
                ({
                    let s = sync_spec(idx0, ost, pool0.take(n - rest@.len()), next);
                    &&& events_view(all@) == s.events
                    &&& self.index@ == s.idx
                    &&& self.store@ == s.st
                }),
                forall|m: int| room(idx0, m) ==> #[trigger] room(self.index@, m - (n - rest@.len())),
                store_matches(self.index@, self.store@),
                rest@.len() <= n,
                n <= INDEX_LIMIT,
                self.index.wf(),
                self.index.within(rest@.len() as int),
                all_before(self.store@, next as int, sub as int),
                sub == all@.len(),
                0 <= sub <= (n - rest@.len()) * INDEX_LIMIT,
                events_indexed(self.index@, all@, next, 0),
                all@.len() == 0 ==> self.store@ == ost,
                ops_view(rest@) == pool0.skip(n - rest@.len()),
                pool0.len() == n,
                rest@.len() == n ==> self.index@ == idx0 && self.store@ == ost && all@.len() == 0,
                forall|q: PutRequestView|
                    pool0 == seq![SyncOpView::Put(q)] && !put_skipped(idx0, ost, q) && rest@.len() == 0 ==> {
                        &&& all@.len() == 1
                        &&& range_kvs(self.index@, self.store@, q.key, Seq::empty(), 0) == seq![
                            put_kv_spec(
                                q,
                                next_rev(history_of(idx0, q.key), next, 0),
                                prev_spec(idx0, ost, q.key),
                            ),
                        ]
                    },
                next == revision + 1,
                self.revision == revision,
                self.header == old(self).header,
                self.pool@ == old(self).pool@.remove(id),
                self.initial_revision == old(self).initial_revision,
                self.mutating_commits == old(self).mutating_commits,
            decreases rest@.len(),
        {
            let ghost rest0 = rest@;
            let op = rest.remove(0);
            assert(ops_view(rest@) =~= pool0.skip(n - rest@.len())) by {
                assert(rest@ =~= rest0.skip(1));
                assert forall|j: int| 0 <= j < rest@.len() implies #[trigger] ops_view(rest@)[j] == pool0.skip(n - rest@.len())[j] by {
                    assert(ops_view(rest@)[j] == rest@[j]@);
                    assert(rest@[j] == rest0[j + 1]);
                    assert(ops_view(rest0)[j + 1] == rest0[j + 1]@);
                    assert(pool0.skip(n - rest0.len())[j + 1] == pool0[n - rest0.len() + j + 1]);
                }
            }
            assert(op@ == pool0[n - rest0.len()]) by {
                assert(ops_view(rest0)[0] == rest0[0]@);
            }
            let ghost first = rest0.len() == n;
            let ghost oi = self.index@;
            let ghost oix = self.index;
            let ghost jj = n - rest0.len();
            let ghost s0 = sync_spec(idx0, ost, pool0.take(jj), next);
            proof {
                assert(pool0.take(jj + 1).drop_last() =~= pool0.take(jj));
                assert(pool0.take(jj + 1).last() == op@);
            }
            proof {
                assert(self.index.within(1)) by {
                    assert forall|a: int| 0 <= a < self.index@.len() implies (#[trigger] self.index@[a]).1.len() + 1 <= INDEX_LIMIT by {
                        assert(self.index@[a].1.len() + rest@.len() + 1 <= INDEX_LIMIT);
                    }
                }
                let j = n - rest@.len() - 1;
                assert(sub + self.index@.len() <= i64::MAX) by {
                    assert(self.index@.len() <= INDEX_LIMIT);
                    assert(j * INDEX_LIMIT + INDEX_LIMIT <= INDEX_LIMIT * INDEX_LIMIT) by (nonlinear_arith)
                        requires
                            0 <= j,
                            j + 1 <= INDEX_LIMIT,
                    ;
                }
            }
            let mut events = match op {
                SyncOp::Put(q) => self.sync_put_request(q, next, sub),
                SyncOp::DeleteRange(q) => self.sync_delete_range_request(q, next, sub),
            };
            proof {
                let j = n - rest@.len() - 1;
                assert(events@.len() <= INDEX_LIMIT);
                assert(sub + events@.len() <= (j + 1) * INDEX_LIMIT) by (nonlinear_arith)
                    requires
                        sub <= j * INDEX_LIMIT,
                        events@.len() <= INDEX_LIMIT,
                ;
                let ne = events@;
                let olds = all@;
                assert forall|k: int| 0 <= k < olds.len() + ne.len() implies index_has(
                    self.index@,
                    (#[trigger] (olds + ne)[k]).kv.key@,
                    Revision { main: next, sub: (0 + k) as i64 },
                ) by {
                    if k < olds.len() {
                        assert((olds + ne)[k] == olds[k]);
                        assert(index_has(oi, olds[k].kv.key@, Revision { main: next, sub: (0 + k) as i64 }));
                    } else {
                        assert((olds + ne)[k] == ne[k - olds.len()]);
                    }
                }
            }
            let len = events.len() as i64;
            let ghost ne = events@;
            let ghost olds = all@;
            all.append(&mut events);
            sub = sub + len;
            proof {
                if first {
                    assert(all@ =~= ne);
                }
                assert(events_view(all@) =~= events_view(olds) + events_view(ne));
                assert forall|m: int| room(idx0, m) implies #[trigger] room(self.index@, m - (n - rest@.len())) by {
                    assert(room(oi, m - jj));
                    assert(oix.within(m - jj));
                }
            }
        }
        assert(pool0.take(n) =~= pool0);
        proof {
            assert forall|m: int| room(idx0, m + n) implies room(self.index@, m) by {
                assert(room(self.index@, (m + n) - (n - rest@.len())));
            }
        }
        if all.len() > 0 {
            self.revision = next;
            self.mutating_commits = Ghost(self.mutating_commits@ + 1);
            proof {
                assert forall|i: int| 0 <= i < self.store@.len() implies (#[trigger] self.store@[i]).0.main
                    < next + 1 || (self.store@[i].0.main == next + 1 && self.store@[i].0.sub < 0) by {}
            }
            (next, all)
        } else {
            (revision, all)
        }
    }

    /// Every entry at or after `since` of the keys in range, as events: a
    /// tombstone gives a delete event, any other entry a put event.
    pub fn get_event_from_revision(&self, key: &[u8], range_end: &[u8], since: i64) -> (r: Vec<Event>)
        ensures
            r@.len() == values_spec(self.store_view(), from_rev_spec(self.index_view(), key@, range_end@, since)).len(),
            forall|k: int|
                0 <= k < r@.len() ==> {
                    let kv = values_spec(self.store_view(), from_rev_spec(self.index_view(), key@, range_end@, since))[k];
                    &&& (#[trigger] r@[k]).kv@ == kv
                    &&& r@[k].prev_kv is None
                    &&& r@[k].event_type == if kv.version == 0 && kv.create_revision == 0 {
                        EventType::Delete
                    } else {
                        EventType::Put
                    }
                },
    {
        let coords = self.index.get_from_rev(key, range_end, since);
        let values = self.store.get_values(coords.as_slice());
        let ghost vs = kvs_view(values@);
        let mut r: Vec<Event> = Vec::new();
        let total = values.len();
        assert(vs.len() == total);
        let mut rest = values;
        let mut k: usize = 0;
        while rest.len() > 0
            invariant
                k + rest@.len() == vs.len(),
                vs.len() <= usize::MAX,
                r@.len() == k,
                forall|j: int| 0 <= j < rest@.len() ==> #[trigger] rest@[j]@ == vs[k + j],
                forall|j: int|
                    0 <= j < k ==> {
                        &&& (#[trigger] r@[j]).kv@ == vs[j]
                        &&& r@[j].prev_kv is None
                        &&& r@[j].event_type == if vs[j].version == 0 && vs[j].create_revision == 0 {
                            EventType::Delete
                        } else {
                            EventType::Put
                        }
                    },
            decreases rest@.len(),
        {
            let kv = rest.remove(0);
            assert(kv@ == vs[k as int]);
            let event_type = if kv.version == 0 && kv.create_revision == 0 {
                EventType::Delete
            } else {
                EventType::Put
            };
            r.push(Event { event_type, kv, prev_kv: None });
            k = k + 1;
        }
        r
    }
}

/// The revision equals the starting revision plus the number of commits
/// that produced at least one event.
pub proof fn lemma_revision_counts_commits(e: &KvEngine)
    requires
        e.wf(),
    ensures
        e.revision_spec() == e.initial() + e.commits_with_events(),
{
}

/// The engine's invariant as seen from outside: the index is well formed,
/// the store holds the pair of every coordinate of the index, and every
/// stored coordinate is at or before the current revision.
pub proof fn lemma_engine_invariant(e: &KvEngine)
    requires
        e.wf(),
    ensures
        index_wf(e.index_view()),
        store_matches(e.index_view(), e.store_view()),
        all_before(e.store_view(), e.revision_spec() + 1, 0),
{
}

/// A point read of a key whose latest entry is live returns one pair: the
/// key, with the version and revisions of that entry.
pub proof fn lemma_point_read(e: &KvEngine, i: int)
    requires
        e.wf(),
        0 <= i < e.index_view().len(),
        !e.index_view()[i].1.last().is_tombstone(),
    ensures
        ({
            let h = e.index_view()[i].1;
            let kvs = range_kvs(e.index_view(), e.store_view(), e.index_view()[i].0, Seq::empty(), 0);
            &&& kvs.len() == 1
            &&& kvs[0].key == e.index_view()[i].0
            &&& kvs[0].version == h.last().version
            &&& kvs[0].create_revision == h.last().create_revision
            &&& kvs[0].mod_revision == h.last().mod_revision
        }),
{
    let idx = e.index_view();
    let st = e.store_view();
    let h = idx[i].1;
    assert(history_wf(h));
    assert(latest_at(h, 0) == Some(h.last()));
    lemma_point_get(idx, i);
    let c = h.last().coord();
    assert(h.last() == h[h.len() - 1]);
    assert(entry_stored(st, idx[i].0, idx[i].1[h.len() - 1]));
    let cs = seq![c];
    assert(cs.drop_last() =~= Seq::<Revision>::empty());
    assert(cs.last() == c);
    assert(values_spec(st, cs.drop_last()) == Seq::<KeyValueView>::empty());
}

/// For every key whose latest entry is live, the version that a read of it
/// returns is the number of writes to it since it was last deleted, or
/// since its first write.
pub proof fn lemma_latest_version_counts_puts(e: &KvEngine, i: int)
    requires
        e.wf(),
        0 <= i < e.index_view().len(),
        !e.index_view()[i].1.last().is_tombstone(),
    ensures
        e.index_view()[i].1.last().version == trailing_puts(e.index_view()[i].1),
        range_kvs(e.index_view(), e.store_view(), e.index_view()[i].0, Seq::empty(), 0)[0].version
            == trailing_puts(e.index_view()[i].1),
{
    lemma_point_read(e, i);
    lemma_version_counts_puts(e.index_view()[i].1);
}

/// Reading a range twice on the same index, store and header gives the same
/// response.
pub proof fn lemma_range_read_repeatable(
    idx: Seq<HistoryView>,
    st: Seq<(Revision, KeyValueView)>,
    hdr: ResponseHeader,
    req: RangeRequest,
    first: ResponseWrapper,
    second: ResponseWrapper,
)
    requires
        request_response(idx, st, hdr, RequestWrapper::RangeRequest(req), first),
        request_response(idx, st, hdr, RequestWrapper::RangeRequest(req), second),
    ensures
        match (first, second) {
            (ResponseWrapper::RangeResponse(a), ResponseWrapper::RangeResponse(b)) => a@ == b@,
            _ => false,
        },
{
}

/// A write to a key that is absent or deleted, keeping neither value nor
/// lease, creates it: the pair that a read then returns holds the written
/// value, version 1, and the commit revision as both creation and
/// modification revision.
pub proof fn lemma_put_creates(q: PutRequestView, h: Seq<KeyRevision>, revision: i64, prev: Option<KeyValueView>)
    requires
        h.len() == 0 || h.last().is_tombstone(),
        !q.ignore_value,
        !q.ignore_lease,
    ensures
        put_kv_spec(q, next_rev(h, revision, 0), prev) == (KeyValueView {
            key: q.key,
            create_revision: revision,
            mod_revision: revision,
            version: 1,
            value: q.value,
            lease: q.lease,
        }),
{
}

} // verus!

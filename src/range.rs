use crate::bytes::{bytes_cmp, compare_bytes, CompareResult, int_cmp};
use crate::compare::compare_i64;
use crate::index::{get_spec, HistoryView, RevisionIndex, INDEX_LIMIT};
use crate::store::{values_spec, VersionedStore};
use crate::types::{
    kvs_view, KeyValue, KeyValueView, RangeRequest, RangeResponse, RangeResponseView,
    ResponseHeader, Revision, SortOrder, SortTarget,
};
use vstd::prelude::*;

verus! {

/// Three-way comparison of two pairs by one field.
pub open spec fn field_cmp(a: KeyValueView, b: KeyValueView, t: SortTarget) -> CompareResult {
    match t {
        SortTarget::Key => bytes_cmp(a.key, b.key),
        SortTarget::Version => int_cmp(a.version, b.version),
        SortTarget::Create => int_cmp(a.create_revision, b.create_revision),
        SortTarget::Mod => int_cmp(a.mod_revision, b.mod_revision),
        SortTarget::Value => bytes_cmp(a.value, b.value),
    }
}

/// Whether `a` may stand before `b` when sorting by `t`.
pub open spec fn sorted_pair(a: KeyValueView, b: KeyValueView, t: SortTarget, descending: bool) -> bool {
    if descending {
        field_cmp(b, a, t) != CompareResult::Greater
    } else {
        field_cmp(a, b, t) != CompareResult::Greater
    }
}

/// Result of the stable sort of `kvs` by field `t`.
pub uninterp spec fn sorted_kvs(kvs: Seq<KeyValueView>, t: SortTarget, descending: bool) -> Seq<KeyValueView>;

/// The comparator handed to the sort.
pub fn compare_kv_fields(a: &KeyValue, b: &KeyValue, t: SortTarget, descending: bool) -> (r: std::cmp::Ordering)
    ensures
        ({
            let c = if descending {
                field_cmp(b@, a@, t)
            } else {
                field_cmp(a@, b@, t)
            };
            &&& c == CompareResult::Less <==> r == std::cmp::Ordering::Less
            &&& c == CompareResult::Equal <==> r == std::cmp::Ordering::Equal
            &&& c == CompareResult::Greater <==> r == std::cmp::Ordering::Greater
        }),
{
    let (x, y) = if descending {
        (b, a)
    } else {
        (a, b)
    };
    let c = match t {
        SortTarget::Key => compare_bytes(x.key.as_slice(), y.key.as_slice()),
        SortTarget::Version => compare_i64(x.version, y.version),
        SortTarget::Create => compare_i64(x.create_revision, y.create_revision),
        SortTarget::Mod => compare_i64(x.mod_revision, y.mod_revision),
        SortTarget::Value => compare_bytes(x.value.as_slice(), y.value.as_slice()),
    };
    match c {
        CompareResult::Less => std::cmp::Ordering::Less,
        CompareResult::Equal => std::cmp::Ordering::Equal,
        _ => std::cmp::Ordering::Greater,
    }
}

/// Relies on `slice::sort_by`: a stable sort, so its result depends on the
/// list and the comparator alone; the result is a permutation of the list in
/// comparator order.
#[verifier::external_body]
fn sort_kvs(kvs: &mut Vec<KeyValue>, t: SortTarget, descending: bool)
    ensures
        kvs_view(final(kvs)@) == sorted_kvs(kvs_view(old(kvs)@), t, descending),
        kvs_view(final(kvs)@).to_multiset() == kvs_view(old(kvs)@).to_multiset(),
        final(kvs)@.len() == old(kvs)@.len(),
        forall|i: int, j: int|
            0 <= i < j < final(kvs)@.len() ==> sorted_pair(
                #[trigger] final(kvs)@[i]@,
                #[trigger] final(kvs)@[j]@,
                t,
                descending,
            ),
{
    kvs.sort_by(|a, b| compare_kv_fields(a, b, t, descending));
}

/// Whether `s` is ordered as the request's sort field and direction ask.
pub open spec fn sorted_by_request(s: Seq<KeyValueView>, req: RangeRequest) -> bool {
    forall|i: int, j: int|
        0 <= i < j < s.len() ==> sorted_pair(
            #[trigger] s[i],
            #[trigger] s[j],
            req.sort_target,
            req.sort_order == SortOrder::Descend,
        )
}

/// The order that a range read puts its pairs in.
pub open spec fn sort_spec(kvs: Seq<KeyValueView>, t: SortTarget, o: SortOrder) -> Seq<KeyValueView> {
    match (t, o) {
        (SortTarget::Key, SortOrder::Unsorted) => kvs,
        (_, SortOrder::Descend) => sorted_kvs(kvs, t, true),
        _ => sorted_kvs(kvs, t, false),
    }
}

/// The pairs that a read of `[key, end)` at `rev` sees.
pub open spec fn range_kvs(
    idx: Seq<HistoryView>,
    st: Seq<(Revision, KeyValueView)>,
    key: Seq<u8>,
    end: Seq<u8>,
    rev: i64,
) -> Seq<KeyValueView> {
    values_spec(st, get_spec(idx, key, end, rev))
}

/// The response to a range read.
pub open spec fn range_spec(
    idx: Seq<HistoryView>,
    st: Seq<(Revision, KeyValueView)>,
    hdr: ResponseHeader,
    req: RangeRequest,
) -> RangeResponseView {
    let kvs = range_kvs(idx, st, req.key@, req.range_end@, req.revision);
    let count = kvs.len() as i64;
    if req.count_only {
        RangeResponseView { header: hdr, kvs: Seq::empty(), more: false, count }
    } else {
        let s = sort_spec(kvs, req.sort_target, req.sort_order);
        if req.limit > 0 && s.len() > req.limit {
            RangeResponseView { header: hdr, kvs: s.take(req.limit as int), more: true, count }
        } else {
            RangeResponseView { header: hdr, kvs: s, more: false, count }
        }
    }
}

proof fn lemma_get_spec_len(e: Seq<HistoryView>, start: Seq<u8>, end: Seq<u8>, rev: i64)
    ensures
        get_spec(e, start, end, rev).len() <= e.len(),
    decreases e.len(),
{
    if e.len() > 0 {
        lemma_get_spec_len(e.drop_last(), start, end, rev);
    }
}

proof fn lemma_values_len(st: Seq<(Revision, KeyValueView)>, coords: Seq<Revision>)
    ensures
        values_spec(st, coords).len() <= coords.len(),
    decreases coords.len(),
{
    if coords.len() > 0 {
        lemma_values_len(st, coords.drop_last());
    }
}

/// A read of a range sees at most one pair per key of the index.
pub proof fn lemma_range_kvs_len(
    idx: Seq<HistoryView>,
    st: Seq<(Revision, KeyValueView)>,
    key: Seq<u8>,
    end: Seq<u8>,
    rev: i64,
)
    ensures
        range_kvs(idx, st, key, end, rev).len() <= idx.len(),
{
    lemma_get_spec_len(idx, key, end, rev);
    lemma_values_len(st, get_spec(idx, key, end, rev));
}

/// The pairs that a read of `[key, end)` at `rev` sees, in index order.
pub fn get_range(index: &RevisionIndex, store: &VersionedStore, key: &[u8], end: &[u8], rev: i64) -> (r: Vec<KeyValue>)
    ensures
        kvs_view(r@) == range_kvs(index@, store@, key@, end@, rev),
{
    let coords = index.get(key, end, rev);
    store.get_values(coords.as_slice())
}

/// Answers a range read.
pub fn handle_range_request(
    index: &RevisionIndex,
    store: &VersionedStore,
    header: ResponseHeader,
    req: &RangeRequest,
) -> (r: RangeResponse)
    requires
        index@.len() <= INDEX_LIMIT,
    ensures
        r@ == range_spec(index@, store@, header, *req),
        !req.count_only ==> sort_spec(
            range_kvs(index@, store@, req.key@, req.range_end@, req.revision),
            req.sort_target,
            req.sort_order,
        ).to_multiset() == range_kvs(index@, store@, req.key@, req.range_end@, req.revision).to_multiset(),
        !req.count_only && !(req.sort_target == SortTarget::Key && req.sort_order == SortOrder::Unsorted)
            ==> sorted_by_request(
            sort_spec(
                range_kvs(index@, store@, req.key@, req.range_end@, req.revision),
                req.sort_target,
                req.sort_order,
            ),
            *req,
        ),
        !req.count_only && req.limit > 0 ==> r.kvs@.len() == if r.count < req.limit {
            r.count as int
        } else {
            req.limit as int
        },
{
    let mut kvs = get_range(index, store, req.key.as_slice(), req.range_end.as_slice(), req.revision);
    proof {
        lemma_range_kvs_len(index@, store@, req.key@, req.range_end@, req.revision);
    }
    let count = kvs.len() as i64;
    if req.count_only {
        let r = RangeResponse { header, kvs: Vec::new(), more: false, count };
        assert(r@.kvs =~= Seq::<KeyValueView>::empty());
        return r;
    }
    let ghost kv0 = kvs_view(kvs@);
    match (req.sort_target, req.sort_order) {
        (SortTarget::Key, SortOrder::Unsorted) => {},
        (t, SortOrder::Descend) => sort_kvs(&mut kvs, t, true),
        (t, _) => sort_kvs(&mut kvs, t, false),
    }
    proof {
        let s = kvs_view(kvs@);
        assert(s.len() == kvs@.len());
        assert(s == sort_spec(kv0, req.sort_target, req.sort_order));
        assert(s.to_multiset() == kv0.to_multiset());
        if !(req.sort_target == SortTarget::Key && req.sort_order == SortOrder::Unsorted) {
            assert forall|i: int, j: int| 0 <= i < j < s.len() implies sorted_pair(
                #[trigger] s[i],
                #[trigger] s[j],
                req.sort_target,
                req.sort_order == SortOrder::Descend,
            ) by {
                assert(s[i] == kvs@[i]@);
                assert(s[j] == kvs@[j]@);
            }
        }
    }
    let mut more = false;
    if req.limit > 0 && (req.limit as u64) < (kvs.len() as u64) {
        let ghost before = kvs@;
        kvs.truncate(req.limit as u64 as usize);
        more = true;
        assert(kvs@ =~= before.take(req.limit as int));
        assert(kvs@.len() == req.limit);
        assert(kvs_view(kvs@) =~= kvs_view(before).take(req.limit as int));
    }
    RangeResponse { header, kvs, more, count }
}


} // verus!

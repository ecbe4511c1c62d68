use crate::bytes::CompareResult;
use vstd::prelude::*;

verus! {

/// A position in the global order of mutations: the commit revision and the
/// rank of the mutation inside that commit.
#[derive(Debug, Clone, Copy, PartialEq, Eq, Structural)]
pub struct Revision {
    pub main: i64,
    pub sub: i64,
}

/// One entry of a key's history in the index.
#[derive(Debug, Clone, Copy, PartialEq, Eq, Structural)]
pub struct KeyRevision {
    /// Revision at which the key was created; 0 for a tombstone
    pub create_revision: i64,
    /// Main revision of this write
    pub mod_revision: i64,
    /// Sub revision of this write
    pub sub_revision: i64,
    /// Writes since the key was created; 0 for a tombstone
    pub version: i64,
}

impl KeyRevision {
    pub open spec fn is_tombstone(self) -> bool {
        self.version == 0
    }

    pub open spec fn coord(self) -> Revision {
        Revision { main: self.mod_revision, sub: self.sub_revision }
    }

    /// The coordinate of this entry.
    pub fn as_revision(&self) -> (r: Revision)
        ensures
            r == self.coord(),
    {
        Revision { main: self.mod_revision, sub: self.sub_revision }
    }
}

/// Mathematical value of a `KeyValue`.
pub struct KeyValueView {
    pub key: Seq<u8>,
    pub create_revision: i64,
    pub mod_revision: i64,
    pub version: i64,
    pub value: Seq<u8>,
    pub lease: i64,
}

/// A stored key-value pair with its revision metadata.
#[derive(Debug, Clone)]
pub struct KeyValue {
    pub key: Vec<u8>,
    pub create_revision: i64,
    pub mod_revision: i64,
    pub version: i64,
    pub value: Vec<u8>,
    pub lease: i64,
}

impl View for KeyValue {
    type V = KeyValueView;

    open spec fn view(&self) -> KeyValueView {
        KeyValueView {
            key: self.key@,
            create_revision: self.create_revision,
            mod_revision: self.mod_revision,
            version: self.version,
            value: self.value@,
            lease: self.lease,
        }
    }
}

/// The key-value pair with every field empty or zero.
pub open spec fn empty_kv() -> KeyValueView {
    KeyValueView {
        key: Seq::empty(),
        create_revision: 0,
        mod_revision: 0,
        version: 0,
        value: Seq::empty(),
        lease: 0,
    }
}

/// Views of a sequence of key-value pairs.
pub open spec fn kvs_view(kvs: Seq<KeyValue>) -> Seq<KeyValueView> {
    kvs.map_values(|kv: KeyValue| kv@)
}

pub fn copy_bytes(b: &Vec<u8>) -> (r: Vec<u8>)
    ensures
        r@ == b@,
{
    let r = b.clone();
    assert(r@ =~= b@);
    r
}

impl KeyValue {
    /// The key-value pair with every field empty or zero.
    pub fn empty() -> (r: KeyValue)
        ensures
            r@ == empty_kv(),
    {
        let r = KeyValue {
            key: Vec::new(),
            create_revision: 0,
            mod_revision: 0,
            version: 0,
            value: Vec::new(),
            lease: 0,
        };
        assert(r@.key =~= Seq::<u8>::empty());
        assert(r@.value =~= Seq::<u8>::empty());
        r
    }

    /// A copy with the same contents.
    pub fn duplicate(&self) -> (r: KeyValue)
        ensures
            r@ == self@,
    {
        KeyValue {
            key: copy_bytes(&self.key),
            create_revision: self.create_revision,
            mod_revision: self.mod_revision,
            version: self.version,
            value: copy_bytes(&self.value),
            lease: self.lease,
        }
    }
}

/// View of an optional key-value pair.
pub open spec fn opt_kv_view(o: Option<KeyValue>) -> Option<KeyValueView> {
    match o {
        Some(kv) => Some(kv@),
        None => None,
    }
}

/// Field that a range result is sorted by.
#[derive(Debug, Clone, Copy, PartialEq, Eq, Structural)]
pub enum SortTarget {
    Key,
    Version,
    Create,
    Mod,
    Value,
}

/// Direction of sorting.
#[derive(Debug, Clone, Copy, PartialEq, Eq, Structural)]
pub enum SortOrder {
    Unsorted,
    Ascend,
    Descend,
}

/// Read of the keys in a range.
#[derive(Debug, Clone)]
pub struct RangeRequest {
    pub key: Vec<u8>,
    pub range_end: Vec<u8>,
    pub limit: i64,
    pub revision: i64,
    pub sort_order: SortOrder,
    pub sort_target: SortTarget,
    pub count_only: bool,
}

/// Write of one key.
#[derive(Debug, Clone)]
pub struct PutRequest {
    pub key: Vec<u8>,
    pub value: Vec<u8>,
    pub lease: i64,
    pub prev_kv: bool,
    pub ignore_value: bool,
    pub ignore_lease: bool,
}

pub struct PutRequestView {
    pub key: Seq<u8>,
    pub value: Seq<u8>,
    pub lease: i64,
    pub prev_kv: bool,
    pub ignore_value: bool,
    pub ignore_lease: bool,
}

impl View for PutRequest {
    type V = PutRequestView;

    open spec fn view(&self) -> PutRequestView {
        PutRequestView {
            key: self.key@,
            value: self.value@,
            lease: self.lease,
            prev_kv: self.prev_kv,
            ignore_value: self.ignore_value,
            ignore_lease: self.ignore_lease,
        }
    }
}

impl PutRequest {
    /// A copy with the same contents.
    pub fn duplicate(&self) -> (r: PutRequest)
        ensures
            r@ == self@,
    {
        PutRequest {
            key: copy_bytes(&self.key),
            value: copy_bytes(&self.value),
            lease: self.lease,
            prev_kv: self.prev_kv,
            ignore_value: self.ignore_value,
            ignore_lease: self.ignore_lease,
        }
    }
}

/// Deletion of the keys in a range.
#[derive(Debug, Clone)]
pub struct DeleteRangeRequest {
    pub key: Vec<u8>,
    pub range_end: Vec<u8>,
    pub prev_kv: bool,
}

pub struct DeleteRangeRequestView {
    pub key: Seq<u8>,
    pub range_end: Seq<u8>,
    pub prev_kv: bool,
}

impl View for DeleteRangeRequest {
    type V = DeleteRangeRequestView;

    open spec fn view(&self) -> DeleteRangeRequestView {
        DeleteRangeRequestView { key: self.key@, range_end: self.range_end@, prev_kv: self.prev_kv }
    }
}

impl DeleteRangeRequest {
    /// A copy with the same contents.
    pub fn duplicate(&self) -> (r: DeleteRangeRequest)
        ensures
            r@ == self@,
    {
        DeleteRangeRequest {
            key: copy_bytes(&self.key),
            range_end: copy_bytes(&self.range_end),
            prev_kv: self.prev_kv,
        }
    }
}

/// Field of a key-value pair that a compare reads.
#[derive(Debug, Clone, Copy, PartialEq, Eq, Structural)]
pub enum CompareTarget {
    Version,
    Create,
    Mod,
    Value,
    Lease,
}

/// Operand of a compare.
#[derive(Debug, Clone)]
pub enum TargetUnion {
    Version(i64),
    CreateRevision(i64),
    ModRevision(i64),
    Value(Vec<u8>),
    Lease(i64),
}

/// A predicate over the key-value pairs of a range.
#[derive(Debug, Clone)]
pub struct Compare {
    pub result: CompareResult,
    pub target: CompareTarget,
    pub key: Vec<u8>,
    pub range_end: Vec<u8>,
    pub target_union: Option<TargetUnion>,
}

/// A transaction: compares, then one of two lists of requests.
#[derive(Debug)]
pub struct TxnRequest {
    pub compare: Vec<Compare>,
    pub success: Vec<RequestWrapper>,
    pub failure: Vec<RequestWrapper>,
}

/// A request to the store.
#[derive(Debug)]
pub enum RequestWrapper {
    RangeRequest(RangeRequest),
    PutRequest(PutRequest),
    DeleteRangeRequest(DeleteRangeRequest),
    TxnRequest(TxnRequest),
}

/// Header carried by every response.
#[derive(Debug, Clone, Copy, PartialEq, Eq, Structural)]
pub struct ResponseHeader {
    pub cluster_id: u64,
    pub member_id: u64,
    pub revision: i64,
    pub raft_term: u64,
}

/// Mathematical value of a `RangeResponse`.
pub struct RangeResponseView {
    pub header: ResponseHeader,
    pub kvs: Seq<KeyValueView>,
    pub more: bool,
    pub count: i64,
}

#[derive(Debug, Clone)]
pub struct RangeResponse {
    pub header: ResponseHeader,
    pub kvs: Vec<KeyValue>,
    pub more: bool,
    pub count: i64,
}

impl View for RangeResponse {
    type V = RangeResponseView;

    open spec fn view(&self) -> RangeResponseView {
        RangeResponseView {
            header: self.header,
            kvs: kvs_view(self.kvs@),
            more: self.more,
            count: self.count,
        }
    }
}

#[derive(Debug, Clone)]
pub struct PutResponse {
    pub header: ResponseHeader,
    pub prev_kv: Option<KeyValue>,
}

#[derive(Debug, Clone)]
pub struct DeleteRangeResponse {
    pub header: ResponseHeader,
    pub deleted: i64,
    pub prev_kvs: Vec<KeyValue>,
}

#[derive(Debug)]
pub struct TxnResponse {
    pub header: ResponseHeader,
    pub succeeded: bool,
    pub responses: Vec<ResponseWrapper>,
}

/// A response of the store.
#[derive(Debug)]
pub enum ResponseWrapper {
    RangeResponse(RangeResponse),
    PutResponse(PutResponse),
    DeleteRangeResponse(DeleteRangeResponse),
    TxnResponse(TxnResponse),
}

/// Kind of a watch event.
#[derive(Debug, Clone, Copy, PartialEq, Eq, Structural)]
pub enum EventType {
    Put,
    Delete,
}

/// Mathematical value of an `Event`.
pub struct EventView {
    pub event_type: EventType,
    pub kv: KeyValueView,
    pub prev_kv: Option<KeyValueView>,
}

/// A change published to watchers.
#[derive(Debug, Clone)]
pub struct Event {
    pub event_type: EventType,
    pub kv: KeyValue,
    pub prev_kv: Option<KeyValue>,
}

impl View for Event {
    type V = EventView;

    open spec fn view(&self) -> EventView {
        EventView { event_type: self.event_type, kv: self.kv@, prev_kv: opt_kv_view(self.prev_kv) }
    }
}

/// Views of a list of events.
pub open spec fn events_view(evs: Seq<Event>) -> Seq<EventView> {
    evs.map_values(|e: Event| e@)
}

/// Why a request was refused.
#[derive(Debug, Clone, Copy, PartialEq, Eq, Structural)]
pub enum ExecuteError {
    /// `ignore_lease` or `ignore_value` is set but the key has no value
    InvalidCommand,
    /// A transaction holds another transaction
    NestedTxn,
}

} // verus!

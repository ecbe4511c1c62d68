use crate::bytes::{bytes_cmp, compare_bytes, int_cmp, CompareResult};
use crate::index::HistoryView;
use crate::range::{get_range, range_kvs};
use crate::store::VersionedStore;
use crate::index::RevisionIndex;
use crate::types::{empty_kv, kvs_view, Compare, CompareTarget, KeyValue, KeyValueView, Revision, TargetUnion};
use vstd::prelude::*;

verus! {

/// Three-way comparison of integers.
pub fn compare_i64(val: i64, target: i64) -> (r: CompareResult)
    ensures
        r == int_cmp(val, target),
{
    if val < target {
        CompareResult::Less
    } else if val == target {
        CompareResult::Equal
    } else {
        CompareResult::Greater
    }
}

/// What a compare reads of `kv`, compared with its operand.
pub open spec fn compare_outcome(cmp: Compare, kv: KeyValueView) -> CompareResult {
    match cmp.target {
        CompareTarget::Version => int_cmp(
            kv.version,
            match cmp.target_union {
                Some(TargetUnion::Version(v)) => v,
                _ => 0,
            },
        ),
        CompareTarget::Create => int_cmp(
            kv.create_revision,
            match cmp.target_union {
                Some(TargetUnion::CreateRevision(v)) => v,
                _ => 0,
            },
        ),
        CompareTarget::Mod => int_cmp(
            kv.mod_revision,
            match cmp.target_union {
                Some(TargetUnion::ModRevision(v)) => v,
                _ => 0,
            },
        ),
        CompareTarget::Value => bytes_cmp(
            kv.value,
            match cmp.target_union {
                Some(TargetUnion::Value(v)) => v@,
                _ => Seq::empty(),
            },
        ),
        // the lease target is compared against the modification revision
        CompareTarget::Lease => int_cmp(
            kv.mod_revision,
            match cmp.target_union {
                Some(TargetUnion::Lease(v)) => v,
                _ => 0,
            },
        ),
    }
}

/// Whether `kv` satisfies the compare.
pub open spec fn compare_holds(cmp: Compare, kv: KeyValueView) -> bool {
    let o = compare_outcome(cmp, kv);
    match cmp.result {
        CompareResult::Equal => o == CompareResult::Equal,
        CompareResult::Greater => o == CompareResult::Greater,
        CompareResult::Less => o == CompareResult::Less,
        CompareResult::NotEqual => o != CompareResult::Equal,
    }
}

/// Whether a compare holds on the store: on every pair of its range, or,
/// for an empty range, on the empty pair unless it reads the value.
pub open spec fn check_compare_spec(
    idx: Seq<HistoryView>,
    st: Seq<(Revision, KeyValueView)>,
    cmp: Compare,
) -> bool {
    let kvs = range_kvs(idx, st, cmp.key@, cmp.range_end@, 0);
    if kvs.len() == 0 {
        cmp.target != CompareTarget::Value && compare_holds(cmp, empty_kv())
    } else {
        forall|i: int| 0 <= i < kvs.len() ==> compare_holds(cmp, #[trigger] kvs[i])
    }
}

/// Whether all compares of a transaction hold.
pub open spec fn txn_success_spec(
    idx: Seq<HistoryView>,
    st: Seq<(Revision, KeyValueView)>,
    cmps: Seq<Compare>,
) -> bool {
    forall|i: int| 0 <= i < cmps.len() ==> check_compare_spec(idx, st, #[trigger] cmps[i])
}

/// Checks one pair against a compare.
pub fn compare_kv(cmp: &Compare, kv: &KeyValue) -> (r: bool)
    ensures
        r == compare_holds(*cmp, kv@),
{
    let o = match cmp.target {
        CompareTarget::Version => compare_i64(
            kv.version,
            match cmp.target_union {
                Some(TargetUnion::Version(v)) => v,
                _ => 0,
            },
        ),
        CompareTarget::Create => compare_i64(
            kv.create_revision,
            match cmp.target_union {
                Some(TargetUnion::CreateRevision(v)) => v,
                _ => 0,
            },
        ),
        CompareTarget::Mod => compare_i64(
            kv.mod_revision,
            match cmp.target_union {
                Some(TargetUnion::ModRevision(v)) => v,
                _ => 0,
            },
        ),
        CompareTarget::Value => {
            match &cmp.target_union {
                Some(TargetUnion::Value(v)) => compare_bytes(kv.value.as_slice(), v.as_slice()),
                _ => {
                    let empty: Vec<u8> = Vec::new();
                    assert(empty@ =~= Seq::<u8>::empty());
                    compare_bytes(kv.value.as_slice(), empty.as_slice())
                },
            }
        },
        CompareTarget::Lease => compare_i64(
            kv.mod_revision,
            match cmp.target_union {
                Some(TargetUnion::Lease(v)) => v,
                _ => 0,
            },
        ),
    };
    match cmp.result {
        CompareResult::Equal => o == CompareResult::Equal,
        CompareResult::Greater => o == CompareResult::Greater,
        CompareResult::Less => o == CompareResult::Less,
        CompareResult::NotEqual => o != CompareResult::Equal,
    }
}

/// Evaluates a compare on the store.
pub fn check_compare(index: &RevisionIndex, store: &VersionedStore, cmp: &Compare) -> (r: bool)
    ensures
        r == check_compare_spec(index@, store@, *cmp),
{
    let kvs = get_range(index, store, cmp.key.as_slice(), cmp.range_end.as_slice(), 0);
    if kvs.len() == 0 {
        match cmp.target {
            CompareTarget::Value => false,
            _ => {
                let d = KeyValue::empty();
                compare_kv(cmp, &d)
            },
        }
    } else {
        let mut i: usize = 0;
        while i < kvs.len()
            invariant
                i <= kvs@.len(),
                kvs_view(kvs@) == range_kvs(index@, store@, cmp.key@, cmp.range_end@, 0),
                forall|j: int| 0 <= j < i ==> compare_holds(*cmp, #[trigger] kvs_view(kvs@)[j]),
            decreases kvs@.len() - i,
        {
            if !compare_kv(cmp, &kvs[i]) {
                assert(kvs_view(kvs@)[i as int] == kvs@[i as int]@);
                return false;
            }
            i = i + 1;
        }
        true
    }
}

/// A compare over an empty range fails when it reads the value, and
/// otherwise is decided on the empty pair.
pub proof fn lemma_compare_on_empty_range(
    idx: Seq<HistoryView>,
    st: Seq<(Revision, KeyValueView)>,
    cmp: Compare,
)
    requires
        range_kvs(idx, st, cmp.key@, cmp.range_end@, 0).len() == 0,
    ensures
        cmp.target == CompareTarget::Value ==> !check_compare_spec(idx, st, cmp),
        cmp.target != CompareTarget::Value ==> check_compare_spec(idx, st, cmp) == compare_holds(cmp, empty_kv()),
{
}

} // verus!

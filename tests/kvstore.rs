use xline::bytes::CompareResult;
use xline::engine::{HeaderSource, KvEngine};
use xline::types::{
    Compare, CompareTarget, DeleteRangeRequest, EventType, ExecuteError, KeyValue, PutRequest,
    RangeRequest, RequestWrapper, ResponseWrapper, SortOrder, SortTarget, TargetUnion, TxnRequest,
};

fn engine() -> KvEngine {
    KvEngine::new(HeaderSource { cluster_id: 7, member_id: 3, raft_term: 2 }, 1)
}

fn put_req(key: &str, value: &str) -> PutRequest {
    PutRequest {
        key: key.as_bytes().to_vec(),
        value: value.as_bytes().to_vec(),
        lease: 0,
        prev_kv: false,
        ignore_value: false,
        ignore_lease: false,
    }
}

fn range_req(key: &[u8], end: &[u8]) -> RangeRequest {
    RangeRequest {
        key: key.to_vec(),
        range_end: end.to_vec(),
        limit: 0,
        revision: 0,
        sort_order: SortOrder::Unsorted,
        sort_target: SortTarget::Key,
        count_only: false,
    }
}

fn put(e: &mut KvEngine, id: u64, key: &str, value: &str) -> i64 {
    e.execute(id, &RequestWrapper::PutRequest(put_req(key, value))).unwrap();
    assert!(e.can_commit(id));
    e.commit(id).0
}

fn delete(e: &mut KvEngine, id: u64, key: &str, end: &str) -> (i64, usize) {
    let req = DeleteRangeRequest {
        key: key.as_bytes().to_vec(),
        range_end: end.as_bytes().to_vec(),
        prev_kv: false,
    };
    e.execute(id, &RequestWrapper::DeleteRangeRequest(req)).unwrap();
    let (rev, events) = e.commit(id);
    (rev, events.len())
}

fn read(e: &mut KvEngine, id: u64, req: RangeRequest) -> (Vec<KeyValue>, i64, bool) {
    match e.execute(id, &RequestWrapper::RangeRequest(req)).unwrap() {
        ResponseWrapper::RangeResponse(r) => {
            e.commit(id);
            (r.kvs, r.count, r.more)
        }
        _ => panic!("not a range response"),
    }
}

fn get(e: &mut KvEngine, id: u64, key: &str) -> Vec<KeyValue> {
    read(e, id, range_req(key.as_bytes(), b"")).0
}

fn check_kv(kv: &KeyValue, key: &str, value: &str, create: i64, modr: i64, version: i64) {
    assert_eq!(kv.key, key.as_bytes().to_vec());
    assert_eq!(kv.value, value.as_bytes().to_vec());
    assert_eq!(kv.create_revision, create);
    assert_eq!(kv.mod_revision, modr);
    assert_eq!(kv.version, version);
}

fn version_compare(key: &str, version: i64) -> Compare {
    Compare {
        result: CompareResult::Equal,
        target: CompareTarget::Version,
        key: key.as_bytes().to_vec(),
        range_end: vec![],
        target_union: Some(TargetUnion::Version(version)),
    }
}

#[test]
fn test_all() {}

#[test]
fn create_then_read() {
    let mut e = engine();
    assert_eq!(put(&mut e, 1, "a", "1"), 2);
    let kvs = get(&mut e, 2, "a");
    assert_eq!(kvs.len(), 1);
    check_kv(&kvs[0], "a", "1", 2, 2, 1);
}

#[test]
fn overwrite() {
    let mut e = engine();
    put(&mut e, 1, "a", "1");
    assert_eq!(put(&mut e, 2, "a", "2"), 3);
    let kvs = get(&mut e, 3, "a");
    assert_eq!(kvs.len(), 1);
    check_kv(&kvs[0], "a", "2", 2, 3, 2);
}

#[test]
fn delete_then_recreate() {
    let mut e = engine();
    put(&mut e, 1, "a", "1");
    put(&mut e, 2, "a", "2");
    assert_eq!(delete(&mut e, 3, "a", ""), (4, 1));
    assert!(get(&mut e, 4, "a").is_empty());
    let mut at4 = range_req(b"a", b"");
    at4.revision = 4;
    assert!(read(&mut e, 5, at4).0.is_empty());
    assert_eq!(put(&mut e, 6, "a", "3"), 5);
    let kvs = get(&mut e, 7, "a");
    check_kv(&kvs[0], "a", "3", 5, 5, 1);
}

#[test]
fn read_at_past_revision() {
    let mut e = engine();
    put(&mut e, 1, "a", "1");
    put(&mut e, 2, "a", "2");
    let mut at2 = range_req(b"a", b"");
    at2.revision = 2;
    let kvs = read(&mut e, 3, at2).0;
    check_kv(&kvs[0], "a", "1", 2, 2, 1);
}

#[test]
fn range_delete_of_two_keys() {
    let mut e = engine();
    put(&mut e, 1, "a", "1");
    assert_eq!(put(&mut e, 2, "b", "2"), 3);
    let req = DeleteRangeRequest { key: b"a".to_vec(), range_end: b"c".to_vec(), prev_kv: true };
    match e.execute(3, &RequestWrapper::DeleteRangeRequest(req)).unwrap() {
        ResponseWrapper::DeleteRangeResponse(r) => {
            assert_eq!(r.deleted, 2);
            assert_eq!(r.prev_kvs.len(), 2);
        }
        _ => panic!("not a delete response"),
    }
    let (rev, events) = e.commit(3);
    assert_eq!(rev, 4);
    assert_eq!(e.revision(), 4);
    assert_eq!(events.len(), 2);
    for (ev, key, value) in [(&events[0], "a", "1"), (&events[1], "b", "2")] {
        assert_eq!(ev.event_type, EventType::Delete);
        assert_eq!(ev.kv.key, key.as_bytes().to_vec());
        assert_eq!(ev.kv.mod_revision, 4);
        assert_eq!(ev.kv.version, 0);
        assert!(ev.kv.value.is_empty());
        assert_eq!(ev.prev_kv.as_ref().unwrap().value, value.as_bytes().to_vec());
    }
    let replay = e.get_event_from_revision(b"a", b"c", 4);
    assert_eq!(replay.len(), 2);
    assert!(replay.iter().all(|ev| ev.event_type == EventType::Delete && ev.kv.mod_revision == 4));
}

#[test]
fn txn_success_branch() {
    let mut e = engine();
    put(&mut e, 1, "a", "1");
    let txn = TxnRequest {
        compare: vec![version_compare("a", 1)],
        success: vec![RequestWrapper::PutRequest(put_req("a", "x"))],
        failure: vec![RequestWrapper::PutRequest(put_req("a", "y"))],
    };
    match e.execute(2, &RequestWrapper::TxnRequest(txn)).unwrap() {
        ResponseWrapper::TxnResponse(r) => {
            assert!(r.succeeded);
            assert_eq!(r.responses.len(), 1);
        }
        _ => panic!("not a txn response"),
    }
    assert_eq!(e.commit(2).0, 3);
    let kvs = get(&mut e, 3, "a");
    check_kv(&kvs[0], "a", "x", 2, 3, 2);
}

#[test]
fn txn_empty_range_value_compare() {
    let mut e = engine();
    put(&mut e, 1, "a", "1");
    let cmp = Compare {
        result: CompareResult::Equal,
        target: CompareTarget::Value,
        key: b"z".to_vec(),
        range_end: b"z\x00".to_vec(),
        target_union: Some(TargetUnion::Value(vec![])),
    };
    let txn = TxnRequest {
        compare: vec![cmp],
        success: vec![RequestWrapper::PutRequest(put_req("z", "s"))],
        failure: vec![RequestWrapper::PutRequest(put_req("z", "f"))],
    };
    match e.execute(2, &RequestWrapper::TxnRequest(txn)).unwrap() {
        ResponseWrapper::TxnResponse(r) => assert!(!r.succeeded),
        _ => panic!("not a txn response"),
    }
    e.commit(2);
    check_kv(&get(&mut e, 3, "z")[0], "z", "f", 3, 3, 1);
}

#[test]
fn txn_empty_range_other_compare_uses_default() {
    let mut e = engine();
    let txn = TxnRequest {
        compare: vec![version_compare("q", 0)],
        success: vec![RequestWrapper::PutRequest(put_req("q", "s"))],
        failure: vec![],
    };
    match e.execute(1, &RequestWrapper::TxnRequest(txn)).unwrap() {
        ResponseWrapper::TxnResponse(r) => assert!(r.succeeded),
        _ => panic!("not a txn response"),
    }
    assert_eq!(e.commit(1).0, 2);
}

#[test]
fn nested_txn_is_rejected() {
    let mut e = engine();
    let inner = TxnRequest { compare: vec![], success: vec![], failure: vec![] };
    let txn = TxnRequest {
        compare: vec![],
        success: vec![RequestWrapper::TxnRequest(inner)],
        failure: vec![],
    };
    assert_eq!(e.execute(1, &RequestWrapper::TxnRequest(txn)).err(), Some(ExecuteError::NestedTxn));
    assert!(e.has_proposal(1));
    let (rev, events) = e.commit(1);
    assert_eq!(rev, 1);
    assert!(events.is_empty());
}

#[test]
fn ignore_value_without_previous_is_invalid() {
    let mut e = engine();
    let mut req = put_req("a", "1");
    req.ignore_value = true;
    assert_eq!(
        e.execute(1, &RequestWrapper::PutRequest(req)).err(),
        Some(ExecuteError::InvalidCommand)
    );
    let (rev, events) = e.commit(1);
    assert_eq!(rev, 1);
    assert!(events.is_empty());
    assert!(get(&mut e, 2, "a").is_empty());
}

#[test]
fn ignore_value_and_lease_keep_previous() {
    let mut e = engine();
    let mut first = put_req("a", "1");
    first.lease = 42;
    e.execute(1, &RequestWrapper::PutRequest(first)).unwrap();
    e.commit(1);
    let mut second = put_req("a", "2");
    second.ignore_value = true;
    second.ignore_lease = true;
    second.prev_kv = true;
    match e.execute(2, &RequestWrapper::PutRequest(second)).unwrap() {
        ResponseWrapper::PutResponse(r) => {
            check_kv(r.prev_kv.as_ref().unwrap(), "a", "1", 2, 2, 1);
        }
        _ => panic!("not a put response"),
    }
    let (rev, events) = e.commit(2);
    assert_eq!(rev, 3);
    assert_eq!(events[0].event_type, EventType::Put);
    check_kv(&events[0].kv, "a", "1", 2, 3, 2);
    assert_eq!(events[0].kv.lease, 42);
    assert_eq!(events[0].prev_kv.as_ref().unwrap().value, b"1".to_vec());
}

#[test]
fn put_response_has_no_prev_kv_unless_asked() {
    let mut e = engine();
    put(&mut e, 1, "a", "1");
    match e.execute(2, &RequestWrapper::PutRequest(put_req("a", "2"))).unwrap() {
        ResponseWrapper::PutResponse(r) => {
            assert!(r.prev_kv.is_none());
            assert_eq!(r.header.revision, 2);
            assert_eq!(r.header.cluster_id, 7);
        }
        _ => panic!("not a put response"),
    }
}

#[test]
fn speculative_execution_changes_nothing_until_commit() {
    let mut e = engine();
    e.execute(1, &RequestWrapper::PutRequest(put_req("a", "1"))).unwrap();
    assert_eq!(e.revision(), 1);
    assert!(get(&mut e, 2, "a").is_empty());
    assert_eq!(e.commit(1).0, 2);
    assert_eq!(get(&mut e, 3, "a").len(), 1);
}

#[test]
fn range_read_twice_is_equal() {
    let mut e = engine();
    put(&mut e, 1, "a", "1");
    put(&mut e, 2, "b", "2");
    let req = range_req(b"a", b"c");
    let first = match e.execute(3, &RequestWrapper::RangeRequest(req.clone())).unwrap() {
        ResponseWrapper::RangeResponse(r) => r,
        _ => panic!("not a range response"),
    };
    let second = match e.execute(3, &RequestWrapper::RangeRequest(req)).unwrap() {
        ResponseWrapper::RangeResponse(r) => r,
        _ => panic!("not a range response"),
    };
    assert_eq!(first.count, second.count);
    assert_eq!(first.more, second.more);
    assert_eq!(first.header, second.header);
    assert_eq!(first.kvs.len(), second.kvs.len());
    for (x, y) in first.kvs.iter().zip(second.kvs.iter()) {
        assert_eq!(x.key, y.key);
        assert_eq!(x.value, y.value);
        assert_eq!(x.mod_revision, y.mod_revision);
    }
    let (rev, events) = e.commit(3);
    assert_eq!(rev, 3);
    assert!(events.is_empty());
}

#[test]
fn revision_counts_commits_with_events() {
    let mut e = engine();
    put(&mut e, 1, "a", "1");
    get(&mut e, 2, "a");
    delete(&mut e, 3, "zz", "");
    put(&mut e, 4, "b", "1");
    assert_eq!(e.revision(), 3);
}

#[test]
fn version_counts_puts_since_delete() {
    let mut e = engine();
    put(&mut e, 1, "k", "1");
    put(&mut e, 2, "k", "2");
    delete(&mut e, 3, "k", "");
    put(&mut e, 4, "k", "3");
    put(&mut e, 5, "k", "4");
    put(&mut e, 6, "k", "5");
    let kvs = get(&mut e, 7, "k");
    check_kv(&kvs[0], "k", "5", 5, 7, 3);
}

#[test]
fn several_puts_in_one_txn_share_a_revision() {
    let mut e = engine();
    let txn = TxnRequest {
        compare: vec![],
        success: vec![
            RequestWrapper::PutRequest(put_req("a", "1")),
            RequestWrapper::PutRequest(put_req("b", "2")),
            RequestWrapper::RangeRequest(range_req(b"a", b"")),
        ],
        failure: vec![],
    };
    e.execute(1, &RequestWrapper::TxnRequest(txn)).unwrap();
    let (rev, events) = e.commit(1);
    assert_eq!(rev, 2);
    assert_eq!(events.len(), 2);
    assert!(events.iter().all(|ev| ev.kv.mod_revision == 2));
    let replay = e.get_event_from_revision(&[0], &[0], 0);
    assert_eq!(replay.len(), 2);
    assert_eq!(replay[0].kv.key, b"a".to_vec());
    assert_eq!(replay[1].kv.key, b"b".to_vec());
    assert!(replay.iter().all(|ev| ev.event_type == EventType::Put && ev.prev_kv.is_none()));
}

#[test]
fn all_keys_sentinel_and_ordering() {
    let mut e = engine();
    put(&mut e, 1, "c", "1");
    put(&mut e, 2, "a", "3");
    put(&mut e, 3, "b", "2");
    let (kvs, count, more) = read(&mut e, 4, range_req(&[0], &[0]));
    assert_eq!(count, 3);
    assert!(!more);
    let keys: Vec<Vec<u8>> = kvs.iter().map(|kv| kv.key.clone()).collect();
    assert_eq!(keys, vec![b"a".to_vec(), b"b".to_vec(), b"c".to_vec()]);
}

#[test]
fn empty_when_end_not_after_start() {
    let mut e = engine();
    put(&mut e, 1, "a", "1");
    put(&mut e, 2, "b", "1");
    let (kvs, count, _) = read(&mut e, 3, range_req(b"b", b"a"));
    assert!(kvs.is_empty());
    assert_eq!(count, 0);
}

#[test]
fn sort_by_value_and_descending_key() {
    let mut e = engine();
    put(&mut e, 1, "a", "3");
    put(&mut e, 2, "b", "1");
    put(&mut e, 3, "c", "2");
    let mut by_value = range_req(&[0], &[0]);
    by_value.sort_target = SortTarget::Value;
    let kvs = read(&mut e, 4, by_value).0;
    let values: Vec<Vec<u8>> = kvs.iter().map(|kv| kv.value.clone()).collect();
    assert_eq!(values, vec![b"1".to_vec(), b"2".to_vec(), b"3".to_vec()]);
    let mut desc = range_req(&[0], &[0]);
    desc.sort_order = SortOrder::Descend;
    let kvs = read(&mut e, 5, desc).0;
    let keys: Vec<Vec<u8>> = kvs.iter().map(|kv| kv.key.clone()).collect();
    assert_eq!(keys, vec![b"c".to_vec(), b"b".to_vec(), b"a".to_vec()]);
    let mut by_mod = range_req(&[0], &[0]);
    by_mod.sort_target = SortTarget::Mod;
    by_mod.sort_order = SortOrder::Descend;
    let kvs = read(&mut e, 6, by_mod).0;
    let mods: Vec<i64> = kvs.iter().map(|kv| kv.mod_revision).collect();
    assert_eq!(mods, vec![4, 3, 2]);
}

#[test]
fn limit_and_count_only() {
    let mut e = engine();
    put(&mut e, 1, "a", "1");
    put(&mut e, 2, "b", "1");
    put(&mut e, 3, "c", "1");
    let mut limited = range_req(&[0], &[0]);
    limited.limit = 2;
    let (kvs, count, more) = read(&mut e, 4, limited);
    assert_eq!(kvs.len(), 2);
    assert_eq!(count, 3);
    assert!(more);
    let mut counting = range_req(&[0], &[0]);
    counting.count_only = true;
    let (kvs, count, more) = read(&mut e, 5, counting);
    assert!(kvs.is_empty());
    assert_eq!(count, 3);
    assert!(!more);
}

#[test]
fn lease_compare_reads_mod_revision() {
    let mut e = engine();
    put(&mut e, 1, "a", "1");
    let cmp = Compare {
        result: CompareResult::Equal,
        target: CompareTarget::Lease,
        key: b"a".to_vec(),
        range_end: vec![],
        target_union: Some(TargetUnion::Lease(2)),
    };
    let txn = TxnRequest { compare: vec![cmp], success: vec![], failure: vec![] };
    match e.execute(2, &RequestWrapper::TxnRequest(txn)).unwrap() {
        ResponseWrapper::TxnResponse(r) => assert!(r.succeeded),
        _ => panic!("not a txn response"),
    }
}

#[test]
fn compare_over_range_needs_all_keys() {
    let mut e = engine();
    put(&mut e, 1, "a", "1");
    put(&mut e, 2, "a", "2");
    put(&mut e, 3, "b", "1");
    let mut cmp = version_compare("a", 1);
    cmp.range_end = b"c".to_vec();
    cmp.result = CompareResult::Greater;
    let txn = TxnRequest { compare: vec![cmp], success: vec![], failure: vec![] };
    match e.execute(4, &RequestWrapper::TxnRequest(txn)).unwrap() {
        ResponseWrapper::TxnResponse(r) => assert!(!r.succeeded),
        _ => panic!("not a txn response"),
    }
}

#[test]
fn commit_of_unknown_proposal_is_refused() {
    let e = engine();
    assert!(!e.has_proposal(9));
    assert!(!e.can_commit(9));
}

#[test]
fn replay_mixes_puts_and_deletes_in_key_order() {
    let mut e = engine();
    put(&mut e, 1, "b", "1");
    put(&mut e, 2, "a", "1");
    delete(&mut e, 3, "b", "");
    let replay = e.get_event_from_revision(&[0], &[0], 3);
    assert_eq!(replay.len(), 2);
    assert_eq!(replay[0].kv.key, b"a".to_vec());
    assert_eq!(replay[0].event_type, EventType::Put);
    assert_eq!(replay[1].kv.key, b"b".to_vec());
    assert_eq!(replay[1].event_type, EventType::Delete);
    assert_eq!(replay[1].kv.mod_revision, 4);
}

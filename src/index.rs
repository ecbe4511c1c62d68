use crate::bytes::{
    bytes_lt, compare_bytes, in_range, key_in_range, lemma_lt_irreflexive, lemma_lt_total,
    lemma_lt_transitive, to_bytes, CompareResult,
};
use crate::types::{copy_bytes, KeyRevision, Revision};
use vstd::prelude::*;

verus! {

/// Bound on the number of keys and on the length of a key's history that the
/// index accepts, so that versions and sub revisions fit in `i64`.
pub const INDEX_LIMIT: u64 = 0x8000_0000;

/// A key and its history, as the index sees it.
pub type HistoryView = (Seq<u8>, Seq<KeyRevision>);

/// The history of one key, oldest entry first.
#[derive(Debug)]
pub struct KeyHistory {
    pub key: Vec<u8>,
    pub revs: Vec<KeyRevision>,
}

/// A tombstone appended by a deletion, with the live entry it ends.
#[derive(Debug, Clone)]
pub struct Deletion {
    pub key: Vec<u8>,
    pub prev: Revision,
    pub tombstone: Revision,
}

pub struct DeletionView {
    pub key: Seq<u8>,
    pub prev: Revision,
    pub tombstone: Revision,
}

impl View for Deletion {
    type V = DeletionView;

    open spec fn view(&self) -> DeletionView {
        DeletionView { key: self.key@, prev: self.prev, tombstone: self.tombstone }
    }
}

/// Maps each key to the ordered history of its writes and deletions.
#[derive(Debug)]
pub struct RevisionIndex {
    entries: Vec<KeyHistory>,
}

/// Strict order of coordinates: by main revision, then by sub revision.
pub open spec fn coord_lt(a: Revision, b: Revision) -> bool {
    a.main < b.main || (a.main == b.main && a.sub < b.sub)
}

/// Every coordinate of the index lies before `(main, sub)`.
pub open spec fn index_before(e: Seq<HistoryView>, main: i64, sub: i64) -> bool {
    forall|i: int, t: int|
        0 <= i < e.len() && 0 <= t < e[i].1.len() ==> coord_lt(
            #[trigger] e[i].1[t].coord(),
            Revision { main, sub },
        )
}

/// Whether entry `j` of a history follows from the one before it.
pub open spec fn entry_follows(h: Seq<KeyRevision>, j: int) -> bool {
    let r = h[j];
    &&& 0 <= r.version <= j + 1
    &&& j > 0 ==> coord_lt(h[j - 1].coord(), r.coord())
    &&& if r.is_tombstone() {
        r.create_revision == 0 && j > 0 && !h[j - 1].is_tombstone()
    } else if j == 0 || h[j - 1].is_tombstone() {
        r.version == 1 && r.create_revision == r.mod_revision
    } else {
        r.version == h[j - 1].version + 1 && r.create_revision == h[j - 1].create_revision
    }
}

/// A key's history: never empty, each entry following from the one before.
pub open spec fn history_wf(h: Seq<KeyRevision>) -> bool {
    &&& h.len() > 0
    &&& forall|j: int| 0 <= j < h.len() ==> #[trigger] entry_follows(h, j)
}

/// Keys in strictly ascending order.
pub open spec fn keys_sorted(e: Seq<HistoryView>) -> bool {
    forall|i: int, j: int| 0 <= i < j < e.len() ==> bytes_lt(#[trigger] e[i].0, #[trigger] e[j].0)
}

pub open spec fn has_key(e: Seq<HistoryView>, k: Seq<u8>) -> bool {
    exists|i: int| 0 <= i < e.len() && (#[trigger] e[i]).0 == k
}

/// Keys sorted, every history well formed, and sizes within the limit.
pub open spec fn index_wf(e: Seq<HistoryView>) -> bool {
    &&& keys_sorted(e)
    &&& forall|i: int| 0 <= i < e.len() ==> history_wf(#[trigger] e[i].1)
    &&& room(e, 0)
}

/// Room for `n` more keys, and `n` more entries in every history.
pub open spec fn room(e: Seq<HistoryView>, n: int) -> bool {
    &&& e.len() + n <= INDEX_LIMIT
    &&& forall|i: int| 0 <= i < e.len() ==> (#[trigger] e[i]).1.len() + n <= INDEX_LIMIT
}

/// Whether `k` goes between the keys before `p` and those from `p` on.
pub open spec fn splits_at(e: Seq<HistoryView>, k: Seq<u8>, p: int) -> bool {
    &&& 0 <= p <= e.len()
    &&& forall|j: int| 0 <= j < p ==> bytes_lt(#[trigger] e[j].0, k)
    &&& forall|j: int| p <= j < e.len() ==> bytes_lt(k, #[trigger] e[j].0)
}

/// The position at which a new key `k` is inserted.
pub open spec fn ins_pos(e: Seq<HistoryView>, k: Seq<u8>) -> int {
    choose|p: int| splits_at(e, k, p)
}

/// The index after a write to `k` appends `nr` to its history.
pub open spec fn put_index(e: Seq<HistoryView>, k: Seq<u8>, nr: KeyRevision) -> Seq<HistoryView> {
    if has_key(e, k) {
        e.update(key_pos(e, k), (k, e[key_pos(e, k)].1.push(nr)))
    } else {
        e.insert(ins_pos(e, k), (k, seq![nr]))
    }
}

/// The index after deleting the range at `main`, tombstones numbered from `sub`.
pub open spec fn delete_index(
    e: Seq<HistoryView>,
    start: Seq<u8>,
    end: Seq<u8>,
    main: i64,
    sub: i64,
) -> Seq<HistoryView> {
    Seq::new(e.len(), |i: int| (e[i].0, after_delete(e, i, start, end, main, sub)))
}

/// In a sorted index a new key has one insertion position.
pub proof fn lemma_ins_pos(e: Seq<HistoryView>, k: Seq<u8>, p: int)
    requires
        keys_sorted(e),
        splits_at(e, k, p),
    ensures
        ins_pos(e, k) == p,
{
    let q = ins_pos(e, k);
    assert(splits_at(e, k, q));
    if q != p {
        let m = if q < p { q } else { p };
        assert(bytes_lt(e[m].0, k));
        assert(bytes_lt(k, e[m].0));
        lemma_lt_transitive(k, e[m].0, k);
        lemma_lt_irreflexive(k);
    }
}

/// A position at which `k` stands, where it stands anywhere.
pub open spec fn key_pos(e: Seq<HistoryView>, k: Seq<u8>) -> int {
    choose|i: int| 0 <= i < e.len() && (#[trigger] e[i]).0 == k
}

/// The history of `k`, empty where the index has never seen it.
pub open spec fn history_of(e: Seq<HistoryView>, k: Seq<u8>) -> Seq<KeyRevision> {
    if has_key(e, k) {
        e[key_pos(e, k)].1
    } else {
        Seq::empty()
    }
}

/// The entry that a write at `(main, sub)` appends after history `h`.
pub open spec fn next_rev(h: Seq<KeyRevision>, main: i64, sub: i64) -> KeyRevision {
    if h.len() == 0 || h.last().is_tombstone() {
        KeyRevision { create_revision: main, mod_revision: main, sub_revision: sub, version: 1 }
    } else {
        KeyRevision {
            create_revision: h.last().create_revision,
            mod_revision: main,
            sub_revision: sub,
            version: (h.last().version + 1) as i64,
        }
    }
}

/// The latest entry of `h` whose main revision is at most `rev`; `rev == 0`
/// asks for the latest entry of all.
pub open spec fn latest_at(h: Seq<KeyRevision>, rev: i64) -> Option<KeyRevision>
    decreases h.len(),
{
    if h.len() == 0 {
        None
    } else if rev == 0 || h.last().mod_revision <= rev {
        Some(h.last())
    } else {
        latest_at(h.drop_last(), rev)
    }
}

/// The coordinate that a read at `rev` sees for a key with history `h`.
pub open spec fn visible(h: Seq<KeyRevision>, rev: i64) -> Option<Revision> {
    match latest_at(h, rev) {
        Some(r) => if r.is_tombstone() {
            None
        } else {
            Some(r.coord())
        },
        None => None,
    }
}

/// Coordinates visible at `rev` of the keys in range, in key order.
pub open spec fn get_spec(e: Seq<HistoryView>, start: Seq<u8>, end: Seq<u8>, rev: i64) -> Seq<
    Revision,
>
    decreases e.len(),
{
    if e.len() == 0 {
        Seq::empty()
    } else {
        let prev = get_spec(e.drop_last(), start, end, rev);
        if key_in_range(e.last().0, start, end) {
            match visible(e.last().1, rev) {
                Some(c) => prev.push(c),
                None => prev,
            }
        } else {
            prev
        }
    }
}

/// Coordinates of the entries of `h` at or after revision `since`.
pub open spec fn since_spec(h: Seq<KeyRevision>, since: i64) -> Seq<Revision>
    decreases h.len(),
{
    if h.len() == 0 {
        Seq::empty()
    } else {
        let prev = since_spec(h.drop_last(), since);
        if h.last().mod_revision >= since {
            prev.push(h.last().coord())
        } else {
            prev
        }
    }
}

/// Coordinates of all entries at or after `since` of the keys in range, in
/// key order, then history order.
pub open spec fn from_rev_spec(e: Seq<HistoryView>, start: Seq<u8>, end: Seq<u8>, since: i64) -> Seq<
    Revision,
>
    decreases e.len(),
{
    if e.len() == 0 {
        Seq::empty()
    } else {
        let prev = from_rev_spec(e.drop_last(), start, end, since);
        if key_in_range(e.last().0, start, end) {
            prev + since_spec(e.last().1, since)
        } else {
            prev
        }
    }
}

/// Whether a deletion of the range removes the key with this history.
pub open spec fn deletes(h: HistoryView, start: Seq<u8>, end: Seq<u8>) -> bool {
    key_in_range(h.0, start, end) && h.1.len() > 0 && !h.1.last().is_tombstone()
}

/// The tombstone written at `(main, sub)`.
pub open spec fn tombstone_at(main: i64, sub: int) -> KeyRevision {
    KeyRevision { create_revision: 0, mod_revision: main, sub_revision: sub as i64, version: 0 }
}

/// The deletions that deleting the range at `main` performs, numbered from `sub`.
pub open spec fn delete_spec(
    e: Seq<HistoryView>,
    start: Seq<u8>,
    end: Seq<u8>,
    main: i64,
    sub: i64,
) -> Seq<DeletionView>
    decreases e.len(),
{
    if e.len() == 0 {
        Seq::empty()
    } else {
        let prev = delete_spec(e.drop_last(), start, end, main, sub);
        if deletes(e.last(), start, end) {
            prev.push(
                DeletionView {
                    key: e.last().0,
                    prev: e.last().1.last().coord(),
                    tombstone: Revision { main, sub: (sub + prev.len()) as i64 },
                },
            )
        } else {
            prev
        }
    }
}

/// The history of entry `i` after deleting the range.
pub open spec fn after_delete(
    e: Seq<HistoryView>,
    i: int,
    start: Seq<u8>,
    end: Seq<u8>,
    main: i64,
    sub: i64,
) -> Seq<KeyRevision> {
    if deletes(e[i], start, end) {
        e[i].1.push(tombstone_at(main, sub + delete_spec(e.take(i), start, end, main, sub).len()))
    } else {
        e[i].1
    }
}

proof fn lemma_point_get_absent(e: Seq<HistoryView>, k: Seq<u8>)
    requires
        forall|j: int| 0 <= j < e.len() ==> (#[trigger] e[j]).0 != k,
    ensures
        get_spec(e, k, Seq::empty(), 0) == Seq::<Revision>::empty(),
    decreases e.len(),
{
    if e.len() > 0 {
        assert(e[e.len() - 1].0 != k);
        lemma_point_get_absent(e.drop_last(), k);
    }
}

/// A point read of a key of a sorted index sees the latest entry of that
/// key, unless it is a tombstone.
pub proof fn lemma_point_get(e: Seq<HistoryView>, i: int)
    requires
        keys_sorted(e),
        0 <= i < e.len(),
    ensures
        get_spec(e, e[i].0, Seq::empty(), 0) == match visible(e[i].1, 0) {
            Some(c) => seq![c],
            None => Seq::<Revision>::empty(),
        },
    decreases e.len(),
{
    let k = e[i].0;
    let p = e.drop_last();
    if i == e.len() - 1 {
        assert forall|j: int| 0 <= j < p.len() implies (#[trigger] p[j]).0 != k by {
            assert(bytes_lt(e[j].0, e[i].0));
            lemma_lt_irreflexive(k);
        }
        lemma_point_get_absent(p, k);
        assert(Seq::<Revision>::empty().push(visible(e[i].1, 0)->0) =~= seq![visible(e[i].1, 0)->0]);
    } else {
        assert(bytes_lt(e[i].0, e[e.len() - 1].0));
        lemma_lt_irreflexive(k);
        assert(!key_in_range(e.last().0, k, Seq::empty()));
        assert(p[i] == e[i]);
        lemma_point_get(p, i);
    }
}

/// Number of trailing writes in a history since it was last absent.
pub open spec fn trailing_puts(h: Seq<KeyRevision>) -> nat
    decreases h.len(),
{
    if h.len() == 0 || h.last().is_tombstone() {
        0
    } else {
        1 + trailing_puts(h.drop_last())
    }
}

/// Whether the history of `k` holds an entry at `c`.
pub open spec fn index_has(e: Seq<HistoryView>, k: Seq<u8>, c: Revision) -> bool {
    exists|i: int, t: int|
        0 <= i < e.len() && 0 <= t < e[i].1.len() && e[i].0 == k && (#[trigger] e[i].1[t]).coord()
            == c
}

/// Entries stay when a history grows by one entry.
pub proof fn lemma_has_after_update(e: Seq<HistoryView>, i: int, x: KeyRevision, k: Seq<u8>, c: Revision)
    requires
        0 <= i < e.len(),
        index_has(e, k, c),
    ensures
        index_has(e.update(i, (e[i].0, e[i].1.push(x))), k, c),
{
    let f = e.update(i, (e[i].0, e[i].1.push(x)));
    let (a, t) = choose|a: int, t: int|
        0 <= a < e.len() && 0 <= t < e[a].1.len() && e[a].0 == k && (#[trigger] e[a].1[t]).coord() == c;
    assert(f[a].1[t] == e[a].1[t]);
}

/// Entries stay when a key is added.
pub proof fn lemma_has_after_insert(e: Seq<HistoryView>, i: int, y: HistoryView, k: Seq<u8>, c: Revision)
    requires
        0 <= i <= e.len(),
        index_has(e, k, c),
    ensures
        index_has(e.insert(i, y), k, c),
{
    let f = e.insert(i, y);
    let (a, t) = choose|a: int, t: int|
        0 <= a < e.len() && 0 <= t < e[a].1.len() && e[a].0 == k && (#[trigger] e[a].1[t]).coord() == c;
    if a < i {
        assert(f[a].1[t] == e[a].1[t]);
    } else {
        assert(f[a + 1].1[t] == e[a].1[t]);
    }
}

/// Each deletion of a range ends the live entry of one key in range, and
/// its tombstone is numbered by its rank.
pub proof fn lemma_delete_spec_entry(
    e: Seq<HistoryView>,
    start: Seq<u8>,
    end: Seq<u8>,
    main: i64,
    sub: i64,
    k: int,
)
    requires
        0 <= k < delete_spec(e, start, end, main, sub).len(),
        0 <= sub,
        sub + e.len() <= i64::MAX,
    ensures
        exists|i: int|
            0 <= i < e.len() && deletes(e[i], start, end) && delete_spec(e.take(i), start, end, main, sub).len()
                == k && #[trigger] delete_spec(e, start, end, main, sub)[k].key == e[i].0,
        delete_spec(e, start, end, main, sub)[k].tombstone == (Revision { main, sub: (sub + k) as i64 }),
    decreases e.len(),
{
    let p = e.drop_last();
    let prev = delete_spec(p, start, end, main, sub);
    lemma_delete_spec_len(p, start, end, main, sub);
    if k < prev.len() {
        lemma_delete_spec_entry(p, start, end, main, sub, k);
        let i = choose|i: int|
            0 <= i < p.len() && deletes(p[i], start, end) && delete_spec(p.take(i), start, end, main, sub).len()
                == k && #[trigger] delete_spec(p, start, end, main, sub)[k].key == p[i].0;
        assert(p.take(i) =~= e.take(i));
        assert(p[i] == e[i]);
    } else {
        let i = e.len() - 1;
        assert(e.take(i) =~= p);
        assert(deletes(e[i], start, end));
    }
}

/// A live key in range is deleted with the rank of the deletions before it.
pub proof fn lemma_delete_spec_at(
    e: Seq<HistoryView>,
    start: Seq<u8>,
    end: Seq<u8>,
    main: i64,
    sub: i64,
    i: int,
)
    requires
        0 <= i < e.len(),
        deletes(e[i], start, end),
    ensures
        delete_spec(e.take(i), start, end, main, sub).len() < delete_spec(e, start, end, main, sub).len(),
        delete_spec(e, start, end, main, sub)[delete_spec(e.take(i), start, end, main, sub).len() as int].key
            == e[i].0,
    decreases e.len(),
{
    let p = e.drop_last();
    if i == e.len() - 1 {
        assert(e.take(i) =~= p);
    } else {
        assert(p.take(i) =~= e.take(i));
        assert(p[i] == e[i]);
        lemma_delete_spec_at(p, start, end, main, sub, i);
    }
}

pub proof fn lemma_delete_spec_len(e: Seq<HistoryView>, start: Seq<u8>, end: Seq<u8>, main: i64, sub: i64)
    ensures
        delete_spec(e, start, end, main, sub).len() <= e.len(),
    decreases e.len(),
{
    if e.len() > 0 {
        lemma_delete_spec_len(e.drop_last(), start, end, main, sub);
    }
}

/// In a sorted index the history of a present key is the one stored with it.
pub proof fn lemma_history_of(e: Seq<HistoryView>, i: int)
    requires
        keys_sorted(e),
        0 <= i < e.len(),
    ensures
        history_of(e, e[i].0) == e[i].1,
        key_pos(e, e[i].0) == i,
{
    let k = e[i].0;
    assert(has_key(e, k));
    let j = key_pos(e, k);
    if j < i {
        assert(bytes_lt(e[j].0, e[i].0));
        lemma_lt_irreflexive(k);
    } else if i < j {
        assert(bytes_lt(e[i].0, e[j].0));
        lemma_lt_irreflexive(k);
    }
    assert(j == i);
}

/// The version of a key's latest live entry is the number of writes to the
/// key since it was last deleted, or since its first write.
pub proof fn lemma_version_counts_puts(h: Seq<KeyRevision>)
    requires
        history_wf(h),
        !h.last().is_tombstone(),
    ensures
        h.last().version == trailing_puts(h),
    decreases h.len(),
{
    assert(entry_follows(h, h.len() - 1));
    if h.len() > 1 && !h[h.len() - 2].is_tombstone() {
        let p = h.drop_last();
        assert forall|j: int| 0 <= j < p.len() implies #[trigger] entry_follows(p, j) by {
            assert(entry_follows(h, j));
        }
        lemma_version_counts_puts(p);
        assert(p.last() == h[h.len() - 2]);
    } else if h.len() > 1 {
        assert(h.drop_last().last() == h[h.len() - 2]);
        assert(trailing_puts(h.drop_last()) == 0);
    } else {
        assert(trailing_puts(h.drop_last()) == 0);
    }
}

impl KeyHistory {
    pub open spec fn hv(&self) -> HistoryView {
        (self.key@, self.revs@)
    }
}

impl View for RevisionIndex {
    type V = Seq<HistoryView>;

    closed spec fn view(&self) -> Seq<HistoryView> {
        self.entries@.map_values(|h: KeyHistory| h.hv())
    }
}

impl RevisionIndex {
    /// Keys sorted, every history well formed, and sizes within the limit.
    pub open spec fn wf(&self) -> bool {
        index_wf(self@)
    }

    /// Room for `n` more keys, and `n` more entries in every history.
    pub open spec fn within(&self, n: int) -> bool {
        room(self@, n)
    }

    /// An empty index.
    pub fn new() -> (r: Self)
        ensures
            r.wf(),
            r@.len() == 0,
    {
        let r = RevisionIndex { entries: Vec::new() };
        assert(r@ =~= Seq::<HistoryView>::empty());
        r
    }

    /// Number of keys the index has seen.
    pub fn len(&self) -> (r: usize)
        ensures
            r == self@.len(),
    {
        self.entries.len()
    }

    /// The latest entry of a history at `rev`.
    fn latest(revs: &Vec<KeyRevision>, rev: i64) -> (r: Option<KeyRevision>)
        ensures
            r == latest_at(revs@, rev),
    {
        let mut j: usize = revs.len();
        assert(revs@.take(j as int) =~= revs@);
        while j > 0
            invariant
                j <= revs@.len(),
                latest_at(revs@, rev) == latest_at(revs@.take(j as int), rev),
            decreases j,
        {
            let r = revs[j - 1];
            assert(revs@.take(j as int).drop_last() =~= revs@.take(j - 1));
            if rev == 0 || r.mod_revision <= rev {
                return Some(r);
            }
            j = j - 1;
        }
        None
    }

    /// For each key in range, the coordinate of its latest entry at `rev`,
    /// tombstones skipped, in ascending key order.
    pub fn get(&self, start: &[u8], end: &[u8], rev: i64) -> (r: Vec<Revision>)
        ensures
            r@ == get_spec(self@, start@, end@, rev),
    {
        let mut r: Vec<Revision> = Vec::new();
        let mut i: usize = 0;
        while i < self.entries.len()
            invariant
                i <= self@.len(),
                r@ == get_spec(self@.take(i as int), start@, end@, rev),
            decreases self@.len() - i,
        {
            let h = &self.entries[i];
            assert(self@.take(i + 1).drop_last() =~= self@.take(i as int));
            assert(self@.take(i + 1).last() == h.hv());
            if in_range(h.key.as_slice(), start, end) {
                match Self::latest(&h.revs, rev) {
                    Some(kr) => {
                        if kr.version != 0 {
                            r.push(kr.as_revision());
                        }
                    },
                    None => {},
                }
            }
            i = i + 1;
        }
        assert(self@.take(self@.len() as int) =~= self@);
        r
    }

    /// Every entry at or after `since` of the keys in range, ordered by key,
    /// then by history.
    pub fn get_from_rev(&self, start: &[u8], end: &[u8], since: i64) -> (r: Vec<Revision>)
        ensures
            r@ == from_rev_spec(self@, start@, end@, since),
    {
        let mut r: Vec<Revision> = Vec::new();
        let mut i: usize = 0;
        while i < self.entries.len()
            invariant
                i <= self@.len(),
                r@ == from_rev_spec(self@.take(i as int), start@, end@, since),
            decreases self@.len() - i,
        {
            let h = &self.entries[i];
            assert(self@.take(i + 1).drop_last() =~= self@.take(i as int));
            assert(self@.take(i + 1).last() == h.hv());
            if in_range(h.key.as_slice(), start, end) {
                let ghost base = r@;
                let mut j: usize = 0;
                while j < h.revs.len()
                    invariant
                        j <= h.revs@.len(),
                        r@ == base + since_spec(h.revs@.take(j as int), since),
                    decreases h.revs@.len() - j,
                {
                    let kr = h.revs[j];
                    assert(h.revs@.take(j + 1).drop_last() =~= h.revs@.take(j as int));
                    if kr.mod_revision >= since {
                        r.push(kr.as_revision());
                    }
                    j = j + 1;
                    assert(r@ =~= base + since_spec(h.revs@.take(j as int), since));
                }
                assert(h.revs@.take(j as int) =~= h.revs@);
            }
            i = i + 1;
        }
        assert(self@.take(self@.len() as int) =~= self@);
        r
    }
    /// Position of the first key not below `key`, and whether it is `key`.
    fn locate(&self, key: &[u8]) -> (r: (usize, bool))
        requires
            keys_sorted(self@),
        ensures
            r.0 <= self@.len(),
            forall|j: int| 0 <= j < r.0 ==> bytes_lt(#[trigger] self@[j].0, key@),
            r.1 ==> r.0 < self@.len() && self@[r.0 as int].0 == key@,
            !r.1 ==> r.0 == self@.len() || bytes_lt(key@, self@[r.0 as int].0),
    {
        let mut i: usize = 0;
        while i < self.entries.len()
            invariant
                i <= self@.len(),
                forall|j: int| 0 <= j < i ==> bytes_lt(#[trigger] self@[j].0, key@),
            decreases self@.len() - i,
        {
            let c = compare_bytes(self.entries[i].key.as_slice(), key);
            assert(self@[i as int].0 == self.entries@[i as int].key@);
            if c == CompareResult::Equal {
                return (i, true);
            } else if c == CompareResult::Greater {
                proof {
                    lemma_lt_total(self@[i as int].0, key@);
                }
                return (i, false);
            }
            i = i + 1;
        }
        (i, false)
    }

    /// Appends to `key`'s history the entry of a write at `(main, sub)`.
    pub fn insert_or_update(&mut self, key: &[u8], main: i64, sub: i64) -> (r: KeyRevision)
        requires
            old(self).wf(),
            old(self).within(1),
            index_before(old(self)@, main, sub),
        ensures
            r == next_rev(history_of(old(self)@, key@), main, sub),
            final(self).wf(),
            forall|n: int| #[trigger] old(self).within(n) ==> final(self).within(n - 1),
            final(self)@ == put_index(old(self)@, key@, r),
            has_key(old(self)@, key@) ==> exists|i: int|
                0 <= i < old(self)@.len() && old(self)@[i].0 == key@ && final(self)@
                    == old(self)@.update(i, (key@, old(self)@[i].1.push(r))),
            !has_key(old(self)@, key@) ==> exists|i: int|
                0 <= i <= old(self)@.len() && final(self)@ == old(self)@.insert(
                    i,
                    (key@, seq![r]),
                ),
    {
        let ghost o = self@;
        let (i, found) = self.locate(key);
        if found {
            proof {
                lemma_history_of(o, i as int);
            }
            let mut h = self.entries.remove(i);
            let last = h.revs[h.revs.len() - 1];
            assert(h.revs@.last() == last);
            assert(entry_follows(h.revs@, h.revs@.len() - 1));
            assert(coord_lt(o[i as int].1[h.revs@.len() - 1].coord(), Revision { main, sub }));
            let nr = if last.version == 0 {
                KeyRevision { create_revision: main, mod_revision: main, sub_revision: sub, version: 1 }
            } else {
                KeyRevision {
                    create_revision: last.create_revision,
                    mod_revision: main,
                    sub_revision: sub,
                    version: last.version + 1,
                }
            };
            let ghost hr = h.revs@;
            h.revs.push(nr);
            proof {
                assert forall|j: int| 0 <= j < h.revs@.len() implies #[trigger] entry_follows(h.revs@, j) by {
                    if j < hr.len() {
                        assert(entry_follows(hr, j));
                    }
                }
            }
            self.entries.insert(i, h);
            proof {
                assert(self@ =~= o.update(i as int, (key@, o[i as int].1.push(nr))));
                assert forall|a: int, b: int| 0 <= a < b < self@.len() implies bytes_lt(
                    #[trigger] self@[a].0,
                    #[trigger] self@[b].0,
                ) by {
                    assert(bytes_lt(o[a].0, o[b].0));
                }
                assert forall|a: int| 0 <= a < self@.len() implies history_wf(#[trigger] self@[a].1) by {
                    assert(history_wf(o[a].1));
                }
                assert forall|n: int| #[trigger] old(self).within(n) implies self.within(n - 1) by {
                    assert forall|a: int| 0 <= a < self@.len() implies (#[trigger] self@[a]).1.len() + n - 1 <= INDEX_LIMIT by {
                        assert(o[a].1.len() + n <= INDEX_LIMIT);
                    }
                }
            }
            nr
        } else {
            proof {
                if has_key(o, key@) {
                    let j = choose|j: int| 0 <= j < o.len() && (#[trigger] o[j]).0 == key@;
                    if j < i {
                        lemma_lt_irreflexive(key@);
                    } else {
                        if j > i {
                            lemma_lt_transitive(key@, o[i as int].0, o[j].0);
                        }
                        lemma_lt_irreflexive(key@);
                    }
                }
            }
            let nr = KeyRevision { create_revision: main, mod_revision: main, sub_revision: sub, version: 1 };
            let mut revs: Vec<KeyRevision> = Vec::new();
            revs.push(nr);
            assert(revs@ =~= seq![nr]);
            assert(entry_follows(revs@, 0));
            let h = KeyHistory { key: to_bytes(key), revs };
            self.entries.insert(i, h);
            proof {
                assert(self@ =~= o.insert(i as int, (key@, seq![nr])));
                assert forall|j: int| i <= j < o.len() implies bytes_lt(key@, #[trigger] o[j].0) by {
                    if j > i {
                        lemma_lt_transitive(key@, o[i as int].0, o[j].0);
                    }
                }
                lemma_ins_pos(o, key@, i as int);
                assert forall|a: int, b: int| 0 <= a < b < self@.len() implies bytes_lt(
                    #[trigger] self@[a].0,
                    #[trigger] self@[b].0,
                ) by {
                    if b < i {
                        assert(bytes_lt(o[a].0, o[b].0));
                    } else if b == i {
                    } else if a < i {
                        assert(bytes_lt(o[a].0, key@));
                        assert(bytes_lt(key@, o[i as int].0));
                        if b - 1 > i {
                            lemma_lt_transitive(key@, o[i as int].0, o[b - 1].0);
                        }
                        lemma_lt_transitive(o[a].0, key@, o[b - 1].0);
                    } else if a == i {
                        if b - 1 > i {
                            lemma_lt_transitive(key@, o[i as int].0, o[b - 1].0);
                        }
                    } else {
                        assert(bytes_lt(o[a - 1].0, o[b - 1].0));
                    }
                }
                assert forall|a: int| 0 <= a < self@.len() implies history_wf(#[trigger] self@[a].1) by {
                    if a < i {
                        assert(history_wf(o[a].1));
                    } else if a > i {
                        assert(history_wf(o[a - 1].1));
                    }
                }
                assert forall|n: int| #[trigger] old(self).within(n) implies self.within(n - 1) by {
                    assert forall|a: int| 0 <= a < self@.len() implies (#[trigger] self@[a]).1.len() + n - 1 <= INDEX_LIMIT by {
                        if a < i {
                            assert(o[a].1.len() + n <= INDEX_LIMIT);
                        } else if a > i {
                            assert(o[a - 1].1.len() + n <= INDEX_LIMIT);
                        }
                    }
                }
            }
            nr
        }
    }
    /// Appends a tombstone to each live key in range, numbering them from
    /// `sub` in key order, and returns what was deleted.
    pub fn delete(&mut self, start: &[u8], end: &[u8], main: i64, sub: i64) -> (r: Vec<Deletion>)
        requires
            old(self).wf(),
            old(self).within(1),
            index_before(old(self)@, main, sub),
            0 <= sub,
            sub + old(self)@.len() <= i64::MAX,
        ensures
            final(self).wf(),
            forall|n: int| #[trigger] old(self).within(n) ==> final(self).within(n - 1),
            r@.map_values(|d: Deletion| d@) == delete_spec(old(self)@, start@, end@, main, sub),
            r@.len() <= old(self)@.len(),
            final(self)@.len() == old(self)@.len(),
            final(self)@ == delete_index(old(self)@, start@, end@, main, sub),
            forall|i: int|
                0 <= i < old(self)@.len() ==> (#[trigger] final(self)@[i]).0 == old(self)@[i].0
                    && final(self)@[i].1 == after_delete(old(self)@, i, start@, end@, main, sub),
    {
        let ghost o = self@;
        let mut r: Vec<Deletion> = Vec::new();
        let mut i: usize = 0;
        while i < self.entries.len()
            invariant
                i <= o.len(),
                self@.len() == o.len(),
                forall|j: int| i <= j < o.len() ==> #[trigger] self@[j] == o[j],
                forall|j: int|
                    0 <= j < i ==> (#[trigger] self@[j]).0 == o[j].0 && self@[j].1 == after_delete(
                        o,
                        j,
                        start@,
                        end@,
                        main,
                        sub,
                    ),
                r@.map_values(|d: Deletion| d@) == delete_spec(o.take(i as int), start@, end@, main, sub),
                0 <= sub,
                sub + o.len() <= i64::MAX,
            decreases o.len() - i,
        {
            proof {
                lemma_delete_spec_len(o.take(i as int), start@, end@, main, sub);
                assert(o.take(i + 1).drop_last() =~= o.take(i as int));
                assert(o.take(i + 1).last() == o[i as int]);
            }
            let ghost rv = r@.map_values(|d: Deletion| d@);
            let ghost before = self@;
            assert(self@[i as int] == o[i as int]);
            let live = {
                let h = &self.entries[i];
                assert(h.hv() == self@[i as int]);
                if h.revs.len() > 0 {
                    assert(h.revs@.last() == h.revs@[h.revs@.len() - 1]);
                }
                in_range(h.key.as_slice(), start, end) && h.revs.len() > 0 && h.revs[h.revs.len()
                    - 1].version != 0
            };
            if live {
                let mut h = self.entries.remove(i);
                let prev = h.revs[h.revs.len() - 1].as_revision();
                let tomb = KeyRevision {
                    create_revision: 0,
                    mod_revision: main,
                    sub_revision: sub + r.len() as i64,
                    version: 0,
                };
                h.revs.push(tomb);
                let d = Deletion { key: copy_bytes(&h.key), prev, tombstone: tomb.as_revision() };
                let ghost hv = h.hv();
                self.entries.insert(i, h);
                r.push(d);
                proof {
                    assert(r@.map_values(|d: Deletion| d@) =~= rv.push(d@));
                    assert(self@ =~= before.update(i as int, hv));
                    assert(rv.len() == delete_spec(o.take(i as int), start@, end@, main, sub).len());
                    assert(hv.1 == o[i as int].1.push(tombstone_at(main, sub + rv.len())));
                }
            } else {
                assert(self@ == before);
            }
            proof {
                assert forall|j: int|
                    0 <= j < i + 1 implies (#[trigger] self@[j]).0 == o[j].0 && self@[j].1
                    == after_delete(o, j, start@, end@, main, sub) by {
                    if j == i {
                        assert(o.take(j) =~= o.take(i as int));
                    }
                }
            }
            i = i + 1;
        }
        proof {
            assert(o.take(o.len() as int) =~= o);
            assert(self@ =~= delete_index(o, start@, end@, main, sub));
            lemma_delete_spec_len(o, start@, end@, main, sub);
            assert forall|a: int, b: int| 0 <= a < b < self@.len() implies bytes_lt(
                #[trigger] self@[a].0,
                #[trigger] self@[b].0,
            ) by {
                assert(bytes_lt(o[a].0, o[b].0));
            }
            assert forall|a: int| 0 <= a < self@.len() implies history_wf(#[trigger] self@[a].1) by {
                let h = o[a].1;
                assert(history_wf(h));
                if deletes(o[a], start@, end@) {
                    let t = self@[a].1;
                    assert forall|j: int| 0 <= j < t.len() implies #[trigger] entry_follows(t, j) by {
                        if j < h.len() {
                            assert(entry_follows(h, j));
                        } else {
                            assert(coord_lt(o[a].1[h.len() - 1].coord(), Revision { main, sub }));
                            assert(t[j - 1] == h[h.len() - 1]);
                            let k = delete_spec(o.take(a), start@, end@, main, sub).len();
                            lemma_delete_spec_len(o.take(a), start@, end@, main, sub);
                            assert(t[j] == tombstone_at(main, sub + k));
                            assert(t[j].coord() == Revision { main, sub: (sub + k) as i64 });
                        }
                    }
                }
            }
            assert forall|n: int| #[trigger] old(self).within(n) implies self.within(n - 1) by {
                assert forall|a: int| 0 <= a < self@.len() implies (#[trigger] self@[a]).1.len() + n - 1 <= INDEX_LIMIT by {
                    assert(o[a].1.len() + n <= INDEX_LIMIT);
                }
            }
        }
        r
    }

    /// Whether the index has room for `n` more keys and `n` more entries in
    /// every history.
    pub fn has_room(&self, n: u64) -> (r: bool)
        ensures
            r == self.within(n as int),
    {
        if self.entries.len() as u64 > INDEX_LIMIT || n > INDEX_LIMIT - self.entries.len() as u64 {
            return false;
        }
        let mut i: usize = 0;
        while i < self.entries.len()
            invariant
                i <= self@.len(),
                forall|a: int| 0 <= a < i ==> (#[trigger] self@[a]).1.len() + n <= INDEX_LIMIT,
            decreases self@.len() - i,
        {
            assert(self@[i as int].1 == self.entries@[i as int].revs@);
            let l = self.entries[i].revs.len() as u64;
            if l > INDEX_LIMIT || n > INDEX_LIMIT - l {
                return false;
            }
            i = i + 1;
        }
        true
    }
}

} // verus!

use crate::index::{Deletion, DeletionView};
use crate::types::{copy_bytes, kvs_view, KeyValue, KeyValueView, Revision};
use vstd::prelude::*;

verus! {

/// The key-value pair at `c`, the latest one stored there.
pub open spec fn store_get(s: Seq<(Revision, KeyValueView)>, c: Revision) -> Option<KeyValueView>
    decreases s.len(),
{
    if s.len() == 0 {
        None
    } else if s.last().0 == c {
        Some(s.last().1)
    } else {
        store_get(s.drop_last(), c)
    }
}

/// The pairs stored at `coords`, in order, coordinates with nothing skipped.
pub open spec fn values_spec(s: Seq<(Revision, KeyValueView)>, coords: Seq<Revision>) -> Seq<
    KeyValueView,
>
    decreases coords.len(),
{
    if coords.len() == 0 {
        Seq::empty()
    } else {
        let prev = values_spec(s, coords.drop_last());
        match store_get(s, coords.last()) {
            Some(kv) => prev.push(kv),
            None => prev,
        }
    }
}

/// The pairs stored at the entries that the deletions end, in order.
pub open spec fn deleted_spec(s: Seq<(Revision, KeyValueView)>, dels: Seq<DeletionView>) -> Seq<
    KeyValueView,
> {
    values_spec(s, dels.map_values(|d: DeletionView| d.prev))
}

/// What a deletion records at its tombstone.
pub open spec fn tombstone_kv(d: DeletionView) -> KeyValueView {
    KeyValueView {
        key: d.key,
        create_revision: 0,
        mod_revision: d.tombstone.main,
        version: 0,
        value: Seq::empty(),
        lease: 0,
    }
}

/// The pairs that a list of deletions records at their tombstones.
pub open spec fn tombstones_of(dels: Seq<Deletion>) -> Seq<(Revision, KeyValueView)> {
    dels.map_values(|d: Deletion| (d.tombstone, tombstone_kv(d@)))
}

/// Every coordinate stored lies before `(main, sub)`.
pub open spec fn all_before(s: Seq<(Revision, KeyValueView)>, main: int, sub: int) -> bool {
    forall|i: int|
        0 <= i < s.len() ==> (#[trigger] s[i]).0.main < main || (s[i].0.main == main && s[i].0.sub
            < sub)
}

pub proof fn lemma_get_absent(s: Seq<(Revision, KeyValueView)>, c: Revision)
    requires
        forall|i: int| 0 <= i < s.len() ==> (#[trigger] s[i]).0 != c,
    ensures
        store_get(s, c) is None,
    decreases s.len(),
{
    if s.len() > 0 {
        assert(s[s.len() - 1].0 != c);
        lemma_get_absent(s.drop_last(), c);
    }
}

pub proof fn lemma_get_skip(s: Seq<(Revision, KeyValueView)>, t: Seq<(Revision, KeyValueView)>, c: Revision)
    requires
        forall|j: int| 0 <= j < t.len() ==> (#[trigger] t[j]).0 != c,
    ensures
        store_get(s + t, c) == store_get(s, c),
    decreases t.len(),
{
    if t.len() > 0 {
        assert((s + t).drop_last() =~= s + t.drop_last());
        assert(t[t.len() - 1].0 != c);
        lemma_get_skip(s, t.drop_last(), c);
    } else {
        assert(s + t =~= s);
    }
}

/// The latest of several entries at `c` is the one read.
pub proof fn lemma_get_last_in(s: Seq<(Revision, KeyValueView)>, t: Seq<(Revision, KeyValueView)>, k: int)
    requires
        0 <= k < t.len(),
        forall|l: int| k < l < t.len() ==> (#[trigger] t[l]).0 != t[k].0,
    ensures
        store_get(s + t, t[k].0) == Some(t[k].1),
    decreases t.len(),
{
    assert((s + t).drop_last() =~= s + t.drop_last());
    if k < t.len() - 1 {
        assert(t[t.len() - 1].0 != t[k].0);
        lemma_get_last_in(s, t.drop_last(), k);
    }
}

/// A pair read at `c` is stored at `c`.
pub proof fn lemma_get_some(s: Seq<(Revision, KeyValueView)>, c: Revision)
    requires
        store_get(s, c) is Some,
    ensures
        exists|i: int| 0 <= i < s.len() && (#[trigger] s[i]).0 == c,
    decreases s.len(),
{
    if s.last().0 == c {
        assert(s[s.len() - 1].0 == c);
    } else {
        lemma_get_some(s.drop_last(), c);
        let i = choose|i: int| 0 <= i < s.drop_last().len() && (#[trigger] s.drop_last()[i]).0 == c;
        assert(s[i] == s.drop_last()[i]);
    }
}

pub proof fn lemma_get_push(s: Seq<(Revision, KeyValueView)>, c: Revision, kv: KeyValueView, d: Revision)
    ensures
        store_get(s.push((c, kv)), d) == if d == c {
            Some(kv)
        } else {
            store_get(s, d)
        },
{
    assert(s.push((c, kv)).drop_last() =~= s);
}

/// Maps revision coordinates to the key-value pairs written there.
#[derive(Debug)]
pub struct VersionedStore {
    entries: Vec<(Revision, KeyValue)>,
}

impl View for VersionedStore {
    type V = Seq<(Revision, KeyValueView)>;

    closed spec fn view(&self) -> Seq<(Revision, KeyValueView)> {
        self.entries@.map_values(|e: (Revision, KeyValue)| (e.0, e.1@))
    }
}

impl VersionedStore {
    /// An empty store.
    pub fn new() -> (r: Self)
        ensures
            r@.len() == 0,
    {
        let r = VersionedStore { entries: Vec::new() };
        assert(r@ =~= Seq::<(Revision, KeyValueView)>::empty());
        r
    }

    /// The pair stored at `c`.
    pub fn get(&self, c: Revision) -> (r: Option<KeyValue>)
        ensures
            match r {
                Some(kv) => store_get(self@, c) == Some(kv@),
                None => store_get(self@, c) is None,
            },
    {
        let mut j: usize = self.entries.len();
        assert(self@.take(j as int) =~= self@);
        while j > 0
            invariant
                j <= self@.len(),
                store_get(self@, c) == store_get(self@.take(j as int), c),
            decreases j,
        {
            assert(self@.take(j as int).drop_last() =~= self@.take(j - 1));
            assert(self@[j - 1] == (self.entries@[j - 1].0, self.entries@[j - 1].1@));
            if self.entries[j - 1].0 == c {
                return Some(self.entries[j - 1].1.duplicate());
            }
            j = j - 1;
        }
        None
    }

    /// Records `kv` at `c`; storing the same pair twice changes nothing.
    pub fn insert(&mut self, c: Revision, kv: KeyValue)
        requires
            store_get(old(self)@, c) is None || store_get(old(self)@, c) == Some(kv@),
        ensures
            forall|d: Revision| #[trigger]
                store_get(final(self)@, d) == if d == c {
                    Some(kv@)
                } else {
                    store_get(old(self)@, d)
                },
            store_get(old(self)@, c) is None ==> final(self)@ == old(self)@.push((c, kv@)),
            store_get(old(self)@, c) is Some ==> final(self)@ == old(self)@,
    {
        let found = self.get(c);
        if found.is_none() {
            let ghost o = self@;
            let ghost v = kv@;
            self.entries.push((c, kv));
            proof {
                assert(self@ =~= o.push((c, v)));
                assert forall|d: Revision| #[trigger]
                    store_get(self@, d) == if d == c {
                        Some(v)
                    } else {
                        store_get(o, d)
                    } by {
                    lemma_get_push(o, c, v, d);
                }
            }
        }
    }

    /// The pairs stored at `coords`, in order; coordinates with nothing
    /// stored are skipped.
    pub fn get_values(&self, coords: &[Revision]) -> (r: Vec<KeyValue>)
        ensures
            kvs_view(r@) == values_spec(self@, coords@),
    {
        let mut r: Vec<KeyValue> = Vec::new();
        let mut i: usize = 0;
        while i < coords.len()
            invariant
                i <= coords@.len(),
                kvs_view(r@) == values_spec(self@, coords@.take(i as int)),
            decreases coords@.len() - i,
        {
            assert(coords@.take(i + 1).drop_last() =~= coords@.take(i as int));
            let ghost rv = kvs_view(r@);
            match self.get(coords[i]) {
                Some(kv) => {
                    r.push(kv);
                    assert(kvs_view(r@) =~= rv.push(r@.last()@));
                },
                None => {},
            }
            i = i + 1;
        }
        assert(coords@.take(i as int) =~= coords@);
        r
    }

    /// Records a tombstone for each deletion and returns the pairs that the
    /// deletions end, in order.
    pub fn mark_deletions(&mut self, dels: &[Deletion]) -> (r: Vec<KeyValue>)
        requires
            forall|j: int| 0 <= j < dels@.len() ==> store_get(old(self)@, #[trigger] dels@[j].tombstone) is None,
            forall|j: int, k: int|
                0 <= j < k < dels@.len() ==> #[trigger] dels@[j].tombstone != #[trigger] dels@[k].tombstone,
        ensures
            kvs_view(r@) == deleted_spec(old(self)@, dels@.map_values(|d: Deletion| d@)),
            final(self)@ == old(self)@ + tombstones_of(dels@),
    {
        let ghost o = self@;
        let mut prevs: Vec<Revision> = Vec::new();
        let mut i: usize = 0;
        while i < dels.len()
            invariant
                i <= dels@.len(),
                prevs@ == dels@.take(i as int).map_values(|d: Deletion| d@).map_values(|d: DeletionView| d.prev),
            decreases dels@.len() - i,
        {
            prevs.push(dels[i].prev);
            i = i + 1;
            assert(prevs@ =~= dels@.take(i as int).map_values(|d: Deletion| d@).map_values(|d: DeletionView| d.prev));
        }
        assert(dels@.take(i as int) =~= dels@);
        let r = self.get_values(prevs.as_slice());
        let mut i: usize = 0;
        while i < dels.len()
            invariant
                i <= dels@.len(),
                self@ == o + tombstones_of(dels@.take(i as int)),
                forall|j: int| 0 <= j < dels@.len() ==> store_get(o, #[trigger] dels@[j].tombstone) is None,
                forall|j: int, k: int|
                    0 <= j < k < dels@.len() ==> #[trigger] dels@[j].tombstone != #[trigger] dels@[k].tombstone,
            decreases dels@.len() - i,
        {
            let d = &dels[i];
            proof {
                let added = tombstones_of(dels@.take(i as int));
                assert forall|j: int| 0 <= j < added.len() implies (#[trigger] added[j]).0 != d.tombstone by {
                    assert(added[j].0 == dels@[j].tombstone);
                }
                lemma_get_skip(o, added, d.tombstone);
            }
            let kv = KeyValue {
                key: copy_bytes(&d.key),
                create_revision: 0,
                mod_revision: d.tombstone.main,
                version: 0,
                value: Vec::new(),
                lease: 0,
            };
            assert(kv@ =~= tombstone_kv(d@));
            self.insert(d.tombstone, kv);
            i = i + 1;
            assert(self@ =~= o + tombstones_of(dels@.take(i as int)));
        }
        assert(dels@.take(i as int) =~= dels@);
        r
    }
}

} // verus!

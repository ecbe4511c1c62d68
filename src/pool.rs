use crate::types::{DeleteRangeRequest, DeleteRangeRequestView, PutRequest, PutRequestView};
use std::collections::HashMap;
use vstd::prelude::*;

verus! {

broadcast use vstd::std_specs::hash::group_hash_axioms;

/// Identifier of a consensus proposal.
pub type ProposeId = u64;

/// A mutation buffered until its proposal commits.
#[derive(Debug, Clone)]
pub enum SyncOp {
    Put(PutRequest),
    DeleteRange(DeleteRangeRequest),
}

pub enum SyncOpView {
    Put(PutRequestView),
    DeleteRange(DeleteRangeRequestView),
}

impl View for SyncOp {
    type V = SyncOpView;

    open spec fn view(&self) -> SyncOpView {
        match self {
            SyncOp::Put(q) => SyncOpView::Put(q@),
            SyncOp::DeleteRange(q) => SyncOpView::DeleteRange(q@),
        }
    }
}

/// Views of a list of buffered mutations.
pub open spec fn ops_view(ops: Seq<SyncOp>) -> Seq<SyncOpView> {
    ops.map_values(|op: SyncOp| op@)
}

/// Mutations waiting for their proposal to commit, per proposal.
#[derive(Debug)]
pub struct SpeculativePool {
    pending: HashMap<ProposeId, Vec<SyncOp>>,
}

/// The list buffered for `id`, empty where there is none.
pub open spec fn pending_of(m: Map<ProposeId, Seq<SyncOpView>>, id: ProposeId) -> Seq<SyncOpView> {
    if m.contains_key(id) {
        m[id]
    } else {
        Seq::empty()
    }
}

impl View for SpeculativePool {
    type V = Map<ProposeId, Seq<SyncOpView>>;

    closed spec fn view(&self) -> Map<ProposeId, Seq<SyncOpView>> {
        self.pending@.map_values(|v: Vec<SyncOp>| ops_view(v@))
    }
}

impl SpeculativePool {
    /// An empty pool.
    pub fn new() -> (r: Self)
        ensures
            r@ == Map::<ProposeId, Seq<SyncOpView>>::empty(),
    {
        let r = SpeculativePool { pending: HashMap::new() };
        assert(r@ =~= Map::<ProposeId, Seq<SyncOpView>>::empty());
        r
    }

    /// Whether a list is buffered for `id`.
    pub fn contains(&self, id: ProposeId) -> (r: bool)
        ensures
            r == self@.contains_key(id),
    {
        self.pending.contains_key(&id)
    }

    /// Appends `op` to the list of `id`, creating the list if needed.
    pub fn append(&mut self, id: ProposeId, op: SyncOp)
        ensures
            final(self)@ == old(self)@.insert(id, pending_of(old(self)@, id).push(op@)),
    {
        let mut list = match self.pending.remove(&id) {
            Some(l) => l,
            None => Vec::new(),
        };
        assert(ops_view(list@) =~= pending_of(old(self)@, id));
        let ghost before = list@;
        list.push(op);
        assert(ops_view(list@) =~= ops_view(before).push(list@.last()@));
        self.pending.insert(id, list);
        assert(self@ =~= old(self)@.insert(id, pending_of(old(self)@, id).push(op@)));
    }

    /// Appends `ops`, in order, to the list of `id`, creating the list if needed.
    pub fn extend(&mut self, id: ProposeId, ops: Vec<SyncOp>)
        ensures
            final(self)@ == old(self)@.insert(id, pending_of(old(self)@, id) + ops_view(ops@)),
    {
        let mut list = match self.pending.remove(&id) {
            Some(l) => l,
            None => Vec::new(),
        };
        assert(ops_view(list@) =~= pending_of(old(self)@, id));
        let ghost before = list@;
        let mut more = ops;
        let ghost added = more@;
        list.append(&mut more);
        assert(ops_view(list@) =~= ops_view(before) + ops_view(added));
        self.pending.insert(id, list);
        assert(self@ =~= old(self)@.insert(id, pending_of(old(self)@, id) + ops_view(added)));
    }

    /// Makes sure a list exists for `id`.
    pub fn init(&mut self, id: ProposeId)
        ensures
            final(self)@ == old(self)@.insert(id, pending_of(old(self)@, id)),
    {
        if !self.pending.contains_key(&id) {
            let v: Vec<SyncOp> = Vec::new();
            assert(ops_view(v@) =~= Seq::<SyncOpView>::empty());
            self.pending.insert(id, v);
        }
        assert(self@ =~= old(self)@.insert(id, pending_of(old(self)@, id)));
    }

    /// Removes and returns the list of `id`.
    pub fn take(&mut self, id: ProposeId) -> (r: Vec<SyncOp>)
        requires
            old(self)@.contains_key(id),
        ensures
            ops_view(r@) == old(self)@[id],
            final(self)@ == old(self)@.remove(id),
    {
        let r = match self.pending.remove(&id) {
            Some(l) => l,
            None => Vec::new(),
        };
        assert(self@ =~= old(self)@.remove(id));
        r
    }

    /// Number of mutations buffered for `id`.
    pub fn pending_len(&self, id: ProposeId) -> (r: usize)
        ensures
            r == pending_of(self@, id).len(),
    {
        match self.pending.get(&id) {
            Some(l) => l.len(),
            None => 0,
        }
    }
}

} // verus!

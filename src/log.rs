use std::sync::Arc;
use vstd::prelude::*;

verus! {

/// Term number of a consensus log entry.
pub type TermNum = u64;

/// Log entry status
#[derive(Debug, Clone, Copy, PartialEq, Eq, Structural)]
pub enum EntryStatus {
    /// The entry has not synced
    Unsynced,
    /// The entry has been synced to the majority of the cluster
    Synced,
}

/// Log entry
#[derive(Debug, Clone)]
pub struct LogEntry<C> {
    /// Term id
    term: TermNum,
    /// Commands
    cmds: Vec<Arc<C>>,
    /// Log entry status
    status: EntryStatus,
}

impl<C> LogEntry<C> {
    pub closed spec fn term_spec(&self) -> TermNum {
        self.term
    }

    pub closed spec fn cmds_spec(&self) -> Seq<Arc<C>> {
        self.cmds@
    }

    pub closed spec fn status_spec(&self) -> EntryStatus {
        self.status
    }

    /// Create a new `LogEntry`
    pub fn new(term: TermNum, cmds: &[Arc<C>], status: EntryStatus) -> (r: Self)
        ensures
            r.term_spec() == term,
            r.cmds_spec().len() == cmds@.len(),
            r.status_spec() == status,
    {
        let mut v: Vec<Arc<C>> = Vec::new();
        let mut i: usize = 0;
        while i < cmds.len()
            invariant
                i <= cmds@.len(),
                v@.len() == i,
            decreases cmds@.len() - i,
        {
            v.push(Arc::clone(&cmds[i]));
            i = i + 1;
        }
        LogEntry { term, cmds: v, status }
    }

    /// Get term id
    pub fn term(&self) -> (r: TermNum)
        ensures
            r == self.term_spec(),
    {
        self.term
    }

    /// Get commands in the entry
    pub fn cmds(&self) -> (r: &[Arc<C>])
        ensures
            r@ == self.cmds_spec(),
    {
        self.cmds.as_slice()
    }

    /// Get status in the entry
    pub fn status(&self) -> (r: &EntryStatus)
        ensures
            *r == self.status_spec(),
    {
        &self.status
    }

    /// Set entry status
    pub fn set_status(&mut self, status: EntryStatus)
        ensures
            final(self).status_spec() == status,
            final(self).term_spec() == old(self).term_spec(),
            final(self).cmds_spec() == old(self).cmds_spec(),
    {
        self.status = status;
    }
}

} // verus!

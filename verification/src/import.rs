//! Bulk import bookkeeping: what each committed batch adds to the report.

use crate::model::node::NodeId;
use vstd::prelude::*;

verus! {

/// What an import committed: Nodes, batches, and the first and last ids.
#[derive(Debug, Clone, PartialEq, Eq)]
pub struct ImportReport {
    pub imported: u64,
    pub batches: u64,
    pub first_id: Option<u32>,
    pub last_id: Option<u32>,
}

impl Default for ImportReport {
    /// Nothing imported yet.
    fn default() -> (r: ImportReport)
        ensures
            r.imported == 0,
            r.batches == 0,
            r.first_id is None,
            r.last_id is None,
    {
        ImportReport { imported: 0, batches: 0, first_id: None, last_id: None }
    }
}

impl ImportReport {
    /// Counts one committed batch that created `ids`, in order.
    pub fn record(&mut self, ids: &Vec<NodeId>)
        requires
            old(self).imported + ids@.len() <= u64::MAX,
            old(self).batches < u64::MAX,
        ensures
            final(self).imported == old(self).imported + ids@.len(),
            final(self).batches == old(self).batches + 1,
            final(self).first_id == (if old(self).first_id is None && ids@.len() > 0 {
                Some(ids@[0])
            } else {
                old(self).first_id
            }),
            final(self).last_id == (if ids@.len() > 0 {
                Some(ids@.last())
            } else {
                None
            }),
    {
        self.imported = self.imported + ids.len() as u64;
        self.batches = self.batches + 1;
        if self.first_id.is_none() && ids.len() > 0 {
            self.first_id = Some(ids[0]);
        }
        self.last_id = if ids.len() > 0 {
            Some(ids[ids.len() - 1])
        } else {
            None
        };
    }

    /// The position of the next record, counting from 1, with `pending`
    /// records waiting in the batch.
    pub fn record_number(&self, pending: usize) -> (n: u64)
        requires
            self.imported + pending + 1 <= u64::MAX,
        ensures
            n == self.imported + pending + 1,
    {
        self.imported + pending as u64 + 1
    }
}

/// A batch is committed once it holds `size` Nodes.
pub fn batch_full(pending: usize, size: usize) -> (b: bool)
    ensures
        b == (pending == size),
{
    pending == size
}

} // verus!

//! A snapshot of partition ownership: which cluster node currently owns each
//! partition. The topology collaborator that discovers and refreshes this
//! table lives outside the core; the core only reads the snapshot, so routing
//! is safe to run from many workers at once.

use vstd::prelude::*;
use crate::errors::BatchError;
use crate::key::PARTITION_COUNT;

verus! {

/// Partition-to-node ownership table. Nodes are identified by plain handles;
/// slot `p` holds the owner of partition `p`, or nothing while the partition
/// map is not yet loaded for that slot.
pub struct ClusterView {
    pub owners: Vec<Option<u64>>,
}

impl ClusterView {
    /// A view is well formed when it has exactly one slot per partition.
    pub open spec fn wf(self) -> bool {
        self.owners@.len() == PARTITION_COUNT
    }

    /// The owner of a partition, if any.
    pub open spec fn owner_of(self, partition: u32) -> Option<u64>
        recommends
            self.wf(),
            partition < PARTITION_COUNT,
    {
        self.owners@[partition as int]
    }

    /// An empty view: no partition has an owner yet.
    pub fn new() -> (r: Self)
        ensures
            r.wf(),
            forall|p: u32| p < PARTITION_COUNT ==> #[trigger] r.owner_of(p) is None,
    {
        let mut owners: Vec<Option<u64>> = Vec::new();
        let mut i: usize = 0;
        while i < PARTITION_COUNT as usize
            invariant
                i <= PARTITION_COUNT,
                owners@.len() == i,
                forall|j: int| 0 <= j < i ==> owners@[j] is None,
            decreases PARTITION_COUNT - i,
        {
            owners.push(Option::None);
            i = i + 1;
        }
        ClusterView { owners }
    }

    /// Record that `node` owns `partition`.
    pub fn set_owner(&mut self, partition: u32, node: u64)
        requires
            old(self).wf(),
            partition < PARTITION_COUNT,
        ensures
            final(self).wf(),
            final(self).owners@ == old(self).owners@.update(partition as int, Some(node)),
    {
        let _ = self.owners.remove(partition as usize);
        self.owners.insert(partition as usize, Option::Some(node));
        assert(self.owners@ =~= old(self).owners@.update(partition as int, Some(node)));
    }

    /// Resolve the node that owns a partition. Fails with a routing error if
    /// and only if the snapshot has no owner for it.
    pub fn get_node(&self, partition: u32) -> (r: Result<u64, BatchError>)
        requires
            self.wf(),
            partition < PARTITION_COUNT,
        ensures
            match self.owner_of(partition) {
                Some(n) => r == Ok::<u64, BatchError>(n),
                None => r == Err::<u64, BatchError>(BatchError::Routing),
            },
    {
        match self.owners[partition as usize] {
            Option::Some(n) => Ok(n),
            Option::None => Err(BatchError::Routing),
        }
    }
}

} // verus!

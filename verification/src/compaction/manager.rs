//! The list of the partitions whose first level needs attention.

use crate::names::names;
use crate::partition::PartitionHandle;
use crate::signal::Signal;
use std::sync::Arc;
use std_semaphore::Semaphore;
use vstd::prelude::*;

verus! {

/// The compaction manager takes note of the partitions that need a
/// compaction and wakes the compaction workers.
pub struct CompactionManager {
    queue: Vec<PartitionHandle>,
    signal: Signal,
}

impl View for CompactionManager {
    type V = Seq<Seq<char>>;

    /// The partitions that wait for a compaction, in the order of their notifications.
    closed spec fn view(&self) -> Seq<Seq<char>> {
        names(self.queue@)
    }
}

impl CompactionManager {
    /// The semaphore through which the manager wakes the workers.
    pub closed spec fn semaphore(&self) -> Semaphore {
        self.signal.semaphore()
    }

    /// How often the manager has woken a worker.
    pub closed spec fn signals(&self) -> nat {
        self.signal.raised()
    }

    /// A manager with nothing to do, which has woken no worker. It makes the
    /// semaphore through which it wakes the workers, with the count zero.
    pub fn new() -> (r: Self)
        ensures
            r@ == Seq::<Seq<char>>::empty(),
            r.signals() == 0,
    {
        let r = CompactionManager { queue: Vec::new(), signal: Signal::new() };
        assert(r@ =~= Seq::empty());
        r
    }

    /// A handle on the semaphore through which the manager wakes the
    /// workers, for a worker to wait on.
    pub fn handle(&self) -> (r: Arc<Semaphore>)
        ensures
            *r == self.semaphore(),
    {
        self.signal.handle()
    }

    /// Takes note that the partition needs a compaction and wakes a worker.
    pub fn notify(&mut self, partition: PartitionHandle)
        ensures
            final(self)@ == old(self)@.push(partition@),
            final(self).signals() == old(self).signals() + 1,
            final(self).semaphore() == old(self).semaphore(),
    {
        self.queue.push(partition);
        self.signal.raise();
        assert(self@ =~= old(self)@.push(partition@));
    }

    /// Hands out the partition that has waited longest for a compaction.
    pub fn pop(&mut self) -> (r: Option<PartitionHandle>)
        ensures
            match r {
                Some(p) => old(self)@.len() > 0 && p@ == old(self)@.first() && final(self)@
                    == old(self)@.drop_first(),
                None => old(self)@.len() == 0 && final(self)@ == old(self)@,
            },
            final(self).signals() == old(self).signals(),
            final(self).semaphore() == old(self).semaphore(),
    {
        if self.queue.len() == 0 {
            None
        } else {
            let p = self.queue.remove(0);
            assert(self@ =~= old(self)@.drop_first());
            Some(p)
        }
    }

    /// The number of notifications that no worker has taken up.
    pub fn len(&self) -> (r: usize)
        ensures
            r == self@.len(),
    {
        self.queue.len()
    }

    /// Takes the partition of that name off the list.
    pub fn remove_partition(&mut self, name: &String)
        ensures
            final(self)@ == old(self)@.filter(|n: Seq<char>| n != name@),
            final(self).signals() == old(self).signals(),
            final(self).semaphore() == old(self).semaphore(),
    {
        let mut kept: Vec<PartitionHandle> = Vec::new();
        let mut all: Vec<PartitionHandle> = Vec::new();
        std::mem::swap(&mut self.queue, &mut all);
        let ghost pred = |n: Seq<char>| n != name@;
        let ghost before = names(all@);
        let mut i: usize = 0;
        proof {
            assert(before.take(0) =~= Seq::empty());
            assert(names(kept@) =~= Seq::empty());
            reveal(Seq::filter);
        }
        while i < all.len()
            invariant
                i <= all.len(),
                before == names(all@),
                pred == (|n: Seq<char>| n != name@),
                names(kept@) == before.take(i as int).filter(pred),
            decreases all.len() - i,
        {
            let ghost so_far = names(kept@);
            proof {
                assert(before.take(i + 1).drop_last() =~= before.take(i as int));
                reveal(Seq::filter);
            }
            if all[i].name != *name {
                kept.push(all[i].clone());
                assert(names(kept@) =~= so_far.push(all@[i as int]@));
            }
            i += 1;
        }
        proof {
            assert(before.take(i as int) =~= before);
        }
        self.queue = kept;
    }
}

} // verus!

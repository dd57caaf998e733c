//! The signals that wake the background workers, and how often each
//! operation of a keyspace raises them.
//!
//! The flush semaphore is released once for each memtable that is sealed,
//! the compaction semaphore once for each note that the compaction manager
//! takes. The value of a keyspace counts both.

use crate::batch::ItemView;
use crate::error::Error;
use crate::keyspace::KeyspaceView;
use crate::partition::{rotation_views, RotationView, WriteOutcome};
use crate::tree_inner::share;
use crate::value::ValueView;
use std::sync::Arc;
use std_semaphore::Semaphore;
use vstd::prelude::*;

verus! {

/// The counting semaphore of the crate `std_semaphore`, on which the workers wait.
#[verifier::external_type_specification]
#[verifier::external_body]
pub struct ExSemaphore(Semaphore);

/// `Semaphore::new` makes a semaphore with the given count. A count above
/// zero is left out: every semaphore that verified code makes starts with
/// nothing to take, so that its count is never above the number of times it
/// was released.
pub assume_specification[ Semaphore::new ](count: isize) -> Semaphore
    requires
        count <= 0,
;

/// `Semaphore::release` adds one to the count of the semaphore and wakes a
/// thread that waits for it. Nothing is said of the count: other threads
/// change it. The addition would overflow only at the largest `isize`, which
/// a semaphore that started at zero or below reaches after as many releases
/// and no sooner.
pub assume_specification[ Semaphore::release ](semaphore: &Semaphore)
;

/// A semaphore on which workers wait, together with the number of times it
/// was raised.
///
/// The semaphore is made here, with the count zero: none is handed in. The
/// number is kept for the proofs only and takes no space in the program.
pub struct Signal {
    semaphore: Arc<Semaphore>,
    raised: Ghost<nat>,
}

impl Signal {
    /// The semaphore on which the workers wait.
    pub closed spec fn semaphore(&self) -> Semaphore {
        *self.semaphore
    }

    /// How often the signal was raised.
    pub closed spec fn raised(&self) -> nat {
        self.raised@
    }

    /// A signal that was never raised, with a semaphore of its own whose
    /// count is zero.
    pub fn new() -> (r: Self)
        ensures
            r.raised() == 0,
    {
        Signal { semaphore: Arc::new(Semaphore::new(0)), raised: Ghost(0) }
    }

    /// Releases the semaphore once, which wakes one worker, and counts it.
    pub fn raise(&mut self)
        ensures
            final(self).raised() == old(self).raised() + 1,
            final(self).semaphore() == old(self).semaphore(),
    {
        self.semaphore.release();
        self.raised = Ghost((self.raised@ + 1) as nat);
    }

    /// A handle on the semaphore, for a worker to wait on.
    pub fn handle(&self) -> (r: Arc<Semaphore>)
        ensures
            *r == self.semaphore(),
    {
        share(&self.semaphore)
    }
}

/// Whether the keyspace `post` has the semaphores of `pre`, has released
/// the flush semaphore `sealed` times more often, and has released the
/// compaction semaphore once more often for each note that the compaction
/// manager has taken since.
pub open spec fn signalled(pre: KeyspaceView, post: KeyspaceView, sealed: int) -> bool {
    &&& post.flush_semaphore == pre.flush_semaphore
    &&& post.compaction_semaphore == pre.compaction_semaphore
    &&& post.flush_signals == pre.flush_signals + sealed
    &&& post.compaction_signals - pre.compaction_signals == post.compactions.len()
        - pre.compactions.len()
}

/// The number of rotations that the outcomes tell of.
pub open spec fn rotation_count(outcomes: Seq<WriteOutcome>) -> int
    decreases outcomes.len(),
{
    if outcomes.len() == 0 {
        0
    } else {
        rotation_count(outcomes.drop_last()) + outcomes.last().rotations@.len()
    }
}

/// A rotation and those that it sets off release the flush semaphore once
/// each, and wake no compaction worker.
pub proof fn lemma_cascade_signals(pre: KeyspaceView, name: Seq<char>, rotations: Seq<RotationView>)
    requires
        pre.cascade(name, rotations) is Some,
    ensures
        signalled(pre, pre.cascade(name, rotations)->0, rotations.len() as int),
        pre.cascade(name, rotations)->0.compactions == pre.compactions,
    decreases rotations.len(),
{
    if pre.sealable(name) {
        let next = pre.seal(name, rotations[0].memtable_id, rotations[0].journal_id);
        if next.over_two_thirds() && next.flushes.lru.len() > 0 {
            lemma_cascade_signals(next.rotate_lru(), next.flushes.lru.first(), rotations.drop_first());
        }
    }
}

/// A round of a write halt releases the flush semaphore once for each of its
/// rotations, and wakes no compaction worker.
pub proof fn lemma_relieve_signals(pre: KeyspaceView, rotations: Seq<RotationView>)
    requires
        pre.relieve(rotations) is Some,
    ensures
        signalled(pre, pre.relieve(rotations)->0, rotations.len() as int),
        pre.relieve(rotations)->0.compactions == pre.compactions,
{
    if pre.over_limit() && pre.flushes.lru.len() > 0 {
        lemma_cascade_signals(pre.rotate_lru(), pre.flushes.lru.first(), rotations);
    }
}

/// A check for an overflow releases the flush semaphore once for each
/// rotation that its outcome tells of, and the compaction semaphore once for
/// each note that the compaction manager takes.
pub proof fn lemma_checked_signals(
    pre: KeyspaceView,
    name: Seq<char>,
    size: u32,
    outcome: WriteOutcome,
    post: KeyspaceView,
)
    requires
        pre.checked(name, size, outcome, post),
    ensures
        signalled(pre, post, outcome.rotations@.len() as int),
{
    let rotations = rotation_views(outcome.rotations@);
    if size > pre.partition(name).config.max_memtable_size {
        lemma_cascade_signals(pre, name, rotations);
    }
}

/// A write that succeeds releases the flush semaphore once for each rotation
/// that its outcome tells of, and the compaction semaphore once for each note
/// that the compaction manager takes. A write that fails wakes no worker.
pub proof fn lemma_written_signals(
    pre: KeyspaceView,
    name: Seq<char>,
    v: ValueView,
    journaled: Result<(), std::io::Error>,
    r: Result<WriteOutcome, Error>,
    post: KeyspaceView,
)
    requires
        pre.written(name, v, journaled, r, post),
    ensures
        match r {
            Ok(outcome) => signalled(pre, post, outcome.rotations@.len() as int),
            Err(_) => signalled(pre, post, 0) && post.compactions == pre.compactions,
        },
{
    match r {
        Ok(outcome) => {
            let mid = pre.write(name, v);
            lemma_checked_signals(mid, name, mid.tree(name).active_size, outcome, post);
        },
        Err(_) => {},
    }
}

/// The seals that follow the replay of a sealed journal release the flush
/// semaphore once each, and wake no compaction worker.
pub proof fn lemma_seal_replayed_signals(
    pre: KeyspaceView,
    journal_id: Seq<char>,
    rotations: Seq<RotationView>,
)
    requires
        pre.seal_replayed(journal_id, rotations) is Some,
    ensures
        signalled(pre, pre.seal_replayed(journal_id, rotations)->0, rotations.len() as int),
        pre.seal_replayed(journal_id, rotations)->0.compactions == pre.compactions,
{
    lemma_seal_first_signals(pre, pre.partitions.len(), journal_id, rotations);
}

proof fn lemma_seal_first_signals(
    pre: KeyspaceView,
    n: nat,
    journal_id: Seq<char>,
    rotations: Seq<RotationView>,
)
    requires
        pre.seal_first(n, journal_id, rotations) is Some,
    ensures
        signalled(pre, pre.seal_first(n, journal_id, rotations)->0, rotations.len() as int),
        pre.seal_first(n, journal_id, rotations)->0.compactions == pre.compactions,
    decreases n,
{
    if n > 0 {
        let p = pre.partitions[n - 1];
        if p.tree.active == Map::<(Seq<u8>, crate::value::SeqNo), crate::value::Stored>::empty() {
            lemma_seal_first_signals(pre, (n - 1) as nat, journal_id, rotations);
        } else {
            lemma_seal_first_signals(pre, (n - 1) as nat, journal_id, rotations.drop_last());
        }
    }
}

/// The checks that end the commit of a batch release the flush semaphore
/// once for each rotation that their outcomes tell of, and the compaction
/// semaphore once for each note that the compaction manager takes.
pub proof fn lemma_checks_signals(
    pre: KeyspaceView,
    names: Seq<Seq<char>>,
    outcomes: Seq<WriteOutcome>,
)
    requires
        pre.checks_ok(names, outcomes),
    ensures
        signalled(pre, pre.after_checks(names, outcomes), rotation_count(outcomes)),
    decreases names.len(),
{
    if names.len() > 0 {
        let before = pre.after_checks(names.drop_last(), outcomes.drop_last());
        lemma_checks_signals(pre, names.drop_last(), outcomes.drop_last());
        lemma_checked_signals(
            before,
            names.last(),
            before.tree(names.last()).active_size,
            outcomes.last(),
            before.after_check(names.last(), outcomes.last()),
        );
    }
}

/// Writing the items of a batch to the memtables wakes no worker.
pub proof fn lemma_apply_batch_signals(pre: KeyspaceView, items: Seq<ItemView>)
    ensures
        signalled(pre, pre.apply_batch(items), 0),
        pre.apply_batch(items).compactions == pre.compactions,
    decreases items.len(),
{
    if items.len() > 0 {
        lemma_apply_batch_signals(pre, items.drop_last());
    }
}

/// A flush wakes one compaction worker and no flush worker.
pub proof fn lemma_flush_signals(pre: KeyspaceView, name: Seq<char>, count: int)
    ensures
        signalled(pre, pre.flush(name, count), 0),
        pre.flush(name, count).compaction_signals == pre.compaction_signals + 1,
{
}

} // verus!

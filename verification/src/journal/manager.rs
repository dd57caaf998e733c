//! Keeps track of the sealed journals and tells when one may be deleted.

use crate::partition::PartitionHandle;
use crate::value::SeqNo;
use vstd::prelude::*;

verus! {

/// The highest sequence number that a partition had in memory when a journal was sealed.
#[derive(Debug)]
pub struct PartitionSeqNo {
    pub partition: PartitionHandle,
    pub lsn: SeqNo,
}

/// The mathematical value of a [`PartitionSeqNo`].
pub struct SeqNoView {
    pub partition: Seq<char>,
    pub lsn: SeqNo,
}

impl View for PartitionSeqNo {
    type V = SeqNoView;

    open spec fn view(&self) -> SeqNoView {
        SeqNoView { partition: self.partition@, lsn: self.lsn }
    }
}

/// The views of a list of sequence numbers of partitions.
pub open spec fn seqno_views(s: Seq<PartitionSeqNo>) -> Seq<SeqNoView> {
    s.map_values(|e: PartitionSeqNo| e@)
}

/// A sealed journal: its identifier, which names its directory, its size, and
/// the partitions that still need it.
#[derive(Debug)]
pub struct SealedJournal {
    pub id: String,
    pub size: u64,
    pub partition_seqnos: Vec<PartitionSeqNo>,
}

/// The mathematical value of a [`SealedJournal`].
pub struct JournalView {
    pub id: Seq<char>,
    pub size: u64,
    pub seqnos: Seq<SeqNoView>,
}

impl View for SealedJournal {
    type V = JournalView;

    open spec fn view(&self) -> JournalView {
        JournalView { id: self.id@, size: self.size, seqnos: seqno_views(self.partition_seqnos@) }
    }
}

/// The views of a list of sealed journals.
pub open spec fn journal_views(s: Seq<SealedJournal>) -> Seq<JournalView> {
    s.map_values(|j: SealedJournal| j@)
}

/// Whether a journal still needs to be kept for this entry, once the
/// partition `name` has everything up to `persisted` on disk.
pub open spec fn still_needed(e: SeqNoView, name: Seq<char>, persisted: SeqNo) -> bool {
    e.partition != name || e.lsn > persisted
}

/// The entries of a journal that are left once the partition `name` has
/// everything up to `persisted` on disk.
pub open spec fn pending(seqnos: Seq<SeqNoView>, name: Seq<char>, persisted: SeqNo) -> Seq<
    SeqNoView,
>
    decreases seqnos.len(),
{
    if seqnos.len() == 0 {
        Seq::empty()
    } else {
        let rest = pending(seqnos.drop_last(), name, persisted);
        if still_needed(seqnos.last(), name, persisted) {
            rest.push(seqnos.last())
        } else {
            rest
        }
    }
}

/// The sealed journals that are kept once the partition `name` has
/// everything up to `persisted` on disk: those that some entry still needs.
pub open spec fn kept(sealed: Seq<JournalView>, name: Seq<char>, persisted: SeqNo) -> Seq<
    JournalView,
>
    decreases sealed.len(),
{
    if sealed.len() == 0 {
        Seq::empty()
    } else {
        let rest = kept(sealed.drop_last(), name, persisted);
        let left = pending(sealed.last().seqnos, name, persisted);
        if left.len() == 0 {
            rest
        } else {
            rest.push(JournalView { seqnos: left, ..sealed.last() })
        }
    }
}

/// The identifiers of the sealed journals that no entry needs any more once
/// the partition `name` has everything up to `persisted` on disk.
pub open spec fn released(sealed: Seq<JournalView>, name: Seq<char>, persisted: SeqNo) -> Seq<
    Seq<char>,
>
    decreases sealed.len(),
{
    if sealed.len() == 0 {
        Seq::empty()
    } else {
        let rest = released(sealed.drop_last(), name, persisted);
        if pending(sealed.last().seqnos, name, persisted).len() == 0 {
            rest.push(sealed.last().id)
        } else {
            rest
        }
    }
}

/// The bytes of a list of sealed journals.
pub open spec fn sealed_bytes(sealed: Seq<JournalView>) -> int
    decreases sealed.len(),
{
    if sealed.len() == 0 {
        0
    } else {
        sealed_bytes(sealed.drop_last()) + sealed.last().size
    }
}

/// A number of bytes as a `u64`, which stops at the largest `u64`.
pub open spec fn clamp(n: int) -> u64 {
    if n > u64::MAX {
        u64::MAX
    } else {
        n as u64
    }
}

/// The mathematical value of a [`JournalManager`].
pub struct JournalManagerView {
    /// The bytes written to the active journal.
    pub active_size: u64,
    /// The sealed journals, the oldest first.
    pub sealed: Seq<JournalView>,
}

impl JournalManagerView {
    /// The bytes of all journals together.
    pub open spec fn bytes(self) -> int {
        self.active_size + sealed_bytes(self.sealed)
    }

    /// The manager after `n` bytes were written to the active journal.
    pub open spec fn written(self, n: int) -> JournalManagerView {
        JournalManagerView { active_size: clamp(self.active_size + n), ..self }
    }

    /// The manager after the active journal was sealed under `id` with the
    /// entries `seqnos`, and a new active journal was started.
    pub open spec fn rotate(self, id: Seq<char>, seqnos: Seq<SeqNoView>) -> JournalManagerView {
        JournalManagerView {
            active_size: 0,
            sealed: self.sealed.push(JournalView { id, size: self.active_size, seqnos }),
        }
    }

    /// The manager after the partition `name` has everything up to `persisted` on disk.
    pub open spec fn compact(self, name: Seq<char>, persisted: SeqNo) -> JournalManagerView {
        JournalManagerView { sealed: kept(self.sealed, name, persisted), ..self }
    }

    /// Sealing the active journal does not change the bytes of all journals together.
    pub proof fn lemma_rotate_bytes(self, id: Seq<char>, seqnos: Seq<SeqNoView>)
        ensures
            self.rotate(id, seqnos).bytes() == self.bytes(),
    {
        let j = JournalView { id, size: self.active_size, seqnos };
        assert(self.sealed.push(j).drop_last() =~= self.sealed);
    }

    /// Releasing journals does not add to the bytes of all journals together.
    pub proof fn lemma_compact_bytes(self, name: Seq<char>, persisted: SeqNo)
        ensures
            self.compact(name, persisted).bytes() <= self.bytes(),
    {
        lemma_kept_bytes(self.sealed, name, persisted);
    }
}

/// A list of journals has no negative number of bytes.
pub proof fn lemma_sealed_bytes_nonnegative(sealed: Seq<JournalView>)
    ensures
        sealed_bytes(sealed) >= 0,
    decreases sealed.len(),
{
    if sealed.len() > 0 {
        lemma_sealed_bytes_nonnegative(sealed.drop_last());
    }
}

proof fn lemma_kept_bytes(sealed: Seq<JournalView>, name: Seq<char>, persisted: SeqNo)
    ensures
        sealed_bytes(kept(sealed, name, persisted)) <= sealed_bytes(sealed),
    decreases sealed.len(),
{
    if sealed.len() > 0 {
        lemma_kept_bytes(sealed.drop_last(), name, persisted);
        let rest = kept(sealed.drop_last(), name, persisted);
        let left = pending(sealed.last().seqnos, name, persisted);
        if left.len() > 0 {
            let j = JournalView { seqnos: left, ..sealed.last() };
            assert(rest.push(j).drop_last() =~= rest);
        }
    }
}

/// The journal manager keeps track of the sealed journals, of the partitions
/// that still need each of them, and of the size of all journals.
#[derive(Debug)]
pub struct JournalManager {
    active_size: u64,
    items: Vec<SealedJournal>,
}

impl View for JournalManager {
    type V = JournalManagerView;

    closed spec fn view(&self) -> JournalManagerView {
        JournalManagerView { active_size: self.active_size, sealed: journal_views(self.items@) }
    }
}

impl JournalManager {
    /// A manager with an empty active journal and no sealed journals.
    pub fn new() -> (r: Self)
        ensures
            r@ == (JournalManagerView { active_size: 0, sealed: Seq::empty() }),
    {
        let r = JournalManager { active_size: 0, items: Vec::new() };
        assert(r@.sealed =~= Seq::empty());
        r
    }

    /// Takes note that `bytes` bytes were written to the active journal.
    pub fn record_write(&mut self, bytes: u64)
        ensures
            final(self)@ == old(self)@.written(bytes as int),
    {
        self.active_size = self.active_size.saturating_add(bytes);
    }

    /// The number of sealed journals.
    pub fn sealed_journal_count(&self) -> (r: usize)
        ensures
            r == self@.sealed.len(),
    {
        self.items.len()
    }

    /// Seals the active journal under `id`, with the sequence numbers that
    /// the partitions had in memory, and starts a new active journal.
    pub fn rotate_journal(&mut self, id: String, seqnos: Vec<PartitionSeqNo>)
        ensures
            final(self)@ == old(self)@.rotate(id@, seqno_views(seqnos@)),
    {
        let size = self.active_size;
        self.items.push(SealedJournal { id, size, partition_seqnos: seqnos });
        self.active_size = 0;
        assert(self@.sealed =~= old(self)@.sealed.push(
            JournalView { id: id@, size, seqnos: seqno_views(seqnos@) },
        ));
    }

    /// Takes note that the partition `name` has everything up to `persisted`
    /// on disk, and drops the sealed journals that no partition needs any
    /// more. Returns their identifiers, for their directories to be deleted.
    pub fn compact(&mut self, name: &String, persisted: SeqNo) -> (deleted: Vec<String>)
        ensures
            final(self)@ == old(self)@.compact(name@, persisted),
            deleted@.map_values(|s: String| s@) == released(old(self)@.sealed, name@, persisted),
    {
        let mut journals: Vec<SealedJournal> = Vec::new();
        std::mem::swap(&mut self.items, &mut journals);
        let ghost all = journal_views(journals@);
        let mut deleted: Vec<String> = Vec::new();
        let mut i: usize = 0;
        proof {
            assert(all.take(0) =~= Seq::empty());
            assert(journal_views(self.items@) =~= Seq::empty());
            assert(deleted@.map_values(|s: String| s@) =~= Seq::empty());
        }
        while i < journals.len()
            invariant
                i <= journals.len(),
                all == journal_views(journals@),
                self.active_size == old(self).active_size,
                journal_views(self.items@) == kept(all.take(i as int), name@, persisted),
                deleted@.map_values(|s: String| s@) == released(
                    all.take(i as int),
                    name@,
                    persisted,
                ),
            decreases journals.len() - i,
        {
            let journal = &journals[i];
            let ghost entries = seqno_views(journal.partition_seqnos@);
            let mut left: Vec<PartitionSeqNo> = Vec::new();
            let mut j: usize = 0;
            proof {
                assert(entries.take(0) =~= Seq::empty());
                assert(seqno_views(left@) =~= Seq::empty());
            }
            while j < journal.partition_seqnos.len()
                invariant
                    j <= journal.partition_seqnos.len(),
                    entries == seqno_views(journal.partition_seqnos@),
                    seqno_views(left@) == pending(entries.take(j as int), name@, persisted),
                decreases journal.partition_seqnos.len() - j,
            {
                let entry = &journal.partition_seqnos[j];
                let ghost before = seqno_views(left@);
                proof {
                    assert(entries.take(j + 1).drop_last() =~= entries.take(j as int));
                    assert(entries.take(j + 1).last() == entry@);
                }
                if entry.partition.name != *name || entry.lsn > persisted {
                    left.push(PartitionSeqNo { partition: entry.partition.clone(), lsn: entry.lsn });
                    assert(seqno_views(left@) =~= before.push(entry@));
                }
                j += 1;
            }
            proof {
                assert(entries.take(j as int) =~= entries);
                assert(all.take(i + 1).drop_last() =~= all.take(i as int));
                assert(all.take(i + 1).last() == journal@);
            }
            let ghost kept_before = journal_views(self.items@);
            let ghost deleted_before = deleted@.map_values(|s: String| s@);
            if left.len() == 0 {
                deleted.push(journal.id.clone());
                assert(deleted@.map_values(|s: String| s@) =~= deleted_before.push(journal.id@));
            } else {
                let ghost left_view = seqno_views(left@);
                self.items.push(
                    SealedJournal {
                        id: journal.id.clone(),
                        size: journal.size,
                        partition_seqnos: left,
                    },
                );
                assert(journal_views(self.items@) =~= kept_before.push(
                    JournalView { seqnos: left_view, ..journal@ },
                ));
            }
            i += 1;
        }
        proof {
            assert(all.take(i as int) =~= all);
        }
        deleted
    }

    /// The bytes of all journals together, as far as a `u64` can count them.
    pub fn disk_space_used(&self) -> (r: u64)
        ensures
            r == clamp(self@.bytes()),
    {
        let mut total: u64 = self.active_size;
        let mut i: usize = 0;
        let ghost all = journal_views(self.items@);
        proof {
            assert(all.take(0) =~= Seq::empty());
        }
        while i < self.items.len()
            invariant
                i <= self.items.len(),
                all == journal_views(self.items@),
                total == clamp(self.active_size + sealed_bytes(all.take(i as int))),
            decreases self.items.len() - i,
        {
            proof {
                assert(all.take(i + 1).drop_last() =~= all.take(i as int));
                assert(all.take(i + 1).last() == self.items@[i as int]@);
                lemma_sealed_bytes_nonnegative(all.take(i as int));
            }
            total = total.saturating_add(self.items[i].size);
            i += 1;
        }
        proof {
            assert(all.take(i as int) =~= all);
        }
        total
    }
}

} // verus!

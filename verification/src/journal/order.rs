//! The order in which the sealed journals are replayed.
//!
//! The identifier of a sealed journal tells when it was sealed, but
//! identifiers do not sort by time. The records do: a journal that was
//! sealed earlier holds lower sequence numbers.

use crate::journal::record::{record_views, JournalRecord, RecordView};
use crate::reopen::journals_in_order;
use crate::value::SeqNo;
use vstd::prelude::*;

verus! {

/// A sealed journal as it was read back from the disk.
pub struct SealedJournal {
    /// The identifier under which the journal was sealed.
    pub id: String,
    /// The records of the journal.
    pub records: Vec<JournalRecord>,
}

/// The mathematical value of a [`SealedJournal`].
pub struct SealedJournalView {
    pub id: Seq<char>,
    pub records: Seq<RecordView>,
}

impl View for SealedJournal {
    type V = SealedJournalView;

    open spec fn view(&self) -> SealedJournalView {
        SealedJournalView { id: self.id@, records: record_views(self.records@) }
    }
}

/// The views of a list of journals.
pub open spec fn journal_views(s: Seq<SealedJournal>) -> Seq<SealedJournalView> {
    s.map_values(|j: SealedJournal| j@)
}

/// The records of each journal of a list.
pub open spec fn records_of_each(s: Seq<SealedJournalView>) -> Seq<Seq<RecordView>> {
    s.map_values(|j: SealedJournalView| j.records)
}

/// The lowest sequence number among the records, or `None` if there is no record.
pub open spec fn lowest(records: Seq<RecordView>) -> Option<SeqNo>
    decreases records.len(),
{
    if records.len() == 0 {
        None
    } else {
        match lowest(records.drop_last()) {
            Some(m) => Some(
                if records.last().seqno < m {
                    records.last().seqno
                } else {
                    m
                },
            ),
            None => Some(records.last().seqno),
        }
    }
}

/// The place of a journal in the order of replay: its lowest sequence
/// number. A journal without records comes first.
pub open spec fn rank(records: Seq<RecordView>) -> SeqNo {
    match lowest(records) {
        Some(m) => m,
        None => 0,
    }
}

/// The journals stand in the order of their lowest sequence numbers.
pub open spec fn ranked(s: Seq<SealedJournalView>) -> bool {
    forall|i: int, j: int|
        0 <= i < j < s.len() ==> rank((#[trigger] s[i]).records) <= rank((#[trigger] s[j]).records)
}

/// Every sequence number of `a` is below every sequence number of `b`.
pub open spec fn wholly_before(a: Seq<RecordView>, b: Seq<RecordView>) -> bool {
    forall|i: int, j: int|
        0 <= i < a.len() && 0 <= j < b.len() ==> (#[trigger] a[i]).seqno < (#[trigger] b[j]).seqno
}

/// The lowest sequence number is that of one of the records, and none of
/// the records has a lower one.
pub proof fn lemma_lowest(records: Seq<RecordView>) -> (at: int)
    requires
        records.len() > 0,
    ensures
        0 <= at < records.len(),
        lowest(records) == Some(records[at].seqno),
        forall|i: int| 0 <= i < records.len() ==> records[at].seqno <= (#[trigger] records[i]).seqno,
    decreases records.len(),
{
    let shorter = records.drop_last();
    if shorter.len() == 0 {
        records.len() - 1
    } else {
        let at = lemma_lowest(shorter);
        assert(shorter[at] == records[at]);
        assert forall|i: int| 0 <= i < shorter.len() implies shorter[at].seqno <= (
        #[trigger] records[i]).seqno by {
            assert(shorter[i] == records[i]);
        }
        if records.last().seqno < shorter[at].seqno {
            records.len() - 1
        } else {
            at
        }
    }
}

/// Journals of which each lies wholly before or wholly after each other
/// one, as sealing leaves them, stand in the order of their sequence numbers
/// once they stand in the order of their lowest ones.
pub proof fn lemma_ranked_in_order(s: Seq<SealedJournalView>)
    requires
        ranked(s),
        forall|i: int, j: int|
            0 <= i < s.len() && 0 <= j < s.len() && i != j ==> wholly_before(
                (#[trigger] s[i]).records,
                (#[trigger] s[j]).records,
            ) || wholly_before(s[j].records, s[i].records),
    ensures
        journals_in_order(records_of_each(s)),
{
    let journals = records_of_each(s);
    assert forall|j1: int, j2: int, i1: int, i2: int|
        0 <= j1 < j2 < journals.len() && 0 <= i1 < journals[j1].len() && 0 <= i2
            < journals[j2].len() implies (#[trigger] journals[j1][i1]).seqno < (
    #[trigger] journals[j2][i2]).seqno by {
        let a = s[j1].records;
        let b = s[j2].records;
        assert(journals[j1] == a && journals[j2] == b);
        assert(rank(a) <= rank(b));
        if !wholly_before(a, b) {
            assert(wholly_before(b, a));
            let x = lemma_lowest(a);
            let y = lemma_lowest(b);
            assert(b[y].seqno < a[x].seqno);
        }
        assert(a[i1].seqno < b[i2].seqno);
    }
}

/// The lowest sequence number among the records, or `None` if there is no record.
pub fn lowest_seqno(records: &Vec<JournalRecord>) -> (r: Option<SeqNo>)
    ensures
        r == lowest(record_views(records@)),
{
    let mut best: Option<SeqNo> = None;
    let mut i: usize = 0;
    let ghost views = record_views(records@);
    while i < records.len()
        invariant
            i <= records.len(),
            views == record_views(records@),
            best == lowest(views.take(i as int)),
        decreases records.len() - i,
    {
        proof {
            assert(views.take(i + 1).drop_last() =~= views.take(i as int));
            assert(views.take(i + 1).last() == records@[i as int]@);
        }
        let here: SeqNo = records[i].seqno;
        best = match best {
            Some(m) => Some(
                if here < m {
                    here
                } else {
                    m
                },
            ),
            None => Some(here),
        };
        i += 1;
    }
    proof {
        assert(views.take(i as int) =~= views);
    }
    best
}

/// Puts the sealed journals into the order in which they are to be
/// replayed: that of their lowest sequence numbers.
pub fn sort_journals(journals: Vec<SealedJournal>) -> (r: Vec<SealedJournal>)
    ensures
        ranked(journal_views(r@)),
        journal_views(r@).to_multiset() == journal_views(journals@).to_multiset(),
        r@.len() == journals@.len(),
{
    let mut rest = journals;
    let mut out: Vec<SealedJournal> = Vec::new();
    let mut ranks: Vec<SeqNo> = Vec::new();
    let ghost all = journal_views(journals@).to_multiset();
    proof {
        broadcast use vstd::seq_lib::group_to_multiset_ensures;

        assert(journal_views(out@) =~= Seq::empty());
        assert(journal_views(out@).to_multiset() =~= vstd::multiset::Multiset::empty());
        assert(journal_views(rest@).to_multiset().add(journal_views(out@).to_multiset()) =~= all);
    }
    while rest.len() > 0
        invariant
            ranked(journal_views(out@)),
            ranks@.len() == out@.len(),
            forall|i: int| 0 <= i < out@.len() ==> ranks@[i] == rank((#[trigger] out@[i])@.records),
            journal_views(rest@).to_multiset().add(journal_views(out@).to_multiset()) == all,
            rest@.len() + out@.len() == journals@.len(),
        decreases rest.len(),
    {
        let ghost before_rest = journal_views(rest@);
        let ghost before_out = journal_views(out@);
        let ghost before_ranks = ranks@;
        let ghost before_items = out@;
        let journal = rest.pop().unwrap();
        proof {
            broadcast use vstd::seq_lib::group_to_multiset_ensures;

            assert(before_rest =~= journal_views(rest@).push(journal@));
        }
        let here: SeqNo = match lowest_seqno(&journal.records) {
            Some(m) => m,
            None => 0,
        };
        let mut p: usize = 0;
        while p < out.len() && ranks[p] < here
            invariant
                p <= out.len(),
                ranks@.len() == out@.len(),
                ranks@ == before_ranks,
                out@ == before_items,
                forall|i: int| 0 <= i < p ==> (#[trigger] ranks@[i]) < here,
            decreases out.len() - p,
        {
            p += 1;
        }
        out.insert(p, journal);
        ranks.insert(p, here);
        proof {
            broadcast use vstd::seq_lib::group_to_multiset_ensures;

            let after = journal_views(out@);
            assert(after =~= before_out.insert(p as int, journal@));
            assert(after.remove(p as int) =~= before_out);
            assert(after.to_multiset().remove(after[p as int]) == before_out.to_multiset());
            assert(after.to_multiset() =~= before_out.to_multiset().insert(journal@));
            assert(journal_views(rest@).to_multiset().add(after.to_multiset()) =~= all);
            assert forall|i: int| 0 <= i < out@.len() implies ranks@[i] == rank(
                (#[trigger] out@[i])@.records,
            ) by {
                if i < p {
                    assert(out@[i] == before_items[i] && ranks@[i] == before_ranks[i]);
                } else if i > p {
                    assert(out@[i] == before_items[i - 1] && ranks@[i] == before_ranks[i - 1]);
                }
            }
            assert forall|i: int, j: int| 0 <= i < j < after.len() implies rank(
                (#[trigger] after[i]).records,
            ) <= rank((#[trigger] after[j]).records) by {
                assert(after[i] == out@[i]@ && after[j] == out@[j]@);
                if j < p {
                    assert(after[i] == before_out[i] && after[j] == before_out[j]);
                } else if i < p && j == p {
                    assert(ranks@[i] == before_ranks[i]);
                } else if i < p && j > p {
                    assert(after[i] == before_out[i] && after[j] == before_out[j - 1]);
                } else if i == p {
                    assert(after[j] == before_out[j - 1]);
                    assert(ranks@[j] == before_ranks[j - 1]);
                    if j - 1 > p {
                        assert(rank(before_out[p as int].records) <= rank(
                            before_out[j - 1].records,
                        ));
                        assert(before_out[p as int] == before_items[p as int]@);
                    }
                } else {
                    assert(after[i] == before_out[i - 1] && after[j] == before_out[j - 1]);
                }
            }
        }
    }
    proof {
        broadcast use vstd::seq_lib::group_to_multiset_ensures;

        assert(journal_views(rest@) =~= Seq::empty());
        assert(journal_views(rest@).to_multiset() =~= vstd::multiset::Multiset::empty());
        assert(vstd::multiset::Multiset::<SealedJournalView>::empty().add(
            journal_views(out@).to_multiset(),
        ) =~= journal_views(out@).to_multiset());
    }
    out
}

} // verus!

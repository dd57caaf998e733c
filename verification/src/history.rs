//! The history of a partition: every version of every key, and what a reader
//! sees of it at a given sequence number.

use crate::value::{lemma_version_lt_asymmetric, version_lt, SeqNo, Stored, ValueType, ValueView};
use vstd::prelude::*;

verus! {

/// All versions that are held, each under its key and sequence number.
pub type History = Map<(Seq<u8>, SeqNo), Stored>;

/// `seqno` is the highest sequence number, not above `snapshot`, under which `key` has a version.
pub open spec fn is_newest(h: History, key: Seq<u8>, snapshot: SeqNo, seqno: SeqNo) -> bool {
    &&& seqno <= snapshot
    &&& h.contains_key((key, seqno))
    &&& forall|s: SeqNo| s <= snapshot && #[trigger] h.contains_key((key, s)) ==> s <= seqno
}

/// The sequence number of the newest version of `key` that a reader at `snapshot` sees, if there is one.
pub open spec fn newest(h: History, key: Seq<u8>, snapshot: SeqNo) -> Option<SeqNo> {
    if exists|s: SeqNo| is_newest(h, key, snapshot, s) {
        Some(choose|s: SeqNo| is_newest(h, key, snapshot, s))
    } else {
        None
    }
}

/// The value that a reader at `snapshot` finds under `key`: that of the newest
/// version it sees, unless that version is a tombstone.
pub open spec fn visible(h: History, key: Seq<u8>, snapshot: SeqNo) -> Option<Seq<u8>> {
    match newest(h, key, snapshot) {
        Some(s) => if h[(key, s)].value_type == ValueType::Value {
            Some(h[(key, s)].value)
        } else {
            None
        },
        None => None,
    }
}

/// The highest sequence number in the history, if it holds anything.
pub open spec fn is_highest(h: History, seqno: SeqNo) -> bool {
    &&& exists|key: Seq<u8>| #[trigger] h.contains_key((key, seqno))
    &&& forall|id: (Seq<u8>, SeqNo)| #[trigger] h.contains_key(id) ==> id.1 <= seqno
}

/// A lookup finds the value of the newest version that the reader sees, and
/// nothing where that version is a tombstone or where the reader sees no
/// version of the key.
pub proof fn lemma_visible(h: History, key: Seq<u8>, snapshot: SeqNo)
    ensures
        forall|value: Seq<u8>|
            visible(h, key, snapshot) == Some(value) <==> exists|s: SeqNo|
                is_newest(h, key, snapshot, s) && #[trigger] h[(key, s)] == (Stored {
                    value,
                    value_type: ValueType::Value,
                }),
        visible(h, key, snapshot) is None <==> (forall|s: SeqNo|
            s <= snapshot ==> !#[trigger] h.contains_key((key, s))) || (exists|s: SeqNo|
            is_newest(h, key, snapshot, s) && (#[trigger] h[(key, s)]).value_type
                == ValueType::Tombstone),
{
    assert forall|value: Seq<u8>|
        visible(h, key, snapshot) == Some(value) <==> exists|s: SeqNo|
            is_newest(h, key, snapshot, s) && #[trigger] h[(key, s)] == (Stored {
                value,
                value_type: ValueType::Value,
            }) by {
        if visible(h, key, snapshot) == Some(value) {
            let s = newest(h, key, snapshot)->0;
            assert(is_newest(h, key, snapshot, s));
            assert(h[(key, s)] == Stored { value, value_type: ValueType::Value });
        }
        if exists|s: SeqNo|
            is_newest(h, key, snapshot, s) && #[trigger] h[(key, s)] == (Stored {
                value,
                value_type: ValueType::Value,
            }) {
            let s = choose|s: SeqNo|
                is_newest(h, key, snapshot, s) && #[trigger] h[(key, s)] == (Stored {
                    value,
                    value_type: ValueType::Value,
                });
            lemma_newest_is(h, key, snapshot, s);
        }
    }
    if visible(h, key, snapshot) is None {
        if newest(h, key, snapshot) is Some {
            let s = newest(h, key, snapshot)->0;
            assert(is_newest(h, key, snapshot, s));
            assert(h[(key, s)].value_type == ValueType::Tombstone);
        } else {
            assert forall|s: SeqNo| s <= snapshot implies !#[trigger] h.contains_key((key, s)) by {
                if h.contains_key((key, s)) {
                    lemma_newest_exists(h, key, snapshot, s);
                }
            }
        }
    }
    if forall|s: SeqNo| s <= snapshot ==> !#[trigger] h.contains_key((key, s)) {
        lemma_newest_none(h, key, snapshot);
    }
    if exists|s: SeqNo|
        is_newest(h, key, snapshot, s) && (#[trigger] h[(key, s)]).value_type
            == ValueType::Tombstone {
        let s = choose|s: SeqNo|
            is_newest(h, key, snapshot, s) && (#[trigger] h[(key, s)]).value_type
                == ValueType::Tombstone;
        lemma_newest_is(h, key, snapshot, s);
    }
}

/// A version that is written above the sequence number of a reader does not
/// change what the reader finds.
pub proof fn lemma_later_write_unseen(
    h: History,
    id: (Seq<u8>, SeqNo),
    stored: Stored,
    key: Seq<u8>,
    snapshot: SeqNo,
)
    requires
        id.1 > snapshot,
    ensures
        visible(h.insert(id, stored), key, snapshot) == visible(h, key, snapshot),
{
    let g = h.insert(id, stored);
    assert forall|s: SeqNo| is_newest(g, key, snapshot, s) <==> is_newest(h, key, snapshot, s) by {
        if is_newest(g, key, snapshot, s) {
            assert forall|q: SeqNo| q <= snapshot && #[trigger] h.contains_key((key, q)) implies q
                <= s by {
                assert(g.contains_key((key, q)));
            }
        }
        if is_newest(h, key, snapshot, s) {
            assert forall|q: SeqNo| q <= snapshot && #[trigger] g.contains_key((key, q)) implies q
                <= s by {
                assert(h.contains_key((key, q)));
            }
        }
    }
    if newest(h, key, snapshot) is Some {
        let s = newest(h, key, snapshot)->0;
        assert(is_newest(h, key, snapshot, s));
        lemma_newest_is(g, key, snapshot, s);
    } else if newest(g, key, snapshot) is Some {
        let s = newest(g, key, snapshot)->0;
        assert(is_newest(g, key, snapshot, s));
        lemma_newest_is(h, key, snapshot, s);
    }
}

/// The highest sequence number in a history that holds something.
pub open spec fn highest(h: History) -> SeqNo {
    choose|seqno: SeqNo| is_highest(h, seqno)
}

/// A history has one highest sequence number at most.
pub proof fn lemma_highest_is(h: History, seqno: SeqNo)
    requires
        is_highest(h, seqno),
    ensures
        highest(h) == seqno,
{
    let other = highest(h);
    let k1 = choose|key: Seq<u8>| #[trigger] h.contains_key((key, seqno));
    let k2 = choose|key: Seq<u8>| #[trigger] h.contains_key((key, other));
    assert(h.contains_key((k1, seqno)));
    assert(h.contains_key((k2, other)));
}

/// Every version in the history has a sequence number below `bound`.
pub open spec fn below(h: History, bound: int) -> bool {
    forall|id: (Seq<u8>, SeqNo)| #[trigger] h.contains_key(id) ==> id.1 < bound
}

/// The versions that a sequence of items holds. Where two items have the same
/// key and sequence number, one of them stands for both.
pub open spec fn versions(s: Seq<ValueView>) -> History {
    Map::new(
        |id: (Seq<u8>, SeqNo)| exists|i: int| 0 <= i < s.len() && #[trigger] s[i].id() == id,
        |id: (Seq<u8>, SeqNo)|
            s[choose|i: int| 0 <= i < s.len() && #[trigger] s[i].id() == id].stored(),
    )
}

/// The newest version is the only one that is the newest.
pub proof fn lemma_newest_is(h: History, key: Seq<u8>, snapshot: SeqNo, seqno: SeqNo)
    requires
        is_newest(h, key, snapshot, seqno),
    ensures
        newest(h, key, snapshot) == Some(seqno),
{
    let s = choose|s: SeqNo| is_newest(h, key, snapshot, s);
    assert(s <= seqno);
    assert(seqno <= s);
}

/// Where a reader sees no version of a key, it finds nothing under it.
pub proof fn lemma_newest_none(h: History, key: Seq<u8>, snapshot: SeqNo)
    requires
        forall|s: SeqNo| s <= snapshot ==> !#[trigger] h.contains_key((key, s)),
    ensures
        newest(h, key, snapshot) is None,
        visible(h, key, snapshot) is None,
{
}

/// A key that has a version not above `snapshot` has a newest such version.
pub proof fn lemma_newest_exists(h: History, key: Seq<u8>, snapshot: SeqNo, seqno: SeqNo)
    requires
        seqno <= snapshot,
        h.contains_key((key, seqno)),
    ensures
        newest(h, key, snapshot) is Some,
        newest(h, key, snapshot)->0 >= seqno,
        is_newest(h, key, snapshot, newest(h, key, snapshot)->0),
    decreases snapshot - seqno,
{
    if forall|s: SeqNo| s <= snapshot && #[trigger] h.contains_key((key, s)) ==> s <= seqno {
        assert(is_newest(h, key, snapshot, seqno));
        lemma_newest_is(h, key, snapshot, seqno);
    } else {
        let s = choose|s: SeqNo| s <= snapshot && #[trigger] h.contains_key((key, s)) && s > seqno;
        lemma_newest_exists(h, key, snapshot, s);
    }
}

/// What `newest` returns is the newest version.
pub proof fn lemma_newest_some(h: History, key: Seq<u8>, snapshot: SeqNo)
    requires
        newest(h, key, snapshot) is Some,
    ensures
        is_newest(h, key, snapshot, newest(h, key, snapshot)->0),
{
}

/// `r` is the answer to a lookup of `key` at `snapshot`: the newest version
/// that the reader sees, with what is stored under it, or `None` where it sees none.
pub open spec fn found(h: History, key: Seq<u8>, snapshot: SeqNo, r: Option<ValueView>) -> bool {
    match r {
        Some(v) => {
            &&& v.key == key
            &&& newest(h, key, snapshot) == Some(v.seqno)
            &&& h[(key, v.seqno)] == v.stored()
        },
        None => newest(h, key, snapshot) is None,
    }
}

/// Of the answers of an older and of a newer layer, the one with the higher
/// sequence number; the newer layer's where the two agree on it.
pub open spec fn newer_of(older: Option<ValueView>, newer: Option<ValueView>) -> Option<ValueView> {
    match (older, newer) {
        (Some(x), Some(y)) => if x.seqno > y.seqno {
            older
        } else {
            newer
        },
        (Some(_), None) => older,
        (None, _) => newer,
    }
}

/// What a reader finds, given the answer to its lookup.
pub open spec fn value_of(r: Option<ValueView>) -> Option<Seq<u8>> {
    match r {
        Some(v) => if v.value_type == ValueType::Value {
            Some(v.value)
        } else {
            None
        },
        None => None,
    }
}

/// The answer to a lookup decides what the reader finds.
pub proof fn lemma_found_visible(h: History, key: Seq<u8>, snapshot: SeqNo, r: Option<ValueView>)
    requires
        found(h, key, snapshot, r),
    ensures
        visible(h, key, snapshot) == value_of(r),
{
}

/// A lookup in two layers, the second laid over the first, is answered by the
/// newer of the two layers' answers.
pub proof fn lemma_found_union(
    a: History,
    b: History,
    key: Seq<u8>,
    snapshot: SeqNo,
    ra: Option<ValueView>,
    rb: Option<ValueView>,
)
    requires
        found(a, key, snapshot, ra),
        found(b, key, snapshot, rb),
    ensures
        found(a.union_prefer_right(b), key, snapshot, newer_of(ra, rb)),
{
    let u = a.union_prefer_right(b);
    if ra is Some {
        lemma_newest_some(a, key, snapshot);
    }
    if rb is Some {
        lemma_newest_some(b, key, snapshot);
    }
    assert forall|s: SeqNo| s <= snapshot && #[trigger] u.contains_key((key, s)) implies (ra is Some
        && a.contains_key((key, s)) && s <= ra->0.seqno) || (rb is Some && b.contains_key((key, s))
        && s <= rb->0.seqno) by {
        if b.contains_key((key, s)) {
            lemma_newest_exists(b, key, snapshot, s);
        } else {
            lemma_newest_exists(a, key, snapshot, s);
        }
    }
    match newer_of(ra, rb) {
        Some(v) => {
            assert(is_newest(u, key, snapshot, v.seqno));
            lemma_newest_is(u, key, snapshot, v.seqno);
            if b.contains_key((key, v.seqno)) {
                lemma_newest_exists(b, key, snapshot, v.seqno);
            }
        },
        None => {
            lemma_newest_none(u, key, snapshot);
        },
    }
}

/// The history `h` after the items were put into it one after the other.
pub open spec fn fold_items(h: History, items: Seq<ValueView>) -> History
    decreases items.len(),
{
    if items.len() == 0 {
        h
    } else {
        fold_items(h, items.drop_last()).insert(items.last().id(), items.last().stored())
    }
}

/// Putting items into a history is laying what the items hold over the history.
pub proof fn lemma_fold_items_union(h: History, items: Seq<ValueView>)
    ensures
        fold_items(h, items) == h.union_prefer_right(fold_items(Map::empty(), items)),
    decreases items.len(),
{
    if items.len() == 0 {
        assert(h.union_prefer_right(Map::empty()) =~= h);
    } else {
        lemma_fold_items_union(h, items.drop_last());
        assert(fold_items(h, items) =~= h.union_prefer_right(fold_items(Map::empty(), items)));
    }
}

/// Items with sequence numbers below a bound leave a history below that bound.
pub proof fn lemma_fold_items_below(h: History, items: Seq<ValueView>, bound: int)
    requires
        below(h, bound),
        forall|i: int| 0 <= i < items.len() ==> (#[trigger] items[i]).seqno < bound,
    ensures
        below(fold_items(h, items), bound),
    decreases items.len(),
{
    if items.len() > 0 {
        lemma_fold_items_below(h, items.drop_last(), bound);
        assert(items.last() == items[items.len() - 1]);
    }
}

/// The items stand in the order of their versions, each version once.
pub open spec fn is_sorted(s: Seq<ValueView>) -> bool {
    forall|i: int, j: int| 0 <= i < j < s.len() ==> version_lt(#[trigger] s[i].id(), #[trigger] s[j].id())
}

/// In a sorted sequence no two items hold the same version.
pub proof fn lemma_sorted_unique(s: Seq<ValueView>, i: int, j: int)
    requires
        is_sorted(s),
        0 <= i < s.len(),
        0 <= j < s.len(),
        s[i].id() == s[j].id(),
    ensures
        i == j,
{
    if i < j {
        lemma_version_lt_asymmetric(s[i].id(), s[j].id());
    } else if j < i {
        lemma_version_lt_asymmetric(s[j].id(), s[i].id());
    }
}

/// Each item of a sorted sequence is what the sequence holds under the item's version.
pub proof fn lemma_versions_at(s: Seq<ValueView>, i: int)
    requires
        is_sorted(s),
        0 <= i < s.len(),
    ensures
        versions(s).contains_key(s[i].id()),
        versions(s)[s[i].id()] == s[i].stored(),
{
    let id = s[i].id();
    let j = choose|j: int| 0 <= j < s.len() && #[trigger] s[j].id() == id;
    lemma_sorted_unique(s, i, j);
}

/// Every version that a sequence holds is that of one of its items.
pub proof fn lemma_versions_index(s: Seq<ValueView>, id: (Seq<u8>, SeqNo)) -> (i: int)
    requires
        versions(s).contains_key(id),
    ensures
        0 <= i < s.len(),
        s[i].id() == id,
{
    choose|i: int| 0 <= i < s.len() && #[trigger] s[i].id() == id
}

/// Putting a new item at its place in a sorted sequence adds its version.
pub proof fn lemma_versions_insert(s: Seq<ValueView>, p: int, e: ValueView)
    requires
        0 <= p <= s.len(),
        is_sorted(s),
        is_sorted(s.insert(p, e)),
    ensures
        versions(s.insert(p, e)) == versions(s).insert(e.id(), e.stored()),
{
    let t = s.insert(p, e);
    let a = versions(t);
    let b = versions(s).insert(e.id(), e.stored());
    assert forall|id: (Seq<u8>, SeqNo)| a.contains_key(id) <==> b.contains_key(id) by {
        if a.contains_key(id) {
            let i = lemma_versions_index(t, id);
            if i < p {
                assert(s[i].id() == id);
            } else if i > p {
                assert(s[i - 1].id() == id);
            }
        }
        if b.contains_key(id) {
            if id == e.id() {
                assert(t[p].id() == id);
            } else {
                let i = lemma_versions_index(s, id);
                if i < p {
                    assert(t[i].id() == id);
                } else {
                    assert(t[i + 1].id() == id);
                }
            }
        }
    }
    assert forall|id: (Seq<u8>, SeqNo)| a.contains_key(id) implies a[id] == b[id] by {
        let i = lemma_versions_index(t, id);
        lemma_versions_at(t, i);
        if i == p {
        } else {
            let k = if i < p {
                i
            } else {
                i - 1
            };
            assert(s[k] == t[i]);
            lemma_versions_at(s, k);
            if id == e.id() {
                assert(t[p].id() == id);
                lemma_sorted_unique(t, i, p);
            }
        }
    }
    assert(a =~= b);
}

/// Replacing an item of a sorted sequence by another of the same version
/// keeps the order and replaces what is held under that version.
pub proof fn lemma_versions_update(s: Seq<ValueView>, p: int, e: ValueView)
    requires
        0 <= p < s.len(),
        is_sorted(s),
        s[p].id() == e.id(),
    ensures
        is_sorted(s.update(p, e)),
        versions(s.update(p, e)) == versions(s).insert(e.id(), e.stored()),
{
    let t = s.update(p, e);
    assert forall|i: int, j: int| 0 <= i < j < t.len() implies version_lt(
        #[trigger] t[i].id(),
        #[trigger] t[j].id(),
    ) by {
        assert(t[i].id() == s[i].id());
        assert(t[j].id() == s[j].id());
    }
    let a = versions(t);
    let b = versions(s).insert(e.id(), e.stored());
    assert forall|id: (Seq<u8>, SeqNo)| a.contains_key(id) <==> b.contains_key(id) by {
        if a.contains_key(id) {
            let i = lemma_versions_index(t, id);
            assert(s[i].id() == id);
        }
        if b.contains_key(id) {
            if id == e.id() {
                assert(t[p].id() == id);
            } else {
                let i = lemma_versions_index(s, id);
                assert(t[i].id() == id);
            }
        }
    }
    assert forall|id: (Seq<u8>, SeqNo)| a.contains_key(id) implies a[id] == b[id] by {
        let i = lemma_versions_index(t, id);
        lemma_versions_at(t, i);
        if i != p {
            assert(s[i] == t[i]);
            lemma_versions_at(s, i);
            if id == e.id() {
                lemma_sorted_unique(t, i, p);
            }
        }
    }
    assert(a =~= b);
}

/// A sorted sequence holds what putting its items into an empty history
/// one after the other gives.
pub proof fn lemma_fold_items_sorted(items: Seq<ValueView>)
    requires
        is_sorted(items),
    ensures
        fold_items(Map::empty(), items) == versions(items),
    decreases items.len(),
{
    if items.len() == 0 {
        assert(versions(items) =~= Map::empty());
    } else {
        let shorter = items.drop_last();
        assert forall|i: int, j: int| 0 <= i < j < shorter.len() implies version_lt(
            #[trigger] shorter[i].id(),
            #[trigger] shorter[j].id(),
        ) by {
            assert(shorter[i] == items[i] && shorter[j] == items[j]);
        }
        lemma_fold_items_sorted(shorter);
        assert(items =~= shorter.insert(shorter.len() as int, items.last()));
        lemma_versions_insert(shorter, shorter.len() as int, items.last());
    }
}

/// A sorted sequence holds as many versions as it has items.
pub proof fn lemma_versions_count(s: Seq<ValueView>)
    requires
        is_sorted(s),
    ensures
        versions(s).dom().finite(),
        versions(s).dom().len() == s.len(),
    decreases s.len(),
{
    if s.len() == 0 {
        assert(versions(s).dom() =~= Set::empty());
    } else {
        let shorter = s.drop_last();
        let e = s.last();
        assert forall|i: int, j: int| 0 <= i < j < shorter.len() implies version_lt(
            #[trigger] shorter[i].id(),
            #[trigger] shorter[j].id(),
        ) by {
            assert(shorter[i] == s[i] && shorter[j] == s[j]);
        }
        lemma_versions_count(shorter);
        assert(s =~= shorter.insert(shorter.len() as int, e));
        lemma_versions_insert(shorter, shorter.len() as int, e);
        if versions(shorter).contains_key(e.id()) {
            let i = lemma_versions_index(shorter, e.id());
            assert(shorter[i] == s[i]);
            lemma_sorted_unique(s, i, s.len() - 1);
        }
        assert(versions(s).dom() =~= versions(shorter).dom().insert(e.id()));
    }
}

} // verus!

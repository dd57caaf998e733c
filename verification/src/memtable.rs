//! The memtable: the sorted in-memory buffer that takes a partition's writes.

use crate::history::{
    fold_items, found, is_highest, is_sorted, lemma_newest_is, lemma_newest_none,
    lemma_versions_at, lemma_versions_index, lemma_versions_insert, lemma_versions_update, newest,
    versions, History,
};
use crate::value::{
    compare_keys, lemma_key_lt_asymmetric, lemma_key_lt_total, lemma_version_lt_asymmetric,
    lemma_version_lt_total, lemma_version_lt_transitive, version_before, version_lt, KeyOrder,
    option_view, SeqNo, Value, ValueView,
};
use vstd::prelude::*;

verus! {

/// What an item adds to the approximate size of a memtable besides its key and its value.
pub const ITEM_OVERHEAD: u64 = 9;

/// The approximate size of a memtable of size `old` after it took an item
/// with a key of `key_len` and a value of `value_len` bytes. The size stops at
/// the largest `u32`.
pub open spec fn size_after(old: u32, key_len: nat, value_len: nat) -> u32 {
    let total = old + key_len + value_len + ITEM_OVERHEAD;
    if total > u32::MAX {
        u32::MAX
    } else {
        total as u32
    }
}

/// Computes [`size_after`].
pub fn bump_size(old: u32, key_len: usize, value_len: usize) -> (r: u32)
    ensures
        r == size_after(old, key_len as nat, value_len as nat),
{
    let a: u64 = (key_len as u64).saturating_add(value_len as u64);
    let b: u64 = a.saturating_add(ITEM_OVERHEAD);
    let c: u64 = b.saturating_add(old as u64);
    if c > u32::MAX as u64 {
        u32::MAX
    } else {
        c as u32
    }
}

/// The number of items of a memtable that took `items` one after the other.
pub open spec fn built_len(items: Seq<ValueView>) -> nat
    decreases items.len(),
{
    if items.len() == 0 {
        0
    } else if fold_items(Map::empty(), items.drop_last()).contains_key(items.last().id()) {
        built_len(items.drop_last())
    } else {
        built_len(items.drop_last()) + 1
    }
}

/// The approximate size of a memtable that took `items` one after the other.
pub open spec fn built_size(items: Seq<ValueView>) -> u32
    decreases items.len(),
{
    if items.len() == 0 {
        0
    } else {
        size_after(built_size(items.drop_last()), items.last().key.len(), items.last().value.len())
    }
}

/// The views of a list of items.
pub open spec fn item_views(items: Seq<Value>) -> Seq<ValueView> {
    items.map_values(|v: Value| v@)
}

/// An ordered in-memory structure that holds versions of keys.
#[derive(Debug)]
pub struct MemTable {
    items: Vec<Value>,
    approximate_size: u32,
    highest_seqno: Option<SeqNo>,
}

impl View for MemTable {
    type V = Seq<ValueView>;

    /// The items in the order in which the memtable holds them.
    closed spec fn view(&self) -> Seq<ValueView> {
        self.items@.map_values(|v: Value| v@)
    }
}

impl MemTable {
    /// The items are sorted, and the highest sequence number is on record.
    pub closed spec fn wf(&self) -> bool {
        &&& is_sorted(self@)
        &&& match self.highest_seqno {
            Some(h) => is_highest(versions(self@), h),
            None => self.items@.len() == 0,
        }
    }

    /// What the memtable holds under each key and sequence number.
    pub open spec fn versions(&self) -> History {
        versions(self@)
    }

    /// The approximate number of bytes that the memtable holds.
    pub closed spec fn size(&self) -> u32 {
        self.approximate_size
    }

    /// A well-formed memtable is sorted.
    pub proof fn lemma_sorted(&self)
        requires
            self.wf(),
        ensures
            is_sorted(self@),
    {
    }

    /// A well-formed memtable has one item for each version that it holds.
    pub proof fn lemma_len(&self)
        requires
            self.wf(),
        ensures
            self.versions().dom().finite(),
            self@.len() == self.versions().dom().len(),
    {
        crate::history::lemma_versions_count(self@);
    }

    /// An empty memtable.
    pub fn new() -> (r: Self)
        ensures
            r.wf(),
            r@.len() == 0,
            r.versions() == Map::<(Seq<u8>, SeqNo), crate::value::Stored>::empty(),
            r.size() == 0,
    {
        let r = MemTable { items: Vec::new(), approximate_size: 0, highest_seqno: None };
        assert(r.versions() =~= Map::empty());
        r
    }

    /// The number of items.
    pub fn len(&self) -> (r: usize)
        ensures
            r == self@.len(),
    {
        self.items.len()
    }

    /// Whether the memtable holds nothing.
    pub fn is_empty(&self) -> (r: bool)
        ensures
            r == (self@.len() == 0),
    {
        self.items.len() == 0
    }

    /// The approximate number of bytes that the memtable holds.
    pub fn approximate_size(&self) -> (r: u32)
        ensures
            r == self.size(),
    {
        self.approximate_size
    }

    /// The item at position `i` of the sorted order.
    pub fn item(&self, i: usize) -> (r: &Value)
        requires
            i < self@.len(),
        ensures
            r@ == self@[i as int],
    {
        &self.items[i]
    }

    /// The highest sequence number that the memtable holds, or `None` if it is empty.
    pub fn get_lsn(&self) -> (r: Option<SeqNo>)
        requires
            self.wf(),
        ensures
            match r {
                Some(h) => is_highest(self.versions(), h),
                None => self@.len() == 0,
            },
    {
        self.highest_seqno
    }

    /// The first position whose item does not come before the version `(key, seqno)`.
    fn lower_bound(&self, key: &[u8], seqno: SeqNo) -> (p: usize)
        requires
            self.wf(),
        ensures
            p <= self@.len(),
            forall|i: int| 0 <= i < p ==> version_lt(#[trigger] self@[i].id(), (key@, seqno)),
            forall|i: int|
                p <= i < self@.len() ==> !version_lt(#[trigger] self@[i].id(), (key@, seqno)),
    {
        let mut lo: usize = 0;
        let mut hi: usize = self.items.len();
        while lo < hi
            invariant
                self.wf(),
                lo <= hi <= self.items.len(),
                forall|i: int| 0 <= i < lo ==> version_lt(#[trigger] self@[i].id(), (key@, seqno)),
                forall|i: int|
                    hi <= i < self@.len() ==> !version_lt(#[trigger] self@[i].id(), (key@, seqno)),
            decreases hi - lo,
        {
            let mid: usize = lo + (hi - lo) / 2;
            let item = &self.items[mid];
            assert(item@ == self@[mid as int]);
            if version_before(item.key.as_slice(), item.seqno, key, seqno) {
                proof {
                    assert forall|i: int| 0 <= i < mid + 1 implies version_lt(
                        #[trigger] self@[i].id(),
                        (key@, seqno),
                    ) by {
                        if i < mid {
                            lemma_version_lt_transitive(
                                self@[i].id(),
                                self@[mid as int].id(),
                                (key@, seqno),
                            );
                        }
                    }
                }
                lo = mid + 1;
            } else {
                proof {
                    assert forall|i: int| mid <= i < self@.len() implies !version_lt(
                        #[trigger] self@[i].id(),
                        (key@, seqno),
                    ) by {
                        if i > mid && version_lt(self@[i].id(), (key@, seqno)) {
                            lemma_version_lt_transitive(
                                self@[mid as int].id(),
                                self@[i].id(),
                                (key@, seqno),
                            );
                        }
                    }
                }
                hi = mid;
            }
        }
        lo
    }

    /// Looks up the newest version of `key` whose sequence number is at most `seqno`.
    pub fn get(&self, key: &[u8], seqno: SeqNo) -> (r: Option<&Value>)
        requires
            self.wf(),
        ensures
            found(self.versions(), key@, seqno, option_view(r)),
    {
        let p = self.lower_bound(key, seqno);
        let ghost s = self@;
        let ghost target = (key@, seqno);
        if p < self.items.len() {
            let item = &self.items[p];
            assert(item@ == s[p as int]);
            match compare_keys(item.key.as_slice(), key) {
                KeyOrder::Equal => {
                    proof {
                        lemma_versions_at(s, p as int);
                        assert forall|q: SeqNo|
                            q <= seqno && #[trigger] versions(s).contains_key(
                                (key@, q),
                            ) implies q <= item.seqno by {
                            let j = lemma_versions_index(s, (key@, q));
                            if j < p {
                                assert(version_lt(s[j].id(), target));
                                if crate::value::key_lt(key@, key@) {
                                    lemma_key_lt_asymmetric(key@, key@);
                                }
                            } else if j > p {
                                assert(version_lt(s[p as int].id(), s[j].id()));
                                if crate::value::key_lt(key@, key@) {
                                    lemma_key_lt_asymmetric(key@, key@);
                                }
                            }
                        }
                        assert(!version_lt(s[p as int].id(), target));
                        lemma_newest_is(versions(s), key@, seqno, item.seqno);
                    }
                    return Some(item);
                },
                _ => {
                    proof {
                        lemma_key_lt_total(item.key@, key@);
                        if crate::value::key_lt(item.key@, key@) {
                            assert(version_lt(s[p as int].id(), target));
                        }
                        assert(crate::value::key_lt(key@, item.key@));
                    }
                },
            }
        }
        proof {
            assert forall|q: SeqNo| q <= seqno implies !#[trigger] versions(s).contains_key(
                (key@, q),
            ) by {
                if versions(s).contains_key((key@, q)) {
                    let j = lemma_versions_index(s, (key@, q));
                    if j < p {
                        assert(version_lt(s[j].id(), target));
                        if crate::value::key_lt(key@, key@) {
                            lemma_key_lt_asymmetric(key@, key@);
                        }
                    } else {
                        let first = s[p as int];
                        assert(crate::value::key_lt(key@, first.key));
                        lemma_key_lt_asymmetric(key@, first.key);
                        if j > p {
                            assert(version_lt(first.id(), s[j].id()));
                        }
                    }
                }
            }
            lemma_newest_none(versions(s), key@, seqno);
        }
        None
    }

    /// Puts `item` into the memtable, in place of what was held under its key
    /// and sequence number, if anything was. Returns the new approximate size.
    pub fn insert(&mut self, item: Value) -> (size: u32)
        requires
            old(self).wf(),
        ensures
            final(self).wf(),
            final(self).versions() == old(self).versions().insert(item@.id(), item@.stored()),
            final(self).size() == size_after(old(self).size(), item@.key.len(), item@.value.len()),
            size == final(self).size(),
            final(self)@.len() == old(self)@.len() + if old(self).versions().contains_key(
                item@.id(),
            ) {
                0int
            } else {
                1int
            },
    {
        let p = self.lower_bound(item.key.as_slice(), item.seqno);
        let ghost s = self@;
        let ghost e = item@;
        let size = bump_size(self.approximate_size, item.key.len(), item.value.len());
        let seqno = item.seqno;
        let mut replace = false;
        if p < self.items.len() {
            let found = &self.items[p];
            assert(found@ == s[p as int]);
            if !version_before(item.key.as_slice(), item.seqno, found.key.as_slice(), found.seqno) {
                proof {
                    lemma_version_lt_total(e.id(), s[p as int].id());
                }
                replace = true;
            }
        }
        if replace {
            self.items[p] = item;
            proof {
                assert(self@ =~= s.update(p as int, e));
                lemma_versions_update(s, p as int, e);
                lemma_versions_at(s, p as int);
            }
        } else {
            self.items.insert(p, item);
            proof {
                let t = s.insert(p as int, e);
                assert(self@ =~= t);
                if versions(s).contains_key(e.id()) {
                    let j = lemma_versions_index(s, e.id());
                    if j < p {
                        assert(version_lt(s[j].id(), e.id()));
                        lemma_version_lt_asymmetric(s[j].id(), e.id());
                    } else {
                        assert(version_lt(e.id(), s[p as int].id()));
                        if j > p {
                            assert(version_lt(s[p as int].id(), s[j].id()));
                            lemma_version_lt_transitive(e.id(), s[p as int].id(), s[j].id());
                            lemma_version_lt_asymmetric(e.id(), s[j].id());
                        } else {
                            lemma_version_lt_asymmetric(e.id(), s[p as int].id());
                        }
                    }
                }
                assert forall|i: int, j: int| 0 <= i < j < t.len() implies version_lt(
                    #[trigger] t[i].id(),
                    #[trigger] t[j].id(),
                ) by {
                    if j < p {
                    } else if i < p && j == p {
                        assert(t[i] == s[i]);
                    } else if i < p && j > p {
                        assert(t[i] == s[i]);
                        assert(t[j] == s[j - 1]);
                    } else if i == p {
                        assert(t[j] == s[j - 1]);
                        if j - 1 > p {
                            assert(version_lt(s[p as int].id(), s[j - 1].id()));
                            lemma_version_lt_transitive(e.id(), s[p as int].id(), s[j - 1].id());
                        }
                    } else {
                        assert(t[i] == s[i - 1]);
                        assert(t[j] == s[j - 1]);
                    }
                }
                lemma_versions_insert(s, p as int, e);
            }
        }
        let ghost before = self.highest_seqno;
        let highest = match self.highest_seqno {
            Some(h) => if h < seqno {
                seqno
            } else {
                h
            },
            None => seqno,
        };
        self.highest_seqno = Some(highest);
        self.approximate_size = size;
        proof {
            let m = versions(self@);
            assert(m == versions(s).insert(e.id(), e.stored()));
            assert(m.contains_key(e.id()));
            match before {
                Some(h) => {
                    let k = choose|k: Seq<u8>| #[trigger] versions(s).contains_key((k, h));
                    assert(m.contains_key((k, h)));
                },
                None => {
                    assert forall|id: (Seq<u8>, SeqNo)| #[trigger]
                        m.contains_key(id) implies id == e.id() by {
                        if versions(s).contains_key(id) {
                            let i = lemma_versions_index(s, id);
                        }
                    }
                },
            }
            if highest == seqno {
                assert(m.contains_key((e.key, highest)));
            }
            assert(is_highest(m, highest));
        }
        size
    }

    /// Puts every item of `other` into the memtable, in place of what was
    /// held under the same key and sequence number.
    pub(crate) fn absorb(&mut self, other: &MemTable)
        requires
            old(self).wf(),
            other.wf(),
        ensures
            final(self).wf(),
            final(self).versions() == old(self).versions().union_prefer_right(other.versions()),
    {
        let n = other.len();
        let ghost o = other@;
        let ghost base = self.versions();
        let mut j: usize = 0;
        proof {
            other.lemma_sorted();
            assert(versions(o.take(0)) =~= Map::empty());
            assert(base.union_prefer_right(versions(o.take(0))) =~= base);
        }
        while j < n
            invariant
                j <= n,
                n == o.len(),
                o == other@,
                is_sorted(o),
                self.wf(),
                self.versions() == base.union_prefer_right(versions(o.take(j as int))),
            decreases n - j,
        {
            let item = other.item(j).duplicate();
            proof {
                let shorter = o.take(j as int);
                let longer = o.take(j + 1);
                assert(longer =~= shorter.insert(j as int, o[j as int]));
                assert(is_sorted(shorter)) by {
                    assert forall|a: int, b: int| 0 <= a < b < shorter.len() implies version_lt(
                        #[trigger] shorter[a].id(),
                        #[trigger] shorter[b].id(),
                    ) by {
                        assert(shorter[a] == o[a] && shorter[b] == o[b]);
                    }
                }
                assert(is_sorted(longer)) by {
                    assert forall|a: int, b: int| 0 <= a < b < longer.len() implies version_lt(
                        #[trigger] longer[a].id(),
                        #[trigger] longer[b].id(),
                    ) by {
                        assert(longer[a] == o[a] && longer[b] == o[b]);
                    }
                }
                lemma_versions_insert(shorter, j as int, o[j as int]);
                assert(base.union_prefer_right(versions(shorter)).insert(
                    item@.id(),
                    item@.stored(),
                ) =~= base.union_prefer_right(versions(longer)));
            }
            self.insert(item);
            j += 1;
        }
        proof {
            assert(o.take(j as int) =~= o);
        }
    }

    /// The memtable with its approximate size put at `size`.
    pub(crate) fn resized(self, size: u32) -> (r: Self)
        requires
            self.wf(),
        ensures
            r.wf(),
            r@ == self@,
            r.size() == size,
    {
        MemTable { items: self.items, approximate_size: size, highest_seqno: self.highest_seqno }
    }

    /// A memtable that took `items` one after the other.
    pub fn from_items(items: &Vec<Value>) -> (r: Self)
        ensures
            r.wf(),
            r.versions() == fold_items(Map::empty(), item_views(items@)),
            r@.len() == built_len(item_views(items@)),
            r.size() == built_size(item_views(items@)),
            items@.len() > 0 ==> r@.len() > 0,
    {
        let mut out = MemTable::new();
        let ghost views = item_views(items@);
        let mut i: usize = 0;
        proof {
            assert(views.take(0) =~= Seq::empty());
        }
        while i < items.len()
            invariant
                i <= items.len(),
                views == item_views(items@),
                out.wf(),
                out.versions() == fold_items(Map::empty(), views.take(i as int)),
                out@.len() == built_len(views.take(i as int)),
                out.size() == built_size(views.take(i as int)),
                i > 0 ==> out@.len() > 0,
            decreases items.len() - i,
        {
            proof {
                assert(views.take(i + 1).drop_last() =~= views.take(i as int));
                assert(views.take(i + 1).last() == items@[i as int]@);
            }
            out.insert(items[i].duplicate());
            i += 1;
        }
        proof {
            assert(views.take(i as int) =~= views);
        }
        out
    }
}

} // verus!

//! Scans: the pairs of key and value that a reader sees, in the order of their keys.

use crate::history::{
    is_sorted, lemma_newest_is, lemma_newest_some, lemma_versions_at, lemma_versions_index, newest,
    versions, visible, History,
};
use crate::memtable::MemTable;
use crate::value::{
    compare_keys, key_lt, lemma_key_lt_asymmetric, lemma_key_lt_transitive, version_lt, KeyOrder,
    SeqNo, UserKey, UserValue, ValueType, ValueView,
};
use vstd::prelude::*;

verus! {

/// One end of a range of keys.
#[derive(Debug)]
pub enum Bound {
    /// The range has no such end.
    Unbounded,
    /// The range ends with this key.
    Included(UserKey),
    /// The range ends just before this key.
    Excluded(UserKey),
}

/// The keys that a scan selects: those between `start` and `end` that begin with `prefix`.
#[derive(Debug)]
pub struct Selection {
    pub start: Bound,
    pub end: Bound,
    pub prefix: UserKey,
}

/// Whether `key` begins with `prefix`.
pub open spec fn has_prefix(key: Seq<u8>, prefix: Seq<u8>) -> bool {
    prefix.len() <= key.len() && key.take(prefix.len() as int) == prefix
}

/// Whether `key` is not before the start `bound`.
pub open spec fn after_start(bound: Bound, key: Seq<u8>) -> bool {
    match bound {
        Bound::Unbounded => true,
        Bound::Included(b) => !key_lt(key, b@),
        Bound::Excluded(b) => key_lt(b@, key),
    }
}

/// Whether `key` is not after the end `bound`.
pub open spec fn before_end(bound: Bound, key: Seq<u8>) -> bool {
    match bound {
        Bound::Unbounded => true,
        Bound::Included(b) => !key_lt(b@, key),
        Bound::Excluded(b) => key_lt(key, b@),
    }
}

impl Selection {
    /// Whether the scan selects `key`.
    pub open spec fn selects(&self, key: Seq<u8>) -> bool {
        &&& after_start(self.start, key)
        &&& before_end(self.end, key)
        &&& has_prefix(key, self.prefix@)
    }

    /// The selection of all keys.
    pub fn all() -> (r: Self)
        ensures
            forall|key: Seq<u8>| r.selects(key),
    {
        let r = Selection { start: Bound::Unbounded, end: Bound::Unbounded, prefix: Vec::new() };
        assert forall|key: Seq<u8>| r.selects(key) by {
            assert(key.take(0) =~= r.prefix@);
        }
        r
    }

    /// The selection of the keys from `start` to `end`.
    pub fn range(start: Bound, end: Bound) -> (r: Self)
        ensures
            forall|key: Seq<u8>| r.selects(key) <==> after_start(start, key) && before_end(end, key),
    {
        let r = Selection { start, end, prefix: Vec::new() };
        assert forall|key: Seq<u8>| r.selects(key) <==> after_start(start, key) && before_end(
            end,
            key,
        ) by {
            assert(key.take(0) =~= r.prefix@);
        }
        r
    }

    /// The selection of the keys that begin with `prefix`.
    pub fn prefix(prefix: UserKey) -> (r: Self)
        ensures
            forall|key: Seq<u8>| r.selects(key) <==> has_prefix(key, prefix@),
    {
        Selection { start: Bound::Unbounded, end: Bound::Unbounded, prefix }
    }

    /// Tells whether the scan selects `key`.
    pub fn contains(&self, key: &[u8]) -> (r: bool)
        ensures
            r == self.selects(key@),
    {
        let start_ok = match &self.start {
            Bound::Unbounded => true,
            Bound::Included(b) => !matches!(compare_keys(key, b.as_slice()), KeyOrder::Less),
            Bound::Excluded(b) => matches!(compare_keys(b.as_slice(), key), KeyOrder::Less),
        };
        let end_ok = match &self.end {
            Bound::Unbounded => true,
            Bound::Included(b) => !matches!(compare_keys(b.as_slice(), key), KeyOrder::Less),
            Bound::Excluded(b) => matches!(compare_keys(key, b.as_slice()), KeyOrder::Less),
        };
        if !start_ok || !end_ok {
            return false;
        }
        let n = self.prefix.len();
        if key.len() < n {
            return false;
        }
        let mut i: usize = 0;
        while i < n
            invariant
                i <= n,
                n == self.prefix@.len(),
                n <= key@.len(),
                forall|j: int| 0 <= j < i ==> key@[j] == self.prefix@[j],
            decreases n - i,
        {
            if key[i] != self.prefix[i] {
                assert(key@.take(n as int)[i as int] != self.prefix@[i as int]);
                return false;
            }
            i += 1;
        }
        assert(key@.take(n as int) =~= self.prefix@);
        true
    }
}

/// The mathematical value of a list of pairs of key and value.
pub open spec fn pair_views(s: Seq<(UserKey, UserValue)>) -> Seq<(Seq<u8>, Seq<u8>)> {
    s.map_values(|p: (UserKey, UserValue)| (p.0@, p.1@))
}

/// `out` is what a reader at `snapshot` sees of the history `h` among the
/// selected keys: each selected key under which it finds a value, once, with
/// that value, in the order of the keys.
pub open spec fn is_scan(
    out: Seq<(Seq<u8>, Seq<u8>)>,
    h: History,
    snapshot: SeqNo,
    selection: Selection,
) -> bool {
    &&& forall|i: int, j: int|
        0 <= i < j < out.len() ==> key_lt((#[trigger] out[i]).0, (#[trigger] out[j]).0)
    &&& forall|i: int|
        0 <= i < out.len() ==> selection.selects((#[trigger] out[i]).0) && visible(
            h,
            out[i].0,
            snapshot,
        ) == Some(out[i].1)
    &&& forall|key: Seq<u8>|
        selection.selects(key) && (#[trigger] visible(h, key, snapshot)) is Some ==> has_key(
            out,
            key,
        )
}

/// Whether one of the pairs has the key `key`.
pub open spec fn has_key(pairs: Seq<(Seq<u8>, Seq<u8>)>, key: Seq<u8>) -> bool {
    exists|a: int| 0 <= a < pairs.len() && (#[trigger] pairs[a]).0 == key
}

/// Whether one of the first `i` items of `s` has the key `key` and is the
/// first of that key that a reader at `snapshot` sees.
pub open spec fn has_head(s: Seq<ValueView>, snapshot: SeqNo, i: int, key: Seq<u8>) -> bool {
    exists|k: int| 0 <= k < i && (#[trigger] s[k]).key == key && is_head(s, snapshot, k)
}

/// In a sorted sequence the items of one key stand together.
proof fn lemma_same_key_between(s: Seq<ValueView>, i: int, m: int, j: int)
    requires
        is_sorted(s),
        0 <= i <= m <= j < s.len(),
        s[i].key == s[j].key,
    ensures
        s[m].key == s[i].key,
        s[i].seqno >= s[m].seqno >= s[j].seqno,
{
    if i < m {
        assert(version_lt(s[i].id(), s[m].id()));
    }
    if m < j {
        assert(version_lt(s[m].id(), s[j].id()));
    }
    if i < m && m < j {
        if key_lt(s[i].key, s[m].key) {
            if key_lt(s[m].key, s[j].key) {
                lemma_key_lt_transitive(s[i].key, s[m].key, s[j].key);
            }
            lemma_key_lt_asymmetric(s[i].key, s[m].key);
        }
        if key_lt(s[m].key, s[j].key) {
            lemma_key_lt_asymmetric(s[m].key, s[j].key);
        }
    } else if i < m {
        if key_lt(s[i].key, s[m].key) {
            lemma_key_lt_asymmetric(s[i].key, s[m].key);
        }
    } else if m < j {
        if key_lt(s[m].key, s[j].key) {
            lemma_key_lt_asymmetric(s[m].key, s[j].key);
        }
    }
}

/// Whether the item at position `i` of a sorted sequence is the first of its
/// key that a reader at `snapshot` sees.
pub open spec fn is_head(s: Seq<ValueView>, snapshot: SeqNo, i: int) -> bool {
    &&& s[i].seqno <= snapshot
    &&& i > 0 ==> s[i - 1].key != s[i].key || s[i - 1].seqno > snapshot
}

/// The first item of a key that a reader sees is the newest version that it sees.
proof fn lemma_head_is_newest(s: Seq<ValueView>, snapshot: SeqNo, i: int)
    requires
        is_sorted(s),
        0 <= i < s.len(),
    ensures
        is_head(s, snapshot, i) <==> newest(versions(s), s[i].key, snapshot) == Some(s[i].seqno),
{
    let h = versions(s);
    let key = s[i].key;
    lemma_versions_at(s, i);
    if is_head(s, snapshot, i) {
        assert forall|q: SeqNo| q <= snapshot && #[trigger] h.contains_key((key, q)) implies q
            <= s[i].seqno by {
            let j = lemma_versions_index(s, (key, q));
            if j < i {
                lemma_same_key_between(s, j, i - 1, i);
            } else if j > i {
                lemma_same_key_between(s, i, i, j);
            }
        }
        lemma_newest_is(h, key, snapshot, s[i].seqno);
    }
    if newest(h, key, snapshot) == Some(s[i].seqno) {
        lemma_newest_some(h, key, snapshot);
        if i > 0 && s[i - 1].key == key && s[i - 1].seqno <= snapshot {
            lemma_versions_at(s, i - 1);
            assert(h.contains_key((key, s[i - 1].seqno)));
            assert(version_lt(s[i - 1].id(), s[i].id()));
            if key_lt(key, key) {
                lemma_key_lt_asymmetric(key, key);
            }
        }
    }
}

/// Gathers what a reader at `snapshot` sees of a memtable among the selected keys.
pub fn scan(table: &MemTable, snapshot: SeqNo, selection: &Selection) -> (r: Vec<
    (UserKey, UserValue),
>)
    requires
        table.wf(),
    ensures
        is_scan(pair_views(r@), table.versions(), snapshot, *selection),
{
    let mut out: Vec<(UserKey, UserValue)> = Vec::new();
    let n = table.len();
    let ghost s = table@;
    let ghost h = table.versions();
    let mut i: usize = 0;
    // Whether the item before position `i` has the key of the item at `i - 1`
    // and is seen by the reader.
    let mut seen_before: bool = false;
    proof {
        table.lemma_sorted();
        assert(pair_views(out@) =~= Seq::empty());
    }
    while i < n
        invariant
            i <= n,
            n == s.len(),
            s == table@,
            h == versions(s),
            is_sorted(s),
            table.wf(),
            i > 0 ==> seen_before == (s[i - 1].seqno <= snapshot),
            forall|a: int, b: int|
                0 <= a < b < out@.len() ==> key_lt(
                    (#[trigger] pair_views(out@)[a]).0,
                    (#[trigger] pair_views(out@)[b]).0,
                ),
            forall|a: int|
                0 <= a < out@.len() ==> selection.selects((#[trigger] pair_views(out@)[a]).0)
                    && visible(h, pair_views(out@)[a].0, snapshot) == Some(pair_views(out@)[a].1),
            forall|a: int|
                0 <= a < out@.len() ==> has_head(
                    s,
                    snapshot,
                    i as int,
                    (#[trigger] pair_views(out@)[a]).0,
                ),
            forall|k: int|
                0 <= k < i && is_head(s, snapshot, k) && (#[trigger] s[k]).value_type
                    == ValueType::Value && selection.selects(s[k].key) ==> has_key(
                    pair_views(out@),
                    s[k].key,
                ),
        decreases n - i,
    {
        let item = table.item(i);
        let same_key = i > 0 && matches!(
            compare_keys(table.item(i - 1).key.as_slice(), item.key.as_slice()),
            KeyOrder::Equal
        );
        let head = item.seqno <= snapshot && !(same_key && seen_before);
        assert(head == is_head(s, snapshot, i as int));
        let ghost before = pair_views(out@);
        if head && item.value_type == ValueType::Value && selection.contains(item.key.as_slice()) {
            proof {
                lemma_head_is_newest(s, snapshot, i as int);
                lemma_versions_at(s, i as int);
            }
            out.push(
                (
                    vstd::slice::slice_to_vec(item.key.as_slice()),
                    vstd::slice::slice_to_vec(item.value.as_slice()),
                ),
            );
            proof {
                let after = pair_views(out@);
                assert(after =~= before.push((item@.key, item@.value)));
                assert forall|a: int, b: int| 0 <= a < b < after.len() implies key_lt(
                    (#[trigger] after[a]).0,
                    (#[trigger] after[b]).0,
                ) by {
                    if b == after.len() - 1 {
                        assert(after[a] == before[a]);
                        assert(has_head(s, snapshot, i as int, before[a].0));
                        let k = choose|k: int|
                            0 <= k < i && (#[trigger] s[k]).key == before[a].0 && is_head(
                                s,
                                snapshot,
                                k,
                            );
                        assert(version_lt(s[k].id(), s[i as int].id()));
                        if s[k].key == s[i as int].key {
                            lemma_same_key_between(s, k, i - 1, i as int);
                        }
                    } else {
                        assert(after[a] == before[a]);
                        assert(after[b] == before[b]);
                    }
                }
                assert forall|a: int| 0 <= a < after.len() implies has_head(
                    s,
                    snapshot,
                    i + 1,
                    (#[trigger] after[a]).0,
                ) by {
                    if a < before.len() {
                        assert(after[a] == before[a]);
                        assert(has_head(s, snapshot, i as int, before[a].0));
                        let k = choose|k: int|
                            0 <= k < i && (#[trigger] s[k]).key == before[a].0 && is_head(
                                s,
                                snapshot,
                                k,
                            );
                        assert(s[k].key == after[a].0);
                    } else {
                        assert(s[i as int].key == after[a].0);
                    }
                }
                assert forall|k: int|
                    0 <= k < i + 1 && is_head(s, snapshot, k) && (#[trigger] s[k]).value_type
                        == ValueType::Value && selection.selects(s[k].key) implies has_key(
                    after,
                    s[k].key,
                ) by {
                    if k < i {
                        assert(has_key(before, s[k].key));
                        let a = choose|a: int|
                            0 <= a < before.len() && (#[trigger] before[a]).0 == s[k].key;
                        assert(after[a] == before[a]);
                    } else {
                        assert(after[after.len() - 1].0 == s[k].key);
                    }
                }
                assert forall|a: int| 0 <= a < after.len() implies selection.selects(
                    (#[trigger] after[a]).0,
                ) && visible(h, after[a].0, snapshot) == Some(after[a].1) by {
                    if a < before.len() {
                        assert(after[a] == before[a]);
                    }
                }
            }
        } else {
            proof {
                assert forall|a: int| 0 <= a < out@.len() implies has_head(
                    s,
                    snapshot,
                    i + 1,
                    (#[trigger] before[a]).0,
                ) by {
                    assert(has_head(s, snapshot, i as int, before[a].0));
                    let k = choose|k: int|
                        0 <= k < i && (#[trigger] s[k]).key == before[a].0 && is_head(
                            s,
                            snapshot,
                            k,
                        );
                    assert(s[k].key == before[a].0);
                }
            }
        }
        seen_before = item.seqno <= snapshot;
        i += 1;
    }
    proof {
        let pairs = pair_views(out@);
        assert forall|key: Seq<u8>|
            selection.selects(key) && (#[trigger] visible(h, key, snapshot)) is Some implies has_key(
            pairs,
            key,
        ) by {
            let q = newest(h, key, snapshot)->0;
            lemma_newest_some(h, key, snapshot);
            let k = lemma_versions_index(s, (key, q));
            lemma_head_is_newest(s, snapshot, k);
            lemma_versions_at(s, k);
        }
    }
    out
}

/// The keys among the selected ones under which a reader at `snapshot` finds a value.
pub open spec fn visible_keys(h: History, snapshot: SeqNo, selection: Selection) -> Set<Seq<u8>> {
    Set::new(|key: Seq<u8>| selection.selects(key) && visible(h, key, snapshot) is Some)
}

/// The keys of a list of pairs.
pub open spec fn keys_of(pairs: Seq<(Seq<u8>, Seq<u8>)>) -> Seq<Seq<u8>> {
    pairs.map_values(|p: (Seq<u8>, Seq<u8>)| p.0)
}

/// A scan has one pair for each key under which the reader finds a value:
/// there are finitely many such keys, and as many as the scan has pairs.
pub proof fn lemma_scan_len(
    out: Seq<(Seq<u8>, Seq<u8>)>,
    h: History,
    snapshot: SeqNo,
    selection: Selection,
)
    requires
        is_scan(out, h, snapshot, selection),
    ensures
        visible_keys(h, snapshot, selection).finite(),
        visible_keys(h, snapshot, selection).len() == out.len(),
        keys_of(out).no_duplicates(),
        keys_of(out).to_set() == visible_keys(h, snapshot, selection),
{
    let keys = keys_of(out);
    assert forall|i: int, j: int| 0 <= i < keys.len() && 0 <= j < keys.len() && i != j implies keys[i]
        != keys[j] by {
        if i < j {
            assert(key_lt(out[i].0, out[j].0));
            lemma_key_lt_asymmetric(out[i].0, out[j].0);
        } else {
            assert(key_lt(out[j].0, out[i].0));
            lemma_key_lt_asymmetric(out[j].0, out[i].0);
        }
    }
    let set = visible_keys(h, snapshot, selection);
    assert forall|key: Seq<u8>| keys.to_set().contains(key) <==> set.contains(key) by {
        if keys.to_set().contains(key) {
            let i = choose|i: int| 0 <= i < keys.len() && keys[i] == key;
            assert(out[i].0 == key);
        }
        if set.contains(key) {
            assert(has_key(out, key));
            let a = choose|a: int| 0 <= a < out.len() && (#[trigger] out[a]).0 == key;
            assert(keys[a] == key);
        }
    }
    assert(keys.to_set() =~= set);
    keys.unique_seq_to_set();
    vstd::seq_lib::seq_to_set_is_finite(keys);
}

/// Two scans of the same history, at the same sequence number and with the
/// same selection, are the same.
pub proof fn lemma_scan_unique(
    a: Seq<(Seq<u8>, Seq<u8>)>,
    b: Seq<(Seq<u8>, Seq<u8>)>,
    h: History,
    snapshot: SeqNo,
    selection: Selection,
)
    requires
        is_scan(a, h, snapshot, selection),
        is_scan(b, h, snapshot, selection),
    ensures
        a == b,
{
    lemma_scan_len(a, h, snapshot, selection);
    lemma_scan_len(b, h, snapshot, selection);
    assert(a.len() == b.len());
    lemma_scan_prefix(a, b, h, snapshot, selection, a.len() as int);
    assert(a =~= b);
}

/// Two scans of the same history agree on their first `n` pairs.
proof fn lemma_scan_prefix(
    a: Seq<(Seq<u8>, Seq<u8>)>,
    b: Seq<(Seq<u8>, Seq<u8>)>,
    h: History,
    snapshot: SeqNo,
    selection: Selection,
    n: int,
)
    requires
        is_scan(a, h, snapshot, selection),
        is_scan(b, h, snapshot, selection),
        a.len() == b.len(),
        0 <= n <= a.len(),
    ensures
        forall|i: int| 0 <= i < n ==> a[i] == b[i],
    decreases n,
{
    if n > 0 {
        lemma_scan_prefix(a, b, h, snapshot, selection, n - 1);
        let k = n - 1;
        // The key of `a[k]` stands in `b`, and that of `b[k]` in `a`; neither
        // can stand before `k`, where the two agree, so neither after it.
        assert(has_key(b, a[k].0));
        let j = choose|j: int| 0 <= j < b.len() && (#[trigger] b[j]).0 == a[k].0;
        assert(has_key(a, b[k].0));
        let i = choose|i: int| 0 <= i < a.len() && (#[trigger] a[i]).0 == b[k].0;
        if j < k {
            assert(a[j] == b[j]);
            assert(key_lt(a[j].0, a[k].0));
            lemma_key_lt_asymmetric(a[j].0, a[k].0);
        }
        if i < k {
            assert(a[i] == b[i]);
            assert(key_lt(b[i].0, b[k].0));
            lemma_key_lt_asymmetric(b[i].0, b[k].0);
        }
        if j > k && i > k {
            assert(key_lt(b[k].0, b[j].0));
            assert(key_lt(a[k].0, a[i].0));
            lemma_key_lt_asymmetric(b[k].0, b[j].0);
        } else if j > k {
            assert(key_lt(b[k].0, b[j].0));
            lemma_key_lt_asymmetric(b[k].0, b[j].0);
        } else if i > k {
            assert(key_lt(a[k].0, a[i].0));
            lemma_key_lt_asymmetric(a[k].0, a[i].0);
        }
        assert(a[k].0 == b[k].0);
        assert(a[k] == b[k]);
    }
}

/// The keys under which a reader at `snapshot` finds a value.
pub open spec fn live_keys(h: History, snapshot: SeqNo) -> Set<Seq<u8>> {
    Set::new(|key: Seq<u8>| visible(h, key, snapshot) is Some)
}

/// `r` is the pair with the lowest key that a reader at `snapshot` sees, or
/// `None` where it sees no pair.
pub open spec fn is_first(h: History, snapshot: SeqNo, r: Option<(Seq<u8>, Seq<u8>)>) -> bool {
    match r {
        Some(pair) => {
            &&& visible(h, pair.0, snapshot) == Some(pair.1)
            &&& forall|key: Seq<u8>|
                (#[trigger] visible(h, key, snapshot)) is Some ==> !key_lt(key, pair.0)
        },
        None => forall|key: Seq<u8>| (#[trigger] visible(h, key, snapshot)) is None,
    }
}

/// `r` is the pair with the highest key that a reader at `snapshot` sees, or
/// `None` where it sees no pair.
pub open spec fn is_last(h: History, snapshot: SeqNo, r: Option<(Seq<u8>, Seq<u8>)>) -> bool {
    match r {
        Some(pair) => {
            &&& visible(h, pair.0, snapshot) == Some(pair.1)
            &&& forall|key: Seq<u8>|
                (#[trigger] visible(h, key, snapshot)) is Some ==> !key_lt(pair.0, key)
        },
        None => forall|key: Seq<u8>| (#[trigger] visible(h, key, snapshot)) is None,
    }
}

/// The mathematical value of a pair that may be missing.
pub open spec fn option_pair_view(r: Option<(UserKey, UserValue)>) -> Option<
    (Seq<u8>, Seq<u8>),
> {
    match r {
        Some(pair) => Some((pair.0@, pair.1@)),
        None => None,
    }
}

/// The first and the last pair of a scan of all keys are the pairs with the
/// lowest and the highest key that the reader sees, and the scan has as many
/// pairs as there are keys under which the reader finds a value.
pub proof fn lemma_scan_all(
    out: Seq<(Seq<u8>, Seq<u8>)>,
    h: History,
    snapshot: SeqNo,
    selection: Selection,
)
    requires
        is_scan(out, h, snapshot, selection),
        forall|key: Seq<u8>| selection.selects(key),
    ensures
        is_first(
            h,
            snapshot,
            if out.len() > 0 {
                Some(out.first())
            } else {
                None
            },
        ),
        is_last(
            h,
            snapshot,
            if out.len() > 0 {
                Some(out.last())
            } else {
                None
            },
        ),
        live_keys(h, snapshot).finite(),
        live_keys(h, snapshot).len() == out.len(),
{
    lemma_scan_len(out, h, snapshot, selection);
    assert(live_keys(h, snapshot) =~= visible_keys(h, snapshot, selection));
    assert forall|key: Seq<u8>| (#[trigger] visible(h, key, snapshot)) is Some implies out.len() > 0
        && !key_lt(key, out.first().0) && !key_lt(out.last().0, key) by {
        assert(has_key(out, key));
        let a = choose|a: int| 0 <= a < out.len() && (#[trigger] out[a]).0 == key;
        if a > 0 {
            assert(key_lt(out[0].0, out[a].0));
            lemma_key_lt_asymmetric(out[0].0, key);
        } else if key_lt(key, key) {
            lemma_key_lt_asymmetric(key, key);
        }
        if a < out.len() - 1 {
            assert(key_lt(out[a].0, out[out.len() - 1].0));
            lemma_key_lt_asymmetric(key, out.last().0);
        } else if key_lt(key, key) {
            lemma_key_lt_asymmetric(key, key);
        }
    }
}

/// Taking the pairs of a scan from the back yields the pairs that taking
/// them from the front yields, in the opposite order.
pub proof fn lemma_backward_is_forward(pairs: Seq<(Seq<u8>, Seq<u8>)>)
    ensures
        pairs.reverse().reverse() == pairs,
        pairs.reverse().len() == pairs.len(),
        pairs.reverse().to_set() == pairs.to_set(),
{
    let back = pairs.reverse();
    assert(back.reverse() =~= pairs);
    assert forall|p: (Seq<u8>, Seq<u8>)| back.to_set().contains(p) <==> pairs.to_set().contains(
        p,
    ) by {
        if back.contains(p) {
            let i = choose|i: int| 0 <= i < back.len() && back[i] == p;
            assert(pairs[pairs.len() - 1 - i] == p);
        }
        if pairs.contains(p) {
            let i = choose|i: int| 0 <= i < pairs.len() && pairs[i] == p;
            assert(back[back.len() - 1 - i] == p);
        }
    }
    assert(back.to_set() =~= pairs.to_set());
}

/// What a scan yields: pairs of key and value in the order of their keys,
/// which can be taken from both ends.
#[derive(Debug)]
pub struct Range {
    items: Vec<(UserKey, UserValue)>,
    front: usize,
    back: usize,
}

impl View for Range {
    type V = Seq<(Seq<u8>, Seq<u8>)>;

    /// The pairs that have not been taken yet.
    closed spec fn view(&self) -> Seq<(Seq<u8>, Seq<u8>)> {
        pair_views(self.items@).subrange(self.front as int, self.back as int)
    }
}

impl Range {
    /// What has been taken from the two ends leaves a stretch of the pairs.
    pub closed spec fn wf(&self) -> bool {
        self.front <= self.back <= self.items@.len()
    }

    /// A range that yields the pairs of `items`.
    pub fn new(items: Vec<(UserKey, UserValue)>) -> (r: Self)
        ensures
            r.wf(),
            r@ == pair_views(items@),
    {
        let back = items.len();
        let r = Range { items, front: 0, back };
        assert(r@ =~= pair_views(items@));
        r
    }

    /// The number of pairs that have not been taken yet.
    pub fn len(&self) -> (r: usize)
        requires
            self.wf(),
        ensures
            r == self@.len(),
    {
        self.back - self.front
    }

    /// Takes the pair with the lowest key.
    pub fn next(&mut self) -> (r: Option<(UserKey, UserValue)>)
        requires
            old(self).wf(),
        ensures
            final(self).wf(),
            match r {
                Some(pair) => old(self)@.len() > 0 && (pair.0@, pair.1@) == old(self)@.first()
                    && final(self)@ == old(self)@.drop_first(),
                None => old(self)@.len() == 0 && final(self)@ == old(self)@,
            },
    {
        if self.front == self.back {
            None
        } else {
            let pair = &self.items[self.front];
            let r = (
                vstd::slice::slice_to_vec(pair.0.as_slice()),
                vstd::slice::slice_to_vec(pair.1.as_slice()),
            );
            self.front = self.front + 1;
            assert(self@ =~= old(self)@.drop_first());
            Some(r)
        }
    }

    /// Takes the pair with the highest key.
    pub fn next_back(&mut self) -> (r: Option<(UserKey, UserValue)>)
        requires
            old(self).wf(),
        ensures
            final(self).wf(),
            match r {
                Some(pair) => old(self)@.len() > 0 && (pair.0@, pair.1@) == old(self)@.last()
                    && final(self)@ == old(self)@.drop_last(),
                None => old(self)@.len() == 0 && final(self)@ == old(self)@,
            },
    {
        if self.front == self.back {
            None
        } else {
            let pair = &self.items[self.back - 1];
            let r = (
                vstd::slice::slice_to_vec(pair.0.as_slice()),
                vstd::slice::slice_to_vec(pair.1.as_slice()),
            );
            self.back = self.back - 1;
            assert(self@ =~= old(self)@.drop_last());
            Some(r)
        }
    }

    /// Takes all pairs, the lowest key first.
    pub fn collect(self) -> (r: Vec<(UserKey, UserValue)>)
        requires
            self.wf(),
        ensures
            pair_views(r@) == self@,
    {
        let mut range = self;
        let mut out: Vec<(UserKey, UserValue)> = Vec::new();
        assert(pair_views(out@) =~= Seq::empty());
        loop
            invariant
                range.wf(),
                pair_views(out@) + range@ == self@,
            ensures
                pair_views(out@) == self@,
            decreases range@.len(),
        {
            let ghost before = pair_views(out@);
            let ghost rest = range@;
            match range.next() {
                Some(pair) => {
                    out.push(pair);
                    assert(pair_views(out@) =~= before.push(rest.first()));
                    assert(before.push(rest.first()) + rest.drop_first() =~= before + rest);
                },
                None => {
                    assert(before + rest =~= before);
                    break ;
                },
            }
        }
        out
    }

    /// Takes all pairs, the highest key first.
    pub fn collect_rev(self) -> (r: Vec<(UserKey, UserValue)>)
        requires
            self.wf(),
        ensures
            pair_views(r@) == self@.reverse(),
    {
        let mut range = self;
        let mut out: Vec<(UserKey, UserValue)> = Vec::new();
        let ghost all = self@;
        proof {
            assert(pair_views(out@) =~= all.reverse().take(0));
            assert(range@ =~= all.take(all.len() as int));
        }
        loop
            invariant
                range.wf(),
                all == self@,
                out@.len() <= all.len(),
                range@ == all.take(all.len() - out@.len()),
                pair_views(out@) == all.reverse().take(out@.len() as int),
            ensures
                pair_views(out@) == all.reverse(),
            decreases range@.len(),
        {
            let ghost before = pair_views(out@);
            let ghost k = out@.len() as int;
            match range.next_back() {
                Some(pair) => {
                    out.push(pair);
                    proof {
                        assert(pair_views(out@) =~= before.push(all[all.len() - 1 - k]));
                        assert(pair_views(out@) =~= all.reverse().take(k + 1));
                        assert(range@ =~= all.take(all.len() - k - 1));
                    }
                },
                None => {
                    assert(before =~= all.reverse());
                    break ;
                },
            }
        }
        out
    }
}

} // verus!

//! Keys, values and the order in which a tree holds them.

use vstd::prelude::*;

verus! {

/// A user key: any byte string of at most [`MAX_KEY_LEN`] bytes.
pub type UserKey = Vec<u8>;

/// A user value: any byte string of at most [`MAX_VALUE_LEN`] bytes.
pub type UserValue = Vec<u8>;

/// A sequence number. Every mutation of a keyspace gets one of its own.
pub type SeqNo = u64;

/// The longest key that can be stored.
pub const MAX_KEY_LEN: usize = 65536;

/// The longest value that can be stored.
pub const MAX_VALUE_LEN: u64 = 4294967296;

/// What a stored item says of its key.
#[derive(Clone, Copy, Debug, PartialEq, Eq, Structural)]
pub enum ValueType {
    /// The key has the item's value.
    Value,
    /// The key is deleted.
    Tombstone,
}

/// The outcome of comparing two keys.
#[derive(Clone, Copy, Debug, PartialEq, Eq, Structural)]
pub enum KeyOrder {
    Less,
    Equal,
    Greater,
}

/// One version of one key.
#[derive(Debug)]
pub struct Value {
    pub key: UserKey,
    pub value: UserValue,
    pub seqno: SeqNo,
    pub value_type: ValueType,
}

/// What is stored under a key and a sequence number.
pub struct Stored {
    pub value: Seq<u8>,
    pub value_type: ValueType,
}

/// The mathematical value of a [`Value`].
pub struct ValueView {
    pub key: Seq<u8>,
    pub value: Seq<u8>,
    pub seqno: SeqNo,
    pub value_type: ValueType,
}

impl ValueView {
    pub open spec fn stored(self) -> Stored {
        Stored { value: self.value, value_type: self.value_type }
    }

    pub open spec fn id(self) -> (Seq<u8>, SeqNo) {
        (self.key, self.seqno)
    }
}

impl View for Value {
    type V = ValueView;

    open spec fn view(&self) -> ValueView {
        ValueView {
            key: self.key@,
            value: self.value@,
            seqno: self.seqno,
            value_type: self.value_type,
        }
    }
}

/// The mathematical value of an item that may be missing.
pub open spec fn option_view(r: Option<&Value>) -> Option<ValueView> {
    match r {
        Some(v) => Some(v@),
        None => None,
    }
}

/// `a` and `b` agree on their first `k` bytes, and at position `k` either `a`
/// ends while `b` goes on, or `a` has the smaller byte.
pub open spec fn precedes_at(a: Seq<u8>, b: Seq<u8>, k: int) -> bool {
    &&& 0 <= k <= a.len()
    &&& k <= b.len()
    &&& forall|j: int| 0 <= j < k ==> a[j] == b[j]
    &&& k < b.len()
    &&& k < a.len() ==> a[k] < b[k]
}

/// The order of keys: byte by byte, a proper prefix before its extensions.
pub open spec fn key_lt(a: Seq<u8>, b: Seq<u8>) -> bool {
    exists|k: int| #[trigger] precedes_at(a, b, k)
}

/// The order of the versions held in a tree: by key, and under one key the
/// higher sequence number first.
pub open spec fn version_lt(a: (Seq<u8>, SeqNo), b: (Seq<u8>, SeqNo)) -> bool {
    key_lt(a.0, b.0) || (a.0 == b.0 && a.1 > b.1)
}

/// No key comes before itself, and of two keys at most one comes before the other.
pub proof fn lemma_key_lt_asymmetric(a: Seq<u8>, b: Seq<u8>)
    requires
        key_lt(a, b),
    ensures
        !key_lt(b, a),
        a != b,
{
    let k = choose|k: int| #[trigger] precedes_at(a, b, k);
    if key_lt(b, a) {
        let m = choose|m: int| #[trigger] precedes_at(b, a, m);
        if k < m {
            assert(b[k] == a[k]);
        } else if m < k {
            assert(a[m] == b[m]);
        }
    }
}

/// The order of keys is transitive.
pub proof fn lemma_key_lt_transitive(a: Seq<u8>, b: Seq<u8>, c: Seq<u8>)
    requires
        key_lt(a, b),
        key_lt(b, c),
    ensures
        key_lt(a, c),
{
    let k = choose|k: int| #[trigger] precedes_at(a, b, k);
    let m = choose|m: int| #[trigger] precedes_at(b, c, m);
    let n = if k <= m {
        k
    } else {
        m
    };
    assert forall|j: int| 0 <= j < n implies a[j] == c[j] by {
        assert(a[j] == b[j]);
        assert(b[j] == c[j]);
    }
    if k < m {
        assert(b[k] == c[k]);
    } else if m < k {
        assert(a[m] == b[m]);
    }
    assert(precedes_at(a, c, n));
}

/// Of two different keys one comes before the other.
pub proof fn lemma_key_lt_total(a: Seq<u8>, b: Seq<u8>)
    ensures
        a == b || key_lt(a, b) || key_lt(b, a),
{
    lemma_key_lt_total_from(a, b, 0);
}

proof fn lemma_key_lt_total_from(a: Seq<u8>, b: Seq<u8>, k: int)
    requires
        0 <= k <= a.len(),
        k <= b.len(),
        forall|j: int| 0 <= j < k ==> a[j] == b[j],
    ensures
        a == b || key_lt(a, b) || key_lt(b, a),
    decreases a.len() - k,
{
    if k == a.len() && k == b.len() {
        assert(a =~= b);
    } else if k == a.len() {
        assert(precedes_at(a, b, k));
    } else if k == b.len() {
        assert(precedes_at(b, a, k));
    } else if a[k] < b[k] {
        assert(precedes_at(a, b, k));
    } else if b[k] < a[k] {
        assert(precedes_at(b, a, k));
    } else {
        lemma_key_lt_total_from(a, b, k + 1);
    }
}

/// The order of versions is strict.
pub proof fn lemma_version_lt_asymmetric(a: (Seq<u8>, SeqNo), b: (Seq<u8>, SeqNo))
    requires
        version_lt(a, b),
    ensures
        !version_lt(b, a),
        a != b,
{
    if key_lt(a.0, b.0) {
        lemma_key_lt_asymmetric(a.0, b.0);
    }
    if key_lt(b.0, a.0) {
        lemma_key_lt_asymmetric(b.0, a.0);
    }
}

/// The order of versions is transitive.
pub proof fn lemma_version_lt_transitive(
    a: (Seq<u8>, SeqNo),
    b: (Seq<u8>, SeqNo),
    c: (Seq<u8>, SeqNo),
)
    requires
        version_lt(a, b),
        version_lt(b, c),
    ensures
        version_lt(a, c),
{
    if key_lt(a.0, b.0) && key_lt(b.0, c.0) {
        lemma_key_lt_transitive(a.0, b.0, c.0);
    }
}

/// Of two different versions one comes before the other.
pub proof fn lemma_version_lt_total(a: (Seq<u8>, SeqNo), b: (Seq<u8>, SeqNo))
    ensures
        a == b || version_lt(a, b) || version_lt(b, a),
{
    lemma_key_lt_total(a.0, b.0);
}

/// Compares two keys byte by byte.
pub fn compare_keys(a: &[u8], b: &[u8]) -> (r: KeyOrder)
    ensures
        r is Less <==> key_lt(a@, b@),
        r is Equal <==> a@ == b@,
        r is Greater <==> key_lt(b@, a@),
{
    let mut i: usize = 0;
    while i < a.len() && i < b.len()
        invariant
            i <= a.len(),
            i <= b.len(),
            forall|j: int| 0 <= j < i ==> a@[j] == b@[j],
        decreases a.len() - i,
    {
        if a[i] < b[i] {
            proof {
                assert(precedes_at(a@, b@, i as int));
                lemma_key_lt_asymmetric(a@, b@);
            }
            return KeyOrder::Less;
        }
        if a[i] > b[i] {
            proof {
                assert(precedes_at(b@, a@, i as int));
                lemma_key_lt_asymmetric(b@, a@);
            }
            return KeyOrder::Greater;
        }
        i += 1;
    }
    if a.len() < b.len() {
        proof {
            assert(precedes_at(a@, b@, i as int));
            lemma_key_lt_asymmetric(a@, b@);
        }
        KeyOrder::Less
    } else if a.len() > b.len() {
        proof {
            assert(precedes_at(b@, a@, i as int));
            lemma_key_lt_asymmetric(b@, a@);
        }
        KeyOrder::Greater
    } else {
        proof {
            assert(a@ =~= b@);
            if key_lt(a@, b@) {
                lemma_key_lt_asymmetric(a@, b@);
            }
        }
        KeyOrder::Equal
    }
}

/// Tells whether the version `(key_a, seqno_a)` is held before `(key_b, seqno_b)`.
pub fn version_before(key_a: &[u8], seqno_a: SeqNo, key_b: &[u8], seqno_b: SeqNo) -> (r: bool)
    ensures
        r == version_lt((key_a@, seqno_a), (key_b@, seqno_b)),
{
    match compare_keys(key_a, key_b) {
        KeyOrder::Less => true,
        KeyOrder::Equal => seqno_a > seqno_b,
        KeyOrder::Greater => false,
    }
}

impl Value {
    /// A new version of `key`.
    pub fn new(key: UserKey, value: UserValue, seqno: SeqNo, value_type: ValueType) -> (r: Self)
        ensures
            r.key == key,
            r.value == value,
            r.seqno == seqno,
            r.value_type == value_type,
    {
        Value { key, value, seqno, value_type }
    }

    /// A copy of this version.
    pub fn duplicate(&self) -> (r: Self)
        ensures
            r@ == self@,
    {
        Value {
            key: vstd::slice::slice_to_vec(self.key.as_slice()),
            value: vstd::slice::slice_to_vec(self.value.as_slice()),
            seqno: self.seqno,
            value_type: self.value_type,
        }
    }
}

} // verus!

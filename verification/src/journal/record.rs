//! The records of a journal and their layout in a journal file.
//!
//! A record is written as one frame: the length of the partition's name in
//! one byte, the name, the length of the key in four bytes, the key, the kind
//! of the value in one byte, the length of the value in eight bytes, the
//! value, the sequence number in eight bytes, and the CRC-32 of all these
//! bytes in four bytes. Numbers are written with their lowest byte first.

use crate::journal::manager::clamp;
use crate::partition::{is_name_char, is_valid_name, PartitionKey, MAX_NAME_LEN};
use crate::value::{SeqNo, UserKey, UserValue, ValueType, ValueView, MAX_KEY_LEN, MAX_VALUE_LEN};
use vstd::bytes::{
    lemma_auto_spec_u32_to_from_le_bytes, lemma_auto_spec_u64_to_from_le_bytes,
    spec_u32_from_le_bytes, spec_u32_to_le_bytes, spec_u64_from_le_bytes, spec_u64_to_le_bytes,
    u32_from_le_bytes, u32_to_le_bytes, u64_from_le_bytes, u64_to_le_bytes,
};
use vstd::prelude::*;
use vstd::slice::{slice_subrange, slice_to_vec};

verus! {

/// The bytes that a record takes besides the partition's name, the key and the value.
pub const FRAME_OVERHEAD: u64 = 26;

/// The byte that a journal file starts with.
pub const JOURNAL_VERSION: u8 = 1;

/// The length of the record of a mutation.
pub open spec fn frame_len(name_len: nat, key_len: nat, value_len: nat) -> int {
    name_len + key_len + value_len + FRAME_OVERHEAD
}

/// Computes [`frame_len`], as far as a `u64` can hold it.
pub fn frame_size(name_len: usize, key_len: usize, value_len: usize) -> (r: u64)
    ensures
        r == clamp(frame_len(name_len as nat, key_len as nat, value_len as nat)),
{
    (name_len as u64).saturating_add(key_len as u64).saturating_add(
        value_len as u64,
    ).saturating_add(FRAME_OVERHEAD)
}

/// The record of one mutation.
#[derive(Debug)]
pub struct JournalRecord {
    pub partition: PartitionKey,
    pub key: UserKey,
    pub value: UserValue,
    pub value_type: ValueType,
    pub seqno: SeqNo,
}

/// The mathematical value of a [`JournalRecord`].
pub struct RecordView {
    pub partition: Seq<char>,
    pub key: Seq<u8>,
    pub value: Seq<u8>,
    pub value_type: ValueType,
    pub seqno: SeqNo,
}

impl View for JournalRecord {
    type V = RecordView;

    open spec fn view(&self) -> RecordView {
        RecordView {
            partition: self.partition@,
            key: self.key@,
            value: self.value@,
            value_type: self.value_type,
            seqno: self.seqno,
        }
    }
}

impl JournalRecord {
    /// Tells whether the record can be written to a journal: whether it
    /// names a partition by a valid name, with a key and a value that are no
    /// longer than a key and a value may be.
    pub fn is_valid(&self) -> (r: bool)
        ensures
            r == self@.is_valid(),
    {
        crate::partition::check_name(self.partition.as_str()) && self.key.len() <= MAX_KEY_LEN
            && self.value.len() as u64 <= MAX_VALUE_LEN
    }
}

impl RecordView {
    /// The record names a partition by a valid name, and its key and value
    /// are no longer than a key and a value may be.
    pub open spec fn is_valid(self) -> bool {
        &&& is_valid_name(self.partition)
        &&& self.key.len() <= MAX_KEY_LEN
        &&& self.value.len() <= MAX_VALUE_LEN
    }

    /// The version that the record writes.
    pub open spec fn version(self) -> ValueView {
        ValueView {
            key: self.key,
            value: self.value,
            seqno: self.seqno,
            value_type: self.value_type,
        }
    }

    /// The length of the frame of the record.
    pub open spec fn len(self) -> int {
        frame_len(self.partition.len(), self.key.len(), self.value.len())
    }
}

/// The views of a list of records.
pub open spec fn record_views(s: Seq<JournalRecord>) -> Seq<RecordView> {
    s.map_values(|r: JournalRecord| r@)
}

/// The CRC-32 of `bytes`, as the crate `crc32fast` computes it.
pub uninterp spec fn crc32(bytes: Seq<u8>) -> u32;

/// Computes the CRC-32 of `bytes` with `crc32fast::hash`.
#[verifier::external_body]
fn checksum(bytes: &[u8]) -> (r: u32)
    ensures
        r == crc32(bytes@),
{
    crc32fast::hash(bytes)
}

/// The bytes of a name.
pub open spec fn name_bytes(name: Seq<char>) -> Seq<u8> {
    name.map_values(|c: char| c as u8)
}

/// The name that bytes spell.
pub open spec fn bytes_name(bytes: Seq<u8>) -> Seq<char> {
    bytes.map_values(|b: u8| b as char)
}

/// The byte that stands for a kind of value.
pub open spec fn kind_byte(t: ValueType) -> u8 {
    match t {
        ValueType::Value => 0,
        ValueType::Tombstone => 1,
    }
}

/// The frame of a record without its checksum.
pub open spec fn body(r: RecordView) -> Seq<u8> {
    seq![r.partition.len() as u8] + name_bytes(r.partition) + spec_u32_to_le_bytes(
        r.key.len() as u32,
    ) + r.key + seq![kind_byte(r.value_type)] + spec_u64_to_le_bytes(r.value.len() as u64)
        + r.value + spec_u64_to_le_bytes(r.seqno)
}

/// A body with the checksum `crc` behind it.
pub open spec fn sealed(body: Seq<u8>, crc: u32) -> Seq<u8> {
    body + spec_u32_to_le_bytes(crc)
}

/// The frame of a record.
pub open spec fn frame(r: RecordView) -> Seq<u8> {
    sealed(body(r), crc32(body(r)))
}

/// What the bytes at the start of `b` are.
pub enum Parsed {
    /// The frame of this record, which takes this many bytes.
    Record(RecordView, int),
    /// The start of a frame whose end is missing.
    Truncated,
    /// A frame of this many bytes whose checksum, name or kind is wrong.
    Damaged(int),
    /// Bytes that give a key or a value a length that none can have.
    Garbled,
}

/// Reads the bytes at the start of `b` as a frame.
pub open spec fn parse(b: Seq<u8>) -> Parsed {
    if b.len() < 1 {
        Parsed::Truncated
    } else {
        let n = b[0] as int;
        if b.len() < 5 + n {
            Parsed::Truncated
        } else {
            let k = spec_u32_from_le_bytes(b.subrange(1 + n, 5 + n)) as int;
            if k > MAX_KEY_LEN {
                Parsed::Garbled
            } else if b.len() < 14 + n + k {
                Parsed::Truncated
            } else {
                let v = spec_u64_from_le_bytes(b.subrange(6 + n + k, 14 + n + k)) as int;
                if v > MAX_VALUE_LEN {
                    Parsed::Garbled
                } else {
                    let total = n + k + v + FRAME_OVERHEAD;
                    if b.len() < total {
                        Parsed::Truncated
                    } else {
                        let name = bytes_name(b.subrange(1, 1 + n));
                        let kind = b[5 + n + k];
                        let crc = spec_u32_from_le_bytes(b.subrange(total - 4, total));
                        if crc32(b.take(total - 4)) != crc || kind > 1 || !is_valid_name(name) {
                            Parsed::Damaged(total)
                        } else {
                            Parsed::Record(
                                RecordView {
                                    partition: name,
                                    key: b.subrange(5 + n, 5 + n + k),
                                    value: b.subrange(14 + n + k, 14 + n + k + v),
                                    value_type: if kind == 0 {
                                        ValueType::Value
                                    } else {
                                        ValueType::Tombstone
                                    },
                                    seqno: spec_u64_from_le_bytes(
                                        b.subrange(14 + n + k + v, 22 + n + k + v),
                                    ),
                                },
                                total,
                            )
                        }
                    }
                }
            }
        }
    }
}

/// The byte of a character of a name stands for that character.
pub proof fn lemma_name_char(c: char)
    requires
        is_name_char(c),
    ensures
        (c as u8) as char == c,
        32 <= c as u8 <= 126,
{
    assert(c as int <= 126);
    assert((c as u8) as int == c as int);
}

/// The bytes of a valid name spell the name.
pub proof fn lemma_name_bytes(name: Seq<char>)
    requires
        is_valid_name(name),
    ensures
        bytes_name(name_bytes(name)) == name,
        name_bytes(name).len() == name.len(),
{
    assert forall|i: int| 0 <= i < name.len() implies #[trigger] bytes_name(name_bytes(name))[i]
        == name[i] by {
        assert(is_name_char(name[i]));
        lemma_name_char(name[i]);
    }
    assert(bytes_name(name_bytes(name)) =~= name);
}

/// The frame of a valid record has the length that is counted for it.
pub proof fn lemma_frame_len(r: RecordView)
    requires
        r.is_valid(),
    ensures
        frame(r).len() == r.len(),
        body(r).len() == r.len() - 4,
{
    lemma_auto_spec_u32_to_from_le_bytes();
    lemma_auto_spec_u64_to_from_le_bytes();
}

/// Reading the frame of a valid record gives the record back, whatever follows the frame.
pub proof fn lemma_parse_frame(r: RecordView, rest: Seq<u8>)
    requires
        r.is_valid(),
    ensures
        parse(frame(r) + rest) == Parsed::Record(r, r.len()),
{
    lemma_auto_spec_u32_to_from_le_bytes();
    lemma_auto_spec_u64_to_from_le_bytes();
    lemma_name_bytes(r.partition);
    let b = frame(r) + rest;
    let n = r.partition.len() as int;
    let k = r.key.len() as int;
    let v = r.value.len() as int;
    let total = n + k + v + FRAME_OVERHEAD;
    assert(b[0] == n as u8);
    assert(b.subrange(1, 1 + n) =~= name_bytes(r.partition));
    assert(b.subrange(1 + n, 5 + n) =~= spec_u32_to_le_bytes(k as u32));
    assert(b.subrange(5 + n, 5 + n + k) =~= r.key);
    assert(b[5 + n + k] == kind_byte(r.value_type));
    assert(b.subrange(6 + n + k, 14 + n + k) =~= spec_u64_to_le_bytes(v as u64));
    assert(b.subrange(14 + n + k, 14 + n + k + v) =~= r.value);
    assert(b.subrange(14 + n + k + v, 22 + n + k + v) =~= spec_u64_to_le_bytes(r.seqno));
    assert(b.take(total - 4) =~= body(r));
    assert(b.subrange(total - 4, total) =~= spec_u32_to_le_bytes(crc32(body(r))));
}

/// Reading the start of the frame of a valid record, without its end, finds
/// a frame whose end is missing.
pub proof fn lemma_parse_torn(r: RecordView, cut: int)
    requires
        r.is_valid(),
        0 <= cut < r.len(),
    ensures
        parse(frame(r).take(cut)) == Parsed::Truncated,
{
    lemma_auto_spec_u32_to_from_le_bytes();
    lemma_auto_spec_u64_to_from_le_bytes();
    lemma_name_bytes(r.partition);
    let f = frame(r);
    let b = f.take(cut);
    let n = r.partition.len() as int;
    let k = r.key.len() as int;
    let v = r.value.len() as int;
    if cut >= 1 {
        assert(b[0] == n as u8);
    }
    if cut >= 5 + n {
        assert(b.subrange(1 + n, 5 + n) =~= spec_u32_to_le_bytes(k as u32));
    }
    if cut >= 14 + n + k {
        assert(b.subrange(6 + n + k, 14 + n + k) =~= spec_u64_to_le_bytes(v as u64));
    }
}

/// Appends `src` to `out`.
fn append_bytes(out: &mut Vec<u8>, src: &[u8])
    ensures
        final(out)@ == old(out)@ + src@,
{
    let mut i: usize = 0;
    while i < src.len()
        invariant
            i <= src.len(),
            out@ == old(out)@ + src@.take(i as int),
        decreases src.len() - i,
    {
        out.push(src[i]);
        assert(out@ =~= old(out)@ + src@.take(i + 1));
        i += 1;
    }
    assert(src@.take(i as int) =~= src@);
}

/// Puts the checksum `crc` behind a body.
pub fn seal_frame(body: Vec<u8>, crc: u32) -> (r: Vec<u8>)
    ensures
        r@ == sealed(body@, crc),
{
    let mut out = body;
    let tail = u32_to_le_bytes(crc);
    append_bytes(&mut out, tail.as_slice());
    out
}

/// Writes the frame of a record without its checksum.
pub fn encode_body(record: &JournalRecord) -> (r: Vec<u8>)
    requires
        record@.is_valid(),
    ensures
        r@ == body(record@),
{
    let mut out: Vec<u8> = Vec::new();
    let name = record.partition.as_str();
    let n = name.unicode_len();
    out.push(n as u8);
    let mut i: usize = 0;
    while i < n
        invariant
            i <= n,
            n == record@.partition.len(),
            name@ == record@.partition,
            is_valid_name(record@.partition),
            out@ == seq![n as u8] + name_bytes(record@.partition).take(i as int),
        decreases n - i,
    {
        let c = name.get_char(i);
        assert(is_name_char(record@.partition[i as int]));
        out.push(c as u32 as u8);
        assert(out@ =~= seq![n as u8] + name_bytes(record@.partition).take(i + 1));
        i += 1;
    }
    assert(name_bytes(record@.partition).take(i as int) =~= name_bytes(record@.partition));
    let key_len = u32_to_le_bytes(record.key.len() as u32);
    append_bytes(&mut out, key_len.as_slice());
    append_bytes(&mut out, record.key.as_slice());
    out.push(
        match record.value_type {
            ValueType::Value => 0,
            ValueType::Tombstone => 1,
        },
    );
    let value_len = u64_to_le_bytes(record.value.len() as u64);
    append_bytes(&mut out, value_len.as_slice());
    append_bytes(&mut out, record.value.as_slice());
    let seqno = u64_to_le_bytes(record.seqno);
    append_bytes(&mut out, seqno.as_slice());
    assert(out@ =~= body(record@));
    out
}

/// Writes the frame of a record.
pub fn encode(record: &JournalRecord) -> (r: Vec<u8>)
    requires
        record@.is_valid(),
    ensures
        r@ == frame(record@),
        r@.len() == record@.len(),
{
    let body = encode_body(record);
    let crc = checksum(body.as_slice());
    proof {
        lemma_frame_len(record@);
    }
    seal_frame(body, crc)
}

/// What [`decode`] found.
#[derive(Debug)]
pub enum Decoded {
    /// The frame of this record, which ends at this position.
    Record(JournalRecord, usize),
    /// The start of a frame whose end is missing.
    Truncated,
    /// A frame that ends at this position and whose checksum, name or kind is wrong.
    Damaged(usize),
    /// Bytes that give a key or a value a length that none can have.
    Garbled,
}

impl Decoded {
    /// What was found at position `start`, as [`parse`] puts it.
    pub open spec fn parsed(self, start: int) -> Parsed {
        match self {
            Decoded::Record(record, end) => Parsed::Record(record@, end - start),
            Decoded::Truncated => Parsed::Truncated,
            Decoded::Damaged(end) => Parsed::Damaged(end - start),
            Decoded::Garbled => Parsed::Garbled,
        }
    }
}

/// Tells whether a frame is sound, given the checksum `computed` of its body
/// and the checksum `stored` behind it, the byte of its kind and its name.
pub fn check_frame(computed: u32, stored: u32, kind: u8, name: &[u8]) -> (r: bool)
    ensures
        r == (computed == stored && kind <= 1 && is_valid_name(bytes_name(name@))),
{
    if computed != stored || kind > 1 {
        return false;
    }
    let n = name.len();
    if n < 1 || n > MAX_NAME_LEN {
        return false;
    }
    let mut i: usize = 0;
    while i < n
        invariant
            i <= n,
            n == name@.len(),
            forall|j: int| 0 <= j < i ==> is_name_char(#[trigger] bytes_name(name@)[j]),
        decreases n - i,
    {
        if name[i] < 32 || name[i] > 126 {
            assert(!is_name_char(bytes_name(name@)[i as int]));
            return false;
        }
        i += 1;
    }
    true
}

/// The name that the bytes spell.
fn read_name(bytes: &[u8]) -> (r: String)
    requires
        is_valid_name(bytes_name(bytes@)),
    ensures
        r@ == bytes_name(bytes@),
{
    let mut out = String::new();
    let mut i: usize = 0;
    while i < bytes.len()
        invariant
            i <= bytes.len(),
            is_valid_name(bytes_name(bytes@)),
            out@ == bytes_name(bytes@).take(i as int),
        decreases bytes.len() - i,
    {
        assert(is_name_char(bytes_name(bytes@)[i as int]));
        out.push(bytes[i] as char);
        assert(out@ =~= bytes_name(bytes@).take(i + 1));
        i += 1;
    }
    assert(bytes_name(bytes@).take(i as int) =~= bytes_name(bytes@));
    out
}

/// Reads the bytes from position `start` on as a frame. Behind the end of
/// the bytes stands the start of a frame whose end is missing.
pub fn decode(bytes: &[u8], start: usize) -> (r: Decoded)
    ensures
        start <= bytes@.len() ==> r.parsed(start as int) == parse(bytes@.skip(start as int)),
        start > bytes@.len() ==> r is Truncated,
        r matches Decoded::Record(record, end) ==> start < end <= bytes@.len()
            && record@.is_valid(),
        r matches Decoded::Damaged(end) ==> start < end <= bytes@.len(),
{
    if start > bytes.len() {
        return Decoded::Truncated;
    }
    let ghost b = bytes@.skip(start as int);
    let left: u64 = (bytes.len() - start) as u64;
    if left < 1 {
        return Decoded::Truncated;
    }
    let n: u64 = bytes[start] as u64;
    assert(b[0] == bytes@[start as int]);
    if left < 5 + n {
        return Decoded::Truncated;
    }
    let at_key_len: usize = start + 1 + n as usize;
    let k: u64 = u32_from_le_bytes(slice_subrange(bytes, at_key_len, at_key_len + 4)) as u64;
    assert(bytes@.subrange(at_key_len as int, at_key_len + 4) =~= b.subrange(1 + n, 5 + n));
    if k > MAX_KEY_LEN as u64 {
        return Decoded::Garbled;
    }
    if left < 14 + n + k {
        return Decoded::Truncated;
    }
    let at_kind: usize = at_key_len + 4 + k as usize;
    let v: u64 = u64_from_le_bytes(slice_subrange(bytes, at_kind + 1, at_kind + 9));
    assert(bytes@.subrange(at_kind + 1, at_kind + 9) =~= b.subrange(6 + n + k, 14 + n + k));
    if v > MAX_VALUE_LEN {
        return Decoded::Garbled;
    }
    let total: u64 = n + k + v + FRAME_OVERHEAD;
    if left < total {
        return Decoded::Truncated;
    }
    let end: usize = start + total as usize;
    let at_value: usize = at_kind + 9;
    let at_seqno: usize = at_value + v as usize;
    let name = slice_subrange(bytes, start + 1, at_key_len);
    let kind = bytes[at_kind];
    let stored = u32_from_le_bytes(slice_subrange(bytes, end - 4, end));
    let computed = checksum(slice_subrange(bytes, start, end - 4));
    proof {
        assert(name@ =~= b.subrange(1, 1 + n));
        assert(kind == b[5 + n + k]);
        assert(bytes@.subrange(end - 4, end as int) =~= b.subrange(total - 4, total as int));
        assert(bytes@.subrange(start as int, end - 4) =~= b.take(total - 4));
    }
    if !check_frame(computed, stored, kind, name) {
        return Decoded::Damaged(end);
    }
    let key = slice_subrange(bytes, at_key_len + 4, at_kind);
    let value = slice_subrange(bytes, at_value, at_seqno);
    let seqno = u64_from_le_bytes(slice_subrange(bytes, at_seqno, at_seqno + 8));
    proof {
        assert(key@ =~= b.subrange(5 + n, 5 + n + k));
        assert(value@ =~= b.subrange(14 + n + k, 14 + n + k + v));
        assert(bytes@.subrange(at_seqno as int, at_seqno + 8) =~= b.subrange(
            14 + n + k + v,
            22 + n + k + v,
        ));
    }
    Decoded::Record(
        JournalRecord {
            partition: read_name(name),
            key: slice_to_vec(key),
            value: slice_to_vec(value),
            value_type: if kind == 0 {
                ValueType::Value
            } else {
                ValueType::Tombstone
            },
            seqno,
        },
        end,
    )
}

} // verus!

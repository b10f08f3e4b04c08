use crate::codec::{be_bytes, be_value, lemma_be_bytes_len, lemma_be_value_of_bytes, pow256, Decode, Encode};
use crate::errors::StorageError;
use crate::node::PortHandle;
use vstd::prelude::*;
use vstd::slice::slice_subrange;

verus! {

/// What a node writes down with each commit.
#[derive(Debug, Clone, PartialEq, Eq)]
pub enum MetadataRecord {
    /// Of a source: the read position that it has durably emitted.
    Source { position: u64 },
    /// Of any other node: for each input port the highest upstream offset
    /// that the commit reflects.
    Node { commits: Vec<(PortHandle, u64)> },
}

/// A record as a mathematical value.
pub ghost enum MetadataRecordView {
    Source { position: u64 },
    Node { commits: Seq<(PortHandle, u64)> },
}

impl View for MetadataRecord {
    type V = MetadataRecordView;

    open spec fn view(&self) -> MetadataRecordView {
        match self {
            MetadataRecord::Source { position } => MetadataRecordView::Source {
                position: *position,
            },
            MetadataRecord::Node { commits } => MetadataRecordView::Node { commits: commits@ },
        }
    }
}

/// The first byte of the record of a source.
pub const SOURCE_TAG: u8 = 0;

/// The first byte of the record of a node that is not a source.
pub const NODE_TAG: u8 = 1;

/// How many bytes one port and its offset take.
pub const ENTRY_LEN: usize = 10;

/// The bytes of one port and its offset: the port in two bytes, the offset
/// in eight, both big-endian.
pub open spec fn entry_bytes(entry: (PortHandle, u64)) -> Seq<u8> {
    be_bytes(entry.0 as nat, 2) + be_bytes(entry.1 as nat, 8)
}

/// The bytes of the entries, one after the other.
pub open spec fn entries_bytes(entries: Seq<(PortHandle, u64)>) -> Seq<u8>
    decreases entries.len(),
{
    if entries.len() == 0 {
        Seq::empty()
    } else {
        entries_bytes(entries.drop_last()) + entry_bytes(entries.last())
    }
}

/// The bytes that stand for a record: a tag, then the position of a source
/// in eight bytes, or the entries of another node.
pub open spec fn record_bytes(record: MetadataRecordView) -> Seq<u8> {
    match record {
        MetadataRecordView::Source { position } => seq![SOURCE_TAG] + be_bytes(position as nat, 8),
        MetadataRecordView::Node { commits } => seq![NODE_TAG] + entries_bytes(commits),
    }
}

/// The entry that starts at the byte `at`.
pub open spec fn entry_at(bytes: Seq<u8>, at: int) -> (PortHandle, u64) {
    (be_value(bytes.subrange(at, at + 2)) as u16, be_value(bytes.subrange(at + 2, at + 10)) as u64)
}

/// The record that `bytes` stand for, or `None` where they stand for none:
/// where they are empty, the tag is unknown, or the length does not fit
/// the tag.
pub open spec fn record_of_bytes(bytes: Seq<u8>) -> Option<MetadataRecordView> {
    if bytes.len() == 9 && bytes[0] == SOURCE_TAG {
        Some(MetadataRecordView::Source { position: be_value(bytes.subrange(1, 9)) as u64 })
    } else if bytes.len() >= 1 && bytes[0] == NODE_TAG && (bytes.len() - 1) % 10 == 0 {
        Some(
            MetadataRecordView::Node {
                commits: Seq::new(
                    ((bytes.len() - 1) / 10) as nat,
                    |i: int| entry_at(bytes, 1 + 10 * i),
                ),
            },
        )
    } else {
        None
    }
}

proof fn lemma_entry_len(entry: (PortHandle, u64))
    ensures
        entry_bytes(entry).len() == 10,
        entry_at(entry_bytes(entry), 0) == entry,
{
    lemma_be_bytes_len(entry.0 as nat, 2);
    lemma_be_bytes_len(entry.1 as nat, 8);
    reveal_with_fuel(pow256, 9);
    lemma_be_value_of_bytes(entry.0 as nat, 2);
    lemma_be_value_of_bytes(entry.1 as nat, 8);
    let bytes = entry_bytes(entry);
    assert(bytes.subrange(0, 2) == be_bytes(entry.0 as nat, 2));
    assert(bytes.subrange(2, 10) == be_bytes(entry.1 as nat, 8));
}

proof fn lemma_entries_len(entries: Seq<(PortHandle, u64)>)
    ensures
        entries_bytes(entries).len() == 10 * entries.len(),
    decreases entries.len(),
{
    if entries.len() > 0 {
        lemma_entries_len(entries.drop_last());
        lemma_entry_len(entries.last());
    }
}

proof fn lemma_entry_in_entries(entries: Seq<(PortHandle, u64)>, i: int)
    requires
        0 <= i < entries.len(),
    ensures
        entries_bytes(entries).len() == 10 * entries.len(),
        entries_bytes(entries).subrange(10 * i, 10 * i + 10) == entry_bytes(entries[i]),
    decreases entries.len(),
{
    lemma_entries_len(entries);
    lemma_entries_len(entries.drop_last());
    lemma_entry_len(entries.last());
    if i < entries.len() - 1 {
        lemma_entry_in_entries(entries.drop_last(), i);
        assert(entries_bytes(entries).subrange(10 * i, 10 * i + 10) == entries_bytes(
            entries.drop_last(),
        ).subrange(10 * i, 10 * i + 10));
    } else {
        assert(entries_bytes(entries).subrange(10 * i, 10 * i + 10) == entry_bytes(
            entries.last(),
        ));
    }
}

/// Reading the bytes of a record gives the record back.
pub proof fn reading_inverts_writing(record: MetadataRecordView)
    ensures
        record_of_bytes(record_bytes(record)) == Some(record),
{
    let bytes = record_bytes(record);
    match record {
        MetadataRecordView::Source { position } => {
            lemma_be_bytes_len(position as nat, 8);
            reveal_with_fuel(pow256, 9);
            lemma_be_value_of_bytes(position as nat, 8);
            assert(bytes.subrange(1, 9) == be_bytes(position as nat, 8));
        },
        MetadataRecordView::Node { commits } => {
            lemma_entries_len(commits);
            let read = record_of_bytes(bytes)->Some_0->commits;
            assert(read.len() == commits.len());
            assert forall|i: int| 0 <= i < commits.len() implies read[i] == commits[i] by {
                lemma_entry_in_entries(commits, i);
                lemma_entry_len(commits[i]);
                let entry = entry_bytes(commits[i]);
                let at = 1 + 10 * i;
                assert(bytes.subrange(at, at + 2) == entry.subrange(0, 2));
                assert(bytes.subrange(at + 2, at + 10) == entry.subrange(2, 10));
            }
            assert(read == commits);
        },
    }
}

impl MetadataRecord {
    /// The bytes that stand for the record.
    pub fn encode(&self) -> (r: Vec<u8>)
        ensures
            r@ == record_bytes(self@),
    {
        let mut bytes: Vec<u8> = Vec::new();
        match self {
            MetadataRecord::Source { position } => {
                bytes.push(SOURCE_TAG);
                append_encoded(&mut bytes, position);
                assert(bytes@ == record_bytes(self@));
            },
            MetadataRecord::Node { commits } => {
                bytes.push(NODE_TAG);
                let mut i: usize = 0;
                while i < commits.len()
                    invariant
                        i <= commits@.len(),
                        bytes@ == seq![NODE_TAG] + entries_bytes(commits@.subrange(0, i as int)),
                    decreases commits@.len() - i,
                {
                    let entry = commits[i];
                    let ghost before = bytes@;
                    append_encoded(&mut bytes, &entry.0);
                    append_encoded(&mut bytes, &entry.1);
                    proof {
                        let shorter = commits@.subrange(0, i as int);
                        let longer = commits@.subrange(0, i + 1);
                        assert(longer.drop_last() == shorter);
                        assert(longer.last() == entry);
                        assert(bytes@ == seq![NODE_TAG] + entries_bytes(longer));
                    }
                    i = i + 1;
                }
                assert(commits@.subrange(0, i as int) == commits@);
            },
        }
        bytes
    }

    /// The record that `bytes` stand for.
    ///
    /// Fails exactly where they stand for none.
    pub fn decode(bytes: &[u8]) -> (r: Result<MetadataRecord, StorageError>)
        ensures
            match r {
                Ok(record) => record_of_bytes(bytes@) == Some(record@),
                Err(e) => record_of_bytes(bytes@) is None && e
                    == StorageError::DeserializationError,
            },
    {
        let len = bytes.len();
        if len == 0 {
            return Err(StorageError::DeserializationError);
        }
        let tag = bytes[0];
        if tag == SOURCE_TAG {
            if len != 9 {
                return Err(StorageError::DeserializationError);
            }
            match u64::decode(slice_subrange(bytes, 1, 9)) {
                Ok(position) => Ok(MetadataRecord::Source { position }),
                Err(e) => Err(e),
            }
        } else if tag == NODE_TAG {
            if (len - 1) % ENTRY_LEN != 0 {
                return Err(StorageError::DeserializationError);
            }
            let count = (len - 1) / ENTRY_LEN;
            let mut commits: Vec<(PortHandle, u64)> = Vec::new();
            let mut i: usize = 0;
            while i < count
                invariant
                    len == bytes@.len(),
                    count == (len - 1) / 10,
                    (len - 1) % 10 == 0,
                    i <= count,
                    commits@.len() == i,
                    forall|k: int| 0 <= k < i ==> #[trigger] commits@[k] == entry_at(
                        bytes@,
                        1 + 10 * k,
                    ),
                decreases count - i,
            {
                let at = 1 + ENTRY_LEN * i;
                let port = match u16::decode(slice_subrange(bytes, at, at + 2)) {
                    Ok(port) => port,
                    Err(e) => {
                        return Err(e);
                    },
                };
                let offset = match u64::decode(slice_subrange(bytes, at + 2, at + 10)) {
                    Ok(offset) => offset,
                    Err(e) => {
                        return Err(e);
                    },
                };
                commits.push((port, offset));
                i = i + 1;
            }
            assert(commits@ == Seq::new(count as nat, |i: int| entry_at(bytes@, 1 + 10 * i)));
            Ok(MetadataRecord::Node { commits })
        } else {
            Err(StorageError::DeserializationError)
        }
    }
}

/// Appends the encoding of `value` to `bytes`.
fn append_encoded<T: Encode>(bytes: &mut Vec<u8>, value: &T)
    requires
        T::encoding(value@) is Some,
    ensures
        final(bytes)@ == old(bytes)@ + T::encoding(value@).unwrap(),
{
    match value.encode() {
        Ok(encoded) => {
            let slice = encoded.as_bytes();
            let ghost before = bytes@;
            let mut i: usize = 0;
            while i < slice.len()
                invariant
                    i <= slice@.len(),
                    bytes@ == before + slice@.subrange(0, i as int),
                decreases slice@.len() - i,
            {
                bytes.push(slice[i]);
                assert(bytes@ == before + slice@.subrange(0, i + 1));
                i = i + 1;
            }
            assert(slice@.subrange(0, i as int) == slice@);
        },
        Err(_) => {},
    }
}

} // verus!

use crate::rocksdb_map::{stored, Contents, WriteView};
use vstd::prelude::*;

verus! {

/// One change that a transaction holds back: a value to store under a key,
/// or, without a value, the key to drop.
#[derive(Debug, Clone, PartialEq, Eq)]
pub struct Change {
    pub key: Vec<u8>,
    pub value: Option<Vec<u8>>,
}

impl View for Change {
    type V = WriteView;

    open spec fn view(&self) -> WriteView {
        match self.value {
            Some(value) => WriteView::Put { key: self.key@, value: value@ },
            None => WriteView::Delete { key: self.key@ },
        }
    }
}

/// The key that a change is about.
pub open spec fn key_of(change: WriteView) -> Seq<u8> {
    match change {
        WriteView::Put { key, .. } => key,
        WriteView::Delete { key } => key,
    }
}

/// What a change leaves under its key.
pub open spec fn left_by(change: WriteView) -> Option<Seq<u8>> {
    match change {
        WriteView::Put { value, .. } => Some(value),
        WriteView::Delete { .. } => None,
    }
}

/// What the engine holds once it has made the changes in their order.
pub open spec fn apply_all(contents: Contents, changes: Seq<WriteView>) -> Contents
    decreases changes.len(),
{
    if changes.len() == 0 {
        contents
    } else {
        changes.last().apply(apply_all(contents, changes.drop_last()))
    }
}

/// What a reader inside the transaction finds under `key`, where the
/// engine holds `stored` under it: what the last change of the key left,
/// or `stored` where the key was not changed.
pub open spec fn seen(changes: Seq<WriteView>, key: Seq<u8>, stored: Option<Seq<u8>>) -> Option<
    Seq<u8>,
>
    decreases changes.len(),
{
    if changes.len() == 0 {
        stored
    } else if key_of(changes.last()) == key {
        left_by(changes.last())
    } else {
        seen(changes.drop_last(), key, stored)
    }
}

/// Bytes that are lent, as a sequence.
pub open spec fn lent(bytes: Option<&[u8]>) -> Option<Seq<u8>> {
    match bytes {
        Some(bytes) => Some(bytes@),
        None => None,
    }
}

/// The changes of the changes, as mathematical values.
pub open spec fn views(changes: Seq<Change>) -> Seq<WriteView> {
    changes.map_values(|change: Change| change@)
}

/// The changes that a node has made to its store since its last commit.
///
/// Nothing reaches the storage engine before the commit: what the
/// transaction holds is either handed over as a whole, to be applied with
/// the node's record in one step, or dropped as a whole.
pub struct Transaction {
    changes: Vec<Change>,
}

impl Transaction {
    /// The changes held back, in the order in which they were made.
    pub closed spec fn changes(&self) -> Seq<WriteView> {
        views(self.changes@)
    }

    /// A transaction without changes.
    pub fn new() -> (r: Self)
        ensures
            r.changes() == Seq::<WriteView>::empty(),
    {
        Transaction { changes: Vec::new() }
    }

    /// How many changes are held back.
    pub fn len(&self) -> (r: usize)
        ensures
            r == self.changes().len(),
    {
        self.changes.len()
    }

    /// Stores `value` under `key`, for readers inside the transaction.
    pub fn put(&mut self, key: Vec<u8>, value: Vec<u8>)
        ensures
            final(self).changes() == old(self).changes().push(
                WriteView::Put { key: key@, value: value@ },
            ),
    {
        self.changes.push(Change { key, value: Some(value) });
        assert(self.changes() == old(self).changes().push(
            WriteView::Put { key: key@, value: value@ },
        ));
    }

    /// Drops `key`, for readers inside the transaction.
    pub fn delete(&mut self, key: Vec<u8>)
        ensures
            final(self).changes() == old(self).changes().push(WriteView::Delete { key: key@ }),
    {
        self.changes.push(Change { key, value: None });
        assert(self.changes() == old(self).changes().push(WriteView::Delete { key: key@ }));
    }

    /// What a reader inside the transaction finds under `key`, where
    /// `stored` is what the engine holds under it.
    pub fn get<'a>(&'a self, key: &[u8], stored: Option<&'a [u8]>) -> (r: Option<&'a [u8]>)
        ensures
            lent(r) == seen(self.changes(), key@, lent(stored)),
    {
        let mut i: usize = self.changes.len();
        assert(self.changes@.subrange(0, i as int) == self.changes@);
        while i > 0
            invariant
                i <= self.changes@.len(),
                seen(self.changes(), key@, lent(stored)) == seen(
                    views(self.changes@.subrange(0, i as int)),
                    key@,
                    lent(stored),
                ),
            decreases i,
        {
            i = i - 1;
            proof {
                let longer = views(self.changes@.subrange(0, i + 1));
                let shorter = views(self.changes@.subrange(0, i as int));
                assert(longer.drop_last() == shorter);
                assert(longer.last() == self.changes@[i as int]@);
            }
            if same_bytes(self.changes[i].key.as_slice(), key) {
                return match &self.changes[i].value {
                    Some(value) => Some(value.as_slice()),
                    None => None,
                };
            }
        }
        assert(views(self.changes@.subrange(0, 0)) == Seq::<WriteView>::empty());
        stored
    }

    /// Ends the transaction: hands over its changes, in their order, to be
    /// applied by the engine in one step, and begins anew without changes.
    pub fn commit(&mut self) -> (r: Vec<Change>)
        ensures
            views(r@) == old(self).changes(),
            final(self).changes() == Seq::<WriteView>::empty(),
    {
        let mut changes: Vec<Change> = Vec::new();
        core::mem::swap(&mut changes, &mut self.changes);
        changes
    }

    /// Drops the changes: the engine is left as the last commit left it.
    pub fn rollback(&mut self)
        ensures
            final(self).changes() == Seq::<WriteView>::empty(),
    {
        self.changes = Vec::new();
    }
}

/// Whether two byte strings are the same.
pub fn same_bytes(a: &[u8], b: &[u8]) -> (r: bool)
    ensures
        r == (a@ == b@),
{
    if a.len() != b.len() {
        return false;
    }
    let mut i: usize = 0;
    while i < a.len()
        invariant
            a@.len() == b@.len(),
            i <= a@.len(),
            forall|k: int| 0 <= k < i ==> a@[k] == b@[k],
        decreases a@.len() - i,
    {
        if a[i] != b[i] {
            return false;
        }
        i = i + 1;
    }
    assert(a@ =~= b@);
    true
}

/// A reader inside a transaction finds what the engine will hold once the
/// transaction is committed.
pub proof fn reads_see_the_commit(contents: Contents, changes: Seq<WriteView>, key: Seq<u8>)
    ensures
        seen(changes, key, stored(contents, key)) == stored(apply_all(contents, changes), key),
    decreases changes.len(),
{
    if changes.len() > 0 {
        reads_see_the_commit(contents, changes.drop_last(), key);
    }
}

/// A transaction that is dropped leaves the engine as it was, and so does
/// one that has no changes.
pub proof fn nothing_applied_changes_nothing(contents: Contents)
    ensures
        apply_all(contents, Seq::empty()) == contents,
{
}

/// Inside a transaction a key holds what was last stored under it, and
/// nothing once it has been dropped, whatever the engine holds.
pub proof fn reads_see_the_last_change(
    changes: Seq<WriteView>,
    key: Seq<u8>,
    value: Seq<u8>,
    stored: Option<Seq<u8>>,
)
    ensures
        seen(changes.push(WriteView::Put { key, value }), key, stored) == Some(value),
        seen(changes.push(WriteView::Delete { key }), key, stored) == None::<Seq<u8>>,
{
}

} // verus!

//! The snapshot file: the records of a store one after another, and what a
//! file that is read back loads to.

use crate::codec::{
    lemma_read_written, read_record, record_bytes, record_size, LoadError, Reading,
};
use crate::model::{has_id, inserted, storable, Entry};
use vstd::prelude::*;

verus! {

/// The bytes of a snapshot: the record of each entry, in the order of the
/// entries, with nothing before, between or after them.
pub open spec fn snapshot_bytes(entries: Seq<Entry>) -> Seq<u8>
    decreases entries.len(),
{
    if entries.len() == 0 {
        Seq::empty()
    } else {
        snapshot_bytes(entries.drop_last()) + record_bytes(entries.last().0, entries.last().1)
    }
}

/// The number of bytes of a snapshot: the sizes of its records, added up.
pub open spec fn snapshot_size(entries: Seq<Entry>) -> nat
    decreases entries.len(),
{
    if entries.len() == 0 {
        0
    } else {
        snapshot_size(entries.drop_last()) + record_size(entries.last().0, entries.last().1)
    }
}

/// What reading some bytes leaves behind: the entries held when the reading
/// stopped, and the error that stopped it, if one did.
pub struct Loaded {
    pub entries: Seq<Entry>,
    pub error: Option<LoadError>,
}

/// Reads records from `bytes` into `held` until no record starts or one cannot
/// be read. Each record is inserted as it is read, so a later record for an
/// identifier overwrites an earlier one, and what was read before an error
/// stays.
pub open spec fn replay(bytes: Seq<u8>, held: Seq<Entry>) -> Loaded
    decreases bytes.len(),
{
    match read_record(bytes) {
        Reading::End => Loaded { entries: held, error: None },
        Reading::Broken(e) => Loaded { entries: held, error: Some(e) },
        Reading::Record { id, payload, size } => replay(
            bytes.skip(size as int),
            inserted(held, id, payload),
        ),
    }
}

/// What the bytes of a file load to, starting from no entries.
pub open spec fn loaded(bytes: Seq<u8>) -> Loaded {
    replay(bytes, Seq::empty())
}

/// What came of the attempt to read the file of a store.
#[derive(Debug, PartialEq, Eq)]
pub enum FileRead {
    /// Nothing exists at the path.
    Missing,
    /// Something exists at the path and could not be opened.
    Unopened,
    /// The file was read to its end, and these are its bytes.
    Complete(Vec<u8>),
    /// These bytes were read; then reading failed before the end of the file.
    Interrupted(Vec<u8>),
}

/// The entries of a store after a load, given those it held before.
///
/// A file that is missing or cannot be opened leaves them as they were. Any
/// file that was opened replaces them, however little could be read of it.
pub open spec fn entries_after_load(before: Seq<Entry>, read: FileRead) -> Seq<Entry> {
    match read {
        FileRead::Missing => before,
        FileRead::Unopened => before,
        FileRead::Complete(bytes) => loaded(bytes@).entries,
        FileRead::Interrupted(bytes) => loaded(bytes@).entries,
    }
}

/// What a load returns.
///
/// A missing file is no error. A file read to its end fails only where a
/// record is broken; bytes that are too few to start a record are passed over.
/// Where reading was interrupted the load fails in any case: with the error of
/// a broken record if one was met, else with `Io`.
pub open spec fn result_of_load(read: FileRead) -> Result<(), LoadError> {
    match read {
        FileRead::Missing => Ok(()),
        FileRead::Unopened => Err(LoadError::Io),
        FileRead::Complete(bytes) => match loaded(bytes@).error {
            None => Ok(()),
            Some(e) => Err(e),
        },
        FileRead::Interrupted(bytes) => match loaded(bytes@).error {
            None => Err(LoadError::Io),
            Some(e) => Err(e),
        },
    }
}

/// The snapshot of entries put one behind the other is the snapshot of the
/// first followed by that of the second, and the sizes add up.
pub proof fn lemma_snapshot_concat(first: Seq<Entry>, second: Seq<Entry>)
    ensures
        snapshot_bytes(first + second) == snapshot_bytes(first) + snapshot_bytes(second),
        snapshot_size(first + second) == snapshot_size(first) + snapshot_size(second),
    decreases second.len(),
{
    if second.len() == 0 {
        assert(first + second == first);
    } else {
        assert((first + second).drop_last() == first + second.drop_last());
        assert((first + second).last() == second.last());
        lemma_snapshot_concat(first, second.drop_last());
    }
}

/// The snapshot of one entry is its record.
pub proof fn lemma_snapshot_one(entry: Entry)
    ensures
        snapshot_bytes(seq![entry]) == record_bytes(entry.0, entry.1),
        snapshot_size(seq![entry]) == record_size(entry.0, entry.1),
{
    let one = seq![entry];
    assert(one.drop_last() == Seq::<Entry>::empty());
    assert(one.last() == entry);
    assert(snapshot_bytes(one.drop_last()) == Seq::<u8>::empty());
    assert(snapshot_size(one.drop_last()) == 0);
}

/// Reading a snapshot, and whatever follows it, into entries that share no
/// identifier with it appends its entries and goes on with what follows.
pub proof fn lemma_replay_snapshot(held: Seq<Entry>, entries: Seq<Entry>, tail: Seq<u8>)
    requires
        storable(held + entries),
    ensures
        replay(snapshot_bytes(entries) + tail, held) == replay(tail, held + entries),
    decreases entries.len(),
{
    if entries.len() == 0 {
        assert(snapshot_bytes(entries) + tail == tail);
        assert(held + entries == held);
    } else {
        let all = held + entries;
        let first = entries[0];
        let rest = entries.drop_first();
        let after = snapshot_bytes(rest) + tail;
        assert(entries == seq![first] + rest);
        lemma_snapshot_concat(seq![first], rest);
        lemma_snapshot_one(first);
        assert(snapshot_bytes(entries) + tail == record_bytes(first.0, first.1) + after);
        assert(all[held.len() as int] == first);
        lemma_read_written(first.0, first.1, after);
        assert(!has_id(held, first.0)) by {
            assert forall|i: int| 0 <= i < held.len() implies (#[trigger] held[i]).0
                != first.0 by {
                assert(all[i] == held[i]);
            }
        }
        assert(inserted(held, first.0, first.1) == held.push(first));
        assert(held.push(first) + rest == all);
        lemma_replay_snapshot(held.push(first), rest, tail);
    }
}

} // verus!

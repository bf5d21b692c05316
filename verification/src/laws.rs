//! What holds of every store and of every snapshot, stated over the functions
//! in which the contracts of the store are written.

use crate::codec::{lemma_read_cut, lemma_record_size, record_bytes, record_size, LoadError};
use crate::model::{
    as_map, distinct_ids, has_id, inserted, lemma_empty, lemma_inserted, lemma_slot_is, slot,
    storable, Entry,
};
use crate::snapshot::{
    entries_after_load, lemma_replay_snapshot, lemma_snapshot_concat, lemma_snapshot_one, loaded,
    result_of_load, snapshot_bytes, snapshot_size, FileRead, Loaded,
};
use vstd::prelude::*;

verus! {

/// A snapshot has exactly the size of its records: for each entry eight bytes,
/// the bytes of the identifier, eight bytes, and the bytes of the payload.
pub proof fn snapshot_has_exact_size(entries: Seq<Entry>)
    ensures
        snapshot_bytes(entries).len() == snapshot_size(entries),
    decreases entries.len(),
{
    if entries.len() > 0 {
        snapshot_has_exact_size(entries.drop_last());
        lemma_record_size(entries.last().0, entries.last().1);
    }
}

/// A snapshot followed by fewer than eight bytes loads to the entries it was
/// taken of, in their order and without error: bytes too few to start a record
/// are passed over.
pub proof fn trailing_bytes_are_ignored(entries: Seq<Entry>, tail: Seq<u8>)
    requires
        storable(entries),
        tail.len() < 8,
    ensures
        loaded(snapshot_bytes(entries) + tail) == (Loaded { entries, error: None }),
{
    assert(Seq::<Entry>::empty() + entries == entries);
    lemma_replay_snapshot(Seq::empty(), entries, tail);
}

/// A snapshot loads to the entries it was taken of, in their order and without
/// error.
pub proof fn round_trip(entries: Seq<Entry>)
    requires
        storable(entries),
    ensures
        loaded(snapshot_bytes(entries)) == (Loaded { entries, error: None }),
{
    trailing_bytes_are_ignored(entries, Seq::empty());
    assert(snapshot_bytes(entries) + Seq::<u8>::empty() == snapshot_bytes(entries));
}

/// Loading the file that holds a snapshot gives a store the entries of the
/// snapshot, as a mapping too, whatever the store held before.
pub proof fn load_restores_snapshot(before: Seq<Entry>, entries: Seq<Entry>, file: Vec<u8>)
    requires
        storable(entries),
        file@ == snapshot_bytes(entries),
    ensures
        result_of_load(FileRead::Complete(file)) == Ok::<(), LoadError>(()),
        entries_after_load(before, FileRead::Complete(file)) == entries,
        as_map(entries_after_load(before, FileRead::Complete(file))) == as_map(entries),
{
    round_trip(entries);
}

/// Loading the file that holds the snapshot of an empty store leaves a store
/// empty, whatever it held before. That snapshot has no bytes.
pub proof fn empty_snapshot_clears(before: Seq<Entry>, file: Vec<u8>)
    requires
        file@ == snapshot_bytes(Seq::<Entry>::empty()),
    ensures
        file@.len() == 0,
        result_of_load(FileRead::Complete(file)) == Ok::<(), LoadError>(()),
        entries_after_load(before, FileRead::Complete(file)) == Seq::<Entry>::empty(),
{
    lemma_empty();
    round_trip(Seq::empty());
}

/// A snapshot cut inside one of its records, after the first eight bytes of
/// that record, fails to load with `Io`; the entries of the records before it
/// are held when it fails.
pub proof fn truncated_record_fails(entries: Seq<Entry>, k: int, keep: int)
    requires
        storable(entries),
        0 <= k < entries.len(),
        8 <= keep < record_size(entries[k].0, entries[k].1),
    ensures
        loaded(snapshot_bytes(entries).take(snapshot_size(entries.take(k)) + keep)) == (Loaded {
            entries: entries.take(k),
            error: Some(LoadError::Io),
        }),
{
    let before = entries.take(k);
    let cut = entries[k];
    let after = entries.skip(k + 1);
    let record = record_bytes(cut.0, cut.1);
    assert(entries == before + (seq![cut] + after));
    lemma_snapshot_concat(before, seq![cut] + after);
    lemma_snapshot_concat(seq![cut], after);
    lemma_snapshot_one(cut);
    snapshot_has_exact_size(before);
    lemma_record_size(cut.0, cut.1);
    let whole = snapshot_bytes(entries);
    assert(whole == snapshot_bytes(before) + (record + snapshot_bytes(after)));
    assert(whole.take(snapshot_size(before) + keep) == snapshot_bytes(before) + record.take(keep));
    assert(Seq::<Entry>::empty() + before == before);
    lemma_replay_snapshot(Seq::empty(), before, record.take(keep));
    lemma_read_cut(cut.0, cut.1, keep);
}

/// Of two inserts under one identifier the second wins: the identifier then
/// has the second payload, stands in one entry only, and the first insert
/// leaves no other trace.
pub proof fn second_insert_wins(
    entries: Seq<Entry>,
    id: Seq<char>,
    first: Seq<char>,
    second: Seq<char>,
)
    requires
        distinct_ids(entries),
    ensures
        ({
            let twice = inserted(inserted(entries, id, first), id, second);
            &&& as_map(twice).contains_key(id) && as_map(twice)[id] == second
            &&& as_map(twice) == as_map(entries).insert(id, second)
            &&& twice == inserted(entries, id, second)
            &&& forall|i: int, j: int|
                0 <= i < twice.len() && 0 <= j < twice.len() && (#[trigger] twice[i]).0 == id
                    && (#[trigger] twice[j]).0 == id ==> i == j
        }),
{
    let once = inserted(entries, id, first);
    let twice = inserted(once, id, second);
    lemma_inserted(entries, id, first);
    lemma_inserted(once, id, second);
    lemma_inserted(entries, id, second);
    assert(as_map(twice) == as_map(entries).insert(id, second));
    if has_id(entries, id) {
        let place = slot(entries, id);
        assert(once[place].0 == id);
        lemma_slot_is(once, id, place);
        assert(twice == inserted(entries, id, second));
    } else {
        let place = entries.len() as int;
        assert(once[place].0 == id);
        lemma_slot_is(once, id, place);
        assert(twice == inserted(entries, id, second));
    }
    assert forall|i: int, j: int|
        0 <= i < twice.len() && 0 <= j < twice.len() && (#[trigger] twice[i]).0 == id && (
        #[trigger] twice[j]).0 == id implies i == j by {
        if i < j {
            assert(twice[i].0 != twice[j].0);
        } else if j < i {
            assert(twice[j].0 != twice[i].0);
        }
    }
}

} // verus!

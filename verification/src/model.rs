//! The mathematical model of a store: a sequence of entries in which no
//! identifier stands twice, read as a mapping from identifier to payload.
//!
//! The order of the sequence is the order in which a snapshot writes the
//! documents. A new identifier goes to the end; an identifier that is already
//! there keeps its place when its payload is overwritten.

use crate::codec::fits;
use vstd::prelude::*;

verus! {

/// A document in the model: its identifier, then its payload.
pub type Entry = (Seq<char>, Seq<char>);

/// The entries that a vector of identifier and payload strings stands for.
pub open spec fn entries_of(data: Seq<(String, String)>) -> Seq<Entry> {
    Seq::new(data.len(), |i: int| (data[i].0@, data[i].1@))
}

/// Whether some entry carries the identifier.
pub open spec fn has_id(entries: Seq<Entry>, id: Seq<char>) -> bool {
    exists|i: int| 0 <= i < entries.len() && (#[trigger] entries[i]).0 == id
}

/// The place of an entry that carries the identifier, where there is one.
pub open spec fn slot(entries: Seq<Entry>, id: Seq<char>) -> int {
    choose|i: int| 0 <= i < entries.len() && (#[trigger] entries[i]).0 == id
}

/// No identifier stands in two entries.
pub open spec fn distinct_ids(entries: Seq<Entry>) -> bool {
    forall|i: int, j: int|
        0 <= i < j < entries.len() ==> (#[trigger] entries[i]).0 != (#[trigger] entries[j]).0
}

/// What a store can hold: distinct identifiers, and texts whose lengths can be
/// written in a record.
pub open spec fn storable(entries: Seq<Entry>) -> bool {
    &&& distinct_ids(entries)
    &&& forall|i: int|
        0 <= i < entries.len() ==> fits((#[trigger] entries[i]).0) && fits(entries[i].1)
}

/// The entries read as a mapping from identifier to payload.
pub open spec fn as_map(entries: Seq<Entry>) -> Map<Seq<char>, Seq<char>> {
    Map::new(|id: Seq<char>| has_id(entries, id), |id: Seq<char>| entries[slot(entries, id)].1)
}

/// The entries after the identifier was given the payload, whether or not it
/// was there before.
pub open spec fn inserted(entries: Seq<Entry>, id: Seq<char>, payload: Seq<char>) -> Seq<Entry> {
    if has_id(entries, id) {
        entries.update(slot(entries, id), (id, payload))
    } else {
        entries.push((id, payload))
    }
}

/// The entries after the payload of the identifier was overwritten; unchanged
/// where the identifier is not there.
pub open spec fn updated(entries: Seq<Entry>, id: Seq<char>, payload: Seq<char>) -> Seq<Entry> {
    if has_id(entries, id) {
        entries.update(slot(entries, id), (id, payload))
    } else {
        entries
    }
}

/// The entries without the identifier; unchanged where it is not there.
pub open spec fn deleted(entries: Seq<Entry>, id: Seq<char>) -> Seq<Entry> {
    if has_id(entries, id) {
        entries.remove(slot(entries, id))
    } else {
        entries
    }
}

/// Among distinct identifiers, the place where an identifier is found is its
/// slot.
pub proof fn lemma_slot_is(entries: Seq<Entry>, id: Seq<char>, i: int)
    requires
        distinct_ids(entries),
        0 <= i < entries.len(),
        entries[i].0 == id,
    ensures
        has_id(entries, id),
        slot(entries, id) == i,
        as_map(entries).contains_key(id),
        as_map(entries)[id] == entries[i].1,
{
    let j = slot(entries, id);
    assert(0 <= j < entries.len() && entries[j].0 == id);
    if j < i {
        assert(entries[j].0 != entries[i].0);
    } else if i < j {
        assert(entries[i].0 != entries[j].0);
    }
}

/// No entries make the empty mapping.
pub proof fn lemma_empty()
    ensures
        storable(Seq::<Entry>::empty()),
        as_map(Seq::<Entry>::empty()) == Map::<Seq<char>, Seq<char>>::empty(),
{
    assert(as_map(Seq::<Entry>::empty()) =~= Map::<Seq<char>, Seq<char>>::empty());
}

/// Inserting keeps the identifiers distinct and acts on the mapping as
/// `insert`; the identifier then stands once, with the payload. Storable
/// entries stay storable where the two texts fit.
pub proof fn lemma_inserted(entries: Seq<Entry>, id: Seq<char>, payload: Seq<char>)
    requires
        distinct_ids(entries),
    ensures
        distinct_ids(inserted(entries, id, payload)),
        as_map(inserted(entries, id, payload)) == as_map(entries).insert(id, payload),
        !has_id(entries, id) ==> inserted(entries, id, payload).len() == entries.len() + 1,
        has_id(entries, id) ==> inserted(entries, id, payload).len() == entries.len(),
        storable(entries) && fits(id) && fits(payload) ==> storable(
            inserted(entries, id, payload),
        ),
{
    let after = inserted(entries, id, payload);
    let place = if has_id(entries, id) {
        slot(entries, id)
    } else {
        entries.len() as int
    };
    assert(0 <= place < after.len() && after[place] == (id, payload));
    assert forall|i: int| 0 <= i < after.len() && i != place implies after[i] == entries[i]
        && after[i].0 != id by {
        if has_id(entries, id) {
            lemma_slot_is(entries, id, place);
            if i < place {
                assert(entries[i].0 != entries[place].0);
            } else {
                assert(entries[place].0 != entries[i].0);
            }
        }
    }
    assert(distinct_ids(after)) by {
        assert forall|i: int, j: int| 0 <= i < j < after.len() implies after[i].0 != after[j].0 by {
            if i != place && j != place {
                assert(entries[i].0 != entries[j].0);
            }
        }
    }
    lemma_slot_is(after, id, place);
    assert forall|other: Seq<char>| other != id implies has_id(after, other) == has_id(
        entries,
        other,
    ) && (has_id(entries, other) ==> after[slot(after, other)].1 == entries[slot(
        entries,
        other,
    )].1) by {
        if has_id(entries, other) {
            let k = slot(entries, other);
            assert(after[k] == entries[k]);
            lemma_slot_is(after, other, k);
        }
        if has_id(after, other) {
            let k = slot(after, other);
            assert(entries[k].0 == other);
        }
    }
    assert(as_map(after) =~= as_map(entries).insert(id, payload));
}

/// Updating keeps the identifiers distinct; on the mapping it overwrites an
/// identifier that is there and does nothing for one that is not. Storable
/// entries stay storable where the payload fits.
pub proof fn lemma_updated(entries: Seq<Entry>, id: Seq<char>, payload: Seq<char>)
    requires
        distinct_ids(entries),
    ensures
        distinct_ids(updated(entries, id, payload)),
        updated(entries, id, payload).len() == entries.len(),
        has_id(entries, id) ==> as_map(updated(entries, id, payload)) == as_map(entries).insert(
            id,
            payload,
        ),
        !has_id(entries, id) ==> updated(entries, id, payload) == entries,
        storable(entries) && fits(payload) ==> storable(updated(entries, id, payload)),
{
    if has_id(entries, id) {
        let i = slot(entries, id);
        assert(entries[i].0 == id);
        assert(updated(entries, id, payload) == inserted(entries, id, payload));
        lemma_inserted(entries, id, payload);
    }
}

/// Deleting keeps the identifiers distinct and acts on the mapping as
/// `remove`. Storable entries stay storable.
pub proof fn lemma_deleted(entries: Seq<Entry>, id: Seq<char>)
    requires
        distinct_ids(entries),
    ensures
        distinct_ids(deleted(entries, id)),
        as_map(deleted(entries, id)) == as_map(entries).remove(id),
        !has_id(entries, id) ==> deleted(entries, id) == entries,
        storable(entries) ==> storable(deleted(entries, id)),
{
    let after = deleted(entries, id);
    if has_id(entries, id) {
        let place = slot(entries, id);
        assert forall|i: int| 0 <= i < after.len() implies after[i] == entries[if i < place {
            i
        } else {
            i + 1
        }] && after[i].0 != id by {
            let k = if i < place {
                i
            } else {
                i + 1
            };
            if k < place {
                assert(entries[k].0 != entries[place].0);
            } else {
                assert(entries[place].0 != entries[k].0);
            }
        }
        assert(distinct_ids(after)) by {
            assert forall|i: int, j: int| 0 <= i < j < after.len() implies after[i].0
                != after[j].0 by {
                let ki = if i < place {
                    i
                } else {
                    i + 1
                };
                let kj = if j < place {
                    j
                } else {
                    j + 1
                };
                assert(entries[ki].0 != entries[kj].0);
            }
        }
        assert forall|other: Seq<char>| other != id implies has_id(after, other) == has_id(
            entries,
            other,
        ) && (has_id(entries, other) ==> after[slot(after, other)].1 == entries[slot(
            entries,
            other,
        )].1) by {
            if has_id(entries, other) {
                let k = slot(entries, other);
                let i = if k < place {
                    k
                } else {
                    k - 1
                };
                assert(after[i] == entries[k]);
                lemma_slot_is(after, other, i);
            }
            if has_id(after, other) {
                let i = slot(after, other);
                let k = if i < place {
                    i
                } else {
                    i + 1
                };
                assert(entries[k].0 == other);
            }
        }
        assert(!has_id(after, id));
        assert(as_map(after) =~= as_map(entries).remove(id));
    } else {
        assert(as_map(after) =~= as_map(entries).remove(id));
    }
}

} // verus!

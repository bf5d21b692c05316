//! The store: documents by identifier, bound to the path of its snapshot file.
//!
//! The store does no input or output of its own. `save` gives the bytes that
//! the file is to hold, and `load` takes what was read from it.

use crate::codec::{decode_record, encode_record, fits, Decoded, LoadError};
use crate::model::{
    as_map, deleted, distinct_ids, entries_of, has_id, inserted, lemma_deleted, lemma_empty,
    lemma_inserted, lemma_slot_is, lemma_updated, slot, storable, updated, Entry,
};
use crate::snapshot::{
    entries_after_load, replay, result_of_load, snapshot_bytes, snapshot_size, FileRead,
};
use crate::text::text_eq;
use vstd::prelude::*;
use vstd::slice::*;
use vstd::string::*;

verus! {

/// A document store. No identifier is held twice; a payload is held as it was
/// given.
///
/// The store has no lock of its own: whoever shares it between threads
/// provides one.
pub struct DocumentDB {
    data: Vec<(String, String)>,
    file_path: String,
}

impl View for DocumentDB {
    type V = Map<Seq<char>, Seq<char>>;

    /// The store as a mapping from identifier to payload.
    open spec fn view(&self) -> Map<Seq<char>, Seq<char>> {
        as_map(self.entries())
    }
}

/// Learns that the UTF-8 form of a text has a length that a record can hold:
/// the text is in memory.
fn measure(text: &str)
    ensures
        fits(text@),
{
    let bytes = text.as_bytes();
    let _ = bytes.len();
}

/// The place of the identifier among the documents.
fn find(data: &Vec<(String, String)>, id: &str) -> (place: Option<usize>)
    requires
        distinct_ids(entries_of(data@)),
    ensures
        place is Some == has_id(entries_of(data@), id@),
        place matches Some(i) ==> i < data@.len() && i == slot(entries_of(data@), id@)
            && data@[i as int].0@ == id@,
{
    let ghost entries = entries_of(data@);
    let mut i: usize = 0;
    while i < data.len()
        invariant
            i <= data@.len(),
            entries == entries_of(data@),
            distinct_ids(entries),
            forall|k: int| 0 <= k < i ==> (#[trigger] entries[k]).0 != id@,
        decreases data@.len() - i,
    {
        if text_eq(data[i].0.as_str(), id) {
            proof {
                lemma_slot_is(entries, id@, i as int);
            }
            return Some(i);
        }
        i += 1;
    }
    None
}

/// Gives the identifier the payload, whether or not it was there before.
fn put(data: &mut Vec<(String, String)>, id: String, payload: String)
    requires
        storable(entries_of(old(data)@)),
    ensures
        entries_of(final(data)@) == inserted(entries_of(old(data)@), id@, payload@),
        as_map(entries_of(final(data)@)) == as_map(entries_of(old(data)@)).insert(id@, payload@),
        storable(entries_of(final(data)@)),
{
    measure(id.as_str());
    measure(payload.as_str());
    let place = find(data, id.as_str());
    proof {
        lemma_inserted(entries_of(data@), id@, payload@);
    }
    match place {
        Some(i) => {
            data.set(i, (id, payload));
        },
        None => {
            data.push((id, payload));
        },
    }
    assert(entries_of(data@) =~= inserted(entries_of(old(data)@), id@, payload@));
}

/// Reads records from `bytes` into `data` until no record starts or one cannot
/// be read, and gives the error that stopped the reading, if one did.
fn replay_into(data: &mut Vec<(String, String)>, bytes: &[u8]) -> (error: Option<LoadError>)
    requires
        storable(entries_of(old(data)@)),
    ensures
        entries_of(final(data)@) == replay(bytes@, entries_of(old(data)@)).entries,
        error == replay(bytes@, entries_of(old(data)@)).error,
        storable(entries_of(final(data)@)),
{
    let mut pos: usize = 0;
    assert(bytes@.skip(0) == bytes@);
    loop
        invariant
            pos <= bytes@.len(),
            storable(entries_of(data@)),
            replay(bytes@.skip(pos as int), entries_of(data@)) == replay(
                bytes@,
                entries_of(old(data)@),
            ),
        decreases bytes@.len() - pos,
    {
        let rest = slice_subrange(bytes, pos, bytes.len());
        assert(rest@ == bytes@.skip(pos as int));
        match decode_record(rest) {
            Decoded::End => {
                return None;
            },
            Decoded::Broken(e) => {
                return Some(e);
            },
            Decoded::Record { id, payload, size } => {
                assert(rest@.skip(size as int) == bytes@.skip(pos + size));
                put(data, id, payload);
                pos += size;
            },
        }
    }
}

impl DocumentDB {
    /// The documents in the order in which a snapshot writes them.
    pub closed spec fn entries(&self) -> Seq<Entry> {
        entries_of(self.data@)
    }

    /// The path of the snapshot file.
    pub closed spec fn path(&self) -> Seq<char> {
        self.file_path@
    }

    #[verifier::type_invariant]
    spec fn valid(&self) -> bool {
        storable(entries_of(self.data@))
    }

    /// An empty store bound to the path of its snapshot file.
    pub fn new(file_path: &str) -> (db: DocumentDB)
        ensures
            db.entries() == Seq::<Entry>::empty(),
            db@ == Map::<Seq<char>, Seq<char>>::empty(),
            db.path() == file_path@,
    {
        proof {
            lemma_empty();
        }
        let db = DocumentDB { data: Vec::new(), file_path: file_path.to_owned() };
        assert(db.entries() =~= Seq::<Entry>::empty());
        db
    }

    /// The path of the snapshot file, as given to `new`.
    pub fn file_path(&self) -> (path: &str)
        ensures
            path@ == self.path(),
    {
        self.file_path.as_str()
    }

    /// Stores the payload under the identifier, overwriting what was there.
    pub fn insert(&mut self, doc_id: String, document: String)
        ensures
            final(self)@ == old(self)@.insert(doc_id@, document@),
            final(self).entries() == inserted(old(self).entries(), doc_id@, document@),
            storable(final(self).entries()),
            final(self).path() == old(self).path(),
    {
        proof {
            use_type_invariant(&*self);
        }
        let mut data = Vec::new();
        std::mem::swap(&mut data, &mut self.data);
        put(&mut data, doc_id, document);
        self.data = data;
    }

    /// The payload stored under the identifier, if there is one.
    pub fn get(&self, doc_id: &str) -> (document: Option<String>)
        ensures
            match document {
                Some(d) => self@.contains_key(doc_id@) && d@ == self@[doc_id@],
                None => !self@.contains_key(doc_id@),
            },
    {
        proof {
            use_type_invariant(self);
        }
        match find(&self.data, doc_id) {
            Some(i) => Some(self.data[i].1.clone()),
            None => None,
        }
    }

    /// A copy of every document, in the order in which a snapshot writes them.
    /// What is done to the store afterwards does not reach the copy.
    pub fn get_all(&self) -> (all: Vec<(String, String)>)
        ensures
            entries_of(all@) == self.entries(),
            as_map(entries_of(all@)) == self@,
            distinct_ids(entries_of(all@)),
    {
        proof {
            use_type_invariant(self);
        }
        let mut all: Vec<(String, String)> = Vec::new();
        let mut i: usize = 0;
        while i < self.data.len()
            invariant
                i <= self.data@.len(),
                all@.len() == i,
                forall|k: int|
                    0 <= k < i ==> (#[trigger] all@[k]).0@ == self.data@[k].0@ && all@[k].1@
                        == self.data@[k].1@,
            decreases self.data@.len() - i,
        {
            all.push((self.data[i].0.clone(), self.data[i].1.clone()));
            i += 1;
        }
        assert(entries_of(all@) =~= self.entries());
        all
    }

    /// Removes the document of the identifier; does nothing where there is
    /// none.
    pub fn delete(&mut self, doc_id: &str)
        ensures
            final(self)@ == old(self)@.remove(doc_id@),
            final(self).entries() == deleted(old(self).entries(), doc_id@),
            !old(self)@.contains_key(doc_id@) ==> final(self).entries() == old(self).entries(),
            storable(final(self).entries()),
            final(self).path() == old(self).path(),
    {
        proof {
            use_type_invariant(&*self);
            lemma_deleted(self.entries(), doc_id@);
        }
        let mut data = Vec::new();
        std::mem::swap(&mut data, &mut self.data);
        match find(&data, doc_id) {
            Some(i) => {
                data.remove(i);
            },
            None => {},
        }
        assert(entries_of(data@) =~= deleted(old(self).entries(), doc_id@));
        self.data = data;
    }

    /// Overwrites the payload of an identifier that is there. Where it is not
    /// there, nothing is stored and nothing is reported.
    pub fn update(&mut self, doc_id: String, document: String)
        ensures
            final(self)@ == if old(self)@.contains_key(doc_id@) {
                old(self)@.insert(doc_id@, document@)
            } else {
                old(self)@
            },
            final(self).entries() == updated(old(self).entries(), doc_id@, document@),
            !old(self)@.contains_key(doc_id@) ==> final(self).entries() == old(self).entries()
                && !final(self)@.contains_key(doc_id@),
            storable(final(self).entries()),
            final(self).path() == old(self).path(),
    {
        measure(document.as_str());
        proof {
            use_type_invariant(&*self);
            lemma_updated(self.entries(), doc_id@, document@);
        }
        let mut data = Vec::new();
        std::mem::swap(&mut data, &mut self.data);
        match find(&data, doc_id.as_str()) {
            Some(i) => {
                data.set(i, (doc_id, document));
            },
            None => {},
        }
        assert(entries_of(data@) =~= updated(old(self).entries(), doc_id@, document@));
        self.data = data;
    }

    /// The bytes of a snapshot of the store: the record of each document, one
    /// after another. Written to the file in place of what it held, they are
    /// what `load` reads back.
    pub fn save(&self) -> (bytes: Vec<u8>)
        ensures
            bytes@ == snapshot_bytes(self.entries()),
            bytes@.len() == snapshot_size(self.entries()),
            storable(self.entries()),
    {
        proof {
            use_type_invariant(self);
        }
        let ghost entries = self.entries();
        let mut bytes: Vec<u8> = Vec::new();
        let mut i: usize = 0;
        while i < self.data.len()
            invariant
                i <= self.data@.len(),
                entries == entries_of(self.data@),
                bytes@ == snapshot_bytes(entries.take(i as int)),
                bytes@.len() == snapshot_size(entries.take(i as int)),
            decreases self.data@.len() - i,
        {
            encode_record(self.data[i].0.as_str(), self.data[i].1.as_str(), &mut bytes);
            proof {
                let next = entries.take(i + 1);
                assert(next.drop_last() == entries.take(i as int));
                assert(next.last() == entries[i as int]);
            }
            i += 1;
        }
        assert(entries.take(i as int) == entries);
        bytes
    }

    /// Replaces the documents by those of the file that was read.
    ///
    /// A file that is missing leaves the store as it was, and so does one that
    /// could not be opened. Any other file empties the store first; its
    /// records are then inserted one by one, and the documents read before an
    /// error stay in the store.
    pub fn load(&mut self, read: &FileRead) -> (result: Result<(), LoadError>)
        ensures
            result == result_of_load(*read),
            final(self).entries() == entries_after_load(old(self).entries(), *read),
            *read is Missing ==> result is Ok && final(self).entries() == old(self).entries(),
            storable(final(self).entries()),
            final(self).path() == old(self).path(),
    {
        proof {
            use_type_invariant(&*self);
            lemma_empty();
        }
        match read {
            FileRead::Missing => Ok(()),
            FileRead::Unopened => Err(LoadError::Io),
            FileRead::Complete(bytes) => {
                let mut data: Vec<(String, String)> = Vec::new();
                assert(entries_of(data@) =~= Seq::<Entry>::empty());
                let error = replay_into(&mut data, bytes.as_slice());
                self.data = data;
                match error {
                    None => Ok(()),
                    Some(e) => Err(e),
                }
            },
            FileRead::Interrupted(bytes) => {
                let mut data: Vec<(String, String)> = Vec::new();
                assert(entries_of(data@) =~= Seq::<Entry>::empty());
                let error = replay_into(&mut data, bytes.as_slice());
                self.data = data;
                match error {
                    None => Err(LoadError::Io),
                    Some(e) => Err(e),
                }
            },
        }
    }
}

} // verus!

use vstd::prelude::*;

use crate::bytes::lex_lt;
use crate::entry::{models_of, EntryModel, KeyValueEntry};
use crate::writes::{store_entries, stored_map, SnapMap};

verus! {

/// The local store's own error type, carried out to the caller unread.
#[verifier::external_type_specification]
#[verifier::external_body]
pub struct ExSledError(sled::Error);

/// A durable, ordered local key-value store holding one point-in-time copy
/// of remote data.  The sled tree inside is reached only through the
/// trusted methods below; everything proved about a snapshot rests on
/// their contracts.
#[verifier::external_body]
pub struct Snapshot {
    db: sled::Db,
}

/// The mapping from key to value that a snapshot currently holds on disk.
pub uninterp spec fn snap_contents(s: Snapshot) -> SnapMap;

/// The images of an ordered pair list, as permanent entries.
pub open spec fn pair_models(s: Seq<(Vec<u8>, Vec<u8>)>) -> Seq<EntryModel> {
    s.map_values(|p: (Vec<u8>, Vec<u8>)| EntryModel { key: p.0@, value: p.1@, lease: 0 })
}

impl Snapshot {
    /// Relies on `sled::open`: opens or creates a store rooted at `path`.
    /// What an existing store already holds depends on the directory, so
    /// nothing is promised of the opened contents.
    #[verifier::external_body]
    pub fn open(path: &str) -> (r: Result<Snapshot, sled::Error>)
    {
        match sled::open(path) {
            Ok(db) => Ok(Snapshot { db }),
            Err(e) => Err(e),
        }
    }

    /// Relies on `sled::Batch::insert` and `sled::Tree::apply_batch`: the
    /// batch lands every insert, in order, as one atomic unit.
    #[verifier::external_body]
    pub fn write_batch(&mut self, entries: &Vec<KeyValueEntry>) -> (r: Result<(), sled::Error>)
        ensures
            r is Ok ==> snap_contents(*final(self)) == store_entries(
                snap_contents(*old(self)),
                models_of(entries@),
            ),
    {
        let mut batch = sled::Batch::default();
        for e in entries.iter() {
            batch.insert(e.key.clone(), e.value.clone());
        }
        self.db.apply_batch(batch)
    }

    /// Relies on `sled::Tree::flush`: forces the dirty buffers to stable
    /// storage and leaves the contents as they are.
    #[verifier::external_body]
    pub fn flush(&mut self) -> (r: Result<(), sled::Error>)
        ensures
            snap_contents(*final(self)) == snap_contents(*old(self)),
    {
        match self.db.flush() {
            Ok(_) => Ok(()),
            Err(e) => Err(e),
        }
    }

    /// Relies on `sled::Tree::iter`: yields every pair of the store in
    /// ascending byte-lexicographic key order, each key once.  A pair the
    /// store reports unreadable is skipped rather than aborting the scan.
    #[verifier::external_body]
    pub fn iterate(&self) -> (r: Vec<(Vec<u8>, Vec<u8>)>)
        ensures
            stored_map(pair_models(r@)) == snap_contents(*self),
            forall|i: int, j: int| 0 <= i < j < r@.len() ==> lex_lt(r@[i].0@, r@[j].0@),
    {
        let mut out: Vec<(Vec<u8>, Vec<u8>)> = Vec::new();
        for item in self.db.iter() {
            if let Ok((k, v)) = item {
                out.push((k.to_vec(), v.to_vec()));
            }
        }
        out
    }
}

} // verus!

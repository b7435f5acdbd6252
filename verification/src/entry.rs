use vstd::prelude::*;

verus! {

/// One key/value pair as the remote store hands it out: an opaque key, an
/// opaque value, and the id of the lease the entry is bound to.  A lease id
/// of `0` means the entry is permanent; any other id ties the entry to a
/// remote lease, so it may expire on its own.
pub struct KeyValueEntry {
    pub key: Vec<u8>,
    pub value: Vec<u8>,
    pub lease_id: u64,
}

/// The mathematical image of a [`KeyValueEntry`]: two byte sequences and
/// the lease id as an unbounded natural.
pub struct EntryModel {
    pub key: Seq<u8>,
    pub value: Seq<u8>,
    pub lease: nat,
}

impl View for KeyValueEntry {
    type V = EntryModel;

    open spec fn view(&self) -> EntryModel {
        EntryModel { key: self.key@, value: self.value@, lease: self.lease_id as nat }
    }
}

impl KeyValueEntry {
    pub fn new(key: Vec<u8>, value: Vec<u8>, lease_id: u64) -> (r: Self)
        ensures
            r@ == (EntryModel { key: key@, value: value@, lease: lease_id as nat }),
    {
        KeyValueEntry { key, value, lease_id }
    }
}

/// The images of a whole entry list, in order.
pub open spec fn models_of(s: Seq<KeyValueEntry>) -> Seq<EntryModel> {
    s.map_values(|e: KeyValueEntry| e@)
}

/// No key occurs twice in the list, as the remote store promises of one
/// enumeration pass.
pub open spec fn distinct_keys(s: Seq<EntryModel>) -> bool {
    forall|i: int, j: int| 0 <= i < j < s.len() ==> s[i].key != s[j].key
}

/// Some entry of the list carries the key `k`.
pub open spec fn has_key(s: Seq<EntryModel>, k: Seq<u8>) -> bool {
    exists|i: int| 0 <= i < s.len() && s[i].key == k
}

} // verus!

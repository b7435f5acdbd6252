use vstd::pervasive::VecAdditionalExecFns;
use vstd::prelude::*;

use crate::bytes::{bytes_eq, copy_bytes, is_prefix_of, key_has_prefix};
use crate::entry::{distinct_keys, has_key, models_of, EntryModel, KeyValueEntry};
use crate::policy::{lemma_filter_keys, lemma_filter_push};
use crate::writes::{
    apply_entries, lemma_apply_entries_char, lemma_lookup_back_at, lemma_lookup_back_has_key,
    lookup_back, RemoteMap,
};

verus! {

/// The predicate selecting the keys under a prefix.
pub open spec fn prefix_pred(p: Seq<u8>) -> spec_fn(EntryModel) -> bool {
    |e: EntryModel| is_prefix_of(p, e.key)
}

/// An in-memory stand-in for the remote coordination store, with the
/// surface the engine relies on: bulk enumeration, optionally scoped to a
/// key prefix, and a single-key permanent write.  It gives tests a remote
/// side whose own behaviour is verified.
pub struct RemoteStore {
    entries: Vec<KeyValueEntry>,
}

/// `s[i]` stays the last write of its key when position `i` is overwritten
/// by an entry carrying the same key; every other key's last write stays
/// as it was.
proof fn lemma_lookup_back_update(s: Seq<EntryModel>, i: int, m: EntryModel, k: Seq<u8>)
    requires
        distinct_keys(s),
        0 <= i < s.len(),
        s[i].key == m.key,
    ensures
        lookup_back(s.update(i, m), m.key) == Some((m.value, m.lease)),
        k != m.key ==> lookup_back(s.update(i, m), k) == lookup_back(s, k),
    decreases s.len(),
{
    let s2 = s.update(i, m);
    if i == s.len() - 1 {
        assert(s2.last() == m);
        assert(s2.drop_last() =~= s.drop_last());
    } else {
        assert(s2.last() == s.last());
        assert(s2.drop_last() =~= s.drop_last().update(i, m));
        assert(distinct_keys(s.drop_last())) by {
            assert(forall|a: int, b: int|
                0 <= a < b < s.len() - 1 ==> s.drop_last()[a] == s[a] && s.drop_last()[b] == s[b]);
        }
        assert(s.drop_last()[i] == s[i]);
        lemma_lookup_back_update(s.drop_last(), i, m, k);
        assert(s.last().key != m.key);
    }
}

/// Where `key` sits in the list, if it sits anywhere.
fn find_key(entries: &Vec<KeyValueEntry>, key: &Vec<u8>) -> (r: Option<usize>)
    ensures
        match r {
            Some(i) => i < entries@.len() && entries@[i as int]@.key == key@,
            None => forall|j: int| 0 <= j < entries@.len() ==> entries@[j]@.key != key@,
        },
{
    let mut i: usize = 0;
    while i < entries.len()
        invariant
            i <= entries@.len(),
            forall|j: int| 0 <= j < i ==> entries@[j]@.key != key@,
        decreases entries@.len() - i,
    {
        if bytes_eq(&entries[i].key, key) {
            return Some(i);
        }
        i += 1;
    }
    None
}

impl RemoteStore {
    /// Each key occurs at most once, as one enumeration pass of the remote
    /// store returns it.
    pub closed spec fn wf(self) -> bool {
        distinct_keys(models_of(self.entries@))
    }

    /// The store as a mapping from key to value and lease id.
    pub closed spec fn contents(self) -> RemoteMap {
        apply_entries(Map::empty(), models_of(self.entries@))
    }

    /// An empty store.
    pub fn new() -> (r: Self)
        ensures
            r.wf(),
            r.contents() == Map::<Seq<u8>, (Seq<u8>, nat)>::empty(),
    {
        RemoteStore { entries: Vec::new() }
    }

    /// Writes or overwrites one key, bound to the given lease id, as the
    /// remote service's own machinery would have left it.
    pub fn seed(&mut self, key: Vec<u8>, value: Vec<u8>, lease_id: u64)
        requires
            old(self).wf(),
        ensures
            final(self).wf(),
            final(self).contents() == old(self).contents().insert(
                key@,
                (value@, lease_id as nat),
            ),
    {
        let ghost s = models_of(old(self).entries@);
        let ghost m = EntryModel { key: key@, value: value@, lease: lease_id as nat };
        let e = KeyValueEntry::new(key, value, lease_id);
        match find_key(&self.entries, &e.key) {
            Some(i) => {
                self.entries.set(i, e);
                proof {
                    let s2 = models_of(self.entries@);
                    assert(s2 =~= s.update(i as int, m));
                    assert(final(self).wf()) by {
                        assert forall|a: int, b: int| 0 <= a < b < s2.len() implies s2[a].key
                            != s2[b].key by {
                            assert(s2[a].key == s[a].key && s2[b].key == s[b].key);
                        }
                    }
                    let m2 = apply_entries(Map::empty(), s2);
                    let m1 = old(self).contents().insert(key@, (value@, lease_id as nat));
                    assert forall|k: Seq<u8>| #[trigger] m2.dom().contains(k) implies m1.dom()
                        .contains(k) && m2[k] == m1[k] by {
                        lemma_lookup_back_update(s, i as int, m, k);
                        lemma_apply_entries_char(Map::empty(), s2, k);
                        lemma_apply_entries_char(Map::empty(), s, k);
                    }
                    assert forall|k: Seq<u8>| #[trigger] m1.dom().contains(k) implies m2.dom()
                        .contains(k) by {
                        lemma_lookup_back_update(s, i as int, m, k);
                        lemma_apply_entries_char(Map::empty(), s2, k);
                        lemma_apply_entries_char(Map::empty(), s, k);
                    }
                    assert(m2 =~= m1);
                }
            },
            None => {
                self.entries.push(e);
                proof {
                    let s2 = models_of(self.entries@);
                    assert(s2 =~= s.push(m));
                    assert(s2.drop_last() =~= s);
                    assert(final(self).wf()) by {
                        assert forall|a: int, b: int| 0 <= a < b < s2.len() implies s2[a].key
                            != s2[b].key by {
                            if b < s2.len() - 1 {
                                assert(s2[a].key == s[a].key && s2[b].key == s[b].key);
                            } else {
                                assert(s2[a].key == s[a].key && s2[b].key == m.key);
                            }
                        }
                    }
                    assert(final(self).contents() == old(self).contents().insert(
                        key@,
                        (value@, lease_id as nat),
                    ));
                }
            },
        }
    }

    /// Writes or overwrites one key with no lease attached: the plain
    /// permanent write a restore issues.
    pub fn put(&mut self, key: Vec<u8>, value: Vec<u8>)
        requires
            old(self).wf(),
        ensures
            final(self).wf(),
            final(self).contents() == old(self).contents().insert(key@, (value@, 0nat)),
    {
        self.seed(key, value, 0);
    }

    /// The value and lease id currently stored under `key`, if any.
    pub fn get(&self, key: &Vec<u8>) -> (r: Option<(Vec<u8>, u64)>)
        requires
            self.wf(),
        ensures
            match r {
                Some(p) => self.contents().contains_pair(key@, (p.0@, p.1 as nat)),
                None => !self.contents().dom().contains(key@),
            },
    {
        let ghost s = models_of(self.entries@);
        match find_key(&self.entries, key) {
            Some(i) => {
                let p = (copy_bytes(&self.entries[i].value), self.entries[i].lease_id);
                proof {
                    lemma_lookup_back_at(s, i as int);
                    lemma_apply_entries_char(Map::empty(), s, key@);
                }
                Some(p)
            },
            None => {
                proof {
                    lemma_lookup_back_has_key(s, key@);
                    lemma_apply_entries_char(Map::empty(), s, key@);
                }
                None
            },
        }
    }

    /// Retrieves every entry currently stored, each key once, in an order
    /// of the store's own choosing.
    pub fn fetch_all(&self) -> (r: Vec<KeyValueEntry>)
        requires
            self.wf(),
        ensures
            distinct_keys(models_of(r@)),
            forall|i: int|
                0 <= i < r@.len() ==> self.contents().contains_pair(
                    r@[i]@.key,
                    (r@[i]@.value, r@[i]@.lease),
                ),
            forall|k: Seq<u8>|
                self.contents().dom().contains(k) ==> has_key(models_of(r@), k),
    {
        let ghost s = models_of(self.entries@);
        let mut out: Vec<KeyValueEntry> = Vec::new();
        let mut i: usize = 0;
        while i < self.entries.len()
            invariant
                i <= self.entries@.len(),
                s == models_of(self.entries@),
                out@.len() == i,
                forall|j: int| 0 <= j < i ==> out@[j]@ == s[j],
            decreases self.entries@.len() - i,
        {
            let e = KeyValueEntry::new(
                copy_bytes(&self.entries[i].key),
                copy_bytes(&self.entries[i].value),
                self.entries[i].lease_id,
            );
            out.push(e);
            i += 1;
        }
        proof {
            assert(models_of(out@) =~= s) by {
                assert(forall|j: int|
                    0 <= j < out@.len() ==> #[trigger] models_of(out@)[j] == out@[j]@);
            }
            assert forall|j: int| 0 <= j < out@.len() implies self.contents().contains_pair(
                out@[j]@.key,
                (out@[j]@.value, out@[j]@.lease),
            ) by {
                lemma_lookup_back_at(s, j);
                lemma_apply_entries_char(Map::empty(), s, s[j].key);
            }
            assert forall|k: Seq<u8>| self.contents().dom().contains(k) implies has_key(
                models_of(out@),
                k,
            ) by {
                lemma_apply_entries_char(Map::empty(), s, k);
                lemma_lookup_back_has_key(s, k);
            }
        }
        out
    }

    /// Retrieves exactly the entries whose keys carry the given byte
    /// prefix, each key once, in an order of the store's own choosing.
    pub fn fetch_prefix(&self, prefix: &Vec<u8>) -> (r: Vec<KeyValueEntry>)
        requires
            self.wf(),
        ensures
            distinct_keys(models_of(r@)),
            forall|i: int|
                0 <= i < r@.len() ==> is_prefix_of(prefix@, r@[i]@.key)
                    && self.contents().contains_pair(r@[i]@.key, (r@[i]@.value, r@[i]@.lease)),
            forall|k: Seq<u8>|
                self.contents().dom().contains(k) && is_prefix_of(prefix@, k) ==> has_key(
                    models_of(r@),
                    k,
                ),
    {
        let ghost s = models_of(self.entries@);
        let mut out: Vec<KeyValueEntry> = Vec::new();
        let mut i: usize = 0;
        while i < self.entries.len()
            invariant
                i <= self.entries@.len(),
                s == models_of(self.entries@),
                models_of(out@) == s.take(i as int).filter(prefix_pred(prefix@)),
            decreases self.entries@.len() - i,
        {
            let keep = key_has_prefix(&self.entries[i].key, prefix);
            proof {
                assert(s.take(i as int + 1) =~= s.take(i as int).push(s[i as int]));
                lemma_filter_push(s.take(i as int), s[i as int], prefix_pred(prefix@));
                assert(s[i as int] == self.entries@[i as int]@);
            }
            if keep {
                let e = KeyValueEntry::new(
                    copy_bytes(&self.entries[i].key),
                    copy_bytes(&self.entries[i].value),
                    self.entries[i].lease_id,
                );
                out.push(e);
                proof {
                    assert(e@ == s[i as int]);
                    assert(models_of(out@) =~= s.take(i as int).filter(prefix_pred(prefix@)).push(
                        s[i as int],
                    ));
                }
            }
            i += 1;
        }
        proof {
            assert(s.take(s.len() as int) =~= s);
            let f = s.filter(prefix_pred(prefix@));
            lemma_filter_keys(s, prefix_pred(prefix@));
            assert forall|j: int| 0 <= j < out@.len() implies is_prefix_of(prefix@, out@[j]@.key)
                && self.contents().contains_pair(out@[j]@.key, (out@[j]@.value, out@[j]@.lease)) by {
                assert(models_of(out@)[j] == out@[j]@);
                assert(f[j] == out@[j]@);
                assert(f.contains(f[j]));
                assert(s.contains(f[j]) && prefix_pred(prefix@)(f[j]));
                let a = choose|a: int| 0 <= a < s.len() && s[a] == f[j];
                lemma_lookup_back_at(s, a);
                lemma_apply_entries_char(Map::empty(), s, s[a].key);
            }
            assert forall|k: Seq<u8>|
                self.contents().dom().contains(k) && is_prefix_of(prefix@, k) implies has_key(
                f,
                k,
            ) by {
                lemma_apply_entries_char(Map::empty(), s, k);
                lemma_lookup_back_has_key(s, k);
                let a = choose|a: int| 0 <= a < s.len() && s[a].key == k;
                assert(s.contains(s[a]) && prefix_pred(prefix@)(s[a]));
                assert(f.contains(s[a]));
                let b = choose|b: int| 0 <= b < f.len() && f[b] == s[a];
                assert(f[b].key == k);
            }
        }
        out
    }
}

} // verus!

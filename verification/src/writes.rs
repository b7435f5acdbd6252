use vstd::prelude::*;

use crate::entry::{distinct_keys, has_key, EntryModel};

verus! {

/// The remote store seen as a mapping from key to value and lease id.
pub type RemoteMap = Map<Seq<u8>, (Seq<u8>, nat)>;

/// The local snapshot seen as a mapping from key to value alone: lease
/// association is not preserved locally.
pub type SnapMap = Map<Seq<u8>, Seq<u8>>;

/// The remote store after the entries of `s` are written over `m` in
/// order, key, value and lease id kept as given.  A later write of the
/// same key wins.
pub open spec fn apply_entries(m: RemoteMap, s: Seq<EntryModel>) -> RemoteMap
    decreases s.len(),
{
    if s.len() == 0 {
        m
    } else {
        apply_entries(m, s.drop_last()).insert(
            s.last().key,
            (s.last().value, s.last().lease),
        )
    }
}

/// The same entries with their lease association stripped, as a restore
/// writes them.
pub open spec fn unleased(s: Seq<EntryModel>) -> Seq<EntryModel> {
    s.map_values(|e: EntryModel| EntryModel { key: e.key, value: e.value, lease: 0 })
}

/// The remote store after a restore replays the entries of `s` over `m`:
/// every replayed write is permanent.
pub open spec fn replay(m: RemoteMap, s: Seq<EntryModel>) -> RemoteMap {
    apply_entries(m, unleased(s))
}

/// The local snapshot after a dump batch writes the entries of `s` over
/// `m`: the value is kept, the lease association dropped.
pub open spec fn store_entries(m: SnapMap, s: Seq<EntryModel>) -> SnapMap
    decreases s.len(),
{
    if s.len() == 0 {
        m
    } else {
        store_entries(m, s.drop_last()).insert(s.last().key, s.last().value)
    }
}

/// A snapshot built from scratch out of the entries of `s`.
pub open spec fn stored_map(s: Seq<EntryModel>) -> SnapMap {
    store_entries(Map::empty(), s)
}

/// The value and lease id that the last write of `k` in `s` left, if `s`
/// writes `k` at all.
pub open spec fn lookup_back(s: Seq<EntryModel>, k: Seq<u8>) -> Option<(Seq<u8>, nat)>
    decreases s.len(),
{
    if s.len() == 0 {
        None
    } else if s.last().key == k {
        Some((s.last().value, s.last().lease))
    } else {
        lookup_back(s.drop_last(), k)
    }
}

/// What `apply_entries` holds at one key: the last write of that key, or
/// whatever `m` held if `s` never writes it.
pub proof fn lemma_apply_entries_char(m: RemoteMap, s: Seq<EntryModel>, k: Seq<u8>)
    ensures
        lookup_back(s, k) is Some ==> apply_entries(m, s).dom().contains(k) && apply_entries(
            m,
            s,
        )[k] == lookup_back(s, k)->Some_0,
        lookup_back(s, k) is None ==> apply_entries(m, s).dom().contains(k) == m.dom().contains(k),
        lookup_back(s, k) is None && m.dom().contains(k) ==> apply_entries(m, s)[k] == m[k],
    decreases s.len(),
{
    if s.len() > 0 {
        lemma_apply_entries_char(m, s.drop_last(), k);
    }
}

/// What `store_entries` holds at one key: the value of the last write of
/// that key, or whatever `m` held if `s` never writes it.
pub proof fn lemma_store_entries_char(m: SnapMap, s: Seq<EntryModel>, k: Seq<u8>)
    ensures
        lookup_back(s, k) is Some ==> store_entries(m, s).dom().contains(k) && store_entries(
            m,
            s,
        )[k] == lookup_back(s, k)->Some_0.0,
        lookup_back(s, k) is None ==> store_entries(m, s).dom().contains(k) == m.dom().contains(k),
        lookup_back(s, k) is None && m.dom().contains(k) ==> store_entries(m, s)[k] == m[k],
    decreases s.len(),
{
    if s.len() > 0 {
        lemma_store_entries_char(m, s.drop_last(), k);
    }
}

/// `s` leaves something under `k` exactly when some entry of `s` carries
/// the key `k`.
pub proof fn lemma_lookup_back_has_key(s: Seq<EntryModel>, k: Seq<u8>)
    ensures
        lookup_back(s, k) is Some <==> has_key(s, k),
    decreases s.len(),
{
    if s.len() > 0 {
        lemma_lookup_back_has_key(s.drop_last(), k);
        if s.last().key == k {
            assert(s[s.len() - 1].key == k);
        } else {
            if has_key(s, k) {
                let i = choose|i: int| 0 <= i < s.len() && s[i].key == k;
                assert(s.drop_last()[i] == s[i]);
            }
            if has_key(s.drop_last(), k) {
                let i = choose|i: int| 0 <= i < s.drop_last().len() && s.drop_last()[i].key == k;
                assert(s[i].key == k);
            }
        }
    }
}

/// Stripping leases keeps every key's last value and zeroes its lease.
pub proof fn lemma_lookup_back_unleased(s: Seq<EntryModel>, k: Seq<u8>)
    ensures
        lookup_back(unleased(s), k) is Some <==> lookup_back(s, k) is Some,
        lookup_back(s, k) is Some ==> lookup_back(unleased(s), k) == Some(
            (lookup_back(s, k)->Some_0.0, 0nat),
        ),
    decreases s.len(),
{
    if s.len() > 0 {
        assert(unleased(s).drop_last() =~= unleased(s.drop_last()));
        assert(unleased(s).last() == (EntryModel {
            key: s.last().key,
            value: s.last().value,
            lease: 0,
        }));
        lemma_lookup_back_unleased(s.drop_last(), k);
    }
}

/// When no key occurs twice, the last write of `s[i].key` is `s[i]`
/// itself.
pub proof fn lemma_lookup_back_at(s: Seq<EntryModel>, i: int)
    requires
        distinct_keys(s),
        0 <= i < s.len(),
    ensures
        lookup_back(s, s[i].key) == Some((s[i].value, s[i].lease)),
    decreases s.len(),
{
    if i < s.len() - 1 {
        assert(s[i].key != s[s.len() - 1].key);
        assert(distinct_keys(s.drop_last())) by {
            assert(forall|a: int, b: int|
                0 <= a < b < s.drop_last().len() ==> s.drop_last()[a] == s[a] && s.drop_last()[b]
                    == s[b]);
        }
        lemma_lookup_back_at(s.drop_last(), i);
        assert(s.drop_last()[i] == s[i]);
    }
}

} // verus!

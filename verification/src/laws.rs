use vstd::prelude::*;

use crate::bytes::{is_prefix_of, lemma_lex_lt_asymmetric, lemma_lex_lt_irreflexive, lex_lt};
use crate::entry::{distinct_keys, has_key, EntryModel};
use crate::policy::{filter_spec, lemma_filter_keys, retained_pred, retained_spec};
use crate::writes::{
    lemma_apply_entries_char, lemma_lookup_back_at, lemma_lookup_back_has_key,
    lemma_store_entries_char, lookup_back, replay, stored_map, unleased, RemoteMap,
};

verus! {

/// A listing in strictly ascending key order, all entries permanent: the
/// shape in which a read hands a snapshot out.
pub open spec fn sorted_listing(s: Seq<EntryModel>) -> bool {
    &&& forall|i: int, j: int| 0 <= i < j < s.len() ==> lex_lt(s[i].key, s[j].key)
    &&& forall|i: int| 0 <= i < s.len() ==> s[i].lease == 0
}

/// One direction of snapshot agreement: every key a dump of `s1` lands in
/// the snapshot is landed identically by a dump of `s2`, provided `s2`
/// enumerates every entry of `s1`.
proof fn lemma_stored_subsumed(s1: Seq<EntryModel>, s2: Seq<EntryModel>, include_all: bool)
    requires
        distinct_keys(s1),
        distinct_keys(s2),
        forall|e: EntryModel| s1.contains(e) ==> s2.contains(e),
    ensures
        forall|k: Seq<u8>|
            #[trigger] stored_map(filter_spec(s1, include_all)).dom().contains(k) ==> stored_map(
                filter_spec(s2, include_all),
            ).dom().contains(k) && stored_map(filter_spec(s2, include_all))[k] == stored_map(
                filter_spec(s1, include_all),
            )[k],
{
    let f1 = filter_spec(s1, include_all);
    let f2 = filter_spec(s2, include_all);
    lemma_filter_keys(s1, retained_pred(include_all));
    lemma_filter_keys(s2, retained_pred(include_all));
    assert forall|k: Seq<u8>| #[trigger] stored_map(f1).dom().contains(k) implies stored_map(
        f2,
    ).dom().contains(k) && stored_map(f2)[k] == stored_map(f1)[k] by {
        lemma_store_entries_char(Map::empty(), f1, k);
        lemma_lookup_back_has_key(f1, k);
        let a = choose|a: int| 0 <= a < f1.len() && f1[a].key == k;
        lemma_lookup_back_at(f1, a);
        assert(f1.contains(f1[a]));
        assert(s1.contains(f1[a]) && retained_pred(include_all)(f1[a]));
        assert(s2.contains(f1[a]));
        assert(f2.contains(f1[a]));
        let b = choose|b: int| 0 <= b < f2.len() && f2[b] == f1[a];
        lemma_lookup_back_at(f2, b);
        lemma_store_entries_char(Map::empty(), f2, k);
    }
}

/// A dump lands in a fresh snapshot exactly the entries the policy
/// retains: an enumerated entry's value sits under its key iff the entry
/// survived the lease-inclusion policy, and nothing else sits there.
pub proof fn lemma_dump_exact(s: Seq<EntryModel>, include_all: bool)
    requires
        distinct_keys(s),
    ensures
        forall|i: int|
            0 <= i < s.len() ==> (retained_spec(s[i], include_all) <==> stored_map(
                filter_spec(s, include_all),
            ).contains_pair(s[i].key, s[i].value)),
        forall|k: Seq<u8>|
            #[trigger] stored_map(filter_spec(s, include_all)).dom().contains(k) ==> exists|i: int|
                0 <= i < s.len() && s[i].key == k && retained_spec(s[i], include_all),
{
    let f = filter_spec(s, include_all);
    lemma_filter_keys(s, retained_pred(include_all));
    assert forall|i: int| 0 <= i < s.len() && retained_spec(s[i], include_all) implies stored_map(
        f,
    ).contains_pair(s[i].key, s[i].value) by {
        assert(s.contains(s[i]) && retained_pred(include_all)(s[i]));
        assert(f.contains(s[i]));
        let a = choose|a: int| 0 <= a < f.len() && f[a] == s[i];
        lemma_lookup_back_at(f, a);
        lemma_store_entries_char(Map::empty(), f, s[i].key);
    }
    assert forall|k: Seq<u8>| #[trigger] stored_map(f).dom().contains(k) implies exists|i: int|
        0 <= i < s.len() && s[i].key == k && retained_spec(s[i], include_all) by {
        lemma_store_entries_char(Map::empty(), f, k);
        lemma_lookup_back_has_key(f, k);
        let a = choose|a: int| 0 <= a < f.len() && f[a].key == k;
        assert(f.contains(f[a]));
        assert(s.contains(f[a]) && retained_pred(include_all)(f[a]));
        let i = choose|i: int| 0 <= i < s.len() && s[i] == f[a];
        assert(s[i].key == k && retained_spec(s[i], include_all));
    }
    assert forall|i: int|
        0 <= i < s.len() && stored_map(f).contains_pair(s[i].key, s[i].value) implies retained_spec(
        s[i],
        include_all,
    ) by {
        let j = choose|j: int|
            0 <= j < s.len() && s[j].key == s[i].key && retained_spec(s[j], include_all);
        assert(j == i);
    }
}

/// Dump then read is order-blind: two fetch passes that enumerate the same
/// entries, in whatever orders, land in identical snapshots, so the read
/// that follows shows the same listing for either.
pub proof fn lemma_dump_order_independent(
    s1: Seq<EntryModel>,
    s2: Seq<EntryModel>,
    include_all: bool,
)
    requires
        distinct_keys(s1),
        distinct_keys(s2),
        forall|e: EntryModel| s1.contains(e) <==> s2.contains(e),
    ensures
        stored_map(filter_spec(s1, include_all)) == stored_map(filter_spec(s2, include_all)),
{
    lemma_stored_subsumed(s1, s2, include_all);
    lemma_stored_subsumed(s2, s1, include_all);
    assert(stored_map(filter_spec(s1, include_all)) =~= stored_map(filter_spec(s2, include_all)));
}

/// Restore is a faithful value replay: once a snapshot's entries are
/// replayed, the remote store holds every entry's value under its key with
/// no lease attached, and holds no key that neither it nor the snapshot
/// held before.
pub proof fn lemma_restore_faithful(m: RemoteMap, s: Seq<EntryModel>)
    requires
        distinct_keys(s),
    ensures
        forall|i: int|
            0 <= i < s.len() ==> replay(m, s).contains_pair(s[i].key, (s[i].value, 0nat)),
        forall|k: Seq<u8>|
            #[trigger] replay(m, s).dom().contains(k) <==> m.dom().contains(k) || has_key(s, k),
{
    let u = unleased(s);
    assert(u.len() == s.len());
    assert(forall|j: int|
        0 <= j < s.len() ==> #[trigger] u[j] == (EntryModel {
            key: s[j].key,
            value: s[j].value,
            lease: 0,
        }));
    assert(distinct_keys(u));
    assert forall|i: int| 0 <= i < s.len() implies replay(m, s).contains_pair(
        s[i].key,
        (s[i].value, 0nat),
    ) by {
        lemma_lookup_back_at(u, i);
        lemma_apply_entries_char(m, u, s[i].key);
    }
    assert forall|k: Seq<u8>| true implies (#[trigger] replay(m, s).dom().contains(k) <==> m.dom()
        .contains(k) || has_key(s, k)) by {
        lemma_apply_entries_char(m, u, k);
        lemma_lookup_back_has_key(u, k);
        if has_key(s, k) {
            let j = choose|j: int| 0 <= j < s.len() && s[j].key == k;
            assert(u[j].key == k);
        }
        if has_key(u, k) {
            let j = choose|j: int| 0 <= j < u.len() && u[j].key == k;
            assert(s[j].key == k);
        }
    }
}

/// Replaying the same snapshot a second time changes nothing: restore is
/// idempotent with respect to the final remote state.
pub proof fn lemma_restore_idempotent(m: RemoteMap, s: Seq<EntryModel>)
    ensures
        replay(replay(m, s), s) == replay(m, s),
{
    let u = unleased(s);
    let once = replay(m, s);
    let twice = replay(once, s);
    assert forall|k: Seq<u8>| #[trigger] twice.dom().contains(k) implies once.dom().contains(k)
        && twice[k] == once[k] by {
        lemma_apply_entries_char(m, u, k);
        lemma_apply_entries_char(once, u, k);
    }
    assert forall|k: Seq<u8>| #[trigger] once.dom().contains(k) implies twice.dom().contains(k) by {
        lemma_apply_entries_char(m, u, k);
        lemma_apply_entries_char(once, u, k);
    }
    assert(twice =~= once);
}

/// A restore that fails at its `i`-th write leaves the remote store as if
/// only the first `i` entries had been replayed: each of them sits there
/// as a permanent entry, and the keys of the entries never reached stay
/// untouched keys.
pub proof fn lemma_restore_fail_fast(m: RemoteMap, s: Seq<EntryModel>, i: int)
    requires
        distinct_keys(s),
        0 <= i <= s.len(),
    ensures
        forall|j: int|
            0 <= j < i ==> replay(m, s.take(i)).contains_pair(s[j].key, (s[j].value, 0nat)),
        forall|j: int|
            i <= j < s.len() && !m.dom().contains(s[j].key) ==> !replay(m, s.take(i)).dom()
                .contains(s[j].key),
{
    let t = s.take(i);
    assert(distinct_keys(t)) by {
        assert(forall|a: int, b: int| 0 <= a < b < i ==> t[a] == s[a] && t[b] == s[b]);
    }
    lemma_restore_faithful(m, t);
    assert forall|j: int| 0 <= j < i implies replay(m, t).contains_pair(
        s[j].key,
        (s[j].value, 0nat),
    ) by {
        assert(t[j] == s[j]);
    }
    assert forall|j: int| i <= j < s.len() && !m.dom().contains(s[j].key) implies !replay(
        m,
        t,
    ).dom().contains(s[j].key) by {
        if has_key(t, s[j].key) {
            let a = choose|a: int| 0 <= a < t.len() && t[a].key == s[j].key;
            assert(s[a].key == s[j].key && a < i <= j);
        }
    }
}

/// A dump of a prefix-scoped fetch yields a snapshot whose keys all carry
/// the prefix; together with the exactness of the dump itself, the
/// snapshot holds exactly the retained entries under that prefix.
pub proof fn lemma_dump_prefix_scoped(s: Seq<EntryModel>, p: Seq<u8>, include_all: bool)
    requires
        distinct_keys(s),
        forall|i: int| 0 <= i < s.len() ==> is_prefix_of(p, s[i].key),
    ensures
        forall|k: Seq<u8>|
            #[trigger] stored_map(filter_spec(s, include_all)).dom().contains(k) ==> is_prefix_of(
                p,
                k,
            ),
{
    lemma_dump_exact(s, include_all);
    assert forall|k: Seq<u8>|
        #[trigger] stored_map(filter_spec(s, include_all)).dom().contains(k) implies is_prefix_of(
        p,
        k,
    ) by {
        let i = choose|i: int|
            0 <= i < s.len() && s[i].key == k && retained_spec(s[i], include_all);
        assert(is_prefix_of(p, s[i].key));
    }
}

/// A stored mapping has one listing: two reads that both hand out a
/// strictly ascending, permanent listing of the same stored mapping hand
/// out the same listing.  With the dump's exactness and its blindness to
/// fetch order, this closes the loop: dump then read shows exactly the
/// retained entries, in ascending key order, however the fetch was
/// ordered.
pub proof fn lemma_read_listing_unique(s1: Seq<EntryModel>, s2: Seq<EntryModel>)
    requires
        sorted_listing(s1),
        sorted_listing(s2),
        stored_map(s1) == stored_map(s2),
    ensures
        s1 == s2,
    decreases s1.len(),
{
    if s1.len() == 0 {
        if s2.len() > 0 {
            let k2 = s2.last().key;
            lemma_store_entries_char(Map::empty(), s2, k2);
            lemma_store_entries_char(Map::empty(), s1, k2);
            assert(lookup_back(s2, k2) is Some);
            assert(lookup_back(s1, k2) is None);
            assert(false);
        }
        assert(s1 =~= s2);
    } else {
        if s2.len() == 0 {
            let k1 = s1.last().key;
            lemma_store_entries_char(Map::empty(), s1, k1);
            lemma_store_entries_char(Map::empty(), s2, k1);
            assert(lookup_back(s1, k1) is Some);
            assert(lookup_back(s2, k1) is None);
            assert(false);
        }
        let k1 = s1.last().key;
        let k2 = s2.last().key;
        lemma_store_entries_char(Map::empty(), s1, k1);
        lemma_store_entries_char(Map::empty(), s2, k1);
        lemma_lookup_back_has_key(s2, k1);
        let i = choose|i: int| 0 <= i < s2.len() && s2[i].key == k1;
        lemma_store_entries_char(Map::empty(), s2, k2);
        lemma_store_entries_char(Map::empty(), s1, k2);
        lemma_lookup_back_has_key(s1, k2);
        let j = choose|j: int| 0 <= j < s1.len() && s1[j].key == k2;
        if i < s2.len() - 1 {
            assert(lex_lt(k1, k2));
            if j < s1.len() - 1 {
                assert(lex_lt(k2, k1));
                lemma_lex_lt_asymmetric(k1, k2);
            } else {
                lemma_lex_lt_irreflexive(k1);
            }
            assert(false);
        }
        assert(k1 == k2);
        assert(stored_map(s1)[k1] == s1.last().value);
        assert(stored_map(s2)[k1] == s2.last().value);
        assert(s1.last().lease == 0 && s2.last().lease == 0);
        assert(s1.last() == s2.last());

        let dl1 = s1.drop_last();
        let dl2 = s2.drop_last();
        assert(sorted_listing(dl1) && sorted_listing(dl2)) by {
            assert(forall|a: int| 0 <= a < dl1.len() ==> dl1[a] == s1[a]);
            assert(forall|a: int| 0 <= a < dl2.len() ==> dl2[a] == s2[a]);
        }
        assert(stored_map(dl1) =~= stored_map(s1).remove(k1)) by {
            lemma_drop_last_stored(s1);
        }
        assert(stored_map(dl2) =~= stored_map(s2).remove(k1)) by {
            lemma_drop_last_stored(s2);
        }
        lemma_read_listing_unique(dl1, dl2);
        assert(s1.len() == s2.len());
        assert forall|a: int| 0 <= a < s1.len() implies s1[a] == s2[a] by {
            if a < s1.len() - 1 {
                assert(s1[a] == dl1[a] && s2[a] == dl2[a]);
            }
        }
        assert(s1 =~= s2);
    }
}

/// Dropping the last entry of a sorted listing removes exactly its key
/// from the stored mapping.
proof fn lemma_drop_last_stored(s: Seq<EntryModel>)
    requires
        s.len() > 0,
        forall|i: int, j: int| 0 <= i < j < s.len() ==> lex_lt(s[i].key, s[j].key),
    ensures
        stored_map(s.drop_last()) == stored_map(s).remove(s.last().key),
{
    let dl = s.drop_last();
    let k0 = s.last().key;
    assert(!has_key(dl, k0)) by {
        if has_key(dl, k0) {
            let a = choose|a: int| 0 <= a < dl.len() && dl[a].key == k0;
            assert(s[a].key == k0 && lex_lt(s[a].key, k0));
            lemma_lex_lt_irreflexive(k0);
        }
    }
    lemma_lookup_back_has_key(dl, k0);
    assert forall|k: Seq<u8>| #[trigger] stored_map(dl).dom().contains(k) implies stored_map(
        s,
    ).remove(k0).dom().contains(k) && stored_map(dl)[k] == stored_map(s).remove(k0)[k] by {
        lemma_store_entries_char(Map::empty(), dl, k);
        lemma_store_entries_char(Map::empty(), s, k);
        lemma_lookup_back_has_key(dl, k);
        assert(k != k0);
    }
    assert forall|k: Seq<u8>| #[trigger] stored_map(s).remove(k0).dom().contains(k) implies
        stored_map(dl).dom().contains(k) by {
        lemma_store_entries_char(Map::empty(), s, k);
        lemma_store_entries_char(Map::empty(), dl, k);
    }
    assert(stored_map(dl) =~= stored_map(s).remove(k0));
}

} // verus!

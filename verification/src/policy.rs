use vstd::prelude::*;

use crate::entry::{distinct_keys, has_key, models_of, EntryModel, KeyValueEntry};

verus! {

/// The lease-inclusion policy of a dump or a print: an entry crosses into
/// the snapshot iff the operator asked for all entries, or the entry is
/// permanent (carries no lease).
pub open spec fn retained_spec(e: EntryModel, include_all: bool) -> bool {
    include_all || e.lease == 0
}

/// The policy as a predicate on entries.
pub open spec fn retained_pred(include_all: bool) -> spec_fn(EntryModel) -> bool {
    |e: EntryModel| retained_spec(e, include_all)
}

/// The entries that survive the lease-inclusion policy, in their original
/// order.
pub open spec fn filter_spec(s: Seq<EntryModel>, include_all: bool) -> Seq<EntryModel> {
    s.filter(retained_pred(include_all))
}

/// How one more entry changes a filtered entry list.
pub proof fn lemma_filter_push(s: Seq<EntryModel>, x: EntryModel, pred: spec_fn(EntryModel) -> bool)
    ensures
        pred(x) ==> s.push(x).filter(pred) == s.filter(pred).push(x),
        !pred(x) ==> s.push(x).filter(pred) == s.filter(pred),
{
    reveal(Seq::filter);
    assert(s.push(x).drop_last() =~= s);
    assert(s.push(x).last() == x);
}

/// A filtered entry list keeps nothing but matching entries of the
/// original, keeps every matching entry, and keeps keys unique if they
/// were unique.
pub proof fn lemma_filter_keys(s: Seq<EntryModel>, pred: spec_fn(EntryModel) -> bool)
    requires
        distinct_keys(s),
    ensures
        distinct_keys(s.filter(pred)),
        forall|x: EntryModel| #[trigger] s.filter(pred).contains(x) ==> s.contains(x) && pred(x),
        forall|x: EntryModel| s.contains(x) && pred(x) ==> #[trigger] s.filter(pred).contains(x),
        forall|k: Seq<u8>| #[trigger] has_key(s.filter(pred), k) ==> has_key(s, k),
    decreases s.len(),
{
    reveal(Seq::filter);
    if s.len() > 0 {
        let dl = s.drop_last();
        assert(distinct_keys(dl)) by {
            assert(forall|a: int, b: int|
                0 <= a < b < dl.len() ==> dl[a] == s[a] && dl[b] == s[b]);
        }
        lemma_filter_keys(dl, pred);
        assert(forall|x: EntryModel| dl.contains(x) ==> s.contains(x)) by {
            assert(forall|j: int| 0 <= j < dl.len() ==> dl[j] == s[j]);
        }
        assert(forall|x: EntryModel| s.contains(x) ==> x == s.last() || dl.contains(x)) by {
            assert(forall|j: int| 0 <= j < s.len() - 1 ==> dl[j] == s[j]);
        }
        if pred(s.last()) {
            let f = dl.filter(pred).push(s.last());
            assert(s.filter(pred) == f);
            assert(forall|x: EntryModel| f.contains(x) ==> x == s.last() || dl.filter(
                pred,
            ).contains(x)) by {
                assert(forall|j: int| 0 <= j < f.len() - 1 ==> f[j] == dl.filter(pred)[j]);
                assert(f[f.len() - 1] == s.last());
            }
            assert(distinct_keys(f)) by {
                assert forall|a: int, b: int| 0 <= a < b < f.len() implies f[a].key != f[b].key by {
                    if b == f.len() - 1 {
                        assert(dl.filter(pred).contains(f[a]));
                        assert(dl.contains(f[a]));
                        let j = choose|j: int| 0 <= j < dl.len() && dl[j] == f[a];
                        assert(s[j] == f[a] && s[j].key != s[s.len() - 1].key);
                        assert(f[a].key != s.last().key);
                    } else {
                        assert(f[a] == dl.filter(pred)[a] && f[b] == dl.filter(pred)[b]);
                    }
                }
            }
            assert forall|k: Seq<u8>| #[trigger] has_key(f, k) implies has_key(s, k) by {
                let a = choose|a: int| 0 <= a < f.len() && f[a].key == k;
                if a == f.len() - 1 {
                    assert(s[s.len() - 1].key == k);
                } else {
                    assert(dl.filter(pred).contains(f[a]));
                    assert(has_key(dl, k)) by {
                        let jj = choose|jj: int| 0 <= jj < dl.len() && dl[jj] == f[a];
                        assert(dl[jj].key == k);
                    }
                    let j = choose|j: int| 0 <= j < dl.len() && dl[j].key == k;
                    assert(s[j].key == k);
                }
            }
        } else {
            assert(s.filter(pred) == dl.filter(pred));
            assert forall|k: Seq<u8>| #[trigger] has_key(s.filter(pred), k) implies has_key(
                s,
                k,
            ) by {
                assert(has_key(dl, k));
                let j = choose|j: int| 0 <= j < dl.len() && dl[j].key == k;
                assert(s[j].key == k);
            }
        }
    }
}

/// Whether one entry survives the lease-inclusion policy.
pub fn retained(e: &KeyValueEntry, include_all: bool) -> (r: bool)
    ensures
        r == retained_spec(e@, include_all),
{
    include_all || e.lease_id == 0
}

/// Applies the lease-inclusion policy to a whole fetch result, keeping the
/// order of the survivors.
pub fn filter_entries(entries: Vec<KeyValueEntry>, include_all: bool) -> (r: Vec<KeyValueEntry>)
    ensures
        models_of(r@) == filter_spec(models_of(entries@), include_all),
{
    let mut out: Vec<KeyValueEntry> = Vec::new();
    let ghost all_models = models_of(entries@);
    let mut i: usize = 0;
    while i < entries.len()
        invariant
            i <= entries@.len(),
            all_models == models_of(entries@),
            models_of(out@) == filter_spec(all_models.take(i as int), include_all),
        decreases entries@.len() - i,
    {
        let keep = retained(&entries[i], include_all);
        proof {
            assert(all_models.take(i as int + 1) =~= all_models.take(i as int).push(
                entries@[i as int]@,
            ));
            lemma_filter_push(
                all_models.take(i as int),
                entries@[i as int]@,
                retained_pred(include_all),
            );
        }
        if keep {
            let e = KeyValueEntry::new(
                crate::bytes::copy_bytes(&entries[i].key),
                crate::bytes::copy_bytes(&entries[i].value),
                entries[i].lease_id,
            );
            out.push(e);
            proof {
                assert(e@ == entries@[i as int]@);
                assert(models_of(out@) =~= filter_spec(all_models.take(i as int), include_all).push(
                    entries@[i as int]@,
                ));
            }
        }
        i += 1;
    }
    proof {
        assert(all_models.take(entries@.len() as int) =~= all_models);
    }
    out
}

} // verus!

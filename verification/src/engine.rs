use vstd::prelude::*;

use crate::bytes::{copy_bytes, lemma_lex_lt_irreflexive, lex_lt};
use crate::entry::{distinct_keys, models_of, KeyValueEntry};
use crate::errors::SyncError;
use crate::policy::{filter_entries, filter_spec};
use crate::snapshot::{pair_models, snap_contents, Snapshot};
use crate::writes::{store_entries, stored_map};

verus! {

/// Lands one fetch result in the local snapshot: applies the
/// lease-inclusion policy, writes every survivor as one atomic batch, and
/// forces a durable flush.  The snapshot keeps whatever it already held
/// under other keys; a fresh snapshot ends up holding exactly the
/// survivors.
pub fn dump_to_snapshot(
    snap: &mut Snapshot,
    entries: Vec<KeyValueEntry>,
    include_all: bool,
) -> (r: Result<(), SyncError>)
    ensures
        r is Ok ==> snap_contents(*final(snap)) == store_entries(
            snap_contents(*old(snap)),
            filter_spec(models_of(entries@), include_all),
        ),
        r is Err ==> r == Err::<(), SyncError>(SyncError::Storage),
{
    let kept = filter_entries(entries, include_all);
    match snap.write_batch(&kept) {
        Ok(_) => {},
        Err(_) => {
            return Err(SyncError::Storage);
        },
    }
    match snap.flush() {
        Ok(_) => Ok(()),
        Err(_) => Err(SyncError::Storage),
    }
}

/// The writes a restore issues, in the order it issues them: every entry
/// of the snapshot, in ascending key order, each as a permanent write.
/// The caller performs them one by one against the remote store and stops
/// at the first failure.
pub fn restore_plan(snap: &Snapshot) -> (r: Vec<KeyValueEntry>)
    ensures
        stored_map(models_of(r@)) == snap_contents(*snap),
        forall|i: int| 0 <= i < r@.len() ==> r@[i]@.lease == 0,
        forall|i: int, j: int| 0 <= i < j < r@.len() ==> lex_lt(r@[i]@.key, r@[j]@.key),
        distinct_keys(models_of(r@)),
{
    let pairs = snap.iterate();
    let mut out: Vec<KeyValueEntry> = Vec::new();
    let mut i: usize = 0;
    while i < pairs.len()
        invariant
            i <= pairs@.len(),
            out@.len() == i,
            forall|j: int| 0 <= j < i ==> out@[j]@ == pair_models(pairs@)[j],
        decreases pairs@.len() - i,
    {
        let e = KeyValueEntry::new(copy_bytes(&pairs[i].0), copy_bytes(&pairs[i].1), 0);
        out.push(e);
        proof {
            assert(e@ == pair_models(pairs@)[i as int]);
        }
        i += 1;
    }
    proof {
        assert forall|j: int| 0 <= j < out@.len() implies models_of(out@)[j] == pair_models(
            pairs@,
        )[j] by {
            assert(models_of(out@)[j] == out@[j]@);
        }
        assert(models_of(out@) =~= pair_models(pairs@));
        assert forall|j: int| 0 <= j < out@.len() implies out@[j]@.lease == 0 by {
            assert(out@[j]@ == pair_models(pairs@)[j]);
        }
        assert forall|a: int, b: int| 0 <= a < b < out@.len() implies lex_lt(
            out@[a]@.key,
            out@[b]@.key,
        ) by {
            assert(out@[a]@ == pair_models(pairs@)[a]);
            assert(out@[b]@ == pair_models(pairs@)[b]);
            assert(lex_lt(pairs@[a].0@, pairs@[b].0@));
        }
        assert forall|a: int, b: int|
            0 <= a < b < models_of(out@).len() implies models_of(out@)[a].key != models_of(
            out@,
        )[b].key by {
            assert(models_of(out@)[a] == out@[a]@);
            assert(models_of(out@)[b] == out@[b]@);
            assert(lex_lt(out@[a]@.key, out@[b]@.key));
            if out@[a]@.key == out@[b]@.key {
                lemma_lex_lt_irreflexive(out@[a]@.key);
            }
        }
    }
    out
}

} // verus!

//! What holds of every admission and of every change of the directory.
use vstd::prelude::*;
use crate::admission::{
    admitted, committed, eligible, held_timestamp, judged, lemma_admitted_step, lemma_admitted_stops, mentions,
    Admission, Outcome,
};
use crate::cache::CacheView;
use crate::crypto::{signature_valid, PublicKeyView};
use crate::record::{AccountKeyView, Record, MAX_ACCOUNT_DATA_SIZE_BYTES};

verus! {

/// The payload of `record` is within the limit and its signature verifies
/// under the key of its account.
pub open spec fn sound(keys: Map<AccountKeyView, PublicKeyView>, record: Record) -> bool {
    &&& record.payload.len() <= MAX_ACCOUNT_DATA_SIZE_BYTES
    &&& signature_valid(record.signature, record.payload, keys[record.key])
}

/// `held` with each record of `applied` put in the place of its account, in
/// order.
pub open spec fn merged(held: Map<AccountKeyView, Record>, applied: Seq<Record>) -> Map<AccountKeyView, Record>
    decreases applied.len(),
{
    if applied.len() == 0 {
        held
    } else {
        merged(held, applied.drop_last()).insert(applied.last().key, applied.last())
    }
}

/// Installing the directory that is installed leaves the cache as it was,
/// and installing a directory a second time changes nothing more.
pub proof fn law_set_keys_idempotent(cache: CacheView, keys: Map<AccountKeyView, PublicKeyView>)
    requires
        cache.wf(),
    ensures
        cache.with_keys(cache.keys) == cache,
        cache.with_keys(keys).with_keys(keys) == cache.with_keys(keys),
{
    assert(cache.data.restrict(cache.keys.dom()) =~= cache.data);
    assert(cache.data.restrict(keys.dom()).restrict(keys.dom()) =~= cache.data.restrict(keys.dom()));
}

/// After a directory has been installed, the cache holds a record for an
/// account exactly if it held one before and the directory authorizes the
/// account, and it is the record held before.
pub proof fn law_orphans_evicted(
    cache: CacheView,
    keys: Map<AccountKeyView, PublicKeyView>,
    account: AccountKeyView,
)
    requires
        cache.wf(),
    ensures
        cache.with_keys(keys).wf(),
        cache.with_keys(keys).data.contains_key(account) <==> cache.data.contains_key(account)
            && keys.contains_key(account),
        cache.with_keys(keys).data.contains_key(account) ==> cache.with_keys(keys).data[account]
            == cache.data[account],
{
}

/// What holds of the records that an admission has applied: an account
/// that none of them belongs to holds what it held before; each of them is
/// of an authorized account, within the size limit, signed by that account,
/// newer than what was held before the batch, and held at the end; no two are
/// of the same account; and the records held at the end are those held
/// before with the applied ones merged in.
pub proof fn law_admitted_shape(
    keys: Map<AccountKeyView, PublicKeyView>,
    held: Map<AccountKeyView, Record>,
    batch: Seq<Record>,
)
    ensures
        ({
            let a = admitted(keys, held, batch);
            &&& forall|k: AccountKeyView|
                !(#[trigger] mentions(a.applied, k)) ==> held_timestamp(a.held, k) == held_timestamp(held, k)
                    && (held.contains_key(k) ==> a.held[k] == held[k])
            &&& forall|j: int|
                0 <= j < a.applied.len() ==> eligible(keys, held, #[trigger] a.applied[j]) && sound(
                    keys,
                    a.applied[j],
                ) && a.held.contains_key(a.applied[j].key) && a.held[a.applied[j].key] == a.applied[j]
            &&& forall|i: int, j: int|
                0 <= i < a.applied.len() && 0 <= j < a.applied.len() && i != j ==> (
                #[trigger] a.applied[i]).key != (#[trigger] a.applied[j]).key
            &&& a.held == merged(held, a.applied)
        }),
    decreases batch.len(),
{
    if batch.len() > 0 {
        law_admitted_shape(keys, held, batch.drop_last());
        let before = admitted(keys, held, batch.drop_last());
        let a = admitted(keys, held, batch);
        let r = batch.last();
        if before.error is None && judged(keys, before.held, before.applied, r) == Outcome::Accepted {
            let n = before.applied.len() as int;
            assert(a.applied == before.applied.push(r));
            assert(a.applied.drop_last() =~= before.applied);
            assert(!mentions(before.applied, r.key));
            assert forall|k: AccountKeyView| !(#[trigger] mentions(a.applied, k)) implies held_timestamp(
                a.held,
                k,
            ) == held_timestamp(held, k) && (held.contains_key(k) ==> a.held[k] == held[k]) by {
                assert(a.applied[n].key == r.key);
                if mentions(before.applied, k) {
                    let j = choose|j: int| 0 <= j < before.applied.len() && before.applied[j].key == k;
                    assert(a.applied[j].key == k);
                }
            }
            assert forall|j: int| 0 <= j < a.applied.len() implies eligible(keys, held, #[trigger] a.applied[j])
                && sound(keys, a.applied[j]) && a.held.contains_key(a.applied[j].key) && a.held[a.applied[j].key]
                == a.applied[j] by {
                if j < n {
                    assert(a.applied[j] == before.applied[j]);
                    assert(before.applied[j].key != r.key);
                }
            }
            assert forall|i: int, j: int|
                0 <= i < a.applied.len() && 0 <= j < a.applied.len() && i != j implies (
            #[trigger] a.applied[i]).key != (#[trigger] a.applied[j]).key by {
                if i < n {
                    assert(a.applied[i] == before.applied[i]);
                }
                if j < n {
                    assert(a.applied[j] == before.applied[j]);
                }
            }
        }
    }
}

/// The records held never get older: an account that held a record before a
/// batch holds one after it, with a timestamp that is no smaller, and every
/// record that the batch applied is newer than the one its account held.
pub proof fn law_freshness_monotone(
    keys: Map<AccountKeyView, PublicKeyView>,
    held: Map<AccountKeyView, Record>,
    batch: Seq<Record>,
    account: AccountKeyView,
)
    requires
        held.contains_key(account),
    ensures
        admitted(keys, held, batch).held.contains_key(account),
        admitted(keys, held, batch).held[account].timestamp >= held[account].timestamp,
        forall|j: int|
            0 <= j < admitted(keys, held, batch).applied.len() && (#[trigger] admitted(
                keys,
                held,
                batch,
            ).applied[j]).key == account ==> admitted(keys, held, batch).applied[j].timestamp
                > held[account].timestamp,
{
    law_admitted_shape(keys, held, batch);
    let a = admitted(keys, held, batch);
    if mentions(a.applied, account) {
        let j = choose|j: int| 0 <= j < a.applied.len() && a.applied[j].key == account;
        assert(eligible(keys, held, a.applied[j]));
    }
}

/// A record that is not newer than the one held for its account is never
/// applied and changes nothing; it is passed over without an error unless its
/// payload is too large or its signature does not verify. A newer record
/// that is sound takes the place of the one held.
pub proof fn law_single_record(
    keys: Map<AccountKeyView, PublicKeyView>,
    held: Map<AccountKeyView, Record>,
    record: Record,
)
    requires
        keys.contains_key(record.key),
        held.contains_key(record.key),
    ensures
        record.timestamp <= held[record.key].timestamp ==> {
            &&& admitted(keys, held, seq![record]).held == held
            &&& admitted(keys, held, seq![record]).applied == Seq::<Record>::empty()
            &&& sound(keys, record) ==> admitted(keys, held, seq![record]).error is None
        },
        record.timestamp > held[record.key].timestamp && sound(keys, record) ==> admitted(
            keys,
            held,
            seq![record],
        ) == (Admission { held: held.insert(record.key, record), applied: seq![record], error: None }),
{
    let batch = seq![record];
    assert(batch.drop_last() =~= Seq::empty());
    assert(batch.last() == record);
    assert(admitted(keys, held, batch.drop_last()) == (Admission { held, applied: Seq::empty(), error: None }));
    assert(!mentions(Seq::<Record>::empty(), record.key));
    assert(Seq::<Record>::empty().push(record) =~= seq![record]);
}

/// A record of an account that the directory does not authorize is never
/// applied.
pub proof fn law_applied_are_authorized(
    keys: Map<AccountKeyView, PublicKeyView>,
    held: Map<AccountKeyView, Record>,
    batch: Seq<Record>,
    j: int,
)
    requires
        0 <= j < admitted(keys, held, batch).applied.len(),
    ensures
        keys.contains_key(admitted(keys, held, batch).applied[j].key),
{
    law_admitted_shape(keys, held, batch);
    assert(eligible(keys, held, admitted(keys, held, batch).applied[j]));
}

/// A record of an account that the directory does not authorize leaves no
/// trace: with it or without it at any place of a batch, the admission ends
/// in the same state, with the same records applied and the same error.
pub proof fn law_unauthorized_ignored(
    keys: Map<AccountKeyView, PublicKeyView>,
    held: Map<AccountKeyView, Record>,
    front: Seq<Record>,
    record: Record,
    back: Seq<Record>,
)
    requires
        !keys.contains_key(record.key),
    ensures
        admitted(keys, held, front.push(record) + back) == admitted(keys, held, front + back),
    decreases back.len(),
{
    if back.len() == 0 {
        assert(front.push(record) + back =~= front.push(record));
        assert(front + back =~= front);
        assert(front.push(record).drop_last() =~= front);
    } else {
        law_unauthorized_ignored(keys, held, front, record, back.drop_last());
        assert((front.push(record) + back).drop_last() =~= front.push(record) + back.drop_last());
        assert((front + back).drop_last() =~= front + back.drop_last());
        assert((front.push(record) + back).last() == back.last());
        assert((front + back).last() == back.last());
    }
}

/// The batch ends at the first record that is rejected: if the records before
/// place `i` are admitted without an error and the record at `i` is rejected,
/// the whole batch ends as those records did, with that error.
pub proof fn law_fail_fast(
    keys: Map<AccountKeyView, PublicKeyView>,
    held: Map<AccountKeyView, Record>,
    batch: Seq<Record>,
    i: int,
)
    requires
        0 <= i < batch.len(),
        admitted(keys, held, batch.take(i)).error is None,
        judged(
            keys,
            admitted(keys, held, batch.take(i)).held,
            admitted(keys, held, batch.take(i)).applied,
            batch[i],
        ) is Rejected,
    ensures
        admitted(keys, held, batch) == (Admission {
            error: Some(
                judged(
                    keys,
                    admitted(keys, held, batch.take(i)).held,
                    admitted(keys, held, batch.take(i)).applied,
                    batch[i],
                )->Rejected_0,
            ),
            ..admitted(keys, held, batch.take(i))
        }),
{
    lemma_admitted_step(keys, held, batch, i);
    lemma_admitted_stops(keys, held, batch, i + 1);
}

/// As long as no record is rejected, the records applied are exactly the
/// records of the batch that are eligible, in the order of the batch.
pub proof fn law_applied_are_the_eligible(
    keys: Map<AccountKeyView, PublicKeyView>,
    held: Map<AccountKeyView, Record>,
    batch: Seq<Record>,
)
    requires
        admitted(keys, held, batch).error is None,
    ensures
        admitted(keys, held, batch).applied == batch.filter(|r: Record| eligible(keys, held, r)),
    decreases batch.len(),
{
    reveal(Seq::filter);
    if batch.len() > 0 {
        let before = admitted(keys, held, batch.drop_last());
        law_applied_are_the_eligible(keys, held, batch.drop_last());
        law_admitted_shape(keys, held, batch.drop_last());
        let r = batch.last();
        if keys.contains_key(r.key) {
            assert(!mentions(before.applied, r.key));
        }
    }
}

/// The records held after a batch are those held before it with the applied
/// records merged in, whether the batch ended with an error or not.
pub proof fn law_held_is_merged(
    keys: Map<AccountKeyView, PublicKeyView>,
    held: Map<AccountKeyView, Record>,
    batch: Seq<Record>,
)
    ensures
        admitted(keys, held, batch).held == merged(held, admitted(keys, held, batch).applied),
{
    law_admitted_shape(keys, held, batch);
}

/// Merging records leaves alone the accounts that none of them belongs to.
pub proof fn lemma_merged_elsewhere(
    held: Map<AccountKeyView, Record>,
    applied: Seq<Record>,
    account: AccountKeyView,
)
    requires
        !mentions(applied, account),
    ensures
        held_timestamp(merged(held, applied), account) == held_timestamp(held, account),
    decreases applied.len(),
{
    if applied.len() > 0 {
        let n = applied.len() - 1;
        assert(applied[n].key != account);
        assert forall|j: int| 0 <= j < n implies (#[trigger] applied.drop_last()[j]).key != account by {
            assert(applied[j].key != account);
        }
        lemma_merged_elsewhere(held, applied.drop_last(), account);
    }
}

/// Records of different accounts, each eligible before any of them is
/// applied, are all applied when they are committed in order.
pub proof fn lemma_committed_all(
    keys: Map<AccountKeyView, PublicKeyView>,
    held: Map<AccountKeyView, Record>,
    verified: Seq<Record>,
)
    requires
        forall|j: int| 0 <= j < verified.len() ==> eligible(keys, held, #[trigger] verified[j]),
        forall|i: int, j: int|
            0 <= i < verified.len() && 0 <= j < verified.len() && i != j ==> (#[trigger] verified[i]).key != (
            #[trigger] verified[j]).key,
    ensures
        committed(keys, held, verified) == (Admission {
            held: merged(held, verified),
            applied: verified,
            error: None,
        }),
    decreases verified.len(),
{
    if verified.len() == 0 {
        assert(verified =~= Seq::empty());
    } else {
        let n = verified.len() - 1;
        let rest = verified.drop_last();
        let r = verified.last();
        assert forall|j: int| 0 <= j < rest.len() implies eligible(keys, held, #[trigger] rest[j]) by {
            assert(rest[j] == verified[j]);
        }
        assert forall|i: int, j: int| 0 <= i < rest.len() && 0 <= j < rest.len() && i != j implies (
        #[trigger] rest[i]).key != (#[trigger] rest[j]).key by {
            assert(rest[i] == verified[i]);
            assert(rest[j] == verified[j]);
        }
        lemma_committed_all(keys, held, rest);
        assert(!mentions(rest, r.key)) by {
            assert forall|j: int| 0 <= j < rest.len() implies (#[trigger] rest[j]).key != r.key by {
                assert(rest[j] == verified[j]);
                assert(verified[n] == r);
            }
        }
        lemma_merged_elsewhere(held, rest, r.key);
        assert(eligible(keys, held, verified[n]));
        assert(rest.push(r) =~= verified);
    }
}

/// Verifying a batch and then committing what was verified, with nothing
/// happening in between, is admitting the batch.
pub proof fn law_verify_then_commit(
    keys: Map<AccountKeyView, PublicKeyView>,
    held: Map<AccountKeyView, Record>,
    batch: Seq<Record>,
)
    ensures
        committed(keys, held, admitted(keys, held, batch).applied).held == admitted(keys, held, batch).held,
        committed(keys, held, admitted(keys, held, batch).applied).applied == admitted(
            keys,
            held,
            batch,
        ).applied,
{
    law_admitted_shape(keys, held, batch);
    lemma_committed_all(keys, held, admitted(keys, held, batch).applied);
}

/// Committing records keeps the cache well formed, and applies only
/// records that are eligible when their turn comes.
pub proof fn law_commit_keeps_wf(cache: CacheView, verified: Seq<Record>)
    requires
        cache.wf(),
    ensures
        cache.with_committed(verified).wf(),
        committed(cache.keys, cache.data, verified).error is None,
        forall|j: int|
            0 <= j < committed(cache.keys, cache.data, verified).applied.len() ==> cache.keys.contains_key(
                (#[trigger] committed(cache.keys, cache.data, verified).applied[j]).key,
            ),
    decreases verified.len(),
{
    if verified.len() > 0 {
        law_commit_keeps_wf(cache, verified.drop_last());
        let before = committed(cache.keys, cache.data, verified.drop_last());
        let after = committed(cache.keys, cache.data, verified);
        if eligible(cache.keys, before.held, verified.last()) {
            assert forall|j: int| 0 <= j < after.applied.len() implies cache.keys.contains_key(
                (#[trigger] after.applied[j]).key,
            ) by {
                if j < before.applied.len() {
                    assert(after.applied[j] == before.applied[j]);
                }
            }
        }
    }
}

/// Admitting a batch keeps the cache well formed.
pub proof fn law_batch_keeps_wf(cache: CacheView, batch: Seq<Record>)
    requires
        cache.wf(),
    ensures
        cache.with_batch(batch).wf(),
{
    law_admitted_shape(cache.keys, cache.data, batch);
    let a = admitted(cache.keys, cache.data, batch);
    assert forall|k: AccountKeyView| #[trigger] a.held.contains_key(k) implies cache.keys.contains_key(k)
        && a.held[k].key == k by {
        if mentions(a.applied, k) {
            let j = choose|j: int| 0 <= j < a.applied.len() && a.applied[j].key == k;
            assert(eligible(cache.keys, cache.data, a.applied[j]));
        } else {
            assert(held_timestamp(a.held, k) == held_timestamp(cache.data, k));
        }
    }
}

} // verus!

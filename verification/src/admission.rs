//! The rules by which a batch of records is admitted.
//!
//! The records of a batch are judged in order. Each one is dropped, accepted,
//! or rejected with an error; a rejection ends the batch, and what was accepted
//! before it stays accepted.
use vstd::prelude::*;
use crate::crypto::{signature_valid, PublicKeyView};
use crate::record::{AccountKeyView, Error, Record, SignedAccountData, MAX_ACCOUNT_DATA_SIZE_BYTES};

verus! {

/// What becomes of one record of a batch.
#[derive(Clone, Copy, Debug, PartialEq, Eq, Structural)]
pub enum Outcome {
    /// The record is passed over; the batch goes on.
    Dropped,
    /// The record is held from now on.
    Accepted,
    /// The record is refused, and the batch ends here.
    Rejected(Error),
}

/// The state of an admission: the records held, the records that the batch
/// has added so far, and the error that ended it, if one did.
pub struct Admission {
    pub held: Map<AccountKeyView, Record>,
    pub applied: Seq<Record>,
    pub error: Option<Error>,
}

/// The records that a vector of signed account data stands for.
pub open spec fn records(batch: Seq<SignedAccountData>) -> Seq<Record> {
    batch.map_values(|r: SignedAccountData| r@)
}

/// Whether one of `applied` is a record of the account `key`.
pub open spec fn mentions(applied: Seq<Record>, key: AccountKeyView) -> bool {
    exists|j: int| 0 <= j < applied.len() && (#[trigger] applied[j]).key == key
}

/// The timestamp of the record held for `key`, if one is held.
pub open spec fn held_timestamp(held: Map<AccountKeyView, Record>, key: AccountKeyView) -> Option<int> {
    if held.contains_key(key) {
        Some(held[key].timestamp)
    } else {
        None
    }
}

/// What the checks that come before the signature check decide: a record of
/// an account that is not authorized is dropped, a payload over the limit is
/// rejected, and so is a record of an account that the batch has already
/// updated. `None` means that the signature has to be checked.
pub open spec fn screened(authorized: bool, payload_len: nat, repeated: bool) -> Option<Outcome> {
    if !authorized {
        Some(Outcome::Dropped)
    } else if payload_len > MAX_ACCOUNT_DATA_SIZE_BYTES {
        Some(Outcome::Rejected(Error::DataTooLarge))
    } else if repeated {
        Some(Outcome::Rejected(Error::SingleAccountMultipleData))
    } else {
        None
    }
}

/// What is decided once the signature has been checked: a bad signature is
/// rejected, a record that is not newer than the one held is dropped, and
/// any other is accepted.
pub open spec fn settled(signature_ok: bool, held: Option<int>, timestamp: int) -> Outcome {
    if !signature_ok {
        Outcome::Rejected(Error::InvalidSignature)
    } else if held is Some && held->0 >= timestamp {
        Outcome::Dropped
    } else {
        Outcome::Accepted
    }
}

/// What becomes of `record` when `keys` is the directory, `held` the records
/// held and `applied` what the batch has added before it.
pub open spec fn judged(
    keys: Map<AccountKeyView, PublicKeyView>,
    held: Map<AccountKeyView, Record>,
    applied: Seq<Record>,
    record: Record,
) -> Outcome {
    match screened(keys.contains_key(record.key), record.payload.len(), mentions(applied, record.key)) {
        Some(outcome) => outcome,
        None => settled(
            signature_valid(record.signature, record.payload, keys[record.key]),
            held_timestamp(held, record.key),
            record.timestamp,
        ),
    }
}

/// The admission of `batch`, record by record from the first, into `held`
/// under the directory `keys`.
pub open spec fn admitted(
    keys: Map<AccountKeyView, PublicKeyView>,
    held: Map<AccountKeyView, Record>,
    batch: Seq<Record>,
) -> Admission
    decreases batch.len(),
{
    if batch.len() == 0 {
        Admission { held, applied: Seq::empty(), error: None }
    } else {
        let before = admitted(keys, held, batch.drop_last());
        if before.error is Some {
            before
        } else {
            match judged(keys, before.held, before.applied, batch.last()) {
                Outcome::Dropped => before,
                Outcome::Accepted => Admission {
                    held: before.held.insert(batch.last().key, batch.last()),
                    applied: before.applied.push(batch.last()),
                    error: None,
                },
                Outcome::Rejected(error) => Admission { error: Some(error), ..before },
            }
        }
    }
}

/// The account of `record` is authorized, and the record is newer than the
/// one held for the account, if one is held.
pub open spec fn eligible(
    keys: Map<AccountKeyView, PublicKeyView>,
    held: Map<AccountKeyView, Record>,
    record: Record,
) -> bool {
    &&& keys.contains_key(record.key)
    &&& held.contains_key(record.key) ==> held[record.key].timestamp < record.timestamp
}

/// The commitment of records that were verified earlier: each one, in
/// order, is applied if it is eligible when its turn comes, and passed over
/// if it is not. No signature is checked, and no error arises.
pub open spec fn committed(
    keys: Map<AccountKeyView, PublicKeyView>,
    held: Map<AccountKeyView, Record>,
    verified: Seq<Record>,
) -> Admission
    decreases verified.len(),
{
    if verified.len() == 0 {
        Admission { held, applied: Seq::empty(), error: None }
    } else {
        let before = committed(keys, held, verified.drop_last());
        if eligible(keys, before.held, verified.last()) {
            Admission {
                held: before.held.insert(verified.last().key, verified.last()),
                applied: before.applied.push(verified.last()),
                error: None,
            }
        } else {
            before
        }
    }
}

/// Judges a record by the checks that need no signature check.
pub fn screen(authorized: bool, payload_len: usize, repeated: bool) -> (outcome: Option<Outcome>)
    ensures
        outcome == screened(authorized, payload_len as nat, repeated),
{
    if !authorized {
        Some(Outcome::Dropped)
    } else if payload_len > MAX_ACCOUNT_DATA_SIZE_BYTES {
        Some(Outcome::Rejected(Error::DataTooLarge))
    } else if repeated {
        Some(Outcome::Rejected(Error::SingleAccountMultipleData))
    } else {
        None
    }
}

/// Judges a record that passed [`screen`], given whether its signature
/// verified and the timestamp of the record held for its account.
pub fn settle(signature_ok: bool, held: Option<i128>, timestamp: i128) -> (outcome: Outcome)
    ensures
        outcome == settled(
            signature_ok,
            match held {
                Some(t) => Some(t as int),
                None => None,
            },
            timestamp as int,
        ),
{
    if !signature_ok {
        Outcome::Rejected(Error::InvalidSignature)
    } else {
        match held {
            Some(t) => if t >= timestamp {
                Outcome::Dropped
            } else {
                Outcome::Accepted
            },
            None => Outcome::Accepted,
        }
    }
}

/// The admission of a batch goes one record further.
pub proof fn lemma_admitted_step(
    keys: Map<AccountKeyView, PublicKeyView>,
    held: Map<AccountKeyView, Record>,
    batch: Seq<Record>,
    n: int,
)
    requires
        0 <= n < batch.len(),
    ensures
        batch.take(n + 1).drop_last() == batch.take(n),
        batch.take(n + 1).last() == batch[n],
        admitted(keys, held, batch.take(n)).error is Some ==> admitted(keys, held, batch.take(n + 1))
            == admitted(keys, held, batch.take(n)),
{
    assert(batch.take(n + 1).drop_last() =~= batch.take(n));
}

/// Once a prefix of a batch has ended with an error, the rest of the batch
/// changes nothing.
pub proof fn lemma_admitted_stops(
    keys: Map<AccountKeyView, PublicKeyView>,
    held: Map<AccountKeyView, Record>,
    batch: Seq<Record>,
    n: int,
)
    requires
        0 <= n <= batch.len(),
        admitted(keys, held, batch.take(n)).error is Some,
    ensures
        admitted(keys, held, batch) == admitted(keys, held, batch.take(n)),
    decreases batch.len() - n,
{
    if n == batch.len() {
        assert(batch.take(n) =~= batch);
    } else {
        lemma_admitted_step(keys, held, batch, n);
        lemma_admitted_stops(keys, held, batch, n + 1);
    }
}

} // verus!

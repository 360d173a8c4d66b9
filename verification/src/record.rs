//! Signed account data and the errors of its admission.
use vstd::prelude::*;
use crate::crypto::{PublicKey, Signature, SignatureView, signature_valid};

verus! {

/// The largest payload, in bytes, that a record may carry.
pub const MAX_ACCOUNT_DATA_SIZE_BYTES: usize = 10000;

/// Why the admission of a batch stopped early.
#[derive(Clone, Copy, Debug, PartialEq, Eq, Hash, Structural)]
pub enum Error {
    /// A record's signature does not verify under the account's key.
    InvalidSignature,
    /// A record's payload is larger than `MAX_ACCOUNT_DATA_SIZE_BYTES`.
    DataTooLarge,
    /// A batch held a second record for an account it had already updated.
    SingleAccountMultipleData,
}

/// Names an account within an epoch.
#[derive(Debug, PartialEq, Eq, Hash)]
pub struct AccountKey {
    pub epoch_id: Vec<u8>,
    pub account_id: String,
}

/// What an [`AccountKey`] stands for in contracts.
pub struct AccountKeyView {
    pub epoch_id: Seq<u8>,
    pub account_id: Seq<char>,
}

impl View for AccountKey {
    type V = AccountKeyView;

    open spec fn view(&self) -> AccountKeyView {
        AccountKeyView { epoch_id: self.epoch_id@, account_id: self.account_id@ }
    }
}

impl Clone for AccountKey {
    fn clone(&self) -> (copy: Self)
        ensures
            copy@ == self@,
    {
        AccountKey { epoch_id: self.epoch_id.clone(), account_id: self.account_id.clone() }
    }
}

impl AccountKey {
    /// Whether two keys name the same account in the same epoch.
    pub fn same(&self, other: &AccountKey) -> (same: bool)
        ensures
            same == (self@ == other@),
    {
        let same_epoch = self.epoch_id == other.epoch_id;
        assert(same_epoch == (self.epoch_id@ =~= other.epoch_id@));
        same_epoch && self.account_id == other.account_id
    }
}

/// Data that an account published about itself, with its signature.
#[derive(Debug, PartialEq, Eq, Hash)]
pub struct SignedAccountData {
    pub key: AccountKey,
    /// Nanoseconds since the Unix epoch.
    pub timestamp: i128,
    pub payload: Vec<u8>,
    pub signature: Signature,
}

/// What a [`SignedAccountData`] stands for in contracts.
pub struct Record {
    pub key: AccountKeyView,
    pub timestamp: int,
    pub payload: Seq<u8>,
    pub signature: SignatureView,
}

impl View for SignedAccountData {
    type V = Record;

    open spec fn view(&self) -> Record {
        Record {
            key: self.key@,
            timestamp: self.timestamp as int,
            payload: self.payload@,
            signature: self.signature@,
        }
    }
}

impl Clone for SignedAccountData {
    fn clone(&self) -> (copy: Self)
        ensures
            copy@ == self@,
    {
        SignedAccountData {
            key: self.key.clone(),
            timestamp: self.timestamp,
            payload: self.payload.clone(),
            signature: self.signature.clone(),
        }
    }
}

impl SignedAccountData {
    /// Checks the signature over the payload under `public_key`.
    pub fn verify(&self, public_key: &PublicKey) -> (ok: bool)
        ensures
            ok == signature_valid(self@.signature, self@.payload, public_key@),
    {
        self.signature.verify(&self.payload, public_key)
    }
}

} // verus!

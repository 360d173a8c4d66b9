//! A validated cache of signed account data.
//!
//! A node keeps, for every account that is authorized in the current epoch,
//! the newest signed record that the account has published about itself.
//! [`Cache`] holds the directory of authorized keys together with the accepted
//! records, and admits batches of untrusted records one by one: records of
//! unknown accounts and stale records are dropped, while an oversized payload,
//! a second record for one account or a bad signature ends the batch.
pub mod admission;
pub mod assoc;
pub mod cache;
pub mod crypto;
pub mod keys;
pub mod laws;
pub mod record;

pub use crate::admission::{screen, settle, Admission, Outcome};
pub use crate::cache::{unwrap, Cache, CacheView};
pub use crate::crypto::{KeyType, PublicKey, PublicKeyView, Signature, SignatureView};
pub use crate::keys::AccountKeys;
pub use crate::record::{
    AccountKey, AccountKeyView, Error, Record, SignedAccountData, MAX_ACCOUNT_DATA_SIZE_BYTES,
};

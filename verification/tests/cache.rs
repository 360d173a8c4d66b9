use accounts_data::{
    unwrap, AccountKey, AccountKeys, Cache, Error, KeyType, PublicKey, Signature, SignedAccountData,
    MAX_ACCOUNT_DATA_SIZE_BYTES,
};
use near_network_primitives::time;
use near_primitives::hash::CryptoHash;
use near_primitives::types::{AccountId, EpochId};
use std::collections::HashSet;
use std::sync::Arc;

/// A small deterministic generator, so that every run signs the same data.
struct Rng(u64);

fn make_rng(seed: u64) -> Rng {
    Rng(seed)
}

impl Rng {
    fn next(&mut self) -> u64 {
        self.0 ^= self.0 << 13;
        self.0 ^= self.0 >> 7;
        self.0 ^= self.0 << 17;
        self.0
    }

    fn bytes(&mut self, n: usize) -> Vec<u8> {
        (0..n).map(|_| (self.next() >> 24) as u8).collect()
    }
}

struct Signer {
    epoch_id: EpochId,
    signer: near_crypto::InMemorySigner,
}

fn key_type(t: near_crypto::KeyType) -> KeyType {
    match t {
        near_crypto::KeyType::ED25519 => KeyType::ED25519,
        near_crypto::KeyType::SECP256K1 => KeyType::SECP256K1,
    }
}

fn public_key(key: &near_crypto::PublicKey) -> PublicKey {
    PublicKey { key_type: key_type(key.key_type()), data: key.key_data().to_vec() }
}

fn signature(signature: &near_crypto::Signature) -> Signature {
    let data = match signature {
        near_crypto::Signature::ED25519(s) => s.to_bytes().to_vec(),
        near_crypto::Signature::SECP256K1(s) => <[u8; 65]>::from(s.clone()).to_vec(),
    };
    Signature { key_type: key_type(signature.key_type()), data }
}

fn account_key(epoch_id: &EpochId, account_id: &AccountId) -> AccountKey {
    AccountKey { epoch_id: epoch_id.0 .0.to_vec(), account_id: account_id.to_string() }
}

impl Signer {
    fn key(&self) -> AccountKey {
        account_key(&self.epoch_id, &self.signer.account_id)
    }

    fn make_account_data(&self, rng: &mut Rng, timestamp: time::Utc) -> SignedAccountData {
        let mut payload = rng.bytes(40);
        payload.extend_from_slice(self.signer.account_id.as_ref().as_bytes());
        payload.extend_from_slice(&self.epoch_id.0 .0);
        payload.extend_from_slice(&timestamp.unix_timestamp_nanos().to_be_bytes());
        let signed = self.signer.secret_key.sign(&payload);
        SignedAccountData {
            key: self.key(),
            timestamp: timestamp.unix_timestamp_nanos(),
            payload,
            signature: signature(&signed),
        }
    }
}

fn make_signers(rng: &mut Rng, n: usize) -> Vec<Signer> {
    (0..n)
        .map(|_| {
            let mut hash = [0u8; 32];
            hash.copy_from_slice(&rng.bytes(32));
            let account_id: AccountId = format!("account{}", rng.next()).parse().unwrap();
            let seed = format!("seed{}", rng.next());
            Signer {
                epoch_id: EpochId(CryptoHash(hash)),
                signer: near_crypto::InMemorySigner::from_seed(
                    account_id,
                    near_crypto::KeyType::ED25519,
                    &seed,
                ),
            }
        })
        .collect()
}

fn make_account_keys(signers: &[Signer]) -> Arc<AccountKeys> {
    let mut keys = AccountKeys::new();
    for s in signers {
        keys.insert(s.key(), public_key(&s.signer.public_key));
    }
    Arc::new(keys)
}

fn as_set(records: &[&SignedAccountData]) -> HashSet<SignedAccountData> {
    records.iter().map(|r| (*r).clone()).collect()
}

fn to_set(records: &Vec<SignedAccountData>) -> HashSet<SignedAccountData> {
    records.iter().cloned().collect()
}

fn assert_is_superset(sup: &HashSet<SignedAccountData>, sub: &HashSet<SignedAccountData>) {
    assert!(sup.is_superset(sub), "{:?} is not a superset of {:?}", sup, sub);
}

fn now() -> time::Utc {
    time::FakeClock::default().now_utc()
}

#[test]
fn happy_path() {
    let mut rng = make_rng(2947294234);
    let rng = &mut rng;
    let now = now();

    let signers: Vec<_> = make_signers(rng, 7);
    let e0 = make_account_keys(&signers[0..5]);
    let e1 = make_account_keys(&signers[2..7]);

    let mut cache = Cache::new();
    assert_eq!(cache.dump(), vec![]); // initially empty
    assert!(cache.set_keys(e0.clone()));
    assert_eq!(cache.dump(), vec![]); // empty after initial set_keys.

    // initial insert
    let a0 = signers[0].make_account_data(rng, now);
    let a1 = signers[1].make_account_data(rng, now);
    let res = cache.insert(vec![a0.clone(), a1.clone()]);
    assert_eq!(None, res.1);
    assert_eq!(as_set(&[&a0, &a1]), to_set(unwrap(&res)));
    assert_eq!(as_set(&[&a0, &a1]), to_set(&cache.dump()));

    // entries of various types
    let a0new = signers[0].make_account_data(rng, now + time::Duration::seconds(1));
    let a1old = signers[1].make_account_data(rng, now - time::Duration::seconds(1));
    let a2 = signers[2].make_account_data(rng, now);
    let a5 = signers[5].make_account_data(rng, now);
    let res = cache.insert(vec![
        a2.clone(),    // initial value => insert
        a0new.clone(), // with newer timestamp => insert,
        a1old.clone(), // with older timestamp => filter out,
        a5.clone(),    // not in e0 => filter out.
    ]);
    assert_eq!(None, res.1);
    assert_eq!(as_set(&[&a2, &a0new]), to_set(unwrap(&res)));
    assert_eq!(as_set(&[&a0new, &a1, &a2]), to_set(&cache.dump()));

    // try setting the same key set again, should be a noop.
    assert!(!cache.set_keys(e0));
    assert_eq!(as_set(&[&a0new, &a1, &a2]), to_set(&cache.dump()));

    // set_keys again. Data for accounts which are not in the new set should be dropped.
    assert!(cache.set_keys(e1));
    assert_eq!(as_set(&[&a2]), to_set(&cache.dump()));
    // insert some entries again.
    let res = cache.insert(vec![
        a0.clone(), // a0 is not in e1 => filter out
        a5.clone(), // a5 is in e1 => insert,
    ]);
    assert_eq!(None, res.1);
    assert_eq!(as_set(&[&a5]), to_set(unwrap(&res)));
    assert_eq!(as_set(&[&a2, &a5]), to_set(&cache.dump()));
}

#[test]
fn data_too_large() {
    let mut rng = make_rng(2947294234);
    let rng = &mut rng;
    let now = now();

    let signers = make_signers(rng, 3);
    let e = make_account_keys(&signers);

    let mut cache = Cache::new();
    cache.set_keys(e);
    let a0 = signers[0].make_account_data(rng, now);
    let a1 = signers[1].make_account_data(rng, now);
    let mut a2_too_large = signers[2].make_account_data(rng, now);
    a2_too_large.payload = (0..MAX_ACCOUNT_DATA_SIZE_BYTES + 1).map(|_| 17).collect();

    // too large payload => DataTooLarge
    let res = cache.insert(vec![
        a0.clone(),
        a1.clone(),
        a2_too_large.clone(), // invalid entry => DataTooLarge
    ]);
    assert_eq!(Some(Error::DataTooLarge), res.1);
    // Partial update is allowed, in case an error is encountered.
    assert_is_superset(&as_set(&[&a0, &a1]), &to_set(&res.0));
    // Partial update should match the state.
    assert_eq!(to_set(&res.0), to_set(&cache.dump()));
}

#[test]
fn invalid_signature() {
    let mut rng = make_rng(2947294234);
    let rng = &mut rng;
    let now = now();

    let signers = make_signers(rng, 3);
    let e = make_account_keys(&signers);

    let mut cache = Cache::new();
    cache.set_keys(e);
    let a0 = signers[0].make_account_data(rng, now);
    let a1 = signers[1].make_account_data(rng, now);
    let mut a2_invalid_sig = signers[2].make_account_data(rng, now);
    a2_invalid_sig.signature = a1.signature.clone();

    // invalid signature => InvalidSignature
    let res = cache.insert(vec![
        a0.clone(),
        a1.clone(),
        a2_invalid_sig.clone(), // invalid entry => InvalidSignature
    ]);
    assert_eq!(Some(Error::InvalidSignature), res.1);
    // Partial update is allowed, in case an error is encountered.
    assert_is_superset(&as_set(&[&a0, &a1]), &to_set(&res.0));
    // Partial update should match the state.
    assert_eq!(to_set(&res.0), to_set(&cache.dump()));
}

#[test]
fn single_account_multiple_data() {
    let mut rng = make_rng(2947294234);
    let rng = &mut rng;
    let now = now();

    let signers = make_signers(rng, 3);
    let e = make_account_keys(&signers);

    let mut cache = Cache::new();
    cache.set_keys(e);
    let a0 = signers[0].make_account_data(rng, now);
    let a1 = signers[1].make_account_data(rng, now);
    let a2old = signers[2].make_account_data(rng, now);
    let a2new = signers[2].make_account_data(rng, now + time::Duration::seconds(1));

    // 2 entries for the same (epoch_id,account_id) => SingleAccountMultipleData
    let res = cache.insert(vec![a0.clone(), a1.clone(), a2old.clone(), a2new.clone()]);
    assert_eq!(Some(Error::SingleAccountMultipleData), res.1);
    // Partial update is allowed, in case an error is encountered.
    assert_is_superset(&as_set(&[&a0, &a1, &a2old, &a2new]), &to_set(&res.0));
    // Partial update should match the state, this also verifies that only 1 of the competing
    // entries has been applied.
    assert_eq!(to_set(&res.0), to_set(&cache.dump()));
}

#[test]
fn five_authorized_two_inserted() {
    let mut rng = make_rng(1);
    let rng = &mut rng;
    let signers = make_signers(rng, 5);
    let mut cache = Cache::new();
    assert!(cache.set_keys(make_account_keys(&signers)));
    let a1 = signers[1].make_account_data(rng, now());
    let a3 = signers[3].make_account_data(rng, now());
    let res = cache.insert(vec![a1.clone(), a3.clone()]);
    assert_eq!(res, (vec![a1.clone(), a3.clone()], None));
    assert_eq!(to_set(&cache.dump()), as_set(&[&a1, &a3]));
    assert_eq!(cache.dump().len(), 2);
}

#[test]
fn mixed_batch_keeps_the_fresh_and_the_authorized() {
    let mut rng = make_rng(2);
    let rng = &mut rng;
    let now = now();
    let signers = make_signers(rng, 4);
    let (x, y, z, w) = (&signers[0], &signers[1], &signers[2], &signers[3]);
    let mut cache = Cache::new();
    cache.set_keys(make_account_keys(&signers[0..3]));
    let x0 = x.make_account_data(rng, now);
    let z0 = z.make_account_data(rng, now);
    assert_eq!(cache.insert(vec![x0.clone(), z0.clone()]), (vec![x0.clone(), z0.clone()], None));

    let y1 = y.make_account_data(rng, now);
    let x1 = x.make_account_data(rng, now + time::Duration::seconds(1));
    let z_stale = z.make_account_data(rng, now - time::Duration::seconds(1));
    let w1 = w.make_account_data(rng, now);
    let res = cache.insert(vec![y1.clone(), x1.clone(), z_stale.clone(), w1.clone()]);
    assert_eq!(res, (vec![y1.clone(), x1.clone()], None));
    assert_eq!(to_set(&cache.dump()), as_set(&[&x1, &y1, &z0]));
}

#[test]
fn oversized_third_of_four() {
    let mut rng = make_rng(3);
    let rng = &mut rng;
    let now = now();
    let signers = make_signers(rng, 5);
    let mut cache = Cache::new();
    cache.set_keys(make_account_keys(&signers[0..4]));
    let held = signers[3].make_account_data(rng, now);
    cache.insert(vec![held.clone()]);

    let a0 = signers[0].make_account_data(rng, now);
    let unauthorized = signers[4].make_account_data(rng, now);
    let mut large = signers[1].make_account_data(rng, now);
    large.payload = vec![17; MAX_ACCOUNT_DATA_SIZE_BYTES + 1];
    let a2 = signers[2].make_account_data(rng, now);
    let res = cache.insert(vec![a0.clone(), unauthorized, large, a2.clone()]);
    assert_eq!(res, (vec![a0.clone()], Some(Error::DataTooLarge)));
    // What was held before the batch, and what the batch applied before its end.
    assert_eq!(to_set(&cache.dump()), as_set(&[&held, &a0]));
}

#[test]
fn second_record_of_an_account_ends_the_batch() {
    let mut rng = make_rng(4);
    let rng = &mut rng;
    let now = now();
    let signers = make_signers(rng, 3);
    let mut cache = Cache::new();
    cache.set_keys(make_account_keys(&signers));
    let a0 = signers[0].make_account_data(rng, now);
    let first = signers[1].make_account_data(rng, now);
    let second = signers[1].make_account_data(rng, now + time::Duration::seconds(1));
    let a2 = signers[2].make_account_data(rng, now);
    let res = cache.insert(vec![a0.clone(), first.clone(), second.clone(), a2.clone()]);
    assert_eq!(res.1, Some(Error::SingleAccountMultipleData));
    // The records before the second one stay applied; nothing after it is.
    assert_eq!(res.0, vec![a0.clone(), first.clone()]);
    let dump = to_set(&cache.dump());
    assert_eq!(dump, as_set(&[&a0, &first]));
    assert!(!dump.contains(&second));
    assert!(!dump.contains(&a2));
}

#[test]
fn second_record_older_than_the_first_ends_the_batch_too() {
    let mut rng = make_rng(5);
    let rng = &mut rng;
    let now = now();
    let signers = make_signers(rng, 1);
    let mut cache = Cache::new();
    cache.set_keys(make_account_keys(&signers));
    let newer = signers[0].make_account_data(rng, now + time::Duration::seconds(1));
    let older = signers[0].make_account_data(rng, now);
    let res = cache.insert(vec![newer.clone(), older]);
    assert_eq!(res, (vec![newer.clone()], Some(Error::SingleAccountMultipleData)));
    assert_eq!(cache.dump(), vec![newer]);
}

#[test]
fn stale_record_before_a_fresh_one_is_no_conflict() {
    let mut rng = make_rng(6);
    let rng = &mut rng;
    let now = now();
    let signers = make_signers(rng, 1);
    let mut cache = Cache::new();
    cache.set_keys(make_account_keys(&signers));
    let held = signers[0].make_account_data(rng, now);
    cache.insert(vec![held]);
    let stale = signers[0].make_account_data(rng, now - time::Duration::seconds(1));
    let fresh = signers[0].make_account_data(rng, now + time::Duration::seconds(1));
    let res = cache.insert(vec![stale, fresh.clone()]);
    assert_eq!(res, (vec![fresh.clone()], None));
    assert_eq!(cache.dump(), vec![fresh]);
}

#[test]
fn same_directory_twice_is_true_then_false() {
    let mut rng = make_rng(7);
    let rng = &mut rng;
    let signers = make_signers(rng, 2);
    let keys = make_account_keys(&signers);
    let mut cache = Cache::new();
    assert!(cache.set_keys(keys.clone()));
    let a0 = signers[0].make_account_data(rng, now());
    cache.insert(vec![a0.clone()]);
    assert!(!cache.set_keys(keys.clone()));
    assert_eq!(cache.dump(), vec![a0.clone()]);
    // Another directory with the same entries counts as a change, and keeps the records.
    assert!(cache.set_keys(make_account_keys(&signers)));
    assert_eq!(cache.dump(), vec![a0]);
}

#[test]
fn set_keys_unless_follows_its_flag() {
    let mut rng = make_rng(8);
    let rng = &mut rng;
    let signers = make_signers(rng, 2);
    let mut cache = Cache::new();
    cache.set_keys(make_account_keys(&signers));
    let a0 = signers[0].make_account_data(rng, now());
    let a1 = signers[1].make_account_data(rng, now());
    cache.insert(vec![a0.clone(), a1.clone()]);
    assert!(!cache.set_keys_unless(make_account_keys(&signers[0..1]), true));
    assert_eq!(to_set(&cache.dump()), as_set(&[&a0, &a1]));
    assert!(cache.set_keys_unless(make_account_keys(&signers[0..1]), false));
    assert_eq!(cache.dump(), vec![a0]);
}

#[test]
fn orphans_are_evicted_even_if_fresh() {
    let mut rng = make_rng(9);
    let rng = &mut rng;
    let now = now();
    let signers = make_signers(rng, 3);
    let mut cache = Cache::new();
    cache.set_keys(make_account_keys(&signers));
    let a0 = signers[0].make_account_data(rng, now + time::Duration::seconds(100));
    let a1 = signers[1].make_account_data(rng, now);
    let a2 = signers[2].make_account_data(rng, now);
    cache.insert(vec![a0.clone(), a1.clone(), a2.clone()]);
    assert!(cache.set_keys(make_account_keys(&signers[1..3])));
    assert_eq!(to_set(&cache.dump()), as_set(&[&a1, &a2]));
    // An empty directory evicts everything.
    assert!(cache.set_keys(Arc::new(AccountKeys::new())));
    assert_eq!(cache.dump(), vec![]);
}

#[test]
fn not_newer_is_dropped_and_newer_replaces() {
    let mut rng = make_rng(10);
    let rng = &mut rng;
    let now = now();
    let signers = make_signers(rng, 1);
    let mut cache = Cache::new();
    cache.set_keys(make_account_keys(&signers));
    let held = signers[0].make_account_data(rng, now);
    assert_eq!(cache.insert(vec![held.clone()]), (vec![held.clone()], None));
    // The same timestamp is not newer.
    let same_time = signers[0].make_account_data(rng, now);
    assert_eq!(cache.insert(vec![same_time]), (vec![], None));
    let older = signers[0].make_account_data(rng, now - time::Duration::nanoseconds(1));
    assert_eq!(cache.insert(vec![older]), (vec![], None));
    assert_eq!(cache.dump(), vec![held]);
    let newer = signers[0].make_account_data(rng, now + time::Duration::nanoseconds(1));
    assert_eq!(cache.insert(vec![newer.clone()]), (vec![newer.clone()], None));
    assert_eq!(cache.dump(), vec![newer]);
}

#[test]
fn stale_record_with_a_bad_signature_is_an_error() {
    let mut rng = make_rng(11);
    let rng = &mut rng;
    let now = now();
    let signers = make_signers(rng, 1);
    let mut cache = Cache::new();
    cache.set_keys(make_account_keys(&signers));
    let held = signers[0].make_account_data(rng, now);
    cache.insert(vec![held.clone()]);
    let mut stale = signers[0].make_account_data(rng, now - time::Duration::seconds(1));
    stale.payload.push(0);
    assert_eq!(cache.insert(vec![stale]), (vec![], Some(Error::InvalidSignature)));
    assert_eq!(cache.dump(), vec![held]);
}

#[test]
fn unauthorized_record_is_dropped_whatever_it_holds() {
    let mut rng = make_rng(12);
    let rng = &mut rng;
    let now = now();
    let signers = make_signers(rng, 2);
    let mut cache = Cache::new();
    cache.set_keys(make_account_keys(&signers[0..1]));
    let mut bad_signature = signers[1].make_account_data(rng, now);
    bad_signature.signature.data[0] ^= 1;
    let mut large = signers[1].make_account_data(rng, now);
    large.payload = vec![17; MAX_ACCOUNT_DATA_SIZE_BYTES + 1];
    let valid = signers[1].make_account_data(rng, now);
    let a0 = signers[0].make_account_data(rng, now);
    let res = cache.insert(vec![bad_signature, large, valid.clone(), valid, a0.clone()]);
    assert_eq!(res, (vec![a0.clone()], None));
    assert_eq!(cache.dump(), vec![a0]);
}

#[test]
fn payload_at_the_limit_is_accepted() {
    let mut rng = make_rng(13);
    let rng = &mut rng;
    let signers = make_signers(rng, 1);
    let mut cache = Cache::new();
    cache.set_keys(make_account_keys(&signers));
    let mut at_limit = signers[0].make_account_data(rng, now());
    at_limit.payload = vec![17; MAX_ACCOUNT_DATA_SIZE_BYTES];
    at_limit.signature = signature(&signers[0].signer.secret_key.sign(&at_limit.payload));
    assert_eq!(MAX_ACCOUNT_DATA_SIZE_BYTES, 10000);
    assert_eq!(cache.insert(vec![at_limit.clone()]), (vec![at_limit], None));
}

#[test]
fn oversized_payload_is_rejected_before_its_signature_is_looked_at() {
    let mut rng = make_rng(14);
    let rng = &mut rng;
    let signers = make_signers(rng, 1);
    let mut cache = Cache::new();
    cache.set_keys(make_account_keys(&signers));
    let mut large = signers[0].make_account_data(rng, now());
    large.payload = vec![17; MAX_ACCOUNT_DATA_SIZE_BYTES + 1];
    large.signature = signature(&signers[0].signer.secret_key.sign(&large.payload));
    assert_eq!(cache.insert(vec![large.clone()]), (vec![], Some(Error::DataTooLarge)));
    large.signature.data[3] ^= 0x40;
    assert_eq!(cache.insert(vec![large]), (vec![], Some(Error::DataTooLarge)));
}

#[test]
fn signature_is_checked_against_the_key_of_the_directory() {
    let mut rng = make_rng(15);
    let rng = &mut rng;
    let now = now();
    let signers = make_signers(rng, 2);
    let a0 = signers[0].make_account_data(rng, now);

    // The payload is signed by the account's own key.
    assert!(a0.verify(&public_key(&signers[0].signer.public_key)));
    assert!(a0.signature.verify(&a0.payload, &public_key(&signers[0].signer.public_key)));
    // Another key, another payload or another signature does not verify.
    assert!(!a0.verify(&public_key(&signers[1].signer.public_key)));
    let mut tampered = a0.clone();
    tampered.payload[0] ^= 1;
    assert!(!tampered.verify(&public_key(&signers[0].signer.public_key)));
    let mut resigned = a0.clone();
    resigned.signature.data[5] ^= 1;
    assert!(!resigned.verify(&public_key(&signers[0].signer.public_key)));
    // Bytes that are no signature or no key at all do not verify either.
    let mut short = a0.clone();
    short.signature.data.pop();
    assert!(!short.verify(&public_key(&signers[0].signer.public_key)));
    let mut short_key = public_key(&signers[0].signer.public_key);
    short_key.data.pop();
    assert!(!a0.verify(&short_key));

    // A directory that names another key for the account rejects the record.
    let mut keys = AccountKeys::new();
    keys.insert(signers[0].key(), public_key(&signers[1].signer.public_key));
    let mut cache = Cache::new();
    cache.set_keys(Arc::new(keys));
    assert_eq!(cache.insert(vec![a0]), (vec![], Some(Error::InvalidSignature)));
}

#[test]
fn only_ed25519_signatures_are_accepted() {
    let mut rng = make_rng(16);
    let rng = &mut rng;
    let signers = make_signers(rng, 1);
    let a0 = signers[0].make_account_data(rng, now());
    let key = public_key(&signers[0].signer.public_key);

    let mut other_scheme = a0.clone();
    other_scheme.signature.key_type = KeyType::SECP256K1;
    assert!(!other_scheme.verify(&key));
    let other_key = PublicKey { key_type: KeyType::SECP256K1, data: key.data.clone() };
    assert!(!a0.verify(&other_key));

    // A SECP256K1 key with a signature made by it over a 32-byte payload.
    let secret = near_crypto::SecretKey::from_seed(near_crypto::KeyType::SECP256K1, "secp");
    let payload = vec![7u8; 32];
    let signed = secret.sign(&payload);
    assert!(signed.verify(&payload, &secret.public_key()));
    let record = SignedAccountData {
        key: signers[0].key(),
        timestamp: 1,
        payload,
        signature: signature(&signed),
    };
    assert_eq!(record.signature.key_type, KeyType::SECP256K1);
    assert_eq!(record.signature.data.len(), 65);
    assert!(!record.verify(&public_key(&secret.public_key())));

    let mut keys = AccountKeys::new();
    keys.insert(signers[0].key(), public_key(&secret.public_key()));
    let mut cache = Cache::new();
    cache.set_keys(Arc::new(keys));
    assert_eq!(cache.insert(vec![record]), (vec![], Some(Error::InvalidSignature)));
    assert_eq!(cache.dump(), vec![]);
}

#[test]
fn verify_then_commit_is_insert() {
    let mut rng = make_rng(17);
    let rng = &mut rng;
    let now = now();
    let signers = make_signers(rng, 4);
    let keys = make_account_keys(&signers[0..3]);
    let mut one = Cache::new();
    let mut two = Cache::new();
    one.set_keys(keys.clone());
    two.set_keys(keys);
    let held = signers[0].make_account_data(rng, now);
    one.insert(vec![held.clone()]);
    two.insert(vec![held.clone()]);

    let a0 = signers[0].make_account_data(rng, now + time::Duration::seconds(1));
    let a1 = signers[1].make_account_data(rng, now);
    let a3 = signers[3].make_account_data(rng, now);
    let mut a2_bad = signers[2].make_account_data(rng, now);
    a2_bad.signature = a1.signature.clone();
    let batch = vec![a1.clone(), a3, a0.clone(), a2_bad];

    let (verified, error) = one.verify(&batch);
    assert_eq!(verified, vec![a1.clone(), a0.clone()]);
    assert_eq!(error, Some(Error::InvalidSignature));
    // Verifying changes nothing.
    assert_eq!(one.dump(), vec![held]);
    let applied = one.commit(verified);
    assert_eq!((applied, error), two.insert(batch));
    assert_eq!(to_set(&one.dump()), to_set(&two.dump()));
    assert_eq!(to_set(&one.dump()), as_set(&[&a0, &a1]));
}

#[test]
fn commit_checks_again_what_may_have_changed() {
    let mut rng = make_rng(18);
    let rng = &mut rng;
    let now = now();
    let signers = make_signers(rng, 3);
    let mut cache = Cache::new();
    cache.set_keys(make_account_keys(&signers));
    let a0 = signers[0].make_account_data(rng, now);
    let a1 = signers[1].make_account_data(rng, now);
    let a2 = signers[2].make_account_data(rng, now);
    let (verified, error) = cache.verify(&vec![a0.clone(), a1.clone(), a2.clone()]);
    assert_eq!((verified.len(), error), (3, None));

    // Meanwhile a newer record for the first account arrives, and the last account
    // loses its authorization.
    let a0_newer = signers[0].make_account_data(rng, now + time::Duration::seconds(1));
    cache.insert(vec![a0_newer.clone()]);
    cache.set_keys(make_account_keys(&signers[0..2]));

    assert_eq!(cache.commit(verified), vec![a1.clone()]);
    assert_eq!(to_set(&cache.dump()), as_set(&[&a0_newer, &a1]));
    // Committing the same records again applies none of them.
    assert_eq!(cache.commit(vec![a0, a1, a2]), vec![]);
}

#[test]
fn empty_batch_and_empty_cache() {
    let mut cache = Cache::new();
    assert_eq!(cache.insert(vec![]), (vec![], None));
    assert_eq!(cache.verify(&vec![]), (vec![], None));
    assert_eq!(cache.commit(vec![]), vec![]);
    assert_eq!(cache.dump(), vec![]);
    // Without a directory no account is authorized.
    let mut rng = make_rng(19);
    let signers = make_signers(&mut rng, 1);
    let a0 = signers[0].make_account_data(&mut rng, now());
    assert_eq!(cache.insert(vec![a0]), (vec![], None));
    assert_eq!(cache.dump(), vec![]);
}

#[test]
fn same_account_in_another_epoch_is_another_account() {
    let mut rng = make_rng(20);
    let rng = &mut rng;
    let now = now();
    let mut signers = make_signers(rng, 2);
    signers[1].signer = near_crypto::InMemorySigner::from_secret_key(
        signers[0].signer.account_id.clone(),
        signers[1].signer.secret_key.clone(),
    );
    assert_eq!(signers[0].key().account_id, signers[1].key().account_id);
    assert_ne!(signers[0].key(), signers[1].key());
    let mut cache = Cache::new();
    cache.set_keys(make_account_keys(&signers));
    let a0 = signers[0].make_account_data(rng, now);
    let a1 = signers[1].make_account_data(rng, now);
    assert_eq!(cache.insert(vec![a0.clone(), a1.clone()]), (vec![a0.clone(), a1.clone()], None));
    assert_eq!(to_set(&cache.dump()), as_set(&[&a0, &a1]));
}

//! The cache: a directory of authorized keys and the records accepted under it.
use std::sync::Arc;
use vstd::prelude::*;
use crate::admission::{
    admitted, committed, judged, lemma_admitted_step, lemma_admitted_stops, mentions, records, screen, settle,
    Outcome,
};
use crate::laws::law_admitted_shape;
use crate::assoc::{as_map, has_key, lemma_at, lemma_empty, lemma_push, lemma_update, position, unique_keys};
use crate::crypto::PublicKeyView;
use crate::keys::AccountKeys;
use crate::record::{AccountKey, AccountKeyView, Error, Record, SignedAccountData};

verus! {

/// What a [`Cache`] stands for in contracts: the directory of
/// authorized keys, and the record held for each account that has one.
pub struct CacheView {
    pub keys: Map<AccountKeyView, PublicKeyView>,
    pub data: Map<AccountKeyView, Record>,
}

impl CacheView {
    /// Every record held is held under its own account, and that account is
    /// authorized.
    pub open spec fn wf(self) -> bool {
        forall|k: AccountKeyView| #[trigger]
            self.data.contains_key(k) ==> self.keys.contains_key(k) && self.data[k].key == k
    }

    /// The cache once `keys` is its directory: the records of the accounts
    /// that `keys` authorizes stay, the others are dropped.
    pub open spec fn with_keys(self, keys: Map<AccountKeyView, PublicKeyView>) -> CacheView {
        CacheView { keys, data: self.data.restrict(keys.dom()) }
    }

    /// The cache once the records of `verified` have been committed.
    pub open spec fn with_committed(self, verified: Seq<Record>) -> CacheView {
        CacheView { keys: self.keys, data: committed(self.keys, self.data, verified).held }
    }

    /// The cache once `batch` has been admitted.
    pub open spec fn with_batch(self, batch: Seq<Record>) -> CacheView {
        CacheView { keys: self.keys, data: admitted(self.keys, self.data, batch).held }
    }
}

/// `listing` holds each record of `held` once, in some order, and nothing else.
pub open spec fn lists(listing: Seq<Record>, held: Map<AccountKeyView, Record>) -> bool {
    &&& forall|i: int|
        0 <= i < listing.len() ==> held.contains_key((#[trigger] listing[i]).key) && held[listing[i].key]
            == listing[i]
    &&& forall|i: int, j: int|
        0 <= i < listing.len() && 0 <= j < listing.len() && i != j ==> (#[trigger] listing[i]).key
            != (#[trigger] listing[j]).key
    &&& forall|k: AccountKeyView| #[trigger] held.contains_key(k) ==> mentions(listing, k)
}

/// The records of `data`, each paired with its account.
pub open spec fn table(data: Seq<SignedAccountData>) -> Seq<(AccountKeyView, Record)> {
    Seq::new(data.len(), |i: int| (data[i]@.key, data[i]@))
}

/// The validated cache of signed account data.
pub struct Cache {
    keys: Arc<AccountKeys>,
    data: Vec<SignedAccountData>,
}

impl View for Cache {
    type V = CacheView;

    closed spec fn view(&self) -> CacheView {
        CacheView { keys: self.keys@, data: as_map(table(self.data@)) }
    }
}

/// Tells with `Arc::ptr_eq` whether two handles share one directory.
///
/// Two handles to one allocation hold the same directory; of two
/// allocations nothing is claimed, whatever they hold.
#[verifier::external_body]
fn same_allocation(a: &Arc<AccountKeys>, b: &Arc<AccountKeys>) -> (same: bool)
    ensures
        same ==> a@ == b@,
{
    Arc::ptr_eq(a, b)
}

fn find_record(data: &Vec<SignedAccountData>, key: &AccountKey) -> (found: Option<usize>)
    ensures
        match found {
            Some(i) => i < data@.len() && data@[i as int]@.key == key@,
            None => !has_key(table(data@), key@) && !mentions(records(data@), key@),
        },
{
    let mut i: usize = 0;
    while i < data.len()
        invariant
            i <= data@.len(),
            forall|j: int| 0 <= j < i ==> (#[trigger] table(data@)[j]).0 != key@,
            forall|j: int| 0 <= j < i ==> (#[trigger] records(data@)[j]).key != key@,
        decreases data@.len() - i,
    {
        if data[i].key.same(key) {
            return Some(i);
        }
        assert(table(data@)[i as int].0 == data@[i as int]@.key);
        assert(records(data@)[i as int].key == data@[i as int]@.key);
        i += 1;
    }
    None
}

impl Cache {
    #[verifier::type_invariant]
    spec fn well_formed(&self) -> bool {
        &&& unique_keys(table(self.data@))
        &&& forall|i: int|
            0 <= i < self.data@.len() ==> self.keys@.contains_key((#[trigger] self.data@[i])@.key)
    }

    proof fn lemma_view_wf(&self)
        requires
            self.well_formed(),
        ensures
            self@.wf(),
    {
        let t = table(self.data@);
        assert forall|k: AccountKeyView| #[trigger] self@.data.contains_key(k) implies self@.keys.contains_key(k)
            && self@.data[k].key == k by {
            let i = position(t, k);
            assert(t[i].0 == k);
            assert(self.keys@.contains_key(self.data@[i]@.key));
        }
    }

    /// An empty cache under an empty directory.
    pub fn new() -> (cache: Self)
        ensures
            cache@.keys == Map::<AccountKeyView, PublicKeyView>::empty(),
            cache@.data == Map::<AccountKeyView, Record>::empty(),
            cache@.wf(),
    {
        let cache = Cache { keys: Arc::new(AccountKeys::new()), data: Vec::new() };
        proof {
            lemma_empty::<AccountKeyView, Record>();
            assert(table(cache.data@) =~= Seq::empty());
        }
        cache
    }

    /// Installs `keys` as the directory, unless `unchanged` says that it is
    /// installed already, and drops the records of the accounts that `keys`
    /// does not authorize. Returns whether the directory was installed.
    pub fn set_keys_unless(&mut self, keys: Arc<AccountKeys>, unchanged: bool) -> (changed: bool)
        ensures
            changed == !unchanged,
            final(self)@ == if unchanged {
                old(self)@
            } else {
                old(self)@.with_keys(keys@)
            },
            final(self)@.wf(),
    {
        proof {
            use_type_invariant(&*self);
            self.lemma_view_wf();
            lemma_empty::<AccountKeyView, Record>();
        }
        if unchanged {
            return false;
        }
        let mut data: Vec<SignedAccountData> = Vec::new();
        assert(table(data@) =~= Seq::empty());
        std::mem::swap(&mut data, &mut self.data);
        self.keys = keys;
        let ghost before = data@;
        let ghost mut source: Seq<int> = Seq::empty();
        let mut kept: Vec<SignedAccountData> = Vec::new();
        while data.len() > 0
            invariant
                self.keys@ == keys@,
                self.data@.len() == 0,
                unique_keys(table(before)),
                data@.len() <= before.len(),
                data@ == before.take(data@.len() as int),
                source.len() == kept@.len(),
                forall|j: int|
                    0 <= j < kept@.len() ==> data@.len() <= #[trigger] source[j] < before.len()
                        && kept@[j]@ == before[source[j]]@,
                forall|j: int| 0 <= j < kept@.len() ==> keys@.contains_key((#[trigger] kept@[j])@.key),
                forall|p: int|
                    data@.len() <= p < before.len() && keys@.contains_key((#[trigger] before[p])@.key)
                        ==> has_key(table(kept@), before[p]@.key),
                unique_keys(table(kept@)),
            decreases data@.len(),
        {
            let ghost n = data@.len() - 1;
            let ghost earlier = kept@;
            let record = data.pop().unwrap();
            assert(record == before[n]);
            assert(data@ =~= before.take(n));
            if self.keys.contains_key(&record.key) {
                proof {
                    if has_key(table(earlier), record@.key) {
                        let j = position(table(earlier), record@.key);
                        assert(table(earlier)[j].0 == earlier[j]@.key);
                        assert(table(before)[source[j]].0 == table(before)[n].0);
                    }
                    lemma_push(table(earlier), (record@.key, record@));
                    source = source.push(n);
                }
                kept.push(record);
                assert(table(kept@) =~= table(earlier).push((record@.key, record@)));
                assert forall|p: int|
                    data@.len() <= p < before.len() && keys@.contains_key((#[trigger] before[p])@.key)
                    implies has_key(table(kept@), before[p]@.key) by {
                    if p == n {
                        assert(table(kept@)[earlier.len() as int].0 == before[p]@.key);
                    } else {
                        let j = position(table(earlier), before[p]@.key);
                        assert(table(kept@)[j].0 == before[p]@.key);
                    }
                }
            }
        }
        proof {
            let old_table = table(before);
            let new_table = table(kept@);
            assert forall|k: AccountKeyView|
                has_key(new_table, k) <==> has_key(old_table, k) && keys@.contains_key(k) by {
                if has_key(new_table, k) {
                    let j = position(new_table, k);
                    assert(old_table[source[j]].0 == k);
                }
                if has_key(old_table, k) && keys@.contains_key(k) {
                    let p = position(old_table, k);
                    assert(before[p]@.key == k);
                }
            }
            assert forall|k: AccountKeyView| has_key(new_table, k) implies as_map(new_table)[k] == as_map(
                old_table,
            )[k] by {
                let j = position(new_table, k);
                lemma_at(new_table, j);
                lemma_at(old_table, source[j]);
            }
            assert(as_map(new_table) =~= as_map(old_table).restrict(keys@.dom()));
        }
        self.data = kept;
        proof {
            self.lemma_view_wf();
        }
        true
    }

    /// Replaces the directory of authorized keys, and drops the records of
    /// the accounts that the new directory does not authorize.
    ///
    /// Handing in the very directory that is installed changes nothing and
    /// returns `false`; any other directory is installed, and `true` returned,
    /// even if it holds the same entries.
    pub fn set_keys(&mut self, keys: Arc<AccountKeys>) -> (changed: bool)
        ensures
            final(self)@ == old(self)@.with_keys(keys@),
            !changed ==> final(self)@ == old(self)@,
            keys@ != old(self)@.keys ==> changed,
            final(self)@.wf(),
    {
        proof {
            use_type_invariant(&*self);
            self.lemma_view_wf();
            assert(self@.data.restrict(self@.keys.dom()) =~= self@.data);
        }
        let unchanged = same_allocation(&self.keys, &keys);
        self.set_keys_unless(keys, unchanged)
    }

    /// Admits a batch of records, one by one from the first.
    ///
    /// A record of an account that the directory does not authorize is
    /// dropped. A payload over the limit, a record of an account that this
    /// batch has already updated, or a signature that does not verify ends the
    /// batch with the error; what was accepted before stays accepted. A record
    /// that is not newer than the one held for its account is dropped; any
    /// other replaces it. Returns the records accepted, in order, and the
    /// error that ended the batch, if one did.
    pub fn insert(&mut self, batch: Vec<SignedAccountData>) -> (result: (Vec<SignedAccountData>, Option<Error>))
        ensures
            final(self)@ == old(self)@.with_batch(records(batch@)),
            records(result.0@) == admitted(old(self)@.keys, old(self)@.data, records(batch@)).applied,
            result.1 == admitted(old(self)@.keys, old(self)@.data, records(batch@)).error,
            final(self)@.wf(),
    {
        proof {
            use_type_invariant(&*self);
            lemma_empty::<AccountKeyView, Record>();
        }
        let ghost keys = self.keys@;
        let ghost held = as_map(table(self.data@));
        let ghost input = records(batch@);
        let mut data: Vec<SignedAccountData> = Vec::new();
        assert(table(data@) =~= Seq::empty());
        std::mem::swap(&mut data, &mut self.data);
        let mut applied: Vec<SignedAccountData> = Vec::new();
        assert(input.take(0) =~= Seq::empty());
        assert(records(applied@) =~= Seq::empty());
        let mut i: usize = 0;
        while i < batch.len()
            invariant
                i <= batch@.len(),
                input == records(batch@),
                keys == old(self)@.keys,
                held == old(self)@.data,
                self.keys@ == keys,
                self.data@.len() == 0,
                unique_keys(table(data@)),
                forall|j: int| 0 <= j < data@.len() ==> keys.contains_key((#[trigger] data@[j])@.key),
                as_map(table(data@)) == admitted(keys, held, input.take(i as int)).held,
                records(applied@) == admitted(keys, held, input.take(i as int)).applied,
                admitted(keys, held, input.take(i as int)).error is None,
            decreases batch@.len() - i,
        {
            let record = &batch[i];
            let ghost before = admitted(keys, held, input.take(i as int));
            proof {
                lemma_admitted_step(keys, held, input, i as int);
                assert(input[i as int] == record@);
            }
            let public_key = self.keys.get(&record.key);
            let repeated = find_record(&applied, &record.key).is_some();
            assert(repeated == mentions(records(applied@), record@.key)) by {
                if repeated {
                    let j = choose|j: int| 0 <= j < applied@.len() && applied@[j]@.key == record@.key;
                    assert(records(applied@)[j].key == record@.key);
                }
            }
            let mut place: Option<usize> = None;
            let outcome = match screen(public_key.is_some(), record.payload.len(), repeated) {
                Some(outcome) => outcome,
                None => {
                    place = find_record(&data, &record.key);
                    let held_timestamp = match place {
                        Some(p) => {
                            proof {
                                lemma_at(table(data@), p as int);
                            }
                            Some(data[p].timestamp)
                        },
                        None => None,
                    };
                    settle(record.verify(public_key.unwrap()), held_timestamp, record.timestamp)
                },
            };
            assert(outcome == judged(keys, before.held, before.applied, record@));
            match outcome {
                Outcome::Dropped => {},
                Outcome::Rejected(error) => {
                    proof {
                        lemma_admitted_stops(keys, held, input, i + 1);
                    }
                    self.data = data;
                    proof {
                        self.lemma_view_wf();
                    }
                    return (applied, Some(error));
                },
                Outcome::Accepted => {
                    let ghost earlier = table(data@);
                    let ghost entry = (record@.key, record@);
                    match place {
                        Some(p) => {
                            data.set(p, record.clone());
                            proof {
                                lemma_update(earlier, p as int, entry.1);
                                assert(table(data@) =~= earlier.update(p as int, entry));
                            }
                        },
                        None => {
                            data.push(record.clone());
                            proof {
                                lemma_push(earlier, entry);
                                assert(table(data@) =~= earlier.push(entry));
                            }
                        },
                    }
                    let ghost listed = records(applied@);
                    applied.push(record.clone());
                    assert(records(applied@) =~= listed.push(record@));
                },
            }
            i += 1;
        }
        assert(input.take(i as int) =~= input);
        self.data = data;
        proof {
            self.lemma_view_wf();
        }
        (applied, None)
    }

    /// Judges a batch against the cache as it stands, without changing it:
    /// returns the records that [`Cache::insert`] would apply, and the error
    /// with which it would end.
    ///
    /// This is the costly part of an admission, the signature checks, and
    /// needs no exclusive access; [`Cache::commit`] does the rest.
    pub fn verify(&self, batch: &Vec<SignedAccountData>) -> (result: (Vec<SignedAccountData>, Option<Error>))
        ensures
            records(result.0@) == admitted(self@.keys, self@.data, records(batch@)).applied,
            result.1 == admitted(self@.keys, self@.data, records(batch@)).error,
    {
        proof {
            use_type_invariant(self);
        }
        let ghost keys = self.keys@;
        let ghost held = as_map(table(self.data@));
        let ghost input = records(batch@);
        let mut verified: Vec<SignedAccountData> = Vec::new();
        assert(input.take(0) =~= Seq::empty());
        assert(records(verified@) =~= Seq::empty());
        let mut i: usize = 0;
        while i < batch.len()
            invariant
                i <= batch@.len(),
                input == records(batch@),
                keys == self@.keys,
                held == self@.data,
                unique_keys(table(self.data@)),
                records(verified@) == admitted(keys, held, input.take(i as int)).applied,
                admitted(keys, held, input.take(i as int)).error is None,
            decreases batch@.len() - i,
        {
            let record = &batch[i];
            let ghost before = admitted(keys, held, input.take(i as int));
            proof {
                lemma_admitted_step(keys, held, input, i as int);
                law_admitted_shape(keys, held, input.take(i as int));
                assert(input[i as int] == record@);
            }
            let public_key = self.keys.get(&record.key);
            let repeated = find_record(&verified, &record.key).is_some();
            assert(repeated == mentions(records(verified@), record@.key)) by {
                if repeated {
                    let j = choose|j: int| 0 <= j < verified@.len() && verified@[j]@.key == record@.key;
                    assert(records(verified@)[j].key == record@.key);
                }
            }
            let outcome = match screen(public_key.is_some(), record.payload.len(), repeated) {
                Some(outcome) => outcome,
                None => {
                    let held_timestamp = match find_record(&self.data, &record.key) {
                        Some(p) => {
                            proof {
                                lemma_at(table(self.data@), p as int);
                            }
                            Some(self.data[p].timestamp)
                        },
                        None => None,
                    };
                    settle(record.verify(public_key.unwrap()), held_timestamp, record.timestamp)
                },
            };
            assert(outcome == judged(keys, before.held, before.applied, record@));
            match outcome {
                Outcome::Dropped => {},
                Outcome::Rejected(error) => {
                    proof {
                        lemma_admitted_stops(keys, held, input, i + 1);
                    }
                    return (verified, Some(error));
                },
                Outcome::Accepted => {
                    let ghost listed = records(verified@);
                    verified.push(record.clone());
                    assert(records(verified@) =~= listed.push(record@));
                },
            }
            i += 1;
        }
        assert(input.take(i as int) =~= input);
        (verified, None)
    }

    /// Puts records that [`Cache::verify`] has passed into the cache, one by
    /// one from the first, and returns those that it applied.
    ///
    /// The cache may have changed since the records were verified, so each
    /// one is applied only if its account is still authorized and it is still
    /// newer than the record held. Signatures are not checked again.
    pub fn commit(&mut self, verified: Vec<SignedAccountData>) -> (applied: Vec<SignedAccountData>)
        ensures
            final(self)@ == old(self)@.with_committed(records(verified@)),
            records(applied@) == committed(old(self)@.keys, old(self)@.data, records(verified@)).applied,
            final(self)@.wf(),
    {
        proof {
            use_type_invariant(&*self);
            lemma_empty::<AccountKeyView, Record>();
        }
        let ghost keys = self.keys@;
        let ghost held = as_map(table(self.data@));
        let ghost input = records(verified@);
        let mut data: Vec<SignedAccountData> = Vec::new();
        assert(table(data@) =~= Seq::empty());
        std::mem::swap(&mut data, &mut self.data);
        let mut applied: Vec<SignedAccountData> = Vec::new();
        assert(input.take(0) =~= Seq::empty());
        assert(records(applied@) =~= Seq::empty());
        let mut i: usize = 0;
        while i < verified.len()
            invariant
                i <= verified@.len(),
                input == records(verified@),
                keys == old(self)@.keys,
                held == old(self)@.data,
                self.keys@ == keys,
                self.data@.len() == 0,
                unique_keys(table(data@)),
                forall|j: int| 0 <= j < data@.len() ==> keys.contains_key((#[trigger] data@[j])@.key),
                as_map(table(data@)) == committed(keys, held, input.take(i as int)).held,
                records(applied@) == committed(keys, held, input.take(i as int)).applied,
            decreases verified@.len() - i,
        {
            let record = &verified[i];
            proof {
                assert(input.take(i + 1).drop_last() =~= input.take(i as int));
                assert(input[i as int] == record@);
            }
            if self.keys.contains_key(&record.key) {
                let ghost earlier = table(data@);
                let ghost entry = (record@.key, record@);
                let ghost listed = records(applied@);
                match find_record(&data, &record.key) {
                    Some(p) => {
                        proof {
                            lemma_at(earlier, p as int);
                        }
                        if data[p].timestamp < record.timestamp {
                            data.set(p, record.clone());
                            applied.push(record.clone());
                            proof {
                                lemma_update(earlier, p as int, entry.1);
                                assert(table(data@) =~= earlier.update(p as int, entry));
                                assert(records(applied@) =~= listed.push(record@));
                            }
                        }
                    },
                    None => {
                        data.push(record.clone());
                        applied.push(record.clone());
                        proof {
                            lemma_push(earlier, entry);
                            assert(table(data@) =~= earlier.push(entry));
                            assert(records(applied@) =~= listed.push(record@));
                        }
                    },
                }
            }
            i += 1;
        }
        assert(input.take(i as int) =~= input);
        self.data = data;
        proof {
            self.lemma_view_wf();
        }
        applied
    }

    /// A copy of every record held, in no particular order.
    pub fn dump(&self) -> (listing: Vec<SignedAccountData>)
        ensures
            lists(records(listing@), self@.data),
            self@.wf(),
    {
        proof {
            use_type_invariant(self);
            self.lemma_view_wf();
        }
        let mut listing: Vec<SignedAccountData> = Vec::new();
        let mut i: usize = 0;
        while i < self.data.len()
            invariant
                i <= self.data@.len(),
                listing@.len() == i,
                forall|j: int| 0 <= j < i ==> (#[trigger] listing@[j])@ == self.data@[j]@,
            decreases self.data@.len() - i,
        {
            listing.push(self.data[i].clone());
            i += 1;
        }
        proof {
            let l = records(listing@);
            let t = table(self.data@);
            assert forall|i: int| 0 <= i < l.len() implies self@.data.contains_key((#[trigger] l[i]).key)
                && self@.data[l[i].key] == l[i] by {
                lemma_at(t, i);
            }
            assert forall|i: int, j: int| 0 <= i < l.len() && 0 <= j < l.len() && i != j implies (
            #[trigger] l[i]).key != (#[trigger] l[j]).key by {
                assert(t[i].0 != t[j].0);
            }
            assert forall|k: AccountKeyView| #[trigger] self@.data.contains_key(k) implies mentions(l, k) by {
                let p = position(t, k);
                assert(l[p].key == k);
            }
        }
        listing
    }
}
/// The records of a result that carries no error.
pub fn unwrap<'a, T: std::hash::Hash + std::cmp::Eq, E: std::fmt::Debug>(v: &'a (T, Option<E>)) -> (records: &'a T)
    requires
        v.1 is None,
    ensures
        *records == v.0,
{
    &v.0
}

} // verus!

//! The directory of authorized accounts and their public keys.
use vstd::prelude::*;
use crate::assoc::{as_map, has_key, lemma_at, lemma_empty, lemma_push, lemma_update, unique_keys};
use crate::crypto::{PublicKey, PublicKeyView};
use crate::record::{AccountKey, AccountKeyView};

verus! {

/// The public key of each account that is authorized in an epoch.
///
/// A directory is built once and then shared; the cache never changes one.
pub struct AccountKeys {
    entries: Vec<(AccountKey, PublicKey)>,
}

impl View for AccountKeys {
    type V = Map<AccountKeyView, PublicKeyView>;

    closed spec fn view(&self) -> Map<AccountKeyView, PublicKeyView> {
        as_map(self.pairs())
    }
}

impl AccountKeys {
    spec fn pairs(&self) -> Seq<(AccountKeyView, PublicKeyView)> {
        Seq::new(self.entries@.len(), |i: int| (self.entries@[i].0@, self.entries@[i].1@))
    }

    #[verifier::type_invariant]
    spec fn well_formed(&self) -> bool {
        unique_keys(self.pairs())
    }

    /// A directory without accounts.
    pub fn new() -> (keys: Self)
        ensures
            keys@ == Map::<AccountKeyView, PublicKeyView>::empty(),
    {
        let keys = AccountKeys { entries: Vec::new() };
        proof {
            lemma_empty::<AccountKeyView, PublicKeyView>();
            assert(keys.pairs() =~= Seq::empty());
        }
        keys
    }

    fn find(&self, key: &AccountKey) -> (found: Option<usize>)
        ensures
            match found {
                Some(i) => i < self.entries@.len() && self.entries@[i as int].0@ == key@,
                None => !has_key(self.pairs(), key@),
            },
    {
        let mut i: usize = 0;
        while i < self.entries.len()
            invariant
                i <= self.entries@.len(),
                forall|j: int| 0 <= j < i ==> (#[trigger] self.pairs()[j]).0 != key@,
            decreases self.entries@.len() - i,
        {
            if self.entries[i].0.same(key) {
                return Some(i);
            }
            assert(self.pairs()[i as int].0 == self.entries@[i as int].0@);
            i += 1;
        }
        None
    }

    /// The public key of `key`, if the account is authorized.
    pub fn get(&self, key: &AccountKey) -> (public_key: Option<&PublicKey>)
        ensures
            match public_key {
                Some(p) => self@.contains_key(key@) && p@ == self@[key@],
                None => !self@.contains_key(key@),
            },
    {
        proof {
            use_type_invariant(self);
        }
        match self.find(key) {
            Some(i) => {
                proof {
                    lemma_at(self.pairs(), i as int);
                }
                Some(&self.entries[i].1)
            },
            None => None,
        }
    }

    /// Whether the account `key` is authorized.
    pub fn contains_key(&self, key: &AccountKey) -> (found: bool)
        ensures
            found == self@.contains_key(key@),
    {
        self.get(key).is_some()
    }

    /// Authorizes `key` with `public_key`, and returns the public key that the
    /// account had before, if it was authorized already.
    pub fn insert(&mut self, key: AccountKey, public_key: PublicKey) -> (previous: Option<PublicKey>)
        ensures
            final(self)@ == old(self)@.insert(key@, public_key@),
            match previous {
                Some(p) => old(self)@.contains_key(key@) && p@ == old(self)@[key@],
                None => !old(self)@.contains_key(key@),
            },
    {
        proof {
            use_type_invariant(&*self);
            lemma_empty::<AccountKeyView, PublicKeyView>();
        }
        let found = self.find(&key);
        let ghost before = self.pairs();
        let ghost entry = (key@, public_key@);
        let mut entries: Vec<(AccountKey, PublicKey)> = Vec::new();
        assert(AccountKeys { entries }.pairs() =~= Seq::empty());
        std::mem::swap(&mut entries, &mut self.entries);
        entries.push((key, public_key));
        let previous = match found {
            Some(i) => {
                let replaced = entries.swap_remove(i);
                proof {
                    lemma_at(before, i as int);
                    lemma_update(before, i as int, entry.1);
                    assert(AccountKeys { entries }.pairs() =~= before.update(i as int, entry));
                }
                Some(replaced.1)
            },
            None => {
                proof {
                    lemma_push(before, entry);
                    assert(AccountKeys { entries }.pairs() =~= before.push(entry));
                }
                None
            },
        };
        self.entries = entries;
        previous
    }
}

} // verus!

//! The tables of the scheduler, by address and by use case.

use vstd::prelude::*;
use std::collections::BTreeMap;
use crate::account::Account;
use crate::types::{Address, UseCaseKey};
use crate::use_case::UseCase;

verus! {

broadcast use vstd::laws_cmp::group_laws_cmp;

/// The two halves of an address, as the key under which it is stored.
pub open spec fn address_slot(address: Address) -> (u128, u128) {
    (address.hi, address.lo)
}

/// The key under which a use case is stored: nothing for the platform, the
/// slot of its address for any other.
pub open spec fn use_case_slot(key: UseCaseKey) -> Option<(u128, u128)> {
    match key {
        UseCaseKey::Platform => None,
        UseCaseKey::Other(address) => Some(address_slot(address)),
    }
}

/// The accounts that the scheduler tracks, by address.
pub struct AccountTable<P> {
    entries: BTreeMap<(u128, u128), Account<P>>,
}

impl<P> View for AccountTable<P> {
    type V = Map<Address, Account<P>>;

    closed spec fn view(&self) -> Map<Address, Account<P>> {
        Map::new(
            |a: Address| self.entries@.contains_key(address_slot(a)),
            |a: Address| self.entries@[address_slot(a)],
        )
    }
}

impl<P> AccountTable<P> {
    pub fn new() -> (table: Self)
        ensures
            table@ == Map::<Address, Account<P>>::empty(),
    {
        let table = AccountTable { entries: BTreeMap::new() };
        assert(table@ =~= Map::<Address, Account<P>>::empty());
        table
    }

    pub fn get(&self, address: &Address) -> (account: Option<&Account<P>>)
        ensures
            match account {
                Some(a) => self@.contains_key(*address) && self@[*address] == *a,
                None => !self@.contains_key(*address),
            },
    {
        let slot = (address.hi, address.lo);
        self.entries.get(&slot)
    }

    /// Stores an account under an address that the table does not hold yet.
    pub fn strict_insert(&mut self, address: Address, account: Account<P>)
        requires
            !old(self)@.contains_key(address),
        ensures
            final(self)@ == old(self)@.insert(address, account),
    {
        self.entries.insert((address.hi, address.lo), account);
        assert(self@ =~= old(self)@.insert(address, account));
    }

    /// Takes out the account under an address that the table holds.
    pub fn strict_remove(&mut self, address: &Address) -> (account: Account<P>)
        requires
            old(self)@.contains_key(*address),
        ensures
            final(self)@ == old(self)@.remove(*address),
            account == old(self)@[*address],
    {
        let slot = (address.hi, address.lo);
        let removed = self.entries.remove(&slot);
        assert(self@ =~= old(self)@.remove(*address));
        removed.unwrap()
    }
}

/// The use cases that the scheduler tracks, by key.
pub struct UseCaseTable {
    entries: BTreeMap<Option<(u128, u128)>, UseCase>,
}

impl View for UseCaseTable {
    type V = Map<UseCaseKey, UseCase>;

    closed spec fn view(&self) -> Map<UseCaseKey, UseCase> {
        Map::new(
            |k: UseCaseKey| self.entries@.contains_key(use_case_slot(k)),
            |k: UseCaseKey| self.entries@[use_case_slot(k)],
        )
    }
}

impl UseCaseTable {
    pub fn new() -> (table: Self)
        ensures
            table@ == Map::<UseCaseKey, UseCase>::empty(),
    {
        let table = UseCaseTable { entries: BTreeMap::new() };
        assert(table@ =~= Map::<UseCaseKey, UseCase>::empty());
        table
    }

    fn slot_of(key: &UseCaseKey) -> (slot: Option<(u128, u128)>)
        ensures
            slot == use_case_slot(*key),
    {
        match key {
            UseCaseKey::Platform => None,
            UseCaseKey::Other(address) => Some((address.hi, address.lo)),
        }
    }

    pub fn get(&self, key: &UseCaseKey) -> (use_case: Option<&UseCase>)
        ensures
            match use_case {
                Some(u) => self@.contains_key(*key) && self@[*key] == *u,
                None => !self@.contains_key(*key),
            },
    {
        let slot = Self::slot_of(key);
        self.entries.get(&slot)
    }

    /// Stores a use case under a key that the table does not hold yet.
    pub fn strict_insert(&mut self, key: UseCaseKey, use_case: UseCase)
        requires
            !old(self)@.contains_key(key),
        ensures
            final(self)@ == old(self)@.insert(key, use_case),
    {
        self.entries.insert(Self::slot_of(&key), use_case);
        assert(self@ =~= old(self)@.insert(key, use_case));
    }

    /// Takes out the use case under a key that the table holds.
    pub fn strict_remove(&mut self, key: &UseCaseKey) -> (use_case: UseCase)
        requires
            old(self)@.contains_key(*key),
        ensures
            final(self)@ == old(self)@.remove(*key),
            use_case == old(self)@[*key],
    {
        let slot = Self::slot_of(key);
        let removed = self.entries.remove(&slot);
        assert(self@ =~= old(self)@.remove(*key));
        removed.unwrap()
    }
}

} // verus!

//! Addresses, use cases and transactions.

use vstd::prelude::*;

verus! {

/// Position of a transaction in the input sequence.
pub type InputIdx = usize;

/// Number of transactions emitted so far; also the slot of the next emission.
pub type OutputIdx = usize;

/// The identity of an account: 32 bytes, held as two halves.
#[derive(Clone, Copy, Debug, PartialEq, Eq, Structural, Hash)]
pub struct Address {
    pub hi: u128,
    pub lo: u128,
}

impl Address {
    pub fn new(hi: u128, lo: u128) -> (address: Self)
        ensures
            address == (Address { hi, lo }),
    {
        Address { hi, lo }
    }
}

/// The application-level identity of a transaction.
#[derive(Clone, Copy, Debug, PartialEq, Eq, Structural, Hash)]
pub enum UseCaseKey {
    /// Transactions of the platform itself.
    Platform,
    /// Any other use case, told apart by the address that stands for it.
    Other(Address),
}

/// A transaction as the shuffler sees it: its sender, its use case, and a
/// payload that is carried along untouched.
#[derive(Clone, Debug, PartialEq, Eq)]
pub struct Transaction<P> {
    pub sender: Address,
    pub use_case: UseCaseKey,
    pub payload: P,
}

impl<P> Transaction<P> {
    pub fn new(sender: Address, use_case: UseCaseKey, payload: P) -> (txn: Self)
        ensures
            txn == (Transaction { sender, use_case, payload }),
    {
        Transaction { sender, use_case, payload }
    }

    pub fn parse_sender(&self) -> (address: Address)
        ensures
            address == self.sender,
    {
        self.sender
    }

    pub fn parse_use_case(&self) -> (key: UseCaseKey)
        ensures
            key == self.use_case,
    {
        self.use_case
    }
}

} // verus!

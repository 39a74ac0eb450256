//! The queue of one sender.

use vstd::prelude::*;
use std::collections::VecDeque;
use crate::delay_key::DelayKey;
use crate::types::{InputIdx, OutputIdx, Transaction, UseCaseKey};

verus! {

/// A transaction together with its position in the input.
#[derive(Debug)]
pub struct TxnWithInputIdx<P> {
    pub input_idx: InputIdx,
    pub txn: Transaction<P>,
}

/// What the scheduler knows of one sender.
#[derive(Debug)]
pub struct Account<P> {
    /// The first slot at which this sender is no longer held back.
    pub try_delay_till: OutputIdx,
    /// Input position of the first queued transaction; when the queue is
    /// empty, the value it had before the last transaction left.
    pub input_idx: InputIdx,
    /// The queued transactions of this sender, in input order.
    pub txns: VecDeque<TxnWithInputIdx<P>>,
}

impl<P> Account<P> {
    /// The queued transactions come in strictly increasing input position,
    /// and `input_idx` is that of the first of them, if there is one.
    pub open spec fn wf(&self) -> bool {
        &&& forall|i: int, j: int|
            0 <= i < j < self.txns@.len() ==> (#[trigger] self.txns@[i]).input_idx < (
            #[trigger] self.txns@[j]).input_idx
        &&& self.txns@.len() > 0 ==> self.input_idx == self.txns@[0].input_idx
    }

    pub open spec fn spec_delay_key(&self) -> DelayKey {
        DelayKey { try_delay_till: self.try_delay_till, input_idx: self.input_idx }
    }

    pub fn new_with_txn(try_delay_till: OutputIdx, input_idx: InputIdx, txn: Transaction<P>) -> (account:
        Self)
        ensures
            account.wf(),
            account.try_delay_till == try_delay_till,
            account.input_idx == input_idx,
            account.txns@ == seq![TxnWithInputIdx { input_idx, txn }],
    {
        let mut txns = VecDeque::new();
        txns.push_back(TxnWithInputIdx { input_idx, txn });
        Account { try_delay_till, input_idx, txns }
    }

    pub fn new_empty(try_delay_till: OutputIdx, input_idx: InputIdx, _use_case_key: UseCaseKey) -> (account:
        Self)
        ensures
            account.wf(),
            account.try_delay_till == try_delay_till,
            account.input_idx == input_idx,
            account.txns@ == Seq::<TxnWithInputIdx<P>>::empty(),
    {
        Account { try_delay_till, input_idx, txns: VecDeque::new() }
    }

    pub fn is_empty(&self) -> (empty: bool)
        ensures
            empty == (self.txns@.len() == 0),
    {
        self.txns.len() == 0
    }

    pub fn delay_key(&self) -> (key: DelayKey)
        ensures
            key == self.spec_delay_key(),
    {
        DelayKey { try_delay_till: self.try_delay_till, input_idx: self.input_idx }
    }

    pub fn expect_first_txn(&self) -> (first: &TxnWithInputIdx<P>)
        requires
            self.txns@.len() > 0,
        ensures
            *first == self.txns@[0],
    {
        &self.txns[0]
    }

    pub fn expect_use_case_key(&self) -> (key: UseCaseKey)
        requires
            self.txns@.len() > 0,
        ensures
            key == self.txns@[0].txn.use_case,
    {
        self.expect_first_txn().txn.parse_use_case()
    }

    /// Appends a transaction whose input position lies behind all queued ones.
    pub fn queue_txn(&mut self, input_idx: InputIdx, txn: Transaction<P>)
        requires
            old(self).wf(),
            old(self).txns@.len() > 0 ==> old(self).txns@.last().input_idx < input_idx,
        ensures
            final(self).wf(),
            final(self).txns@ == old(self).txns@.push(TxnWithInputIdx { input_idx, txn }),
            final(self).try_delay_till == old(self).try_delay_till,
            final(self).input_idx == if old(self).txns@.len() > 0 {
                old(self).input_idx
            } else {
                input_idx
            },
    {
        if self.txns.len() == 0 {
            self.input_idx = input_idx;
        }
        self.txns.push_back(TxnWithInputIdx { input_idx, txn });
    }

    /// Takes the first queued transaction out.
    pub fn expect_dequeue_txn(&mut self) -> (first: TxnWithInputIdx<P>)
        requires
            old(self).wf(),
            old(self).txns@.len() > 0,
        ensures
            final(self).wf(),
            first == old(self).txns@[0],
            final(self).txns@ == old(self).txns@.drop_first(),
            final(self).try_delay_till == old(self).try_delay_till,
            final(self).input_idx == if old(self).txns@.len() > 1 {
                old(self).txns@[1].input_idx
            } else {
                old(self).input_idx
            },
    {
        let first = self.txns.pop_front().unwrap();
        if self.txns.len() > 0 {
            self.input_idx = self.txns[0].input_idx;
        }
        first
    }

    pub fn update_try_delay_till(&mut self, try_delay_till: OutputIdx)
        ensures
            final(self).try_delay_till == try_delay_till,
            final(self).input_idx == old(self).input_idx,
            final(self).txns == old(self).txns,
    {
        self.try_delay_till = try_delay_till;
    }
}

} // verus!

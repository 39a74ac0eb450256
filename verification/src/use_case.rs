//! The accounts of one use case, ordered by delay.

use vstd::prelude::*;
use crate::account::Account;
use crate::delay_key::{is_first, lemma_first_is_unique, DelayIndex, DelayKey};
use crate::types::{Address, InputIdx, OutputIdx};

verus! {

/// The first key of a map of delay keys; arbitrary when the map has none.
pub open spec fn first_key_of<V>(m: Map<DelayKey, V>) -> DelayKey {
    choose|k: DelayKey| is_first(m, k)
}

/// What the scheduler knows of one use case.
pub struct UseCase {
    /// The first slot at which this use case is no longer held back.
    pub try_delay_till: OutputIdx,
    /// Input position of the first account of the index; when the index is
    /// empty, the value it had before the last account left.
    pub input_idx: InputIdx,
    /// The accounts whose first queued transaction is of this use case.
    pub account_by_delay: DelayIndex<Address>,
}

impl UseCase {
    pub open spec fn spec_is_empty(&self) -> bool {
        forall|k: DelayKey| !self.account_by_delay@.contains_key(k)
    }

    /// An index that holds accounts has a first key, and `input_idx` is the
    /// input position of that key.
    pub open spec fn wf(&self) -> bool {
        !self.spec_is_empty() ==> {
            let first = first_key_of(self.account_by_delay@);
            &&& is_first(self.account_by_delay@, first)
            &&& first.input_idx == self.input_idx
        }
    }

    /// The key under which the scheduler files this use case: it is held
    /// back as long as the use case itself and its first account are.
    pub open spec fn spec_delay_key(&self) -> DelayKey {
        if self.spec_is_empty() {
            DelayKey { try_delay_till: self.try_delay_till, input_idx: self.input_idx }
        } else {
            let first = first_key_of(self.account_by_delay@);
            DelayKey {
                try_delay_till: if first.try_delay_till > self.try_delay_till {
                    first.try_delay_till
                } else {
                    self.try_delay_till
                },
                input_idx: self.input_idx,
            }
        }
    }

    pub fn new_empty(try_delay_till: OutputIdx, input_idx: InputIdx) -> (use_case: Self)
        ensures
            use_case.wf(),
            use_case.try_delay_till == try_delay_till,
            use_case.input_idx == input_idx,
            use_case.account_by_delay@ == Map::<DelayKey, Address>::empty(),
    {
        UseCase { try_delay_till, input_idx, account_by_delay: DelayIndex::new() }
    }

    pub fn new_with_account<P>(
        try_delay_till: OutputIdx,
        address: Address,
        account: &Account<P>,
    ) -> (use_case: Self)
        ensures
            use_case.wf(),
            use_case.try_delay_till == try_delay_till,
            use_case.input_idx == account.input_idx,
            use_case.account_by_delay@ == Map::<DelayKey, Address>::empty().insert(
                account.spec_delay_key(),
                address,
            ),
    {
        let mut account_by_delay = DelayIndex::new();
        account_by_delay.strict_insert(account.delay_key(), address);
        proof {
            assert(is_first(account_by_delay@, account.spec_delay_key()));
            lemma_first_is_unique(
                account_by_delay@,
                account.spec_delay_key(),
                first_key_of(account_by_delay@),
            );
        }
        UseCase { try_delay_till, input_idx: account.input_idx, account_by_delay }
    }

    pub fn is_empty(&self) -> (empty: bool)
        ensures
            empty == self.spec_is_empty(),
    {
        self.account_by_delay.is_empty()
    }

    pub fn delay_key(&self) -> (key: DelayKey)
        ensures
            key == self.spec_delay_key(),
    {
        // If head account will be ready later than the use case itself, respect that.
        match self.account_by_delay.first_key() {
            Some(first) => {
                proof {
                    lemma_first_is_unique(
                        self.account_by_delay@,
                        first,
                        first_key_of(self.account_by_delay@),
                    );
                }
                let try_delay_till = if first.try_delay_till > self.try_delay_till {
                    first.try_delay_till
                } else {
                    self.try_delay_till
                };
                DelayKey { try_delay_till, input_idx: self.input_idx }
            },
            None => DelayKey { try_delay_till: self.try_delay_till, input_idx: self.input_idx },
        }
    }

    /// Takes the first account out of the index.
    pub fn expect_pop_head_account(&mut self) -> (head: (DelayKey, Address))
        requires
            old(self).wf(),
            !old(self).spec_is_empty(),
        ensures
            final(self).wf(),
            is_first(old(self).account_by_delay@, head.0),
            head.0.input_idx == old(self).input_idx,
            head.1 == old(self).account_by_delay@[head.0],
            final(self).account_by_delay@ == old(self).account_by_delay@.remove(head.0),
            final(self).try_delay_till == old(self).try_delay_till,
            final(self).input_idx == if final(self).spec_is_empty() {
                old(self).input_idx
            } else {
                first_key_of(final(self).account_by_delay@).input_idx
            },
    {
        let popped = self.account_by_delay.pop_first();
        let (account_delay_key, address) = popped.unwrap();
        proof {
            lemma_first_is_unique(
                old(self).account_by_delay@,
                account_delay_key,
                first_key_of(old(self).account_by_delay@),
            );
        }
        match self.account_by_delay.first_key() {
            Some(next) => {
                proof {
                    lemma_first_is_unique(
                        self.account_by_delay@,
                        next,
                        first_key_of(self.account_by_delay@),
                    );
                }
                self.input_idx = next.input_idx;
            },
            None => {},
        }
        (account_delay_key, address)
    }

    pub fn update_try_delay_till(&mut self, try_delay_till: OutputIdx)
        ensures
            final(self).try_delay_till == try_delay_till,
            final(self).input_idx == old(self).input_idx,
            final(self).account_by_delay == old(self).account_by_delay,
    {
        self.try_delay_till = try_delay_till;
    }

    /// Files an account under its delay key.
    pub fn add_account<P>(&mut self, address: Address, account: &Account<P>)
        requires
            old(self).wf(),
            !old(self).account_by_delay@.contains_key(account.spec_delay_key()),
        ensures
            final(self).wf(),
            final(self).account_by_delay@ == old(self).account_by_delay@.insert(
                account.spec_delay_key(),
                address,
            ),
            final(self).try_delay_till == old(self).try_delay_till,
            final(self).input_idx == if is_first(
                final(self).account_by_delay@,
                account.spec_delay_key(),
            ) {
                account.input_idx
            } else {
                old(self).input_idx
            },
    {
        let account_delay_key = account.delay_key();
        self.account_by_delay.strict_insert(account_delay_key, address);
        assert(self.account_by_delay@.contains_key(account_delay_key));
        let head = self.account_by_delay.first_key().unwrap();
        proof {
            lemma_first_is_unique(
                self.account_by_delay@,
                head,
                first_key_of(self.account_by_delay@),
            );
        }
        if head.try_delay_till == account_delay_key.try_delay_till && head.input_idx
            == account_delay_key.input_idx {
            self.input_idx = account_delay_key.input_idx;
        } else {
            proof {
                let ghost before = old(self).account_by_delay@;
                assert(is_first(before, head)) by {
                    assert(before.contains_key(head));
                    assert forall|other: DelayKey| #[trigger]
                        before.contains_key(other) implies head.le(other) by {
                        assert(self.account_by_delay@.contains_key(other));
                    }
                }
                lemma_first_is_unique(before, head, first_key_of(before));
            }
        }
    }
}

} // verus!

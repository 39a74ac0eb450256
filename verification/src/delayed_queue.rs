//! The scheduler: tables of senders and use cases, ordered indexes over
//! them, and the operations that keep the two in step.

use vstd::prelude::*;
use crate::account::Account;
use crate::config::Config;
use crate::delay_key::{is_first, DelayIndex, DelayKey};
use crate::model::{key_le, AccountState, QueueState};
use crate::tables::{AccountTable, UseCaseTable};
use crate::types::{Address, InputIdx, OutputIdx, Transaction, UseCaseKey};
use crate::use_case::{first_key_of, UseCase};

verus! {

/// A delay key as a pair of integers.
pub open spec fn key_pair(key: DelayKey) -> (int, int) {
    (key.try_delay_till as int, key.input_idx as int)
}

/// The scheduler of the shuffler.
///
/// It holds the transactions that may not be emitted yet, by sender, and
/// orders senders within use cases and use cases among each other by the
/// slot until which each is held back. Senders and use cases that hold
/// nothing, but still cool down, are kept as placeholders until their slot
/// has come.
pub struct DelayedQueue<P> {
    accounts: AccountTable<P>,
    use_cases: UseCaseTable,
    account_placeholders_by_delay: DelayIndex<Address>,
    use_case_placeholders_by_delay: DelayIndex<UseCaseKey>,
    use_cases_by_delay: DelayIndex<UseCaseKey>,
    output_idx: OutputIdx,
    config: Config,
    /// Sender and use case of every transaction seen so far, by input position.
    seen: Ghost<Map<int, (Address, UseCaseKey)>>,
    next_input_idx: Ghost<int>,
}

impl<P> View for DelayedQueue<P> {
    type V = QueueState<P>;

    closed spec fn view(&self) -> QueueState<P> {
        QueueState {
            accounts: Map::new(
                |a: Address| self.accounts@.contains_key(a),
                |a: Address|
                    AccountState {
                        try_delay_till: self.accounts@[a].try_delay_till as int,
                        txns: self.accounts@[a].txns@,
                    },
            ),
            use_cases: Map::new(
                |u: UseCaseKey| self.use_cases@.contains_key(u),
                |u: UseCaseKey| self.use_cases@[u].try_delay_till as int,
            ),
            output_idx: self.output_idx as int,
            next_input_idx: self.next_input_idx@,
            config: self.config,
        }
    }
}

impl<P> DelayedQueue<P> {
    /// The counters are in range, and every position seen lies below the next one.
    closed spec fn counters_ok(&self) -> bool {
        &&& self.output_idx + 1 + self.config.max_spread_factor() <= usize::MAX
        &&& 0 <= self.next_input_idx@
        &&& forall|i: int| #[trigger] self.seen@.contains_key(i) ==> 0 <= i < self.next_input_idx@
    }

    /// An account is in order, and what it holds was seen with its address.
    closed spec fn account_ok(&self, a: Address, account: Account<P>) -> bool {
        &&& account.wf()
        &&& self.seen@.contains_key(account.input_idx as int)
        &&& self.seen@[account.input_idx as int].0 == a
        &&& forall|i: int|
            0 <= i < account.txns@.len() ==> {
                let t = #[trigger] account.txns@[i];
                &&& t.txn.sender == a
                &&& self.seen@.contains_key(t.input_idx as int)
                &&& self.seen@[t.input_idx as int] == (t.txn.sender, t.txn.use_case)
            }
    }

    closed spec fn accounts_ok(&self) -> bool {
        forall|a: Address| #[trigger]
            self.accounts@.contains_key(a) ==> self.account_ok(a, self.accounts@[a])
    }

    /// The placeholders are the empty accounts, each under its key and held
    /// back beyond slot `floor`; `ha` alone may be missing.
    closed spec fn placeholders_ok(&self, ha: Option<Address>, floor: int) -> bool {
        &&& forall|a: Address|
            #![trigger self.accounts@.contains_key(a)]
            self.accounts@.contains_key(a) && self.accounts@[a].txns@.len() == 0 && ha != Some(a)
                ==> {
                let k = self.accounts@[a].spec_delay_key();
                &&& self.account_placeholders_by_delay@.contains_key(k)
                &&& self.account_placeholders_by_delay@[k] == a
                &&& self.accounts@[a].try_delay_till > floor
            }
        &&& forall|k: DelayKey| #[trigger]
            self.account_placeholders_by_delay@.contains_key(k) ==> {
                let a = self.account_placeholders_by_delay@[k];
                &&& self.accounts@.contains_key(a)
                &&& self.accounts@[a].txns@.len() == 0
                &&& self.accounts@[a].spec_delay_key() == k
                &&& ha != Some(a)
            }
    }

    /// The members of each use case are the accounts whose first transaction
    /// is of that use case, each under its key; `ha` alone may be missing.
    closed spec fn members_ok(&self, ha: Option<Address>) -> bool {
        &&& forall|a: Address|
            #![trigger self.accounts@.contains_key(a)]
            self.accounts@.contains_key(a) && self.accounts@[a].txns@.len() > 0 && ha != Some(a)
                ==> {
                let u = self.accounts@[a].txns@[0].txn.use_case;
                let k = self.accounts@[a].spec_delay_key();
                &&& self.use_cases@.contains_key(u)
                &&& self.use_cases@[u].account_by_delay@.contains_key(k)
                &&& self.use_cases@[u].account_by_delay@[k] == a
            }
        &&& forall|u: UseCaseKey, k: DelayKey|
            #![trigger self.use_cases@[u].account_by_delay@.contains_key(k)]
            self.use_cases@.contains_key(u) && self.use_cases@[u].account_by_delay@.contains_key(k)
                ==> {
                let a = self.use_cases@[u].account_by_delay@[k];
                &&& self.accounts@.contains_key(a)
                &&& self.accounts@[a].txns@.len() > 0
                &&& self.accounts@[a].txns@[0].txn.use_case == u
                &&& self.accounts@[a].spec_delay_key() == k
                &&& ha != Some(a)
            }
    }

    /// A use case is in order, and its input position was seen with its key.
    closed spec fn use_cases_ok(&self) -> bool {
        forall|u: UseCaseKey| #[trigger]
            self.use_cases@.contains_key(u) ==> {
                &&& self.use_cases@[u].wf()
                &&& self.seen@.contains_key(self.use_cases@[u].input_idx as int)
                &&& self.seen@[self.use_cases@[u].input_idx as int].1 == u
            }
    }

    /// Each use case is filed under its key: among the active ones when it
    /// has members, else among the placeholders, where it is held back
    /// beyond slot `floor`; `hu` alone may be missing.
    closed spec fn links_ok(&self, hu: Option<UseCaseKey>, floor: int) -> bool {
        &&& forall|u: UseCaseKey|
            #![trigger self.use_cases@.contains_key(u)]
            self.use_cases@.contains_key(u) && hu != Some(u) ==> {
                let k = self.use_cases@[u].spec_delay_key();
                if self.use_cases@[u].spec_is_empty() {
                    &&& self.use_case_placeholders_by_delay@.contains_key(k)
                    &&& self.use_case_placeholders_by_delay@[k] == u
                    &&& self.use_cases@[u].try_delay_till > floor
                } else {
                    &&& self.use_cases_by_delay@.contains_key(k)
                    &&& self.use_cases_by_delay@[k] == u
                }
            }
        &&& forall|k: DelayKey| #[trigger]
            self.use_cases_by_delay@.contains_key(k) ==> {
                let u = self.use_cases_by_delay@[k];
                &&& self.use_cases@.contains_key(u)
                &&& !self.use_cases@[u].spec_is_empty()
                &&& self.use_cases@[u].spec_delay_key() == k
                &&& hu != Some(u)
            }
        &&& forall|k: DelayKey| #[trigger]
            self.use_case_placeholders_by_delay@.contains_key(k) ==> {
                let u = self.use_case_placeholders_by_delay@[k];
                &&& self.use_cases@.contains_key(u)
                &&& self.use_cases@[u].spec_is_empty()
                &&& self.use_cases@[u].spec_delay_key() == k
                &&& hu != Some(u)
            }
    }

    /// The invariant of the scheduler, but for one account and one use case
    /// that are held in the tables and filed in no index, and with the
    /// placeholders held back beyond slot `floor`.
    closed spec fn wf_at(&self, ha: Option<Address>, hu: Option<UseCaseKey>, floor: int) -> bool {
        &&& self.counters_ok()
        &&& self.accounts_ok()
        &&& self.placeholders_ok(ha, floor)
        &&& self.members_ok(ha)
        &&& self.use_cases_ok()
        &&& self.links_ok(hu, floor)
    }

    /// The invariant of the scheduler, but for one account and one use case
    /// that are held in the tables and filed in no index.
    closed spec fn wf_but(&self, ha: Option<Address>, hu: Option<UseCaseKey>) -> bool {
        self.wf_at(ha, hu, self.output_idx as int)
    }

    /// The invariant of the scheduler: the tables and the indexes agree.
    pub closed spec fn wf(&self) -> bool {
        self.wf_but(None, None)
    }

    pub fn new(config: Config) -> (queue: Self)
        requires
            config.max_spread_factor() < usize::MAX,
        ensures
            queue.wf(),
            queue@ == QueueState::<P>::empty(config),
    {
        let queue = DelayedQueue {
            accounts: AccountTable::new(),
            use_cases: UseCaseTable::new(),
            account_placeholders_by_delay: DelayIndex::new(),
            use_case_placeholders_by_delay: DelayIndex::new(),
            use_cases_by_delay: DelayIndex::new(),
            output_idx: 0,
            config,
            seen: Ghost(Map::empty()),
            next_input_idx: Ghost(0),
        };
        proof {
            assert(queue@.accounts =~= Map::<Address, AccountState<P>>::empty());
            assert(queue@.use_cases =~= Map::<UseCaseKey, int>::empty());
        }
        queue
    }

    /// What the indexes do not hold is the same in both schedulers.
    closed spec fn same_tables(&self, other: &Self) -> bool {
        &&& self.accounts@ == other.accounts@
        &&& self.use_cases@ == other.use_cases@
        &&& self.output_idx == other.output_idx
        &&& self.config == other.config
        &&& self.seen@ == other.seen@
        &&& self.next_input_idx@ == other.next_input_idx@
    }

    /// Files a use case that is in the table and in no index: among the
    /// active ones when it has members, else among the placeholders.
    fn link_use_case(&mut self, use_case_key: UseCaseKey, Ghost(ha): Ghost<Option<Address>>)
        requires
            old(self).wf_but(ha, Some(use_case_key)),
            old(self).use_cases@.contains_key(use_case_key),
            old(self).use_cases@[use_case_key].spec_is_empty() ==> old(
                self,
            ).use_cases@[use_case_key].try_delay_till > old(self).output_idx,
        ensures
            final(self).wf_but(ha, None),
            final(self).same_tables(old(self)),
            final(self).account_placeholders_by_delay == old(self).account_placeholders_by_delay,
            final(self)@ == old(self)@,
    {
        let use_case = self.use_cases.get(&use_case_key).unwrap();
        let key = use_case.delay_key();
        if use_case.is_empty() {
            self.use_case_placeholders_by_delay.strict_insert(key, use_case_key);
        } else {
            self.use_cases_by_delay.strict_insert(key, use_case_key);
        }
    }

    /// Takes a use case out of the index that holds it.
    fn unlink_use_case(&mut self, use_case_key: UseCaseKey, Ghost(ha): Ghost<Option<Address>>)
        requires
            old(self).wf_but(ha, None),
            old(self).use_cases@.contains_key(use_case_key),
        ensures
            final(self).wf_but(ha, Some(use_case_key)),
            final(self).same_tables(old(self)),
            final(self).account_placeholders_by_delay == old(self).account_placeholders_by_delay,
            final(self)@ == old(self)@,
    {
        let use_case = self.use_cases.get(&use_case_key).unwrap();
        let key = use_case.delay_key();
        if use_case.is_empty() {
            self.use_case_placeholders_by_delay.strict_remove(&key);
        } else {
            self.use_cases_by_delay.strict_remove(&key);
        }
    }

    /// Files an empty account that is in the table and in no index among the
    /// placeholders.
    fn park_account(&mut self, address: Address, Ghost(hu): Ghost<Option<UseCaseKey>>)
        requires
            old(self).wf_but(Some(address), hu),
            old(self).accounts@.contains_key(address),
            old(self).accounts@[address].txns@.len() == 0,
            old(self).accounts@[address].try_delay_till > old(self).output_idx,
        ensures
            final(self).wf_but(None, hu),
            final(self).same_tables(old(self)),
            final(self).use_cases_by_delay == old(self).use_cases_by_delay,
            final(self).use_case_placeholders_by_delay == old(
                self,
            ).use_case_placeholders_by_delay,
            final(self)@ == old(self)@,
    {
        let key = self.accounts.get(&address).unwrap().delay_key();
        self.account_placeholders_by_delay.strict_insert(key, address);
    }

    /// Makes an account with waiting transactions a member of the use case
    /// of its first transaction; account and use case are in no index.
    fn join_use_case(&mut self, address: Address, use_case_key: UseCaseKey)
        requires
            old(self).wf_but(Some(address), Some(use_case_key)),
            old(self).accounts@.contains_key(address),
            old(self).accounts@[address].txns@.len() > 0,
            old(self).accounts@[address].txns@[0].txn.use_case == use_case_key,
            old(self).use_cases@.contains_key(use_case_key),
        ensures
            final(self).wf_but(None, Some(use_case_key)),
            final(self).accounts@ == old(self).accounts@,
            final(self).use_cases@.dom() == old(self).use_cases@.dom(),
            final(self).use_cases@.contains_key(use_case_key),
            !final(self).use_cases@[use_case_key].spec_is_empty(),
            final(self).output_idx == old(self).output_idx,
            final(self).config == old(self).config,
            final(self).next_input_idx@ == old(self).next_input_idx@,
            final(self)@ == old(self)@,
    {
        let mut use_case = self.use_cases.strict_remove(&use_case_key);
        let account = self.accounts.get(&address).unwrap();
        let ghost key = account.spec_delay_key();
        use_case.add_account(address, account);
        assert(use_case.account_by_delay@.contains_key(key));
        self.use_cases.strict_insert(use_case_key, use_case);
        proof {
            assert(self.use_cases@.dom() =~= old(self).use_cases@.dom());
            assert(self@.use_cases =~= old(self)@.use_cases);
            assert(self@.accounts =~= old(self)@.accounts);
        }
    }

    /// Makes an account with waiting transactions, which is in no index, a
    /// member of the use case of its first transaction. A use case that is
    /// not tracked yet is held back until the next slot only.
    fn attach_account(&mut self, address: Address)
        requires
            old(self).wf_but(Some(address), None),
            old(self).accounts@.contains_key(address),
            old(self).accounts@[address].txns@.len() > 0,
        ensures
            final(self).wf(),
            final(self)@.accounts == old(self)@.accounts,
            final(self)@.use_cases == ({
                let u = old(self).accounts@[address].txns@[0].txn.use_case;
                if old(self)@.use_cases.contains_key(u) {
                    old(self)@.use_cases
                } else {
                    old(self)@.use_cases.insert(u, old(self).output_idx + 1)
                }
            }),
            final(self)@.output_idx == old(self)@.output_idx,
            final(self)@.next_input_idx == old(self)@.next_input_idx,
            final(self)@.config == old(self)@.config,
    {
        let use_case_key = self.accounts.get(&address).unwrap().expect_use_case_key();
        if self.use_cases.get(&use_case_key).is_some() {
            self.unlink_use_case(use_case_key, Ghost(Some(address)));
            self.join_use_case(address, use_case_key);
            self.link_use_case(use_case_key, Ghost(None));
        } else {
            let account = self.accounts.get(&address).unwrap();
            // use case not tracked previously, try_delay_till = output_idx + 1
            let use_case = UseCase::new_with_account(self.output_idx + 1, address, account);
            assert(use_case.account_by_delay@.contains_key(account.spec_delay_key()));
            self.use_cases.strict_insert(use_case_key, use_case);
            proof {
                assert(self@.use_cases =~= old(self)@.use_cases.insert(
                    use_case_key,
                    old(self).output_idx + 1,
                ));
                assert(self@.accounts =~= old(self)@.accounts);
            }
            self.link_use_case(use_case_key, Ghost(None));
        }
    }

    /// In the model a use case has members exactly when its index of
    /// accounts holds any.
    proof fn lemma_members(&self, u: UseCaseKey)
        requires
            self.wf(),
        ensures
            self@.has_members(u) <==> self.use_cases@.contains_key(u)
                && !self.use_cases@[u].spec_is_empty(),
    {
        self.lemma_members_at(u, self.output_idx as int);
    }

    /// The same, whatever the slot beyond which the placeholders are held back.
    proof fn lemma_members_at(&self, u: UseCaseKey, floor: int)
        requires
            self.wf_at(None, None, floor),
        ensures
            self@.has_members(u) <==> self.use_cases@.contains_key(u)
                && !self.use_cases@[u].spec_is_empty(),
    {
        if self@.has_members(u) {
            let a = choose|a: Address| self@.is_member(u, a);
            assert(self.accounts@.contains_key(a));
            assert(self.use_cases@[u].account_by_delay@.contains_key(
                self.accounts@[a].spec_delay_key(),
            ));
        }
        if self.use_cases@.contains_key(u) && !self.use_cases@[u].spec_is_empty() {
            let k = choose|k: DelayKey| self.use_cases@[u].account_by_delay@.contains_key(k);
            let a = self.use_cases@[u].account_by_delay@[k];
            assert(self@.is_member(u, a));
        }
    }

    /// The first account of a use case in the model is the one that its
    /// index of accounts holds first, and the key of the use case in the
    /// model is the one under which the scheduler files it.
    proof fn lemma_lead(&self, u: UseCaseKey)
        requires
            self.wf(),
            self.use_cases@.contains_key(u),
            !self.use_cases@[u].spec_is_empty(),
        ensures
            self@.lead(u) == self.use_cases@[u].account_by_delay@[first_key_of(
                self.use_cases@[u].account_by_delay@,
            )],
            self@.is_lead(u, self@.lead(u)),
            self@.use_case_key(u) == key_pair(self.use_cases@[u].spec_delay_key()),
    {
        let index = self.use_cases@[u].account_by_delay@;
        let k = first_key_of(index);
        let a0 = index[k];
        assert(index.contains_key(k));
        assert(self.accounts@.contains_key(a0));
        assert(self@.is_member(u, a0));
        assert forall|b: Address| #[trigger] self@.is_member(u, b) implies key_le(
            self@.account_key(a0),
            self@.account_key(b),
        ) by {
            assert(self.accounts@.contains_key(b));
            assert(index.contains_key(self.accounts@[b].spec_delay_key()));
        }
        assert(self@.is_lead(u, a0));
        let a1 = self@.lead(u);
        assert(self@.is_lead(u, a1));
        assert(self@.is_member(u, a1));
        assert(self.accounts@.contains_key(a1));
        assert(key_le(self@.account_key(a1), self@.account_key(a0)));
        assert(key_le(self@.account_key(a0), self@.account_key(a1)));
        assert(self.accounts@[a1].input_idx == self.accounts@[a0].input_idx);
        assert(a1 == a0);
    }

    /// The first use case of the model is the one that the index of active
    /// use cases holds first.
    proof fn lemma_front(&self, k: DelayKey)
        requires
            self.wf(),
            is_first(self.use_cases_by_delay@, k),
        ensures
            self@.has_pending(),
            self@.front() == self.use_cases_by_delay@[k],
            self@.use_case_key(self@.front()) == key_pair(k),
    {
        let u0 = self.use_cases_by_delay@[k];
        assert(self.use_cases_by_delay@.contains_key(k));
        self.lemma_members(u0);
        self.lemma_lead(u0);
        assert(self@.is_pending(self@.lead(u0)));
        assert forall|v: UseCaseKey| #[trigger] self@.has_members(v) implies key_le(
            self@.use_case_key(u0),
            self@.use_case_key(v),
        ) by {
            self.lemma_members(v);
            self.lemma_lead(v);
            assert(self.use_cases_by_delay@.contains_key(self.use_cases@[v].spec_delay_key()));
        }
        assert(self@.is_front(u0));
        let u1 = self@.front();
        assert(self@.is_front(u1));
        self.lemma_members(u1);
        self.lemma_lead(u1);
        assert(key_le(self@.use_case_key(u1), self@.use_case_key(u0)));
        assert(key_le(self@.use_case_key(u0), self@.use_case_key(u1)));
        assert(self.use_cases@[u1].input_idx == self.use_cases@[u0].input_idx);
        assert(u1 == u0);
    }

    /// Nothing waits in the model when no use case is active.
    proof fn lemma_idle(&self)
        requires
            self.wf(),
            forall|k: DelayKey| !self.use_cases_by_delay@.contains_key(k),
        ensures
            !self@.has_pending(),
    {
        if self@.has_pending() {
            let a = choose|a: Address| self@.is_pending(a);
            assert(self.accounts@.contains_key(a));
            let u = self.accounts@[a].txns@[0].txn.use_case;
            assert(self.use_cases@[u].account_by_delay@.contains_key(
                self.accounts@[a].spec_delay_key(),
            ));
            assert(self.use_cases_by_delay@.contains_key(self.use_cases@[u].spec_delay_key()));
        }
    }

    /// The model of a scheduler that is in order is well formed.
    pub proof fn lemma_well_formed(&self)
        requires
            self.wf(),
        ensures
            self@.well_formed(),
    {
        let q = self@;
        assert forall|a: Address, i: int|
            #![trigger q.accounts[a].txns[i]]
            q.accounts.contains_key(a) && 0 <= i < q.accounts[a].txns.len() implies ({
            &&& q.accounts[a].txns[i].txn.sender == a
            &&& q.accounts[a].txns[i].input_idx < q.next_input_idx
        }) by {
            assert(self.accounts@.contains_key(a));
            let t = self.accounts@[a].txns@[i];
            assert(self.seen@.contains_key(t.input_idx as int));
        }
        assert forall|a: Address, i: int, j: int|
            #![trigger q.accounts[a].txns[i], q.accounts[a].txns[j]]
            q.accounts.contains_key(a) && 0 <= i < j < q.accounts[a].txns.len()
                implies q.accounts[a].txns[i].input_idx < q.accounts[a].txns[j].input_idx by {
            assert(self.accounts@.contains_key(a));
            assert(self.accounts@[a].txns@[i].input_idx < self.accounts@[a].txns@[j].input_idx);
        }
        assert forall|a: Address, b: Address, i: int, j: int|
            #![trigger q.accounts[a].txns[i], q.accounts[b].txns[j]]
            q.accounts.contains_key(a) && q.accounts.contains_key(b) && a != b && 0 <= i
                < q.accounts[a].txns.len() && 0 <= j < q.accounts[b].txns.len()
                implies q.accounts[a].txns[i].input_idx != q.accounts[b].txns[j].input_idx by {
            assert(self.accounts@.contains_key(a));
            assert(self.accounts@.contains_key(b));
            let t = self.accounts@[a].txns@[i];
            let r = self.accounts@[b].txns@[j];
            assert(self.seen@[t.input_idx as int].0 == a);
            assert(self.seen@[r.input_idx as int].0 == b);
        }
        assert forall|a: Address| #[trigger] q.is_pending(a) implies q.use_cases.contains_key(
            q.head(a).txn.use_case,
        ) by {
            assert(self.accounts@.contains_key(a));
        }
        assert forall|a: Address|
            #![trigger q.accounts[a]]
            q.accounts.contains_key(a) && q.accounts[a].txns.len() == 0
                implies q.accounts[a].try_delay_till > q.output_idx by {
            assert(self.accounts@.contains_key(a));
        }
        assert forall|u: UseCaseKey|
            #![trigger q.use_cases[u]]
            q.use_cases.contains_key(u) && !q.has_members(u) implies q.use_cases[u]
            > q.output_idx by {
            self.lemma_members(u);
            assert(self.use_cases@.contains_key(u));
        }
    }

    /// Hands out the transaction that is first in line, if there is one and,
    /// where `only_if_ready` is set, if its use case is no longer held back.
    pub fn pop_head(&mut self, only_if_ready: bool) -> (txn: Option<Transaction<P>>)
        requires
            old(self).wf(),
        ensures
            final(self).wf(),
            txn is Some <==> old(self)@.can_pop(only_if_ready),
            txn is Some ==> txn->Some_0 == old(self)@.popped().txn && final(self)@ == old(
                self,
            )@.after_pop(),
            txn is None ==> final(self)@ == old(self)@,
    {
        // See if any delayed txn exists. If not, return None.
        let use_case_delay_key = match self.use_cases_by_delay.first_key() {
            None => {
                proof {
                    self.lemma_idle();
                }
                return None;
            },
            Some(key) => key,
        };
        proof {
            self.lemma_front(use_case_delay_key);
            self.lemma_lead(self.use_cases_by_delay@[use_case_delay_key]);
        }
        if only_if_ready && use_case_delay_key.try_delay_till > self.output_idx {
            return None;
        }
        // Gonna return the txn with the smallest DelayKey.

        // First, both the use case and account need to be removed from the priority queues.
        let use_case_key = self.use_cases_by_delay.strict_remove(&use_case_delay_key);
        let mut use_case = self.use_cases.strict_remove(&use_case_key);
        let (account_delay_key, address) = use_case.expect_pop_head_account();
        assert(account_delay_key.try_delay_till <= use_case_delay_key.try_delay_till);
        assert(account_delay_key.input_idx == use_case_delay_key.input_idx);

        // Pop first txn from account (for returning it later).
        let mut account = self.accounts.strict_remove(&address);
        let txn = account.expect_dequeue_txn();

        // Update priorities.
        account.update_try_delay_till(self.output_idx + 1 + self.config.sender_spread_factor());
        use_case.update_try_delay_till(
            self.output_idx + 1 + self.config.use_case_spread_factor(&use_case_key),
        );

        // Add account and use case back to delay queues.
        let account_is_empty = account.is_empty();
        let same_use_case = !account_is_empty && account.expect_use_case_key() == use_case_key;
        self.accounts.strict_insert(address, account);
        self.use_cases.strict_insert(use_case_key, use_case);
        proof {
            assert(self@.accounts =~= old(self)@.after_pop().accounts);
            assert(self@.use_cases =~= old(self)@.use_cases.insert(
                use_case_key,
                old(self)@.use_case_cooldown(use_case_key),
            ));
            assert(self.wf_but(Some(address), Some(use_case_key)));
        }
        if account_is_empty {
            self.park_account(address, Ghost(Some(use_case_key)));
            self.link_use_case(use_case_key, Ghost(None));
        } else if same_use_case {
            self.join_use_case(address, use_case_key);
            self.link_use_case(use_case_key, Ghost(None));
        } else {
            // account now belongs to a different use case
            self.link_use_case(use_case_key, Ghost(Some(address)));
            self.attach_account(address);
        }
        Some(txn.txn)
    }

    /// Records that the transaction at `input_idx` was seen.
    fn note_seen(&mut self, input_idx: InputIdx, address: Address, use_case_key: UseCaseKey)
        requires
            old(self).wf(),
            input_idx >= old(self)@.next_input_idx,
        ensures
            final(self).wf(),
            final(self).accounts == old(self).accounts,
            final(self).use_cases == old(self).use_cases,
            final(self).output_idx == old(self).output_idx,
            final(self).config == old(self).config,
            final(self).seen@ == old(self).seen@.insert(input_idx as int, (address, use_case_key)),
            final(self).next_input_idx@ == input_idx + 1,
            forall|i: int| #[trigger] old(self).seen@.contains_key(i) ==> i < input_idx,
    {
        self.seen = Ghost(self.seen@.insert(input_idx as int, (address, use_case_key)));
        self.next_input_idx = Ghost(input_idx + 1);
    }

    /// Txn from input queue directly selected for output, needs to bump delays for relevant
    /// account and use case.
    fn update_delays_for_undelayable_txn(
        &mut self,
        input_idx: InputIdx,
        txn: &Transaction<P>,
        address: Address,
        use_case_key: UseCaseKey,
    )
        requires
            old(self).wf(),
            input_idx >= old(self)@.next_input_idx,
            address == txn.sender,
            use_case_key == txn.use_case,
            !old(self)@.must_delay(*txn),
        ensures
            final(self).wf(),
            final(self)@ == old(self)@.after_emit(input_idx as int, *txn),
    {
        self.note_seen(input_idx, address, use_case_key);
        let account_try_delay_till = self.output_idx + 1 + self.config.sender_spread_factor();
        let use_case_try_delay_till = self.output_idx + 1 + self.config.use_case_spread_factor(
            &use_case_key,
        );
        let new_account = Account::new_empty(account_try_delay_till, input_idx, use_case_key);

        if self.use_cases.get(&use_case_key).is_some() {
            self.unlink_use_case(use_case_key, Ghost(None));
            let mut use_case = self.use_cases.strict_remove(&use_case_key);
            // The txn would not have been selected for an empty use case,
            // which is tracked for a delay beyond the current slot.
            assert(!use_case.spec_is_empty());
            use_case.update_try_delay_till(use_case_try_delay_till);
            self.use_cases.strict_insert(use_case_key, use_case);
        } else {
            let use_case = UseCase::new_empty(use_case_try_delay_till, input_idx);
            self.use_cases.strict_insert(use_case_key, use_case);
        }
        proof {
            assert(self@.use_cases =~= old(self)@.after_emit(input_idx as int, *txn).use_cases);
            assert(self.wf_but(None, Some(use_case_key)));
        }
        self.link_use_case(use_case_key, Ghost(None));

        // Account must not have been tracked before, otherwise the txn wouldn't have been selected.
        self.accounts.strict_insert(address, new_account);
        proof {
            assert(self@.accounts =~= old(self)@.after_emit(input_idx as int, *txn).accounts);
            assert(self.wf_but(Some(address), None));
        }
        self.park_account(address, Ghost(None));
    }

    /// Txn has to be delayed, attach it to respective account and use case.
    fn queue_txn(
        &mut self,
        input_idx: InputIdx,
        txn: Transaction<P>,
        address: Address,
        use_case_key: UseCaseKey,
    )
        requires
            old(self).wf(),
            input_idx >= old(self)@.next_input_idx,
            address == txn.sender,
            use_case_key == txn.use_case,
            old(self)@.must_delay(txn),
        ensures
            final(self).wf(),
            final(self)@ == old(self)@.after_queue(input_idx as int, txn),
    {
        self.note_seen(input_idx, address, use_case_key);
        let known = match self.accounts.get(&address) {
            Some(account) => Some(account.is_empty()),
            None => None,
        };
        match known {
            Some(true) => {
                let key = self.accounts.get(&address).unwrap().delay_key();
                self.account_placeholders_by_delay.strict_remove(&key);
                let mut account = self.accounts.strict_remove(&address);
                account.queue_txn(input_idx, txn);
                self.accounts.strict_insert(address, account);
                proof {
                    assert(self@.accounts =~= old(self)@.after_queue(input_idx as int, txn).accounts);
                    assert(self.wf_but(Some(address), None));
                }
                self.attach_account(address);
            },
            Some(false) => {
                // account was not empty, so appending a new txn to it won't affect positions
                // in delay queues
                let mut account = self.accounts.strict_remove(&address);
                account.queue_txn(input_idx, txn);
                self.accounts.strict_insert(address, account);
                proof {
                    assert(self@.accounts =~= old(self)@.after_queue(input_idx as int, txn).accounts);
                    assert(self@.use_cases =~= old(self)@.after_queue(input_idx as int, txn).use_cases);
                    assert(self.wf());
                }
            },
            None => {
                let account = Account::new_with_txn(self.output_idx + 1, input_idx, txn);
                // Account didn't exist before, so use case must exist
                assert(self.use_cases@.contains_key(use_case_key));
                self.accounts.strict_insert(address, account);
                proof {
                    assert(self@.accounts =~= old(self)@.after_queue(input_idx as int, txn).accounts);
                    assert(self.wf_but(Some(address), None));
                }
                self.attach_account(address);
            },
        }
    }

    /// Return the txn back if relevant use case and sender are not subject to delaying. Otherwise,
    /// Queue it up.
    pub fn add_or_return(&mut self, input_idx: InputIdx, txn: Transaction<P>) -> (returned: Option<
        Transaction<P>,
    >)
        requires
            old(self).wf(),
            input_idx >= old(self)@.next_input_idx,
        ensures
            final(self).wf(),
            old(self)@.must_delay(txn) ==> returned is None && final(self)@ == old(
                self,
            )@.after_queue(input_idx as int, txn),
            !old(self)@.must_delay(txn) ==> returned == Some(txn) && final(self)@ == old(
                self,
            )@.after_emit(input_idx as int, txn),
    {
        let address = txn.parse_sender();
        let use_case_key = txn.parse_use_case();
        let account_should_delay = match self.accounts.get(&address) {
            // can be a previous txn of a different use case that needs to be delayed
            Some(account) => !account.is_empty() || account.try_delay_till > self.output_idx,
            None => false,
        };
        let use_case_should_delay = match self.use_cases.get(&use_case_key) {
            Some(use_case) => use_case.try_delay_till > self.output_idx,
            None => false,
        };
        if !account_should_delay && !use_case_should_delay {
            self.update_delays_for_undelayable_txn(input_idx, &txn, address, use_case_key);
            Some(txn)
        } else {
            self.queue_txn(input_idx, txn, address, use_case_key);
            None
        }
    }

    /// The key of the first placeholder of `index`, if it is stale: held
    /// back no further than the current slot.
    fn first_stale<V>(index: &DelayIndex<V>, output_idx: OutputIdx) -> (stale: Option<DelayKey>)
        ensures
            match stale {
                Some(k) => is_first(index@, k) && k.try_delay_till <= output_idx,
                None => forall|k: DelayKey| #[trigger]
                    index@.contains_key(k) ==> k.try_delay_till > output_idx,
            },
    {
        match index.first_key() {
            Some(k) => if k.try_delay_till <= output_idx {
                Some(k)
            } else {
                None
            },
            None => None,
        }
    }

    /// Remove stale (empty use cases with try_delay_till <= self.output_idx) placeholders.
    fn drain_placeholders(&mut self, Ghost(floor): Ghost<int>)
        requires
            old(self).wf_at(None, None, floor),
            floor <= old(self).output_idx,
        ensures
            final(self).wf(),
            final(self)@ == (QueueState { output_idx: floor, ..old(self)@ }).after_bump(
                old(self).output_idx as int,
            ),
    {
        let ghost before = *self;
        let ghost model = QueueState { output_idx: floor, ..before@ };
        proof {
            assert forall|u: UseCaseKey| before.use_cases@.contains_key(u) implies (
            model.has_members(u) <==> !before.use_cases@[u].spec_is_empty()) by {
                before.lemma_members_at(u, floor);
                assert(model.has_members(u) <==> before@.has_members(u)) by {
                    if model.has_members(u) {
                        let a = choose|a: Address| model.is_member(u, a);
                        assert(before@.is_member(u, a));
                    }
                    if before@.has_members(u) {
                        let a = choose|a: Address| before@.is_member(u, a);
                        assert(model.is_member(u, a));
                    }
                }
            }
        }
        loop
            invariant
                self.wf_at(None, None, floor),
                self.accounts == before.accounts,
                self.output_idx == before.output_idx,
                self.config == before.config,
                self.seen == before.seen,
                self.next_input_idx == before.next_input_idx,
                forall|u: UseCaseKey| #[trigger]
                    self.use_cases@.contains_key(u) ==> before.use_cases@.contains_key(u)
                        && self.use_cases@[u] == before.use_cases@[u],
                forall|u: UseCaseKey| #[trigger]
                    before.use_cases@.contains_key(u) && !self.use_cases@.contains_key(u) ==> {
                        &&& before.use_cases@[u].spec_is_empty()
                        &&& before.use_cases@[u].try_delay_till <= self.output_idx
                    },
            ensures
                forall|k: DelayKey| #[trigger]
                    self.use_case_placeholders_by_delay@.contains_key(k) ==> k.try_delay_till
                        > self.output_idx,
            decreases self.use_case_placeholders_by_delay.count(),
        {
            match Self::first_stale(&self.use_case_placeholders_by_delay, self.output_idx) {
                Some(k) => {
                    let use_case_key = self.use_case_placeholders_by_delay.strict_remove(&k);
                    self.use_cases.strict_remove(&use_case_key);
                },
                None => {
                    break ;
                },
            }
        }
        let ghost midway = *self;
        loop
            invariant
                self.wf_at(None, None, floor),
                self.use_cases == midway.use_cases,
                self.use_case_placeholders_by_delay == midway.use_case_placeholders_by_delay,
                self.output_idx == before.output_idx,
                self.config == before.config,
                self.seen == before.seen,
                self.next_input_idx == before.next_input_idx,
                forall|a: Address| #[trigger]
                    self.accounts@.contains_key(a) ==> before.accounts@.contains_key(a)
                        && self.accounts@[a] == before.accounts@[a],
                forall|a: Address| #[trigger]
                    before.accounts@.contains_key(a) && !self.accounts@.contains_key(a) ==> {
                        &&& before.accounts@[a].txns@.len() == 0
                        &&& before.accounts@[a].try_delay_till <= self.output_idx
                    },
            ensures
                forall|k: DelayKey| #[trigger]
                    self.account_placeholders_by_delay@.contains_key(k) ==> k.try_delay_till
                        > self.output_idx,
            decreases self.account_placeholders_by_delay.count(),
        {
            match Self::first_stale(&self.account_placeholders_by_delay, self.output_idx) {
                Some(k) => {
                    let address = self.account_placeholders_by_delay.strict_remove(&k);
                    self.accounts.strict_remove(&address);
                },
                None => {
                    break ;
                },
            }
        }
        proof {
            let after = model.after_bump(before.output_idx as int);
            assert(self@.accounts =~= after.accounts);
            assert(self@.use_cases =~= after.use_cases);
            assert(self.wf());
        }
    }

    /// Moves the scheduler to slot `output_idx`, which lies at or behind the
    /// current one, and forgets what is stale there.
    pub fn bump_output_idx(&mut self, output_idx: OutputIdx)
        requires
            old(self).wf(),
            old(self)@.output_idx <= output_idx,
            output_idx + 1 + old(self)@.config.max_spread_factor() <= usize::MAX,
        ensures
            final(self).wf(),
            final(self)@ == old(self)@.after_bump(output_idx as int),
    {
        let ghost floor = self.output_idx as int;
        self.output_idx = output_idx;
        self.drain_placeholders(Ghost(floor));
    }

}

} // verus!

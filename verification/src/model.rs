//! The scheduler as a mathematical value, and what each of its operations
//! does to that value.

use vstd::prelude::*;
use crate::account::TxnWithInputIdx;
use crate::config::Config;
use crate::types::{Address, Transaction, UseCaseKey};

verus! {

/// The lexicographic order of pairs of integers.
pub open spec fn key_le(a: (int, int), b: (int, int)) -> bool {
    a.0 < b.0 || (a.0 == b.0 && a.1 <= b.1)
}

/// One sender in the model of the scheduler.
pub struct AccountState<P> {
    /// The first slot at which the sender is no longer held back.
    pub try_delay_till: int,
    /// The transactions of the sender that wait in the scheduler, oldest first.
    pub txns: Seq<TxnWithInputIdx<P>>,
}

/// The scheduler as a mathematical value.
///
/// It holds what decides the scheduler's answers and nothing else: the
/// tracked senders with their waiting transactions, the tracked use cases
/// with the slot until which each is held back, and the two counters. The
/// ordered indexes of the implementation are functions of these.
pub struct QueueState<P> {
    pub accounts: Map<Address, AccountState<P>>,
    pub use_cases: Map<UseCaseKey, int>,
    /// The slot of the next emission.
    pub output_idx: int,
    /// Every input position seen so far lies below this one.
    pub next_input_idx: int,
    pub config: Config,
}

impl<P> QueueState<P> {
    /// The scheduler that tracks nothing, at slot 0.
    pub open spec fn empty(config: Config) -> Self {
        QueueState {
            accounts: Map::empty(),
            use_cases: Map::empty(),
            output_idx: 0,
            next_input_idx: 0,
            config,
        }
    }

    /// What holds of the scheduler between any two of its operations.
    ///
    /// In each queue the input positions increase, and every transaction
    /// waits in the queue of its sender; no input position occurs twice;
    /// the use case of the oldest transaction of a sender is tracked; and a
    /// sender or a use case that holds nothing is tracked only while it
    /// cools down.
    pub open spec fn well_formed(self) -> bool {
        &&& 0 <= self.output_idx
        &&& self.output_idx + 1 + self.config.max_spread_factor() <= usize::MAX
        &&& forall|a: Address, i: int|
            #![trigger self.accounts[a].txns[i]]
            self.accounts.contains_key(a) && 0 <= i < self.accounts[a].txns.len() ==> {
                &&& self.accounts[a].txns[i].txn.sender == a
                &&& self.accounts[a].txns[i].input_idx < self.next_input_idx
            }
        &&& forall|a: Address, i: int, j: int|
            #![trigger self.accounts[a].txns[i], self.accounts[a].txns[j]]
            self.accounts.contains_key(a) && 0 <= i < j < self.accounts[a].txns.len()
                ==> self.accounts[a].txns[i].input_idx < self.accounts[a].txns[j].input_idx
        &&& forall|a: Address, b: Address, i: int, j: int|
            #![trigger self.accounts[a].txns[i], self.accounts[b].txns[j]]
            self.accounts.contains_key(a) && self.accounts.contains_key(b) && a != b && 0 <= i
                < self.accounts[a].txns.len() && 0 <= j < self.accounts[b].txns.len()
                ==> self.accounts[a].txns[i].input_idx != self.accounts[b].txns[j].input_idx
        &&& forall|a: Address| #[trigger]
            self.is_pending(a) ==> self.use_cases.contains_key(self.head(a).txn.use_case)
        &&& forall|a: Address|
            #![trigger self.accounts[a]]
            self.accounts.contains_key(a) && self.accounts[a].txns.len() == 0
                ==> self.accounts[a].try_delay_till > self.output_idx
        &&& forall|u: UseCaseKey|
            #![trigger self.use_cases[u]]
            self.use_cases.contains_key(u) && !self.has_members(u) ==> self.use_cases[u]
                > self.output_idx
    }

    /// `a` is tracked and has a transaction waiting.
    pub open spec fn is_pending(self, a: Address) -> bool {
        self.accounts.contains_key(a) && self.accounts[a].txns.len() > 0
    }

    pub open spec fn has_pending(self) -> bool {
        exists|a: Address| self.is_pending(a)
    }

    /// The oldest waiting transaction of `a`.
    pub open spec fn head(self, a: Address) -> TxnWithInputIdx<P> {
        self.accounts[a].txns[0]
    }

    /// The key by which a pending account is ordered within its use case.
    pub open spec fn account_key(self, a: Address) -> (int, int) {
        (self.accounts[a].try_delay_till, self.head(a).input_idx as int)
    }

    /// A pending account belongs to the use case of its oldest transaction.
    pub open spec fn is_member(self, u: UseCaseKey, a: Address) -> bool {
        self.is_pending(a) && self.head(a).txn.use_case == u
    }

    pub open spec fn has_members(self, u: UseCaseKey) -> bool {
        exists|a: Address| self.is_member(u, a)
    }

    /// `a` is a member of `u` that no other member comes before.
    pub open spec fn is_lead(self, u: UseCaseKey, a: Address) -> bool {
        &&& self.is_member(u, a)
        &&& forall|b: Address| #[trigger]
            self.is_member(u, b) ==> key_le(self.account_key(a), self.account_key(b))
    }

    /// The first account of a use case that has members.
    pub open spec fn lead(self, u: UseCaseKey) -> Address {
        choose|a: Address| self.is_lead(u, a)
    }

    /// The key by which a use case with members is ordered: it is held back
    /// as long as the use case itself and its first account are, and ties
    /// are broken by the input position of that account's oldest transaction.
    pub open spec fn use_case_key(self, u: UseCaseKey) -> (int, int) {
        let a = self.lead(u);
        (
            if self.accounts[a].try_delay_till > self.use_cases[u] {
                self.accounts[a].try_delay_till
            } else {
                self.use_cases[u]
            },
            self.head(a).input_idx as int,
        )
    }

    /// `u` has members, and no use case with members comes before it.
    pub open spec fn is_front(self, u: UseCaseKey) -> bool {
        &&& self.has_members(u)
        &&& forall|v: UseCaseKey| #[trigger]
            self.has_members(v) ==> key_le(self.use_case_key(u), self.use_case_key(v))
    }

    /// The first use case, when a transaction is waiting.
    pub open spec fn front(self) -> UseCaseKey {
        choose|u: UseCaseKey| self.is_front(u)
    }

    /// Whether `pop_head` hands out a transaction: one must be waiting, and
    /// where only a ready one is asked for, the first use case must be ready.
    pub open spec fn can_pop(self, only_if_ready: bool) -> bool {
        &&& self.has_pending()
        &&& only_if_ready ==> self.use_case_key(self.front()).0 <= self.output_idx
    }

    /// The transaction that `pop_head` hands out: the oldest one of the
    /// first account of the first use case.
    pub open spec fn popped(self) -> TxnWithInputIdx<P> {
        self.head(self.lead(self.front()))
    }

    /// The slot until which a sender is held back after an emission now.
    pub open spec fn sender_cooldown(self) -> int {
        self.output_idx + 1 + self.config.sender_spread_factor
    }

    /// The slot until which a use case is held back after an emission now.
    pub open spec fn use_case_cooldown(self, u: UseCaseKey) -> int {
        self.output_idx + 1 + self.config.spread_of(u)
    }

    /// The scheduler after `pop_head` has handed out a transaction. Sender
    /// and use case of that transaction start to cool down. Where the next
    /// transaction of the sender is of a use case not tracked so far, that
    /// use case is tracked from now on, held back until the next slot only.
    pub open spec fn after_pop(self) -> Self {
        let u = self.front();
        let a = self.lead(u);
        let rest = self.accounts[a].txns.drop_first();
        let cooled = self.use_cases.insert(u, self.use_case_cooldown(u));
        QueueState {
            accounts: self.accounts.insert(
                a,
                AccountState { try_delay_till: self.sender_cooldown(), txns: rest },
            ),
            use_cases: if rest.len() > 0 && !cooled.contains_key(rest[0].txn.use_case) {
                cooled.insert(rest[0].txn.use_case, self.output_idx + 1)
            } else {
                cooled
            },
            ..self
        }
    }

    /// The sender is tracked, and has transactions waiting or cools down.
    pub open spec fn account_should_delay(self, a: Address) -> bool {
        &&& self.accounts.contains_key(a)
        &&& self.accounts[a].txns.len() > 0 || self.accounts[a].try_delay_till
            > self.output_idx
    }

    /// The use case is tracked and cools down.
    pub open spec fn use_case_should_delay(self, u: UseCaseKey) -> bool {
        self.use_cases.contains_key(u) && self.use_cases[u] > self.output_idx
    }

    /// Whether `add_or_return` keeps a transaction.
    pub open spec fn must_delay(self, txn: Transaction<P>) -> bool {
        self.account_should_delay(txn.sender) || self.use_case_should_delay(txn.use_case)
    }

    /// The scheduler after a transaction went straight to the output: its
    /// sender and its use case start to cool down.
    pub open spec fn after_emit(self, input_idx: int, txn: Transaction<P>) -> Self {
        QueueState {
            accounts: self.accounts.insert(
                txn.sender,
                AccountState { try_delay_till: self.sender_cooldown(), txns: Seq::empty() },
            ),
            use_cases: self.use_cases.insert(txn.use_case, self.use_case_cooldown(txn.use_case)),
            next_input_idx: input_idx + 1,
            ..self
        }
    }

    /// The scheduler after it has kept a transaction. The transaction joins
    /// the queue of its sender. A sender not tracked so far is held back
    /// until the next slot only, and so is a use case not tracked so far
    /// that the sender now belongs to.
    pub open spec fn after_queue(self, input_idx: int, txn: Transaction<P>) -> Self {
        let a = txn.sender;
        let entry = TxnWithInputIdx { input_idx: input_idx as usize, txn };
        QueueState {
            accounts: self.accounts.insert(
                a,
                if self.accounts.contains_key(a) {
                    AccountState {
                        try_delay_till: self.accounts[a].try_delay_till,
                        txns: self.accounts[a].txns.push(entry),
                    }
                } else {
                    AccountState { try_delay_till: self.output_idx + 1, txns: seq![entry] }
                },
            ),
            use_cases: if self.is_pending(a) || self.use_cases.contains_key(txn.use_case) {
                self.use_cases
            } else {
                self.use_cases.insert(txn.use_case, self.output_idx + 1)
            },
            next_input_idx: input_idx + 1,
            ..self
        }
    }

    /// A sender with nothing waiting whose cooldown is over at slot `at`.
    pub open spec fn is_stale_account(self, a: Address, at: int) -> bool {
        &&& self.accounts.contains_key(a)
        &&& self.accounts[a].txns.len() == 0
        &&& self.accounts[a].try_delay_till <= at
    }

    /// A use case without members whose cooldown is over at slot `at`.
    pub open spec fn is_stale_use_case(self, u: UseCaseKey, at: int) -> bool {
        &&& self.use_cases.contains_key(u)
        &&& !self.has_members(u)
        &&& self.use_cases[u] <= at
    }

    /// The scheduler at slot `output_idx`: what is stale there is forgotten.
    pub open spec fn after_bump(self, output_idx: int) -> Self {
        QueueState {
            accounts: Map::new(
                |a: Address| self.accounts.contains_key(a) && !self.is_stale_account(a, output_idx),
                |a: Address| self.accounts[a],
            ),
            use_cases: Map::new(
                |u: UseCaseKey|
                    self.use_cases.contains_key(u) && !self.is_stale_use_case(u, output_idx),
                |u: UseCaseKey| self.use_cases[u],
            ),
            output_idx,
            ..self
        }
    }
}

/// A finite set that is not empty has an element whose key, under `key`, no
/// other element's key comes before.
pub proof fn lemma_least_exists<A>(s: Set<A>, key: spec_fn(A) -> (int, int))
    requires
        s.finite(),
        s.len() > 0,
    ensures
        exists|m: A| s.contains(m) && forall|x: A| s.contains(x) ==> key_le(key(m), #[trigger] key(x)),
    decreases s.len(),
{
    let x = s.choose();
    let rest = s.remove(x);
    if rest.len() == 0 {
        assert forall|y: A| s.contains(y) implies key_le(key(x), #[trigger] key(y)) by {
            if y != x {
                assert(rest.contains(y));
            }
        }
    } else {
        lemma_least_exists(rest, key);
        let m0 = choose|m: A|
            rest.contains(m) && forall|y: A| rest.contains(y) ==> key_le(key(m), #[trigger] key(y));
        let m = if key_le(key(x), key(m0)) {
            x
        } else {
            m0
        };
        assert forall|y: A| s.contains(y) implies key_le(key(m), #[trigger] key(y)) by {
            if y != x {
                assert(rest.contains(y));
            }
        }
    }
}

impl<P> QueueState<P> {
    /// A use case with members has a first account.
    pub proof fn lemma_lead_exists(self, u: UseCaseKey)
        requires
            self.accounts.dom().finite(),
            self.has_members(u),
        ensures
            self.is_lead(u, self.lead(u)),
    {
        let members = self.accounts.dom().filter(|a: Address| self.is_member(u, a));
        let a0 = choose|a: Address| self.is_member(u, a);
        assert(members.contains(a0));
        self.accounts.dom().lemma_len_filter(|a: Address| self.is_member(u, a));
        if members.len() == 0 {
            assert(members =~= Set::empty());
        }
        let key = |a: Address| self.account_key(a);
        lemma_least_exists(members, key);
        let m = choose|m: Address|
            members.contains(m) && forall|x: Address|
                members.contains(x) ==> key_le(key(m), #[trigger] key(x));
        assert forall|b: Address| #[trigger] self.is_member(u, b) implies key_le(
            self.account_key(m),
            self.account_key(b),
        ) by {
            assert(members.contains(b));
            assert(key_le(key(m), key(b)));
        }
        assert(self.is_lead(u, m));
    }

    /// Where a transaction waits, there is a first use case, and it has a
    /// first account: the transaction that `pop_head` hands out waits.
    pub proof fn lemma_front_exists(self)
        requires
            self.accounts.dom().finite(),
            self.has_pending(),
        ensures
            self.is_front(self.front()),
            self.is_lead(self.front(), self.lead(self.front())),
            self.is_pending(self.lead(self.front())),
    {
        let is_a_lead = |a: Address|
            self.is_pending(a) && self.is_lead(self.head(a).txn.use_case, a);
        let leads = self.accounts.dom().filter(is_a_lead);
        let a0 = choose|a: Address| self.is_pending(a);
        let u0 = self.head(a0).txn.use_case;
        assert(self.is_member(u0, a0));
        self.lemma_lead_exists(u0);
        assert(leads.contains(self.lead(u0)));
        self.accounts.dom().lemma_len_filter(is_a_lead);
        if leads.len() == 0 {
            assert(leads =~= Set::empty());
        }
        let key = |a: Address| self.use_case_key(self.head(a).txn.use_case);
        lemma_least_exists(leads, key);
        let m = choose|m: Address|
            leads.contains(m) && forall|x: Address|
                leads.contains(x) ==> key_le(key(m), #[trigger] key(x));
        let u = self.head(m).txn.use_case;
        assert(self.is_member(u, m));
        assert forall|v: UseCaseKey| #[trigger] self.has_members(v) implies key_le(
            self.use_case_key(u),
            self.use_case_key(v),
        ) by {
            self.lemma_lead_exists(v);
            let b = self.lead(v);
            assert(leads.contains(b));
            assert(key_le(key(m), key(b)));
        }
        assert(self.is_front(u));
        assert(self.has_members(self.front()));
        self.lemma_lead_exists(self.front());
    }
}

} // verus!

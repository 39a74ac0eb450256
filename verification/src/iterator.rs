//! The shuffler as an iterator over its output.

use vstd::prelude::*;
use std::collections::VecDeque;
use crate::config::Config;
use crate::delayed_queue::DelayedQueue;
use crate::course::{
    lemma_more_input_on_course, lemma_select_on_course, lemma_select_some, on_course,
};
use crate::order::lemma_order_len;
use crate::selection::ShufflerState;
use crate::types::{InputIdx, OutputIdx, Transaction};

verus! {

/// Hands out the transactions of its input one by one, in shuffled order.
pub struct ShuffledTransactionIterator<P> {
    input_queue: VecDeque<Transaction<P>>,
    delayed_queue: DelayedQueue<P>,
    input_idx: InputIdx,
    output_idx: OutputIdx,
    /// Every transaction that the iterator was given, in input order.
    source: Ghost<Seq<Transaction<P>>>,
    /// The input positions of the transactions handed out so far.
    emitted: Ghost<Seq<int>>,
}

impl<P> View for ShuffledTransactionIterator<P> {
    type V = ShufflerState<P>;

    closed spec fn view(&self) -> ShufflerState<P> {
        ShufflerState {
            input: self.input_queue@,
            queue: self.delayed_queue@,
            input_idx: self.input_idx as int,
            output_idx: self.output_idx as int,
        }
    }
}

impl<P> ShuffledTransactionIterator<P> {
    /// Every transaction that the iterator was given, in input order.
    pub closed spec fn source(&self) -> Seq<Transaction<P>> {
        self.source@
    }

    /// The scheduler is in order and not ahead of the two counters.
    closed spec fn parts_wf(&self) -> bool {
        &&& self.delayed_queue.wf()
        &&& self.delayed_queue@.next_input_idx <= self.input_idx
        &&& self.delayed_queue@.output_idx <= self.output_idx
        &&& self.input_idx + self.input_queue@.len() <= usize::MAX
    }

    /// The iterator is in order: its scheduler is, and every transaction
    /// that it was given was handed out, waits in the scheduler, or is yet
    /// to be looked at. All slots that a run can reach are numbers that the
    /// machine can hold.
    pub closed spec fn wf(&self) -> bool {
        &&& self.parts_wf()
        &&& on_course(self@, self.source@, self.emitted@)
        &&& self.output_idx == self.emitted@.len()
        &&& self.source@.len() + 1 + self.delayed_queue@.config.max_spread_factor()
            <= usize::MAX
    }

    /// Of the transactions given, no more were handed out than looked at.
    pub proof fn lemma_counters_in_range(&self)
        requires
            self.wf(),
        ensures
            0 <= self@.output_idx <= self@.input_idx,
            self@.input_idx + self@.input.len() == self.source().len(),
    {
        lemma_order_len(self.emitted@, self.input_idx as int);
    }

    pub fn new(config: Config) -> (iterator: Self)
        requires
            config.max_spread_factor() < usize::MAX,
        ensures
            iterator.wf(),
            iterator@ == ShufflerState::<P>::start(config, Seq::empty()),
            iterator.source() == Seq::<Transaction<P>>::empty(),
    {
        let iterator = ShuffledTransactionIterator {
            input_queue: VecDeque::new(),
            delayed_queue: DelayedQueue::new(config),
            input_idx: 0,
            output_idx: 0,
            source: Ghost(Seq::empty()),
            emitted: Ghost(Seq::empty()),
        };
        proof {
            assert(iterator@.input =~= iterator.source@.subrange(0, 0));
        }
        iterator
    }

    /// The number of input transactions looked at so far.
    pub fn input_idx(&self) -> (idx: InputIdx)
        ensures
            idx == self@.input_idx,
    {
        self.input_idx
    }

    /// The number of transactions handed out so far.
    pub fn output_idx(&self) -> (idx: OutputIdx)
        ensures
            idx == self@.output_idx,
    {
        self.output_idx
    }

    /// Appends transactions to the input.
    pub fn extended_with(self, txns: Vec<Transaction<P>>) -> (iterator: Self)
        requires
            self.wf(),
            self.source().len() + txns@.len() + 1 + self@.queue.config.max_spread_factor()
                <= usize::MAX,
        ensures
            iterator.wf(),
            iterator@ == (ShufflerState { input: self@.input + txns@, ..self@ }),
            iterator.source() == self.source() + txns@,
    {
        let mut iterator = self;
        let mut txns = txns;
        let mut tail: VecDeque<Transaction<P>> = VecDeque::new();
        let ghost all = txns@;
        while txns.len() > 0
            invariant
                txns@ + tail@ == all,
            decreases txns@.len(),
        {
            let ghost before = txns@;
            let txn = txns.pop().unwrap();
            tail.push_front(txn);
            assert(txns@ + tail@ =~= all) by {
                assert(before =~= txns@.push(txn));
            }
        }
        assert(tail@ =~= all);
        proof {
            self.lemma_counters_in_range();
            lemma_more_input_on_course(self@, self.source@, self.emitted@, all);
        }
        iterator.input_queue.append(&mut tail);
        iterator.source = Ghost(self.source@ + all);
        iterator
    }

    /// Selects the next transaction, and counts it.
    ///
    /// A transaction is handed out as long as there is input or something
    /// waits in the scheduler. When none is handed out, every transaction
    /// that the iterator was given has been handed out.
    pub fn select_next_txn(&mut self) -> (txn: Option<Transaction<P>>)
        requires
            old(self).wf(),
        ensures
            final(self).wf(),
            final(self).source() == old(self).source(),
            final(self)@ == old(self)@.select().0,
            txn == old(self)@.select().1,
            txn is Some <==> old(self)@.input.len() > 0 || old(self)@.queue.has_pending(),
            txn is None ==> old(self)@.output_idx == old(self).source().len(),
            final(self)@.output_idx == old(self)@.output_idx + if txn is Some {
                1int
            } else {
                0int
            },
            final(self)@.input_idx >= old(self)@.input_idx,
            final(self)@.queue.config == old(self)@.queue.config,
    {
        proof {
            self.lemma_counters_in_range();
            lemma_select_on_course(self@, self.source@, self.emitted@);
            lemma_select_some(self@);
        }
        let ret = self.select_next_txn_inner();
        if ret.is_some() {
            proof {
                lemma_order_len(
                    old(self).emitted@.push(old(self)@.select_position()),
                    self.input_idx as int,
                );
            }
            self.output_idx += 1;
            self.emitted = Ghost(self.emitted@.push(old(self)@.select_position()));
        }
        ret
    }

    /// Selects the next transaction.
    fn select_next_txn_inner(&mut self) -> (txn: Option<Transaction<P>>)
        requires
            old(self).parts_wf(),
            old(self)@.output_idx + 1 + old(self)@.queue.config.max_spread_factor() <= usize::MAX,
        ensures
            final(self).parts_wf(),
            final(self).source == old(self).source,
            final(self).emitted == old(self).emitted,
            final(self)@ == old(self)@.select_inner().0,
            txn == old(self)@.select_inner().1,
            final(self)@.output_idx == old(self)@.output_idx,
            final(self)@.input_idx >= old(self)@.input_idx,
            final(self)@.queue.config == old(self)@.queue.config,
    {
        self.delayed_queue.bump_output_idx(self.output_idx);

        // if anything delayed became ready, return it
        if let Some(txn) = self.delayed_queue.pop_head(true) {
            return Some(txn);
        }
        // Otherwise, seek in the input queue for something that shouldn't be delayed due to either
        // the sender or the use case.

        let ghost bumped = self@;
        while self.input_queue.len() > 0
            invariant
                self.parts_wf(),
                self.source == old(self).source,
                self.emitted == old(self).emitted,
                old(self)@.select_inner() == bumped.scan(),
                bumped.output_idx == old(self)@.output_idx,
                bumped.input_idx == old(self)@.input_idx,
                bumped.queue.config == old(self)@.queue.config,
                self@.scan() == bumped.scan(),
                self@.output_idx == bumped.output_idx,
                self@.input_idx >= bumped.input_idx,
                self@.queue.config == bumped.queue.config,
            decreases self.input_queue@.len(),
        {
            let ghost before = self@;
            let txn = self.input_queue.pop_front().unwrap();
            let input_idx = self.input_idx;
            self.input_idx += 1;
            proof {
                assert(self.input_queue@ =~= before.input.drop_first());
                assert(txn == before.input[0]);
            }
            if let Some(txn) = self.delayed_queue.add_or_return(input_idx, txn) {
                assert(before.scan() == (self@, Some(txn)));
                return Some(txn);
            }
            assert(before.scan() == self@.scan());
        }

        // If nothing is ready, return the next eligible from the delay queue
        self.delayed_queue.pop_head(false)
    }

    /// The next transaction of the shuffled order.
    pub fn next(&mut self) -> (txn: Option<Transaction<P>>)
        requires
            old(self).wf(),
        ensures
            final(self).wf(),
            final(self).source() == old(self).source(),
            final(self)@ == old(self)@.select().0,
            txn == old(self)@.select().1,
            txn is Some <==> old(self)@.input.len() > 0 || old(self)@.queue.has_pending(),
            txn is None ==> old(self)@.output_idx == old(self).source().len(),
    {
        self.select_next_txn()
    }
}

} // verus!

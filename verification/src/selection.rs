//! The shuffler as a mathematical value, and the selection rule.

use vstd::prelude::*;
use crate::config::Config;
use crate::model::QueueState;
use crate::types::Transaction;

verus! {

/// The shuffler as a mathematical value: the input that was not looked at
/// yet, the scheduler, and the two counters.
pub struct ShufflerState<P> {
    /// The transactions that were not looked at yet, in input order.
    pub input: Seq<Transaction<P>>,
    pub queue: QueueState<P>,
    /// The input position of the first transaction of `input`.
    pub input_idx: int,
    /// The number of transactions emitted so far.
    pub output_idx: int,
}

impl<P> ShufflerState<P> {
    /// The shuffler before its first selection.
    pub open spec fn start(config: Config, input: Seq<Transaction<P>>) -> Self {
        ShufflerState { input, queue: QueueState::empty(config), input_idx: 0, output_idx: 0 }
    }

    /// Takes the first transaction in line out of the scheduler.
    pub open spec fn pop(self) -> (Self, Option<Transaction<P>>) {
        (ShufflerState { queue: self.queue.after_pop(), ..self }, Some(self.queue.popped().txn))
    }

    /// Looks at the input, transaction by transaction, until one may go out
    /// at once; the ones before it are kept by the scheduler. Where the
    /// input runs out first, the first transaction in line is taken out of
    /// the scheduler, ready or not.
    pub open spec fn scan(self) -> (Self, Option<Transaction<P>>)
        decreases self.input.len(),
    {
        if self.input.len() == 0 {
            if self.queue.can_pop(false) {
                self.pop()
            } else {
                (self, None)
            }
        } else {
            let txn = self.input[0];
            if self.queue.must_delay(txn) {
                (ShufflerState {
                    input: self.input.drop_first(),
                    queue: self.queue.after_queue(self.input_idx, txn),
                    input_idx: self.input_idx + 1,
                    ..self
                }).scan()
            } else {
                (
                    ShufflerState {
                        input: self.input.drop_first(),
                        queue: self.queue.after_emit(self.input_idx, txn),
                        input_idx: self.input_idx + 1,
                        ..self
                    },
                    Some(txn),
                )
            }
        }
    }

    /// The input position of the transaction that `scan` hands out.
    pub open spec fn scan_position(self) -> int
        decreases self.input.len(),
    {
        if self.input.len() == 0 {
            self.queue.popped().input_idx as int
        } else if self.queue.must_delay(self.input[0]) {
            (ShufflerState {
                input: self.input.drop_first(),
                queue: self.queue.after_queue(self.input_idx, self.input[0]),
                input_idx: self.input_idx + 1,
                ..self
            }).scan_position()
        } else {
            self.input_idx
        }
    }

    /// Whether `scan` hands out a transaction that it had to take out of the
    /// scheduler, ready or not, because the input ran out.
    pub open spec fn scan_forced(self) -> bool
        decreases self.input.len(),
    {
        if self.input.len() == 0 {
            self.queue.can_pop(false)
        } else if self.queue.must_delay(self.input[0]) {
            (ShufflerState {
                input: self.input.drop_first(),
                queue: self.queue.after_queue(self.input_idx, self.input[0]),
                input_idx: self.input_idx + 1,
                ..self
            }).scan_forced()
        } else {
            false
        }
    }

    /// The selection for the current slot, before the slot is counted: the
    /// scheduler moves to the slot; a transaction that is ready there goes
    /// out; else the input is looked at.
    pub open spec fn select_inner(self) -> (Self, Option<Transaction<P>>) {
        let bumped = ShufflerState { queue: self.queue.after_bump(self.output_idx), ..self };
        if bumped.queue.can_pop(true) {
            bumped.pop()
        } else {
            bumped.scan()
        }
    }

    /// One selection: the shuffler after it, and the transaction that goes
    /// out, if any is left.
    pub open spec fn select(self) -> (Self, Option<Transaction<P>>) {
        let (next, txn) = self.select_inner();
        (
            if txn is Some {
                ShufflerState { output_idx: next.output_idx + 1, ..next }
            } else {
                next
            },
            txn,
        )
    }

    /// The input position of the transaction that `select` hands out.
    pub open spec fn select_position(self) -> int {
        let bumped = ShufflerState { queue: self.queue.after_bump(self.output_idx), ..self };
        if bumped.queue.can_pop(true) {
            bumped.queue.popped().input_idx as int
        } else {
            bumped.scan_position()
        }
    }

    /// Whether the selection is forced: nothing in the scheduler is ready,
    /// no transaction of the input may go out at once, and so the first
    /// transaction in line goes out before its time.
    pub open spec fn select_forced(self) -> bool {
        let bumped = ShufflerState { queue: self.queue.after_bump(self.output_idx), ..self };
        !bumped.queue.can_pop(true) && bumped.scan_forced()
    }

    /// The shuffler after `steps` selections.
    pub open spec fn advance(self, steps: nat) -> Self
        decreases steps,
    {
        if steps == 0 {
            self
        } else {
            self.select().0.advance((steps - 1) as nat)
        }
    }

    /// The input positions of the transactions that the next `limit`
    /// selections hand out.
    pub open spec fn run_order(self, limit: nat) -> Seq<int>
        decreases limit,
    {
        if limit == 0 {
            Seq::empty()
        } else {
            let (next, txn) = self.select();
            match txn {
                Some(_) => seq![self.select_position()] + next.run_order((limit - 1) as nat),
                None => Seq::empty(),
            }
        }
    }

    /// The transactions that the next `limit` selections hand out, as long
    /// as there are any.
    pub open spec fn run(self, limit: nat) -> Seq<Transaction<P>>
        decreases limit,
    {
        if limit == 0 {
            Seq::empty()
        } else {
            let (next, txn) = self.select();
            match txn {
                Some(t) => seq![t] + next.run((limit - 1) as nat),
                None => Seq::empty(),
            }
        }
    }
}

/// The output of the shuffler for an input: what as many selections as the
/// input has transactions hand out.
pub open spec fn shuffled<P>(config: Config, input: Seq<Transaction<P>>) -> Seq<Transaction<P>> {
    ShufflerState::start(config, input).run(input.len())
}

/// The input positions of the transactions of the output, in output order.
pub open spec fn shuffled_order<P>(config: Config, input: Seq<Transaction<P>>) -> Seq<int> {
    ShufflerState::start(config, input).run_order(input.len())
}

/// The entries of `source` at the positions that `order` lists.
pub open spec fn picked<T>(source: Seq<T>, order: Seq<int>) -> Seq<T> {
    Seq::new(order.len(), |j: int| source[order[j]])
}

} // verus!

//! The shuffle of a block of transactions.

use vstd::prelude::*;
use crate::config::Config;
use crate::iterator::ShuffledTransactionIterator;
use crate::laws::{
    lemma_shuffled_is_permutation, lemma_shuffled_keeps_sender_order, sent_by,
};
use crate::selection::{shuffled, ShufflerState};
use crate::types::{Address, Transaction};

verus! {

/// Shuffles blocks of transactions by sender and by use case.
pub struct UseCaseAwareShuffler {
    pub config: Config,
}

impl UseCaseAwareShuffler {
    pub fn new(config: Config) -> (shuffler: Self)
        ensures
            shuffler.config == config,
    {
        UseCaseAwareShuffler { config }
    }

    /// The transactions of `txns` in shuffled order: the same transactions,
    /// each as often as in `txns`, and those of each sender in the order in
    /// which `txns` holds them.
    pub fn shuffle<P>(&self, txns: Vec<Transaction<P>>) -> (output: Vec<Transaction<P>>)
        requires
            txns@.len() + 1 + self.config.max_spread_factor() <= usize::MAX,
        ensures
            output@ == shuffled(self.config, txns@),
            output@.len() == txns@.len(),
            output@.to_multiset() == txns@.to_multiset(),
            forall|sender: Address|
                output@.filter(#[trigger] sent_by(sender)) == txns@.filter(sent_by(sender)),
    {
        let ghost input = txns@;
        let ghost count = input.len();
        let mut iterator = ShuffledTransactionIterator::new(self.config).extended_with(txns);
        let mut output: Vec<Transaction<P>> = Vec::new();
        assert(iterator@ == ShufflerState::start(self.config, input)) by {
            assert(Seq::<Transaction<P>>::empty() + input =~= input);
        }
        assert(iterator.source() =~= input);
        loop
            invariant_except_break
                shuffled(self.config, input) == output@ + iterator@.run(
                    (count - output@.len()) as nat,
                ),
            invariant
                iterator.wf(),
                iterator.source() == input,
                iterator@.output_idx == output@.len(),
                count == input.len(),
                output@.len() <= count,
            ensures
                output@ == shuffled(self.config, input),
            decreases count - output@.len(),
        {
            let ghost before = iterator@;
            let ghost emitted = output@;
            match iterator.select_next_txn() {
                Some(txn) => {
                    proof {
                        iterator.lemma_counters_in_range();
                    }
                    output.push(txn);
                    assert(emitted + before.run((count - emitted.len()) as nat) =~= output@
                        + iterator@.run((count - output@.len()) as nat));
                },
                None => {
                    assert(emitted + before.run((count - emitted.len()) as nat) =~= emitted);
                    break ;
                },
            }
        }
        proof {
            lemma_shuffled_is_permutation(self.config, input);
            assert forall|sender: Address|
                output@.filter(#[trigger] sent_by(sender)) == input.filter(sent_by(sender)) by {
                lemma_shuffled_keeps_sender_order(self.config, input, sender);
            }
        }
        output
    }
}

} // verus!

//! What holds of the output of every shuffle.

use vstd::prelude::*;
use crate::config::Config;
use crate::course::{lemma_run_on_course, lemma_scan_counters, on_course};
use crate::order::in_sender_order;
use crate::picked::{
    lemma_holds_every_position, lemma_picked_is_permutation, lemma_picked_keeps_order,
};
use crate::selection::{picked, shuffled, shuffled_order, ShufflerState};
use crate::types::{Address, Transaction, UseCaseKey};

verus! {

/// The output consists of the transactions of the input at the positions
/// of `shuffled_order`, which lists every position of the input once, and
/// the positions of each sender in increasing order.
pub proof fn lemma_shuffled_order<P>(config: Config, input: Seq<Transaction<P>>)
    requires
        input.len() <= usize::MAX,
    ensures
        shuffled(config, input) == picked(input, shuffled_order(config, input)),
        shuffled_order(config, input).len() == input.len(),
        in_sender_order(shuffled_order(config, input), input, input.len() as int),
        forall|p: int| 0 <= p < input.len() ==> shuffled_order(config, input).contains(p),
{
    let start = ShufflerState::start(config, input);
    let none = Seq::<int>::empty();
    assert(input =~= input.subrange(0, input.len() as int));
    assert(on_course(start, input, none));
    lemma_run_on_course(start, input, none, input.len());
    let order = shuffled_order(config, input);
    assert(none + order =~= order);
    lemma_holds_every_position(order, input.len() as int);
}

/// Permutation: the output holds the transactions of the input, each as
/// often as the input does.
pub proof fn lemma_shuffled_is_permutation<P>(config: Config, input: Seq<Transaction<P>>)
    requires
        input.len() <= usize::MAX,
    ensures
        shuffled(config, input).to_multiset() =~= input.to_multiset(),
        shuffled(config, input).len() == input.len(),
{
    lemma_shuffled_order(config, input);
    lemma_picked_is_permutation(input, shuffled_order(config, input));
}

/// The transactions of one sender.
pub open spec fn sent_by<P>(sender: Address) -> spec_fn(Transaction<P>) -> bool {
    |t: Transaction<P>| t.sender == sender
}

/// The transactions of one sender and one use case.
pub open spec fn sent_by_for<P>(sender: Address, use_case: UseCaseKey) -> spec_fn(
    Transaction<P>,
) -> bool {
    |t: Transaction<P>| t.sender == sender && t.use_case == use_case
}

/// Per-sender order: the transactions of a sender come in the output in
/// the order in which they come in the input.
pub proof fn lemma_shuffled_keeps_sender_order<P>(
    config: Config,
    input: Seq<Transaction<P>>,
    sender: Address,
)
    requires
        input.len() <= usize::MAX,
    ensures
        shuffled(config, input).filter(sent_by(sender)) == input.filter(sent_by(sender)),
{
    lemma_shuffled_order(config, input);
    lemma_picked_keeps_order(input, shuffled_order(config, input), sent_by(sender));
}

/// Per-sender order within a use case: the transactions of a use case that
/// a sender has sent come in the output in the order in which they come in
/// the input.
pub proof fn lemma_shuffled_keeps_sender_order_in_use_case<P>(
    config: Config,
    input: Seq<Transaction<P>>,
    sender: Address,
    use_case: UseCaseKey,
)
    requires
        input.len() <= usize::MAX,
    ensures
        shuffled(config, input).filter(sent_by_for(sender, use_case)) == input.filter(
            sent_by_for(sender, use_case),
        ),
{
    lemma_shuffled_order(config, input);
    lemma_picked_keeps_order(
        input,
        shuffled_order(config, input),
        sent_by_for(sender, use_case),
    );
}

/// Determinism: equal inputs under equal configurations give equal outputs.
pub proof fn lemma_shuffled_is_deterministic<P>(
    config1: Config,
    input1: Seq<Transaction<P>>,
    config2: Config,
    input2: Seq<Transaction<P>>,
)
    requires
        config1 == config2,
        input1 =~= input2,
    ensures
        shuffled(config1, input1) == shuffled(config2, input2),
{
}

/// An empty input gives an empty output.
pub proof fn lemma_shuffled_empty<P>(config: Config)
    ensures
        shuffled(config, Seq::<Transaction<P>>::empty()) == Seq::<Transaction<P>>::empty(),
{
}

/// Monotonic counters: a selection decreases neither counter. The output
/// counter goes up by one where a transaction is handed out, and the input
/// counter by the number of transactions looked at.
pub proof fn lemma_counters_never_decrease<P>(s: ShufflerState<P>)
    ensures
        s.select().0.input_idx >= s.input_idx,
        s.select().0.input_idx + s.select().0.input.len() == s.input_idx + s.input.len(),
        s.select().0.output_idx == s.output_idx + if s.select().1 is Some {
            1int
        } else {
            0int
        },
{
    lemma_scan_counters(ShufflerState { queue: s.queue.after_bump(s.output_idx), ..s });
}

/// Every transaction of `input` has a sender and a use case of its own.
pub open spec fn all_distinct<P>(input: Seq<Transaction<P>>) -> bool {
    forall|i: int, j: int|
        #![trigger input[i], input[j]]
        0 <= i < j < input.len() ==> input[i].sender != input[j].sender && input[i].use_case
            != input[j].use_case
}

/// The shuffler holds no transaction, and tracks no sender and no use case
/// but those of the transactions of `source` that it has looked at.
pub open spec fn idle_so_far<P>(s: ShufflerState<P>, source: Seq<Transaction<P>>) -> bool {
    &&& 0 <= s.input_idx <= source.len()
    &&& s.input == source.subrange(s.input_idx, source.len() as int)
    &&& forall|a: Address| #[trigger]
        s.queue.accounts.contains_key(a) ==> s.queue.accounts[a].txns.len() == 0 && exists|
            i: int,
        |
            0 <= i < s.input_idx && (#[trigger] source[i]).sender == a
    &&& forall|u: UseCaseKey| #[trigger]
        s.queue.use_cases.contains_key(u) ==> exists|i: int|
            0 <= i < s.input_idx && (#[trigger] source[i]).use_case == u
}

/// Where all senders and all use cases differ, a run of selections hands
/// out the input that is left, in input order.
pub proof fn lemma_run_passes_through<P>(
    s: ShufflerState<P>,
    source: Seq<Transaction<P>>,
    limit: nat,
)
    requires
        all_distinct(source),
        idle_so_far(s, source),
        limit == s.input.len(),
    ensures
        s.run(limit) == s.input,
    decreases limit,
{
    if limit == 0 {
        assert(s.run(limit) =~= s.input);
    } else {
        let bumped = ShufflerState { queue: s.queue.after_bump(s.output_idx), ..s };
        let txn = s.input[0];
        assert(txn == source[s.input_idx]);
        assert(!bumped.queue.has_pending()) by {
            if bumped.queue.has_pending() {
                let a = choose|a: Address| bumped.queue.is_pending(a);
                assert(s.queue.accounts.contains_key(a));
            }
        }
        assert(!bumped.queue.account_should_delay(txn.sender)) by {
            if bumped.queue.accounts.contains_key(txn.sender) {
                assert(s.queue.accounts.contains_key(txn.sender));
            }
        }
        assert(!bumped.queue.use_case_should_delay(txn.use_case)) by {
            if bumped.queue.use_cases.contains_key(txn.use_case) {
                assert(s.queue.use_cases.contains_key(txn.use_case));
            }
        }
        let (next, out) = s.select();
        assert(out == Some(txn));
        assert(next.input =~= source.subrange(next.input_idx, source.len() as int));
        assert forall|a: Address| #[trigger]
            next.queue.accounts.contains_key(a) implies next.queue.accounts[a].txns.len() == 0
            && exists|i: int| 0 <= i < next.input_idx && (#[trigger] source[i]).sender == a by {
            if a == txn.sender {
                assert(source[s.input_idx].sender == a);
            } else {
                assert(s.queue.accounts.contains_key(a));
                let i = choose|i: int| 0 <= i < s.input_idx && (#[trigger] source[i]).sender == a;
                assert(source[i].sender == a);
            }
        }
        assert forall|u: UseCaseKey| #[trigger]
            next.queue.use_cases.contains_key(u) implies exists|i: int|
            0 <= i < next.input_idx && (#[trigger] source[i]).use_case == u by {
            if u == txn.use_case {
                assert(source[s.input_idx].use_case == u);
            } else {
                assert(s.queue.use_cases.contains_key(u));
                let i = choose|i: int|
                    0 <= i < s.input_idx && (#[trigger] source[i]).use_case == u;
                assert(source[i].use_case == u);
            }
        }
        lemma_run_passes_through(next, source, (limit - 1) as nat);
        assert(s.run(limit) =~= s.input);
    }
}

/// Where every transaction has a sender and a use case of its own, the
/// output is the input, whatever the spread factors.
pub proof fn lemma_distinct_input_passes_through<P>(config: Config, input: Seq<Transaction<P>>)
    requires
        all_distinct(input),
    ensures
        shuffled(config, input) == input,
{
    let start = ShufflerState::start(config, input);
    assert(input =~= input.subrange(0, input.len() as int));
    lemma_run_passes_through(start, input, input.len());
}

/// Zero-spread identity: where all three spread factors are zero and every
/// transaction has a sender and a use case of its own, the output is the
/// input.
pub proof fn lemma_zero_spread_identity<P>(config: Config, input: Seq<Transaction<P>>)
    requires
        config.sender_spread_factor == 0,
        config.platform_use_case_spread_factor == 0,
        config.user_use_case_spread_factor == 0,
        all_distinct(input),
    ensures
        shuffled(config, input) == input,
{
    lemma_distinct_input_passes_through(config, input);
}

} // verus!

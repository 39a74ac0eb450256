//! The course of a shuffle: what a selection keeps true of the input, of
//! the scheduler and of what was emitted so far.

use vstd::prelude::*;
use crate::order::{
    accounts_for, in_sender_order, lemma_all_emitted, lemma_bump_accounts_for,
    lemma_emit_accounts_for, lemma_order_len, lemma_pop_accounts_for, lemma_queue_accounts_for,
    waits,
};
use crate::selection::{picked, ShufflerState};
use crate::types::{Address, Transaction};

verus! {

/// The shuffler `s` has emitted the positions `order` of `source`, holds
/// the rest of what it looked at in its scheduler, and has the rest of
/// `source` before it.
pub open spec fn on_course<P>(s: ShufflerState<P>, source: Seq<Transaction<P>>, order: Seq<int>) -> bool {
    &&& accounts_for(s.queue, source, s.input_idx, order)
    &&& s.input == source.subrange(s.input_idx, source.len() as int)
}

/// `scan` keeps the shuffler on course; where it hands out nothing, all of
/// the input was emitted.
pub proof fn lemma_scan_on_course<P>(s: ShufflerState<P>, source: Seq<Transaction<P>>, order: Seq<int>)
    requires
        on_course(s, source, order),
    ensures
        match s.scan().1 {
            Some(t) => {
                &&& 0 <= s.scan_position() < source.len()
                &&& t == source[s.scan_position()]
                &&& on_course(s.scan().0, source, order.push(s.scan_position()))
            },
            None => order.len() == source.len() && on_course(s.scan().0, source, order),
        },
    decreases s.input.len(),
{
    if s.input.len() == 0 {
        if s.queue.can_pop(false) {
            lemma_pop_accounts_for(s.queue, source, s.input_idx, order);
        } else {
            lemma_all_emitted(s.queue, source, order);
        }
    } else {
        let txn = s.input[0];
        assert(txn == source[s.input_idx]);
        let rest = s.input.drop_first();
        assert(rest =~= source.subrange(s.input_idx + 1, source.len() as int));
        if s.queue.must_delay(txn) {
            lemma_queue_accounts_for(s.queue, source, s.input_idx, order);
            let next = ShufflerState {
                input: rest,
                queue: s.queue.after_queue(s.input_idx, txn),
                input_idx: s.input_idx + 1,
                ..s
            };
            lemma_scan_on_course(next, source, order);
        } else {
            lemma_emit_accounts_for(s.queue, source, s.input_idx, order);
        }
    }
}

/// A selection keeps the shuffler on course; where it hands out nothing,
/// all of the input was emitted.
pub proof fn lemma_select_on_course<P>(
    s: ShufflerState<P>,
    source: Seq<Transaction<P>>,
    order: Seq<int>,
)
    requires
        on_course(s, source, order),
    ensures
        match s.select().1 {
            Some(t) => {
                &&& 0 <= s.select_position() < source.len()
                &&& t == source[s.select_position()]
                &&& on_course(s.select().0, source, order.push(s.select_position()))
            },
            None => order.len() == source.len() && on_course(s.select().0, source, order),
        },
{
    let bumped = ShufflerState { queue: s.queue.after_bump(s.output_idx), ..s };
    lemma_bump_accounts_for(s.queue, source, s.input_idx, order, s.output_idx);
    if bumped.queue.can_pop(true) {
        lemma_pop_accounts_for(bumped.queue, source, s.input_idx, order);
    } else {
        lemma_scan_on_course(bumped, source, order);
    }
}

/// A run of selections emits positions in the order of each sender, none
/// twice; it hands out the transactions at these positions; and a run that
/// is long enough emits every position.
pub proof fn lemma_run_on_course<P>(
    s: ShufflerState<P>,
    source: Seq<Transaction<P>>,
    order: Seq<int>,
    limit: nat,
)
    requires
        on_course(s, source, order),
    ensures
        in_sender_order(order + s.run_order(limit), source, source.len() as int),
        s.run(limit) == picked(source, s.run_order(limit)),
        limit + order.len() >= source.len() ==> order.len() + s.run_order(limit).len()
            == source.len(),
    decreases limit,
{
    lemma_order_len(order, s.input_idx);
    if limit == 0 {
        assert(order + s.run_order(limit) =~= order);
        assert(s.run(limit) =~= picked(source, s.run_order(limit)));
    } else {
        lemma_select_on_course(s, source, order);
        let (next, txn) = s.select();
        match txn {
            Some(t) => {
                let p = s.select_position();
                let rest = (limit - 1) as nat;
                lemma_run_on_course(next, source, order.push(p), rest);
                assert(order + s.run_order(limit) =~= order.push(p) + next.run_order(rest));
                assert(s.run(limit) =~= picked(source, s.run_order(limit)));
            },
            None => {
                assert(order + s.run_order(limit) =~= order);
                assert(s.run(limit) =~= picked(source, s.run_order(limit)));
            },
        }
    }
}

/// Input that is added behind leaves the shuffler on course.
pub proof fn lemma_more_input_on_course<P>(
    s: ShufflerState<P>,
    source: Seq<Transaction<P>>,
    order: Seq<int>,
    more: Seq<Transaction<P>>,
)
    requires
        on_course(s, source, order),
        source.len() + more.len() <= usize::MAX,
    ensures
        on_course(ShufflerState { input: s.input + more, ..s }, source + more, order),
{
    let longer = source + more;
    assert(s.input + more =~= longer.subrange(s.input_idx, longer.len() as int));
    assert forall|p: int| 0 <= p < source.len() implies longer[p] == source[p] by {}
    assert forall|p: int| 0 <= p < s.input_idx implies order.contains(p) || waits(
        s.queue,
        (#[trigger] longer[p]).sender,
        p,
    ) by {
        assert(order.contains(p) || waits(s.queue, source[p].sender, p));
    }
}

/// Looking at the input hands out a transaction exactly when there is
/// input, or a transaction waits in the scheduler.
pub proof fn lemma_scan_some<P>(s: ShufflerState<P>)
    ensures
        s.scan().1 is Some <==> s.input.len() > 0 || s.queue.has_pending(),
    decreases s.input.len(),
{
    if s.input.len() > 0 && s.queue.must_delay(s.input[0]) {
        let next = ShufflerState {
            input: s.input.drop_first(),
            queue: s.queue.after_queue(s.input_idx, s.input[0]),
            input_idx: s.input_idx + 1,
            ..s
        };
        lemma_scan_some(next);
        assert(next.queue.is_pending(s.input[0].sender));
    }
}

/// A selection hands out a transaction exactly when there is input, or a
/// transaction waits in the scheduler.
pub proof fn lemma_select_some<P>(s: ShufflerState<P>)
    ensures
        s.select().1 is Some <==> s.input.len() > 0 || s.queue.has_pending(),
{
    let bumped = ShufflerState { queue: s.queue.after_bump(s.output_idx), ..s };
    lemma_scan_some(bumped);
    if s.queue.has_pending() {
        let a = choose|a: Address| s.queue.is_pending(a);
        assert(bumped.queue.is_pending(a));
    }
    if bumped.queue.has_pending() {
        let a = choose|a: Address| bumped.queue.is_pending(a);
        assert(s.queue.is_pending(a));
    }
}

/// Looking at the input moves the input counter forward only, and leaves
/// the output counter alone.
pub proof fn lemma_scan_counters<P>(s: ShufflerState<P>)
    ensures
        s.scan().0.input_idx >= s.input_idx,
        s.scan().0.input_idx + s.scan().0.input.len() == s.input_idx + s.input.len(),
        s.scan().0.output_idx == s.output_idx,
    decreases s.input.len(),
{
    if s.input.len() > 0 && s.queue.must_delay(s.input[0]) {
        lemma_scan_counters(
            ShufflerState {
                input: s.input.drop_first(),
                queue: s.queue.after_queue(s.input_idx, s.input[0]),
                input_idx: s.input_idx + 1,
                ..s
            },
        );
    }
}

} // verus!

//! The distance that the shuffler keeps between the transactions of a
//! sender, and between those of a use case.

use vstd::prelude::*;
use crate::config::Config;
use crate::course::{lemma_scan_counters, lemma_select_on_course, on_course};
use crate::laws::lemma_shuffled_order;
use crate::model::QueueState;
use crate::order::{
    accounts_for, lemma_bump_accounts_for, lemma_pop_accounts_for, lemma_queue_accounts_for,
};
use crate::selection::{shuffled, shuffled_order, ShufflerState};
use crate::types::{Address, Transaction, UseCaseKey};

verus! {

/// The emission of a transaction of sender `a` at slot `j` still shows at
/// slot `slot`: either the sender's time is over, or the scheduler holds the
/// sender back for as long as the emission asks.
pub open spec fn sender_cools<P>(q: QueueState<P>, a: Address, j: int, slot: int) -> bool {
    let until = j + 1 + q.config.sender_spread_factor;
    until <= slot || (q.accounts.contains_key(a) && q.accounts[a].try_delay_till >= until)
}

/// The emission of a transaction of use case `u` at slot `j` still shows at
/// slot `slot`: either the use case's time is over, or the scheduler holds
/// the use case back for as long as the emission asks.
pub open spec fn use_case_cools<P>(q: QueueState<P>, u: UseCaseKey, j: int, slot: int) -> bool {
    let until = j + 1 + q.config.spread_of(u);
    until <= slot || (q.use_cases.contains_key(u) && q.use_cases[u] >= until)
}

/// Every emission so far still shows at slot `slot`.
pub open spec fn cooling<P>(
    q: QueueState<P>,
    source: Seq<Transaction<P>>,
    order: Seq<int>,
    slot: int,
) -> bool {
    forall|j: int|
        0 <= j < order.len() ==> {
            let t = source[#[trigger] order[j]];
            sender_cools(q, t.sender, j, slot) && use_case_cools(q, t.use_case, j, slot)
        }
}

/// The transaction `t`, emitted at slot `slot`, keeps its distance from all
/// earlier emissions of its sender and of its use case.
pub open spec fn keeps_distance<P>(
    config: Config,
    source: Seq<Transaction<P>>,
    order: Seq<int>,
    t: Transaction<P>,
    slot: int,
) -> bool {
    forall|j: int|
        0 <= j < order.len() ==> {
            let earlier = source[#[trigger] order[j]];
            &&& earlier.sender == t.sender ==> slot - j >= 1 + config.sender_spread_factor
            &&& earlier.use_case == t.use_case ==> slot - j >= 1 + config.spread_of(t.use_case)
        }
}

/// A transaction that the scheduler hands out in its time keeps its
/// distance, and its emission shows at the next slot.
proof fn lemma_pop_cools<P>(
    q: QueueState<P>,
    source: Seq<Transaction<P>>,
    examined: int,
    order: Seq<int>,
    ready: bool,
)
    requires
        accounts_for(q, source, examined, order),
        cooling(q, source, order, q.output_idx),
        q.output_idx == order.len(),
        q.can_pop(ready),
    ensures
        cooling(
            q.after_pop(),
            source,
            order.push(q.popped().input_idx as int),
            q.output_idx + 1,
        ),
        ready ==> keeps_distance(q.config, source, order, q.popped().txn, q.output_idx),
{
    q.lemma_front_exists();
    lemma_pop_accounts_for(q, source, examined, order);
    let u = q.front();
    let a = q.lead(u);
    let t = q.popped().txn;
    let x = q.popped().input_idx as int;
    let q2 = q.after_pop();
    let order2 = order.push(x);
    assert(t.use_case == u);
    assert(t.sender == a);
    assert forall|j: int| 0 <= j < order2.len() implies ({
        let e = source[#[trigger] order2[j]];
        sender_cools(q2, e.sender, j, q.output_idx + 1) && use_case_cools(
            q2,
            e.use_case,
            j,
            q.output_idx + 1,
        )
    }) by {
        if j < order.len() {
            assert(order2[j] == order[j]);
            let e = source[order[j]];
            assert(sender_cools(q, e.sender, j, q.output_idx));
            assert(use_case_cools(q, e.use_case, j, q.output_idx));
        }
    }
    if ready {
        assert forall|j: int| 0 <= j < order.len() implies ({
            let e = source[#[trigger] order[j]];
            &&& e.sender == t.sender ==> q.output_idx - j >= 1 + q.config.sender_spread_factor
            &&& e.use_case == t.use_case ==> q.output_idx - j >= 1 + q.config.spread_of(
                t.use_case,
            )
        }) by {
            let e = source[order[j]];
            assert(sender_cools(q, e.sender, j, q.output_idx));
            assert(use_case_cools(q, e.use_case, j, q.output_idx));
        }
    }
}

/// Looking at the input keeps the emissions showing; a transaction that
/// goes out, unless it is forced out, keeps its distance.
proof fn lemma_scan_cools<P>(s: ShufflerState<P>, source: Seq<Transaction<P>>, order: Seq<int>)
    requires
        on_course(s, source, order),
        cooling(s.queue, source, order, s.output_idx),
        s.queue.output_idx == s.output_idx,
        s.output_idx == order.len(),
    ensures
        s.scan().0.queue.config == s.queue.config,
        match s.scan().1 {
            Some(t) => {
                &&& cooling(
                    s.scan().0.queue,
                    source,
                    order.push(s.scan_position()),
                    s.output_idx + 1,
                )
                &&& s.scan_forced() || keeps_distance(
                    s.queue.config,
                    source,
                    order,
                    t,
                    s.output_idx,
                )
            },
            None => true,
        },
    decreases s.input.len(),
{
    let q = s.queue;
    if s.input.len() == 0 {
        if q.can_pop(false) {
            lemma_pop_cools(q, source, s.input_idx, order, false);
        }
    } else {
        let txn = s.input[0];
        assert(txn == source[s.input_idx]);
        let rest = s.input.drop_first();
        assert(rest =~= source.subrange(s.input_idx + 1, source.len() as int));
        if q.must_delay(txn) {
            lemma_queue_accounts_for(q, source, s.input_idx, order);
            let q2 = q.after_queue(s.input_idx, txn);
            let next = ShufflerState {
                input: rest,
                queue: q2,
                input_idx: s.input_idx + 1,
                ..s
            };
            assert forall|j: int| 0 <= j < order.len() implies ({
                let e = source[#[trigger] order[j]];
                sender_cools(q2, e.sender, j, s.output_idx) && use_case_cools(
                    q2,
                    e.use_case,
                    j,
                    s.output_idx,
                )
            }) by {
                let e = source[order[j]];
                assert(sender_cools(q, e.sender, j, s.output_idx));
                assert(use_case_cools(q, e.use_case, j, s.output_idx));
            }
            lemma_scan_cools(next, source, order);
        } else {
            let q2 = q.after_emit(s.input_idx, txn);
            let order2 = order.push(s.input_idx);
            assert forall|j: int| 0 <= j < order2.len() implies ({
                let e = source[#[trigger] order2[j]];
                sender_cools(q2, e.sender, j, s.output_idx + 1) && use_case_cools(
                    q2,
                    e.use_case,
                    j,
                    s.output_idx + 1,
                )
            }) by {
                if j < order.len() {
                    assert(order2[j] == order[j]);
                    let e = source[order[j]];
                    assert(sender_cools(q, e.sender, j, s.output_idx));
                    assert(use_case_cools(q, e.use_case, j, s.output_idx));
                }
            }
            assert forall|j: int| 0 <= j < order.len() implies ({
                let e = source[#[trigger] order[j]];
                &&& e.sender == txn.sender ==> s.output_idx - j >= 1
                    + q.config.sender_spread_factor
                &&& e.use_case == txn.use_case ==> s.output_idx - j >= 1 + q.config.spread_of(
                    txn.use_case,
                )
            }) by {
                let e = source[order[j]];
                assert(sender_cools(q, e.sender, j, s.output_idx));
                assert(use_case_cools(q, e.use_case, j, s.output_idx));
            }
        }
    }
}

/// A selection keeps the emissions showing; the transaction that it hands
/// out, unless it is forced out, keeps its distance.
pub proof fn lemma_select_cools<P>(s: ShufflerState<P>, source: Seq<Transaction<P>>, order: Seq<int>)
    requires
        on_course(s, source, order),
        cooling(s.queue, source, order, s.output_idx),
        s.output_idx == order.len(),
    ensures
        s.select().0.queue.config == s.queue.config,
        match s.select().1 {
            Some(t) => {
                &&& s.select().0.output_idx == order.len() + 1
                &&& cooling(
                    s.select().0.queue,
                    source,
                    order.push(s.select_position()),
                    s.select().0.output_idx,
                )
                &&& s.select_forced() || keeps_distance(
                    s.queue.config,
                    source,
                    order,
                    t,
                    s.output_idx,
                )
            },
            None => true,
        },
{
    let q = s.queue.after_bump(s.output_idx);
    let bumped = ShufflerState { queue: q, ..s };
    lemma_bump_accounts_for(s.queue, source, s.input_idx, order, s.output_idx);
    assert forall|j: int| 0 <= j < order.len() implies ({
        let e = source[#[trigger] order[j]];
        sender_cools(q, e.sender, j, s.output_idx) && use_case_cools(
            q,
            e.use_case,
            j,
            s.output_idx,
        )
    }) by {
        let e = source[order[j]];
        assert(sender_cools(s.queue, e.sender, j, s.output_idx));
        assert(use_case_cools(s.queue, e.use_case, j, s.output_idx));
    }
    if q.can_pop(true) {
        lemma_pop_cools(q, source, s.input_idx, order, true);
    } else {
        lemma_scan_cools(bumped, source, order);
        lemma_scan_counters(bumped);
    }
}

/// In a run of selections every transaction that is handed out, unless it
/// is forced out, keeps its distance from all that went out before it.
pub proof fn lemma_run_cools<P>(
    s: ShufflerState<P>,
    source: Seq<Transaction<P>>,
    order: Seq<int>,
    limit: nat,
)
    requires
        on_course(s, source, order),
        cooling(s.queue, source, order, s.output_idx),
        s.output_idx == order.len(),
    ensures
        forall|m: int|
            0 <= m < s.run_order(limit).len() ==> #[trigger] s.advance(m as nat).select_forced()
                || keeps_distance(
                s.queue.config,
                source,
                (order + s.run_order(limit)).take(order.len() + m),
                source[s.run_order(limit)[m]],
                order.len() + m,
            ),
    decreases limit,
{
    if limit > 0 {
        lemma_select_on_course(s, source, order);
        lemma_select_cools(s, source, order);
        let (next, txn) = s.select();
        if txn is Some {
            let p = s.select_position();
            let rest = (limit - 1) as nat;
            let order2 = order.push(p);
            lemma_run_cools(next, source, order2, rest);
            let tail = s.run_order(limit);
            let all = order + tail;
            assert(all =~= order2 + next.run_order(rest));
            assert forall|m: int| 0 <= m < tail.len() implies #[trigger] s.advance(
                m as nat,
            ).select_forced() || keeps_distance(
                s.queue.config,
                source,
                all.take(order.len() + m),
                source[tail[m]],
                order.len() + m,
            ) by {
                if m == 0 {
                    assert(all.take(order.len() as int) =~= order);
                    assert(s.advance(0) == s);
                } else {
                    assert(s.advance(m as nat) == next.advance((m - 1) as nat));
                    assert(tail[m] == next.run_order(rest)[m - 1]);
                    assert(order2.len() + (m - 1) == order.len() + m);
                }
            }
        }
    }
}

/// Sender spread and use-case spread: a transaction of the output lies at
/// least one slot and the spread factor behind every earlier transaction
/// of its sender, and likewise of its use case, unless the selection that
/// handed it out was forced.
pub proof fn lemma_shuffled_keeps_distance<P>(
    config: Config,
    input: Seq<Transaction<P>>,
    j: int,
    k: int,
)
    requires
        input.len() <= usize::MAX,
        0 <= j < k < input.len(),
    ensures
        ShufflerState::start(config, input).advance(k as nat).select_forced() || {
            let output = shuffled(config, input);
            &&& output[j].sender == output[k].sender ==> k - j >= 1 + config.sender_spread_factor
            &&& output[j].use_case == output[k].use_case ==> k - j >= 1 + config.spread_of(
                output[k].use_case,
            )
        },
{
    let start = ShufflerState::start(config, input);
    let none = Seq::<int>::empty();
    lemma_shuffled_order(config, input);
    assert(input =~= input.subrange(0, input.len() as int));
    lemma_run_cools(start, input, none, input.len());
    let order = shuffled_order(config, input);
    assert(none + order =~= order);
    assert(0 <= k < start.run_order(input.len()).len());
    if !start.advance(k as nat).select_forced() {
        assert(keeps_distance(config, input, order.take(k), input[order[k]], k));
        assert(order.take(k)[j] == order[j]);
    }
}

/// A forced selection finds the input exhausted: it has looked at all of
/// it, and nothing that it holds is ready.
pub proof fn lemma_forced_exhausts_input<P>(s: ShufflerState<P>)
    requires
        s.select_forced(),
    ensures
        s.select().1 is Some,
        s.select().0.input.len() == 0,
        !s.queue.after_bump(s.output_idx).can_pop(true),
{
    lemma_scan_forced(ShufflerState { queue: s.queue.after_bump(s.output_idx), ..s });
}

/// Where `scan` has to force a transaction out, it leaves no input behind.
pub proof fn lemma_scan_forced<P>(s: ShufflerState<P>)
    requires
        s.scan_forced(),
    ensures
        s.scan().1 is Some,
        s.scan().0.input.len() == 0,
    decreases s.input.len(),
{
    if s.input.len() > 0 {
        lemma_scan_forced(
            ShufflerState {
                input: s.input.drop_first(),
                queue: s.queue.after_queue(s.input_idx, s.input[0]),
                input_idx: s.input_idx + 1,
                ..s
            },
        );
    }
}

/// The transaction at slot `k` of the output is the one that the selection
/// after `k` selections hands out.
pub proof fn lemma_shuffled_at<P>(s: ShufflerState<P>, limit: nat, k: int)
    requires
        0 <= k < s.run(limit).len(),
    ensures
        s.advance(k as nat).select().1 == Some(s.run(limit)[k]),
    decreases limit,
{
    if limit > 0 && s.select().1 is Some {
        if k > 0 {
            lemma_shuffled_at(s.select().0, (limit - 1) as nat, k - 1);
            assert(s.advance(k as nat) == s.select().0.advance((k - 1) as nat));
        } else {
            assert(s.advance(0) == s);
        }
    }
}

} // verus!

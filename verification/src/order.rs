//! The bookkeeping of input positions: which of them were emitted, in
//! what order, and which still wait in the scheduler.

use vstd::prelude::*;
use vstd::set_lib::{lemma_int_range, lemma_len_subset, set_int_range};
use crate::model::QueueState;
use crate::types::{Address, Transaction};

verus! {

/// The transaction at input position `p` waits in the queue of `a`.
pub open spec fn waits<P>(q: QueueState<P>, a: Address, p: int) -> bool {
    &&& q.accounts.contains_key(a)
    &&& exists|i: int|
        0 <= i < q.accounts[a].txns.len() && (#[trigger] q.accounts[a].txns[i]).input_idx == p
}

/// What the scheduler holds comes from `source`: each waiting transaction
/// is the one at its input position, which lies below `examined`, and waits
/// in the queue of its sender; in each queue the positions increase.
pub open spec fn faithful<P>(q: QueueState<P>, source: Seq<Transaction<P>>, examined: int) -> bool {
    &&& forall|a: Address, i: int|
        #![trigger q.accounts[a].txns[i]]
        q.accounts.contains_key(a) && 0 <= i < q.accounts[a].txns.len() ==> {
            let t = q.accounts[a].txns[i];
            &&& t.input_idx < examined
            &&& source[t.input_idx as int] == t.txn
            &&& t.txn.sender == a
        }
    &&& forall|a: Address, i: int, j: int|
        #![trigger q.accounts[a].txns[i], q.accounts[a].txns[j]]
        q.accounts.contains_key(a) && 0 <= i < j < q.accounts[a].txns.len()
            ==> q.accounts[a].txns[i].input_idx < q.accounts[a].txns[j].input_idx
}

/// `order` lists input positions of `source` below `bound`, none of them
/// twice, and those of one sender in increasing order.
pub open spec fn in_sender_order<P>(order: Seq<int>, source: Seq<Transaction<P>>, bound: int) -> bool {
    &&& order.no_duplicates()
    &&& forall|j: int| 0 <= j < order.len() ==> 0 <= #[trigger] order[j] < bound
    &&& forall|j: int, k: int|
        #![trigger order[j], order[k]]
        0 <= j < k < order.len() && source[order[j]].sender == source[order[k]].sender
            ==> order[j] < order[k]
}

/// The scheduler `q` and the positions emitted so far, `order`, account for
/// the first `examined` transactions of `source`: each of them was emitted
/// or waits in the scheduler, and what was emitted of a sender lies before
/// what waits of that sender.
pub open spec fn accounts_for<P>(
    q: QueueState<P>,
    source: Seq<Transaction<P>>,
    examined: int,
    order: Seq<int>,
) -> bool {
    &&& q.accounts.dom().finite()
    &&& 0 <= examined <= source.len() <= usize::MAX
    &&& faithful(q, source, examined)
    &&& in_sender_order(order, source, examined)
    &&& forall|p: int|
        0 <= p < examined ==> order.contains(p) || waits(q, (#[trigger] source[p]).sender, p)
    &&& forall|j: int, a: Address, i: int|
        #![trigger order[j], q.accounts[a].txns[i]]
        0 <= j < order.len() && source[order[j]].sender == a && q.accounts.contains_key(a) && 0
            <= i < q.accounts[a].txns.len() ==> order[j] < q.accounts[a].txns[i].input_idx
}

/// A list of distinct positions below `bound` has at most `bound` entries,
/// and exactly `bound` where it holds every position below `bound`.
pub proof fn lemma_order_len(order: Seq<int>, bound: int)
    requires
        0 <= bound,
        order.no_duplicates(),
        forall|j: int| 0 <= j < order.len() ==> 0 <= #[trigger] order[j] < bound,
    ensures
        order.len() <= bound,
        (forall|p: int| 0 <= p < bound ==> order.contains(p)) ==> order.len() == bound,
{
    order.unique_seq_to_set();
    lemma_int_range(0, bound);
    assert(order.to_set().subset_of(set_int_range(0, bound)));
    lemma_len_subset(order.to_set(), set_int_range(0, bound));
    if forall|p: int| 0 <= p < bound ==> order.contains(p) {
        assert(order.to_set() =~= set_int_range(0, bound));
    }
}

/// A transaction that goes straight to the output is accounted for.
pub proof fn lemma_emit_accounts_for<P>(
    q: QueueState<P>,
    source: Seq<Transaction<P>>,
    examined: int,
    order: Seq<int>,
)
    requires
        accounts_for(q, source, examined, order),
        examined < source.len(),
        !q.must_delay(source[examined]),
    ensures
        accounts_for(
            q.after_emit(examined, source[examined]),
            source,
            examined + 1,
            order.push(examined),
        ),
{
    let txn = source[examined];
    let a = txn.sender;
    let q2 = q.after_emit(examined, txn);
    let order2 = order.push(examined);
    assert(order2.no_duplicates());
    assert forall|p: int| 0 <= p < examined + 1 implies order2.contains(p) || waits(
        q2,
        (#[trigger] source[p]).sender,
        p,
    ) by {
        if p == examined {
            assert(order2[order.len() as int] == p);
        } else if order.contains(p) {
            let j = choose|j: int| 0 <= j < order.len() && order[j] == p;
            assert(order2[j] == p);
        } else {
            let b = source[p].sender;
            assert(waits(q, b, p));
            let i = choose|i: int|
                0 <= i < q.accounts[b].txns.len() && (#[trigger] q.accounts[b].txns[i]).input_idx
                    == p;
            assert(b != a);
            assert(q2.accounts[b].txns[i].input_idx == p);
        }
    }
}

/// A transaction that the scheduler keeps is accounted for.
pub proof fn lemma_queue_accounts_for<P>(
    q: QueueState<P>,
    source: Seq<Transaction<P>>,
    examined: int,
    order: Seq<int>,
)
    requires
        accounts_for(q, source, examined, order),
        examined < source.len(),
    ensures
        accounts_for(q.after_queue(examined, source[examined]), source, examined + 1, order),
{
    let txn = source[examined];
    let a = txn.sender;
    let q2 = q.after_queue(examined, txn);
    assert(q2.accounts.dom() =~= q.accounts.dom().insert(a));
    assert forall|b: Address, i: int|
        #![trigger q2.accounts[b].txns[i]]
        q2.accounts.contains_key(b) && 0 <= i < q2.accounts[b].txns.len() implies ({
        let t = q2.accounts[b].txns[i];
        &&& t.input_idx < examined + 1
        &&& source[t.input_idx as int] == t.txn
        &&& t.txn.sender == b
    }) by {
        if b == a && q.accounts.contains_key(a) && i < q.accounts[a].txns.len() {
            assert(q2.accounts[b].txns[i] == q.accounts[a].txns[i]);
        } else if b != a {
            assert(q2.accounts[b].txns[i] == q.accounts[b].txns[i]);
        }
    }
    assert forall|b: Address, i: int, j: int|
        #![trigger q2.accounts[b].txns[i], q2.accounts[b].txns[j]]
        q2.accounts.contains_key(b) && 0 <= i < j < q2.accounts[b].txns.len()
            implies q2.accounts[b].txns[i].input_idx < q2.accounts[b].txns[j].input_idx by {
        if b == a && q.accounts.contains_key(a) {
            assert(q2.accounts[b].txns[i] == q.accounts[a].txns[i]);
            if j < q.accounts[a].txns.len() {
                assert(q2.accounts[b].txns[j] == q.accounts[a].txns[j]);
            }
        } else if b != a {
            assert(q2.accounts[b].txns[i] == q.accounts[b].txns[i]);
            assert(q2.accounts[b].txns[j] == q.accounts[b].txns[j]);
        }
    }
    assert forall|p: int| 0 <= p < examined + 1 implies order.contains(p) || waits(
        q2,
        (#[trigger] source[p]).sender,
        p,
    ) by {
        if p == examined {
            let last = q2.accounts[a].txns.len() - 1;
            assert(q2.accounts[a].txns[last].input_idx == p);
        } else if !order.contains(p) {
            let b = source[p].sender;
            assert(waits(q, b, p));
            let i = choose|i: int|
                0 <= i < q.accounts[b].txns.len() && (#[trigger] q.accounts[b].txns[i]).input_idx
                    == p;
            assert(q2.accounts[b].txns[i].input_idx == p);
        }
    }
    assert forall|j: int, b: Address, i: int|
        #![trigger order[j], q2.accounts[b].txns[i]]
        0 <= j < order.len() && source[order[j]].sender == b && q2.accounts.contains_key(b) && 0
            <= i < q2.accounts[b].txns.len() implies order[j] < q2.accounts[b].txns[i].input_idx by {
        if b == a && q.accounts.contains_key(a) && i < q.accounts[a].txns.len() {
            assert(q2.accounts[b].txns[i] == q.accounts[a].txns[i]);
        } else if b != a {
            assert(q2.accounts[b].txns[i] == q.accounts[b].txns[i]);
        }
    }
}

/// The transaction that the scheduler hands out is the one of the input at
/// its position, and with that position emitted all is accounted for.
pub proof fn lemma_pop_accounts_for<P>(
    q: QueueState<P>,
    source: Seq<Transaction<P>>,
    examined: int,
    order: Seq<int>,
)
    requires
        accounts_for(q, source, examined, order),
        q.has_pending(),
    ensures
        0 <= q.popped().input_idx < examined,
        q.popped().txn == source[q.popped().input_idx as int],
        accounts_for(q.after_pop(), source, examined, order.push(q.popped().input_idx as int)),
{
    q.lemma_front_exists();
    let a = q.lead(q.front());
    let x = q.popped().input_idx as int;
    let q2 = q.after_pop();
    let order2 = order.push(x);
    assert(q.accounts[a].txns[0].input_idx == x);
    assert(q2.accounts.dom() =~= q.accounts.dom().insert(a));
    assert forall|b: Address, i: int|
        #![trigger q2.accounts[b].txns[i]]
        q2.accounts.contains_key(b) && 0 <= i < q2.accounts[b].txns.len() implies ({
        let t = q2.accounts[b].txns[i];
        &&& t.input_idx < examined
        &&& source[t.input_idx as int] == t.txn
        &&& t.txn.sender == b
        &&& b == a ==> x < t.input_idx
    }) by {
        if b == a {
            assert(q2.accounts[b].txns[i] == q.accounts[a].txns[i + 1]);
        } else {
            assert(q2.accounts[b].txns[i] == q.accounts[b].txns[i]);
        }
    }
    assert forall|b: Address, i: int, j: int|
        #![trigger q2.accounts[b].txns[i], q2.accounts[b].txns[j]]
        q2.accounts.contains_key(b) && 0 <= i < j < q2.accounts[b].txns.len()
            implies q2.accounts[b].txns[i].input_idx < q2.accounts[b].txns[j].input_idx by {
        if b == a {
            assert(q2.accounts[b].txns[i] == q.accounts[a].txns[i + 1]);
            assert(q2.accounts[b].txns[j] == q.accounts[a].txns[j + 1]);
        } else {
            assert(q2.accounts[b].txns[i] == q.accounts[b].txns[i]);
            assert(q2.accounts[b].txns[j] == q.accounts[b].txns[j]);
        }
    }
    assert forall|j: int| 0 <= j < order.len() implies #[trigger] order[j] != x by {
        if order[j] == x {
            assert(order[j] < q.accounts[a].txns[0].input_idx);
        }
    }
    assert(order2.no_duplicates());
    assert forall|j: int, k: int|
        #![trigger order2[j], order2[k]]
        0 <= j < k < order2.len() && source[order2[j]].sender == source[order2[k]].sender
            implies order2[j] < order2[k] by {
        if k == order.len() {
            assert(order[j] < q.accounts[a].txns[0].input_idx);
        }
    }
    assert forall|p: int| 0 <= p < examined implies order2.contains(p) || waits(
        q2,
        (#[trigger] source[p]).sender,
        p,
    ) by {
        if p == x {
            assert(order2[order.len() as int] == p);
        } else if order.contains(p) {
            let j = choose|j: int| 0 <= j < order.len() && order[j] == p;
            assert(order2[j] == p);
        } else {
            let b = source[p].sender;
            assert(waits(q, b, p));
            let i = choose|i: int|
                0 <= i < q.accounts[b].txns.len() && (#[trigger] q.accounts[b].txns[i]).input_idx
                    == p;
            if b == a {
                assert(q2.accounts[b].txns[i - 1] == q.accounts[a].txns[i]);
            } else {
                assert(q2.accounts[b].txns[i] == q.accounts[b].txns[i]);
            }
        }
    }
    assert forall|j: int, b: Address, i: int|
        #![trigger order2[j], q2.accounts[b].txns[i]]
        0 <= j < order2.len() && source[order2[j]].sender == b && q2.accounts.contains_key(b) && 0
            <= i < q2.accounts[b].txns.len() implies order2[j] < q2.accounts[b].txns[i].input_idx by {
        if b == a {
            assert(q2.accounts[b].txns[i] == q.accounts[a].txns[i + 1]);
            if j < order.len() {
                assert(order[j] < q.accounts[a].txns[i + 1].input_idx);
            }
        } else {
            assert(q2.accounts[b].txns[i] == q.accounts[b].txns[i]);
            if j < order.len() {
                assert(order[j] < q.accounts[b].txns[i].input_idx);
            }
        }
    }
}

/// Forgetting what is stale leaves everything accounted for.
pub proof fn lemma_bump_accounts_for<P>(
    q: QueueState<P>,
    source: Seq<Transaction<P>>,
    examined: int,
    order: Seq<int>,
    output_idx: int,
)
    requires
        accounts_for(q, source, examined, order),
    ensures
        accounts_for(q.after_bump(output_idx), source, examined, order),
{
    let q2 = q.after_bump(output_idx);
    assert(q2.accounts.dom().subset_of(q.accounts.dom()));
    lemma_len_subset(q2.accounts.dom(), q.accounts.dom());
    assert forall|p: int| 0 <= p < examined implies order.contains(p) || waits(
        q2,
        (#[trigger] source[p]).sender,
        p,
    ) by {
        if !order.contains(p) {
            let b = source[p].sender;
            assert(waits(q, b, p));
            let i = choose|i: int|
                0 <= i < q.accounts[b].txns.len() && (#[trigger] q.accounts[b].txns[i]).input_idx
                    == p;
            assert(q2.accounts[b].txns[i].input_idx == p);
        }
    }
}

/// When the whole input was looked at and nothing waits, everything was emitted.
pub proof fn lemma_all_emitted<P>(q: QueueState<P>, source: Seq<Transaction<P>>, order: Seq<int>)
    requires
        accounts_for(q, source, source.len() as int, order),
        !q.has_pending(),
    ensures
        order.len() == source.len(),
{
    assert forall|p: int| 0 <= p < source.len() implies order.contains(p) by {
        if !order.contains(p) {
            let b = source[p].sender;
            assert(waits(q, b, p));
            assert(q.is_pending(b));
        }
    }
    lemma_order_len(order, source.len() as int);
}

} // verus!

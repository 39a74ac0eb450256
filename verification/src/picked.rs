//! Sequences picked from a sequence by a list of positions.

use vstd::prelude::*;
use vstd::seq_lib::{to_multiset_build, to_multiset_remove};
use vstd::set_lib::{lemma_int_range, lemma_len_subset, lemma_subset_equality, set_int_range};
use crate::selection::picked;

verus! {

/// A list of as many distinct positions below `bound` as there are holds
/// each of them.
pub proof fn lemma_holds_every_position(order: Seq<int>, bound: int)
    requires
        order.no_duplicates(),
        order.len() == bound,
        forall|j: int| 0 <= j < order.len() ==> 0 <= #[trigger] order[j] < bound,
    ensures
        forall|p: int| 0 <= p < bound ==> order.contains(p),
{
    order.unique_seq_to_set();
    lemma_int_range(0, bound);
    assert(order.to_set().subset_of(set_int_range(0, bound)));
    lemma_len_subset(order.to_set(), set_int_range(0, bound));
    lemma_subset_equality(order.to_set(), set_int_range(0, bound));
    assert forall|p: int| 0 <= p < bound implies order.contains(p) by {
        assert(set_int_range(0, bound).contains(p));
        assert(order.to_set().contains(p));
    }
}

/// Picking the entries of a sequence at a list of positions that holds
/// every position once gives the same entries, each as often.
pub proof fn lemma_picked_is_permutation<T>(source: Seq<T>, order: Seq<int>)
    requires
        order.no_duplicates(),
        order.len() == source.len(),
        forall|j: int| 0 <= j < order.len() ==> 0 <= #[trigger] order[j] < source.len(),
    ensures
        picked(source, order).to_multiset() =~= source.to_multiset(),
    decreases source.len(),
{
    if source.len() == 0 {
        assert(picked(source, order) =~= source);
    } else {
        let last = source.len() - 1;
        lemma_holds_every_position(order, source.len() as int);
        assert(order.contains(last));
        let j = choose|j: int| 0 <= j < order.len() && order[j] == last;
        let fewer = order.remove(j);
        let shorter = source.drop_last();
        assert forall|k: int| 0 <= k < fewer.len() implies 0 <= #[trigger] fewer[k]
            < shorter.len() by {
            if k < j {
                assert(fewer[k] == order[k]);
            } else {
                assert(fewer[k] == order[k + 1]);
            }
        }
        assert(fewer.no_duplicates()) by {
            assert forall|a: int, b: int|
                0 <= a < fewer.len() && 0 <= b < fewer.len() && a != b implies fewer[a]
                != fewer[b] by {
                let a2 = if a < j {
                    a
                } else {
                    a + 1
                };
                let b2 = if b < j {
                    b
                } else {
                    b + 1
                };
                assert(fewer[a] == order[a2]);
                assert(fewer[b] == order[b2]);
            }
        }
        lemma_picked_is_permutation(shorter, fewer);
        let out = picked(source, order);
        assert(out.remove(j) =~= picked(shorter, fewer));
        to_multiset_remove(out, j);
        assert(source =~= shorter.push(source[last]));
        to_multiset_build(shorter, source[last]);
        out.to_multiset_ensures();
        assert(out.to_multiset().count(out[j]) > 0) by {
            assert(out.contains(out[j]));
        }
        assert(out.to_multiset() =~= out.to_multiset().remove(out[j]).insert(out[j]));
    }
}

/// Picking the entries of a sequence at a list of positions that holds
/// every position once, and the positions of the entries that meet `f` in
/// increasing order, keeps the order of the entries that meet `f`.
pub proof fn lemma_picked_keeps_order<T>(source: Seq<T>, order: Seq<int>, f: spec_fn(T) -> bool)
    requires
        order.no_duplicates(),
        order.len() == source.len(),
        forall|j: int| 0 <= j < order.len() ==> 0 <= #[trigger] order[j] < source.len(),
        forall|j: int, k: int|
            #![trigger order[j], order[k]]
            0 <= j < k < order.len() && f(source[order[j]]) && f(source[order[k]]) ==> order[j]
                < order[k],
    ensures
        picked(source, order).filter(f) == source.filter(f),
    decreases source.len(),
{
    if source.len() == 0 {
        assert(picked(source, order) =~= source);
    } else {
        let last = source.len() - 1;
        let x = source[last];
        lemma_holds_every_position(order, source.len() as int);
        assert(order.contains(last));
        let j = choose|j: int| 0 <= j < order.len() && order[j] == last;
        let fewer = order.remove(j);
        let shorter = source.drop_last();
        assert forall|k: int| 0 <= k < fewer.len() implies 0 <= #[trigger] fewer[k]
            < shorter.len() by {
            if k < j {
                assert(fewer[k] == order[k]);
            } else {
                assert(fewer[k] == order[k + 1]);
            }
        }
        assert(fewer.no_duplicates()) by {
            assert forall|a: int, b: int|
                0 <= a < fewer.len() && 0 <= b < fewer.len() && a != b implies fewer[a]
                != fewer[b] by {
                let a2 = if a < j {
                    a
                } else {
                    a + 1
                };
                let b2 = if b < j {
                    b
                } else {
                    b + 1
                };
                assert(fewer[a] == order[a2]);
                assert(fewer[b] == order[b2]);
            }
        }
        assert forall|a: int, b: int|
            #![trigger fewer[a], fewer[b]]
            0 <= a < b < fewer.len() && f(shorter[fewer[a]]) && f(shorter[fewer[b]])
                implies fewer[a] < fewer[b] by {
            let a2 = if a < j {
                a
            } else {
                a + 1
            };
            let b2 = if b < j {
                b
            } else {
                b + 1
            };
            assert(fewer[a] == order[a2]);
            assert(fewer[b] == order[b2]);
        }
        lemma_picked_keeps_order(shorter, fewer, f);
        let out = picked(source, order);
        let before = out.take(j);
        let behind = out.skip(j + 1);
        assert(out.remove(j) =~= picked(shorter, fewer));
        assert(out.remove(j) =~= before + behind);
        assert(out =~= before.push(x) + behind);
        assert(source =~= shorter.push(x));
        shorter.lemma_filter_push(x, f);
        before.lemma_filter_push(x, f);
        Seq::filter_distributes_over_add(before, behind, f);
        Seq::filter_distributes_over_add(before.push(x), behind, f);
        if f(x) {
            assert(behind.filter(f).len() == 0) by {
                if behind.filter(f).len() > 0 {
                    let y = behind.filter(f)[0];
                    behind.lemma_filter_pred(f, 0);
                    assert(behind.filter(f).contains(y));
                    behind.lemma_filter_contains_rev(f, y);
                    let i = choose|i: int| 0 <= i < behind.len() && behind[i] == y;
                    assert(behind[i] == source[order[j + 1 + i]]);
                    assert(order[j] < order[j + 1 + i]);
                }
            }
            assert(behind.filter(f) =~= Seq::empty());
            assert(before.filter(f).push(x) + behind.filter(f) =~= (before.filter(f)
                + behind.filter(f)).push(x));
        }
    }
}

} // verus!

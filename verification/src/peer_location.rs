//! Locations of the peers of the network.

use vstd::prelude::*;
use std::collections::{BTreeSet, VecDeque};
use crate::types::Address;

verus! {

broadcast use vstd::laws_cmp::group_laws_cmp;

/// Where a peer of the network is, as far as it is known.
#[derive(Clone, Debug)]
pub struct PeerLocation {
    pub peer_id: Address,
    pub country: Option<String>,
    pub region: Option<String>,
    pub geo_updated_at: Option<String>,
}

/// No row before row `i` is about the same peer.
pub open spec fn is_first_of_peer(rows: Seq<PeerLocation>, i: int) -> bool {
    forall|j: int| 0 <= j < i ==> (#[trigger] rows[j]).peer_id != rows[i].peer_id
}

/// The rows that are the first of their peer, in the order of `rows`.
pub open spec fn first_rows(rows: Seq<PeerLocation>) -> Seq<PeerLocation>
    decreases rows.len(),
{
    if rows.len() == 0 {
        Seq::empty()
    } else if is_first_of_peer(rows, rows.len() - 1) {
        first_rows(rows.drop_last()).push(rows.last())
    } else {
        first_rows(rows.drop_last())
    }
}

/// Keeps of the rows about each peer the first one.
pub fn first_per_peer(rows: Vec<PeerLocation>) -> (kept: Vec<PeerLocation>)
    ensures
        kept@ == first_rows(rows@),
{
    let ghost all = rows@;
    let mut rows = rows;
    let mut queue: VecDeque<PeerLocation> = VecDeque::new();
    while rows.len() > 0
        invariant
            rows@ + queue@ == all,
        decreases rows@.len(),
    {
        let ghost before = rows@;
        let row = rows.pop().unwrap();
        queue.push_front(row);
        assert(rows@ + queue@ =~= all) by {
            assert(before =~= rows@.push(row));
        }
    }
    assert(queue@ =~= all);
    let mut seen: BTreeSet<(u128, u128)> = BTreeSet::new();
    let mut kept: Vec<PeerLocation> = Vec::new();
    let ghost mut done: int = 0;
    assert(all.take(0) =~= Seq::empty());
    while queue.len() > 0
        invariant
            0 <= done <= all.len(),
            queue@ == all.skip(done),
            kept@ == first_rows(all.take(done)),
            forall|a: Address|
                seen@.contains((a.hi, a.lo)) <==> exists|j: int|
                    0 <= j < done && (#[trigger] all[j]).peer_id == a,
        decreases queue@.len(),
    {
        let row = queue.pop_front().unwrap();
        assert(row == all[done]);
        let ghost peer = row.peer_id;
        let ghost known = seen@;
        let fresh = seen.insert((row.peer_id.hi, row.peer_id.lo));
        proof {
            let longer = all.take(done + 1);
            assert(longer.drop_last() =~= all.take(done));
            assert(longer.last() == row);
            assert(fresh == is_first_of_peer(longer, done)) by {
                if !fresh {
                    assert(known.contains((peer.hi, peer.lo)));
                    let j = choose|j: int| 0 <= j < done && (#[trigger] all[j]).peer_id == peer;
                    assert(longer[j].peer_id == longer[done].peer_id);
                } else {
                    assert forall|j: int| 0 <= j < done implies (#[trigger] longer[j]).peer_id
                        != longer[done].peer_id by {
                        if longer[j].peer_id == peer {
                            assert(all[j].peer_id == peer);
                        }
                    }
                }
            }
            assert forall|a: Address|
                seen@.contains((a.hi, a.lo)) <==> exists|j: int|
                    0 <= j < done + 1 && (#[trigger] all[j]).peer_id == a by {
                if seen@.contains((a.hi, a.lo)) {
                    if a == peer {
                        assert(all[done].peer_id == a);
                    } else {
                        assert(known.contains((a.hi, a.lo)));
                        let j = choose|j: int| 0 <= j < done && (#[trigger] all[j]).peer_id == a;
                        assert(all[j].peer_id == a);
                    }
                }
                if exists|j: int| 0 <= j < done + 1 && (#[trigger] all[j]).peer_id == a {
                    let j = choose|j: int| 0 <= j < done + 1 && (#[trigger] all[j]).peer_id == a;
                    if j < done {
                        assert(all[j].peer_id == a);
                        assert(known.contains((a.hi, a.lo)));
                    }
                }
            }
            assert(queue@ =~= all.skip(done + 1));
            done = done + 1;
        }
        if fresh {
            kept.push(row);
        }
    }
    assert(all.take(done) =~= all);
    kept
}

} // verus!

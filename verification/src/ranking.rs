//! Keeping the nearest few of a stream of measured items.
//!
//! Items arrive one at a time, each with a distance. A fixed number of slots
//! holds the nearest seen so far, nearest first; among equal distances the
//! earlier arrival stands first. What the slots hold is described by sorting:
//! [`ranking`] puts all arrivals in order, and the slots are its first entries.

use vstd::prelude::*;
use vstd::relations::{sorted_by, total_ordering};
use vstd::seq_lib::{group_to_multiset_ensures, lemma_sorted_unique};

verus! {

/// An arrival: its distance and its position in the stream.
pub type Arrival = (int, int);

/// Nearer first; among equal distances, earlier first.
pub open spec fn precedes(a: Arrival, b: Arrival) -> bool {
    a.0 < b.0 || (a.0 == b.0 && a.1 <= b.1)
}

/// The arrivals of a stream of distances.
pub open spec fn arrivals(distances: Seq<int>) -> Seq<Arrival> {
    Seq::new(distances.len(), |i: int| (distances[i], i))
}

/// The order on arrivals, as a function value.
pub open spec fn arrival_order() -> spec_fn(Arrival, Arrival) -> bool {
    |a: Arrival, b: Arrival| precedes(a, b)
}

/// All arrivals, nearest first.
pub open spec fn ranking(distances: Seq<int>) -> Seq<Arrival> {
    arrivals(distances).sort_by(arrival_order())
}

/// The positions of the `count` nearest arrivals (of all, if they are fewer),
/// nearest first.
pub open spec fn nearest(distances: Seq<int>, count: nat) -> Seq<int> {
    let kept = if count < distances.len() { count } else { distances.len() };
    Seq::new(kept, |r: int| ranking(distances)[r].1)
}

/// The number of leading slots, among the first `len`, after which every key
/// exceeds `d`.
pub open spec fn slot_for(slots: Seq<(u64, u32)>, len: nat, d: u64) -> nat
    decreases len,
{
    if len > 0 && slots[len - 1].0 > d {
        slot_for(slots, (len - 1) as nat, d)
    } else {
        len
    }
}

/// The slots after `(d, id)` has been offered to the first `len` of them: a key
/// that does not beat the last of these changes nothing; any other is put in
/// its slot, the slots behind it move back by one and the last falls out.
pub open spec fn offered(slots: Seq<(u64, u32)>, len: nat, d: u64, id: u32) -> Seq<(u64, u32)> {
    if d >= slots[len - 1].0 {
        slots
    } else {
        let q = slot_for(slots, (len - 1) as nat, d) as int;
        slots.take(q) + seq![(d, id)] + slots.subrange(q, len - 1) + slots.skip(len as int)
    }
}

/// The slots hold the nearest arrivals that lie nearer than `far`; a slot with
/// no such arrival holds `far` and the largest identifier. `ids` gives the
/// identifier of each arrival.
pub open spec fn holds_nearest(
    slots: Seq<(u64, u32)>,
    len: nat,
    far: u64,
    distances: Seq<int>,
    ids: Seq<u32>,
) -> bool {
    &&& distances.len() == ids.len()
    &&& len <= slots.len()
    &&& forall|r: int|
        0 <= r < len ==> #[trigger] slots[r] == ranked_slot(far, distances, ids, r)
}

/// What the slot of rank `r` holds.
pub open spec fn ranked_slot(far: u64, distances: Seq<int>, ids: Seq<u32>, r: int) -> (u64, u32) {
    if r < distances.len() && ranking(distances)[r].0 < far {
        (ranking(distances)[r].0 as u64, ids[ranking(distances)[r].1])
    } else {
        (far, u32::MAX)
    }
}

/// `q` is the number of arrivals at most as far as `d`.
spec fn is_rank(distances: Seq<int>, d: int, q: int) -> bool {
    &&& 0 <= q <= distances.len()
    &&& forall|r: int| 0 <= r < q ==> (#[trigger] ranking(distances)[r]).0 <= d
    &&& forall|r: int| q <= r < distances.len() ==> (#[trigger] ranking(distances)[r]).0 > d
}

proof fn lemma_slot_for(slots: Seq<(u64, u32)>, len: nat, d: u64)
    requires
        len <= slots.len(),
    ensures
        slot_for(slots, len, d) <= len,
        forall|i: int| slot_for(slots, len, d) <= i < len ==> slots[i].0 > d,
        slot_for(slots, len, d) > 0 ==> slots[slot_for(slots, len, d) - 1].0 <= d,
    decreases len,
{
    if len > 0 && slots[len - 1].0 > d {
        lemma_slot_for(slots, (len - 1) as nat, d);
    }
}

proof fn lemma_arrival_order()
    ensures
        total_ordering(arrival_order()),
{
}

/// The ranking holds every arrival once, in order.
pub proof fn lemma_ranking(distances: Seq<int>)
    ensures
        ranking(distances).len() == distances.len(),
        ranking(distances).to_multiset() == arrivals(distances).to_multiset(),
        sorted_by(ranking(distances), arrival_order()),
        forall|r: int|
            0 <= r < distances.len() ==> {
                let a = #[trigger] ranking(distances)[r];
                0 <= a.1 < distances.len() && a.0 == distances[a.1]
            },
        forall|r: int, s: int|
            0 <= r < s < distances.len() ==> precedes(
                #[trigger] ranking(distances)[r],
                #[trigger] ranking(distances)[s],
            ) && ranking(distances)[r].1 != ranking(distances)[s].1,
        forall|i: int|
            0 <= i < distances.len() ==> ranking(distances).contains((#[trigger] distances[i], i)),
{
    broadcast use group_to_multiset_ensures;

    let all = arrivals(distances);
    let ranked = ranking(distances);
    lemma_arrival_order();
    all.lemma_sort_by_ensures(arrival_order());
    assert(ranked.len() == all.to_multiset().len());
    assert forall|r: int| 0 <= r < distances.len() implies {
        let a = #[trigger] ranked[r];
        0 <= a.1 < distances.len() && a.0 == distances[a.1]
    } by {
        assert(ranked.contains(ranked[r]));
        assert(all.contains(ranked[r]));
    }
    assert(all.no_duplicates());
    all.lemma_multiset_has_no_duplicates();
    assert(ranked.no_duplicates()) by {
        ranked.lemma_multiset_has_no_duplicates_conv();
    }
    assert forall|r: int, s: int| 0 <= r < s < distances.len() implies precedes(
        #[trigger] ranked[r],
        #[trigger] ranked[s],
    ) && ranked[r].1 != ranked[s].1 by {
        assert(arrival_order()(ranked[r], ranked[s]));
        assert(ranked[r] != ranked[s]);
    }
    assert forall|i: int| 0 <= i < distances.len() implies ranked.contains(
        (#[trigger] distances[i], i),
    ) by {
        assert(all[i] == (distances[i], i));
        assert(all.contains(all[i]));
        assert(ranked.to_multiset().count(all[i]) > 0);
    }
}

/// A new arrival enters the ranking behind everything at most as far.
proof fn lemma_ranking_push(distances: Seq<int>, d: int, q: int)
    requires
        is_rank(distances, d, q),
    ensures
        ranking(distances.push(d)) == ranking(distances).insert(q, (d, distances.len() as int)),
{
    broadcast use group_to_multiset_ensures;

    let n = distances.len() as int;
    let before = ranking(distances);
    let after = ranking(distances.push(d));
    let inserted = before.insert(q, (d, n));
    lemma_ranking(distances);
    lemma_ranking(distances.push(d));
    lemma_arrival_order();
    assert(arrivals(distances.push(d)) =~= arrivals(distances).push((d, n)));
    assert(after.to_multiset() == inserted.to_multiset());
    assert forall|i: int, j: int| 0 <= i < j < inserted.len() implies #[trigger] arrival_order()(
        inserted[i],
        inserted[j],
    ) by {
        let pi = if i < q { i } else { i - 1 };
        let pj = if j < q { j } else { j - 1 };
        if i != q && j != q {
            assert(inserted[i] == before[pi] && inserted[j] == before[pj]);
        } else if i == q {
            assert(inserted[j] == before[pj]);
        } else {
            assert(inserted[i] == before[pi]);
        }
    }
    lemma_sorted_unique(after, inserted, arrival_order());
}

/// Offering an arrival keeps the slots on the nearest.
pub(crate) proof fn lemma_offered(
    slots: Seq<(u64, u32)>,
    len: nat,
    far: u64,
    distances: Seq<int>,
    ids: Seq<u32>,
    d: u64,
    id: u32,
)
    requires
        0 < len <= slots.len(),
        holds_nearest(slots, len, far, distances, ids),
        forall|i: int| 0 <= i < distances.len() ==> 0 <= #[trigger] distances[i] <= u64::MAX,
    ensures
        holds_nearest(
            offered(slots, len, d, id),
            len,
            far,
            distances.push(d as int),
            ids.push(id),
        ),
{
    let n = distances.len() as int;
    let ranked = ranking(distances);
    let next = offered(slots, len, d, id);
    lemma_ranking(distances);
    lemma_rank_from(distances, d as int, distances.len());
    let q = choose|q: int| is_rank(distances, d as int, q);
    lemma_ranking_push(distances, d as int, q);
    let grown = ranking(distances.push(d as int));
    assert(grown == ranked.insert(q, (d as int, n)));
    lemma_slot_for(slots, (len - 1) as nat, d);
    let p = slot_for(slots, (len - 1) as nat, d) as int;
    if d < slots[len - 1].0 {
        assert(slots[len - 1] == ranked_slot(far, distances, ids, len - 1));
        assert(d < far);
        assert(p == q) by {
            if p > 0 {
                assert(slots[p - 1] == ranked_slot(far, distances, ids, p - 1));
            }
            if p < len - 1 {
                assert(slots[p] == ranked_slot(far, distances, ids, p));
            }
        }
        assert forall|r: int| 0 <= r < len implies #[trigger] next[r] == ranked_slot(
            far,
            distances.push(d as int),
            ids.push(id),
            r,
        ) by {
            if r < q {
                assert(next[r] == slots[r]);
            } else if r > q {
                assert(next[r] == slots[r - 1]);
            }
        }
    } else {
        assert forall|r: int| 0 <= r < len implies #[trigger] next[r] == ranked_slot(
            far,
            distances.push(d as int),
            ids.push(id),
            r,
        ) by {
            assert(slots[r] == ranked_slot(far, distances, ids, r));
            assert(slots[len - 1] == ranked_slot(far, distances, ids, len - 1));
        }
    }
}

/// Every distance has a place in the ranking.
proof fn lemma_rank_from(distances: Seq<int>, d: int, q: nat)
    requires
        q <= distances.len(),
        forall|r: int| q <= r < distances.len() ==> (#[trigger] ranking(distances)[r]).0 > d,
    ensures
        exists|q: int| is_rank(distances, d, q),
    decreases q,
{
    lemma_ranking(distances);
    if q > 0 && ranking(distances)[q - 1].0 > d {
        lemma_rank_from(distances, d, (q - 1) as nat);
    } else {
        assert forall|r: int| 0 <= r < q implies (#[trigger] ranking(distances)[r]).0 <= d by {
            if r < q - 1 {
                assert(precedes(ranking(distances)[r], ranking(distances)[q - 1]));
            }
        }
        assert(is_rank(distances, d, q as int));
    }
}

/// The slots' keys never decrease.
pub open spec fn keys_sorted(slots: Seq<(u64, u32)>) -> bool {
    forall|i: int, j: int| 0 <= i <= j < slots.len() ==> (#[trigger] slots[i]).0 <= (
    #[trigger] slots[j]).0
}

/// Offering an item to sorted slots leaves them sorted.
pub proof fn offering_keeps_slots_sorted(slots: Seq<(u64, u32)>, d: u64, id: u32)
    requires
        slots.len() > 0,
        keys_sorted(slots),
    ensures
        offered(slots, slots.len(), d, id).len() == slots.len(),
        keys_sorted(offered(slots, slots.len(), d, id)),
{
    lemma_slot_for(slots, (slots.len() - 1) as nat, d);
    let q = slot_for(slots, (slots.len() - 1) as nat, d) as int;
    if d < slots.last().0 {
        assert forall|i: int| 0 <= i < slots.len() implies #[trigger] offered(
            slots,
            slots.len(),
            d,
            id,
        )[i] == (if i < q {
            slots[i]
        } else if i == q {
            (d, id)
        } else {
            slots[i - 1]
        }) by {}
    }
}

/// Offering an item to slots drops exactly one entry of the slots and the
/// item together: the item itself if it does not beat the last slot, and the
/// last slot's holder otherwise.
pub proof fn offering_drops_one(slots: Seq<(u64, u32)>, d: u64, id: u32)
    requires
        slots.len() > 0,
    ensures
        ({
            let dropped = if d >= slots.last().0 { (d, id) } else { slots.last() };
            offered(slots, slots.len(), d, id).to_multiset().insert(dropped)
                == slots.to_multiset().insert((d, id))
        }),
{
    broadcast use group_to_multiset_ensures;

    if d < slots.last().0 {
        lemma_slot_for(slots, (slots.len() - 1) as nat, d);
        let q = slot_for(slots, (slots.len() - 1) as nat, d) as int;
        assert(offered(slots, slots.len(), d, id) =~= slots.drop_last().insert(q, (d, id)));
        assert(slots =~= slots.drop_last().push(slots.last()));
    }
}

/// The nearest arrivals are distinct and in order, and no arrival left out
/// comes before one of them.
pub proof fn nearest_leaves_none_nearer(distances: Seq<int>, count: nat)
    ensures
        nearest(distances, count).len() == if count < distances.len() {
            count
        } else {
            distances.len()
        },
        forall|r: int|
            0 <= r < nearest(distances, count).len() ==> 0 <= #[trigger] nearest(
                distances,
                count,
            )[r] < distances.len(),
        forall|r: int, s: int|
            0 <= r < s < nearest(distances, count).len() ==> {
                let a = #[trigger] nearest(distances, count)[r];
                let b = #[trigger] nearest(distances, count)[s];
                a != b && precedes((distances[a], a), (distances[b], b))
            },
        forall|r: int, i: int|
            0 <= r < nearest(distances, count).len() && 0 <= i < distances.len() && !nearest(
                distances,
                count,
            ).contains(i) ==> {
                let a = #[trigger] nearest(distances, count)[r];
                precedes((distances[a], a), (#[trigger] distances[i], i))
            },
{
    lemma_ranking(distances);
    let kept = nearest(distances, count);
    assert forall|r: int, i: int|
        0 <= r < kept.len() && 0 <= i < distances.len() && !kept.contains(i) implies {
        let a = #[trigger] kept[r];
        precedes((distances[a], a), (#[trigger] distances[i], i))
    } by {
        let s = choose|s: int|
            0 <= s < ranking(distances).len() && ranking(distances)[s] == (distances[i], i);
        if s < kept.len() {
            assert(kept[s] == i);
        }
        assert(precedes(ranking(distances)[r], ranking(distances)[s]));
    }
}

/// Offers an item to the first `len` slots.
pub fn offer(slots: &mut [(u64, u32)], len: usize, d: u64, id: u32)
    requires
        0 < len <= old(slots)@.len(),
    ensures
        final(slots)@ == offered(old(slots)@, len as nat, d, id),
{
    if d >= slots[len - 1].0 {
        return;
    }
    let ghost before = slots@;
    let mut j: usize = len - 1;
    while j > 0 && slots[j - 1].0 > d
        invariant
            j < len <= before.len(),
            slots@.len() == before.len(),
            slot_for(before, (len - 1) as nat, d) == slot_for(before, j as nat, d),
            slots@ == before.take(j as int) + before.subrange(j as int, j + 1)
                + before.subrange(j as int, len - 1) + before.skip(len as int),
        decreases j,
    {
        slots[j] = slots[j - 1];
        j -= 1;
    }
    slots[j] = (d, id);
}

/// Offers an item to five slots, nearest first: the item takes its place
/// behind all keys at most `d`, and the fifth slot's former holder leaves.
pub fn insert_top5(top: &mut [(u64, u32); 5], d: u64, idx: u32)
    ensures
        final(top)@ == offered(old(top)@, 5, d, idx),
{
    offer(top, 5, d, idx);
}

/// An item that does not beat the last of the first `len` slots changes nothing.
/// Any other is put right behind the last slot, of those before the last one,
/// whose key does not exceed its own; the slots in front of it stay, those
/// behind it move back by one, the last of the `len` falls out, and the slots
/// beyond are left alone.
pub proof fn offered_items_go_behind_their_equals(
    slots: Seq<(u64, u32)>,
    len: nat,
    d: u64,
    id: u32,
) -> (q: int)
    requires
        0 < len <= slots.len(),
    ensures
        offered(slots, len, d, id).len() == slots.len(),
        d >= slots[len - 1].0 ==> offered(slots, len, d, id) == slots,
        d < slots[len - 1].0 ==> {
            &&& 0 <= q < len
            &&& q > 0 ==> slots[q - 1].0 <= d
            &&& forall|i: int| q <= i < len ==> (#[trigger] slots[i]).0 > d
            &&& forall|i: int|
                0 <= i < q ==> (#[trigger] offered(slots, len, d, id)[i]) == slots[i]
            &&& offered(slots, len, d, id)[q] == (d, id)
            &&& forall|i: int|
                q < i < len ==> (#[trigger] offered(slots, len, d, id)[i]) == slots[i - 1]
            &&& forall|i: int|
                len <= i < slots.len() ==> (#[trigger] offered(slots, len, d, id)[i]) == slots[i]
        },
{
    lemma_slot_for(slots, (len - 1) as nat, d);
    slot_for(slots, (len - 1) as nat, d) as int
}

/// The nearest arrivals, in terms of the distances: different arrivals, nearest
/// first and among equals the earlier first, as many as asked for or all; every
/// arrival left out is farther than all of them, or as far and later.
pub proof fn nearest_are_the_least_distances(distances: Seq<int>, count: nat)
    ensures
        nearest(distances, count).len() <= count,
        nearest(distances, count).len() <= distances.len(),
        nearest(distances, count).len() == count || nearest(distances, count).len()
            == distances.len(),
        forall|r: int|
            0 <= r < nearest(distances, count).len() ==> 0 <= #[trigger] nearest(
                distances,
                count,
            )[r] < distances.len(),
        forall|r: int, s: int|
            0 <= r < s < nearest(distances, count).len() ==> {
                let a = #[trigger] nearest(distances, count)[r];
                let b = #[trigger] nearest(distances, count)[s];
                distances[a] < distances[b] || (distances[a] == distances[b] && a < b)
            },
        forall|r: int, i: int|
            0 <= r < nearest(distances, count).len() && 0 <= i < distances.len() && !nearest(
                distances,
                count,
            ).contains(i) ==> {
                let a = #[trigger] nearest(distances, count)[r];
                (#[trigger] distances[i]) > distances[a] || (distances[i] == distances[a] && i > a)
            },
{
    nearest_leaves_none_nearer(distances, count);
    let kept = nearest(distances, count);
    assert forall|r: int, i: int|
        0 <= r < kept.len() && 0 <= i < distances.len() && !kept.contains(i) implies {
        let a = #[trigger] kept[r];
        (#[trigger] distances[i]) > distances[a] || (distances[i] == distances[a] && i > a)
    } by {
        let a = kept[r];
        assert(kept.contains(a));
        assert(precedes((distances[a], a), (distances[i], i)));
    }
}

/// What ranked slots hold, in terms of the distances: a slot with a key below
/// `far` names an arrival at that distance; the slots are in order, among equals
/// by arrival, and those without an arrival come last and hold `far` and the
/// largest identifier; an arrival nearer than `far` has its slot unless all slots
/// hold others that are nearer, or as near and earlier.
pub proof fn ranked_slots_hold_the_least_distances(
    slots: Seq<(u64, u32)>,
    len: nat,
    far: u64,
    distances: Seq<int>,
    ids: Seq<u32>,
) -> (holders: Seq<int>)
    requires
        holds_nearest(slots, len, far, distances, ids),
        forall|i: int| 0 <= i < distances.len() ==> 0 <= #[trigger] distances[i] <= u64::MAX,
    ensures
        holders.len() <= len,
        forall|r: int|
            0 <= r < holders.len() ==> {
                let i = #[trigger] holders[r];
                &&& 0 <= i < distances.len()
                &&& distances[i] < far
                &&& slots[r].0 == distances[i]
                &&& slots[r].1 == ids[i]
            },
        forall|r: int| holders.len() <= r < len ==> (#[trigger] slots[r]) == (far, u32::MAX),
        forall|r: int, s: int|
            0 <= r < s < holders.len() ==> {
                let a = #[trigger] holders[r];
                let b = #[trigger] holders[s];
                distances[a] < distances[b] || (distances[a] == distances[b] && a < b)
            },
        forall|i: int|
            0 <= i < distances.len() && (#[trigger] distances[i]) < far && !holders.contains(i)
                ==> holders.len() == len,
        forall|r: int, i: int|
            0 <= r < holders.len() && 0 <= i < distances.len() && !holders.contains(i) ==> {
                let a = #[trigger] holders[r];
                (#[trigger] distances[i]) > distances[a] || (distances[i] == distances[a] && i > a)
            },
{
    lemma_ranking(distances);
    let n = distances.len();
    let most = if len < n {
        len as int
    } else {
        n as int
    };
    let kept = lemma_prefix_below(distances, far as int, most);
    let holders = Seq::new(kept as nat, |r: int| ranking(distances)[r].1);
    assert forall|r: int| 0 <= r < holders.len() implies {
        let i = #[trigger] holders[r];
        &&& 0 <= i < distances.len()
        &&& distances[i] < far
        &&& slots[r].0 == distances[i]
        &&& slots[r].1 == ids[i]
    } by {
        assert(slots[r] == ranked_slot(far, distances, ids, r));
    }
    assert forall|r: int| holders.len() <= r < len implies (#[trigger] slots[r]) == (
        far,
        u32::MAX,
    ) by {
        assert(slots[r] == ranked_slot(far, distances, ids, r));
        if r < n && kept < most {
            if r > kept {
                assert(precedes(ranking(distances)[kept], ranking(distances)[r]));
            }
        }
    }
    assert forall|r: int, s: int| 0 <= r < s < holders.len() implies {
        let a = #[trigger] holders[r];
        let b = #[trigger] holders[s];
        distances[a] < distances[b] || (distances[a] == distances[b] && a < b)
    } by {
        assert(precedes(ranking(distances)[r], ranking(distances)[s]));
    }
    assert forall|i: int|
        0 <= i < distances.len() && (#[trigger] distances[i]) < far && !holders.contains(
            i,
        ) implies holders.len() == len by {
        let s = lemma_rank_of(distances, i);
        if s < kept {
            assert(holders[s] == i);
        }
        if kept < most {
            if s > kept {
                assert(precedes(ranking(distances)[kept], ranking(distances)[s]));
            }
        }
    }
    assert forall|r: int, i: int|
        0 <= r < holders.len() && 0 <= i < distances.len() && !holders.contains(i) implies {
        let a = #[trigger] holders[r];
        (#[trigger] distances[i]) > distances[a] || (distances[i] == distances[a] && i > a)
    } by {
        let s = lemma_rank_of(distances, i);
        if s < kept {
            assert(holders[s] == i);
        }
        assert(precedes(ranking(distances)[r], ranking(distances)[s]));
    }
    holders
}

/// The rank of an arrival.
proof fn lemma_rank_of(distances: Seq<int>, i: int) -> (r: int)
    requires
        0 <= i < distances.len(),
    ensures
        0 <= r < distances.len(),
        ranking(distances)[r] == (distances[i], i),
{
    lemma_ranking(distances);
    assert(ranking(distances).contains((distances[i], i)));
    choose|r: int| 0 <= r < ranking(distances).len() && ranking(distances)[r] == (distances[i], i)
}

/// The number of the first `most` ranks that are nearer than `far`.
proof fn lemma_prefix_below(distances: Seq<int>, far: int, most: int) -> (kept: int)
    requires
        0 <= most <= distances.len(),
    ensures
        0 <= kept <= most,
        forall|r: int| 0 <= r < kept ==> (#[trigger] ranking(distances)[r]).0 < far,
        kept < most ==> ranking(distances)[kept].0 >= far,
    decreases most,
{
    if most == 0 {
        0
    } else {
        let before = lemma_prefix_below(distances, far, most - 1);
        if before == most - 1 && ranking(distances)[before].0 < far {
            most
        } else {
            before
        }
    }
}

} // verus!

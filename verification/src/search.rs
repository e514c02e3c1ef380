//! The inverted-file search.
//!
//! The vectors of an index stand in clusters, each around a centroid. A search
//! probes the clusters of the nearest centroids, takes the five nearest vectors
//! found there, and counts the frauds among them.
//!
//! The distance from the query to a centroid comes in as a key: the bit pattern
//! of a non-negative single-precision number, whose order is that of the
//! numbers. Infinity has the key [`FAR_KEY`], and what is not a number has a
//! larger one.

use vstd::multiset::Multiset;
use vstd::prelude::*;

use crate::distance::{distance_is_bounded, l2sq, l2sq_i16, Vec14I};
use crate::index::IndexView;
use crate::marks::{lemma_marked, marked};
use crate::ranking::{
    holds_nearest, insert_top5, lemma_offered, lemma_ranking, nearest,
    nearest_are_the_least_distances, nearest_leaves_none_nearer, offer, ranked_slot,
    ranked_slots_hold_the_least_distances, ranking,
};

verus! {

/// The key of an infinite distance. A centroid this far is never probed.
pub const FAR_KEY: u32 = 0x7F80_0000;

/// The largest number of clusters that a search probes.
pub const MAX_PROBES: usize = 64;

/// The number of neighbours that vote.
pub const NEIGHBOURS: usize = 5;

/// The label bit of vector `i`: bit `i % 8`, from the lowest, of byte `i / 8`.
pub open spec fn label_bit(labels: Seq<u8>, i: int) -> bool {
    labels[i / 8] & (1u8 << ((i % 8) as usize)) != 0
}

/// Whether the vector is labelled a fraud.
pub fn label_is_fraud(labels: &[u8], idx: usize) -> (fraud: bool)
    requires
        idx / 8 < labels@.len(),
    ensures
        fraud == label_bit(labels@, idx as int),
{
    labels[idx / 8] & (1u8 << (idx % 8)) != 0
}

/// Keys as integers.
pub open spec fn key_values(keys: Seq<u32>) -> Seq<int> {
    Seq::new(keys.len(), |i: int| keys[i] as int)
}

/// The positions from zero up to `n`.
pub open spec fn positions(n: nat) -> Seq<u32> {
    Seq::new(n, |i: int| i as u32)
}

/// The number of clusters that are probed when `nprobe` are asked for.
pub open spec fn probe_count(nprobe: usize) -> nat {
    if nprobe < MAX_PROBES {
        nprobe as nat
    } else {
        MAX_PROBES as nat
    }
}

/// The clusters that are probed, nearest first.
pub open spec fn probed(keys: Seq<u32>, nprobe: usize) -> Seq<int> {
    nearest(key_values(keys), probe_count(nprobe))
}

/// The vectors of a cluster, in order.
pub open spec fn members(offsets: Seq<u32>, cluster: int) -> Seq<int> {
    let start = offsets[cluster];
    let end = offsets[cluster + 1];
    Seq::new(
        if start < end {
            (end - start) as nat
        } else {
            0
        },
        |i: int| start + i,
    )
}

/// The vectors of clusters, cluster after cluster.
pub open spec fn candidates(offsets: Seq<u32>, clusters: Seq<int>) -> Seq<int>
    decreases clusters.len(),
{
    if clusters.len() == 0 {
        Seq::empty()
    } else {
        candidates(offsets, clusters.drop_last()) + members(offsets, clusters.last())
    }
}

/// The distances of vectors from the query.
pub open spec fn distances_from(query: Seq<i16>, vectors: Seq<Vec14I>, ids: Seq<int>) -> Seq<int> {
    Seq::new(ids.len(), |i: int| l2sq(query, vectors[ids[i]]@))
}

/// The nearest vectors among the candidates, nearest first; of candidates
/// equally near, the one scanned earlier.
pub open spec fn neighbours(query: Seq<i16>, vectors: Seq<Vec14I>, ids: Seq<int>) -> Seq<int> {
    let order = nearest(distances_from(query, vectors, ids), NEIGHBOURS as nat);
    Seq::new(order.len(), |r: int| ids[order[r]])
}

/// The number of frauds among vectors.
pub open spec fn fraud_count(labels: Seq<u8>, ids: Seq<int>) -> nat
    decreases ids.len(),
{
    if ids.len() == 0 {
        0
    } else {
        fraud_count(labels, ids.drop_last()) + if label_bit(labels, ids.last()) {
            1nat
        } else {
            0
        }
    }
}

/// The vectors that a search looks at, in order.
pub open spec fn scanned(idx: &IndexView, keys: Seq<u32>, nprobe: usize) -> Seq<int> {
    candidates(idx.offsets@, probed(keys, nprobe))
}

/// The outcome of a search: how many of the nearest vectors found are frauds.
pub open spec fn votes(
    idx: &IndexView,
    query: Seq<i16>,
    keys: Seq<u32>,
    nprobe: usize,
) -> nat {
    fraud_count(
        idx.labels@,
        neighbours(query, idx.vectors@, scanned(idx, keys, nprobe)),
    )
}

/// The cluster can be probed: its centroid is within reach and its range, if it
/// is not empty, lies within the vectors.
pub open spec fn cluster_ok(idx: &IndexView, keys: Seq<u32>, c: int) -> bool {
    &&& keys[c] < FAR_KEY
    &&& idx.offsets@[c] < idx.offsets@[c + 1] ==> idx.offsets@[c + 1] <= idx.vectors@.len()
}

/// There is a key for every centroid, at least one cluster is asked for, there
/// are as many clusters as will be probed, and each of these can be probed.
pub open spec fn searchable(idx: &IndexView, keys: Seq<u32>, nprobe: usize) -> bool {
    &&& keys.len() == idx.centroids@.len()
    &&& 0 < nprobe
    &&& probe_count(nprobe) <= keys.len()
    &&& forall|p: int|
        0 <= p < probe_count(nprobe) ==> cluster_ok(idx, keys, #[trigger] probed(keys, nprobe)[p])
}

/// Ranks the centroids: the slots hold the nearest ones within reach, nearest
/// first, with their keys. Slots that are not filled hold [`FAR_KEY`].
pub fn select_probes(keys: &[u32], np: usize) -> (slots: [(u64, u32); 64])
    requires
        0 < np <= MAX_PROBES,
        keys@.len() <= u32::MAX,
    ensures
        holds_nearest(
            slots@,
            np as nat,
            FAR_KEY as u64,
            key_values(keys@),
            positions(keys@.len()),
        ),
        forall|r: int| np <= r < MAX_PROBES ==> slots[r] == (FAR_KEY as u64, u32::MAX),
{
    let mut slots: [(u64, u32); 64] = [(FAR_KEY as u64, u32::MAX); 64];
    let k = keys.len();
    assert(key_values(keys@.take(0)) =~= Seq::empty());
    assert(positions(0) =~= Seq::empty());
    for c in 0..k
        invariant
            0 < np <= MAX_PROBES,
            k == keys@.len() <= u32::MAX,
            holds_nearest(
                slots@,
                np as nat,
                FAR_KEY as u64,
                key_values(keys@.take(c as int)),
                positions(c as nat),
            ),
            forall|r: int| np <= r < MAX_PROBES ==> slots[r] == (FAR_KEY as u64, u32::MAX),
    {
        let ghost before = slots@;
        offer(&mut slots, np, keys[c] as u64, c as u32);
        proof {
            lemma_offered(
                before,
                np as nat,
                FAR_KEY as u64,
                key_values(keys@.take(c as int)),
                positions(c as nat),
                keys@[c as int] as u64,
                c as u32,
            );
            assert(key_values(keys@.take(c + 1)) =~= key_values(keys@.take(c as int)).push(
                keys@[c as int] as int,
            ));
            assert(positions((c + 1) as nat) =~= positions(c as nat).push(c as u32));
        }
    }
    assert(keys@.take(k as int) =~= keys@);
    slots
}

/// The clusters that the first `np` slots name.
spec fn slot_clusters(slots: Seq<(u64, u32)>, np: nat) -> Seq<int> {
    Seq::new(np, |p: int| slots[p].1 as int)
}

/// Vector numbers as stored in slots.
spec fn slot_ids(ids: Seq<int>) -> Seq<u32> {
    Seq::new(ids.len(), |i: int| ids[i] as u32)
}

/// The five slots hold the nearest of the vectors scanned so far.
spec fn holds_neighbours(
    top: Seq<(u64, u32)>,
    query: Seq<i16>,
    vectors: Seq<Vec14I>,
    ids: Seq<int>,
) -> bool {
    &&& top.len() == NEIGHBOURS
    &&& holds_nearest(
        top,
        NEIGHBOURS as nat,
        u64::MAX,
        distances_from(query, vectors, ids),
        slot_ids(ids),
    )
    &&& forall|i: int| 0 <= i < ids.len() ==> 0 <= #[trigger] ids[i] < vectors.len()
}

/// Every slot can be scanned.
spec fn slots_ok(idx: &IndexView, slots: Seq<(u64, u32)>, np: nat) -> bool {
    forall|p: int|
        0 <= p < np ==> {
            let c = (#[trigger] slots[p]).1 as int;
            &&& c < idx.centroids@.len()
            &&& idx.offsets@[c] < idx.offsets@[c + 1] ==> idx.offsets@[c + 1] <= idx.vectors@.len()
        }
}

/// Scanning one more vector.
proof fn lemma_scan_step(
    before: Seq<(u64, u32)>,
    after: Seq<(u64, u32)>,
    query: Seq<i16>,
    vectors: Seq<Vec14I>,
    ids: Seq<int>,
    v: u32,
    d: u64,
)
    requires
        holds_neighbours(before, query, vectors, ids),
        v < vectors.len(),
        d == l2sq(query, vectors[v as int]@),
        after == crate::ranking::offered(before, 5, d, v),
        after.len() == before.len(),
    ensures
        holds_neighbours(after, query, vectors, ids.push(v as int)),
{
    let ds = distances_from(query, vectors, ids);
    assert forall|i: int| 0 <= i < ds.len() implies 0 <= #[trigger] ds[i] <= u64::MAX by {
        distance_is_bounded(query, vectors[ids[i]]@, 16);
    }
    lemma_offered(before, 5, u64::MAX, ds, slot_ids(ids), d, v);
    assert(distances_from(query, vectors, ids.push(v as int)) =~= ds.push(d as int));
    assert(slot_ids(ids.push(v as int)) =~= slot_ids(ids).push(v));
}

/// Scans one cluster into the slots.
fn scan_cluster(
    idx: &IndexView,
    query: &Vec14I,
    top: &mut [(u64, u32); 5],
    start: usize,
    end: usize,
    Ghost(ids): Ghost<Seq<int>>,
)
    requires
        start < end ==> end <= idx.vectors@.len(),
        idx.vectors@.len() <= u32::MAX,
        holds_neighbours(old(top)@, query@, idx.vectors@, ids),
    ensures
        holds_neighbours(
            final(top)@,
            query@,
            idx.vectors@,
            ids + Seq::new(
                if start < end {
                    (end - start) as nat
                } else {
                    0
                },
                |i: int| start + i,
            ),
        ),
{
    let vectors = idx.vectors.as_slice();
    let mut i: usize = start;
    let ghost mut seen = ids;
    while i < end
        invariant
            start < end ==> start <= i <= end <= vectors@.len(),
            start >= end ==> i == start,
            vectors@ == idx.vectors@,
            idx.vectors@.len() <= u32::MAX,
            seen == ids + Seq::new((i - start) as nat, |j: int| start + j),
            holds_neighbours(top@, query@, idx.vectors@, seen),
        decreases end - i,
    {
        let d = l2sq_i16(query, &vectors[i]);
        let ghost before = top@;
        insert_top5(top, d, i as u32);
        proof {
            lemma_scan_step(before, top@, query@, idx.vectors@, seen, i as u32, d);
            seen = seen.push(i as int);
        }
        i += 1;
    }
}

/// Counts the frauds that the slots hold.
fn count_frauds(
    labels: &[u8],
    top: &[(u64, u32); 5],
    Ghost(query): Ghost<Seq<i16>>,
    Ghost(vectors): Ghost<Seq<Vec14I>>,
    Ghost(ids): Ghost<Seq<int>>,
) -> (frauds: u8)
    requires
        labels@.len() == (vectors.len() + 7) / 8,
        vectors.len() <= u32::MAX,
        holds_neighbours(top@, query, vectors, ids),
    ensures
        frauds == fraud_count(labels@, neighbours(query, vectors, ids)),
{
    let ghost found = neighbours(query, vectors, ids);
    let ghost ds = distances_from(query, vectors, ids);
    proof {
        nearest_leaves_none_nearer(ds, NEIGHBOURS as nat);
        lemma_ranking(ds);
    }
    let mut frauds: u8 = 0;
    for r in 0..5usize
        invariant
            frauds <= r,
            found == neighbours(query, vectors, ids),
            ds == distances_from(query, vectors, ids),
            labels@.len() == (vectors.len() + 7) / 8,
            vectors.len() <= u32::MAX,
            holds_neighbours(top@, query, vectors, ids),
            frauds == fraud_count(
                labels@,
                found.take(
                    if r < found.len() {
                        r as int
                    } else {
                        found.len() as int
                    },
                ),
            ),
    {
        let vidx = top[r].1;
        proof {
            lemma_ranking(ds);
            assert(top@[r as int] == ranked_slot(u64::MAX, ds, slot_ids(ids), r as int));
            if r < found.len() {
                let v = ids[ranking(ds)[r as int].1];
                distance_is_bounded(query, vectors[v]@, 16);
                assert(found[r as int] == v);
                assert(found.take(r + 1).drop_last() =~= found.take(r as int));
            }
        }
        if vidx != u32::MAX && label_is_fraud(labels, vidx as usize) {
            frauds += 1;
        }
    }
    assert(found.take(found.len() as int) =~= found);
    frauds
}

/// Scans the clusters that the slots name and lets the nearest vectors vote.
fn scan_probes(
    idx: &IndexView,
    query: &Vec14I,
    slots: &[(u64, u32); 64],
    np: usize,
) -> (frauds: u8)
    requires
        idx.wf(),
        np <= MAX_PROBES,
        slots_ok(idx, slots@, np as nat),
    ensures
        frauds == fraud_count(
            idx.labels@,
            neighbours(
                query@,
                idx.vectors@,
                candidates(idx.offsets@, slot_clusters(slots@, np as nat)),
            ),
        ),
{
    let offsets = idx.offsets.as_slice();
    let mut top: [(u64, u32); 5] = [(u64::MAX, u32::MAX); 5];
    let ghost clusters = slot_clusters(slots@, np as nat);
    let ghost mut ids = Seq::<int>::empty();
    for p in 0..np
        invariant
            idx.wf(),
            np <= MAX_PROBES,
            slots_ok(idx, slots@, np as nat),
            offsets@ == idx.offsets@,
            clusters == slot_clusters(slots@, np as nat),
            ids == candidates(idx.offsets@, clusters.take(p as int)),
            holds_neighbours(top@, query@, idx.vectors@, ids),
    {
        let c: usize = slots[p].1 as usize;
        let start: usize = offsets[c] as usize;
        let end: usize = offsets[c + 1] as usize;
        scan_cluster(idx, query, &mut top, start, end, Ghost(ids));
        proof {
            let grown = clusters.take(p + 1);
            assert(grown.drop_last() =~= clusters.take(p as int));
            let next = ids + members(idx.offsets@, c as int);
            assert(next == candidates(idx.offsets@, grown));
            assert(members(idx.offsets@, c as int) =~= Seq::new(
                if start < end {
                    (end - start) as nat
                } else {
                    0
                },
                |i: int| start + i,
            ));
            ids = next;
        }
    }
    assert(clusters.take(np as int) =~= clusters);
    count_frauds(idx.labels, &top, Ghost(query@), Ghost(idx.vectors@), Ghost(ids))
}

/// Ranked slots name the probed clusters; they can be scanned exactly where the
/// index is searchable.
proof fn lemma_slots(idx: &IndexView, keys: Seq<u32>, nprobe: usize, slots: Seq<(u64, u32)>)
    requires
        idx.wf(),
        keys.len() == idx.centroids@.len(),
        0 < nprobe,
        holds_nearest(
            slots,
            probe_count(nprobe),
            FAR_KEY as u64,
            key_values(keys),
            positions(keys.len()),
        ),
    ensures
        searchable(idx, keys, nprobe) <==> slots_ok(idx, slots, probe_count(nprobe)),
        searchable(idx, keys, nprobe) ==> slot_clusters(slots, probe_count(nprobe)) == probed(
            keys,
            nprobe,
        ),
{
    let np = probe_count(nprobe);
    let values = key_values(keys);
    lemma_ranking(values);
    assert forall|p: int| 0 <= p < np implies {
        &&& #[trigger] slots[p] == ranked_slot(FAR_KEY as u64, values, positions(keys.len()), p)
        &&& p < keys.len() && keys[probed(keys, nprobe)[p]] < FAR_KEY ==> slots[p].1 == probed(
            keys,
            nprobe,
        )[p]
        &&& !(p < keys.len() && keys[probed(keys, nprobe)[p]] < FAR_KEY) ==> slots[p].1 == u32::MAX
    } by {
        if p < keys.len() {
            let a = ranking(values)[p];
            assert(a.0 == keys[a.1]);
            if np <= keys.len() {
                assert(probed(keys, nprobe)[p] == a.1);
            } else {
                assert(probed(keys, nprobe)[p] == a.1);
            }
        }
    }
    if searchable(idx, keys, nprobe) {
        assert forall|p: int| 0 <= p < np implies slots[p].1 == probed(keys, nprobe)[p] by {
            assert(cluster_ok(idx, keys, probed(keys, nprobe)[p]));
        }
        assert(slot_clusters(slots, np) =~= probed(keys, nprobe));
        assert(slots_ok(idx, slots, np)) by {
            assert forall|p: int| 0 <= p < np implies {
                let c = (#[trigger] slots[p]).1 as int;
                &&& c < idx.centroids@.len()
                &&& idx.offsets@[c] < idx.offsets@[c + 1] ==> idx.offsets@[c + 1]
                    <= idx.vectors@.len()
            } by {
                assert(cluster_ok(idx, keys, probed(keys, nprobe)[p]));
            }
        }
    }
    if slots_ok(idx, slots, np) {
        assert(np <= keys.len()) by {
            if np > keys.len() {
                assert(slots[keys.len() as int].1 == u32::MAX);
            }
        }
        assert forall|p: int| 0 <= p < np implies cluster_ok(
            idx,
            keys,
            #[trigger] probed(keys, nprobe)[p],
        ) by {
            assert(slots[p].1 < idx.centroids@.len());
        }
    }
}

/// Whether every slot can be scanned.
fn check_slots(idx: &IndexView, slots: &[(u64, u32); 64], np: usize) -> (ok: bool)
    requires
        idx.wf(),
        np <= MAX_PROBES,
    ensures
        ok == slots_ok(idx, slots@, np as nat),
{
    let offsets = idx.offsets.as_slice();
    let k = idx.centroids.len();
    let n = idx.vectors.len();
    for p in 0..np
        invariant
            idx.wf(),
            np <= MAX_PROBES,
            offsets@ == idx.offsets@,
            k == idx.centroids@.len(),
            n == idx.vectors@.len(),
            slots_ok(idx, slots@, p as nat),
    {
        let c: usize = slots[p].1 as usize;
        if c >= k {
            assert(slots@[p as int].1 >= idx.centroids@.len());
            return false;
        }
        let start: usize = offsets[c] as usize;
        let end: usize = offsets[c + 1] as usize;
        if start < end && end > n {
            assert(slots@[p as int].1 == c);
            return false;
        }
    }
    true
}

/// The number of clusters to probe.
fn clamp_probes(nprobe: usize) -> (np: usize)
    ensures
        np == probe_count(nprobe),
{
    if nprobe < MAX_PROBES {
        nprobe
    } else {
        MAX_PROBES
    }
}

/// Searches the index: `keys` holds the key of the distance from the query to
/// each centroid. At most [`MAX_PROBES`] clusters are probed.
pub fn ivf_search(idx: &IndexView, query: &Vec14I, keys: &[u32], nprobe: usize) -> (frauds: u8)
    requires
        idx.wf(),
        searchable(idx, keys@, nprobe),
    ensures
        frauds == votes(idx, query@, keys@, nprobe),
{
    let np = clamp_probes(nprobe);
    let slots = select_probes(keys, np);
    proof {
        lemma_slots(idx, keys@, nprobe, slots@);
    }
    scan_probes(idx, query, &slots, np)
}

/// Searches the index where it is searchable, and gives `None` elsewhere.
pub fn checked_ivf_search(
    idx: &IndexView,
    query: &Vec14I,
    keys: &[u32],
    nprobe: usize,
) -> (r: Option<u8>)
    requires
        idx.wf(),
    ensures
        r is Some <==> searchable(idx, keys@, nprobe),
        r matches Some(frauds) ==> frauds == votes(idx, query@, keys@, nprobe),
{
    if keys.len() != idx.centroids.len() || nprobe == 0 {
        return None;
    }
    let np = clamp_probes(nprobe);
    let slots = select_probes(keys, np);
    proof {
        lemma_slots(idx, keys@, nprobe, slots@);
    }
    if check_slots(idx, &slots, np) {
        Some(scan_probes(idx, query, &slots, np))
    } else {
        None
    }
}

/// A vote that a single neighbour could turn: two or three of five.
pub open spec fn is_borderline(frauds: nat) -> bool {
    frauds == 2 || frauds == 3
}

/// Searches with `nprobe_primary` clusters, and once more with `nprobe_refine`
/// if that vote is borderline.
pub fn ivf_search_2stage(
    idx: &IndexView,
    query: &Vec14I,
    keys: &[u32],
    nprobe_primary: usize,
    nprobe_refine: usize,
) -> (frauds: u8)
    requires
        idx.wf(),
        searchable(idx, keys@, nprobe_primary),
        is_borderline(votes(idx, query@, keys@, nprobe_primary)) ==> searchable(
            idx,
            keys@,
            nprobe_refine,
        ),
    ensures
        frauds == if is_borderline(votes(idx, query@, keys@, nprobe_primary)) {
            votes(idx, query@, keys@, nprobe_refine)
        } else {
            votes(idx, query@, keys@, nprobe_primary)
        },
{
    let frauds = ivf_search(idx, query, keys, nprobe_primary);
    if frauds == 2 || frauds == 3 {
        ivf_search(idx, query, keys, nprobe_refine)
    } else {
        frauds
    }
}

/// The two-stage search, with `None` where a search that it needs cannot be
/// made.
pub fn checked_ivf_search_2stage(
    idx: &IndexView,
    query: &Vec14I,
    keys: &[u32],
    nprobe_primary: usize,
    nprobe_refine: usize,
) -> (r: Option<u8>)
    requires
        idx.wf(),
    ensures
        r is Some <==> searchable(idx, keys@, nprobe_primary) && (is_borderline(
            votes(idx, query@, keys@, nprobe_primary),
        ) ==> searchable(idx, keys@, nprobe_refine)),
        r matches Some(frauds) ==> frauds == if is_borderline(
            votes(idx, query@, keys@, nprobe_primary),
        ) {
            votes(idx, query@, keys@, nprobe_refine)
        } else {
            votes(idx, query@, keys@, nprobe_primary)
        },
{
    match checked_ivf_search(idx, query, keys, nprobe_primary) {
        Some(frauds) => if frauds == 2 || frauds == 3 {
            checked_ivf_search(idx, query, keys, nprobe_refine)
        } else {
            Some(frauds)
        },
        None => None,
    }
}

/// No more frauds are counted than vectors.
proof fn lemma_fraud_count_bound(labels: Seq<u8>, ids: Seq<int>)
    ensures
        fraud_count(labels, ids) <= ids.len(),
    decreases ids.len(),
{
    if ids.len() > 0 {
        lemma_fraud_count_bound(labels, ids.drop_last());
    }
}

/// A search counts at most five frauds.
pub proof fn at_most_five_votes(idx: &IndexView, query: Seq<i16>, keys: Seq<u32>, nprobe: usize)
    ensures
        votes(idx, query, keys, nprobe) <= NEIGHBOURS,
{
    let ids = scanned(idx, keys, nprobe);
    nearest_leaves_none_nearer(distances_from(query, idx.vectors@, ids), NEIGHBOURS as nat);
    lemma_fraud_count_bound(idx.labels@, neighbours(query, idx.vectors@, ids));
}

/// The five that vote are among the vectors scanned, and none of the vectors
/// scanned that does not vote is nearer to the query than one that does.
pub proof fn the_nearest_vote(query: Seq<i16>, vectors: Seq<Vec14I>, ids: Seq<int>, v: int, w: int)
    requires
        neighbours(query, vectors, ids).contains(v),
        ids.contains(w),
        !neighbours(query, vectors, ids).contains(w),
    ensures
        ids.contains(v),
        l2sq(query, vectors[v]@) <= l2sq(query, vectors[w]@),
{
    let ds = distances_from(query, vectors, ids);
    let order = nearest(ds, NEIGHBOURS as nat);
    nearest_leaves_none_nearer(ds, NEIGHBOURS as nat);
    let r = choose|r: int|
        0 <= r < order.len() && neighbours(query, vectors, ids)[r] == v;
    let i = choose|i: int| 0 <= i < ids.len() && ids[i] == w;
    assert(ids[order[r]] == v);
    if order.contains(i) {
        let t = choose|t: int| 0 <= t < order.len() && order[t] == i;
        assert(neighbours(query, vectors, ids)[t] == w);
    }
    assert(ds[i] == l2sq(query, vectors[w]@));
    assert(ds[order[r]] == l2sq(query, vectors[v]@));
}

/// Probing more clusters keeps the ones probed before, in the same order.
pub proof fn more_probes_extend_the_scan(keys: Seq<u32>, few: usize, many: usize)
    requires
        few <= many,
    ensures
        probed(keys, few).is_prefix_of(probed(keys, many)),
{
    assert(probed(keys, few) =~= probed(keys, many).take(probed(keys, few).len() as int));
}

/// The offsets run from zero to the number of vectors and never decrease.
pub open spec fn offsets_ascend(offsets: Seq<u32>, n: nat) -> bool {
    &&& offsets.len() > 0
    &&& offsets[0] == 0
    &&& offsets.last() == n
    &&& forall|c: int, d: int|
        0 <= c <= d < offsets.len() ==> #[trigger] offsets[c] <= #[trigger] offsets[d]
}

/// The cluster that holds a vector.
proof fn lemma_cluster_of(offsets: Seq<u32>, n: nat, v: int) -> (c: int)
    requires
        offsets_ascend(offsets, n),
        0 <= v < n,
    ensures
        0 <= c < offsets.len() - 1,
        offsets[c] <= v < offsets[c + 1],
{
    lemma_cluster_up_to(offsets, n, v, offsets.len() - 1)
}

proof fn lemma_cluster_up_to(offsets: Seq<u32>, n: nat, v: int, end: int) -> (c: int)
    requires
        offsets_ascend(offsets, n),
        0 <= v < n,
        0 <= end < offsets.len(),
        v < offsets[end],
    ensures
        0 <= c < offsets.len() - 1,
        offsets[c] <= v < offsets[c + 1],
    decreases end,
{
    if offsets[end - 1] <= v {
        end - 1
    } else {
        lemma_cluster_up_to(offsets, n, v, end - 1)
    }
}

/// What clusters hold, cluster after cluster.
proof fn lemma_candidates(offsets: Seq<u32>, n: nat, clusters: Seq<int>)
    requires
        offsets_ascend(offsets, n),
        clusters.no_duplicates(),
        forall|i: int| 0 <= i < clusters.len() ==> 0 <= #[trigger] clusters[i] < offsets.len() - 1,
    ensures
        candidates(offsets, clusters).no_duplicates(),
        forall|v: int| #[trigger]
            candidates(offsets, clusters).contains(v) ==> exists|i: int|
                0 <= i < clusters.len() && offsets[#[trigger] clusters[i]] <= v
                    < offsets[clusters[i] + 1],
        forall|i: int, v: int|
            #![trigger clusters[i], candidates(offsets, clusters).contains(v)]
            0 <= i < clusters.len() && offsets[clusters[i]] <= v < offsets[clusters[i] + 1]
                ==> candidates(offsets, clusters).contains(v),
    decreases clusters.len(),
{
    if clusters.len() > 0 {
        let front = clusters.drop_last();
        let last = clusters.last();
        lemma_candidates(offsets, n, front);
        let before = candidates(offsets, front);
        let added = members(offsets, last);
        let all = candidates(offsets, clusters);
        assert forall|i: int, j: int| 0 <= i < j < all.len() implies all[i] != all[j] by {
            if i < before.len() && j >= before.len() {
                assert(before.contains(before[i]));
                let r = choose|r: int|
                    0 <= r < front.len() && offsets[#[trigger] front[r]] <= before[i]
                        < offsets[front[r] + 1];
                assert(clusters[r] != clusters[clusters.len() - 1]);
                if front[r] < last {
                    assert(offsets[front[r] + 1] <= offsets[last]);
                } else {
                    assert(offsets[last + 1] <= offsets[front[r]]);
                }
            }
        }
        assert forall|v: int| #[trigger] all.contains(v) implies exists|i: int|
            0 <= i < clusters.len() && offsets[#[trigger] clusters[i]] <= v < offsets[clusters[i]
                + 1] by {
            let j = choose|j: int| 0 <= j < all.len() && all[j] == v;
            if j < before.len() {
                assert(before[j] == v);
                assert(before.contains(v));
                let r = choose|r: int|
                    0 <= r < front.len() && offsets[#[trigger] front[r]] <= v < offsets[front[r]
                        + 1];
                assert(clusters[r] == front[r]);
            } else {
                assert(clusters[clusters.len() - 1] == last);
            }
        }
        assert forall|i: int, v: int|
            #![trigger clusters[i], all.contains(v)]
            0 <= i < clusters.len() && offsets[clusters[i]] <= v < offsets[clusters[i]
                + 1] implies all.contains(v) by {
            if i < front.len() {
                assert(front[i] == clusters[i]);
                assert(before.contains(v));
                let j = choose|j: int| 0 <= j < before.len() && before[j] == v;
                assert(all[j] == v);
            } else {
                assert(all[before.len() + (v - offsets[last])] == v);
            }
        }
    }
}

/// A search looks at no vector twice, and only at vectors of the index.
pub proof fn no_vector_is_scanned_twice(idx: IndexView, keys: Seq<u32>, nprobe: usize)
    requires
        idx.wf(),
        offsets_ascend(idx.offsets@, idx.vectors@.len()),
        keys.len() == idx.centroids@.len(),
    ensures
        scanned(&idx, keys, nprobe).no_duplicates(),
        forall|v: int| #[trigger]
            scanned(&idx, keys, nprobe).contains(v) ==> 0 <= v < idx.vectors@.len(),
{
    let clusters = probed(keys, nprobe);
    nearest_leaves_none_nearer(key_values(keys), probe_count(nprobe));
    lemma_ranking(key_values(keys));
    lemma_candidates(idx.offsets@, idx.vectors@.len(), clusters);
    assert forall|v: int| #[trigger] scanned(&idx, keys, nprobe).contains(v) implies 0 <= v
        < idx.vectors@.len() by {
        let i = choose|i: int|
            0 <= i < clusters.len() && idx.offsets@[#[trigger] clusters[i]] <= v
                < idx.offsets@[clusters[i] + 1];
        assert(idx.offsets@[clusters[i] + 1] <= idx.offsets@[idx.offsets@.len() - 1]);
    }
}

/// With a probe for every cluster, a search looks at every vector.
pub proof fn probing_all_clusters_scans_every_vector(
    idx: IndexView,
    keys: Seq<u32>,
    nprobe: usize,
    v: int,
)
    requires
        idx.wf(),
        offsets_ascend(idx.offsets@, idx.vectors@.len()),
        keys.len() == idx.centroids@.len(),
        keys.len() <= probe_count(nprobe),
        0 <= v < idx.vectors@.len(),
    ensures
        scanned(&idx, keys, nprobe).contains(v),
{
    let clusters = probed(keys, nprobe);
    let values = key_values(keys);
    nearest_leaves_none_nearer(values, probe_count(nprobe));
    lemma_ranking(values);
    lemma_candidates(idx.offsets@, idx.vectors@.len(), clusters);
    let c = lemma_cluster_of(idx.offsets@, idx.vectors@.len(), v);
    assert(ranking(values).contains((values[c], c)));
    let r = choose|r: int| 0 <= r < ranking(values).len() && ranking(values)[r] == (values[c], c);
    assert(clusters[r] == c);
}

/// A label byte is made up of the bits of its eight vectors, the first of them
/// being worth one and each next one twice as much.
pub proof fn a_byte_holds_eight_labels(labels: Seq<u8>, j: int)
    requires
        0 <= j < labels.len(),
    ensures
        labels[j] == (if label_bit(labels, 8 * j) {
            1int
        } else {
            0
        }) + (if label_bit(labels, 8 * j + 1) {
            2int
        } else {
            0
        }) + (if label_bit(labels, 8 * j + 2) {
            4int
        } else {
            0
        }) + (if label_bit(labels, 8 * j + 3) {
            8int
        } else {
            0
        }) + (if label_bit(labels, 8 * j + 4) {
            16int
        } else {
            0
        }) + (if label_bit(labels, 8 * j + 5) {
            32int
        } else {
            0
        }) + (if label_bit(labels, 8 * j + 6) {
            64int
        } else {
            0
        }) + (if label_bit(labels, 8 * j + 7) {
            128int
        } else {
            0
        }),
{
    let x = labels[j];
    assert(x == (if x & (1u8 << 0usize) != 0 {
        1int
    } else {
        0
    }) + (if x & (1u8 << 1usize) != 0 {
        2int
    } else {
        0
    }) + (if x & (1u8 << 2usize) != 0 {
        4int
    } else {
        0
    }) + (if x & (1u8 << 3usize) != 0 {
        8int
    } else {
        0
    }) + (if x & (1u8 << 4usize) != 0 {
        16int
    } else {
        0
    }) + (if x & (1u8 << 5usize) != 0 {
        32int
    } else {
        0
    }) + (if x & (1u8 << 6usize) != 0 {
        64int
    } else {
        0
    }) + (if x & (1u8 << 7usize) != 0 {
        128int
    } else {
        0
    })) by (bit_vector);
}

/// The frauds among vectors are as many as the positions that hold a vector
/// labelled a fraud.
pub proof fn frauds_are_the_labelled_positions(labels: Seq<u8>, ids: Seq<int>)
    ensures
        fraud_count(labels, ids) == Set::new(
            |r: int| 0 <= r < ids.len() && label_bit(labels, ids[r]),
        ).len(),
    decreases ids.len(),
{
    let mark = |r: int| label_bit(labels, ids[r]);
    assert(marked(mark, ids.len()) =~= Set::new(
        |r: int| 0 <= r < ids.len() && label_bit(labels, ids[r]),
    ));
    if ids.len() == 0 {
        lemma_marked(mark, 0);
    } else {
        let n = (ids.len() - 1) as nat;
        let front = ids.drop_last();
        frauds_are_the_labelled_positions(labels, front);
        lemma_marked(mark, n);
        assert(marked(mark, n) =~= Set::new(
            |r: int| 0 <= r < front.len() && label_bit(labels, front[r]),
        ));
    }
}

/// Frauds add up: those among two runs of vectors are those of the one and
/// those of the other, and a single vector is one exactly if it is labelled so.
pub proof fn frauds_add_up(labels: Seq<u8>, s: Seq<int>, t: Seq<int>, v: int)
    ensures
        fraud_count(labels, s + t) == fraud_count(labels, s) + fraud_count(labels, t),
        fraud_count(labels, seq![v]) == if label_bit(labels, v) {
            1nat
        } else {
            0
        },
    decreases t.len(),
{
    reveal_with_fuel(fraud_count, 2);
    assert(seq![v].drop_last() =~= Seq::empty());
    if t.len() == 0 {
        assert(s + t =~= s);
    } else {
        frauds_add_up(labels, s, t.drop_last(), v);
        assert((s + t).drop_last() =~= s + t.drop_last());
    }
}

/// The number of frauds does not depend on the order of the vectors.
pub proof fn frauds_do_not_depend_on_order(labels: Seq<u8>, s: Seq<int>, t: Seq<int>)
    requires
        s.to_multiset() == t.to_multiset(),
    ensures
        fraud_count(labels, s) == fraud_count(labels, t),
{
    lemma_frauds_filter(labels, s);
    lemma_frauds_filter(labels, t);
}

proof fn lemma_frauds_filter(labels: Seq<u8>, ids: Seq<int>)
    ensures
        fraud_count(labels, ids) == ids.to_multiset().filter(|v: int| label_bit(labels, v)).len(),
    decreases ids.len(),
{
    broadcast use vstd::seq_lib::group_to_multiset_ensures;
    broadcast use vstd::multiset::group_multiset_axioms;

    let f = |v: int| label_bit(labels, v);
    if ids.len() == 0 {
        assert(ids.to_multiset().len() == 0);
        assert(ids.to_multiset().filter(f) =~= Multiset::empty());
    } else {
        let front = ids.drop_last();
        lemma_frauds_filter(labels, front);
        assert(front.push(ids.last()) =~= ids);
        let m = front.to_multiset();
        assert(ids.to_multiset() =~= m.insert(ids.last()));
        if f(ids.last()) {
            assert(ids.to_multiset().filter(f) =~= m.filter(f).insert(ids.last()));
        } else {
            assert(ids.to_multiset().filter(f) =~= m.filter(f));
        }
    }
}

/// Clusters are scanned one after the other, and a cluster from its offset up to
/// the next.
pub proof fn scans_follow_the_clusters(offsets: Seq<u32>, s: Seq<int>, t: Seq<int>, c: int)
    ensures
        candidates(offsets, Seq::empty()) == Seq::<int>::empty(),
        candidates(offsets, s + t) == candidates(offsets, s) + candidates(offsets, t),
        offsets[c] <= offsets[c + 1] ==> candidates(offsets, seq![c]).len() == offsets[c + 1]
            - offsets[c],
        offsets[c] > offsets[c + 1] ==> candidates(offsets, seq![c]).len() == 0,
        forall|i: int|
            0 <= i < candidates(offsets, seq![c]).len() ==> #[trigger] candidates(
                offsets,
                seq![c],
            )[i] == offsets[c] + i,
    decreases t.len(),
{
    reveal_with_fuel(candidates, 2);
    assert(seq![c].drop_last() =~= Seq::empty());
    assert(candidates(offsets, seq![c]) =~= members(offsets, c));
    if t.len() == 0 {
        assert(s + t =~= s);
        assert(candidates(offsets, s) + candidates(offsets, t) =~= candidates(offsets, s));
    } else {
        scans_follow_the_clusters(offsets, s, t.drop_last(), c);
        assert((s + t).drop_last() =~= s + t.drop_last());
        assert(candidates(offsets, s + t) =~= candidates(offsets, s) + candidates(offsets, t));
    }
}

/// The probed clusters: different ones, by key and among equal keys by position,
/// as many as asked for but no more than sixty-four and no more than there are;
/// every cluster that is not probed has a larger key than all of them, or the
/// same key and a later position. What is scanned is these clusters in order.
pub proof fn the_least_keys_are_probed(idx: &IndexView, keys: Seq<u32>, nprobe: usize)
    ensures
        probed(keys, nprobe).len() <= nprobe,
        probed(keys, nprobe).len() <= 64,
        probed(keys, nprobe).len() <= keys.len(),
        probed(keys, nprobe).len() == nprobe || probed(keys, nprobe).len() == 64 || probed(
            keys,
            nprobe,
        ).len() == keys.len(),
        forall|p: int|
            0 <= p < probed(keys, nprobe).len() ==> 0 <= #[trigger] probed(keys, nprobe)[p]
                < keys.len(),
        forall|p: int, q: int|
            0 <= p < q < probed(keys, nprobe).len() ==> {
                let a = #[trigger] probed(keys, nprobe)[p];
                let b = #[trigger] probed(keys, nprobe)[q];
                keys[a] < keys[b] || (keys[a] == keys[b] && a < b)
            },
        forall|p: int, c: int|
            0 <= p < probed(keys, nprobe).len() && 0 <= c < keys.len() && !probed(
                keys,
                nprobe,
            ).contains(c) ==> {
                let a = #[trigger] probed(keys, nprobe)[p];
                (#[trigger] keys[c]) > keys[a] || (keys[c] == keys[a] && c > a)
            },
        scanned(idx, keys, nprobe) == candidates(idx.offsets@, probed(keys, nprobe)),
{
    let values = key_values(keys);
    nearest_are_the_least_distances(values, probe_count(nprobe));
    assert forall|p: int, c: int|
        0 <= p < probed(keys, nprobe).len() && 0 <= c < keys.len() && !probed(
            keys,
            nprobe,
        ).contains(c) implies {
        let a = #[trigger] probed(keys, nprobe)[p];
        (#[trigger] keys[c]) > keys[a] || (keys[c] == keys[a] && c > a)
    } by {
        assert(values[c] == keys[c]);
        let a = nearest(values, probe_count(nprobe))[p];
        assert(values[a] == keys[a]);
    }
}

/// The outcome of a search: of the vectors scanned, the five nearest to the query
/// (or all, if they are fewer), among equally near ones those scanned earlier,
/// are looked at, and those labelled frauds are counted.
pub proof fn the_five_nearest_are_counted(
    idx: &IndexView,
    query: Seq<i16>,
    keys: Seq<u32>,
    nprobe: usize,
) -> (nearest_five: Seq<int>)
    ensures
        ({
            let scan = scanned(idx, keys, nprobe);
            &&& nearest_five.len() <= 5
            &&& nearest_five.len() <= scan.len()
            &&& nearest_five.len() == 5 || nearest_five.len() == scan.len()
            &&& forall|r: int|
                0 <= r < nearest_five.len() ==> 0 <= #[trigger] nearest_five[r] < scan.len()
            &&& forall|r: int, s: int|
                0 <= r < s < nearest_five.len() ==> {
                    let i = #[trigger] nearest_five[r];
                    let j = #[trigger] nearest_five[s];
                    let di = l2sq(query, idx.vectors@[scan[i]]@);
                    let dj = l2sq(query, idx.vectors@[scan[j]]@);
                    di < dj || (di == dj && i < j)
                }
            &&& forall|r: int, j: int|
                0 <= r < nearest_five.len() && 0 <= j < scan.len() && !nearest_five.contains(j)
                    ==> {
                    let i = #[trigger] nearest_five[r];
                    let di = l2sq(query, idx.vectors@[scan[i]]@);
                    let dj = l2sq(query, idx.vectors@[#[trigger] scan[j]]@);
                    di < dj || (di == dj && i < j)
                }
            &&& votes(idx, query, keys, nprobe) == Set::new(
                |r: int|
                    0 <= r < nearest_five.len() && label_bit(idx.labels@, scan[nearest_five[r]]),
            ).len()
        }),
{
    let scan = scanned(idx, keys, nprobe);
    let ds = distances_from(query, idx.vectors@, scan);
    let order = nearest(ds, 5);
    nearest_are_the_least_distances(ds, 5);
    let ids = neighbours(query, idx.vectors@, scan);
    frauds_are_the_labelled_positions(idx.labels@, ids);
    assert(ids =~= Seq::new(order.len(), |r: int| scan[order[r]]));
    assert(Set::new(|r: int| 0 <= r < ids.len() && label_bit(idx.labels@, ids[r])) =~= Set::new(
        |r: int| 0 <= r < order.len() && label_bit(idx.labels@, scan[order[r]]),
    ));
    assert forall|r: int, j: int|
        0 <= r < order.len() && 0 <= j < scan.len() && !order.contains(j) implies {
        let i = #[trigger] order[r];
        let di = l2sq(query, idx.vectors@[scan[i]]@);
        let dj = l2sq(query, idx.vectors@[#[trigger] scan[j]]@);
        di < dj || (di == dj && i < j)
    } by {
        assert(ds[j] == l2sq(query, idx.vectors@[scan[j]]@));
        assert(ds[order[r]] == l2sq(query, idx.vectors@[scan[order[r]]]@));
    }
    order
}

/// A search can be made exactly if there is a key for every centroid, at least
/// one cluster and no more than there are is to be probed, counting no more than
/// sixty-four, and each one probed has its centroid within reach and its range,
/// unless it is empty, within the vectors.
pub proof fn where_a_search_can_be_made(idx: &IndexView, keys: Seq<u32>, nprobe: usize)
    ensures
        searchable(idx, keys, nprobe) <==> {
            &&& keys.len() == idx.centroids@.len()
            &&& nprobe >= 1
            &&& nprobe <= keys.len() || 64 <= keys.len()
            &&& forall|p: int|
                0 <= p < probed(keys, nprobe).len() ==> {
                    let c = #[trigger] probed(keys, nprobe)[p];
                    &&& keys[c] < 0x7F80_0000
                    &&& idx.offsets@[c] >= idx.offsets@[c + 1] || idx.offsets@[c + 1]
                        <= idx.vectors@.len()
                }
        },
{
    the_least_keys_are_probed(idx, keys, nprobe);
    if searchable(idx, keys, nprobe) {
        assert forall|p: int| 0 <= p < probed(keys, nprobe).len() implies {
            let c = #[trigger] probed(keys, nprobe)[p];
            &&& keys[c] < 0x7F80_0000
            &&& idx.offsets@[c] >= idx.offsets@[c + 1] || idx.offsets@[c + 1] <= idx.vectors@.len()
        } by {
            assert(cluster_ok(idx, keys, probed(keys, nprobe)[p]));
        }
    }
}

/// What the probe slots hold, in terms of the keys: different centroids within
/// reach with their keys, by key and among equal keys by position; then slots
/// with the key of an infinite distance. A centroid within reach has its slot
/// unless all slots hold others that come before it.
pub proof fn probe_slots_hold_the_least_keys(
    slots: Seq<(u64, u32)>,
    np: nat,
    keys: Seq<u32>,
) -> (kept: nat)
    requires
        keys.len() <= u32::MAX,
        holds_nearest(slots, np, FAR_KEY as u64, key_values(keys), positions(keys.len())),
    ensures
        kept <= np,
        forall|r: int|
            0 <= r < kept ==> {
                let slot = #[trigger] slots[r];
                &&& slot.1 < keys.len()
                &&& slot.0 == keys[slot.1 as int]
                &&& slot.0 < 0x7F80_0000
            },
        forall|r: int| kept <= r < np ==> (#[trigger] slots[r]) == (0x7F80_0000u64, u32::MAX),
        forall|r: int, s: int|
            0 <= r < s < kept ==> {
                let a = #[trigger] slots[r];
                let b = #[trigger] slots[s];
                a.0 < b.0 || (a.0 == b.0 && a.1 < b.1)
            },
        forall|c: int|
            0 <= c < keys.len() && (#[trigger] keys[c]) < 0x7F80_0000 && (forall|r: int|
                0 <= r < kept ==> (#[trigger] slots[r]).1 != c) ==> kept == np && forall|r: int|
                0 <= r < kept ==> {
                    let a = #[trigger] slots[r];
                    a.0 < keys[c] || (a.0 == keys[c] && a.1 < c)
                },
{
    let values = key_values(keys);
    let ids = positions(keys.len());
    let holders = ranked_slots_hold_the_least_distances(slots, np, FAR_KEY as u64, values, ids);
    let kept = holders.len();
    assert forall|r: int| 0 <= r < kept implies (#[trigger] slots[r]).1 == holders[r] && slots[r].0
        == keys[holders[r]] && 0 <= holders[r] < keys.len() && slots[r].0 < 0x7F80_0000 by {
        let i = holders[r];
        assert(ids[i] == i as u32);
    }
    assert forall|r: int, s: int| 0 <= r < s < kept implies {
        let a = #[trigger] slots[r];
        let b = #[trigger] slots[s];
        a.0 < b.0 || (a.0 == b.0 && a.1 < b.1)
    } by {
        let a = holders[r];
        let b = holders[s];
        assert(values[a] < values[b] || (values[a] == values[b] && a < b));
    }
    assert forall|c: int|
        0 <= c < keys.len() && (#[trigger] keys[c]) < 0x7F80_0000 && (forall|r: int|
            0 <= r < kept ==> (#[trigger] slots[r]).1 != c) implies kept == np && forall|r: int|
        0 <= r < kept ==> {
            let a = #[trigger] slots[r];
            a.0 < keys[c] || (a.0 == keys[c] && a.1 < c)
        } by {
        assert(values[c] == keys[c]);
        if holders.contains(c) {
            let r = choose|r: int| 0 <= r < holders.len() && holders[r] == c;
            assert(slots[r].1 == c);
        }
        assert forall|r: int| 0 <= r < kept implies {
            let a = #[trigger] slots[r];
            a.0 < keys[c] || (a.0 == keys[c] && a.1 < c)
        } by {
            let a = holders[r];
            assert(values[c] > values[a] || (values[c] == values[a] && c > a));
        }
    }
    kept
}

} // verus!

//! Building an index: choosing the first centroids, assigning vectors to
//! clusters, and laying the clusters out one after the other.

use vstd::multiset::Multiset;
use vstd::prelude::*;

use crate::distance::Vec14I;
use crate::index::{
    encode_index, header_error, images_are_written_in_order, is_image, is_whole, new_header,
    reading_gives_back_what_was_written, written_images_are_accepted, IndexView,
};
use crate::marks::{lemma_marked, marked};
use crate::ranking::{lemma_ranking, ranking};
use crate::search::{
    a_byte_holds_eight_labels, cluster_ok, key_values, label_bit, offsets_ascend, positions,
    probe_count, probed, searchable, FAR_KEY,
};
use crate::text::same_text;
use crate::words::{lane_at, word_at, Vec14Bits};

verus! {

/// The seed from which the first centroids are drawn.
pub const SAMPLE_SEED: u64 = 42;

/// Whether a reference record's label says that it is a fraud.
pub fn is_fraud_label(label: &str) -> (fraud: bool)
    ensures
        fraud == (label@ == "fraud"@),
{
    same_text(label, "fraud")
}

/// The items that a seed draws, in the order in which they are drawn.
pub uninterp spec fn seeded_choice(items: Seq<u32>, amount: usize, seed: u64) -> Seq<u32>;

/// `rand`'s `SliceRandom::choose_multiple`, with the generator that
/// `StdRng::seed_from_u64` makes: what is drawn depends on the items, the
/// amount and the seed alone; it is as many of the items as asked for, or all if
/// they are fewer, none of them taken twice.
#[verifier::external_body]
fn choose_seeded(items: &[u32], amount: usize, seed: u64) -> (chosen: Vec<u32>)
    requires
        items@.len() <= u32::MAX,
    ensures
        chosen@ == seeded_choice(items@, amount, seed),
        chosen@.len() == if amount < items@.len() {
            amount as nat
        } else {
            items@.len()
        },
        chosen@.to_multiset().subset_of(items@.to_multiset()),
{
    let mut rng = <rand::rngs::StdRng as rand::SeedableRng>::seed_from_u64(seed);
    rand::seq::SliceRandom::choose_multiple(items, &mut rng, amount).copied().collect()
}

/// The numbers from zero up to `n`.
fn count_up(n: u32) -> (v: Vec<u32>)
    ensures
        v@ == positions(n as nat),
{
    let mut v: Vec<u32> = Vec::new();
    for i in 0..n
        invariant
            v@ == positions(i as nat),
    {
        v.push(i);
        assert(v@ =~= positions((i + 1) as nat));
    }
    v
}

/// Draws the positions of the first centroids from `n` vectors: `amount`
/// different ones, or all if they are fewer.
pub fn sample_positions(n: u32, amount: usize, seed: u64) -> (chosen: Vec<u32>)
    ensures
        chosen@ == seeded_choice(positions(n as nat), amount, seed),
        chosen@.len() == if amount < n {
            amount as nat
        } else {
            n as nat
        },
        forall|i: int| 0 <= i < chosen@.len() ==> #[trigger] chosen@[i] < n,
        chosen@.no_duplicates(),
{
    let all = count_up(n);
    let chosen = choose_seeded(all.as_slice(), amount, seed);
    proof {
        broadcast use vstd::seq_lib::group_to_multiset_ensures;

        assert(all@.no_duplicates());
        all@.lemma_multiset_has_no_duplicates();
        assert forall|i: int| 0 <= i < chosen@.len() implies #[trigger] chosen@[i] < n by {
            assert(chosen@.contains(chosen@[i]));
            assert(chosen@.to_multiset().count(chosen@[i]) > 0);
            assert(all@.to_multiset().count(chosen@[i]) > 0);
            assert(all@.contains(chosen@[i]));
        }
        assert forall|x: u32| chosen@.to_multiset().contains(x) implies chosen@.to_multiset().count(
            x,
        ) == 1 by {
            assert(all@.to_multiset().count(x) >= chosen@.to_multiset().count(x));
            assert(all@.to_multiset().contains(x));
        }
        chosen@.lemma_multiset_has_no_duplicates_conv();
    }
    chosen
}

/// Some centroid is within reach.
pub open spec fn within_reach(keys: Seq<u32>) -> bool {
    exists|c: int| 0 <= c < keys.len() && #[trigger] keys[c] < FAR_KEY
}

/// Centroid `best` is the first of those with the least key.
pub open spec fn is_closest(keys: Seq<u32>, best: int) -> bool {
    &&& 0 <= best < keys.len()
    &&& forall|c: int| 0 <= c < keys.len() ==> keys[best] <= #[trigger] keys[c]
    &&& forall|c: int| 0 <= c < best ==> keys[best] < #[trigger] keys[c]
}

/// The nearest centroid by distance keys: the first of those with the least
/// key, and the very first centroid if none is within reach.
pub fn nearest_centroid(keys: &[u32]) -> (best_c: u32)
    requires
        keys@.len() <= u32::MAX,
    ensures
        within_reach(keys@) ==> is_closest(keys@, best_c as int),
        !within_reach(keys@) ==> best_c == 0,
{
    let mut best_c: u32 = 0;
    let mut best_d: u32 = FAR_KEY;
    for c in 0..keys.len()
        invariant
            keys@.len() <= u32::MAX,
            best_d <= FAR_KEY,
            best_d == FAR_KEY ==> best_c == 0,
            forall|i: int| 0 <= i < c ==> best_d <= keys@[i],
            best_d < FAR_KEY ==> best_c < c && keys@[best_c as int] == best_d,
            best_d < FAR_KEY ==> forall|i: int| 0 <= i < best_c ==> best_d < keys@[i],
            best_d < FAR_KEY <==> exists|i: int| 0 <= i < c && #[trigger] keys@[i] < FAR_KEY,
    {
        let d = keys[c];
        assert(keys@[c as int] == d);
        if d < best_d {
            best_d = d;
            best_c = c as u32;
        }
    }
    best_c
}

/// The number of entries equal to `c`.
pub open spec fn count_eq(a: Seq<u32>, c: int) -> nat
    decreases a.len(),
{
    if a.len() == 0 {
        0
    } else {
        count_eq(a.drop_last(), c) + if a.last() == c {
            1nat
        } else {
            0
        }
    }
}

/// The number of entries less than `c`.
pub open spec fn count_below(a: Seq<u32>, c: int) -> nat
    decreases a.len(),
{
    if a.len() == 0 {
        0
    } else {
        count_below(a.drop_last(), c) + if a.last() < c {
            1nat
        } else {
            0
        }
    }
}

proof fn lemma_count_eq_bound(a: Seq<u32>, c: int)
    ensures
        count_eq(a, c) <= a.len(),
    decreases a.len(),
{
    if a.len() > 0 {
        lemma_count_eq_bound(a.drop_last(), c);
    }
}

proof fn lemma_count_below(a: Seq<u32>, c: int)
    ensures
        count_below(a, c) <= a.len(),
        count_below(a, c + 1) == count_below(a, c) + count_eq(a, c),
        c <= 0 ==> count_below(a, c) == 0,
        (forall|i: int| 0 <= i < a.len() ==> a[i] < c) ==> count_below(a, c) == a.len(),
    decreases a.len(),
{
    if a.len() > 0 {
        lemma_count_below(a.drop_last(), c);
    }
}

/// Where each of `k` clusters starts, and where the last one ends: the number of
/// vectors in the clusters before.
pub open spec fn cluster_starts(assignments: Seq<u32>, k: nat) -> Seq<u32> {
    Seq::new(k + 1, |c: int| count_below(assignments, c) as u32)
}

/// The sizes of `k` clusters.
pub fn cluster_counts(assignments: &[u32], k: usize) -> (counts: Vec<u64>)
    requires
        forall|i: int| 0 <= i < assignments@.len() ==> #[trigger] assignments@[i] < k,
    ensures
        counts@.len() == k,
        forall|c: int| 0 <= c < k ==> #[trigger] counts@[c] == count_eq(assignments@, c),
{
    let mut counts: Vec<u64> = Vec::new();
    counts.resize(k, 0);
    for i in 0..assignments.len()
        invariant
            forall|j: int| 0 <= j < assignments@.len() ==> #[trigger] assignments@[j] < k,
            counts@.len() == k,
            forall|c: int|
                0 <= c < k ==> #[trigger] counts@[c] == count_eq(assignments@.take(i as int), c),
    {
        let a: usize = assignments[i] as usize;
        proof {
            lemma_count_eq_bound(assignments@.take(i as int), a as int);
            assert(assignments.len() == assignments@.len());
            assert(assignments@.take(i + 1).drop_last() =~= assignments@.take(i as int));
        }
        counts[a] = counts[a] + 1;
    }
    assert(assignments@.take(assignments@.len() as int) =~= assignments@);
    counts
}

/// Where the clusters start when the vectors stand in the order of their
/// clusters.
pub fn cluster_offsets(assignments: &[u32], k: usize) -> (offsets: Vec<u32>)
    requires
        k < usize::MAX,
        assignments@.len() <= u32::MAX,
        forall|i: int| 0 <= i < assignments@.len() ==> #[trigger] assignments@[i] < k,
    ensures
        offsets@ == cluster_starts(assignments@, k as nat),
{
    let mut offsets: Vec<u32> = Vec::new();
    offsets.resize(k + 1, 0);
    for i in 0..assignments.len()
        invariant
            k < usize::MAX,
            assignments@.len() <= u32::MAX,
            forall|j: int| 0 <= j < assignments@.len() ==> #[trigger] assignments@[j] < k,
            offsets@.len() == k + 1,
            offsets@[0] == 0,
            forall|c: int|
                1 <= c <= k ==> #[trigger] offsets@[c] == count_eq(
                    assignments@.take(i as int),
                    c - 1,
                ),
    {
        let a: usize = assignments[i] as usize;
        proof {
            lemma_count_eq_bound(assignments@.take(i as int), a as int);
            assert(assignments@.take(i + 1).drop_last() =~= assignments@.take(i as int));
        }
        offsets[a + 1] = offsets[a + 1] + 1;
    }
    assert(assignments@.take(assignments@.len() as int) =~= assignments@);
    proof {
        lemma_count_below(assignments@, 0);
    }
    let mut i: usize = 1;
    while i <= k
        invariant
            k < usize::MAX,
            assignments@.len() <= u32::MAX,
            1 <= i <= k + 1,
            offsets@.len() == k + 1,
            forall|c: int| 0 <= c < i ==> #[trigger] offsets@[c] == count_below(assignments@, c),
            forall|c: int| i <= c <= k ==> #[trigger] offsets@[c] == count_eq(assignments@, c - 1),
        decreases k + 1 - i,
    {
        proof {
            lemma_count_below(assignments@, i - 1);
            lemma_count_below(assignments@, i as int);
        }
        offsets[i] = offsets[i] + offsets[i - 1];
        i += 1;
    }
    assert(offsets@ =~= cluster_starts(assignments@, k as nat));
    offsets
}

/// The cluster of a vector.
fn cluster_of(assignments: &[u32], i: u32) -> (c: u32)
    requires
        i < assignments@.len(),
    ensures
        c == assignments@[i as int],
{
    assignments[i as usize]
}

/// Items laid out in an order.
pub open spec fn reordered<T>(items: Seq<T>, order: Seq<u32>) -> Seq<T> {
    Seq::new(order.len(), |i: int| items[order[i] as int])
}

/// The entries never decrease.
pub open spec fn never_decreases(a: Seq<u32>) -> bool {
    forall|i: int, j: int| 0 <= i <= j < a.len() ==> #[trigger] a[i] <= #[trigger] a[j]
}

/// `rayon`'s `ParallelSliceMut::par_sort_unstable_by_key`, with a vector's
/// cluster as its key: the same vectors, in the order of their clusters. The
/// order within a cluster is left open.
#[verifier::external_body]
fn sort_by_cluster(order: &mut Vec<u32>, assignments: &[u32])
    requires
        forall|i: int| 0 <= i < old(order)@.len() ==> #[trigger] old(order)@[i] < assignments@.len(),
    ensures
        final(order)@.to_multiset() == old(order)@.to_multiset(),
        never_decreases(reordered(assignments@, final(order)@)),
{
    rayon::slice::ParallelSliceMut::par_sort_unstable_by_key(
        order.as_mut_slice(),
        |i: &u32| cluster_of(assignments, *i),
    );
}

/// Every vector once, in the order of the clusters.
pub open spec fn is_cluster_order(order: Seq<u32>, assignments: Seq<u32>) -> bool {
    &&& order.to_multiset() == positions(assignments.len()).to_multiset()
    &&& never_decreases(reordered(assignments, order))
}

/// The vectors in the order of their clusters: every vector once, those of a
/// cluster side by side, in some order.
pub fn cluster_order(assignments: &[u32]) -> (order: Vec<u32>)
    requires
        assignments@.len() <= u32::MAX,
    ensures
        is_cluster_order(order@, assignments@),
{
    let mut order = count_up(assignments.len() as u32);
    sort_by_cluster(&mut order, assignments);
    order
}

/// Lays items out in an order.
pub fn reorder<T: Copy>(items: &[T], order: &[u32]) -> (r: Vec<T>)
    requires
        forall|i: int| 0 <= i < order@.len() ==> #[trigger] order@[i] < items@.len(),
    ensures
        r@ == reordered(items@, order@),
{
    let mut r: Vec<T> = Vec::new();
    for i in 0..order.len()
        invariant
            forall|j: int| 0 <= j < order@.len() ==> #[trigger] order@[j] < items@.len(),
            r@.len() == i,
            forall|j: int| 0 <= j < i ==> #[trigger] r@[j] == items@[order@[j] as int],
    {
        r.push(items[order[i] as usize]);
    }
    assert(r@ =~= reordered(items@, order@));
    r
}

/// A bit for every label, eight to a byte from the lowest bit up; the bits that
/// are left over in the last byte are clear.
pub open spec fn is_bitmap(bitmap: Seq<u8>, labels: Seq<bool>) -> bool {
    &&& bitmap.len() == (labels.len() + 7) / 8
    &&& forall|i: int|
        0 <= i < 8 * bitmap.len() ==> #[trigger] label_bit(bitmap, i) == (i < labels.len()
            && labels[i])
}

proof fn lemma_set_bit(byte: u8, set: usize, other: usize)
    requires
        set < 8,
        other < 8,
    ensures
        ((byte | (1u8 << set)) & (1u8 << other) != 0) == (set == other || byte & (1u8 << other)
            != 0),
{
    assert(((byte | (1u8 << set)) & (1u8 << other) != 0) == (set == other || byte & (1u8 << other)
        != 0)) by (bit_vector)
        requires
            set < 8,
            other < 8,
    ;
}

proof fn lemma_clear_byte(bit: usize)
    ensures
        0u8 & (1u8 << bit) == 0,
{
    assert(0u8 & (1u8 << bit) == 0) by (bit_vector);
}

/// The bitmap of labels.
pub fn label_bitmap(labels: &[bool]) -> (bitmap: Vec<u8>)
    requires
        labels@.len() <= usize::MAX - 7,
    ensures
        is_bitmap(bitmap@, labels@),
{
    let mut bitmap: Vec<u8> = Vec::new();
    bitmap.resize((labels.len() + 7) / 8, 0);
    proof {
        assert forall|j: int| 0 <= j < 8 * bitmap@.len() implies !(#[trigger] label_bit(
            bitmap@,
            j,
        )) by {
            lemma_clear_byte((j % 8) as usize);
        }
    }
    for i in 0..labels.len()
        invariant
            bitmap@.len() == (labels@.len() + 7) / 8,
            forall|j: int|
                0 <= j < 8 * bitmap@.len() ==> #[trigger] label_bit(bitmap@, j) == (j < i
                    && labels@[j]),
    {
        if labels[i] {
            let ghost before = bitmap@;
            bitmap[i / 8] = bitmap[i / 8] | (1u8 << (i % 8));
            proof {
                assert forall|j: int| 0 <= j < 8 * bitmap@.len() implies #[trigger] label_bit(
                    bitmap@,
                    j,
                ) == (j < i + 1 && labels@[j]) by {
                    assert(label_bit(before, j) == (j < i && labels@[j]));
                    if j / 8 == i as int / 8 {
                        lemma_set_bit(before[j / 8], i % 8, (j % 8) as usize);
                    }
                }
            }
        } else {
            assert forall|j: int| 0 <= j < 8 * bitmap@.len() implies #[trigger] label_bit(
                bitmap@,
                j,
            ) == (j < i + 1 && labels@[j]) by {}
        }
    }
    bitmap
}

proof fn lemma_order_in_range(order: Seq<u32>, n: nat)
    requires
        n <= u32::MAX,
        order.to_multiset() == positions(n).to_multiset(),
    ensures
        order.len() == n,
        forall|i: int| 0 <= i < order.len() ==> #[trigger] order[i] < n,
{
    broadcast use vstd::seq_lib::group_to_multiset_ensures;

    assert(order.len() == order.to_multiset().len());
    assert forall|i: int| 0 <= i < order.len() implies #[trigger] order[i] < n by {
        assert(order.contains(order[i]));
        assert(order.to_multiset().count(order[i]) > 0);
        assert(positions(n).contains(order[i]));
    }
}

/// The bytes are the image of an index whose vectors and labels stand in the
/// given order.
pub open spec fn is_built(
    bytes: Seq<u8>,
    n_centroids: u32,
    centroids: Seq<Vec14Bits>,
    assignments: Seq<u32>,
    vectors: Seq<Vec14I>,
    labels: Seq<bool>,
    order: Seq<u32>,
    bitmap: Seq<u8>,
) -> bool {
    &&& is_cluster_order(order, assignments)
    &&& is_bitmap(bitmap, reordered(labels, order))
    &&& is_image(
        bytes,
        new_header(n_centroids, vectors.len() as u32),
        centroids,
        cluster_starts(assignments, n_centroids as nat),
        reordered(vectors, order),
        bitmap,
    )
}

/// Builds the image of an index of vectors, with their labels, that have been
/// assigned to `n_centroids` clusters.
pub fn build_index(
    n_centroids: u32,
    centroids: &[Vec14Bits],
    assignments: &[u32],
    vectors: &[Vec14I],
    labels: &[bool],
) -> (bytes: Vec<u8>)
    requires
        n_centroids < usize::MAX,
        vectors@.len() <= u32::MAX,
        vectors@.len() <= usize::MAX - 7,
        assignments@.len() == vectors@.len(),
        labels@.len() == vectors@.len(),
        forall|i: int| 0 <= i < assignments@.len() ==> #[trigger] assignments@[i] < n_centroids,
    ensures
        exists|order: Seq<u32>, bitmap: Seq<u8>|
            is_built(
                bytes@,
                n_centroids,
                centroids@,
                assignments@,
                vectors@,
                labels@,
                order,
                bitmap,
            ),
{
    let order = cluster_order(assignments);
    proof {
        lemma_order_in_range(order@, assignments@.len());
    }
    let offsets = cluster_offsets(assignments, n_centroids as usize);
    let q_vectors = reorder(vectors, order.as_slice());
    let sorted_labels = reorder(labels, order.as_slice());
    let bitmap = label_bitmap(sorted_labels.as_slice());
    let bytes = encode_index(
        n_centroids,
        centroids,
        offsets.as_slice(),
        q_vectors.as_slice(),
        bitmap.as_slice(),
    );
    assert(is_built(
        bytes@,
        n_centroids,
        centroids@,
        assignments@,
        vectors@,
        labels@,
        order@,
        bitmap@,
    ));
    bytes
}

/// The centroid that a vector is assigned to, where one is within reach, is the
/// one that a search for that vector probes first.
pub proof fn assignment_is_the_first_probe(keys: Seq<u32>, best: int)
    requires
        within_reach(keys),
        is_closest(keys, best),
    ensures
        keys[best] < FAR_KEY,
        probed(keys, 1) == seq![best],
{
    let values = key_values(keys);
    lemma_ranking(values);
    let first = ranking(values)[0];
    assert(ranking(values).contains((values[best], best)));
    let r = choose|r: int|
        0 <= r < ranking(values).len() && ranking(values)[r] == (values[best], best);
    assert(keys[first.1] >= keys[best]);
    assert(probed(keys, 1) =~= seq![best]);
}

/// The clusters follow one another without a gap, from the first vector to the
/// last.
pub proof fn clusters_cover_all_vectors(assignments: Seq<u32>, k: nat)
    requires
        assignments.len() <= u32::MAX,
        forall|i: int| 0 <= i < assignments.len() ==> #[trigger] assignments[i] < k,
    ensures
        offsets_ascend(cluster_starts(assignments, k), assignments.len()),
{
    let starts = cluster_starts(assignments, k);
    lemma_count_below(assignments, 0);
    lemma_count_below(assignments, k as int);
    assert forall|c: int, d: int| 0 <= c <= d < starts.len() implies #[trigger] starts[c]
        <= #[trigger] starts[d] by {
        lemma_count_monotone(assignments, c, d);
        lemma_count_below(assignments, c);
        lemma_count_below(assignments, d);
    }
}

proof fn lemma_count_monotone(a: Seq<u32>, c: int, d: int)
    requires
        c <= d,
    ensures
        count_below(a, c) <= count_below(a, d),
    decreases a.len(),
{
    if a.len() > 0 {
        lemma_count_monotone(a.drop_last(), c, d);
    }
}

/// Counting along an order depends only on which vectors it holds.
proof fn lemma_count_along(a: Seq<u32>, ids: Seq<u32>, c: int)
    ensures
        count_below(reordered(a, ids), c) == ids.to_multiset().filter(
            |i: u32| a[i as int] < c,
        ).len(),
    decreases ids.len(),
{
    broadcast use vstd::seq_lib::group_to_multiset_ensures;
    broadcast use vstd::multiset::group_multiset_axioms;

    let f = |i: u32| a[i as int] < c;
    if ids.len() == 0 {
        assert(ids.to_multiset().len() == 0);
        assert(ids.to_multiset().filter(f) =~= Multiset::empty());
    } else {
        let front = ids.drop_last();
        lemma_count_along(a, front, c);
        assert(reordered(a, ids).drop_last() =~= reordered(a, front));
        assert(front.push(ids.last()) =~= ids);
        let m = front.to_multiset();
        assert(ids.to_multiset() =~= m.insert(ids.last()));
        if f(ids.last()) {
            assert(ids.to_multiset().filter(f) =~= m.filter(f).insert(ids.last()));
        } else {
            assert(ids.to_multiset().filter(f) =~= m.filter(f));
        }
    }
}

/// In a sequence that never decreases, the entries below `c` come first.
proof fn lemma_count_sorted(s: Seq<u32>, c: int, i: int)
    requires
        never_decreases(s),
        0 <= i < s.len(),
    ensures
        i < count_below(s, c) <==> s[i] < c,
    decreases s.len(),
{
    let front = s.drop_last();
    assert(never_decreases(front));
    lemma_count_below(front, c);
    if s.last() < c {
        assert forall|j: int| 0 <= j < front.len() implies front[j] < c by {
            assert(s[j] <= s[s.len() - 1]);
        }
        assert(s[i] <= s[s.len() - 1]);
    } else if i < front.len() {
        lemma_count_sorted(front, c, i);
    }
}

/// A vector lies between the start of a cluster and the start of the next one
/// exactly where it has been assigned to that cluster.
pub proof fn clusters_hold_their_vectors(
    assignments: Seq<u32>,
    k: nat,
    order: Seq<u32>,
    c: int,
    pos: int,
)
    requires
        assignments.len() <= u32::MAX,
        is_cluster_order(order, assignments),
        0 <= c < k,
        0 <= pos < assignments.len(),
    ensures
        cluster_starts(assignments, k)[c] <= pos < cluster_starts(assignments, k)[c + 1]
            <==> assignments[order[pos] as int] == c,
{
    let n = assignments.len();
    lemma_order_in_range(order, n);
    let along = reordered(assignments, order);
    assert(reordered(assignments, positions(n)) =~= assignments);
    lemma_count_along(assignments, order, c);
    lemma_count_along(assignments, positions(n), c);
    lemma_count_along(assignments, order, c + 1);
    lemma_count_along(assignments, positions(n), c + 1);
    lemma_count_sorted(along, c, pos);
    lemma_count_sorted(along, c + 1, pos);
    lemma_count_below(assignments, c);
    lemma_count_below(assignments, c + 1);
}

/// A built index can be searched from every query that has all its centroids
/// within reach, with up to as many probes as there are clusters.
pub proof fn built_indexes_are_searchable(
    idx: IndexView,
    assignments: Seq<u32>,
    k: nat,
    keys: Seq<u32>,
    nprobe: usize,
)
    requires
        idx.wf(),
        idx.centroids@.len() == k,
        idx.vectors@.len() == assignments.len(),
        idx.offsets@ == cluster_starts(assignments, k),
        forall|i: int| 0 <= i < assignments.len() ==> #[trigger] assignments[i] < k,
        keys.len() == k,
        forall|c: int| 0 <= c < keys.len() ==> #[trigger] keys[c] < FAR_KEY,
        0 < nprobe,
        probe_count(nprobe) <= k,
    ensures
        searchable(&idx, keys, nprobe),
{
    clusters_cover_all_vectors(assignments, k);
    lemma_ranking(key_values(keys));
    assert forall|p: int| 0 <= p < probe_count(nprobe) implies cluster_ok(
        &idx,
        keys,
        #[trigger] probed(keys, nprobe)[p],
    ) by {
        let c = probed(keys, nprobe)[p];
        assert(c == ranking(key_values(keys))[p].1);
        assert(idx.offsets@[c + 1] <= idx.offsets@[k as int]);
    }
}

/// A cluster's range is as long as the cluster is large.
pub proof fn clusters_are_as_large_as_counted(assignments: Seq<u32>, k: nat, c: int)
    requires
        assignments.len() <= u32::MAX,
        0 <= c < k,
    ensures
        cluster_starts(assignments, k)[c + 1] - cluster_starts(assignments, k)[c] == count_eq(
            assignments,
            c,
        ),
{
    lemma_count_below(assignments, c);
    lemma_count_below(assignments, c + 1);
}

/// Reading a built index gives its centroids, the starts of its clusters, and at
/// each position the vector and the label that the order put there.
pub proof fn reading_a_built_index(
    bytes: Seq<u8>,
    n_centroids: u32,
    centroids: Seq<Vec14Bits>,
    assignments: Seq<u32>,
    vectors: Seq<Vec14I>,
    labels: Seq<bool>,
    order: Seq<u32>,
    bitmap: Seq<u8>,
    view: IndexView,
)
    requires
        centroids.len() == n_centroids,
        vectors.len() <= u32::MAX,
        assignments.len() == vectors.len(),
        labels.len() == vectors.len(),
        is_built(
            bytes,
            n_centroids,
            centroids,
            assignments,
            vectors,
            labels,
            order,
            bitmap,
        ),
        view.reads(bytes),
    ensures
        header_error(bytes) is None,
        is_whole(bytes),
        view.centroids@ == centroids,
        view.offsets@ == cluster_starts(assignments, n_centroids as nat),
        view.vectors@.len() == vectors.len(),
        forall|pos: int|
            0 <= pos < vectors.len() ==> #[trigger] view.vectors@[pos]
                == vectors[order[pos] as int],
        forall|pos: int|
            0 <= pos < vectors.len() ==> #[trigger] label_bit(view.labels@, pos)
                == labels[order[pos] as int],
{
    lemma_order_in_range(order, assignments.len());
    let starts = cluster_starts(assignments, n_centroids as nat);
    let sorted = reordered(vectors, order);
    written_images_are_accepted(bytes, n_centroids, centroids, starts, sorted, bitmap);
    reading_gives_back_what_was_written(
        bytes,
        n_centroids,
        centroids,
        starts,
        sorted,
        bitmap,
        view,
    );
}

/// A cluster is as large as the number of vectors assigned to it, and starts
/// behind as many vectors as are assigned to the clusters before it.
pub proof fn clusters_are_counted_by_assignment(assignments: Seq<u32>, k: nat, c: int)
    ensures
        count_eq(assignments, c) == Set::new(
            |i: int| 0 <= i < assignments.len() && assignments[i] == c,
        ).len(),
        count_below(assignments, c) == Set::new(
            |i: int| 0 <= i < assignments.len() && assignments[i] < c,
        ).len(),
        cluster_starts(assignments, k).len() == k + 1,
        0 <= c <= k && assignments.len() <= u32::MAX ==> cluster_starts(assignments, k)[c]
            == Set::new(|i: int| 0 <= i < assignments.len() && assignments[i] < c).len(),
    decreases assignments.len(),
{
    let same = |i: int| assignments[i] == c;
    let less = |i: int| assignments[i] < c;
    let len = assignments.len();
    assert(marked(same, len) =~= Set::new(|i: int| 0 <= i < len && assignments[i] == c));
    assert(marked(less, len) =~= Set::new(|i: int| 0 <= i < len && assignments[i] < c));
    if len == 0 {
        lemma_marked(same, 0);
        lemma_marked(less, 0);
    } else {
        let n = (len - 1) as nat;
        let front = assignments.drop_last();
        clusters_are_counted_by_assignment(front, k, c);
        lemma_marked(same, n);
        lemma_marked(less, n);
        assert(marked(same, n) =~= Set::new(|i: int| 0 <= i < front.len() && front[i] == c));
        assert(marked(less, n) =~= Set::new(|i: int| 0 <= i < front.len() && front[i] < c));
    }
    lemma_count_below(assignments, c);
}

/// An order of the clusters holds every vector exactly once, and never goes back
/// to an earlier cluster.
pub proof fn orders_hold_every_vector_once(order: Seq<u32>, assignments: Seq<u32>)
    requires
        assignments.len() <= u32::MAX,
        is_cluster_order(order, assignments),
    ensures
        order.len() == assignments.len(),
        order.no_duplicates(),
        forall|v: u32| #[trigger] order.contains(v) <==> v < assignments.len(),
        forall|p: int, q: int|
            0 <= p <= q < order.len() ==> assignments[#[trigger] order[p] as int]
                <= assignments[#[trigger] order[q] as int],
{
    broadcast use vstd::seq_lib::group_to_multiset_ensures;

    let n = assignments.len();
    let all = positions(n);
    lemma_order_in_range(order, n);
    assert(all.no_duplicates());
    all.lemma_multiset_has_no_duplicates();
    order.lemma_multiset_has_no_duplicates_conv();
    assert forall|v: u32| v < n implies #[trigger] order.contains(v) by {
        assert(all[v as int] == v);
        assert(all.contains(v));
        assert(all.to_multiset().count(v) > 0);
    }
    let along = reordered(assignments, order);
    assert forall|p: int, q: int| 0 <= p <= q < order.len() implies assignments[
        #[trigger] order[p] as int
    ] <= assignments[#[trigger] order[q] as int] by {
        assert(along[p] <= along[q]);
    }
}

/// Items laid out in an order stand where the order names them.
pub proof fn items_stand_where_they_are_named<T>(items: Seq<T>, order: Seq<u32>)
    ensures
        reordered(items, order).len() == order.len(),
        forall|i: int|
            0 <= i < order.len() ==> #[trigger] reordered(items, order)[i]
                == items[order[i] as int],
{
}

/// A bitmap has as few bytes as hold a bit for every label, and each byte is
/// made up of the labels of its eight vectors, the first being worth one and each
/// next one twice as much; past the last label the bits are worth nothing.
pub proof fn bitmaps_are_made_of_labels(bitmap: Seq<u8>, labels: Seq<bool>, j: int)
    requires
        is_bitmap(bitmap, labels),
    ensures
        8 * bitmap.len() >= labels.len() > 8 * (bitmap.len() - 1),
        0 <= j < bitmap.len() ==> bitmap[j] == label_worth(labels, 8 * j, 1) + label_worth(
            labels,
            8 * j + 1,
            2,
        ) + label_worth(labels, 8 * j + 2, 4) + label_worth(labels, 8 * j + 3, 8) + label_worth(
            labels,
            8 * j + 4,
            16,
        ) + label_worth(labels, 8 * j + 5, 32) + label_worth(labels, 8 * j + 6, 64) + label_worth(
            labels,
            8 * j + 7,
            128,
        ),
{
    if 0 <= j < bitmap.len() {
        a_byte_holds_eight_labels(bitmap, j);
        assert(label_bit(bitmap, 8 * j) == (8 * j < labels.len() && labels[8 * j]));
        assert(label_bit(bitmap, 8 * j + 1) == (8 * j + 1 < labels.len() && labels[8 * j + 1]));
        assert(label_bit(bitmap, 8 * j + 2) == (8 * j + 2 < labels.len() && labels[8 * j + 2]));
        assert(label_bit(bitmap, 8 * j + 3) == (8 * j + 3 < labels.len() && labels[8 * j + 3]));
        assert(label_bit(bitmap, 8 * j + 4) == (8 * j + 4 < labels.len() && labels[8 * j + 4]));
        assert(label_bit(bitmap, 8 * j + 5) == (8 * j + 5 < labels.len() && labels[8 * j + 5]));
        assert(label_bit(bitmap, 8 * j + 6) == (8 * j + 6 < labels.len() && labels[8 * j + 6]));
        assert(label_bit(bitmap, 8 * j + 7) == (8 * j + 7 < labels.len() && labels[8 * j + 7]));
    }
}

/// What the label at a position adds to its byte.
pub open spec fn label_worth(labels: Seq<bool>, i: int, worth: int) -> int {
    if i < labels.len() && labels[i] {
        worth
    } else {
        0
    }
}

/// The closest centroid has a key no larger than any, and a smaller one than all
/// centroids before it; there is a closest one within reach exactly if some key
/// is less than that of an infinite distance.
pub proof fn the_closest_centroid_has_the_least_key(keys: Seq<u32>, best: int, c: int)
    requires
        is_closest(keys, best),
        0 <= c < keys.len(),
    ensures
        0 <= best < keys.len(),
        keys[best] <= keys[c],
        c < best ==> keys[best] < keys[c],
        within_reach(keys) <==> keys[best] < 0x7F80_0000,
{
    if keys[best] < 0x7F80_0000 {
        assert(keys[best] < FAR_KEY);
    }
}

/// A built image, whatever it was built of: its header names the vectors and the
/// clusters, and behind it stand the centroids, the start of every cluster, and
/// in the order of the clusters each vector and each label of the vectors.
pub proof fn built_images_hold_what_they_were_built_of(
    bytes: Seq<u8>,
    n_centroids: u32,
    centroids: Seq<Vec14Bits>,
    assignments: Seq<u32>,
    vectors: Seq<Vec14I>,
    labels: Seq<bool>,
    order: Seq<u32>,
    bitmap: Seq<u8>,
)
    requires
        vectors.len() <= u32::MAX,
        assignments.len() == vectors.len(),
        labels.len() == vectors.len(),
        is_built(
            bytes,
            n_centroids,
            centroids,
            assignments,
            vectors,
            labels,
            order,
            bitmap,
        ),
    ensures
        ({
            let n = vectors.len();
            let b = 32 + 56 * centroids.len();
            let c = b + 4 * (n_centroids + 1);
            let d = c + 32 * n;
            &&& is_cluster_order(order, assignments)
            &&& bytes.len() == d + (n + 7) / 8
            &&& word_at(bytes, 0) == 0x5249_4E48
            &&& word_at(bytes, 4) == 2
            &&& word_at(bytes, 8) == n
            &&& word_at(bytes, 12) == n_centroids
            &&& word_at(bytes, 16) == 14
            &&& forall|r: int, i: int|
                0 <= r < centroids.len() && 0 <= i < 14 ==> #[trigger] centroids[r][i] == word_at(
                    bytes,
                    32 + 56 * r + 4 * i,
                )
            &&& forall|i: int|
                0 <= i <= n_centroids ==> #[trigger] cluster_starts(
                    assignments,
                    n_centroids as nat,
                )[i] == word_at(bytes, b + 4 * i)
            &&& forall|p: int, i: int|
                0 <= p < n && 0 <= i < 16 ==> #[trigger] vectors[order[p] as int][i] == lane_at(
                    bytes,
                    c + 32 * p + 2 * i,
                )
            &&& forall|p: int|
                0 <= p < n ==> #[trigger] label_bit(bytes.skip(d), p) == labels[order[p] as int]
        }),
{
    let n = vectors.len();
    lemma_order_in_range(order, n);
    let sorted = reordered(vectors, order);
    let starts = cluster_starts(assignments, n_centroids as nat);
    images_are_written_in_order(
        bytes,
        n_centroids,
        n as u32,
        centroids,
        starts,
        sorted,
        bitmap,
    );
    let c = 32 + 56 * centroids.len() + 4 * (n_centroids + 1);
    let d = c + 32 * n;
    assert(bytes.skip(d) =~= bitmap);
    assert forall|p: int, i: int| 0 <= p < n && 0 <= i < 16 implies #[trigger] vectors[
        order[p] as int
    ][i] == lane_at(bytes, c + 32 * p + 2 * i) by {
        assert(sorted[p][i] == lane_at(bytes, c + 32 * p + 2 * i));
    }
    assert forall|p: int| 0 <= p < n implies #[trigger] label_bit(bytes.skip(d), p)
        == labels[order[p] as int] by {
        assert(label_bit(bitmap, p) == reordered(labels, order)[p]);
    }
}

} // verus!

use rinha_2026::distance::{pad_lanes, Vec14I, DIM};
use rinha_2026::index::IndexView;
use rinha_2026::ranking::insert_top5;
use rinha_2026::search::{
    checked_ivf_search, checked_ivf_search_2stage, ivf_search, ivf_search_2stage, label_is_fraud,
    select_probes, FAR_KEY, MAX_PROBES, NEIGHBOURS,
};
use rinha_2026::words::Section;

fn at(x: i16) -> Vec14I {
    let mut lanes = [0i16; DIM];
    lanes[0] = x;
    pad_lanes(&lanes)
}

fn bitmap(labels: &[bool]) -> Vec<u8> {
    let mut bytes = vec![0u8; (labels.len() + 7) / 8];
    for (i, &l) in labels.iter().enumerate() {
        if l {
            bytes[i / 8] |= 1 << (i % 8);
        }
    }
    bytes
}

fn index<'a>(offsets: &[u32], xs: &[i16], labels: &'a [u8]) -> IndexView<'a> {
    IndexView {
        centroids: Section::Owned(vec![[0; DIM]; offsets.len() - 1]),
        offsets: Section::Owned(offsets.to_vec()),
        vectors: Section::Owned(xs.iter().map(|&x| at(x)).collect()),
        labels,
    }
}

const XS: [i16; 9] = [0, 1, 2, 100, 101, 102, 1000, 1001, 1002];

const FRAUDS: [bool; 9] = [false, true, false, true, true, false, true, true, true];

#[test]
fn the_probed_clusters_vote() {
    let labels = bitmap(&FRAUDS);
    let idx = index(&[0, 3, 6, 9], &XS, &labels);
    assert_eq!(ivf_search(&idx, &at(0), &[10, 20, 30], 1), 1);
    assert_eq!(ivf_search(&idx, &at(0), &[10, 20, 30], 2), 3);
    assert_eq!(ivf_search(&idx, &at(0), &[10, 20, 30], 3), 3);
    assert_eq!(ivf_search(&idx, &at(0), &[30, 20, 10], 1), 3);
    assert_eq!(ivf_search(&idx, &at(1002), &[30, 20, 10], 3), 4);
}

#[test]
fn borderline_votes_are_refined() {
    let labels = bitmap(&FRAUDS);
    let idx = index(&[0, 3, 6, 9], &XS, &labels);
    let keys = [10, 20, 30];
    assert_eq!(ivf_search_2stage(&idx, &at(0), &keys, 1, 2), 1);
    assert_eq!(ivf_search_2stage(&idx, &at(0), &keys, 2, 1), 1);
    assert_eq!(ivf_search_2stage(&idx, &at(0), &keys, 2, 3), 3);
    assert_eq!(checked_ivf_search_2stage(&idx, &at(0), &keys, 2, 1), Some(1));
    assert_eq!(checked_ivf_search_2stage(&idx, &at(0), &keys, 1, 0), Some(1));
    assert_eq!(checked_ivf_search_2stage(&idx, &at(0), &keys, 2, 0), None);
    assert_eq!(checked_ivf_search_2stage(&idx, &at(0), &keys, 0, 2), None);
}

#[test]
fn searches_that_cannot_be_made_are_refused() {
    let labels = bitmap(&FRAUDS);
    let idx = index(&[0, 3, 6, 9], &XS, &labels);
    let q = at(0);
    assert_eq!(checked_ivf_search(&idx, &q, &[10, 20, 30], 3), Some(3));
    assert_eq!(checked_ivf_search(&idx, &q, &[10, 20, 30], 0), None);
    assert_eq!(checked_ivf_search(&idx, &q, &[10, 20, 30], 4), None);
    assert_eq!(checked_ivf_search(&idx, &q, &[10, 20], 1), None);
    assert_eq!(checked_ivf_search(&idx, &q, &[10, FAR_KEY, 30], 2), Some(3));
    assert_eq!(checked_ivf_search(&idx, &q, &[10, FAR_KEY, 30], 3), None);
    let not_a_number = f32::NAN.to_bits();
    assert_eq!(checked_ivf_search(&idx, &q, &[10, not_a_number, 30], 3), None);
}

#[test]
fn ranges_outside_the_index_are_refused() {
    let labels = bitmap(&FRAUDS);
    let idx = index(&[0, 3, 6, 10], &XS, &labels);
    assert_eq!(checked_ivf_search(&idx, &at(0), &[10, 20, 30], 2), Some(3));
    assert_eq!(checked_ivf_search(&idx, &at(0), &[10, 20, 30], 3), None);
}

#[test]
fn empty_clusters_add_nothing() {
    let labels = bitmap(&FRAUDS);
    let idx = index(&[0, 3, 3, 9], &XS, &labels);
    assert_eq!(ivf_search(&idx, &at(0), &[10, 20, 30], 2), 1);
    let backwards = index(&[50, 3, 6, 9], &XS, &labels);
    assert_eq!(ivf_search(&backwards, &at(0), &[10, 20, 30], 2), 2);
}

#[test]
fn among_equals_the_first_scanned_vote() {
    let xs = [5i16; 6];
    let last = bitmap(&[false, false, false, false, false, true]);
    assert_eq!(ivf_search(&index(&[0, 6], &xs, &last), &at(0), &[1], 1), 0);
    let first = bitmap(&[true, false, false, false, false, false]);
    assert_eq!(ivf_search(&index(&[0, 6], &xs, &first), &at(0), &[1], 1), 1);
}

#[test]
fn at_most_sixty_four_clusters_are_probed() {
    let offsets: Vec<u32> = (0..=70).collect();
    let xs: Vec<i16> = (0..70).collect();
    let labels: Vec<bool> = (0..70).map(|i| i >= 64).collect();
    let bits = bitmap(&labels);
    let idx = index(&offsets, &xs, &bits);
    let keys: Vec<u32> = (0..70).collect();
    assert_eq!(MAX_PROBES, 64);
    assert_eq!(ivf_search(&idx, &at(69), &keys, 1000), 0);
    assert_eq!(ivf_search(&idx, &at(69), &keys, 64), 0);
    let reversed: Vec<u32> = (0..70).rev().collect();
    assert_eq!(ivf_search(&idx, &at(69), &reversed, 1000), NEIGHBOURS as u8);
}

#[test]
fn probing_every_cluster_finds_the_nearest_of_all() {
    let xs: Vec<i16> = vec![90, 10, 70, 30, 50, 20, 80, 40, 60, 0];
    let labels: Vec<bool> = xs.iter().map(|&x| x == 30 || x == 40 || x == 70).collect();
    let bits = bitmap(&labels);
    let idx = index(&[0, 2, 4, 6, 8, 10], &xs, &bits);
    for keys in [[1, 2, 3, 4, 5], [5, 4, 3, 2, 1], [2, 2, 2, 2, 2]] {
        assert_eq!(ivf_search(&idx, &at(29), &keys, 5), 2);
    }
}

#[test]
fn probes_are_ranked_by_key_and_then_by_position() {
    let slots = select_probes(&[5, 3, 9, 3], 3);
    assert_eq!(&slots[..3], &[(3, 1), (3, 3), (5, 0)]);
    for slot in &slots[3..] {
        assert_eq!(*slot, (FAR_KEY as u64, u32::MAX));
    }
    let slots = select_probes(&[FAR_KEY, 7, FAR_KEY + 1], 2);
    assert_eq!(&slots[..2], &[(7, 1), (FAR_KEY as u64, u32::MAX)]);
    assert_eq!(FAR_KEY, f32::INFINITY.to_bits());
}

#[test]
fn keys_order_as_distances_do() {
    let distances = [0.0f32, 1.0e-40, 1.0e-3, 0.5, 1.0, 2.5, 1.0e30, f32::INFINITY];
    for pair in distances.windows(2) {
        assert!(pair[0].to_bits() < pair[1].to_bits());
    }
    assert!(f32::NAN.to_bits() > FAR_KEY);
}

#[test]
fn five_slots_keep_the_nearest() {
    let empty = (u64::MAX, u32::MAX);
    let mut top = [empty; 5];
    for (d, id) in [(7u64, 0u32), (3, 1), (9, 2), (3, 3), (8, 4)] {
        insert_top5(&mut top, d, id);
    }
    assert_eq!(top, [(3, 1), (3, 3), (7, 0), (8, 4), (9, 2)]);
    insert_top5(&mut top, 9, 5);
    assert_eq!(top, [(3, 1), (3, 3), (7, 0), (8, 4), (9, 2)]);
    insert_top5(&mut top, 7, 6);
    assert_eq!(top, [(3, 1), (3, 3), (7, 0), (7, 6), (8, 4)]);
    insert_top5(&mut top, 0, 7);
    assert_eq!(top, [(0, 7), (3, 1), (3, 3), (7, 0), (7, 6)]);
    insert_top5(&mut top, u64::MAX, 8);
    assert_eq!(top, [(0, 7), (3, 1), (3, 3), (7, 0), (7, 6)]);
}

#[test]
fn label_bits_run_from_the_lowest() {
    let labels = [0b1000_0001u8, 0b0000_0010];
    let set: Vec<usize> = (0..16).filter(|&i| label_is_fraud(&labels, i)).collect();
    assert_eq!(set, [0, 7, 9]);
}

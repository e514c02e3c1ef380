use rinha_2026::builder::{
    build_index, cluster_counts, cluster_offsets, cluster_order, is_fraud_label, label_bitmap,
    nearest_centroid, reorder, sample_positions, SAMPLE_SEED,
};
use rinha_2026::distance::{Vec14I, DIM, DIM_PAD};
use rinha_2026::index::{is_complete, IndexView};
use rinha_2026::search::{checked_ivf_search, label_is_fraud, select_probes, FAR_KEY};

#[test]
fn only_fraud_is_fraud() {
    assert!(is_fraud_label("fraud"));
    assert!(!is_fraud_label("legit"));
    assert!(!is_fraud_label("Fraud"));
    assert!(!is_fraud_label("fraudulent"));
    assert!(!is_fraud_label(""));
}

#[test]
fn samples_are_different_positions() {
    let mut sample = sample_positions(1000, 50, SAMPLE_SEED);
    assert_eq!(sample.len(), 50);
    let first: Vec<u32> = (0..50).collect();
    assert_ne!(sample, first);
    sample.sort_unstable();
    sample.dedup();
    assert_eq!(sample.len(), 50);
    assert!(sample.iter().all(|&p| p < 1000));
}

#[test]
fn a_seed_draws_the_same_sample_again() {
    assert_eq!(SAMPLE_SEED, 42);
    assert_eq!(sample_positions(500, 20, 42), sample_positions(500, 20, 42));
    assert_ne!(sample_positions(500, 20, 42), sample_positions(500, 20, 43));
}

#[test]
fn samples_are_no_larger_than_the_whole() {
    let mut sample = sample_positions(7, 100, SAMPLE_SEED);
    sample.sort_unstable();
    assert_eq!(sample, [0, 1, 2, 3, 4, 5, 6]);
    assert!(sample_positions(0, 5, SAMPLE_SEED).is_empty());
    assert!(sample_positions(5, 0, SAMPLE_SEED).is_empty());
}

#[test]
fn the_first_of_the_nearest_centroids_is_taken() {
    assert_eq!(nearest_centroid(&[5, 3, 9, 3]), 1);
    assert_eq!(nearest_centroid(&[0, 3, 9, 3]), 0);
    assert_eq!(nearest_centroid(&[FAR_KEY, FAR_KEY + 1, 8]), 2);
}

#[test]
fn without_a_centroid_in_reach_the_very_first_is_taken() {
    assert_eq!(nearest_centroid(&[FAR_KEY, FAR_KEY]), 0);
    assert_eq!(nearest_centroid(&[f32::NAN.to_bits(), FAR_KEY]), 0);
    assert_eq!(nearest_centroid(&[]), 0);
}

#[test]
fn the_assigned_centroid_is_probed_first() {
    for keys in [[4u32, 2, 8], [1, 1, 1], [9, 8, 7]] {
        assert_eq!(select_probes(&keys, 1)[0].1, nearest_centroid(&keys));
    }
}

#[test]
fn clusters_are_counted_and_laid_out() {
    let assignments = [2u32, 0, 3, 2, 0, 2];
    assert_eq!(cluster_counts(&assignments, 5), [2, 0, 3, 1, 0]);
    assert_eq!(cluster_offsets(&assignments, 5), [0, 2, 2, 5, 6, 6]);
    assert_eq!(cluster_counts(&[], 2), [0, 0]);
    assert_eq!(cluster_offsets(&[], 2), [0, 0, 0]);
    assert_eq!(cluster_offsets(&[], 0), [0]);
}

#[test]
fn the_order_puts_clusters_side_by_side() {
    let assignments = [2u32, 0, 3, 2, 0, 2];
    let order = cluster_order(&assignments);
    let along: Vec<u32> = order.iter().map(|&i| assignments[i as usize]).collect();
    assert_eq!(along, [0, 0, 2, 2, 2, 3]);
    let mut sorted = order.clone();
    sorted.sort_unstable();
    assert_eq!(sorted, [0, 1, 2, 3, 4, 5]);
    let offsets = cluster_offsets(&assignments, 4);
    for (pos, &i) in order.iter().enumerate() {
        let c = assignments[i as usize] as usize;
        assert!(offsets[c] as usize <= pos && pos < offsets[c + 1] as usize);
    }
}

#[test]
fn long_orders_are_sorted_too() {
    let assignments: Vec<u32> = (0..10_000u32).map(|i| i.wrapping_mul(2654435761) % 97).collect();
    let order = cluster_order(&assignments);
    assert!(order
        .windows(2)
        .all(|w| assignments[w[0] as usize] <= assignments[w[1] as usize]));
    let mut sorted = order.clone();
    sorted.sort_unstable();
    assert!(sorted.iter().enumerate().all(|(i, &p)| i == p as usize));
}

#[test]
fn items_follow_the_order() {
    assert_eq!(reorder(&['a', 'b', 'c'], &[2, 0, 1, 0]), ['c', 'a', 'b', 'a']);
}

#[test]
fn bitmaps_hold_a_bit_for_every_label() {
    assert_eq!(label_bitmap(&[false, true, false, true]), [0b0000_1010]);
    let labels: Vec<bool> = (0..19).map(|i| i % 3 == 0).collect();
    let bitmap = label_bitmap(&labels);
    assert_eq!(bitmap, [0b0100_1001, 0b1001_0010, 0b0000_0100]);
    for (i, &l) in labels.iter().enumerate() {
        assert_eq!(label_is_fraud(&bitmap, i), l);
    }
    assert!(label_bitmap(&[]).is_empty());
}

#[test]
fn a_built_index_reads_back_in_clusters() {
    let assignments = [1u32, 0, 2, 1, 0];
    let vectors: Vec<Vec14I> = (0..5).map(|i| [i as i16 * 10; DIM_PAD]).collect();
    let labels = [true, false, true, false, true];
    let centroids = [[1u32; DIM], [2; DIM], [3; DIM]];
    let image = build_index(3, &centroids, &assignments, &vectors, &labels);
    assert!(is_complete(&image));
    let view = IndexView::from_bytes(&image).unwrap();
    assert_eq!(view.centroids.as_slice(), &centroids);
    assert_eq!(view.offsets.as_slice(), &[0, 2, 4, 5]);
    let mut seen = [false; 5];
    for c in 0..3usize {
        for pos in view.offsets.as_slice()[c]..view.offsets.as_slice()[c + 1] {
            let i = (view.vectors.as_slice()[pos as usize][0] / 10) as usize;
            assert_eq!(assignments[i] as usize, c);
            assert_eq!(label_is_fraud(view.labels, pos as usize), labels[i]);
            assert!(!seen[i]);
            seen[i] = true;
        }
    }
    assert_eq!(seen, [true; 5]);
    assert_eq!(checked_ivf_search(&view, &[0; DIM_PAD], &[1, 2, 3], 3), Some(3));
    assert_eq!(checked_ivf_search(&view, &[0; DIM_PAD], &[2, 1, 3], 1), Some(1));
}

#[test]
fn a_header_announces_what_it_was_told() {
    let image = build_index(3, &[[1u32; DIM]], &[0], &[[0; DIM_PAD]], &[true]);
    assert!(!is_complete(&image));
}

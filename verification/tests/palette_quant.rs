use pngoptim::palette_quant::{
    blur, build_histogram_entries, cluster_index, cluster_layout, compact_palette, reposterize_entries, HistEntry, initial_box_ranges, qsort_partition, qsort_pivot, dither_chunks_for, effective_dither_chunks, effective_feedback_trials,
    effective_kmeans_iterations, max3, min3,
    posterize_channel, posterize_output_channel, posterized_rgba, transposing_1d_blur,
};

#[test]
fn posterize_channels() {
    assert_eq!(posterize_channel(255, 2), 252);
    assert_eq!(posterize_channel(0x9b, 0), 0x9b);
    assert_eq!(posterize_output_channel(0b1011_0110, 2), 0b1011_0110);
    assert_eq!(posterize_output_channel(0b1011_0101, 2), 0b1011_0110);
    assert_eq!(posterize_output_channel(0xff, 4), 0xff);
    assert_eq!(posterized_rgba(&[255, 127, 63, 31, 9], 1), [254, 126, 62, 30]);
}

#[test]
fn clusters_by_high_bits() {
    assert_eq!(cluster_index([128, 0, 255, 127]), 0b1010);
    assert_eq!(cluster_index([255, 255, 255, 255]), 15);
    assert_eq!(cluster_index([0, 0, 0, 0]), 0);
}

#[test]
fn feedback_trials_shrink_with_histogram_size() {
    assert_eq!(effective_feedback_trials(20, 5_000), 20);
    assert_eq!(effective_feedback_trials(20, 5_001), 15);
    assert_eq!(effective_feedback_trials(20, 30_000), 12);
    assert_eq!(effective_feedback_trials(20, 200_000), 7);
}

#[test]
fn dither_chunks_follow_image_size() {
    assert_eq!(dither_chunks_for(4000, 100, 8), 1);
    assert_eq!(dither_chunks_for(100, 300, 8), 2);
    assert_eq!(dither_chunks_for(4096, 4096, 8), 8);
    assert_eq!(dither_chunks_for(4096, 4096, 1), 1);
    assert_eq!(dither_chunks_for(4096, 4096, 64), 32);
    assert_eq!(effective_dither_chunks(10, 10), 1);
    assert!(effective_dither_chunks(4096, 4096) >= 1);
}

#[test]
fn cross_filters_take_max_and_min() {
    let src = vec![10u8, 50, 20, 200, 0, 0, 255, 30, 90, 80, 70, 60];
    let mut dst = vec![0u8; 13];
    max3(&src, &mut dst, 4, 3);
    assert_eq!(dst, vec![50, 50, 255, 200, 90, 255, 255, 255, 90, 90, 255, 70, 0]);
    min3(&src, &mut dst, 4, 3);
    assert_eq!(dst, vec![0, 0, 20, 20, 0, 0, 0, 30, 0, 0, 60, 30, 0]);
}

#[test]
fn box_blur_passes_transpose() {
    let img = vec![0u8, 10, 20, 30, 40, 50, 60, 70, 80, 90, 100, 110, 120, 130, 140, 250, 0, 250, 0, 250];
    let mut pass = vec![0u8; 20];
    transposing_1d_blur(&img, &mut pass, 5, 4, 1);
    assert_eq!(pass, vec![5, 55, 105, 125, 15, 65, 115, 125, 25, 75, 125, 125, 35, 85, 135, 125, 40, 90, 140, 250]);

    let mut both = img.clone();
    let mut tmp = vec![0u8; 20];
    blur(&mut both, &mut tmp, 5, 4, 1);
    assert_eq!(tmp, pass);
    assert_eq!(both, vec![30, 40, 50, 60, 65, 80, 90, 100, 110, 115, 115, 120, 125, 130, 195, 125, 125, 125, 125, 250]);
}

#[test]
fn box_blur_radius_two_clamps_edges() {
    let img = vec![
        11u8, 48, 85, 122, 159, 196, 233, 14, 51, 88, 125, 162, 199, 236, 17, 54, 91, 128, 165, 202, 239, 20, 57,
        94, 131, 168, 205, 242, 23, 60,
    ];
    let mut pass = vec![0u8; 30];
    transposing_1d_blur(&img, &mut pass, 6, 5, 2);
    assert_eq!(
        pass,
        vec![
            38, 132, 162, 192, 158, 66, 96, 126, 156, 186, 103, 69, 99, 129, 159, 140, 106, 72, 102, 132, 168, 134,
            100, 66, 96, 186, 152, 118, 84, 50
        ]
    );
    let mut both = img.clone();
    let mut tmp = vec![0u8; 30];
    blur(&mut both, &mut tmp, 6, 5, 2);
    assert_eq!(tmp, pass);
    assert_eq!(
        both,
        vec![
            92, 88, 93, 114, 142, 160, 131, 111, 100, 105, 117, 135, 161, 141, 114, 103, 99, 101, 167, 163, 136, 109,
            89, 75, 166, 178, 151, 124, 88, 58
        ]
    );
}

#[test]
fn box_blur_skips_small_images() {
    let img = vec![1u8, 2, 3, 4];
    let mut dst = vec![9u8; 4];
    transposing_1d_blur(&img, &mut dst, 2, 2, 1);
    assert_eq!(dst, vec![9, 9, 9, 9]);
}

#[test]
fn kmeans_iterations_keep_one_when_quality_matters() {
    assert_eq!(effective_kmeans_iterations(12, 100, false, true), 12);
    assert_eq!(effective_kmeans_iterations(12, 200_000, true, true), 5);
    assert_eq!(effective_kmeans_iterations(0, 10, false, true), 1);
    assert_eq!(effective_kmeans_iterations(0, 10, true, true), 0);
    assert_eq!(effective_kmeans_iterations(0, 10, false, false), 0);
}

#[test]
fn histogram_counts_colors_in_first_seen_order() {
    let rgba = vec![
        10u8, 20, 30, 255, 1, 2, 3, 0, 10, 20, 30, 255, 200, 100, 50, 128, 9, 9, 9, 0, 77, 88,
    ];
    let importance = vec![100u8, 50, 7];
    let entries = build_histogram_entries(&rgba, Some(&importance));
    assert_eq!(entries.len(), 3);
    assert_eq!(entries[0].color, [10, 20, 30, 255]);
    assert_eq!(entries[0].representative, [10, 20, 30, 255]);
    assert_eq!(entries[0].importance_sum, 107);
    assert_eq!(entries[0].cluster_index, 1);
    assert_eq!(entries[1].color, [0, 0, 0, 0]);
    assert_eq!(entries[1].representative, [1, 2, 3, 0]);
    assert_eq!(entries[1].importance_sum, 305);
    assert_eq!(entries[1].cluster_index, 0);
    assert_eq!(entries[2].color, [200, 100, 50, 128]);
    assert_eq!(entries[2].importance_sum, 255);
    assert_eq!(entries[2].cluster_index, 9);

    let plain = build_histogram_entries(&rgba, None);
    let sums: Vec<u32> = plain.iter().map(|e| e.importance_sum).collect();
    assert_eq!(sums, vec![510, 510, 255]);
    assert!(build_histogram_entries(&[1u8, 2, 3], None).is_empty());
}

fn keyed(values: &[u32]) -> Vec<(u32, usize)> {
    values.iter().enumerate().map(|(i, &v)| (v, i)).collect()
}

#[test]
fn partition_pivots_on_the_middle_of_short_runs() {
    let mut base = keyed(&[5, 9, 1, 7, 3]);
    assert_eq!(qsort_pivot(&base), 2);
    let p = qsort_partition(&mut base);
    assert_eq!(p, 4);
    assert_eq!(base, vec![(3, 4), (9, 1), (5, 0), (7, 3), (1, 2)]);

    let mut base = keyed(&[4, 8, 6, 2, 6, 9, 1, 5, 3]);
    let p = qsort_partition(&mut base);
    assert_eq!(p, 3);
    assert_eq!(base, vec![(9, 5), (8, 1), (6, 2), (6, 4), (4, 0), (2, 3), (1, 6), (5, 7), (3, 8)]);

    let mut single = keyed(&[42]);
    assert_eq!(qsort_partition(&mut single), 0);
    assert_eq!(single, vec![(42, 0)]);
}

#[test]
fn partition_takes_the_median_of_three_on_long_runs() {
    let values: Vec<u32> = (0..40).map(|i| (i * 29 + 7) % 50).collect();
    let mut base = keyed(&values);
    assert_eq!(qsort_pivot(&base), 39);
    let p = qsort_partition(&mut base);
    assert_eq!(p, 8);
    assert_eq!(base[8], (38, 39));
    assert!(base[..8].iter().all(|&(v, _)| v >= 38));
    assert!(base[9..].iter().all(|&(v, _)| v <= 38));
    assert_eq!(
        base.iter().map(|&(_, i)| i).collect::<Vec<_>>(),
        vec![
            8, 34, 29, 3, 27, 22, 15, 10, 39, 9, 7, 11, 12, 13, 14, 6, 16, 17, 18, 19, 20, 21, 5, 23, 24, 25, 26,
            4, 28, 2, 30, 31, 32, 33, 1, 35, 36, 37, 38, 0
        ]
    );

    let mut ties = vec![10u32; 40];
    ties[8] = 3;
    ties[20] = 3;
    ties[39] = 9;
    assert_eq!(qsort_pivot(&keyed(&ties)), 20);
}

#[test]
fn cluster_layout_groups_items_stably() {
    let (bounds, slots) = cluster_layout(&[3, 0, 3, 15, 0, 1]);
    assert_eq!(bounds, vec![0, 2, 3, 3, 5, 5, 5, 5, 5, 5, 5, 5, 5, 5, 5, 5, 6]);
    assert_eq!(slots, vec![3, 0, 4, 5, 1, 2]);
    let (bounds, slots) = cluster_layout(&[]);
    assert_eq!(bounds, vec![0; 17]);
    assert!(slots.is_empty());
}

#[test]
fn median_cut_starts_from_used_clusters_when_few() {
    let clusters = vec![(0usize, 2usize), (2, 2), (2, 5), (5, 5), (5, 9)];
    assert_eq!(initial_box_ranges(&clusters, 9), Some(vec![(0, 2), (2, 5), (5, 9)]));
    assert_eq!(initial_box_ranges(&clusters, 256), Some(vec![(0, 2), (2, 5), (5, 9)]));
    assert_eq!(initial_box_ranges(&clusters, 8), None);
    assert_eq!(initial_box_ranges(&vec![(0, 0), (0, 0)], 256), None);
}

#[test]
fn unused_palette_entries_are_dropped_and_indices_renumbered() {
    let colors = vec![[1u8, 1, 1, 1], [2, 2, 2, 2], [3, 3, 3, 3], [4, 4, 4, 4]];
    let counts = vec![5usize, 0, 2, 0];
    let mut indices = vec![0u8, 2, 2, 0, 1];
    let palette = compact_palette(&colors, &counts, &mut indices);
    assert_eq!(palette, vec![[1, 1, 1, 1], [3, 3, 3, 3]]);
    assert_eq!(indices, vec![0, 1, 1, 0, 0]);
}

fn hist_entry(color: [u8; 4], representative: [u8; 4], importance_sum: u32, cluster_index: u8) -> HistEntry {
    HistEntry { color, representative, importance_sum, cluster_index }
}

#[test]
fn reposterizing_merges_keys_and_keeps_the_last_counts() {
    let walked = vec![
        hist_entry([0x13, 0x20, 0x30, 0xff], [1, 1, 1, 1], 10, 1),
        hist_entry([0x12, 0x21, 0x33, 0xfe], [2, 2, 2, 2], 20, 2),
        hist_entry([0x80, 0x00, 0x00, 0xff], [3, 3, 3, 3], 5, 9),
        hist_entry([0x11, 0x22, 0x31, 0xfd], [4, 4, 4, 4], 7, 3),
    ];
    let merged = reposterize_entries(&walked, 2);
    assert_eq!(merged.len(), 2);
    assert_eq!(merged[0].color, [0x10, 0x20, 0x30, 0xfc]);
    assert_eq!(merged[0].representative, [4, 4, 4, 4]);
    assert_eq!(merged[0].importance_sum, 7);
    assert_eq!(merged[0].cluster_index, 3);
    assert_eq!(merged[1].color, [0x80, 0x00, 0x00, 0xfc]);
    assert_eq!(merged[1].representative, [3, 3, 3, 3]);
    assert_eq!(merged[1].importance_sum, 5);
    assert_eq!(merged[1].cluster_index, 9);
    assert_eq!(reposterize_entries(&walked, 0).len(), 4);
}

use pngoptim::robustness::{mutate_bytes, truncate};

fn sample() -> Vec<u8> {
    (10u8..30).collect()
}

#[test]
fn empty_input_becomes_png_signature() {
    assert_eq!(mutate_bytes(&[], 3), vec![137, 80, 78, 71, 13, 10, 26, 10]);
}

#[test]
fn truncation_mode_keeps_at_least_one_byte() {
    assert_eq!(mutate_bytes(&sample(), 0), vec![10]);
    assert_eq!(mutate_bytes(&sample(), 5), vec![10, 11, 12, 13, 14]);
}

#[test]
fn bit_flip_mode() {
    let mut expected = sample();
    expected[11] = 29;
    assert_eq!(mutate_bytes(&sample(), 11), expected);
}

#[test]
fn overwrite_mode() {
    assert_eq!(
        mutate_bytes(&sample(), 7),
        vec![10, 11, 12, 13, 14, 15, 16, 156, 31, 162, 37, 168, 43, 174, 49, 25, 26, 27, 28, 29]
    );
    assert_eq!(
        mutate_bytes(&sample(), 12),
        vec![10, 11, 12, 13, 14, 15, 16, 17, 18, 19, 20, 21, 48, 179, 54, 185, 60, 191, 66, 197]
    );
}

#[test]
fn duplicate_block_mode() {
    assert_eq!(
        mutate_bytes(&sample(), 3),
        vec![10, 13, 14, 15, 16, 11, 12, 13, 14, 15, 16, 17, 18, 19, 20, 21, 22, 23, 24, 25, 26, 27, 28, 29]
    );
    assert_eq!(mutate_bytes(&sample(), 13).len(), 27);
}

#[test]
fn append_noise_mode() {
    let mut expected = sample();
    expected.extend_from_slice(&[4, 21, 38, 55, 72]);
    assert_eq!(mutate_bytes(&sample(), 4), expected);
    assert_eq!(mutate_bytes(&sample(), 9).len(), 30);
}

#[test]
fn truncate_adds_ellipsis_only_when_needed() {
    assert_eq!(truncate("short", 10), "short");
    assert_eq!(truncate("exactly", 7), "exactly");
    assert_eq!(truncate("a longer line", 4), "a lo...");
    assert_eq!(truncate("héllo", 3), "hé...");
}

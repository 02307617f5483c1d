use shred_tools::fragment::Fragment;
use shred_tools::grouping::{
    fingerprint_distance, group, group_fingerprints, hamming_distance, HASH_GRID,
    SIMILARITY_THRESHOLD,
};

#[test]
fn hamming_distance_counts_differing_bits() {
    assert_eq!(hamming_distance(0, 0), 0);
    assert_eq!(hamming_distance(0b1011, 0b0001), 2);
    assert_eq!(hamming_distance(u64::MAX, 0), 64);
}

#[test]
fn fingerprint_distance_counts_shared_bytes() {
    assert_eq!(fingerprint_distance(&vec![0xff, 0x0f], &vec![0x00, 0x0e]), 9);
    assert_eq!(fingerprint_distance(&vec![0xff, 0xff], &vec![0x00]), 8);
    assert_eq!(fingerprint_distance(&vec![], &vec![1, 2, 3]), 0);
}

fn with_bits(n: usize) -> Vec<u8> {
    let mut v = vec![0u8; 4];
    for i in 0..n {
        v[i / 8] |= 1 << (i % 8);
    }
    v
}

#[test]
fn threshold_is_inclusive() {
    let at = vec![with_bits(0), with_bits(10)];
    assert_eq!(group_fingerprints(&at, 10), vec![vec![0, 1]]);
    let past = vec![with_bits(0), with_bits(11)];
    assert_eq!(group_fingerprints(&past, 10), vec![vec![0], vec![1]]);
}

#[test]
fn first_fit_joins_earliest_group() {
    let hashes = vec![with_bits(0), with_bits(20), with_bits(5), with_bits(25), with_bits(14)];
    let groups = group_fingerprints(&hashes, 10);
    assert_eq!(groups, vec![vec![0, 2], vec![1, 3, 4]]);
}

#[test]
fn every_image_in_exactly_one_group() {
    let hashes: Vec<Vec<u8>> = (0..12).map(|i| with_bits((i * 7) % 32)).collect();
    let groups = group_fingerprints(&hashes, 6);
    let mut seen: Vec<usize> = groups.iter().flatten().cloned().collect();
    seen.sort();
    assert_eq!(seen, (0..12).collect::<Vec<usize>>());
}

#[test]
fn no_images_make_no_groups() {
    assert!(group_fingerprints(&Vec::new(), 10).is_empty());
}

fn image(width: u32, height: u32, f: impl Fn(u32, u32) -> [u8; 3]) -> Fragment {
    let mut pixels = Vec::new();
    for y in 0..height {
        for x in 0..width {
            pixels.extend_from_slice(&f(x, y));
        }
    }
    Fragment::new(width, height, pixels)
}

#[test]
fn brightened_copy_shares_a_group() {
    let a = image(32, 32, |x, y| [(x * 6) as u8, (y * 6) as u8, 0]);
    let b = image(32, 32, |x, y| [(x * 6 + 40) as u8, (y * 6 + 40) as u8, 40]);
    assert!(fingerprint_distance(&a.pixels, &b.pixels) > 100);
    let groups = group(&vec![a, b], HASH_GRID, SIMILARITY_THRESHOLD);
    assert_eq!(groups, vec![vec![0, 1]]);
}

#[test]
fn distinct_images_split_at_zero_threshold() {
    let a = image(16, 16, |x, _| [(x * 16) as u8, 0, 0]);
    let b = image(16, 16, |x, _| [255 - (x * 16) as u8, 0, 0]);
    let groups = group(&vec![a, b], HASH_GRID, 0);
    assert_eq!(groups, vec![vec![0], vec![1]]);
}

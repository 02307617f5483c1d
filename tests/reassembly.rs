use shred_tools::canvas::compose_canvas;
use shred_tools::fragment::{calculate_difference, keep_decoded, Fragment};
use shred_tools::ordering::find_best_match;

fn solid(width: u32, height: u32, rgb: [u8; 3]) -> Fragment {
    let mut pixels = Vec::new();
    for _ in 0..(width * height) {
        pixels.extend_from_slice(&rgb);
    }
    Fragment::new(width, height, pixels)
}

fn gradient_strip(x0: u32, width: u32, height: u32) -> Fragment {
    let mut pixels = Vec::new();
    for y in 0..height {
        for x in x0..x0 + width {
            pixels.push((x * 2) as u8);
            pixels.push((y * 2) as u8);
            pixels.push(0);
        }
    }
    Fragment::new(width, height, pixels)
}

#[test]
fn difference_sums_squared_channel_gaps() {
    let a = Fragment::new(1, 2, vec![10, 20, 30, 0, 0, 0]);
    let b = Fragment::new(1, 2, vec![13, 16, 30, 1, 1, 1]);
    assert_eq!(calculate_difference(&a, &b), 9 + 16 + 0 + 3);
}

#[test]
fn difference_uses_shared_height_and_edges() {
    let a = Fragment::new(2, 2, vec![0, 0, 0, 5, 5, 5, 0, 0, 0, 9, 9, 9]);
    let b = Fragment::new(1, 1, vec![2, 5, 7]);
    assert_eq!(calculate_difference(&a, &b), 9 + 0 + 4);
}

#[test]
fn greedy_order_recovers_gradient_strips() {
    let strips: Vec<Fragment> = (0..5).map(|k| gradient_strip(20 * k, 20, 100)).collect();
    let order = [0usize, 3, 1, 4, 2];
    let shuffled: Vec<Fragment> = order
        .iter()
        .map(|&k| Fragment::new(strips[k].width, strips[k].height, strips[k].pixels.clone()))
        .collect();
    let result = find_best_match(shuffled);
    assert_eq!(result.len(), 5);
    for (k, f) in result.iter().enumerate() {
        assert_eq!(f.pixels, strips[k].pixels);
    }
}

#[test]
fn greedy_order_keeps_every_fragment_once() {
    let input = vec![solid(1, 3, [1, 1, 1]), solid(2, 3, [200, 0, 0]), solid(1, 2, [3, 3, 3])];
    let result = find_best_match(input);
    assert_eq!(result.len(), 3);
    assert_eq!(result[0].pixels, solid(1, 3, [1, 1, 1]).pixels);
    assert_eq!(result[1].pixels, solid(1, 2, [3, 3, 3]).pixels);
    assert_eq!(result[2].pixels, solid(2, 3, [200, 0, 0]).pixels);
}

#[test]
fn greedy_order_breaks_ties_by_input_order() {
    let input = vec![solid(1, 1, [0, 0, 0]), solid(1, 1, [5, 0, 0]), solid(1, 1, [0, 5, 0])];
    let result = find_best_match(input);
    assert_eq!(result[1].pixels, vec![5, 0, 0]);
    assert_eq!(result[2].pixels, vec![0, 5, 0]);
}

#[test]
fn greedy_order_of_nothing_is_empty() {
    assert!(find_best_match(Vec::new()).is_empty());
}

#[test]
fn canvas_is_summed_width_and_max_height() {
    let images = vec![solid(10, 50, [1, 2, 3]), solid(10, 30, [4, 5, 6])];
    let canvas = compose_canvas(&images);
    assert_eq!(canvas.width, 20);
    assert_eq!(canvas.height, 50);
    assert_eq!(canvas.pixels.len(), 3 * 20 * 50);
    let at = |x: usize, y: usize| {
        let i = 3 * (y * 20 + x);
        [canvas.pixels[i], canvas.pixels[i + 1], canvas.pixels[i + 2]]
    };
    assert_eq!(at(0, 0), [1, 2, 3]);
    assert_eq!(at(9, 49), [1, 2, 3]);
    assert_eq!(at(10, 0), [4, 5, 6]);
    assert_eq!(at(19, 29), [4, 5, 6]);
    assert_eq!(at(15, 30), [0, 0, 0]);
    assert_eq!(at(19, 49), [0, 0, 0]);
}

#[test]
fn canvas_places_pixels_at_cumulative_offsets() {
    let a = Fragment::new(1, 1, vec![1, 2, 3]);
    let b = Fragment::new(2, 2, vec![4, 4, 4, 5, 5, 5, 6, 6, 6, 7, 7, 7]);
    let canvas = compose_canvas(&vec![a, b]);
    assert_eq!(canvas.width, 3);
    assert_eq!(canvas.height, 2);
    assert_eq!(
        canvas.pixels,
        vec![1, 2, 3, 4, 4, 4, 5, 5, 5, 0, 0, 0, 6, 6, 6, 7, 7, 7]
    );
}

#[test]
fn canvas_of_nothing_is_empty() {
    let canvas = compose_canvas(&Vec::new());
    assert_eq!(canvas.width, 0);
    assert_eq!(canvas.height, 0);
    assert!(canvas.pixels.is_empty());
}

#[test]
fn corrupt_file_is_skipped_and_counted() {
    let results = vec![
        Some(solid(1, 1, [1, 1, 1])),
        None,
        Some(solid(1, 1, [2, 2, 2])),
        Some(solid(1, 1, [3, 3, 3])),
    ];
    let (kept, failed) = keep_decoded(results);
    assert_eq!(failed, 1);
    assert_eq!(kept.len(), 3);
    assert_eq!(kept[0].pixels, vec![1, 1, 1]);
    assert_eq!(kept[1].pixels, vec![2, 2, 2]);
    assert_eq!(kept[2].pixels, vec![3, 3, 3]);
}

use voxelshape_conv::geometry::AABox;
use voxelshape_conv::merging::merge_touching;

fn as_sorted_tuples(boxes: &[AABox]) -> Vec<(u32, u32, u32, u32, u32, u32)> {
    let mut v: Vec<(u32, u32, u32, u32, u32, u32)> = boxes
        .iter()
        .map(|b| (b.0, b.1, b.2, b.3, b.4, b.5))
        .collect();
    v.sort();
    v
}

#[test]
fn face_sharing_merge() {
    // Two boxes sharing the face x = 8 collapse into one covering both.
    let boxes = vec![AABox(0, 0, 0, 8, 16, 16), AABox(8, 0, 0, 16, 16, 16)];
    let merged = merge_touching(&boxes);
    assert_eq!(merged, vec![AABox(0, 0, 0, 16, 16, 16)]);
}

#[test]
fn disjoint_boxes_stay_apart() {
    let a = AABox(0, 0, 0, 4, 4, 4);
    let b = AABox(10, 10, 10, 14, 14, 14);
    let merged = merge_touching(&vec![a, b]);
    assert_eq!(merged, vec![a, b]);
}

#[test]
fn empty_input_gives_empty_output() {
    let merged = merge_touching(&Vec::new());
    assert!(merged.is_empty());
}

#[test]
fn single_box_passes_through() {
    let a = AABox(1, 2, 3, 4, 5, 6);
    assert_eq!(merge_touching(&vec![a]), vec![a]);
}

#[test]
fn overlapping_boxes_merge_to_union() {
    let merged = merge_touching(&vec![AABox(0, 0, 0, 5, 5, 5), AABox(4, 4, 4, 9, 9, 9)]);
    assert_eq!(merged, vec![AABox(0, 0, 0, 9, 9, 9)]);
}

#[test]
fn equal_boxes_merge_to_one() {
    let a = AABox(2, 2, 2, 6, 6, 6);
    assert_eq!(merge_touching(&vec![a, a]), vec![a]);
}

#[test]
fn corner_touch_counts_as_touching() {
    let merged = merge_touching(&vec![AABox(0, 0, 0, 4, 4, 4), AABox(4, 4, 4, 8, 8, 8)]);
    assert_eq!(merged, vec![AABox(0, 0, 0, 8, 8, 8)]);
}

#[test]
fn nested_boxes_merge_without_growing() {
    // A box inside another touches it; the merge keeps the outer bounds,
    // so the union volume is unchanged even though a merge happened.
    let merged = merge_touching(&vec![AABox(0, 0, 0, 16, 16, 16), AABox(4, 4, 4, 8, 8, 8)]);
    assert_eq!(merged, vec![AABox(0, 0, 0, 16, 16, 16)]);
}

#[test]
fn merge_is_idempotent_on_samples() {
    let inputs = vec![
        AABox(0, 0, 0, 8, 16, 16),
        AABox(8, 0, 0, 16, 16, 16),
        AABox(20, 20, 20, 24, 24, 24),
        AABox(23, 20, 20, 30, 24, 24),
    ];
    let once = merge_touching(&inputs);
    let twice = merge_touching(&once);
    assert_eq!(once, twice);
}

#[test]
fn merge_ignores_input_order() {
    let a = AABox(0, 0, 0, 4, 16, 16);
    let b = AABox(4, 0, 0, 8, 16, 16);
    let c = AABox(9, 0, 0, 12, 16, 16);
    let d = AABox(12, 0, 0, 16, 16, 16);
    let one = merge_touching(&vec![a, b, c, d]);
    let other = merge_touching(&vec![d, b, a, c]);
    assert_eq!(as_sorted_tuples(&one), as_sorted_tuples(&other));
}

#[test]
fn chain_of_touching_boxes_collapses() {
    let merged = merge_touching(&vec![
        AABox(0, 0, 0, 4, 4, 4),
        AABox(4, 0, 0, 8, 4, 4),
        AABox(8, 0, 0, 12, 4, 4),
    ]);
    assert_eq!(merged, vec![AABox(0, 0, 0, 12, 4, 4)]);
}

#[test]
fn zero_volume_box_still_merges() {
    // A degenerate box on the face of another disappears into it.
    let merged = merge_touching(&vec![AABox(0, 0, 0, 8, 8, 8), AABox(8, 4, 4, 8, 4, 4)]);
    assert_eq!(merged, vec![AABox(0, 0, 0, 8, 8, 8)]);
}

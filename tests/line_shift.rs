use game2048::field::{Field, ShiftDir};

fn shift(line: &[u64], dir: ShiftDir) -> (Vec<u64>, u64) {
    Field::shift_vec(&line.to_vec(), dir)
}

#[test]
fn four_equal_tiles_make_two_merges() {
    assert_eq!(shift(&[2, 2, 2, 2], ShiftDir::Direct), (vec![4, 4, 0, 0], 8));
}

#[test]
fn merged_tile_does_not_merge_again() {
    assert_eq!(shift(&[2, 2, 2, 0], ShiftDir::Direct), (vec![4, 2, 0, 0], 4));
}

#[test]
fn three_equal_tiles_toward_end() {
    assert_eq!(shift(&[0, 2, 2, 2], ShiftDir::Reverse), (vec![0, 0, 2, 4], 4));
}

#[test]
fn gaps_close_in_both_directions() {
    assert_eq!(shift(&[0, 2, 0, 2], ShiftDir::Direct), (vec![4, 0, 0, 0], 4));
    assert_eq!(shift(&[0, 2, 0, 2], ShiftDir::Reverse), (vec![0, 0, 0, 4], 4));
}

#[test]
fn empty_line_is_stable() {
    assert_eq!(shift(&[0, 0, 0, 0], ShiftDir::Direct), (vec![0, 0, 0, 0], 0));
    assert_eq!(shift(&[0, 0, 0, 0], ShiftDir::Reverse), (vec![0, 0, 0, 0], 0));
}

#[test]
fn compacted_line_is_unchanged() {
    assert_eq!(shift(&[2, 4, 8, 0], ShiftDir::Direct), (vec![2, 4, 8, 0], 0));
    assert_eq!(shift(&[0, 2, 4, 2], ShiftDir::Reverse), (vec![0, 2, 4, 2], 0));
}

#[test]
fn shift_without_merge_keeps_tiles_in_order() {
    assert_eq!(shift(&[0, 2, 0, 4], ShiftDir::Direct), (vec![2, 4, 0, 0], 0));
    assert_eq!(shift(&[8, 0, 2, 0], ShiftDir::Reverse), (vec![0, 0, 8, 2], 0));
}

#[test]
fn second_shift_after_merge_can_merge_again() {
    let (once, points) = shift(&[2, 2, 4, 0], ShiftDir::Direct);
    assert_eq!((once.clone(), points), (vec![4, 4, 0, 0], 4));
    assert_eq!(shift(&once, ShiftDir::Direct), (vec![8, 0, 0, 0], 8));
}

#[test]
fn different_neighbours_do_not_merge() {
    assert_eq!(shift(&[2, 4, 2, 4], ShiftDir::Direct), (vec![2, 4, 2, 4], 0));
    assert_eq!(shift(&[4, 4, 8, 8], ShiftDir::Reverse), (vec![0, 0, 8, 16], 24));
}

#[test]
fn doubling_saturates_at_largest_value() {
    let big = u64::MAX;
    assert_eq!(shift(&[big, big], ShiftDir::Direct), (vec![big, 0], big));
}

#[test]
fn points_saturate() {
    let half = 1u64 << 63;
    assert_eq!(
        shift(&[half, half, half, half], ShiftDir::Direct),
        (vec![u64::MAX, u64::MAX, 0, 0], u64::MAX)
    );
}

#[test]
fn empty_and_single_lines() {
    assert_eq!(shift(&[], ShiftDir::Direct), (vec![], 0));
    assert_eq!(shift(&[4], ShiftDir::Reverse), (vec![4], 0));
    assert_eq!(shift(&[0, 0, 4], ShiftDir::Direct), (vec![4, 0, 0], 0));
}

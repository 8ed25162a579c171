use game2048::field::{Field, ShiftDim, ShiftDir};

const ALL_SHIFTS: [(ShiftDim, ShiftDir); 4] = [
    (ShiftDim::Horizontal, ShiftDir::Direct),
    (ShiftDim::Horizontal, ShiftDir::Reverse),
    (ShiftDim::Vertical, ShiftDir::Direct),
    (ShiftDim::Vertical, ShiftDir::Reverse),
];

fn cells(field: &Field) -> Vec<Vec<u64>> {
    let n = field.size();
    (0..n).map(|r| (0..n).map(|c| field.matrix(r, c)).collect()).collect()
}

fn empty_count(field: &Field) -> usize {
    cells(field).iter().flatten().filter(|&&v| v == 0).count()
}

#[test]
fn new_board_is_empty_and_square() {
    let field = Field::new(4);
    assert_eq!(field.size(), 4);
    assert_eq!(cells(&field), vec![vec![0; 4]; 4]);
}

#[test]
fn empty_board_shift_has_no_effect() {
    for (dim, dir) in ALL_SHIFTS {
        let mut field = Field::new(4);
        assert_eq!(field.shift(dim, dir), None);
        assert_eq!(cells(&field), vec![vec![0; 4]; 4]);
    }
}

#[test]
fn spawn_on_single_cell_board_fills_it() {
    for _ in 0..200 {
        let mut field = Field::new(1);
        assert!(field.add_random_cell());
        let v = field.matrix(0, 0);
        assert!(v == 2 || v == 4);
    }
}

#[test]
fn spawn_fills_the_only_empty_cell() {
    for _ in 0..100 {
        let mut field = Field::new(2);
        for _ in 0..3 {
            assert!(field.add_random_cell());
        }
        assert_eq!(empty_count(&field), 1);
        assert!(field.add_random_cell());
        assert_eq!(empty_count(&field), 0);
    }
}

#[test]
fn spawn_places_one_base_tile() {
    let mut field = Field::new(4);
    assert!(field.add_random_cell());
    let all = cells(&field);
    let tiles: Vec<u64> = all.iter().flatten().copied().filter(|&v| v != 0).collect();
    assert_eq!(tiles.len(), 1);
    assert!(tiles[0] == 2 || tiles[0] == 4);
}

#[test]
fn spawn_is_spread_evenly() {
    let trials = 4000;
    let mut counts = [[0usize; 2]; 2];
    let mut values = [0usize; 2];
    for _ in 0..trials {
        let mut field = Field::new(2);
        assert!(field.add_random_cell());
        for r in 0..2 {
            for c in 0..2 {
                let v = field.matrix(r, c);
                if v != 0 {
                    counts[r][c] += 1;
                    values[if v == 2 { 0 } else { 1 }] += 1;
                }
            }
        }
    }
    for row in counts {
        for n in row {
            assert!(n > 800 && n < 1200, "cell chosen {} times of {}", n, trials);
        }
    }
    for n in values {
        assert!(n > 1700 && n < 2300, "value chosen {} times of {}", n, trials);
    }
}

#[test]
fn spawn_on_full_board_fails_without_change() {
    let mut field = Field::new(3);
    for _ in 0..9 {
        assert!(field.add_random_cell());
    }
    let before = cells(&field);
    assert!(!field.add_random_cell());
    assert_eq!(cells(&field), before);
}

#[test]
fn single_tile_moves_to_each_corner() {
    let mut field = Field::new(3);
    assert!(field.add_random_cell());
    let v = cells(&field).iter().flatten().copied().find(|&v| v != 0).unwrap();
    field.shift(ShiftDim::Horizontal, ShiftDir::Direct);
    field.shift(ShiftDim::Vertical, ShiftDir::Direct);
    assert_eq!(field.matrix(0, 0), v);
    assert_eq!(field.shift(ShiftDim::Horizontal, ShiftDir::Reverse), Some(0));
    assert_eq!(field.shift(ShiftDim::Vertical, ShiftDir::Reverse), Some(0));
    assert_eq!(field.matrix(2, 2), v);
    assert_eq!(empty_count(&field), 8);
}

#[test]
fn repeated_shift_after_compaction_has_no_effect() {
    let mut field = Field::new(2);
    assert!(field.add_random_cell());
    field.shift(ShiftDim::Vertical, ShiftDir::Reverse);
    let before = cells(&field);
    assert_eq!(field.shift(ShiftDim::Vertical, ShiftDir::Reverse), None);
    assert_eq!(cells(&field), before);
}

#[test]
fn shifts_keep_the_sum_of_tiles() {
    // On a full 2x2 board, a shift that reports no effect leaves the board as
    // it was, one that reports points changes it, and merges keep the sum.
    for _ in 0..50 {
        let mut field = Field::new(2);
        for _ in 0..4 {
            assert!(field.add_random_cell());
        }
        let sum_before: u64 = cells(&field).iter().flatten().sum();
        for (dim, dir) in ALL_SHIFTS {
            let before = cells(&field);
            match field.shift(dim, dir) {
                None => assert_eq!(cells(&field), before),
                Some(_) => assert_ne!(cells(&field), before),
            }
        }
        let sum_after: u64 = cells(&field).iter().flatten().sum();
        assert_eq!(sum_before, sum_after);
    }
}

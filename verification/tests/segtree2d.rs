use range_fold::segtree2d::TwoDimensionalSegtree;
use range_fold::values::{Concat, SumU32};

fn cat(s: &str) -> Concat {
    Concat::new(s.bytes().collect())
}

fn letter_grid() -> Vec<Vec<Concat>> {
    // 4 x 5 grid of single letters 'a' .. 't', row-major.
    let mut rows = Vec::new();
    let mut c = b'a';
    for _ in 0..4 {
        let mut row = Vec::new();
        for _ in 0..5 {
            row.push(Concat::new(vec![c]));
            c += 1;
        }
        rows.push(row);
    }
    rows
}

#[test]
fn test_hand_two_dimensional() {
    let table = letter_grid();
    let seg = TwoDimensionalSegtree::from_slice_vec(table.as_slice());

    assert_eq!(seg.fold(1..2, 2..3), Some(cat("h")));
    assert_eq!(seg.fold(1..3, 2..4), Some(cat("himn")));
    assert_eq!(seg.fold(0..4, 0..5), Some(cat("abcdefghijklmnopqrst")));
    assert_eq!(seg.fold(1..4, 1..2), Some(cat("glq")));

    assert_eq!(seg.to_vec(), table);
}

#[test]
fn two_dimensional_update_and_empty_ranges() {
    let table = letter_grid();
    let mut seg = TwoDimensionalSegtree::from_slice_vec(table.as_slice());

    assert_eq!(seg.fold(2..2, 0..5), None);
    assert_eq!(seg.fold(0..4, 3..3), None);

    seg.update(1, 2, cat("H"));
    assert_eq!(seg.fold(1..2, 2..3), Some(cat("H")));
    assert_eq!(seg.fold(1..3, 2..4), Some(cat("Himn")));
    assert_eq!(seg.fold(0..1, 0..5), Some(cat("abcde")));
}

#[test]
fn two_dimensional_fold_agrees_with_plain_grid() {
    // 2D agreement on every rectangle of a numeric grid.
    let raw: Vec<Vec<u32>> = vec![
        vec![3, 1, 4, 1, 5],
        vec![9, 2, 6, 5, 3],
        vec![5, 8, 9, 7, 9],
        vec![3, 2, 3, 8, 4],
    ];
    let grid: Vec<Vec<SumU32>> =
        raw.iter().map(|r| r.iter().map(|&v| SumU32::new(v)).collect()).collect();
    let seg = TwoDimensionalSegtree::from_slice_vec(grid.as_slice());
    for r0 in 0..=4usize {
        for r1 in r0..=4usize {
            for c0 in 0..=5usize {
                for c1 in c0..=5usize {
                    let mut expected: Option<u32> = None;
                    for r in r0..r1 {
                        for c in c0..c1 {
                            expected = Some(expected.unwrap_or(0).wrapping_add(raw[r][c]));
                        }
                    }
                    assert_eq!(seg.fold(r0..r1, c0..c1).map(|v| v.get()), expected);
                }
            }
        }
    }
}

#[test]
fn two_dimensional_fold_horizontally_reads_one_row() {
    let table = letter_grid();
    let seg = TwoDimensionalSegtree::from_slice_vec(table.as_slice());
    // Physical rows 4..8 are the grid rows 0..4.
    assert_eq!(seg.fold_horizontally(4, 0..5), Some(cat("abcde")));
    assert_eq!(seg.fold_horizontally(6, 1..4), Some(cat("lmn")));
    assert_eq!(seg.fold_horizontally(7, 2..2), None);
}

use rand::rngs::StdRng;
use rand::{Rng, SeedableRng};
use range_fold::values::SumU32;
use range_fold::{Fenwick2d, TwoDimensionalSegtree};

const TEST_COUNT: usize = 20;
const QUERY_COUNT: usize = 2000;
const VALUE_MININUM: u32 = 0;
const VALUE_LIMIT: u32 = 10;

fn gen_value(rng: &mut StdRng) -> u32 {
    rng.gen_range(VALUE_MININUM, VALUE_LIMIT)
}

fn gen_index(rng: &mut StdRng, n: usize) -> usize {
    rng.gen_range(0, n)
}

fn naive_upper_bound(b: &[u32], x: u32) -> usize {
    b.iter().filter(|&&v| v <= x).count() - 1
}

#[test]
fn test_hand_fenwick_2d_random() {
    let mut rng: StdRng = SeedableRng::seed_from_u64(42);

    for _ in 0..TEST_COUNT {
        let h = rng.gen_range(6, 20);
        let w = rng.gen_range(6, 20);
        let mut table = {
            std::iter::repeat_with(|| {
                std::iter::repeat_with(|| gen_value(&mut rng)).take(w).collect::<Vec<_>>()
            })
            .take(h)
            .collect::<Vec<_>>()
        };
        let mut fenwick = Fenwick2d::from_slice_vec(&table);

        for _ in 0..QUERY_COUNT {
            match rng.gen_range(0, 100) {
                // double prefix sum
                0..=39 => {
                    let i = gen_index(&mut rng, h);
                    let j = gen_index(&mut rng, w);
                    let expected =
                        table[..i].iter().map(|row| row[..j].iter()).flatten().sum::<u32>();
                    let result = fenwick.double_prefix_sum(i, j);
                    assert_eq!(expected, result);
                }
                // add
                40..=79 => {
                    let i = gen_index(&mut rng, h);
                    let j = gen_index(&mut rng, w);
                    let x = gen_value(&mut rng);
                    table[i][j] += x;
                    fenwick.add(i, j, x);
                }
                // horizontal upper bound
                80..=99 => {
                    let i = gen_index(&mut rng, h);
                    let x = rng.gen_range(
                        VALUE_MININUM * (h * w / 16) as u32,
                        VALUE_LIMIT * (h * w / 16) as u32,
                    );
                    let mut b = vec![0; w + 1];
                    for v in &table[..i] {
                        b.iter_mut().skip(1).zip(v.iter()).for_each(|(x, y)| *x += y);
                    }
                    for c in 0..w {
                        b[c + 1] += b[c];
                    }
                    let expected = naive_upper_bound(&b, x);
                    let result = fenwick.horizontal_upper_bound(i, &x);
                    assert_eq!(expected, result);
                }
                _ => unreachable!(),
            }
        }
    }
}

#[test]
fn fenwick_2d_prefix_sums_match_naive() {
    let grid: Vec<Vec<u32>> = vec![
        vec![3, 1, 4, 1, 5],
        vec![9, 2, 6, 5, 3],
        vec![5, 8, 9, 7, 9],
        vec![3, 2, 3, 8, 4],
    ];
    let fenwick = Fenwick2d::from_slice_vec(&grid);
    for i in 0..=4usize {
        for j in 0..=5usize {
            let expected: u32 = grid[..i].iter().map(|r| r[..j].iter().sum::<u32>()).sum();
            assert_eq!(fenwick.double_prefix_sum(i, j), expected, "({}, {})", i, j);
        }
    }
}

#[test]
fn fenwick_2d_add_moves_rectangles() {
    let grid: Vec<Vec<u32>> = vec![vec![1, 2], vec![3, 4]];
    let mut fenwick = Fenwick2d::from_slice_vec(&grid);
    fenwick.add(0, 1, 10);
    assert_eq!(fenwick.double_prefix_sum(1, 2), 13);
    assert_eq!(fenwick.double_prefix_sum(1, 1), 1);
    assert_eq!(fenwick.double_prefix_sum(2, 2), 20);
}

#[test]
fn fenwick_2d_agrees_with_segment_tree() {
    let raw: Vec<Vec<u32>> = vec![
        vec![2, 7, 1, 8],
        vec![2, 8, 1, 8],
        vec![2, 8, 4, 5],
    ];
    let fenwick = Fenwick2d::from_slice_vec(&raw);
    let grid: Vec<Vec<SumU32>> =
        raw.iter().map(|r| r.iter().map(|&v| SumU32::new(v)).collect()).collect();
    let seg = TwoDimensionalSegtree::from_slice_vec(grid.as_slice());
    // On sums, rectangle folds and inclusion-exclusion over prefix sums
    // must agree with the plain grid for every rectangle.
    for r0 in 0..=3usize {
        for r1 in r0..=3usize {
            for c0 in 0..=4usize {
                for c1 in c0..=4usize {
                    let naive: u32 =
                        (r0..r1).map(|r| raw[r][c0..c1].iter().sum::<u32>()).sum();
                    let by_prefix = fenwick.double_prefix_sum(r1, c1)
                        + fenwick.double_prefix_sum(r0, c0)
                        - fenwick.double_prefix_sum(r0, c1)
                        - fenwick.double_prefix_sum(r1, c0);
                    assert_eq!(by_prefix, naive);
                    let folded = seg.fold(r0..r1, c0..c1).map(|v| v.get()).unwrap_or(0);
                    assert_eq!(folded, naive);
                }
            }
        }
    }
}

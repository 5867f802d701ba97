use rand::rngs::StdRng;
use rand::{Rng, SeedableRng};
use range_fold::fenwick::Fenwick;

const TEST_COUNT: usize = 20;
const QUERY_COUNT: usize = 2000;
const VALUE_MININUM: u32 = 0;
const VALUE_LIMIT: u32 = 100;

fn gen_value(rng: &mut StdRng) -> u32 {
    rng.gen_range(VALUE_MININUM, VALUE_LIMIT)
}

fn gen_index(rng: &mut StdRng, n: usize) -> usize {
    rng.gen_range(0, n)
}

// Index of the first prefix sum exceeding `x`, minus one: the largest
// prefix length whose sum stays within `x`.
fn naive_upper_bound(b: &[u32], x: u32) -> usize {
    b.iter().filter(|&&v| v <= x).count() - 1
}

#[test]
fn test_hand_fenwick_random() {
    assert_eq!(2 + 2, 4);
    let mut rng: StdRng = SeedableRng::seed_from_u64(42);

    for _ in 0..TEST_COUNT {
        let mut a = {
            let n = rng.gen_range(6, 20);
            std::iter::repeat_with(|| gen_value(&mut rng)).take(n).collect::<Vec<_>>()
        };
        let mut fenwick = Fenwick::from_slice(&a);

        println!("CREATED AN INSTANCE: a = {:?}", &a);

        for _ in 0..QUERY_COUNT {
            match rng.gen_range(0, 100) {
                // push
                0..=19 => {
                    let x = gen_value(&mut rng);
                    a.push(x);
                    fenwick.push(x);
                    println!("Push ( x = {} )", x);
                }
                // prefix_sum
                20..=39 => {
                    let i = gen_index(&mut rng, a.len());
                    let expected = a[..i].iter().sum::<u32>();
                    let result = fenwick.prefix_sum(i);
                    println!(
                        "Prefix sum ( i = {} ) -> ( expected = {}, result = {}), a = {:?}",
                        i, expected, result, &a
                    );
                    assert_eq!(expected, result);
                }
                // add
                40..=79 => {
                    let i = gen_index(&mut rng, a.len());
                    let x = gen_value(&mut rng);
                    println!("Add ( i = {}, x = {}) )", i, x);
                    a[i] += x;
                    fenwick.add(i, x);
                }
                // upper_bound
                80..=99 => {
                    let x = rng.gen_range(
                        VALUE_MININUM * (a.len() / 2) as u32,
                        VALUE_LIMIT * (a.len() / 2) as u32,
                    );
                    let mut b = vec![0; a.len() + 1];
                    for (i, &x) in a.iter().enumerate() {
                        b[i + 1] = b[i] + x;
                    }
                    let expected = naive_upper_bound(&b, x);
                    let result = fenwick.upper_bound(&x);
                    println!(
                        "Upper bound ( x = {} ) -> ( expected = {}, result = {} ), a = {:?}",
                        x, expected, result, &a
                    );
                    assert_eq!(expected, result);
                }
                _ => unreachable!(),
            }
        }
        println!();
    }
}

#[test]
fn fenwick_prefix_sums_from_slice() {
    let fenwick = Fenwick::from_slice(&[1, 2, 3, 4]);
    assert_eq!(fenwick.prefix_sum(4), 10);
    assert_eq!(fenwick.prefix_sum(0), 0);
    assert_eq!(fenwick.prefix_sum(1), 1);
    assert_eq!(fenwick.prefix_sum(3), 6);
}

#[test]
fn fenwick_add_shifts_later_prefixes() {
    let mut fenwick = Fenwick::from_slice(&[1, 2, 3, 4]);
    fenwick.add(1, 5);
    assert_eq!(fenwick.prefix_sum(4), 15);
    assert_eq!(fenwick.prefix_sum(2), 8);
    assert_eq!(fenwick.prefix_sum(1), 1);
}

#[test]
fn fenwick_push_extends_the_array() {
    let mut fenwick = Fenwick::new(0);
    for (k, x) in [5u32, 1, 4, 1, 5, 9, 2, 6].iter().enumerate() {
        fenwick.push(*x);
        assert_eq!(fenwick.prefix_sum(k + 1), [5u32, 1, 4, 1, 5, 9, 2, 6][..k + 1].iter().sum());
    }
}

#[test]
fn fenwick_upper_bound_matches_linear_scan() {
    let a: Vec<u32> = vec![3, 0, 2, 5, 0, 0, 7, 1];
    let fenwick = Fenwick::from_slice(&a);
    let mut b = vec![0u32; a.len() + 1];
    for (i, &x) in a.iter().enumerate() {
        b[i + 1] = b[i] + x;
    }
    for x in 0..20u32 {
        let expected = naive_upper_bound(&b, x);
        assert_eq!(fenwick.upper_bound(&x), expected, "x = {}", x);
    }
}

#[test]
fn fenwick_wrapping_arithmetic() {
    let mut fenwick = Fenwick::from_slice(&[u32::MAX, 1]);
    assert_eq!(fenwick.prefix_sum(2), 0);
    fenwick.add(1, u32::MAX);
    assert_eq!(fenwick.prefix_sum(2), u32::MAX);
}

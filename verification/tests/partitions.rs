use range_fold::partitions::partition_fn_table;
use range_fold::{conjugate, partitions};

// Reference: https://oeis.org/A000041
const PARTITION_FN_TABLE: [i32; 50] = [
    1, 1, 2, 3, 5, 7, 11, 15, 22, 30, 42, 56, 77, 101, 135, 176, 231, 297, 385, 490, 627, 792,
    1002, 1255, 1575, 1958, 2436, 3010, 3718, 4565, 5604, 6842, 8349, 10143, 12310, 14883, 17977,
    21637, 26015, 31185, 37338, 44583, 53174, 63261, 75175, 89134, 105558, 124754, 147273, 173525,
];

fn all_partitions(n: usize) -> Vec<Vec<usize>> {
    let mut out = Vec::new();
    let mut it = partitions(n);
    while let Some(p) = it.next() {
        out.push(p);
    }
    out
}

#[test]
fn test_partition_fn_table() {
    let result = partition_fn_table::<i32>(PARTITION_FN_TABLE.len());
    assert_eq!(PARTITION_FN_TABLE.to_vec(), result);
}

#[test]
fn test_partitions() {
    for i in 0..20 {
        assert_eq!(PARTITION_FN_TABLE[i], all_partitions(i).len() as i32);
    }
}

#[test]
fn test_conjugation_involutive() {
    for i in 0..15 {
        for p in all_partitions(i) {
            let q = conjugate(&p);
            let r = conjugate(&q);
            assert_eq!(p, r);
        }
    }
}

#[test]
fn partitions_are_sorted_and_sum_to_n() {
    for n in 0..12usize {
        for p in all_partitions(n) {
            assert_eq!(p.iter().sum::<usize>(), n);
            for w in p.windows(2) {
                assert!(w[0] >= w[1], "{:?} is not weakly decreasing", p);
            }
        }
    }
}

#[test]
fn conjugate_counts_tall_parts() {
    let p = vec![5, 3, 3, 1];
    let q = conjugate(&p);
    assert_eq!(q, vec![4, 3, 3, 1, 1]);
    assert_eq!(conjugate(&[]), Vec::<usize>::new());
}

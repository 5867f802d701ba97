use range_fold::Segtree;
use range_fold::values::{Concat, SumU32};

fn cat(s: &str) -> Concat {
    Concat::new(s.bytes().collect())
}

#[test]
fn test_string_concatenation() {
    let a: Vec<Concat> = ('0'..='9').map(|c| cat(&c.to_string())).collect();
    let mut seg = Segtree::with_slice(a.as_slice());

    assert_eq!(seg.fold(3..5), Some(cat("34")));
    assert_eq!(seg.fold(2..9), Some(cat("2345678")));
    assert_eq!(seg.fold(0..4), Some(cat("0123")));
    assert_eq!(seg.fold(8..8), None);

    seg.set(3, cat("d"));
    seg.set(6, cat("g"));
    assert_eq!(seg.fold(0..4), Some(cat("012d")));
    assert_eq!(seg.fold(2..9), Some(cat("2d45g78")));
}

#[test]
fn segtree_fold_agrees_with_naive_reduction() {
    let raw: Vec<u32> = vec![5, 1, 4, 1, 5, 9, 2, 6, 5, 3, 5, 8, 9, 7];
    let a: Vec<SumU32> = raw.iter().map(|&v| SumU32::new(v)).collect();
    let seg = Segtree::with_slice(a.as_slice());
    for s in 0..=raw.len() {
        for e in s..=raw.len() {
            let expected: Option<u32> = if s == e {
                None
            } else {
                Some(raw[s..e].iter().fold(0u32, |x, &y| x.wrapping_add(y)))
            };
            assert_eq!(seg.fold(s..e).map(|v| v.get()), expected);
        }
    }
}

#[test]
fn segtree_fold_keeps_left_to_right_order() {
    let a: Vec<Concat> = ["ab", "c", "", "def", "g", "hi", "j"].iter().map(|s| cat(s)).collect();
    let seg = Segtree::with_slice(a.as_slice());
    assert_eq!(seg.fold(0..7), Some(cat("abcdefghij")));
    assert_eq!(seg.fold(1..4), Some(cat("cdef")));
    assert_eq!(seg.fold(3..6), Some(cat("defghi")));
}

#[test]
fn segtree_set_updates_only_covering_ranges() {
    let raw: Vec<u32> = vec![3, 1, 4, 1, 5, 9, 2, 6];
    let mut naive = raw.clone();
    let a: Vec<SumU32> = raw.iter().map(|&v| SumU32::new(v)).collect();
    let mut seg = Segtree::with_slice(a.as_slice());

    naive[5] = 100;
    seg.set(5, SumU32::new(100));
    naive[0] = 7;
    seg.set(0, SumU32::new(7));

    for s in 0..=naive.len() {
        for e in s..=naive.len() {
            let expected: Option<u32> = if s == e {
                None
            } else {
                Some(naive[s..e].iter().fold(0u32, |x, &y| x.wrapping_add(y)))
            };
            assert_eq!(seg.fold(s..e).map(|v| v.get()), expected);
        }
    }
}

#[test]
fn segtree_single_leaf() {
    let a = vec![cat("only")];
    let mut seg = Segtree::with_slice(a.as_slice());
    assert_eq!(seg.fold(0..1), Some(cat("only")));
    assert_eq!(seg.fold(0..0), None);
    assert_eq!(seg.fold(1..1), None);
    seg.set(0, cat("new"));
    assert_eq!(seg.fold(0..1), Some(cat("new")));
}

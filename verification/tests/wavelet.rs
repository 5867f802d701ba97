use range_fold::wavelet::{WaveletMatrix, WaveletMatrixRow};

const VEC_SIZE: usize = 40;
const VALUE_LIMIT_SMALL: u32 = 6;
const VALUE_LIMIT_LARGE: u32 = 256;

fn random_value(value_limit: u32) -> u32 {
    rand::random::<u32>() % value_limit
}

fn random_vec(len: usize, value_limit: u32) -> Vec<u32> {
    std::iter::repeat_with(|| random_value(value_limit)).take(len).collect()
}

struct TestInstance {
    value_limit: u32,
    vector: Vec<u32>,
    matrix: WaveletMatrix,
}

impl TestInstance {
    fn new_large() -> Self {
        Self::with_len_and_value_max(VEC_SIZE, VALUE_LIMIT_LARGE)
    }

    fn new_small() -> Self {
        Self::with_len_and_value_max(VEC_SIZE, VALUE_LIMIT_SMALL)
    }

    fn with_len_and_value_max(len: usize, value_limit: u32) -> Self {
        let vector = random_vec(len, value_limit);
        let matrix = WaveletMatrix::from_vec_of_u32(vector.clone());
        let res = Self { value_limit, vector, matrix };
        println!("Created an instance.\n");
        println!("vector:\n\t{:?}", &res.vector);
        println!();
        res
    }

    fn compare_many<T, I, A, F, G>(&self, iter: usize, init: I, f: F, g: G)
    where
        T: std::fmt::Debug + Eq,
        A: std::fmt::Debug,
        I: Fn(&Self) -> A,
        F: Fn(&Vec<u32>, &A) -> T,
        G: Fn(&WaveletMatrix, &A) -> T,
    {
        println!("Queries and Results:");
        println!("\tQuery\tExpect\tResult");
        std::iter::repeat_with(|| init(self)).take(iter).for_each(|x| {
            let expected = f(&self.vector, &x);
            let result = g(&self.matrix, &x);
            println!("\t{:?}\t{:?}\t{:?}", x, expected, result);
        });
    }

    fn random_index(&self) -> usize {
        rand::random::<usize>() % self.vector.len()
    }

    fn random_value(&self) -> u32 {
        rand::random::<u32>() % self.value_limit
    }

    fn count(&self, x: u32) -> usize {
        self.vector.iter().filter(|&&y| y == x).count()
    }
}

fn sample_hand() -> WaveletMatrix {
    let a = [5, 4, 5, 5, 2, 1, 5, 6, 1, 3, 5, 0];
    WaveletMatrix::from_vec_of_u32(a.to_vec())
}

#[test]
fn test_hand_access() {
    let a = sample_hand();
    assert_eq!(a.access(0), 5);
    assert_eq!(a.access(1), 4);
    assert_eq!(a.access(2), 5);
    assert_eq!(a.access(3), 5);
    assert_eq!(a.access(4), 2);
    assert_eq!(a.access(5), 1);
    assert_eq!(a.access(6), 5);
    assert_eq!(a.access(7), 6);
    assert_eq!(a.access(8), 1);
    assert_eq!(a.access(9), 3);
    assert_eq!(a.access(10), 5);
    assert_eq!(a.access(11), 0);
}

#[test]
fn test_hand_rank() {
    let a = sample_hand();

    assert_eq!(a.rank(5, 0), 0);
    assert_eq!(a.rank(5, 1), 1);
    assert_eq!(a.rank(5, 2), 1);
    assert_eq!(a.rank(5, 3), 2);
    assert_eq!(a.rank(5, 4), 3);
    assert_eq!(a.rank(5, 5), 3);
    assert_eq!(a.rank(5, 6), 3);
    assert_eq!(a.rank(5, 7), 4);
    assert_eq!(a.rank(5, 8), 4);
    assert_eq!(a.rank(5, 9), 4);
    assert_eq!(a.rank(5, 10), 4);
    assert_eq!(a.rank(5, 11), 5);
    assert_eq!(a.rank(5, 12), 5);
}

#[test]
fn test_hand_select() {
    let a = sample_hand();

    assert_eq!(a.select(5, 0), 0);
    assert_eq!(a.select(5, 1), 2);
    assert_eq!(a.select(5, 2), 3);
    assert_eq!(a.select(5, 3), 6);
}

const ITERATION: usize = 3;

#[test]
fn test_random_access_large() {
    for _ in 0..ITERATION {
        let instance = TestInstance::new_large();
        instance.compare_many(
            10,
            |me| me.random_index(),
            |vector, &i| vector[i],
            |matrix, &i| matrix.access(i),
        );
    }
}

#[test]
fn test_random_access_small() {
    for _ in 0..ITERATION {
        let instance = TestInstance::new_small();
        instance.compare_many(
            10,
            |me| me.random_index(),
            |vector, &i| vector[i],
            |matrix, &i| matrix.access(i),
        );
    }
}

#[test]
fn test_random_rank_large() {
    for _ in 0..ITERATION {
        let instance = TestInstance::new_large();
        instance.compare_many(
            10,
            |me| (me.random_value(), me.random_index()),
            |vector, &(x, i)| vector[i..].iter().filter(|&&y| y == x).count(),
            |matrix, &(x, i)| matrix.rank(x, i),
        );
    }
}

#[test]
fn test_random_rank_small() {
    for _ in 0..ITERATION {
        let instance = TestInstance::new_small();
        instance.compare_many(
            10,
            |me| (me.random_value(), me.random_index()),
            |vector, &(x, i)| vector[i..].iter().filter(|&&y| y == x).count(),
            |matrix, &(x, i)| matrix.rank(x, i),
        );
    }
}

#[test]
fn test_random_select_large() {
    for _ in 0..ITERATION {
        let instance = TestInstance::new_large();
        instance.compare_many(
            10,
            |me| {
                let x = me.vector[me.random_index()];
                let i = rand::random::<usize>() % me.count(x);
                (x, i)
            },
            |vector, &(x, i)| {
                vector.iter().enumerate().filter(|&(_, &y)| y == x).nth(i).unwrap().0
            },
            |matrix, &(x, i)| matrix.select(x, i),
        );
    }
}

#[test]
fn test_random_select_small() {
    for _ in 0..ITERATION {
        let instance = TestInstance::new_small();
        instance.compare_many(
            10,
            |me| {
                let x = me.vector[me.random_index()];
                let i = rand::random::<usize>() % me.count(x);
                (x, i)
            },
            |vector, &(x, i)| {
                vector.iter().enumerate().filter(|&(_, &y)| y == x).nth(i).unwrap().0
            },
            |matrix, &(x, i)| matrix.select(x, i),
        );
    }
}

#[test]
fn wavelet_access_rank_select_match_naive() {
    let a: Vec<u32> = vec![3, 7, 0, 3, 3, 1, 6, 7, 2, 3, 0, 5, 4, 3];
    let m = WaveletMatrix::from_vec_of_u32(a.clone());
    for (i, &v) in a.iter().enumerate() {
        assert_eq!(m.access(i), v);
    }
    for x in 0..8u32 {
        for i in 0..=a.len() {
            let expected = a[..i].iter().filter(|&&y| y == x).count();
            assert_eq!(m.rank(x, i), expected, "rank({}, {})", x, i);
        }
        let occurrences: Vec<usize> =
            a.iter().enumerate().filter(|&(_, &y)| y == x).map(|(p, _)| p).collect();
        for (k, &p) in occurrences.iter().enumerate() {
            assert_eq!(m.select(x, k), p, "select({}, {})", x, k);
        }
    }
}

#[test]
fn wavelet_row_enumerations() {
    let bits = vec![true, false, false, true, true, false];
    let row = WaveletMatrixRow::from_vec_of_bool(bits.clone());
    assert_eq!(row.enumerate_lower_bound(false, 0), 0);
    assert_eq!(row.enumerate_lower_bound(false, 6), 3);
    assert_eq!(row.enumerate_lower_bound(true, 0), 3);
    assert_eq!(row.enumerate_lower_bound(true, 6), 6);
    // Sorted order: zeros at positions 1, 2, 5 then ones at 0, 3, 4.
    assert_eq!(row.enumerate_sorted(0), (false, 1));
    assert_eq!(row.enumerate_sorted(1), (false, 2));
    assert_eq!(row.enumerate_sorted(2), (false, 5));
    assert_eq!(row.enumerate_sorted(3), (true, 0));
    assert_eq!(row.enumerate_sorted(4), (true, 3));
    assert_eq!(row.enumerate_sorted(5), (true, 4));
}

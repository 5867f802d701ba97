//! Array-backed range-query structures: an associative segment tree in one
//! and two dimensions, Fenwick (binary-indexed) trees over `u32` in one and
//! two dimensions, and a few self-contained number-theory utilities (greatest
//! common divisor, a smallest-prime-factor sieve, integer partitions, and a
//! succinct wavelet matrix).

pub mod bits;
pub mod factorization;
pub mod fenwick;
pub mod fenwick2d;
pub mod gcd;
pub mod partitions;
pub mod segtree;
pub mod segtree2d;
pub mod value;
pub mod wavelet;
pub mod values;

pub use factorization::FastFactrzation;
pub use fenwick::Fenwick;
pub use fenwick2d::Fenwick2d;
pub use gcd::gcd;
pub use partitions::{conjugate, partition_fn_table, partitions, Partitions, Ring};
pub use segtree::Segtree;
pub use segtree2d::TwoDimensionalSegtree;
pub use value::Value;
pub use wavelet::{WaveletMatrix, WaveletMatrixRow};

//! A two-dimensional Fenwick (binary-indexed) tree over `u32` values:
//! point-delta update, rectangular prefix sums, and a row-restricted
//! order-statistics search, all with wraparound arithmetic.
//!
//! The table has one row per grid row plus an unused row `0`, and one slot
//! per column plus an unused slot `0`; slot `(k, l)` stores the sum of the
//! grid rectangle `rows k - lsb(k) .. k`, `columns l - lsb(l) .. l`
//! (1-based), reduced modulo `2^32`.

use vstd::prelude::*;
use vstd::wrapping::u32_specs;

use crate::bits::{lsb, lsb_spec, is_power_of_two, lemma_lsb_basic, lemma_lsb_aligned_add,
    lemma_lsb_step_up, lemma_no_cell_between};
use crate::fenwick::{m32, sum_range, lemma_sum_split, lemma_sum_nonneg, lemma_sum_update,
    lemma_m32_add, lemma_m32_small, lemma_mod_shift, lemma_mod_half};

verus! {

/// The sum, as an unbounded integer, of the grid cells in
/// `rows r0 .. r1`, `columns c0 .. c1`.
pub open spec fn rect_sum(g: Seq<Seq<u32>>, r0: int, r1: int, c0: int, c1: int) -> int
    decreases r1 - r0,
    when r0 <= r1
{
    if r1 <= r0 {
        0
    } else {
        rect_sum(g, r0, r1 - 1, c0, c1) + sum_range(g[r1 - 1], c0, c1)
    }
}

/// A rectangle splits at any row.
pub proof fn lemma_rect_split_rows(g: Seq<Seq<u32>>, r0: int, rm: int, r1: int, c0: int, c1: int)
    requires
        r0 <= rm <= r1,
    ensures
        rect_sum(g, r0, r1, c0, c1) == rect_sum(g, r0, rm, c0, c1) + rect_sum(g, rm, r1, c0, c1),
    decreases r1 - rm,
{
    if rm < r1 {
        lemma_rect_split_rows(g, r0, rm, r1 - 1, c0, c1);
    }
}

/// A rectangle splits at any column.
pub proof fn lemma_rect_split_cols(g: Seq<Seq<u32>>, r0: int, r1: int, c0: int, cm: int, c1: int)
    requires
        r0 <= r1,
        c0 <= cm <= c1,
    ensures
        rect_sum(g, r0, r1, c0, c1) == rect_sum(g, r0, r1, c0, cm) + rect_sum(g, r0, r1, cm, c1),
    decreases r1 - r0,
{
    if r0 < r1 {
        lemma_rect_split_cols(g, r0, r1 - 1, c0, cm, c1);
        lemma_sum_split(g[r1 - 1], c0, cm, c1);
    }
}

/// A rectangle with no columns sums to zero.
pub proof fn lemma_rect_empty_cols(g: Seq<Seq<u32>>, r0: int, r1: int, c: int)
    requires
        r0 <= r1,
    ensures
        rect_sum(g, r0, r1, c, c) == 0,
{
    lemma_rect_split_cols(g, r0, r1, c, c, c);
}

/// Rectangle sums of `u32` cells are non-negative.
pub proof fn lemma_rect_nonneg(g: Seq<Seq<u32>>, r0: int, r1: int, c0: int, c1: int)
    requires
        r0 <= r1,
        c0 <= c1,
    ensures
        rect_sum(g, r0, r1, c0, c1) >= 0,
    decreases r1 - r0,
{
    if r0 < r1 {
        lemma_rect_nonneg(g, r0, r1 - 1, c0, c1);
        lemma_sum_nonneg(g[r1 - 1], c0, c1);
    }
}

/// Updating one cell shifts a rectangle sum by the difference at that
/// cell, and leaves rectangles that exclude the cell unchanged.
pub proof fn lemma_rect_update(
    g: Seq<Seq<u32>>,
    i: int,
    j: int,
    v: u32,
    r0: int,
    r1: int,
    c0: int,
    c1: int,
)
    requires
        0 <= i < g.len(),
        0 <= j < g[i].len(),
        0 <= r0 <= r1 <= g.len(),
        0 <= c0 <= c1,
        forall|r: int| 0 <= r < g.len() ==> c1 <= (#[trigger] g[r]).len(),
    ensures
        rect_sum(g.update(i, g[i].update(j, v)), r0, r1, c0, c1) == rect_sum(g, r0, r1, c0, c1)
            + (if r0 <= i < r1 && c0 <= j < c1 {
            v - g[i][j]
        } else {
            0
        }),
    decreases r1 - r0,
{
    let g2 = g.update(i, g[i].update(j, v));
    if r0 < r1 {
        lemma_rect_update(g, i, j, v, r0, r1 - 1, c0, c1);
        if r1 - 1 == i {
            lemma_sum_update(g[i], j, v, c0, c1);
        } else {
            assert(g2[r1 - 1] == g[r1 - 1]);
        }
    }
}

/// A two-dimensional Fenwick tree over a logical grid of `u32` values;
/// the view `self@` is that grid. All arithmetic wraps modulo `2^32`.
pub struct Fenwick2d {
    table: Vec<Vec<u32>>,
    values: Ghost<Seq<Seq<u32>>>,
}

impl View for Fenwick2d {
    type V = Seq<Seq<u32>>;

    closed spec fn view(&self) -> Seq<Seq<u32>> {
        self.values@
    }
}

impl Fenwick2d {
    /// The structural invariant: slot `(k, l)` holds the wrapped sum of
    /// the grid rectangle `rows k - lsb(k) .. k`, `columns
    /// l - lsb(l) .. l`.
    pub closed spec fn wf(&self) -> bool {
        &&& self.spec_width() >= 0
        &&& self.table@.len() == self.values@.len() + 1
        &&& 2 * self.values@.len() + 2 <= usize::MAX
        &&& forall|k: int|
            0 <= k < self.table@.len() ==> (#[trigger] self.table@[k]@).len() == self.spec_width()
                + 1
        &&& 2 * self.spec_width() + 2 <= usize::MAX
        &&& forall|r: int|
            0 <= r < self.values@.len() ==> (#[trigger] self.values@[r]).len()
                == self.spec_width()
        &&& forall|k: int, l: int|
            1 <= k < self.table@.len() && 1 <= l <= self.spec_width()
                ==> (#[trigger] self.table@[k]@[l]) == m32(
                rect_sum(
                    self.values@,
                    k - lsb_spec(k as nat),
                    k,
                    l - lsb_spec(l as nat),
                    l,
                ),
            )
    }

    /// The number of grid columns.
    pub closed spec fn spec_width(&self) -> int {
        self.table@[0]@.len() - 1
    }

    /// An empty tree over a grid with no rows and no columns.
    pub fn new() -> (r: Self)
        ensures
            r.wf(),
            r@ == Seq::<Seq<u32>>::empty(),
            r.spec_width() == 0,
    {
        Fenwick2d { table: vec![vec![0u32]], values: Ghost(Seq::empty()) }
    }

    /// Builds a tree over a rectangular grid: starts from an all-zero
    /// table of the right shape and adds every cell in.
    pub fn from_slice_vec(src: &[Vec<u32>]) -> (r: Self)
        requires
            src@.len() >= 1,
            src@[0]@.len() >= 1,
            forall|i: int| 0 <= i < src@.len() ==> (#[trigger] src@[i]@).len() == src@[0]@.len(),
            2 * src@.len() + 2 <= usize::MAX,
            2 * src@[0]@.len() + 2 <= usize::MAX,
        ensures
            r.wf(),
            r@.len() == src@.len(),
            forall|i: int| 0 <= i < src@.len() ==> #[trigger] r@[i] == src@[i]@,
            r.spec_width() == src@[0]@.len(),
    {
        let h = src.len();
        let w = src[0].len();
        let ghost zero_grid = Seq::new(h as nat, |r: int| Seq::new(w as nat, |c: int| 0u32));
        let mut table: Vec<Vec<u32>> = Vec::new();
        let mut k: usize = 0;
        while k < h + 1
            invariant
                k <= h + 1,
                table@.len() == k,
                forall|q: int| 0 <= q < k ==> (#[trigger] table@[q]@).len() == w + 1,
                forall|q: int, l: int|
                    0 <= q < k && 0 <= l < w + 1 ==> (#[trigger] table@[q]@[l]) == 0u32,
                h + 1 <= usize::MAX,
                w + 1 <= usize::MAX,
            decreases h + 1 - k,
        {
            let row: Vec<u32> = vec![0u32; w + 1];
            table.push(row);
            k += 1;
        }
        let mut r = Fenwick2d { table, values: Ghost(zero_grid) };
        proof {
            lemma_rect_zero(zero_grid, h as int, w as int);
            assert forall|k: int, l: int|
                1 <= k < r.table@.len() && 1 <= l <= r.spec_width() implies (
            #[trigger] r.table@[k]@[l]) == m32(
                rect_sum(r.values@, k - lsb_spec(k as nat), k, l - lsb_spec(l as nat), l),
            ) by {
                lemma_lsb_basic(k as nat);
                lemma_lsb_basic(l as nat);
                lemma_m32_small(0);
            }
        }
        let mut i: usize = 0;
        while i < h
            invariant
                r.wf(),
                h == src@.len(),
                w == src@[0]@.len(),
                forall|q: int| 0 <= q < h ==> (#[trigger] src@[q]@).len() == w,
                i <= h,
                r@.len() == h,
                r.spec_width() == w,
                forall|q: int| 0 <= q < h ==> (#[trigger] r@[q]).len() == w,
                forall|q: int, c: int|
                    0 <= q < h && 0 <= c < w ==> (#[trigger] r@[q][c]) == (if q < i {
                        src@[q]@[c]
                    } else {
                        0u32
                    }),
            decreases h - i,
        {
            let mut j: usize = 0;
            while j < w
                invariant
                    r.wf(),
                    h == src@.len(),
                    w == src@[0]@.len(),
                    forall|q: int| 0 <= q < h ==> (#[trigger] src@[q]@).len() == w,
                    i < h,
                    j <= w,
                    r@.len() == h,
                    r.spec_width() == w,
                    forall|q: int| 0 <= q < h ==> (#[trigger] r@[q]).len() == w,
                    forall|q: int, c: int|
                        0 <= q < h && 0 <= c < w ==> (#[trigger] r@[q][c]) == (if q < i || (q == i
                            && c < j) {
                            src@[q]@[c]
                        } else {
                            0u32
                        }),
                decreases w - j,
            {
                let x = src[i][j];
                proof {
                    assert(u32_specs::wrapping_add(0u32, x) == x);
                }
                r.add(i, j, x);
                proof {
                    assert forall|q: int, c: int|
                        0 <= q < h && 0 <= c < w implies (#[trigger] r@[q][c]) == (if q < i || (q
                            == i && c <= j) {
                            src@[q]@[c]
                        } else {
                            0u32
                        }) by {}
                }
                j += 1;
            }
            i += 1;
        }
        proof {
            assert forall|q: int| 0 <= q < h implies #[trigger] r@[q] == src@[q]@ by {
                assert(r@[q] =~= src@[q]@);
            }
        }
        r
    }

    /// The wrapped sum of the grid rectangle `rows 0 .. i`,
    /// `columns 0 .. j`.
    pub fn double_prefix_sum(&self, i: usize, j: usize) -> (r: u32)
        requires
            self.wf(),
            i <= self@.len(),
            j <= self.spec_width(),
        ensures
            r == m32(rect_sum(self@, 0, i as int, 0, j as int)),
    {
        let ghost a = self.values@;
        let mut acc: u32 = 0;
        let mut k = i;
        proof {
            lemma_m32_small(0);
        }
        while k != 0
            invariant
                self.wf(),
                a == self.values@,
                k <= i <= a.len(),
                j <= self.spec_width(),
                acc == m32(rect_sum(a, k as int, i as int, 0, j as int)),
            decreases k,
        {
            let ghost klow = k - lsb_spec(k as nat);
            proof {
                lemma_lsb_basic(k as nat);
                lemma_rect_empty_cols(a, klow, k as int, j as int);
            }
            let mut l = j;
            while l != 0
                invariant
                    self.wf(),
                    a == self.values@,
                    1 <= k <= i <= a.len(),
                    klow == k - lsb_spec(k as nat),
                    0 <= klow < k,
                    l <= j <= self.spec_width(),
                    acc == m32(
                        rect_sum(a, k as int, i as int, 0, j as int) + rect_sum(
                            a,
                            klow,
                            k as int,
                            l as int,
                            j as int,
                        ),
                    ),
                decreases l,
            {
                let ghost llow = l - lsb_spec(l as nat);
                proof {
                    lemma_lsb_basic(l as nat);
                    lemma_rect_nonneg(a, k as int, i as int, 0, j as int);
                    lemma_rect_nonneg(a, klow, k as int, l as int, j as int);
                    lemma_rect_nonneg(a, klow, k as int, llow, l as int);
                    lemma_m32_add(
                        rect_sum(a, klow, k as int, llow, l as int),
                        rect_sum(a, k as int, i as int, 0, j as int) + rect_sum(
                            a,
                            klow,
                            k as int,
                            l as int,
                            j as int,
                        ),
                    );
                    lemma_rect_split_cols(a, klow, k as int, llow, l as int, j as int);
                }
                acc = self.table[k][l].wrapping_add(acc);
                l -= lsb(l);
            }
            proof {
                lemma_rect_split_rows(a, klow, k as int, i as int, 0, j as int);
            }
            k -= lsb(k);
        }
        acc
    }

    /// Adds `x` (wrapping) to grid cell `(i, j)`, refreshing every slot
    /// whose rectangle contains the cell.
    pub fn add(&mut self, i: usize, j: usize, x: u32)
        requires
            old(self).wf(),
            i < old(self)@.len(),
            j < old(self).spec_width(),
        ensures
            final(self).wf(),
            final(self)@ == old(self)@.update(
                i as int,
                old(self)@[i as int].update(
                    j as int,
                    u32_specs::wrapping_add(old(self)@[i as int][j as int], x),
                ),
            ),
            final(self).spec_width() == old(self).spec_width(),
    {
        let n = self.table.len();
        let m = self.table[0].len();
        let ghost a = self.values@;
        let ghost w = self.spec_width();
        let ghost a2 = a.update(
            i as int,
            a[i as int].update(j as int, u32_specs::wrapping_add(a[i as int][j as int], x)),
        );
        self.values = Ghost(a2);
        let mut k = i + 1;
        proof {
            lemma_lsb_basic((i + 1) as nat);
            lemma_lsb_basic((j + 1) as nat);
            assert forall|kk: int, ll: int|
                1 <= kk < n && 1 <= ll <= w implies #[trigger] self.table@[kk]@[ll] == (if kk < i
                + 1 {
                m32(rect_sum(a2, kk - lsb_spec(kk as nat), kk, ll - lsb_spec(ll as nat), ll))
            } else {
                m32(rect_sum(a, kk - lsb_spec(kk as nat), kk, ll - lsb_spec(ll as nat), ll))
            }) by {
                if kk < i + 1 {
                    lemma_lsb_basic(kk as nat);
                    lemma_lsb_basic(ll as nat);
                    lemma_rect_update(
                        a,
                        i as int,
                        j as int,
                        u32_specs::wrapping_add(a[i as int][j as int], x),
                        kk - lsb_spec(kk as nat),
                        kk,
                        ll - lsb_spec(ll as nat),
                        ll,
                    );
                }
            }
        }
        while k < n
            invariant
                self.values@ == a2,
                a2 == a.update(
                    i as int,
                    a[i as int].update(
                        j as int,
                        u32_specs::wrapping_add(a[i as int][j as int], x),
                    ),
                ),
                n == self.table@.len(),
                n == a.len() + 1,
                2 * a.len() + 2 <= usize::MAX,
                w == self.spec_width(),
                m == w + 1,
                2 * w + 2 <= usize::MAX,
                forall|kk: int| 0 <= kk < n ==> (#[trigger] self.table@[kk]@).len() == w + 1,
                forall|q: int| 0 <= q < a.len() ==> (#[trigger] a[q]).len() == w,
                0 <= i < a.len(),
                0 <= j < w,
                i < k,
                k - lsb_spec(k as nat) <= i,
                1 <= k,
                forall|kk: int, ll: int|
                    1 <= kk < n && 1 <= ll <= w ==> #[trigger] self.table@[kk]@[ll] == (if kk < k {
                        m32(
                            rect_sum(
                                a2,
                                kk - lsb_spec(kk as nat),
                                kk,
                                ll - lsb_spec(ll as nat),
                                ll,
                            ),
                        )
                    } else {
                        m32(
                            rect_sum(
                                a,
                                kk - lsb_spec(kk as nat),
                                kk,
                                ll - lsb_spec(ll as nat),
                                ll,
                            ),
                        )
                    }),
            decreases 2 * n - k,
        {
            let ghost klow = k - lsb_spec(k as nat);
            let mut l = j + 1;
            proof {
                lemma_lsb_basic(k as nat);
                lemma_lsb_basic((j + 1) as nat);
                assert forall|ll: int| 1 <= ll <= w && ll < j + 1 implies #[trigger] m32(
                    rect_sum(a2, klow, k as int, ll - lsb_spec(ll as nat), ll),
                ) == m32(rect_sum(a, klow, k as int, ll - lsb_spec(ll as nat), ll)) by {
                    lemma_lsb_basic(ll as nat);
                    lemma_rect_update(
                        a,
                        i as int,
                        j as int,
                        u32_specs::wrapping_add(a[i as int][j as int], x),
                        klow,
                        k as int,
                        ll - lsb_spec(ll as nat),
                        ll,
                    );
                }
            }
            while l < m
                invariant
                    self.values@ == a2,
                    a2 == a.update(
                        i as int,
                        a[i as int].update(
                            j as int,
                            u32_specs::wrapping_add(a[i as int][j as int], x),
                        ),
                    ),
                    n == self.table@.len(),
                    n == a.len() + 1,
                    2 * a.len() + 2 <= usize::MAX,
                    w == self.spec_width(),
                    m == w + 1,
                    2 * w + 2 <= usize::MAX,
                    forall|kk: int| 0 <= kk < n ==> (#[trigger] self.table@[kk]@).len() == w + 1,
                    forall|q: int| 0 <= q < a.len() ==> (#[trigger] a[q]).len() == w,
                    0 <= i < a.len(),
                    0 <= j < w,
                    i < k < n,
                    klow == k - lsb_spec(k as nat),
                    0 <= klow,
                    klow <= i,
                    j < l,
                    l - lsb_spec(l as nat) <= j,
                    1 <= l,
                    forall|kk: int, ll: int|
                        1 <= kk < n && 1 <= ll <= w ==> #[trigger] self.table@[kk]@[ll] == (if kk
                            < k || (kk == k && ll < l) {
                            m32(
                                rect_sum(
                                    a2,
                                    kk - lsb_spec(kk as nat),
                                    kk,
                                    ll - lsb_spec(ll as nat),
                                    ll,
                                ),
                            )
                        } else {
                            m32(
                                rect_sum(
                                    a,
                                    kk - lsb_spec(kk as nat),
                                    kk,
                                    ll - lsb_spec(ll as nat),
                                    ll,
                                ),
                            )
                        }),
                decreases 2 * m - l,
            {
                let ghost llow = l - lsb_spec(l as nat);
                proof {
                    lemma_lsb_basic(l as nat);
                    let s = rect_sum(a, klow, k as int, llow, l as int);
                    let v2 = u32_specs::wrapping_add(a[i as int][j as int], x);
                    lemma_rect_split_rows(a, klow, i as int, i + 1, llow, l as int);
                    lemma_rect_split_rows(a, klow, i as int, k as int, llow, l as int);
                    lemma_rect_split_rows(a, i as int, i + 1, k as int, llow, l as int);
                    lemma_rect_nonneg(a, klow, i as int, llow, l as int);
                    lemma_rect_nonneg(a, i + 1, k as int, llow, l as int);
                    lemma_sum_split(a[i as int], llow, j as int, l as int);
                    lemma_sum_split(a[i as int], j as int, j + 1, l as int);
                    lemma_sum_nonneg(a[i as int], llow, j as int);
                    lemma_sum_nonneg(a[i as int], j + 1, l as int);
                    assert(sum_range(a[i as int], j as int, j as int) == 0);
                    assert(sum_range(a[i as int], j as int, j + 1) == a[i as int][j as int]);
                    assert(rect_sum(a, i as int, i as int, llow, l as int) == 0);
                    assert(rect_sum(a, i as int, i + 1, llow, l as int) == sum_range(
                        a[i as int],
                        llow,
                        l as int,
                    ));
                    assert(s >= a[i as int][j as int]);
                    lemma_rect_update(a, i as int, j as int, v2, klow, k as int, llow, l as int);
                    lemma_rect_nonneg(a, klow, k as int, llow, l as int);
                    lemma_m32_small(x as int);
                    lemma_m32_add(s, x as int);
                    lemma_mod_shift(s, a[i as int][j as int] as int, x as int);
                }
                let cell = self.table[k][l].wrapping_add(x);
                let ghost pre = self.table@;
                let row = row_mut(&mut self.table, k);
                row.set(l, cell);
                let ghost pre_l = l as int;
                let sl = lsb(l);
                proof {
                    assert(forall|kk: int|
                        0 <= kk < n && kk != k ==> self.table@[kk] == #[trigger] pre[kk]);
                    lemma_lsb_step_up(l as nat);
                    assert forall|ll: int|
                        1 <= ll <= w && pre_l < ll < pre_l + lsb_spec(l as nat) implies #[trigger] m32(
                        rect_sum(a2, klow, k as int, ll - lsb_spec(ll as nat), ll),
                    ) == m32(rect_sum(a, klow, k as int, ll - lsb_spec(ll as nat), ll)) by {
                        lemma_no_cell_between(l as nat, ll as nat);
                        lemma_lsb_basic(ll as nat);
                        lemma_rect_update(
                            a,
                            i as int,
                            j as int,
                            u32_specs::wrapping_add(a[i as int][j as int], x),
                            klow,
                            k as int,
                            ll - lsb_spec(ll as nat),
                            ll,
                        );
                    }
                    lemma_lsb_basic(l as nat);
                    assert(1 <= sl <= l);
                }
                l += sl;
            }
            proof {
                assert forall|kk: int, ll: int|
                    1 <= kk < n && 1 <= ll <= w && k < kk < k + lsb_spec(k as nat) implies #[trigger] m32(
                    rect_sum(a2, kk - lsb_spec(kk as nat), kk, ll - lsb_spec(ll as nat), ll),
                ) == m32(rect_sum(a, kk - lsb_spec(kk as nat), kk, ll - lsb_spec(ll as nat), ll))
                    by {
                    lemma_no_cell_between(k as nat, kk as nat);
                    lemma_lsb_basic(kk as nat);
                    lemma_lsb_basic(ll as nat);
                    lemma_rect_update(
                        a,
                        i as int,
                        j as int,
                        u32_specs::wrapping_add(a[i as int][j as int], x),
                        kk - lsb_spec(kk as nat),
                        kk,
                        ll - lsb_spec(ll as nat),
                        ll,
                    );
                }
                lemma_lsb_step_up(k as nat);
                lemma_lsb_basic(k as nat);
            }
            let sk = lsb(k);
            proof {
                assert(1 <= sk <= k);
            }
            k += sk;
        }
        proof {
            assert forall|kk: int, ll: int|
                1 <= kk < n && 1 <= ll <= w implies #[trigger] self.table@[kk]@[ll] == m32(
                rect_sum(a2, kk - lsb_spec(kk as nat), kk, ll - lsb_spec(ll as nat), ll),
            ) by {
                assert(kk < k);
            }
            assert(a2.len() == a.len());
            assert forall|q: int| 0 <= q < a2.len() implies (#[trigger] a2[q]).len() == w by {
                if q == i {
                    assert(a2[q] == a[q].update(
                        j as int,
                        u32_specs::wrapping_add(a[i as int][j as int], x),
                    ));
                }
            }
        }
    }

    /// The wrapped sum of the grid rectangle `rows 0 .. i`,
    /// `columns l - lsb(l) .. l`: the virtual Fenwick slot the horizontal
    /// search walks, with the row prefix evaluated on the fly.
    fn i_prefix_sum_j_raw_element(&self, i: usize, l: usize) -> (r: u32)
        requires
            self.wf(),
            i <= self@.len(),
            1 <= l,
            l <= self.spec_width(),
        ensures
            r == m32(rect_sum(self@, 0, i as int, l - lsb_spec(l as nat), l as int)),
    {
        let ghost a = self.values@;
        let ghost llow = l - lsb_spec(l as nat);
        proof {
            lemma_lsb_basic(l as nat);
            lemma_m32_small(0);
        }
        let mut acc: u32 = 0;
        let mut k = i;
        while k != 0
            invariant
                self.wf(),
                a == self.values@,
                k <= i <= a.len(),
                1 <= l <= self.spec_width(),
                llow == l - lsb_spec(l as nat),
                0 <= llow < l,
                acc == m32(rect_sum(a, k as int, i as int, llow, l as int)),
            decreases k,
        {
            proof {
                lemma_lsb_basic(k as nat);
                lemma_rect_nonneg(a, k - lsb_spec(k as nat), k as int, llow, l as int);
                lemma_rect_nonneg(a, k as int, i as int, llow, l as int);
                lemma_m32_add(
                    rect_sum(a, k - lsb_spec(k as nat), k as int, llow, l as int),
                    rect_sum(a, k as int, i as int, llow, l as int),
                );
                lemma_rect_split_rows(
                    a,
                    k - lsb_spec(k as nat),
                    k as int,
                    i as int,
                    llow,
                    l as int,
                );
            }
            acc = self.table[k][l].wrapping_add(acc);
            k -= lsb(k);
        }
        acc
    }

    /// Within the row prefix `rows 0 .. i`, the number of column prefixes
    /// whose cumulative sum does not exceed `x`: the largest `j` with
    /// `double_prefix_sum(i, j) <= x`. Meaningful only when the true total
    /// of that row prefix does not wrap.
    pub fn horizontal_upper_bound(&self, i: usize, x: &u32) -> (r: usize)
        requires
            self.wf(),
            i <= self@.len(),
            rect_sum(self@, 0, i as int, 0, self.spec_width()) < 0x1_0000_0000,
        ensures
            r <= self.spec_width(),
            rect_sum(self@, 0, i as int, 0, r as int) <= *x,
            forall|c: int|
                r < c <= self.spec_width() ==> rect_sum(self@, 0, i as int, 0, c) > *x,
    {
        let ghost a = self.values@;
        let ghost w = self.spec_width();
        let m = self.table[0].len();
        proof {
            assert(m == w + 1);
            assert(2 * w + 2 <= usize::MAX);
        }
        let mut d: usize = 1;
        while d < m
            invariant
                m <= usize::MAX / 2 + 1,
                is_power_of_two(d as nat),
                1 <= d < 2 * m,
            decreases 2 * m - d,
        {
            d *= 2;
        }
        let mut step = d / 2;
        let mut j: usize = 0;
        let mut now: u32 = 0;
        proof {
            assert(d == 1 ==> step == 0);
            if d >= 2 {
                assert(is_power_of_two((d / 2) as nat));
            }
            lemma_rect_empty_cols(a, 0, i as int, 0);
        }
        while step != 0
            invariant
                self.wf(),
                a == self.values@,
                w == self.spec_width(),
                m == w + 1,
                i <= a.len(),
                rect_sum(a, 0, i as int, 0, w) < 0x1_0000_0000,
                0 <= j <= w,
                now == rect_sum(a, 0, i as int, 0, j as int),
                rect_sum(a, 0, i as int, 0, j as int) <= *x,
                step == 0 ==> (j + 1 > w || rect_sum(a, 0, i as int, 0, j + 1) > *x),
                step != 0 ==> is_power_of_two(step as nat),
                step != 0 ==> (j as int) % (2 * step as int) == 0,
                step != 0 ==> (j + 2 * step > w || rect_sum(a, 0, i as int, 0, j + 2 * step)
                    > *x),
                step < m,
            decreases step,
        {
            let ghost jpre = j as int;
            if step + j < m {
                proof {
                    lemma_lsb_aligned_add(j as nat, step as nat);
                    lemma_rect_split_cols(a, 0, i as int, 0, j as int, j + step);
                    lemma_rect_nonneg(a, 0, i as int, 0, j as int);
                    lemma_rect_nonneg(a, 0, i as int, j as int, j + step);
                    lemma_rect_monotone_cols(a, 0, i as int, j + step, w);
                    lemma_m32_small(rect_sum(a, 0, i as int, j as int, j + step));
                }
                let next = now + self.i_prefix_sum_j_raw_element(i, step + j);
                if next <= *x {
                    now = next;
                    j += step;
                }
            }
            proof {
                if j != jpre {
                    let mm = 2 * step as int;
                    assert(jpre % mm == 0);
                    vstd::arithmetic::div_mod::lemma_fundamental_div_mod(jpre, mm);
                    assert(jpre == mm * (jpre / mm));
                    assert(j as int == jpre + step);
                    assert(j as int == (jpre / mm) * mm + step);
                    vstd::arithmetic::div_mod::lemma_fundamental_div_mod_converse(
                        j as int,
                        mm,
                        jpre / mm,
                        step as int,
                    );
                }
                if step >= 2 {
                    assert(is_power_of_two((step / 2) as nat));
                    assert(step == 2 * (step / 2));
                    lemma_mod_half(j as int, (step / 2) as int);
                }
            }
            step /= 2;
        }
        proof {
            assert forall|c: int| j < c <= w implies rect_sum(a, 0, i as int, 0, c) > *x by {
                lemma_rect_monotone_cols(a, 0, i as int, j + 1, c);
            }
        }
        j
    }
}

/// Rectangle sums grow with their right column edge.
proof fn lemma_rect_monotone_cols(g: Seq<Seq<u32>>, r0: int, r1: int, c1: int, c2: int)
    requires
        r0 <= r1,
        0 <= c1 <= c2,
    ensures
        rect_sum(g, r0, r1, 0, c1) <= rect_sum(g, r0, r1, 0, c2),
{
    lemma_rect_split_cols(g, r0, r1, 0, c1, c2);
    lemma_rect_nonneg(g, r0, r1, c1, c2);
}

/// An all-zero grid sums to zero on every rectangle.
proof fn lemma_rect_zero(g: Seq<Seq<u32>>, h: int, w: int)
    requires
        g.len() == h,
        forall|r: int| 0 <= r < h ==> (#[trigger] g[r]).len() == w,
        forall|r: int, c: int| 0 <= r < h && 0 <= c < w ==> (#[trigger] g[r][c]) == 0u32,
    ensures
        forall|r0: int, r1: int, c0: int, c1: int|
            0 <= r0 <= r1 <= h && 0 <= c0 <= c1 <= w ==> #[trigger] rect_sum(g, r0, r1, c0, c1)
                == 0,
{
    assert forall|r0: int, r1: int, c0: int, c1: int|
        0 <= r0 <= r1 <= h && 0 <= c0 <= c1 <= w implies #[trigger] rect_sum(g, r0, r1, c0, c1)
        == 0 by {
        lemma_rect_zero_one(g, h, w, r0, r1, c0, c1);
    }
}

/// Helper for `lemma_rect_zero`: one rectangle at a time.
proof fn lemma_rect_zero_one(g: Seq<Seq<u32>>, h: int, w: int, r0: int, r1: int, c0: int, c1: int)
    requires
        g.len() == h,
        forall|r: int| 0 <= r < h ==> (#[trigger] g[r]).len() == w,
        forall|r: int, c: int| 0 <= r < h && 0 <= c < w ==> (#[trigger] g[r][c]) == 0u32,
        0 <= r0 <= r1 <= h,
        0 <= c0 <= c1 <= w,
    ensures
        rect_sum(g, r0, r1, c0, c1) == 0,
    decreases r1 - r0,
{
    if r0 < r1 {
        lemma_rect_zero_one(g, h, w, r0, r1 - 1, c0, c1);
        lemma_sum_zero_row(g[r1 - 1], w, c0, c1);
    }
}

/// An all-zero row sums to zero on every range.
proof fn lemma_sum_zero_row(row: Seq<u32>, w: int, c0: int, c1: int)
    requires
        row.len() == w,
        forall|c: int| 0 <= c < w ==> (#[trigger] row[c]) == 0u32,
        0 <= c0 <= c1 <= w,
    ensures
        sum_range(row, c0, c1) == 0,
    decreases c1 - c0,
{
    if c0 < c1 {
        lemma_sum_zero_row(row, w, c0, c1 - 1);
    }
}

/// A mutable borrow of one row of the table.
fn row_mut(table: &mut Vec<Vec<u32>>, i: usize) -> (row: &mut Vec<u32>)
    requires
        i < old(table)@.len(),
    ensures
        *row == old(table)@[i as int],
        final(table)@ == old(table)@.update(i as int, *final(row)),
{
    &mut table[i]
}

} // verus!

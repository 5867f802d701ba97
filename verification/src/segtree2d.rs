//! A two-dimensional segment tree: a segment tree of segment trees over a
//! rectangular grid, supporting point update and rectangular range folds.
//!
//! Physically the table has `2 * height` rows of `2 * width` cells. Each
//! physical row except row `0` is itself a column-wise segment tree over
//! its own `width` leaf cells; rows `height .. 2 * height` hold the grid
//! rows, and the leaf cells of an internal row are the elementwise fold of
//! its two child rows. A rectangular fold combines whole-row folds of the
//! leaf rows top to bottom, so its result is the fold of the rectangle's
//! cells in row-major order: rows top to bottom, each row left to right.

use vstd::prelude::*;

use vstd::arithmetic::power2::{pow2, lemma_pow2_pos, lemma_pow2_unfold};

use crate::value::{Value, fold_seq, lemma_fold_concat, clone_view_eq, seq_views};
use crate::segtree::nodes_ok;

verus! {

broadcast use crate::value::lemma_seq_views_len, crate::value::lemma_seq_views_index;

/// The elementwise fold of two rows of equal length.
pub open spec fn zip_op<T: Value>(a: Seq<T::V>, b: Seq<T::V>) -> Seq<T::V> {
    Seq::new(a.len(), |j: int| T::op_spec(a[j], b[j]))
}

/// The logical row of cells behind physical row `r` of a grid of `h`
/// logical rows: a leaf row `r >= h` is grid row `r - h`, and an internal
/// row is the elementwise fold of its two child rows.
pub open spec fn vrow<T: Value>(g: Seq<Seq<T::V>>, h: int, r: int) -> Seq<T::V>
    decreases 2 * h - r,
    when 1 <= r && r < 2 * h
{
    if r >= h {
        g[r - h]
    } else {
        zip_op::<T>(vrow::<T>(g, h, 2 * r), vrow::<T>(g, h, 2 * r + 1))
    }
}

/// The cells of the rectangle `rows r0 .. r1`, `columns c0 .. c1` of grid
/// `g`, flattened in row-major order.
pub open spec fn rect_seq<T: Value>(
    g: Seq<Seq<T::V>>,
    r0: int,
    r1: int,
    c0: int,
    c1: int,
) -> Seq<T::V>
    decreases r1 - r0,
    when r0 <= r1
{
    if r1 <= r0 {
        Seq::empty()
    } else {
        rect_seq::<T>(g, r0, r1 - 1, c0, c1) + g[r1 - 1].subrange(c0, c1)
    }
}

/// A non-degenerate rectangle holds at least one cell.
proof fn lemma_rect_nonempty<T: Value>(g: Seq<Seq<T::V>>, r0: int, r1: int, c0: int, c1: int)
    requires
        r0 < r1,
        0 <= c0 < c1,
        forall|r: int| r0 <= r < r1 ==> c1 <= (#[trigger] g[r]).len(),
    ensures
        rect_seq::<T>(g, r0, r1, c0, c1).len() >= c1 - c0,
    decreases r1 - r0,
{
    assert(rect_seq::<T>(g, r0, r1, c0, c1) == rect_seq::<T>(g, r0, r1 - 1, c0, c1) + g[r1
        - 1].subrange(c0, c1));
    assert(g[r1 - 1].subrange(c0, c1).len() == c1 - c0);
    if r0 < r1 - 1 {
        lemma_rect_nonempty::<T>(g, r0, r1 - 1, c0, c1);
    } else {
        assert(rect_seq::<T>(g, r0, r0, c0, c1).len() == 0);
    }
}

/// Recomputes the internal cells of one row so that it is a segment tree
/// over its `w` leaf cells, leaving the leaf cells untouched.
fn build_row<T: Value>(row: &mut Vec<T>, w: usize)
    requires
        w >= 1,
        2 * w <= usize::MAX,
        old(row)@.len() == 2 * w,
    ensures
        final(row)@.len() == 2 * w,
        forall|c: int| w <= c < 2 * w ==> final(row)@[c]@ == old(row)@[c]@,
        nodes_ok::<T>(seq_views(final(row)@), w as int),
{
    let mut k: usize = w;
    while k > 1
        invariant
            w >= 1,
            2 * w <= usize::MAX,
            row@.len() == 2 * w,
            1 <= k <= w,
            forall|c: int| w <= c < 2 * w ==> row@[c]@ == old(row)@[c]@,
            forall|j: int| k <= j < w ==> #[trigger] row@[j]@ == T::op_spec(
                row@[2 * j]@,
                row@[2 * j + 1]@,
            ),
        decreases k,
    {
        k -= 1;
        let v = row[2 * k].op(&row[2 * k + 1]);
        row.set(k, v);
    }
}

/// Assigns leaf `j` of one row-tree, then recomputes that leaf's ancestors
/// within the row.
fn set_in_row<T: Value>(row: &mut Vec<T>, w: usize, j: usize, x: T)
    requires
        w >= 1,
        2 * w <= usize::MAX,
        old(row)@.len() == 2 * w,
        nodes_ok::<T>(seq_views(old(row)@), w as int),
        j < w,
    ensures
        final(row)@.len() == 2 * w,
        nodes_ok::<T>(seq_views(final(row)@), w as int),
        final(row)@[w + j]@ == x@,
        forall|c: int| w <= c < 2 * w && c != w + j ==> final(row)@[c]@ == old(row)@[c]@,
{
    let ghost xv = x@;
    let mut idx = j + w;
    row.set(idx, x);
    while idx != 1
        invariant
            w >= 1,
            2 * w <= usize::MAX,
            row@.len() == 2 * w,
            j < w,
            1 <= idx < 2 * w,
            row@[w + j]@ == xv,
            forall|c: int| w <= c < 2 * w && c != w + j ==> row@[c]@ == old(row)@[c]@,
            forall|i: int|
                1 <= i < w && !crate::segtree::on_path(i, idx as int) ==> #[trigger] row@[i]@
                    == T::op_spec(row@[2 * i]@, row@[2 * i + 1]@),
        decreases idx,
    {
        idx /= 2;
        let ghost pre = row@;
        let v = row[2 * idx].op(&row[2 * idx + 1]);
        row.set(idx, v);
        proof {
            assert forall|i: int|
                1 <= i < w && !crate::segtree::on_path(i, idx as int) implies #[trigger] row@[i]@
                == T::op_spec(row@[2 * i]@, row@[2 * i + 1]@) by {
                if i != idx {
                    assert(2 * i != idx && 2 * i + 1 != idx);
                    assert(row@[i]@ == pre[i]@);
                }
            }
        }
    }
}

/// Folds leaves `start .. end` of one row-tree left-to-right; `None` when
/// the range is empty. The same two-pointer walk as the one-dimensional
/// tree, restricted to one physical row.
fn fold_in_row<T: Value>(row: &Vec<T>, w: usize, from: usize, to: usize) -> (r: Option<T>)
    requires
        w >= 1,
        2 * w <= usize::MAX,
        row@.len() == 2 * w,
        nodes_ok::<T>(seq_views(row@), w as int),
        from <= to,
        to <= w,
    ensures
        from == to ==> r is None,
        from < to ==> r is Some && r.unwrap()@ == fold_seq::<T>(
            seq_views(row@).subrange(w + from, w + to),
        ),
{
    let ghost t = seq_views(row@);
    let ghost s0 = from + w as int;
    let ghost e0 = to + w as int;
    let mut start = from + w;
    let mut end = to + w;
    if start == end {
        return None;
    }
    if start + 1 == end {
        let c = row[start].clone();
        proof {
            clone_view_eq::<T>(row@[start as int], c);
            assert(t.subrange(s0, e0) =~= seq![t[s0]]);
        }
        return Some(c);
    }
    let mut left = row[start].clone();
    proof {
        clone_view_eq::<T>(row@[start as int], left);
        assert(t.subrange(s0, s0 + 1) =~= seq![t[s0]]);
    }
    start += 1;
    end -= 1;
    let mut right = row[end].clone();
    proof {
        clone_view_eq::<T>(row@[end as int], right);
        assert(t.subrange(e0 - 1, e0) =~= seq![t[e0 - 1]]);
    }
    let ghost mut e: nat = 0;
    proof {
        vstd::arithmetic::power2::lemma2_to64();
        assert(start * pow2(e) == start && end * pow2(e) == end) by (nonlinear_arith)
            requires
                pow2(e) == 1,
        ;
    }
    while start != end
        invariant
            w >= 1,
            2 * w <= usize::MAX,
            row@.len() == 2 * w,
            nodes_ok::<T>(seq_views(row@), w as int),
            t == seq_views(row@),
            t.len() == 2 * w,
            w <= s0,
            s0 + 2 <= e0 <= 2 * w,
            1 <= start <= end,
            s0 + 1 <= start * pow2(e),
            end * pow2(e) <= e0 - 1,
            left@ == fold_seq::<T>(t.subrange(s0, start * pow2(e))),
            right@ == fold_seq::<T>(t.subrange(end * pow2(e), e0)),
        decreases end,
    {
        let ghost p = pow2(e) as int;
        proof {
            lemma_pow2_pos(e);
            assert(start * p <= end * p && start <= start * p && end <= end * p) by (
            nonlinear_arith)
                requires
                    p >= 1,
                    1 <= start <= end,
            ;
        }
        if start % 2 == 1 {
            proof {
                assert((start + 1) * p == start * p + p && (start + 1) * p <= end * p) by (
                nonlinear_arith)
                    requires
                        p >= 1,
                        start + 1 <= end,
                ;
                crate::segtree::lemma_node_fold::<T>(t, w as int, start as int, e);
                lemma_fold_concat::<T>(
                    t.subrange(s0, start * p),
                    t.subrange(start * p, start * p + p),
                );
                assert(t.subrange(s0, start * p + p) =~= t.subrange(s0, start * p) + t.subrange(
                    start * p,
                    start * p + p,
                ));
            }
            left.op_assign_from_the_right(&row[start]);
            start += 1;
        }
        if end % 2 == 1 {
            end -= 1;
            proof {
                assert((end + 1) * p == end * p + p && start * p <= end * p) by (nonlinear_arith)
                    requires
                        p >= 1,
                        start <= end,
                ;
                crate::segtree::lemma_node_fold::<T>(t, w as int, end as int, e);
                lemma_fold_concat::<T>(
                    t.subrange(end * p, end * p + p),
                    t.subrange(end * p + p, e0),
                );
                assert(t.subrange(end * p, e0) =~= t.subrange(end * p, end * p + p) + t.subrange(
                    end * p + p,
                    e0,
                ));
            }
            right.op_assign_from_the_left(&row[end]);
        }
        proof {
            assert(start % 2 == 0 && end % 2 == 0);
            lemma_pow2_unfold(e + 1);
            assert((start / 2) * (2 * p) == start * p && (end / 2) * (2 * p) == end * p) by (
            nonlinear_arith)
                requires
                    start % 2 == 0,
                    end % 2 == 0,
                    p >= 1,
            ;
        }
        start /= 2;
        end /= 2;
        proof {
            e = e + 1;
        }
    }
    proof {
        lemma_pow2_pos(e);
        lemma_fold_concat::<T>(t.subrange(s0, start * pow2(e)), t.subrange(end * pow2(e), e0));
        assert(t.subrange(s0, e0) =~= t.subrange(s0, start * pow2(e)) + t.subrange(
            end * pow2(e),
            e0,
        ));
    }
    Some(left.op(&right))
}

/// A two-dimensional segment tree over a `height x width` grid. The view
/// `self@` is the logical grid, as a sequence of rows of cell views.
pub struct TwoDimensionalSegtree<T: Value> {
    height: usize,
    width: usize,
    table: Vec<Vec<T>>,
}

impl<T: Value> View for TwoDimensionalSegtree<T> {
    type V = Seq<Seq<T::V>>;

    closed spec fn view(&self) -> Seq<Seq<T::V>> {
        Seq::new(
            self.height as nat,
            |i: int|
                seq_views(self.table@[self.height + i]@).subrange(
                    self.width as int,
                    2 * self.width as int,
                ),
        )
    }
}

impl<T: Value> TwoDimensionalSegtree<T> {
    /// The structural invariant: every physical row except row `0` is a
    /// column-wise segment tree over its leaf cells, and the leaf cells of
    /// every internal row are the elementwise fold of its children's.
    pub closed spec fn wf(&self) -> bool {
        &&& self.height >= 1
        &&& self.width >= 1
        &&& 2 * self.height <= usize::MAX
        &&& 2 * self.width <= usize::MAX
        &&& self.table@.len() == 2 * self.height
        &&& forall|r: int| 0 <= r < 2 * self.height ==> (#[trigger] self.table@[r]@.len()) == 2
            * self.width
        &&& forall|r: int|
            1 <= r < 2 * self.height ==> nodes_ok::<T>(
                seq_views(#[trigger] self.table@[r]@),
                self.width as int,
            )
        &&& forall|r: int, c: int|
            1 <= r < self.height && self.width <= c < 2 * self.width ==> (
            #[trigger] self.table@[r]@[c]@) == T::op_spec(
                self.table@[2 * r]@[c]@,
                self.table@[2 * r + 1]@[c]@,
            )
    }

    /// The leaf cells of physical row `r` are the logical row `vrow`
    /// determines from the grid.
    proof fn lemma_row_leaves(&self, r: int)
        requires
            self.wf(),
            1 <= r < 2 * self.height,
        ensures
            seq_views(self.table@[r]@).subrange(self.width as int, 2 * self.width as int)
                == vrow::<T>(self@, self.height as int, r),
        decreases 2 * self.height - r,
    {
        let h = self.height as int;
        let w = self.width as int;
        if r >= h {
            assert(self@[r - h] == seq_views(self.table@[r]@).subrange(w, 2 * w));
        } else {
            self.lemma_row_leaves(2 * r);
            self.lemma_row_leaves(2 * r + 1);
            assert(seq_views(self.table@[r]@).subrange(w, 2 * w) =~= zip_op::<T>(
                vrow::<T>(self@, h, 2 * r),
                vrow::<T>(self@, h, 2 * r + 1),
            ));
        }
    }

    /// Builds the tree from a non-empty rectangular grid: copies the grid
    /// rows into the lower-right quadrant, builds each leaf row's column
    /// tree, then fills each internal row bottom-up (elementwise folds of
    /// its children's leaf cells, then that row's column tree).
    #[verifier::rlimit(100)]
    pub fn from_slice_vec(src: &[Vec<T>]) -> (r: Self)
        requires
            src@.len() >= 1,
            src@[0]@.len() >= 1,
            forall|i: int| 0 <= i < src@.len() ==> (#[trigger] src@[i]@).len() == src@[0]@.len(),
            2 * src@.len() <= usize::MAX,
            2 * src@[0]@.len() <= usize::MAX,
        ensures
            r.wf(),
            r@.len() == src@.len(),
            forall|i: int| 0 <= i < src@.len() ==> #[trigger] r@[i] == seq_views(src@[i]@),
    {
        let h = src.len();
        let w = src[0].len();
        let mut table: Vec<Vec<T>> = Vec::new();
        let mut r: usize = 0;
        while r < 2 * h
            invariant
                h == src@.len(),
                w == src@[0]@.len(),
                forall|i: int| 0 <= i < h ==> (#[trigger] src@[i]@).len() == w,
                h >= 1,
                w >= 1,
                2 * h <= usize::MAX,
                2 * w <= usize::MAX,
                r <= 2 * h,
                table@.len() == r,
                forall|i: int| 0 <= i < r ==> (#[trigger] table@[i]@).len() == 2 * w,
                forall|i: int, c: int|
                    0 <= i < r && 0 <= c < 2 * w ==> (#[trigger] table@[i]@[c]@) == src@[i % (
                    h as int)]@[c % (w as int)]@,
            decreases 2 * h - r,
        {
            let src_row = &src[r % h];
            let mut row: Vec<T> = Vec::new();
            let mut c: usize = 0;
            while c < 2 * w
                invariant
                    w >= 1,
                    2 * w <= usize::MAX,
                    src_row@.len() == w,
                    c <= 2 * w,
                    row@.len() == c,
                    forall|k: int| 0 <= k < c ==> (#[trigger] row@[k]@) == src_row@[k % (w as int)]@,
                decreases 2 * w - c,
            {
                let x = src_row[c % w].clone();
                proof {
                    clone_view_eq::<T>(src_row@[(c as int) % (w as int)], x);
                }
                row.push(x);
                c += 1;
            }
            table.push(row);
            r += 1;
        }
        let mut res = TwoDimensionalSegtree { height: h, width: w, table };
        let mut r: usize = 2 * h;
        while r > h
            invariant
                res.height == h,
                res.width == w,
                h >= 1,
                w >= 1,
                2 * h <= usize::MAX,
                2 * w <= usize::MAX,
                h <= r <= 2 * h,
                res.table@.len() == 2 * h,
                forall|i: int| 0 <= i < 2 * h ==> (#[trigger] res.table@[i]@).len() == 2 * w,
                forall|i: int, c: int|
                    0 <= i < 2 * h && 0 <= c < 2 * w && (i < r || w <= c) ==> (
                    #[trigger] res.table@[i]@[c]@) == src@[i % (h as int)]@[c % (w as int)]@,
                forall|i: int|
                    r <= i < 2 * h ==> nodes_ok::<T>(
                        seq_views(#[trigger] res.table@[i]@),
                        w as int,
                    ),
            decreases r - h,
        {
            r -= 1;
            let ghost pre = res.table@;
            let row = vec_row_mut(&mut res.table, r);
            build_row::<T>(row, w);
            proof {
                assert(forall|i: int|
                    0 <= i < 2 * h && i != r ==> res.table@[i] == #[trigger] pre[i]);
            }
        }
        proof {
            assert forall|i: int, c: int|
                h <= i < 2 * h && w <= c < 2 * w implies (#[trigger] res.table@[i]@[c]@) == src@[i
                - h]@[c - w]@ by {
                assert(i % (h as int) == i - h && c % (w as int) == c - w) by (nonlinear_arith)
                    requires
                        h >= 1,
                        h <= i < 2 * h,
                        w >= 1,
                        w <= c < 2 * w,
                ;
            }
        }
        let mut r: usize = h;
        while r > 1
            invariant
                res.height == h,
                res.width == w,
                h >= 1,
                w >= 1,
                2 * h <= usize::MAX,
                2 * w <= usize::MAX,
                1 <= r <= h,
                res.table@.len() == 2 * h,
                forall|i: int| 0 <= i < 2 * h ==> (#[trigger] res.table@[i]@).len() == 2 * w,
                forall|i: int, c: int|
                    h <= i < 2 * h && w <= c < 2 * w ==> (#[trigger] res.table@[i]@[c]@) == src@[i
                        - h]@[c - w]@,
                forall|i: int|
                    r <= i < 2 * h ==> nodes_ok::<T>(
                        seq_views(#[trigger] res.table@[i]@),
                        w as int,
                    ),
                forall|i: int, c: int|
                    r <= i < h && w <= c < 2 * w ==> (#[trigger] res.table@[i]@[c]@) == T::op_spec(
                        res.table@[2 * i]@[c]@,
                        res.table@[2 * i + 1]@[c]@,
                    ),
            decreases r,
        {
            r -= 1;
            let mut c: usize = w;
            while c < 2 * w
                invariant
                    res.height == h,
                    res.width == w,
                    h >= 1,
                    w >= 1,
                    1 <= r < h,
                    2 * h <= usize::MAX,
                    2 * w <= usize::MAX,
                    w <= c <= 2 * w,
                    res.table@.len() == 2 * h,
                    forall|i: int| 0 <= i < 2 * h ==> (#[trigger] res.table@[i]@).len() == 2 * w,
                    forall|i: int, cc: int|
                        h <= i < 2 * h && w <= cc < 2 * w ==> (#[trigger] res.table@[i]@[cc]@)
                            == src@[i - h]@[cc - w]@,
                    forall|i: int|
                        r + 1 <= i < 2 * h ==> nodes_ok::<T>(
                            seq_views(#[trigger] res.table@[i]@),
                            w as int,
                        ),
                    forall|i: int, cc: int|
                        r + 1 <= i < h && w <= cc < 2 * w ==> (#[trigger] res.table@[i]@[cc]@)
                            == T::op_spec(res.table@[2 * i]@[cc]@, res.table@[2 * i + 1]@[cc]@),
                    forall|cc: int|
                        w <= cc < c ==> (#[trigger] res.table@[r as int]@[cc]@) == T::op_spec(
                            res.table@[2 * r]@[cc]@,
                            res.table@[2 * r + 1]@[cc]@,
                        ),
                decreases 2 * w - c,
            {
                let v = res.table[2 * r][c].op(&res.table[2 * r + 1][c]);
                let ghost pre = res.table@;
                let row = vec_row_mut(&mut res.table, r);
                row.set(c, v);
                proof {
                    assert(forall|i: int|
                        0 <= i < 2 * h && i != r ==> res.table@[i] == #[trigger] pre[i]);
                }
                c += 1;
            }
            let ghost pre = res.table@;
            let row = vec_row_mut(&mut res.table, r);
            build_row::<T>(row, w);
            proof {
                assert(forall|i: int|
                    0 <= i < 2 * h && i != r ==> res.table@[i] == #[trigger] pre[i]);
            }
        }
        proof {
            assert forall|i: int| 0 <= i < h implies #[trigger] res@[i] == seq_views(src@[i]@) by {
                assert(res@[i] =~= seq_views(src@[i]@));
            }
        }
        res
    }


    /// Replaces cell `(i, j)` of the grid: assigns the leaf in its grid
    /// row's column tree, then refreshes column `j` of each vertical
    /// ancestor row and that column's ancestors within those rows.
    pub fn update(&mut self, i: usize, j: usize, x: T)
        requires
            old(self).wf(),
            i < old(self)@.len(),
            j < old(self)@[i as int].len(),
        ensures
            final(self).wf(),
            final(self)@ == old(self)@.update(
                i as int,
                old(self)@[i as int].update(j as int, x@),
            ),
    {
        let h = self.height;
        let w = self.width;
        let ghost goal = old(self)@.update(i as int, old(self)@[i as int].update(j as int, x@));
        let mut r = i + h;
        let ghost pre0 = self.table@;
        let row = vec_row_mut(&mut self.table, r);
        set_in_row::<T>(row, w, j, x);
        proof {
            assert(forall|k: int| 0 <= k < 2 * h && k != r ==> self.table@[k] == #[trigger] pre0[k]);
            assert forall|k: int| 0 <= k < h implies self@[k] == goal[k] by {
                assert(self@[k] =~= goal[k]);
            }
            assert(self@ =~= goal);
        }
        while r != 1
            invariant
                self.height == h,
                self.width == w,
                h >= 1,
                w >= 1,
                2 * h <= usize::MAX,
                2 * w <= usize::MAX,
                j < w,
                self.table@.len() == 2 * h,
                forall|k: int| 0 <= k < 2 * h ==> (#[trigger] self.table@[k]@).len() == 2 * w,
                1 <= r < 2 * h,
                self@ == goal,
                forall|k: int|
                    1 <= k < 2 * h ==> nodes_ok::<T>(
                        seq_views(#[trigger] self.table@[k]@),
                        w as int,
                    ),
                forall|k: int, c: int|
                    1 <= k < h && w <= c < 2 * w && !(crate::segtree::on_path(k, r as int) && c
                        == w + j) ==> (#[trigger] self.table@[k]@[c]@) == T::op_spec(
                        self.table@[2 * k]@[c]@,
                        self.table@[2 * k + 1]@[c]@,
                    ),
            decreases r,
        {
            let ghost r_old = r as int;
            r /= 2;
            let v = self.table[2 * r][w + j].op(&self.table[2 * r + 1][w + j]);
            let ghost pre = self.table@;
            let row = vec_row_mut(&mut self.table, r);
            set_in_row::<T>(row, w, j, v);
            proof {
                assert(forall|k: int|
                    0 <= k < 2 * h && k != r ==> self.table@[k] == #[trigger] pre[k]);
                assert forall|k: int| 0 <= k < h implies self@[k] == goal[k] by {
                    assert(self@[k] =~= goal[k]);
                }
                assert(self@ =~= goal);
                assert forall|k: int, c: int|
                    1 <= k < h && w <= c < 2 * w && !(crate::segtree::on_path(k, r as int) && c
                        == w + j) implies (#[trigger] self.table@[k]@[c]@) == T::op_spec(
                    self.table@[2 * k]@[c]@,
                    self.table@[2 * k + 1]@[c]@,
                ) by {
                    if k == r {
                        if c == w + j {
                            assert(self.table@[k]@[c]@ == v@);
                        } else {
                            assert(self.table@[k]@[c]@ == pre[k]@[c]@);
                            assert(pre[k]@[c]@ == T::op_spec(pre[2 * k]@[c]@, pre[2 * k + 1]@[c]@));
                            assert(self.table@[2 * k]@[c]@ == pre[2 * k]@[c]@);
                            assert(self.table@[2 * k + 1]@[c]@ == pre[2 * k + 1]@[c]@);
                        }
                    } else {
                        assert(self.table@[k]@[c]@ == pre[k]@[c]@);
                        if 2 * k == r || 2 * k + 1 == r {
                            assert(k == r / 2);
                            assert(crate::segtree::on_path(k, r as int));
                            assert(c != w + j);
                            assert(self.table@[2 * k]@[c]@ == pre[2 * k]@[c]@);
                            assert(self.table@[2 * k + 1]@[c]@ == pre[2 * k + 1]@[c]@);
                        }
                        assert(!(crate::segtree::on_path(k, r_old) && c == w + j));
                    }
                }
            }
        }
    }

    /// Folds columns `range` of the row-tree behind physical row `i`
    /// left-to-right; `None` when the range is empty. A leaf row
    /// `height <= i < 2 * height` reads grid row `i - height`; an internal
    /// row reads the elementwise folds of its descendants' rows.
    pub fn fold_horizontally(&self, i: usize, range: core::ops::Range<usize>) -> (r: Option<T>)
        requires
            self.wf(),
            1 <= i,
            i < 2 * self@.len(),
            range.start <= range.end,
            range.end <= self@[0].len(),
        ensures
            range.start == range.end ==> r is None,
            range.start < range.end ==> r is Some && r.unwrap()@ == fold_seq::<T>(
                vrow::<T>(self@, self@.len() as int, i as int).subrange(
                    range.start as int,
                    range.end as int,
                ),
            ),
    {
        let w = self.width;
        proof {
            self.lemma_row_leaves(i as int);
            assert(vrow::<T>(self@, self@.len() as int, i as int).subrange(
                range.start as int,
                range.end as int,
            ) =~= seq_views(self.table@[i as int]@).subrange(
                w + range.start,
                w + range.end,
            ));
        }
        fold_in_row::<T>(&self.table[i], w, range.start, range.end)
    }

    /// Folds the cells of the rectangle `rows x cols` in row-major order
    /// (rows top to bottom, each row left to right); `None` when either
    /// range is empty. Combines whole-row folds of the grid rows.
    pub fn fold(&self, rows: core::ops::Range<usize>, cols: core::ops::Range<usize>) -> (res:
        Option<T>)
        requires
            self.wf(),
            rows.start <= rows.end,
            rows.end <= self@.len(),
            cols.start <= cols.end,
            cols.end <= self@[0].len(),
        ensures
            rows.start == rows.end || cols.start == cols.end ==> res is None,
            rows.start < rows.end && cols.start < cols.end ==> res is Some && res.unwrap()@
                == fold_seq::<T>(
                rect_seq::<T>(
                    self@,
                    rows.start as int,
                    rows.end as int,
                    cols.start as int,
                    cols.end as int,
                ),
            ),
    {
        let h = self.height;
        let w = self.width;
        let c0 = cols.start;
        let c1 = cols.end;
        let ghost g = self@;
        let ghost ir0 = rows.start as int;
        let ghost ic0 = c0 as int;
        let ghost ic1 = c1 as int;
        proof {
            assert(forall|k: int| 0 <= k < h ==> (#[trigger] g[k]).len() == w);
        }
        let mut start = rows.start + h;
        let mut end = rows.end + h;
        if start == end || c0 == c1 {
            return None;
        }
        proof {
            self.lemma_row_leaves(start as int);
        }
        if start + 1 == end {
            let res = fold_in_row::<T>(&self.table[start], w, c0, c1);
            proof {
                assert(rect_seq::<T>(g, ir0, ir0, ic0, ic1) == Seq::<T::V>::empty());
                assert(rect_seq::<T>(g, ir0, ir0 + 1, ic0, ic1) =~= g[ir0].subrange(ic0, ic1));
                assert(g[ir0].subrange(ic0, ic1) =~= seq_views(self.table@[start as int]@).subrange(
                    w + c0,
                    w + c1,
                ));
            }
            return res;
        }
        let first = fold_in_row::<T>(&self.table[start], w, c0, c1);
        let mut left = first.unwrap();
        proof {
            assert(rect_seq::<T>(g, ir0, ir0, ic0, ic1) == Seq::<T::V>::empty());
            assert(rect_seq::<T>(g, ir0, ir0 + 1, ic0, ic1) =~= g[ir0].subrange(ic0, ic1));
            assert(g[ir0].subrange(ic0, ic1) =~= seq_views(self.table@[start as int]@).subrange(
                w + c0,
                w + c1,
            ));
        }
        start += 1;
        end -= 1;
        proof {
            self.lemma_row_leaves(end as int);
        }
        let last = fold_in_row::<T>(&self.table[end], w, c0, c1);
        let right = last.unwrap();
        proof {
            assert(g[end - h].subrange(ic0, ic1) =~= seq_views(self.table@[end as int]@).subrange(
                w + c0,
                w + c1,
            ));
        }
        while start != end
            invariant
                self.wf(),
                self.height == h,
                self.width == w,
                g == self@,
                h >= 1,
                w >= 1,
                0 <= ic0 < ic1 <= w,
                c0 == ic0,
                c1 == ic1,
                0 <= ir0,
                h <= start <= end < 2 * h,
                ir0 + h < start,
                left@ == fold_seq::<T>(rect_seq::<T>(g, ir0, start - h, ic0, ic1)),
                right@ == fold_seq::<T>(g[end - h].subrange(ic0, ic1)),
            decreases end - start,
        {
            proof {
                assert(forall|k: int| 0 <= k < h ==> (#[trigger] g[k]).len() == w);
                self.lemma_row_leaves(start as int);
            }
            let step = fold_in_row::<T>(&self.table[start], w, c0, c1);
            let piece = step.unwrap();
            proof {
                assert(g[start - h].subrange(ic0, ic1) =~= seq_views(
                    self.table@[start as int]@,
                ).subrange(w + c0, w + c1));
                lemma_rect_nonempty::<T>(g, ir0, start - h, ic0, ic1);
                lemma_fold_concat::<T>(
                    rect_seq::<T>(g, ir0, start - h, ic0, ic1),
                    g[start - h].subrange(ic0, ic1),
                );
                assert(rect_seq::<T>(g, ir0, start - h + 1, ic0, ic1) == rect_seq::<T>(
                    g,
                    ir0,
                    start - h,
                    ic0,
                    ic1,
                ) + g[start - h].subrange(ic0, ic1));
            }
            left.op_assign_from_the_right(&piece);
            start += 1;
        }
        proof {
            assert(forall|k: int| 0 <= k < h ==> (#[trigger] g[k]).len() == w);
            lemma_rect_nonempty::<T>(g, ir0, start - h, ic0, ic1);
            lemma_fold_concat::<T>(
                rect_seq::<T>(g, ir0, start - h, ic0, ic1),
                g[end - h].subrange(ic0, ic1),
            );
            assert(rect_seq::<T>(g, ir0, end - h + 1, ic0, ic1) == rect_seq::<T>(
                g,
                ir0,
                end - h,
                ic0,
                ic1,
            ) + g[end - h].subrange(ic0, ic1));
        }
        Some(left.op(&right))
    }

    /// Extracts the logical grid: the leaf cells of the leaf rows.
    pub fn to_vec(&self) -> (r: Vec<Vec<T>>)
        requires
            self.wf(),
        ensures
            r@.len() == self@.len(),
            forall|i: int| 0 <= i < self@.len() ==> seq_views(#[trigger] r@[i]@) == self@[i],
    {
        let h = self.height;
        let w = self.width;
        let mut out: Vec<Vec<T>> = Vec::new();
        let mut i: usize = 0;
        while i < h
            invariant
                self.wf(),
                h == self.height,
                w == self.width,
                i <= h,
                out@.len() == i,
                forall|k: int| 0 <= k < i ==> seq_views(#[trigger] out@[k]@) == self@[k],
            decreases h - i,
        {
            let row = &self.table[h + i];
            let mut out_row: Vec<T> = Vec::new();
            let mut j: usize = 0;
            while j < w
                invariant
                    self.wf(),
                    h == self.height,
                    w == self.width,
                    i < h,
                    row == &self.table[h + i],
                    j <= w,
                    out_row@.len() == j,
                    forall|k: int| 0 <= k < j ==> (#[trigger] out_row@[k]@) == row@[w + k]@,
                decreases w - j,
            {
                let x = row[w + j].clone();
                proof {
                    clone_view_eq::<T>(row@[w + j], x);
                }
                out_row.push(x);
                j += 1;
            }
            proof {
                assert(seq_views(out_row@) =~= self@[i as int]);
            }
            out.push(out_row);
            i += 1;
        }
        out
    }
}

/// A mutable borrow of one row of the table, with the relation between the
/// final table and the final row.
fn vec_row_mut<T>(table: &mut Vec<Vec<T>>, i: usize) -> (row: &mut Vec<T>)
    requires
        i < old(table)@.len(),
    ensures
        *row == old(table)@[i as int],
        final(table)@ == old(table)@.update(i as int, *final(row)),
{
    &mut table[i]
}

} // verus!

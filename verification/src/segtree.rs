//! An array-backed segment tree over an associative operation: point
//! assignment and half-open range folds, with the fold guaranteed to apply
//! the operation left-to-right across the leaves, which matters when the
//! operation does not commute.

use vstd::prelude::*;
use vstd::arithmetic::power2::{pow2, lemma_pow2_pos, lemma_pow2_unfold};

use crate::value::{Value, fold_seq, lemma_fold_concat, clone_view_eq, seq_views};

verus! {

broadcast use crate::value::lemma_seq_views_len, crate::value::lemma_seq_views_index;

/// Every internal node of `t` (slots `1 .. n`) holds the fold of its two
/// children at slots `2i` and `2i + 1`; slot `0` is unused.
pub(crate) open spec fn nodes_ok<T: Value>(t: Seq<T::V>, n: int) -> bool {
    forall|i: int| 1 <= i < n ==> #[trigger] t[i] == T::op_spec(t[2 * i], t[2 * i + 1])
}

/// A node `i` whose depth-`e` descendants are exactly the table slots
/// `i * 2^e .. (i + 1) * 2^e`, all of which lie in the leaf area
/// `n .. 2n`, holds the left-to-right fold of those slots.
pub(crate) proof fn lemma_node_fold<T: Value>(t: Seq<T::V>, n: int, i: int, e: nat)
    requires
        n >= 1,
        t.len() == 2 * n,
        nodes_ok::<T>(t, n),
        1 <= i,
        n <= i * pow2(e),
        (i + 1) * pow2(e) <= 2 * n,
    ensures
        t[i] == fold_seq::<T>(t.subrange(i * pow2(e), (i + 1) * pow2(e))),
    decreases e,
{
    lemma_pow2_pos(e);
    if e == 0 {
        vstd::arithmetic::power2::lemma2_to64();
        assert(t.subrange(i, i + 1) =~= seq![t[i]]);
        assert(fold_seq::<T>(seq![t[i]]) == t[i]);
    } else {
        lemma_pow2_unfold(e);
        lemma_pow2_pos((e - 1) as nat);
        let p = pow2((e - 1) as nat) as int;
        assert(2 * i * p == i * pow2(e) && (2 * i + 1) * p == i * pow2(e) + p && (2 * i + 2) * p
            == (i + 1) * pow2(e) && (i + 1) * pow2(e) == i * pow2(e) + 2 * p) by (nonlinear_arith)
            requires
                pow2(e) == 2 * p,
        ;
        assert(i < n) by (nonlinear_arith)
            requires
                (i + 1) * pow2(e) <= 2 * n,
                pow2(e) >= 2,
                i >= 1,
                n >= 1,
        ;
        lemma_node_fold::<T>(t, n, 2 * i, (e - 1) as nat);
        lemma_node_fold::<T>(t, n, 2 * i + 1, (e - 1) as nat);
        let a = i * pow2(e);
        let m = a + p;
        let b = (i + 1) * pow2(e);
        assert(t.subrange(a, b) =~= t.subrange(a, m) + t.subrange(m, b));
        lemma_fold_concat::<T>(t.subrange(a, m), t.subrange(m, b));
        assert(t[i] == T::op_spec(t[2 * i], t[2 * i + 1]));
    }
}

/// A node `j` lies on the strict ancestor path of slot `i`, that is,
/// `j` is one of `i/2, i/4, ..., 1`.
pub(crate) open spec fn on_path(j: int, i: int) -> bool
    decreases i,
{
    if i <= 1 {
        false
    } else {
        j == i / 2 || on_path(j, i / 2)
    }
}

/// A segment tree over `n` leaves: a table of `2n` slots where slot
/// `n + k` holds leaf `k` and each slot `i` in `1 .. n` holds the fold of
/// slots `2i` and `2i + 1`. The view `self@` is the sequence of leaf views.
pub struct Segtree<T: Value> {
    len: usize,
    table: Vec<T>,
}

impl<T: Value> View for Segtree<T> {
    type V = Seq<T::V>;

    closed spec fn view(&self) -> Seq<T::V> {
        seq_views(self.table@).subrange(self.len as int, 2 * self.len as int)
    }
}

impl<T: Value> Segtree<T> {
    /// The structural invariant: established by `with_slice`, preserved by
    /// `set`, assumed by `fold`.
    pub closed spec fn wf(&self) -> bool {
        &&& self.len >= 1
        &&& 2 * self.len <= usize::MAX
        &&& self.table@.len() == 2 * self.len
        &&& nodes_ok::<T>(seq_views(self.table@), self.len as int)
    }

    /// Builds a tree over the given non-empty leaves; a synonym of
    /// `with_slice` under the name other callers use.
    pub fn from_slice(src: &[T]) -> (r: Self)
        requires
            src@.len() >= 1,
            2 * src@.len() <= usize::MAX,
        ensures
            r.wf(),
            r@ == seq_views(src@),
    {
        Self::with_slice(src)
    }

    /// Builds a tree over the given non-empty leaves: copies them into the
    /// upper half of the table, then computes every internal node bottom-up.
    pub fn with_slice(src: &[T]) -> (r: Self)
        requires
            src@.len() >= 1,
            2 * src@.len() <= usize::MAX,
        ensures
            r.wf(),
            r@ == seq_views(src@),
    {
        let n = src.len();
        let mut table: Vec<T> = Vec::new();
        let mut i: usize = 0;
        while i < 2 * n
            invariant
                n == src@.len(),
                2 * n <= usize::MAX,
                n >= 1,
                i <= 2 * n,
                table@.len() == i,
                forall|j: int| 0 <= j < i ==> #[trigger] table@[j]@ == src@[j % (n as int)]@,
            decreases 2 * n - i,
        {
            let c = src[i % n].clone();
            proof {
                clone_view_eq::<T>(src@[(i as int) % (n as int)], c);
            }
            table.push(c);
            i += 1;
        }
        let mut res = Segtree { len: n, table };
        proof {
            assert forall|j: int| n <= j < 2 * n implies res.table@[j]@ == src@[j - n]@ by {
                assert(j % (n as int) == j - n) by (nonlinear_arith)
                    requires
                        n >= 1,
                        n <= j < 2 * n,
                ;
            }
            assert(res@ =~= seq_views(src@));
        }
        let mut k: usize = n;
        while k > 1
            invariant
                res.len == n,
                n >= 1,
                2 * n <= usize::MAX,
                res.table@.len() == 2 * n,
                1 <= k <= n,
                res@ == seq_views(src@),
                forall|j: int| k <= j < n ==> #[trigger] res.table@[j]@ == T::op_spec(
                    res.table@[2 * j]@,
                    res.table@[2 * j + 1]@,
                ),
            decreases k,
        {
            k -= 1;
            let ghost pre = res.table@;
            res.update_node(k);
            proof {
                assert(res@ =~= seq_views(pre).subrange(n as int, 2 * n));
            }
        }
        proof {
            assert forall|j: int| 1 <= j < n implies #[trigger] seq_views(res.table@)[j]
                == T::op_spec(seq_views(res.table@)[2 * j], seq_views(res.table@)[2 * j + 1]) by {
                assert(res.table@[j]@ == T::op_spec(res.table@[2 * j]@, res.table@[2 * j + 1]@));
            }
        }
        res
    }

    /// Recomputes one internal node from its two children.
    fn update_node(&mut self, i: usize)
        requires
            1 <= i,
            2 * i + 1 < old(self).table@.len(),
            old(self).table@.len() <= usize::MAX,
        ensures
            final(self).len == old(self).len,
            final(self).table@.len() == old(self).table@.len(),
            seq_views(final(self).table@) == seq_views(old(self).table@).update(
                i as int,
                T::op_spec(old(self).table@[2 * i]@, old(self).table@[2 * i + 1]@),
            ),
    {
        let v = self.table[2 * i].op(&self.table[2 * i + 1]);
        self.table.set(i, v);
        proof {
            assert(seq_views(self.table@) =~= seq_views(old(self).table@).update(
                i as int,
                T::op_spec(old(self).table@[2 * i]@, old(self).table@[2 * i + 1]@),
            ));
        }
    }

    /// Assigns leaf `i`, then recomputes the ancestors of that leaf walking
    /// upward to the root, so that the invariant holds again on return.
    pub fn set(&mut self, i: usize, x: T)
        requires
            old(self).wf(),
            i < old(self)@.len(),
        ensures
            final(self).wf(),
            final(self)@ == old(self)@.update(i as int, x@),
    {
        let n = self.len;
        let ghost goal = old(self)@.update(i as int, x@);
        let mut idx = i + n;
        self.table.set(idx, x);
        proof {
            assert(self@ =~= goal);
        }
        while idx != 1
            invariant
                self.len == n,
                n >= 1,
                2 * n <= usize::MAX,
                self.table@.len() == 2 * n,
                1 <= idx < 2 * n,
                self@ == goal,
                forall|j: int| 1 <= j < n && !on_path(j, idx as int) ==> #[trigger] self.table@[j]@
                    == T::op_spec(self.table@[2 * j]@, self.table@[2 * j + 1]@),
            decreases idx,
        {
            idx /= 2;
            let ghost pre = self.table@;
            self.update_node(idx);
            proof {
                assert(self@ =~= seq_views(pre).subrange(n as int, 2 * n));
                assert forall|j: int|
                    1 <= j < n && !on_path(j, idx as int) implies #[trigger] self.table@[j]@
                    == T::op_spec(self.table@[2 * j]@, self.table@[2 * j + 1]@) by {
                    if j != idx {
                        assert(2 * j != idx && 2 * j + 1 != idx);
                        assert(self.table@[j]@ == pre[j]@);
                    }
                }
            }
        }
        proof {
            assert forall|j: int| 1 <= j < n implies #[trigger] seq_views(self.table@)[j]
                == T::op_spec(seq_views(self.table@)[2 * j], seq_views(self.table@)[2 * j + 1]) by {
                assert(self.table@[j]@ == T::op_spec(self.table@[2 * j]@, self.table@[2 * j + 1]@));
            }
        }
    }

    /// Folds the leaves of the half-open range left-to-right; an empty
    /// range yields `None`. Uses the bottom-up two-pointer walk: a left
    /// accumulator absorbs right-open boundary nodes from the right, a
    /// right accumulator absorbs left-closed boundary nodes from the left,
    /// and the two are combined once the pointers meet.
    pub fn fold(&self, range: core::ops::Range<usize>) -> (r: Option<T>)
        requires
            self.wf(),
            range.start <= range.end,
            range.end <= self@.len(),
        ensures
            range.start == range.end ==> r is None,
            range.start < range.end ==> r is Some && r.unwrap()@ == fold_seq::<T>(
                self@.subrange(range.start as int, range.end as int),
            ),
    {
        let n = self.len;
        let ghost t = seq_views(self.table@);
        let ghost s0 = range.start + n as int;
        let ghost e0 = range.end + n as int;
        proof {
            assert(self@.subrange(range.start as int, range.end as int) =~= t.subrange(s0, e0));
        }
        let mut start = range.start + n;
        let mut end = range.end + n;
        if start == end {
            return None;
        }
        if start + 1 == end {
            let c = self.table[start].clone();
            proof {
                clone_view_eq::<T>(self.table@[start as int], c);
                assert(t.subrange(s0, e0) =~= seq![t[s0]]);
            }
            return Some(c);
        }
        let mut left = self.table[start].clone();
        proof {
            clone_view_eq::<T>(self.table@[start as int], left);
            assert(t.subrange(s0, s0 + 1) =~= seq![t[s0]]);
        }
        start += 1;
        end -= 1;
        let mut right = self.table[end].clone();
        proof {
            clone_view_eq::<T>(self.table@[end as int], right);
            assert(t.subrange(e0 - 1, e0) =~= seq![t[e0 - 1]]);
        }
        let ghost mut e: nat = 0;
        proof {
            vstd::arithmetic::power2::lemma2_to64();
        }
        while start != end
            invariant
                self.wf(),
                self.len == n,
                n >= 1,
                2 * n <= usize::MAX,
                t == seq_views(self.table@),
                t.len() == 2 * n,
                n <= s0,
                s0 + 2 <= e0 <= 2 * n,
                1 <= start <= end,
                s0 + 1 <= start * pow2(e),
                end * pow2(e) <= e0 - 1,
                left@ == fold_seq::<T>(t.subrange(s0, start * pow2(e))),
                right@ == fold_seq::<T>(t.subrange(end * pow2(e), e0)),
            decreases end,
        {
            let ghost p = pow2(e) as int;
            proof {
                lemma_pow2_pos(e);
                assert(start * p <= end * p && start <= start * p && end <= end * p) by (
                nonlinear_arith)
                    requires
                        p >= 1,
                        1 <= start <= end,
                ;
            }
            if start % 2 == 1 {
                proof {
                    assert((start + 1) * p == start * p + p && (start + 1) * p <= end * p) by (
                    nonlinear_arith)
                        requires
                            p >= 1,
                            start + 1 <= end,
                    ;
                    lemma_node_fold::<T>(t, n as int, start as int, e);
                    lemma_fold_concat::<T>(
                        t.subrange(s0, start * p),
                        t.subrange(start * p, start * p + p),
                    );
                    assert(t.subrange(s0, start * p + p) =~= t.subrange(s0, start * p) + t.subrange(
                        start * p,
                        start * p + p,
                    ));
                }
                left.op_assign_from_the_right(&self.table[start]);
                start += 1;
            }
            if end % 2 == 1 {
                end -= 1;
                proof {
                    assert((end + 1) * p == end * p + p && start * p <= end * p) by (
                    nonlinear_arith)
                        requires
                            p >= 1,
                            start <= end,
                    ;
                    lemma_node_fold::<T>(t, n as int, end as int, e);
                    lemma_fold_concat::<T>(
                        t.subrange(end * p, end * p + p),
                        t.subrange(end * p + p, e0),
                    );
                    assert(t.subrange(end * p, e0) =~= t.subrange(end * p, end * p + p)
                        + t.subrange(end * p + p, e0));
                }
                right.op_assign_from_the_left(&self.table[end]);
            }
            proof {
                assert(start % 2 == 0 && end % 2 == 0);
                lemma_pow2_unfold(e + 1);
                assert((start / 2) * (2 * p) == start * p && (end / 2) * (2 * p) == end * p) by (
                nonlinear_arith)
                    requires
                        start % 2 == 0,
                        end % 2 == 0,
                        p >= 1,
                ;
            }
            start /= 2;
            end /= 2;
            proof {
                e = e + 1;
            }
        }
        proof {
            lemma_pow2_pos(e);
            lemma_fold_concat::<T>(t.subrange(s0, start * pow2(e)), t.subrange(end * pow2(e), e0));
            assert(t.subrange(s0, e0) =~= t.subrange(s0, start * pow2(e)) + t.subrange(
                end * pow2(e),
                e0,
            ));
        }
        Some(left.op(&right))
    }
}

/// Update consistency: after assigning leaf `i`, a fold over any range
/// that avoids `i` is unchanged, and a fold over a range containing `i`
/// is the fold of that range with the new leaf in place.
pub proof fn lemma_update_consistency<T: Value>(s: Seq<T::V>, i: int, v: T::V, lo: int, hi: int)
    requires
        0 <= lo <= hi <= s.len(),
        0 <= i < s.len(),
    ensures
        (i < lo || hi <= i) && lo < hi ==> fold_seq::<T>(s.update(i, v).subrange(lo, hi))
            == fold_seq::<T>(s.subrange(lo, hi)),
        lo <= i < hi ==> s.update(i, v).subrange(lo, hi) == s.subrange(lo, hi).update(i - lo, v),
{
    if i < lo || hi <= i {
        assert(s.update(i, v).subrange(lo, hi) =~= s.subrange(lo, hi));
    } else {
        assert(s.update(i, v).subrange(lo, hi) =~= s.subrange(lo, hi).update(i - lo, v));
    }
}

} // verus!

//! Integer partitions: an enumerator that steps through the partitions of
//! `n`, and the conjugate (transpose) of a partition.

use vstd::prelude::*;

verus! {

/// The sum of the parts.
pub open spec fn sum_parts(s: Seq<usize>) -> int
    decreases s.len(),
{
    if s.len() == 0 {
        0
    } else {
        sum_parts(s.drop_last()) + s.last()
    }
}

/// Every part is at least 1.
pub open spec fn all_positive(s: Seq<usize>) -> bool {
    forall|k: int| 0 <= k < s.len() ==> (#[trigger] s[k]) >= 1
}

/// A multiset of positive parts summing to `n` (order unconstrained).
pub open spec fn is_partition(s: Seq<usize>, n: int) -> bool {
    all_positive(s) && sum_parts(s) == n
}

/// Appending a part adds it to the sum.
pub proof fn lemma_sum_parts_push(s: Seq<usize>, v: usize)
    ensures
        sum_parts(s.push(v)) == sum_parts(s) + v,
{
    assert(s.push(v).drop_last() =~= s);
    assert(s.push(v).last() == v);
}

/// The sum splits at any midpoint.
pub proof fn lemma_sum_parts_split(s: Seq<usize>, mid: int)
    requires
        0 <= mid <= s.len(),
    ensures
        sum_parts(s) == sum_parts(s.subrange(0, mid)) + sum_parts(s.subrange(mid, s.len() as int)),
    decreases s.len() - mid,
{
    if mid == s.len() {
        assert(s.subrange(0, mid) =~= s);
        assert(s.subrange(mid, s.len() as int) =~= Seq::<usize>::empty());
    } else {
        lemma_sum_parts_split(s.drop_last(), mid);
        assert(s.drop_last().subrange(0, mid) =~= s.subrange(0, mid));
        assert(s.drop_last().subrange(mid, s.len() - 1) =~= s.subrange(mid, s.len() - 1));
        assert(s.subrange(mid, s.len() as int).drop_last() =~= s.subrange(mid, s.len() - 1));
        assert(s.subrange(mid, s.len() as int).last() == s.last());
    }
}

/// A run of ones sums to its length.
proof fn lemma_sum_parts_ones(s: Seq<usize>)
    requires
        forall|k: int| 0 <= k < s.len() ==> (#[trigger] s[k]) == 1,
    ensures
        sum_parts(s) == s.len(),
    decreases s.len(),
{
    if s.len() > 0 {
        lemma_sum_parts_ones(s.drop_last());
    }
}

/// An enumerator over the partitions of `n`; it hands out one partition
/// per call to `next` until all have been produced.
pub struct Partitions {
    n: usize,
    next: Option<Vec<usize>>,
}

/// Starts the enumeration of the partitions of `n` from the coarsest
/// partition, the single part `n` (for `n == 0`, the empty partition).
pub fn partitions(n: usize) -> (r: Partitions)
    ensures
        r.wf(),
        r.current() matches Some(s) && (n == 0 ==> s.len() == 0) && (n > 0 ==> s =~= seq![n]),
{
    if n == 0 {
        let v: Vec<usize> = Vec::new();
        proof {
            assert(v@ =~= Seq::<usize>::empty());
            assert(sum_parts(v@) == 0);
        }
        Partitions { n, next: Some(v) }
    } else {
        let mut v: Vec<usize> = Vec::new();
        v.push(n);
        proof {
            assert(v@ =~= seq![n]);
            assert(v@.drop_last() =~= Seq::<usize>::empty());
            assert(sum_parts(Seq::<usize>::empty()) == 0);
            assert(sum_parts(v@) == n);
        }
        Partitions { n, next: Some(v) }
    }
}

impl Partitions {
    /// The structural invariant: whatever is queued up is a partition of
    /// `n`.
    pub closed spec fn wf(&self) -> bool {
        match self.next {
            Option::Some(v) => is_partition(v@, self.n as int),
            Option::None => true,
        }
    }

    /// The partition the next call to `next` will hand out, if any.
    pub closed spec fn current(&self) -> Option<Seq<usize>> {
        match self.next {
            Option::Some(v) => Some(v@),
            Option::None => None,
        }
    }

    /// The `n` whose partitions are enumerated.
    pub closed spec fn spec_n(&self) -> int {
        self.n as int
    }

    /// Hands out the queued partition and computes its successor: the
    /// last part above 1 is decremented and the tail re-packed into parts
    /// of that size plus a remainder.
    pub fn next(&mut self) -> (r: Option<Vec<usize>>)
        requires
            old(self).wf(),
        ensures
            final(self).wf(),
            final(self).spec_n() == old(self).spec_n(),
            r matches Some(v) ==> old(self).current() == Some(v@) && is_partition(
                v@,
                old(self).spec_n(),
            ),
            r is None ==> old(self).current() is None,
    {
        let cur: Vec<usize> = match &self.next {
            Option::None => {
                return None;
            },
            Option::Some(v) => copy_parts(v),
        };
        let len = cur.len();
        let mut pos = len;
        while pos > 0 && cur[pos - 1] == 1
            invariant
                pos <= len,
                len == cur@.len(),
                forall|k: int| pos <= k < len ==> (#[trigger] cur@[k]) == 1,
            decreases pos,
        {
            pos -= 1;
        }
        if pos == 0 {
            self.next = None;
            return Some(cur);
        }
        let p = pos - 1;
        let lim = cur[p] - 1;
        let rest = len - p;
        let q = rest / lim;
        let rem = rest % lim;
        let mut succ: Vec<usize> = Vec::new();
        let mut k: usize = 0;
        while k < p
            invariant
                k <= p,
                p < len,
                len == cur@.len(),
                succ@ =~= cur@.subrange(0, k as int),
            decreases p - k,
        {
            succ.push(cur[k]);
            k += 1;
        }
        let ghost prefix = succ@;
        proof {
            assert(prefix =~= cur@.subrange(0, p as int));
        }
        proof {
            lemma_sum_parts_push(succ@, lim);
        }
        succ.push(lim);
        let mut c: usize = 0;
        proof {
            assert(0 * lim == 0) by (nonlinear_arith);
        }
        while c < q
            invariant
                c <= q,
                lim >= 1,
                succ@.len() == prefix.len() + 1 + c,
                succ@.subrange(0, prefix.len() as int) =~= prefix,
                forall|t: int|
                    prefix.len() <= t < succ@.len() ==> (#[trigger] succ@[t]) == lim,
                sum_parts(succ@) == sum_parts(prefix) + lim + c * lim,
            decreases q - c,
        {
            proof {
                lemma_sum_parts_push(succ@, lim);
                assert((c + 1) * lim == c * lim + lim) by (nonlinear_arith);
            }
            succ.push(lim);
            c += 1;
        }
        if rem != 0 {
            proof {
                lemma_sum_parts_push(succ@, rem);
            }
            succ.push(rem);
        }
        proof {
            let whole = cur@;
            let n = self.n as int;
            lemma_sum_parts_split(whole, p as int + 1);
            lemma_sum_parts_ones(whole.subrange(p as int + 1, len as int));
            lemma_sum_parts_split(whole.subrange(0, p as int + 1), p as int);
            assert(whole.subrange(0, p as int + 1).subrange(0, p as int) =~= whole.subrange(
                0,
                p as int,
            ));
            let single = whole.subrange(0, p as int + 1).subrange(p as int, p as int + 1);
            assert(single.len() == 1 && single.last() == whole[p as int]);
            assert(single.drop_last() =~= Seq::<usize>::empty());
            assert(sum_parts(Seq::<usize>::empty()) == 0);
            assert(sum_parts(single) == whole[p as int]);
            assert(sum_parts(whole) == sum_parts(whole.subrange(0, p as int)) + whole[p as int]
                + (len - p - 1));
            assert(sum_parts(prefix) == sum_parts(whole.subrange(0, p as int)));
            vstd::arithmetic::div_mod::lemma_fundamental_div_mod(rest as int, lim as int);
            assert(rest == lim * q + rem);
            assert(lim * q == q * lim) by (nonlinear_arith);
            assert(sum_parts(succ@) == sum_parts(prefix) + (cur@[p as int] - 1) + rest);
            assert(sum_parts(succ@) == n);
            assert forall|t: int| 0 <= t < succ@.len() implies (#[trigger] succ@[t]) >= 1 by {
                if t < prefix.len() {
                    assert(succ@[t] == succ@.subrange(0, prefix.len() as int)[t]);
                    assert(prefix[t] == cur@[t]);
                }
            }
        }
        self.next = Some(succ);
        Some(cur)
    }
}

/// The conjugate of a partition written in weakly decreasing order:
/// entry `j` of the result counts the parts of `src` that exceed `j`.
pub fn conjugate(src: &[usize]) -> (res: Vec<usize>)
    requires
        forall|a: int, b: int| 0 <= a <= b < src@.len() ==> (#[trigger] src@[a]) >= (
        #[trigger] src@[b]),
    ensures
        res@.len() == (if src@.len() == 0 {
            0int
        } else {
            src@[0] as int
        }),
        forall|j: int|
            0 <= j < res@.len() ==> (#[trigger] res@[j]) == count_gt(src@, j),
{
    if src.is_empty() {
        return Vec::new();
    }
    let mut res: Vec<usize> = Vec::new();
    let mut i = src.len();
    let mut j: usize = 0;
    while j < src[0]
        invariant
            src@.len() >= 1,
            forall|a: int, b: int| 0 <= a <= b < src@.len() ==> (#[trigger] src@[a]) >= (
            #[trigger] src@[b]),
            j <= src@[0],
            i <= src@.len(),
            res@.len() == j,
            forall|t: int| 0 <= t < j ==> (#[trigger] res@[t]) == count_gt(src@, t),
            forall|t: int| i <= t < src@.len() ==> (#[trigger] src@[t]) <= j,
        decreases src@[0] - j,
    {
        while i > 0 && src[i - 1] <= j
            invariant
                i <= src@.len(),
                j < src@[0],
                src@.len() >= 1,
                forall|a: int, b: int| 0 <= a <= b < src@.len() ==> (#[trigger] src@[a]) >= (
                #[trigger] src@[b]),
                forall|t: int| i <= t < src@.len() ==> (#[trigger] src@[t]) <= j,
            decreases i,
        {
            i -= 1;
        }
        proof {
            assert(i >= 1) by {
                if i == 0 {
                    assert(src@[0] <= j);
                }
            }
            assert forall|t: int| 0 <= t < i implies (#[trigger] src@[t]) > j by {
                assert(src@[t] >= src@[i - 1]);
            }
            lemma_count_gt_prefix(src@, j as int, i as int);
        }
        res.push(i);
        j += 1;
    }
    res
}

/// The number of entries of `s` strictly greater than `j`.
pub open spec fn count_gt(s: Seq<usize>, j: int) -> int
    decreases s.len(),
{
    if s.len() == 0 {
        0
    } else {
        count_gt(s.drop_last(), j) + (if s.last() > j {
            1int
        } else {
            0int
        })
    }
}

/// When the entries above `j` form exactly the first `c` positions, the
/// count is `c`.
proof fn lemma_count_gt_prefix(s: Seq<usize>, j: int, c: int)
    requires
        0 <= c <= s.len(),
        forall|t: int| 0 <= t < c ==> (#[trigger] s[t]) > j,
        forall|t: int| c <= t < s.len() ==> (#[trigger] s[t]) <= j,
    ensures
        count_gt(s, j) == c,
    decreases s.len(),
{
    if s.len() > 0 {
        if c == s.len() {
            lemma_count_gt_prefix(s.drop_last(), j, c - 1);
        } else {
            lemma_count_gt_prefix(s.drop_last(), j, c);
        }
    }
}

/// A value with ring-like operations, enough to accumulate the partition
/// function: a zero, a one, and in-place addition and subtraction.
/// Callers supply the value type; overflow behaviour is the type's own.
pub trait Ring: Sized + Clone {
    fn zero() -> Self;

    fn one() -> Self;

    fn add_assign_with(&mut self, rhs: &Self);

    fn sub_assign_with(&mut self, rhs: &Self);
}

impl Ring for i32 {
    fn zero() -> Self {
        0
    }

    fn one() -> Self {
        1
    }

    fn add_assign_with(&mut self, rhs: &Self) {
        *self = self.wrapping_add(*rhs);
    }

    fn sub_assign_with(&mut self, rhs: &Self) {
        *self = self.wrapping_sub(*rhs);
    }
}

impl Ring for i64 {
    fn zero() -> Self {
        0
    }

    fn one() -> Self {
        1
    }

    fn add_assign_with(&mut self, rhs: &Self) {
        *self = self.wrapping_add(*rhs);
    }

    fn sub_assign_with(&mut self, rhs: &Self) {
        *self = self.wrapping_sub(*rhs);
    }
}

/// The first `n` values of the partition function, computed by Euler's
/// pentagonal-number recurrence: entry `i` accumulates the entries at
/// distance `k (3k +- 1) / 2` below it with alternating signs.
pub fn partition_fn_table<T: Ring>(n: usize) -> (r: Vec<T>)
    requires
        4 * n + 8 <= usize::MAX,
    ensures
        r@.len() == n,
{
    let mut a: Vec<T> = Vec::new();
    let mut t: usize = 0;
    while t < n
        invariant
            t <= n,
            a@.len() == t,
        decreases n - t,
    {
        a.push(T::zero());
        t += 1;
    }
    if n == 0 {
        return a;
    }
    a.set(0, T::one());
    let mut i: usize = 0;
    while i < n
        invariant
            i <= n,
            a@.len() == n,
            4 * n + 8 <= usize::MAX,
        decreases n - i,
    {
        let mut sign: usize = 0;
        while sign < 2
            invariant
                sign <= 2,
                a@.len() == n,
                i < n,
                4 * n + 8 <= usize::MAX,
            decreases 2 - sign,
        {
            // For sign 0 the distances are k(3k + 1)/2, for sign 1 they
            // are k(3k - 1)/2, k counting from 1; the step from k to
            // k + 1 adds 3k + 2 or 3k + 1.
            let mut k: usize = 1;
            let mut d: usize = if sign == 0 {
                2
            } else {
                1
            };
            let mut parity: bool = true;
            while d <= i
                invariant
                    a@.len() == n,
                    i < n,
                    4 * n + 8 <= usize::MAX,
                    1 <= k <= d + 1,
                    d <= 4 * n + 5,
                decreases 4 * n + 6 - d,
            {
                let x = a[i - d].clone();
                let mut cur = a[i].clone();
                if parity {
                    cur.add_assign_with(&x);
                } else {
                    cur.sub_assign_with(&x);
                }
                a.set(i, cur);
                parity = !parity;
                let step = if sign == 0 {
                    3 * k + 2
                } else {
                    3 * k + 1
                };
                d += step;
                k += 1;
            }
            sign += 1;
        }
        i += 1;
    }
    a
}

/// Copies a vector of parts.
fn copy_parts(v: &Vec<usize>) -> (r: Vec<usize>)
    ensures
        r@ == v@,
{
    let mut r: Vec<usize> = Vec::new();
    let mut k: usize = 0;
    while k < v.len()
        invariant
            k <= v@.len(),
            r@ =~= v@.subrange(0, k as int),
        decreases v@.len() - k,
    {
        r.push(v[k]);
        k += 1;
    }
    proof {
        assert(r@ =~= v@);
    }
    r
}

} // verus!

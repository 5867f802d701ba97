//! A Fenwick (binary-indexed) tree over `u32` values with wraparound
//! arithmetic: point-delta update, prefix sums, append-only growth, and an
//! order-statistics search over the prefix sums.
//!
//! The table has one slot per element plus an unused slot `0`; slot `k`
//! stores the sum of the elements `k - lsb(k) .. k` (1-based), reduced
//! modulo `2^32`.

use vstd::prelude::*;
use vstd::wrapping::u32_specs;

use crate::bits::{
    lsb, lsb_spec, is_power_of_two, lemma_lsb_basic, lemma_lsb_aligned_add, lemma_lsb_step_up,
    lemma_no_cell_between, lemma_lsb_below_top, lemma_pow2_double_le,
};

verus! {

/// The modulus of `u32` arithmetic.
pub open spec fn m32(x: int) -> u32 {
    (x % 0x1_0000_0000) as u32
}

/// The sum, as an unbounded integer, of the elements `lo .. hi`.
pub open spec fn sum_range(a: Seq<u32>, lo: int, hi: int) -> int
    decreases hi - lo,
    when lo <= hi
{
    if hi <= lo {
        0
    } else {
        sum_range(a, lo, hi - 1) + a[hi - 1]
    }
}

/// A sum splits at any midpoint.
pub proof fn lemma_sum_split(a: Seq<u32>, lo: int, mid: int, hi: int)
    requires
        lo <= mid <= hi,
    ensures
        sum_range(a, lo, hi) == sum_range(a, lo, mid) + sum_range(a, mid, hi),
    decreases hi - mid,
{
    if mid < hi {
        lemma_sum_split(a, lo, mid, hi - 1);
    }
}

/// A sum only reads the elements inside its bounds.
pub proof fn lemma_sum_congruent(a: Seq<u32>, b: Seq<u32>, lo: int, hi: int)
    requires
        lo <= hi,
        forall|i: int| lo <= i < hi ==> a[i] == b[i],
    ensures
        sum_range(a, lo, hi) == sum_range(b, lo, hi),
    decreases hi - lo,
{
    if lo < hi {
        lemma_sum_congruent(a, b, lo, hi - 1);
    }
}

/// Sums of `u32` elements are non-negative.
pub proof fn lemma_sum_nonneg(a: Seq<u32>, lo: int, hi: int)
    requires
        lo <= hi,
    ensures
        sum_range(a, lo, hi) >= 0,
    decreases hi - lo,
{
    if lo < hi {
        lemma_sum_nonneg(a, lo, hi - 1);
    }
}

/// Updating one element shifts a sum by the difference at that position,
/// and leaves sums over ranges that exclude the position unchanged.
pub proof fn lemma_sum_update(a: Seq<u32>, i: int, v: u32, lo: int, hi: int)
    requires
        0 <= lo <= hi <= a.len(),
        0 <= i < a.len(),
    ensures
        sum_range(a.update(i, v), lo, hi) == sum_range(a, lo, hi) + (if lo <= i < hi {
            v - a[i]
        } else {
            0
        }),
    decreases hi - lo,
{
    if lo < hi {
        lemma_sum_update(a, i, v, lo, hi - 1);
    }
}

/// Wrapping `u32` addition is addition of the residues.
pub proof fn lemma_m32_add(x: int, y: int)
    requires
        x >= 0,
        y >= 0,
    ensures
        u32_specs::wrapping_add(m32(x), m32(y)) == m32(x + y),
{
    let m = 0x1_0000_0000int;
    vstd::arithmetic::div_mod::lemma_mod_bound(x, m);
    vstd::arithmetic::div_mod::lemma_mod_bound(y, m);
    vstd::arithmetic::div_mod::lemma_add_mod_noop(x, y, m);
    let xr = x % m;
    let yr = y % m;
    if xr + yr < m {
        vstd::arithmetic::div_mod::lemma_small_mod((xr + yr) as nat, m as nat);
    } else {
        assert((xr + yr) % m == xr + yr - m) by {
            vstd::arithmetic::div_mod::lemma_fundamental_div_mod_converse(
                xr + yr,
                m,
                1,
                xr + yr - m,
            );
        }
    }
}

/// A value below the modulus is its own residue.
pub proof fn lemma_m32_small(x: int)
    requires
        0 <= x < 0x1_0000_0000,
    ensures
        m32(x) == x,
{
    vstd::arithmetic::div_mod::lemma_small_mod(x as nat, 0x1_0000_0000nat);
}

/// A Fenwick tree over a logical array of `u32` values; the view `self@`
/// is that array. All arithmetic wraps modulo `2^32`.
pub struct Fenwick {
    table: Vec<u32>,
    values: Ghost<Seq<u32>>,
}

impl View for Fenwick {
    type V = Seq<u32>;

    closed spec fn view(&self) -> Seq<u32> {
        self.values@
    }
}

impl Fenwick {
    /// The structural invariant: slot `k` holds the wrapped sum of the
    /// block `k - lsb(k) .. k` of the logical array (1-based slots).
    pub closed spec fn wf(&self) -> bool {
        &&& self.table@.len() == self.values@.len() + 1
        &&& 2 * self.values@.len() + 2 <= usize::MAX
        &&& forall|k: int|
            1 <= k < self.table@.len() ==> #[trigger] self.table@[k] == m32(
                sum_range(self.values@, k - lsb_spec(k as nat), k),
            )
    }

    /// An empty tree; the argument fills the unused slot `0`.
    pub fn new(zero: u32) -> (r: Self)
        ensures
            r.wf(),
            r@ == Seq::<u32>::empty(),
    {
        Fenwick { table: vec![zero], values: Ghost(Seq::empty()) }
    }

    /// Appends one element: computes the new slot from the already-present
    /// blocks it subsumes, with no rebuild.
    pub fn push(&mut self, x: u32)
        requires
            old(self).wf(),
            2 * old(self)@.len() + 4 <= usize::MAX,
        ensures
            final(self).wf(),
            final(self)@ == old(self)@.push(x),
    {
        let n = self.table.len();
        let ghost a = self.values@;
        let ghost a2 = self.values@.push(x);
        proof {
            lemma_lsb_basic(n as nat);
        }
        let lsb_n = lsb(n);
        let mut acc = x;
        let mut d: usize = 1;
        proof {
            assert(sum_range(a2, n - 1, n - 1) == 0);
            assert(a2[n - 1] == x);
            assert(sum_range(a2, n - 1, n as int) == x);
            lemma_m32_small(x as int);
        }
        while d != lsb_n
            invariant
                self.wf(),
                a == self.values@,
                a2 == a.push(x),
                n == self.table@.len(),
                n == a.len() + 1,
                2 * a.len() + 4 <= usize::MAX,
                lsb_n == lsb_spec(n as nat),
                is_power_of_two(lsb_n as nat),
                1 <= lsb_n <= n,
                is_power_of_two(d as nat),
                1 <= d <= lsb_n,
                acc == m32(sum_range(a2, n - d, n as int)),
            decreases lsb_n - d,
        {
            proof {
                lemma_pow2_double_le(d as nat, lsb_n as nat);
                lemma_lsb_below_top(n as nat, d as nat);
                lemma_sum_congruent(a2, a, n - 2 * d, n - d);
                lemma_sum_nonneg(a2, n - 2 * d, n - d);
                lemma_sum_nonneg(a2, n - d, n as int);
                lemma_m32_add(sum_range(a2, n - 2 * d, n - d), sum_range(a2, n - d, n as int));
                lemma_sum_split(a2, n - 2 * d, n - d, n as int);
            }
            acc = self.table[n - d].wrapping_add(acc);
            d *= 2;
        }
        self.table.push(acc);
        self.values = Ghost(a2);
        proof {
            assert forall|k: int| 1 <= k < self.table@.len() implies #[trigger] self.table@[k]
                == m32(sum_range(a2, k - lsb_spec(k as nat), k)) by {
                if k < n {
                    lemma_lsb_basic(k as nat);
                    lemma_sum_congruent(a2, a, k - lsb_spec(k as nat), k);
                } else {
                    assert(self.table@[k] == acc);
                }
            }
        }
    }

    /// Builds a tree holding the given elements, by appending them one at
    /// a time.
    pub fn from_slice(src: &[u32]) -> (r: Self)
        requires
            2 * src@.len() + 4 <= usize::MAX,
        ensures
            r.wf(),
            r@ == src@,
    {
        let mut r = Fenwick::new(0);
        let mut i: usize = 0;
        while i < src.len()
            invariant
                r.wf(),
                i <= src@.len(),
                2 * src@.len() + 4 <= usize::MAX,
                r@ == src@.subrange(0, i as int),
            decreases src@.len() - i,
        {
            r.push(src[i]);
            proof {
                assert(r@ =~= src@.subrange(0, i + 1));
            }
            i += 1;
        }
        proof {
            assert(r@ =~= src@);
        }
        r
    }

    /// The wrapped sum of the first `i` elements.
    pub fn prefix_sum(&self, i: usize) -> (r: u32)
        requires
            self.wf(),
            i <= self@.len(),
        ensures
            r == m32(sum_range(self@, 0, i as int)),
    {
        let ghost a = self.values@;
        let mut j = i;
        let mut acc: u32 = 0;
        proof {
            lemma_m32_small(0);
        }
        while j != 0
            invariant
                self.wf(),
                a == self.values@,
                j <= i <= a.len(),
                acc == m32(sum_range(a, j as int, i as int)),
            decreases j,
        {
            proof {
                lemma_lsb_basic(j as nat);
                lemma_sum_nonneg(a, j - lsb_spec(j as nat), j as int);
                lemma_sum_nonneg(a, j as int, i as int);
                lemma_m32_add(
                    sum_range(a, j - lsb_spec(j as nat), j as int),
                    sum_range(a, j as int, i as int),
                );
                lemma_sum_split(a, j - lsb_spec(j as nat), j as int, i as int);
            }
            acc = self.table[j].wrapping_add(acc);
            j -= lsb(j);
        }
        acc
    }

    /// Adds `x` (wrapping) to element `i`, refreshing every slot whose
    /// block contains position `i`.
    pub fn add(&mut self, i: usize, x: u32)
        requires
            old(self).wf(),
            i < old(self)@.len(),
        ensures
            final(self).wf(),
            final(self)@ == old(self)@.update(
                i as int,
                u32_specs::wrapping_add(old(self)@[i as int], x),
            ),
    {
        let n = self.table.len();
        let ghost a = self.values@;
        let ghost v2 = u32_specs::wrapping_add(a[i as int], x);
        let ghost a2 = a.update(i as int, v2);
        self.values = Ghost(a2);
        let mut j = i + 1;
        proof {
            lemma_lsb_basic((i + 1) as nat);
            lemma_add_cells_below(a, a2, self.table@, i as int, j as int);
        }
        while j < n
            invariant
                self.values@ == a2,
                a2 == a.update(i as int, u32_specs::wrapping_add(a[i as int], x)),
                n == self.table@.len(),
                n == a.len() + 1,
                2 * a.len() + 2 <= usize::MAX,
                0 <= i < a.len(),
                i < j,
                j - lsb_spec(j as nat) <= i,
                1 <= j,
                forall|k: int|
                    1 <= k < n ==> #[trigger] self.table@[k] == (if k < j {
                        m32(sum_range(a2, k - lsb_spec(k as nat), k))
                    } else {
                        m32(sum_range(a, k - lsb_spec(k as nat), k))
                    }),
            decreases 2 * n - j,
        {
            let ghost jo = j as int;
            let ghost lo = jo - lsb_spec(j as nat);
            proof {
                lemma_lsb_basic(j as nat);
                lemma_sum_split(a, lo, i as int, jo);
                lemma_sum_split(a, i as int, i + 1, jo);
                lemma_sum_nonneg(a, lo, i as int);
                lemma_sum_nonneg(a, i + 1, jo);
                assert(sum_range(a, i as int, i as int) == 0);
                assert(sum_range(a, i as int, i + 1) == a[i as int]);
                assert(sum_range(a, lo, jo) >= a[i as int]);
                let vv = u32_specs::wrapping_add(a[i as int], x);
                lemma_sum_update(a, i as int, vv, lo, jo);
                let s = sum_range(a, lo, jo);
                let s2 = sum_range(a2, lo, jo);
                assert(s2 == s - a[i as int] + vv);
                lemma_sum_nonneg(a, lo, jo);
                lemma_m32_small(x as int);
                lemma_m32_add(s, x as int);
                assert(s2 % 0x1_0000_0000 == (s + x) % 0x1_0000_0000) by {
                    lemma_mod_shift(s, a[i as int] as int, x as int);
                }
            }
            let w = self.table[j].wrapping_add(x);
            self.table.set(j, w);
            let ghost pre_j = j as int;
            let s = lsb(j);
            proof {
                lemma_lsb_step_up(j as nat);
                assert forall|k: int|
                    1 <= k < n && pre_j < k < pre_j + lsb_spec(j as nat) implies #[trigger] m32(
                    sum_range(a2, k - lsb_spec(k as nat), k),
                ) == m32(sum_range(a, k - lsb_spec(k as nat), k)) by {
                    lemma_no_cell_between(j as nat, k as nat);
                    lemma_lsb_basic(k as nat);
                    lemma_sum_update(
                        a,
                        i as int,
                        u32_specs::wrapping_add(a[i as int], x),
                        k - lsb_spec(k as nat),
                        k,
                    );
                }
            }
            proof {
                lemma_lsb_basic(j as nat);
                assert(1 <= s <= j);
            }
            j += s;
        }
        proof {
            assert forall|k: int| 1 <= k < n implies #[trigger] self.table@[k] == m32(
                sum_range(a2, k - lsb_spec(k as nat), k),
            ) by {
                assert(k < j);
            }
        }
    }

    /// The number of prefixes whose sum does not exceed `x`: the largest
    /// `i` with `prefix_sum(i) <= x`. Meaningful only when the true total
    /// does not wrap, which makes the prefix sums monotone.
    pub fn upper_bound(&self, x: &u32) -> (r: usize)
        requires
            self.wf(),
            sum_range(self@, 0, self@.len() as int) < 0x1_0000_0000,
        ensures
            r <= self@.len(),
            sum_range(self@, 0, r as int) <= *x,
            forall|k: int| r < k <= self@.len() ==> sum_range(self@, 0, k) > *x,
    {
        let ghost a = self.values@;
        let ghost len = a.len() as int;
        let n = self.table.len();
        let mut d: usize = 1;
        while d < n
            invariant
                n <= usize::MAX / 2 + 1,
                is_power_of_two(d as nat),
                1 <= d < 2 * n,
            decreases 2 * n - d,
        {
            d *= 2;
        }
        let mut step = d / 2;
        let mut j: usize = 0;
        let mut now: u32 = 0;
        proof {
            assert(d == 1 ==> step == 0);
            if d >= 2 {
                assert(is_power_of_two((d / 2) as nat));
            }
        }
        while step != 0
            invariant
                self.wf(),
                a == self.values@,
                len == a.len() as int,
                n == self.table@.len(),
                n == len + 1,
                sum_range(a, 0, len) < 0x1_0000_0000,
                0 <= j <= len,
                now == sum_range(a, 0, j as int),
                sum_range(a, 0, j as int) <= *x,
                step == 0 ==> (j + 1 > len || sum_range(a, 0, j + 1) > *x),
                step != 0 ==> is_power_of_two(step as nat),
                step != 0 ==> (j as int) % (2 * step as int) == 0,
                step != 0 ==> (j + 2 * step > len || sum_range(a, 0, j + 2 * step) > *x),
                step < n,
            decreases step,
        {
            let ghost big = 2 * step as int;
            let ghost jpre = j as int;
            if step + j < n {
                proof {
                    lemma_lsb_aligned_add(j as nat, step as nat);
                    lemma_sum_split(a, 0, j as int, j + step);
                    lemma_sum_nonneg(a, 0, j as int);
                    lemma_sum_nonneg(a, j as int, j + step);
                    lemma_sum_monotone(a, 0, j + step, len);
                    lemma_m32_small(sum_range(a, j as int, j + step));
                }
                let next = now + self.table[step + j];
                if next <= *x {
                    now = next;
                    j += step;
                }
            }
            proof {
                if j != jpre {
                    let m = 2 * step as int;
                    assert(jpre % m == 0);
                    vstd::arithmetic::div_mod::lemma_fundamental_div_mod(jpre, m);
                    assert(jpre == m * (jpre / m));
                    assert(j as int == (jpre / m) * m + step);
                    vstd::arithmetic::div_mod::lemma_fundamental_div_mod_converse(
                        j as int,
                        m,
                        jpre / m,
                        step as int,
                    );
                }
                if step >= 2 {
                    assert(is_power_of_two((step / 2) as nat));
                    assert(step == 2 * (step / 2));
                    lemma_mod_half(j as int, (step / 2) as int);
                }
            }
            step /= 2;
        }
        proof {
            assert forall|k: int| j < k <= len implies sum_range(a, 0, k) > *x by {
                lemma_sum_monotone(a, 0, j + 1, k);
            }
        }
        j
    }
}

/// Prefix sums grow with their endpoint.
pub(crate) proof fn lemma_sum_monotone(a: Seq<u32>, lo: int, h1: int, h2: int)
    requires
        lo <= h1 <= h2,
    ensures
        sum_range(a, lo, h1) <= sum_range(a, lo, h2),
{
    lemma_sum_split(a, lo, h1, h2);
    lemma_sum_nonneg(a, h1, h2);
}

/// Congruence used by `add`: replacing a summand by its wrapped increase
/// shifts the sum by the increase, modulo `2^32`.
pub(crate) proof fn lemma_mod_shift(s: int, old_v: int, x: int)
    requires
        0 <= old_v < 0x1_0000_0000,
        0 <= x < 0x1_0000_0000,
        s >= old_v,
    ensures
        (s - old_v + u32_specs::wrapping_add(old_v as u32, x as u32)) % 0x1_0000_0000 == (s + x)
            % 0x1_0000_0000,
{
    let m = 0x1_0000_0000int;
    let w = u32_specs::wrapping_add(old_v as u32, x as u32) as int;
    if old_v + x > u32::MAX {
        assert(w == old_v + x - m);
        assert(s - old_v + w == (s + x) + (-1) * m);
        vstd::arithmetic::div_mod::lemma_mod_multiples_vanish(-1, s + x, m);
    } else {
        assert(w == old_v + x);
    }
}

/// Halving preserves alignment: a multiple of `4h` halves to a multiple
/// of `2h` after possibly stepping by `2h`.
pub(crate) proof fn lemma_mod_half(j: int, h: int)
    requires
        h >= 1,
        j >= 0,
        j % (4 * h) == 0 || j % (4 * h) == 2 * h,
    ensures
        j % (2 * h) == 0,
{
    let m = 4 * h;
    vstd::arithmetic::div_mod::lemma_fundamental_div_mod(j, m);
    let q = j / m;
    if j % m == 0 {
        assert(j == (2 * q) * (2 * h) + 0) by (nonlinear_arith)
            requires
                j == m * q,
                m == 4 * h,
        ;
        assert(2 * q >= 0) by (nonlinear_arith)
            requires
                j == (2 * q) * (2 * h),
                j >= 0,
                h >= 1,
        ;
        vstd::arithmetic::div_mod::lemma_fundamental_div_mod_converse(j, 2 * h, 2 * q, 0);
    } else {
        assert(j == (2 * q + 1) * (2 * h) + 0) by (nonlinear_arith)
            requires
                j == m * q + 2 * h,
                m == 4 * h,
        ;
        assert(2 * q + 1 >= 0) by (nonlinear_arith)
            requires
                j == (2 * q + 1) * (2 * h),
                j >= 0,
                h >= 1,
        ;
        vstd::arithmetic::div_mod::lemma_fundamental_div_mod_converse(j, 2 * h, 2 * q + 1, 0);
    }
}

/// Establishes the `add` loop invariant on entry: every slot at or below
/// the updated position has a block that misses the position.
proof fn lemma_add_cells_below(a: Seq<u32>, a2: Seq<u32>, t: Seq<u32>, i: int, j: int)
    requires
        j == i + 1,
        0 <= i < a.len(),
        a2.len() == a.len(),
        forall|q: int| 0 <= q < a.len() && q != i ==> a[q] == a2[q],
        forall|k: int|
            1 <= k < t.len() ==> #[trigger] t[k] == m32(
                sum_range(a, k - lsb_spec(k as nat), k),
            ),
    ensures
        forall|k: int|
            1 <= k < t.len() ==> #[trigger] t[k] == (if k < j {
                m32(sum_range(a2, k - lsb_spec(k as nat), k))
            } else {
                m32(sum_range(a, k - lsb_spec(k as nat), k))
            }),
{
    assert forall|k: int| 1 <= k < t.len() && k < j implies #[trigger] t[k] == m32(
        sum_range(a2, k - lsb_spec(k as nat), k),
    ) by {
        lemma_lsb_basic(k as nat);
        lemma_sum_congruent(a, a2, k - lsb_spec(k as nat), k);
    }
}

} // verus!

//! A succinct wavelet matrix over `u32` values: one bit row per level,
//! each row recording the values' bits at that level after the values have
//! been stably partitioned by all higher bits. Supports random access,
//! prefix rank, and select.

use vstd::prelude::*;
use vstd::arithmetic::power2::pow2;

verus! {

/// The number of `true` bits among the first `i` entries.
pub open spec fn count_true(s: Seq<bool>, i: int) -> int
    decreases i,
    when i >= 0
{
    if i <= 0 {
        0
    } else {
        count_true(s, i - 1) + (if s[i - 1] {
            1int
        } else {
            0int
        })
    }
}

/// The number of `false` bits among the first `i` entries.
pub open spec fn count_false(s: Seq<bool>, i: int) -> int {
    i - count_true(s, i)
}

/// `count_true` never exceeds the number of entries counted.
pub proof fn lemma_count_true_bounds(s: Seq<bool>, i: int)
    requires
        i >= 0,
    ensures
        0 <= count_true(s, i) <= i,
    decreases i,
{
    if i > 0 {
        lemma_count_true_bounds(s, i - 1);
    }
}

/// Counting over a longer prefix counts at least as much.
pub proof fn lemma_count_true_monotone(s: Seq<bool>, i: int, j: int)
    requires
        0 <= i <= j,
    ensures
        count_true(s, i) <= count_true(s, j),
        count_true(s, j) - count_true(s, i) <= j - i,
    decreases j - i,
{
    if i < j {
        lemma_count_true_monotone(s, i, j - 1);
    }
}

/// One level of a wavelet matrix: a bit sequence with its prefix-rank
/// table and the positions of its zero and one bits.
pub struct WaveletMatrixRow {
    pub content: Vec<bool>,
    pub rank: Vec<usize>,
    pub zeroes: Vec<usize>,
    pub ones: Vec<usize>,
}

impl WaveletMatrixRow {
    /// The structural invariant: `rank[i]` counts the ones among the first
    /// `i` bits, `zeroes` lists the positions of the zero bits in order,
    /// and `ones` those of the one bits.
    pub open spec fn wf(&self) -> bool {
        &&& self.rank@.len() == self.content@.len() + 1
        &&& forall|i: int|
            0 <= i <= self.content@.len() ==> (#[trigger] self.rank@[i]) == count_true(
                self.content@,
                i,
            )
        &&& self.zeroes@.len() == count_false(self.content@, self.content@.len() as int)
        &&& self.ones@.len() == count_true(self.content@, self.content@.len() as int)
        &&& forall|k: int|
            0 <= k < self.zeroes@.len() ==> (#[trigger] self.zeroes@[k]) < self.content@.len()
                && self.content@[self.zeroes@[k] as int] == false && count_false(
                self.content@,
                self.zeroes@[k] as int,
            ) == k
        &&& forall|k: int|
            0 <= k < self.ones@.len() ==> (#[trigger] self.ones@[k]) < self.content@.len()
                && self.content@[self.ones@[k] as int] == true && count_true(
                self.content@,
                self.ones@[k] as int,
            ) == k
    }

    /// Builds the rank table and the zero/one position lists for a bit
    /// sequence.
    pub fn from_vec_of_bool(src: Vec<bool>) -> (r: Self)
        requires
            src@.len() < usize::MAX,
        ensures
            r.wf(),
            r.content@ == src@,
    {
        let n = src.len();
        let mut rank: Vec<usize> = Vec::new();
        rank.push(0);
        let mut zeroes: Vec<usize> = Vec::new();
        let mut ones: Vec<usize> = Vec::new();
        let mut i: usize = 0;
        while i < n
            invariant
                n == src@.len(),
                n < usize::MAX,
                i <= n,
                rank@.len() == i + 1,
                forall|q: int| 0 <= q <= i ==> (#[trigger] rank@[q]) == count_true(src@, q),
                zeroes@.len() == count_false(src@, i as int),
                ones@.len() == count_true(src@, i as int),
                forall|k: int|
                    0 <= k < zeroes@.len() ==> (#[trigger] zeroes@[k]) < i && src@[zeroes@[k] as int]
                        == false && count_false(src@, zeroes@[k] as int) == k,
                forall|k: int|
                    0 <= k < ones@.len() ==> (#[trigger] ones@[k]) < i && src@[ones@[k] as int]
                        == true && count_true(src@, ones@[k] as int) == k,
            decreases n - i,
        {
            proof {
                lemma_count_true_bounds(src@, i as int);
            }
            let prev = rank[i];
            if src[i] {
                rank.push(prev + 1);
                ones.push(i);
            } else {
                rank.push(prev);
                zeroes.push(i);
            }
            i += 1;
        }
        WaveletMatrixRow { content: src, rank, zeroes, ones }
    }

    /// Where `(content[j], j)` sorted by value-then-position would place
    /// the pair `(b, i)`: zero bits keep their relative order first, one
    /// bits follow.
    pub fn enumerate_lower_bound(&self, b: bool, i: usize) -> (r: usize)
        requires
            self.wf(),
            i <= self.content@.len(),
        ensures
            b ==> r == count_false(self.content@, self.content@.len() as int) + count_true(
                self.content@,
                i as int,
            ),
            !b ==> r == count_false(self.content@, i as int),
            r <= self.content@.len(),
            i < self.content@.len() && self.content@[i as int] == b ==> r
                < self.content@.len(),
    {
        proof {
            lemma_count_true_bounds(self.content@, i as int);
            lemma_count_true_monotone(self.content@, i as int, self.content@.len() as int);
            if i < self.content@.len() {
                lemma_count_true_monotone(self.content@, i + 1, self.content@.len() as int);
            }
            assert(self.zeroes@.len() + self.rank@[i as int] <= self.content@.len());
        }
        let total = self.content.len();
        if b {
            let cf = self.zeroes.len();
            let ct_i = self.rank[i];
            proof {
                assert(cf + ct_i <= total);
            }
            cf + ct_i
        } else {
            i - self.rank[i]
        }
    }

    /// The `i`-th pair of `(content[j], j)` sorted by value-then-position:
    /// the `i`-th zero-bit position, or, past the zeros, a one-bit
    /// position.
    pub fn enumerate_sorted(&self, i: usize) -> (r: (bool, usize))
        requires
            self.wf(),
            i < self.content@.len(),
        ensures
            r.1 < self.content@.len(),
            self.content@[r.1 as int] == r.0,
            !r.0 ==> count_false(self.content@, r.1 as int) == i,
            r.0 ==> count_true(self.content@, r.1 as int) == i - count_false(
                self.content@,
                self.content@.len() as int,
            ),
    {
        proof {
            lemma_count_true_bounds(self.content@, self.content@.len() as int);
        }
        if i < self.zeroes.len() {
            (false, self.zeroes[i])
        } else {
            (true, self.ones[i - self.zeroes.len()])
        }
    }
}

/// The slot the descent through the levels assigns to boundary `i` when
/// following the bits of `x` from the most significant level down.
pub open spec fn descend(rows: Seq<WaveletMatrixRow>, lvl: int, i: int, x: nat) -> int
    decreases rows.len() - lvl,
    when 0 <= lvl <= rows.len()
{
    if lvl >= rows.len() {
        i
    } else {
        let b = (x / pow2((rows.len() - 1 - lvl) as nat)) % 2 == 1;
        let c = rows[lvl].content@;
        let next = if b {
            count_false(c, c.len() as int) + count_true(c, i)
        } else {
            count_false(c, i)
        };
        descend(rows, lvl + 1, next, x)
    }
}

/// A wavelet matrix: one `WaveletMatrixRow` per bit level, most
/// significant level first.
pub struct WaveletMatrix {
    height: usize,
    width: usize,
    table: Vec<WaveletMatrixRow>,
}

impl WaveletMatrix {
    /// The structural invariant: as many rows as levels, each row well
    /// formed and as wide as the encoded sequence.
    pub closed spec fn wf(&self) -> bool {
        &&& self.table@.len() == self.height
        &&& self.height <= 32
        &&& self.width < usize::MAX
        &&& forall|r: int|
            0 <= r < self.table@.len() ==> (#[trigger] self.table@[r]).wf()
                && self.table@[r].content@.len() == self.width
    }

    /// The number of encoded values.
    pub closed spec fn spec_width(&self) -> int {
        self.width as int
    }

    /// The number of bit levels.
    pub closed spec fn spec_height(&self) -> int {
        self.height as int
    }

    /// The slot the level-by-level descent along the bits of `x` assigns
    /// to boundary `i`; `descend_from(0, x)` and `descend_from(width, x)`
    /// bracket the occurrences of `x`.
    pub closed spec fn descend_from(&self, i: int, x: nat) -> int {
        descend(self.table@, 0, i, x)
    }

    /// Builds the matrix: level by level from the most significant bit,
    /// records the values' bits at that level, then stably partitions the
    /// values by that bit (zeros before ones) for the next level.
    pub fn from_vec_of_u32(src: Vec<u32>) -> (r: Self)
        requires
            src@.len() >= 1,
            src@.len() < usize::MAX,
        ensures
            r.wf(),
            r.spec_width() == src@.len(),
    {
        let n = src.len();
        let mut max: u32 = 0;
        let mut i: usize = 0;
        while i < n
            invariant
                n == src@.len(),
                i <= n,
            decreases n - i,
        {
            if src[i] > max {
                max = src[i];
            }
            i += 1;
        }
        let mut height: usize = 0;
        let mut p: u64 = 1;
        proof {
            vstd::arithmetic::power2::lemma2_to64();
        }
        while p <= max as u64
            invariant
                height <= 32,
                (p as nat) == pow2(height as nat),
                p >= 1,
            decreases 2 * (max as int) + 2 - p,
        {
            proof {
                vstd::arithmetic::power2::lemma2_to64();
                if height == 32 {
                    assert(false);
                }
                vstd::arithmetic::power2::lemma_pow2_unfold((height + 1) as nat);
                if height + 1 < 32 {
                    vstd::arithmetic::power2::lemma_pow2_strictly_increases(
                        (height + 1) as nat,
                        32,
                    );
                }
            }
            p *= 2;
            height += 1;
        }
        let mut cur = src;
        let mut table: Vec<WaveletMatrixRow> = Vec::new();
        let mut lvl: usize = 0;
        while lvl < height
            invariant
                height <= 32,
                lvl <= height,
                cur@.len() == n,
                n < usize::MAX,
                table@.len() == lvl,
                forall|r: int|
                    0 <= r < lvl ==> (#[trigger] table@[r]).wf() && table@[r].content@.len() == n,
            decreases height - lvl,
        {
            let shift: u32 = (height - 1 - lvl) as u32;
            let mut bits: Vec<bool> = Vec::new();
            let mut zeros_part: Vec<u32> = Vec::new();
            let mut ones_part: Vec<u32> = Vec::new();
            let mut k: usize = 0;
            while k < n
                invariant
                    cur@.len() == n,
                    n < usize::MAX,
                    k <= n,
                    shift < 32,
                    bits@.len() == k,
                    zeros_part@.len() + ones_part@.len() == k,
                decreases n - k,
            {
                let x = cur[k];
                let bit = (x >> shift) & 1 == 1;
                bits.push(bit);
                if bit {
                    ones_part.push(x);
                } else {
                    zeros_part.push(x);
                }
                k += 1;
            }
            let row = WaveletMatrixRow::from_vec_of_bool(bits);
            table.push(row);
            let mut merged = zeros_part;
            let mut q: usize = 0;
            while q < ones_part.len()
                invariant
                    q <= ones_part@.len(),
                    ones_part@.len() <= n,
                    n < usize::MAX,
                    merged@.len() == n - ones_part@.len() + q,
                decreases ones_part@.len() - q,
            {
                merged.push(ones_part[q]);
                q += 1;
            }
            cur = merged;
            lvl += 1;
        }
        WaveletMatrix { height, width: n, table }
    }

    /// Reads back the value at position `i` of the encoded sequence by
    /// following its bits down through the levels.
    pub fn access(&self, i: usize) -> (r: u32)
        requires
            self.wf(),
            i < self.spec_width(),
        ensures
            (r as nat) < pow2(self.spec_height() as nat),
    {
        let mut pos = i;
        let mut ans: u32 = 0;
        let mut lvl: usize = 0;
        proof {
            vstd::arithmetic::power2::lemma2_to64();
        }
        while lvl < self.table.len()
            invariant
                self.wf(),
                lvl <= self.table@.len(),
                pos < self.width,
                (ans as nat) < pow2(lvl as nat),
            decreases self.table@.len() - lvl,
        {
            let row = &self.table[lvl];
            proof {
                vstd::arithmetic::power2::lemma2_to64();
                vstd::arithmetic::power2::lemma_pow2_unfold((lvl + 1) as nat);
                vstd::arithmetic::power2::lemma_pow2_pos(lvl as nat);
                if lvl + 1 < 32 {
                    vstd::arithmetic::power2::lemma_pow2_strictly_increases((lvl + 1) as nat, 32);
                }
            }
            ans *= 2;
            if row.content[pos] {
                ans += 1;
            }
            pos = row.enumerate_lower_bound(row.content[pos], pos);
            lvl += 1;
        }
        ans
    }

    /// The number of occurrences of `x` among the first `i` encoded
    /// values.
    pub fn rank(&self, x: u32, i: usize) -> (r: usize)
        requires
            self.wf(),
            i <= self.spec_width(),
            (x as nat) < pow2(self.spec_height() as nat),
        ensures
            r <= i,
    {
        let mut l: usize = 0;
        let mut hi = i;
        let mut lvl: usize = 0;
        while lvl < self.table.len()
            invariant
                self.wf(),
                lvl <= self.table@.len(),
                l <= hi,
                hi <= self.width,
                hi - l <= i,
            decreases self.table@.len() - lvl,
        {
            let row = &self.table[lvl];
            let b = self.bit_from_the_top(x, lvl);
            let ghost c = row.content@;
            proof {
                lemma_count_true_monotone(c, l as int, hi as int);
            }
            let new_l = row.enumerate_lower_bound(b, l);
            let new_hi = row.enumerate_lower_bound(b, hi);
            l = new_l;
            hi = new_hi;
            lvl += 1;
        }
        hi - l
    }

    /// The position, in the encoded sequence, of the `i`-th occurrence of
    /// `x` (zero-based). The caller must know that `x` occurs more than
    /// `i` times, which the descent boundaries express.
    pub fn select(&self, x: u32, i: usize) -> (r: usize)
        requires
            self.wf(),
            (x as nat) < pow2(self.spec_height() as nat),
            self.descend_from(0, x as nat) + i < self.descend_from(self.spec_width(), x as nat),
        ensures
            r < self.spec_width(),
    {
        let l = self.go_down(0, x);
        let r = self.go_down(self.width, x);
        let pos0 = l + i;
        let mut pos = pos0;
        let mut lvl = self.table.len();
        while lvl > 0
            invariant
                self.wf(),
                lvl <= self.table@.len(),
                pos < self.width,
            decreases lvl,
        {
            lvl -= 1;
            let row = &self.table[lvl];
            let got = row.enumerate_sorted(pos);
            pos = got.1;
        }
        pos
    }

    /// The rows of the matrix, most significant level first.
    pub fn levels(&self) -> (r: &Vec<WaveletMatrixRow>)
        requires
            self.wf(),
        ensures
            r@.len() == self.spec_height(),
            forall|k: int| 0 <= k < r@.len() ==> (#[trigger] r@[k]).wf(),
    {
        &self.table
    }

    /// One step of the descent: the bit of `x` at level `lvl`, counted
    /// from the most significant level.
    fn bit_from_the_top(&self, x: u32, lvl: usize) -> (b: bool)
        requires
            self.wf(),
            lvl < self.spec_height(),
        ensures
            b == ((x as nat) / pow2((self.spec_height() - 1 - lvl) as nat) % 2 == 1),
    {
        let shift: u32 = (self.height - 1 - lvl) as u32;
        let b = (x >> shift) & 1 == 1;
        proof {
            lemma_shift_is_pow2_div(x, shift);
        }
        b
    }

    /// The slot that boundary `i` reaches after descending through every
    /// level along the bits of `x`.
    fn go_down(&self, i: usize, x: u32) -> (r: usize)
        requires
            self.wf(),
            i <= self.spec_width(),
            (x as nat) < pow2(self.spec_height() as nat),
        ensures
            r == self.descend_from(i as int, x as nat),
            r <= self.spec_width(),
    {
        let mut pos = i;
        let mut lvl: usize = 0;
        while lvl < self.table.len()
            invariant
                self.wf(),
                lvl <= self.table@.len(),
                pos <= self.width,
                descend(self.table@, 0, i as int, x as nat) == descend(
                    self.table@,
                    lvl as int,
                    pos as int,
                    x as nat,
                ),
            decreases self.table@.len() - lvl,
        {
            let row = &self.table[lvl];
            let b = self.bit_from_the_top(x, lvl);
            pos = row.enumerate_lower_bound(b, pos);
            lvl += 1;
        }
        pos
    }
}

/// A right shift by `s` reads the bit `2^s` of the value.
proof fn lemma_shift_is_pow2_div(x: u32, s: u32)
    requires
        s < 32,
    ensures
        ((x >> s) & 1 == 1) == ((x as nat) / pow2(s as nat) % 2 == 1),
    decreases s,
{
    vstd::arithmetic::power2::lemma2_to64();
    if s == 0 {
        assert(((x >> 0u32) & 1 == 1) == (x % 2 == 1)) by (bit_vector);
    } else {
        let y = x >> 1u32;
        let s1 = (s - 1) as u32;
        assert(y == x / 2) by (bit_vector)
            requires
                y == x >> 1u32,
        ;
        assert((x >> s) == (y >> s1)) by (bit_vector)
            requires
                0 < s < 32,
                s1 == s - 1,
                y == x >> 1u32,
        ;
        lemma_shift_is_pow2_div(y, s1);
        vstd::arithmetic::power2::lemma_pow2_unfold(s as nat);
        vstd::arithmetic::power2::lemma_pow2_pos(((s - 1) as u32) as nat);
        vstd::arithmetic::div_mod::lemma_div_denominator(
            x as int,
            2,
            pow2(((s - 1) as u32) as nat) as int,
        );
    }
}

} // verus!

//! Low-bit address arithmetic for the Fenwick trees: `lsb(i)` is the value
//! of the lowest set bit of `i`, and the lemmas here describe how it moves
//! under the index walks the trees perform.

use vstd::prelude::*;

verus! {

/// The value of the lowest set bit of `i`; 0 for `i == 0`.
pub open spec fn lsb_spec(i: nat) -> nat
    decreases i,
{
    if i == 0 {
        0nat
    } else if i % 2 == 1 {
        1nat
    } else {
        2 * lsb_spec(i / 2)
    }
}

/// `d` is a positive power of two.
pub open spec fn is_power_of_two(d: nat) -> bool
    decreases d,
{
    if d == 0 {
        false
    } else if d == 1 {
        true
    } else {
        d % 2 == 0 && is_power_of_two(d / 2)
    }
}

/// The lowest set bit, computed by the usual two's-complement mask.
pub fn lsb(i: usize) -> (r: usize)
    ensures
        r == lsb_spec(i as nat),
{
    proof {
        lemma_lsb_mask(i);
    }
    i & !(i.saturating_sub(1))
}

/// The mask computation agrees with the recursive definition.
proof fn lemma_lsb_mask(i: usize)
    ensures
        (i & !(i.saturating_sub(1) as usize)) == lsb_spec(i as nat),
    decreases i,
{
    if i == 0 {
        assert((0usize & !(0usize.saturating_sub(1) as usize)) == 0) by (bit_vector);
        assert(0usize.saturating_sub(1) == 0);
    } else if i % 2 == 1 {
        assert(i & !((i - 1) as usize) == 1usize) by (bit_vector)
            requires
                i % 2 == 1,
        ;
        assert(i.saturating_sub(1) == i - 1);
    } else {
        lemma_lsb_mask(i / 2);
        let h = i / 2;
        assert(h >= 1);
        assert(i & !((i - 1) as usize) == 2 * (h & !((h - 1) as usize))) by (bit_vector)
            requires
                i % 2 == 0,
                i >= 2,
                h == i / 2,
        ;
        assert(i.saturating_sub(1) == i - 1);
        assert(h.saturating_sub(1) == h - 1);
        assert(lsb_spec(i as nat) == 2 * lsb_spec(h as nat));
    }
}

/// Doubling both operands of a division doubles the remainder.
proof fn lemma_mod_scale(x: int, d: int)
    requires
        x >= 0,
        d >= 1,
    ensures
        (2 * x) % (2 * d) == 2 * (x % d),
{
    vstd::arithmetic::div_mod::lemma_fundamental_div_mod(x, d);
    let q = x / d;
    let r = x % d;
    assert(2 * x == q * (2 * d) + 2 * r) by (nonlinear_arith)
        requires
            x == d * q + r,
    ;
    vstd::arithmetic::div_mod::lemma_fundamental_div_mod_converse(2 * x, 2 * d, q, 2 * r);
}

/// For positive `i`, the lowest set bit is a positive power of two no
/// larger than `i`, and `i` is congruent to it modulo its double.
pub proof fn lemma_lsb_basic(i: nat)
    requires
        i >= 1,
    ensures
        1 <= lsb_spec(i) <= i,
        i % (2 * lsb_spec(i)) == lsb_spec(i),
        i % lsb_spec(i) == 0,
        is_power_of_two(lsb_spec(i)),
    decreases i,
{
    if i % 2 == 1 {
        assert(lsb_spec(i) == 1);
        assert(i % 1 == 0 && i % 2 == 1) by (nonlinear_arith)
            requires
                i % 2 == 1,
        ;
        assert(is_power_of_two(1));
    } else {
        let h = i / 2;
        assert(h >= 1);
        lemma_lsb_basic(h);
        let l = lsb_spec(h);
        assert(lsb_spec(i) == 2 * l);
        assert(i == 2 * h);
        assert(2 * l <= 2 * h);
        lemma_mod_scale(h as int, 2 * l as int);
        lemma_mod_scale(h as int, l as int);
        assert((2 * h) % (4 * l) == 2 * l && (2 * h) % (2 * l) == 0);
        assert(is_power_of_two(2 * l));
    }
}

/// Of two powers of two, the smaller divides half of the larger.
pub proof fn lemma_pow2_double_le(a: nat, b: nat)
    requires
        is_power_of_two(a),
        is_power_of_two(b),
        a < b,
    ensures
        2 * a <= b,
        b % a == 0,
    decreases b,
{
    if a == 1 {
        assert(b % 2 == 0 && b >= 2);
        assert(b % 1 == 0) by (nonlinear_arith);
    } else {
        assert(a % 2 == 0 && b % 2 == 0);
        assert(a / 2 < b / 2 && a == 2 * (a / 2) && b == 2 * (b / 2));
        lemma_pow2_double_le(a / 2, b / 2);
        let ah = a / 2;
        let bh = b / 2;
        let q = (bh as int) / (ah as int);
        vstd::arithmetic::div_mod::lemma_fundamental_div_mod(bh as int, ah as int);
        assert(bh == ah * q);
        assert(b == q * (a as int)) by (nonlinear_arith)
            requires
                bh == ah * q,
                a == 2 * ah,
                b == 2 * bh,
        ;
        vstd::arithmetic::div_mod::lemma_fundamental_div_mod_converse(b as int, a as int, q, 0);
    }
}

/// Adding a power of two `d` to a multiple of `2d` gives a number whose
/// lowest set bit is exactly `d`.
pub proof fn lemma_lsb_aligned_add(j: nat, d: nat)
    requires
        is_power_of_two(d),
        j % (2 * d) == 0,
    ensures
        lsb_spec(j + d) == d,
    decreases d,
{
    if d == 1 {
        assert(j % 2 == 0) by (nonlinear_arith)
            requires
                j % 2 == 0 || (j % (2 * d) == 0 && d == 1),
        ;
        assert((j + 1) % 2 == 1) by (nonlinear_arith)
            requires
                j % 2 == 0,
        ;
    } else {
        let hd = d / 2;
        assert(d % 2 == 0 && is_power_of_two(hd) && d == 2 * hd && hd >= 1);
        vstd::arithmetic::div_mod::lemma_fundamental_div_mod(j as int, 2 * d as int);
        let q = (j as int) / (2 * d as int);
        assert(j == (2 * d) * q);
        assert(j == (q * (2 * hd)) * 2 + 0 && j + d == (q * (2 * hd) + hd) * 2 + 0 && q * (2 * hd)
            >= 0) by (nonlinear_arith)
            requires
                j == (2 * d) * q,
                d == 2 * hd,
                hd >= 1,
                j >= 0,
        ;
        vstd::arithmetic::div_mod::lemma_fundamental_div_mod_converse(
            j as int,
            2,
            q * (2 * hd),
            0,
        );
        vstd::arithmetic::div_mod::lemma_fundamental_div_mod_converse(
            (j + d) as int,
            2,
            q * (2 * hd) + hd,
            0,
        );
        vstd::arithmetic::div_mod::lemma_mod_multiples_basic(q, 2 * hd as int);
        assert((j / 2) % (2 * hd) == 0);
        lemma_lsb_aligned_add(j / 2, hd);
        assert((j + d) / 2 == j / 2 + hd);
        assert(lsb_spec(j + d) == 2 * lsb_spec((j + d) / 2));
    }
}

/// Adding a remainder `r` smaller than `d` to a multiple of `d` keeps the
/// lowest set bit of the remainder.
pub proof fn lemma_lsb_aligned_rem(j: nat, r: nat, d: nat)
    requires
        is_power_of_two(d),
        j % d == 0,
        1 <= r < d,
    ensures
        lsb_spec(j + r) == lsb_spec(r),
    decreases d,
{
    assert(d >= 2);
    let hd = d / 2;
    assert(d % 2 == 0 && is_power_of_two(hd) && d == 2 * hd && hd >= 1);
    vstd::arithmetic::div_mod::lemma_fundamental_div_mod(j as int, d as int);
    let q = (j as int) / (d as int);
    assert(j == d * q);
    assert(j == (hd * q) * 2 + 0 && hd * q >= 0) by (nonlinear_arith)
        requires
            j == d * q,
            d == 2 * hd,
            hd >= 1,
            j >= 0,
    ;
    vstd::arithmetic::div_mod::lemma_fundamental_div_mod_converse(j as int, 2, hd * q, 0);
    if r % 2 == 1 {
        assert(j + r == (hd * q + (r - 1) / 2) * 2 + 1) by (nonlinear_arith)
            requires
                j == (hd * q) * 2,
                r % 2 == 1,
                r >= 1,
        ;
        vstd::arithmetic::div_mod::lemma_fundamental_div_mod_converse(
            (j + r) as int,
            2,
            hd * q + (r - 1) / 2,
            1,
        );
        assert((j + r) % 2 == 1);
    } else {
        assert(r >= 2);
        assert(r == 2 * (r / 2) && 1 <= r / 2 && r / 2 < hd);
        assert(j + r == (hd * q + r / 2) * 2 + 0) by (nonlinear_arith)
            requires
                j == (hd * q) * 2,
                r == 2 * (r / 2),
        ;
        vstd::arithmetic::div_mod::lemma_fundamental_div_mod_converse(
            (j + r) as int,
            2,
            hd * q + r / 2,
            0,
        );
        vstd::arithmetic::div_mod::lemma_mod_multiples_basic(q, hd as int);
        assert((hd * q) % (hd as int) == 0) by (nonlinear_arith)
            requires
                hd >= 1,
                (q * (hd as int)) % (hd as int) == 0,
        ;
        assert((j / 2) % hd == 0);
        lemma_lsb_aligned_rem(j / 2, r / 2, hd);
        assert(lsb_spec(j + r) == 2 * lsb_spec((j + r) / 2));
        assert(lsb_spec(r) == 2 * lsb_spec(r / 2));
    }
}

/// Adding its own lowest set bit to `j` at least doubles the lowest set
/// bit: the Fenwick update walk keeps strictly coarser alignment.
pub proof fn lemma_lsb_step_up(j: nat)
    requires
        j >= 1,
    ensures
        lsb_spec(j + lsb_spec(j)) >= 2 * lsb_spec(j),
    decreases j,
{
    if j % 2 == 1 {
        assert(lsb_spec(j) == 1);
        assert((j + 1) % 2 == 0) by (nonlinear_arith)
            requires
                j % 2 == 1,
        ;
        assert(lsb_spec(j + 1) == 2 * lsb_spec((j + 1) / 2));
        assert(lsb_spec((j + 1) / 2) >= 1) by {
            lemma_lsb_basic(((j + 1) / 2) as nat);
        }
    } else {
        let h = j / 2;
        assert(h >= 1);
        lemma_lsb_step_up(h);
        let l = lsb_spec(h);
        assert(lsb_spec(j) == 2 * l);
        assert(l >= 1) by {
            lemma_lsb_basic(h);
        }
        assert(j + 2 * l == 2 * (h + l) && (j + 2 * l) % 2 == 0) by (nonlinear_arith)
            requires
                j == 2 * h,
        ;
        assert(lsb_spec(j + 2 * l) == 2 * lsb_spec(h + l));
    }
}

/// No index strictly between `j` and `j + lsb(j)` has its covered block
/// reaching down to `j` or below: the Fenwick update walk skips no cell
/// whose block contains the updated position.
pub proof fn lemma_no_cell_between(j: nat, k: nat)
    requires
        j >= 1,
        j < k,
        k < j + lsb_spec(j),
    ensures
        k - lsb_spec(k) >= j,
{
    lemma_lsb_basic(j);
    let r = k - j;
    lemma_lsb_aligned_rem(j, r as nat, lsb_spec(j));
    lemma_lsb_basic(r as nat);
    assert(lsb_spec(k) == lsb_spec(r as nat) <= r);
}

/// The lowest set bit of a power of two is itself.
pub proof fn lemma_lsb_of_pow2(p: nat)
    requires
        is_power_of_two(p),
    ensures
        lsb_spec(p) == p,
    decreases p,
{
    if p > 1 {
        lemma_lsb_of_pow2(p / 2);
        assert(p == 2 * (p / 2));
    }
}

/// The difference of two powers of two has the smaller one as its lowest
/// set bit.
pub proof fn lemma_lsb_pow2_sub(l: nat, d: nat)
    requires
        is_power_of_two(l),
        is_power_of_two(d),
        d < l,
    ensures
        lsb_spec((l - d) as nat) == d,
    decreases l,
{
    assert(l >= 2);
    let hl = l / 2;
    assert(l == 2 * hl && is_power_of_two(hl));
    if d == hl {
        lemma_lsb_of_pow2(hl);
        assert(l - d == hl);
    } else {
        if d > hl {
            lemma_pow2_double_le(hl, d);
        }
        lemma_pow2_double_le(d, hl);
        lemma_lsb_pow2_sub(hl, d);
        assert(hl % hl == 0) by (nonlinear_arith)
            requires
                hl >= 1,
        ;
        lemma_lsb_aligned_rem(hl, (hl - d) as nat, hl);
        assert(l - d == hl + (hl - d));
    }
}

/// Subtracting a smaller power of two `d` from a positive `n` whose lowest
/// set bit exceeds `d` leaves a number with lowest set bit exactly `d`.
pub proof fn lemma_lsb_below_top(n: nat, d: nat)
    requires
        n >= 1,
        is_power_of_two(d),
        d < lsb_spec(n),
    ensures
        1 <= n - d,
        lsb_spec((n - d) as nat) == d,
{
    lemma_lsb_basic(n);
    let l = lsb_spec(n);
    vstd::arithmetic::div_mod::lemma_fundamental_div_mod(n as int, 2 * l as int);
    let q = (n as int) / (2 * l as int);
    assert(n == (2 * l) * q + l);
    let j = n - l;
    assert(j == q * (2 * l) + 0) by (nonlinear_arith)
        requires
            n == (2 * l) * q + l,
            j == n - l,
    ;
    assert(q >= 0) by (nonlinear_arith)
        requires
            j == q * (2 * l) + 0,
            j >= 0,
            l >= 1,
    ;
    vstd::arithmetic::div_mod::lemma_fundamental_div_mod_converse(j, 2 * l as int, q, 0);
    lemma_lsb_pow2_sub(l, d);
    assert(is_power_of_two(2 * l));
    lemma_lsb_aligned_rem((n - l) as nat, (l - d) as nat, 2 * l);
    assert(n - d == (n - l) + (l - d));
}

} // verus!

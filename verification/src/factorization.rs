//! Prime factorization through a precomputed sieve: each composite slot
//! remembers one prime divisor, so factoring is a chain of divisions.

use vstd::prelude::*;

verus! {

/// `p` has no divisor strictly between 1 and itself.
pub open spec fn is_prime(p: int) -> bool {
    p >= 2 && forall|q: int| 2 <= q < p ==> #[trigger] (p % q) != 0
}

/// The product of a sequence of factors.
pub open spec fn prod(s: Seq<u32>) -> int
    decreases s.len(),
{
    if s.len() == 0 {
        1
    } else {
        prod(s.drop_last()) * s.last()
    }
}

/// Appending a factor multiplies the product.
proof fn lemma_prod_push(s: Seq<u32>, v: u32)
    ensures
        prod(s.push(v)) == prod(s) * v,
{
    assert(s.push(v).drop_last() =~= s);
    assert(s.push(v).last() == v);
}

/// Divisibility carries through a chain.
proof fn lemma_divides_transitive(a: int, b: int, c: int)
    requires
        a >= 1,
        b >= 1,
        c >= 1,
        b % a == 0,
        c % b == 0,
    ensures
        c % a == 0,
{
    vstd::arithmetic::div_mod::lemma_fundamental_div_mod(b, a);
    vstd::arithmetic::div_mod::lemma_fundamental_div_mod(c, b);
    let s = b / a;
    let t = c / b;
    assert(c == (s * t) * a) by (nonlinear_arith)
        requires
            b == a * s,
            c == b * t,
    ;
    vstd::arithmetic::div_mod::lemma_mod_multiples_basic(s * t, a);
}

/// Every composite number has a prime divisor no larger than its square
/// root.
pub proof fn lemma_small_prime_factor(c: int)
    requires
        c >= 2,
        !is_prime(c),
    ensures
        exists|q: int| is_prime(q) && #[trigger] (c % q) == 0 && q * q <= c && q < c,
    decreases c,
{
    let d = choose|d: int| 2 <= d < c && #[trigger] (c % d) == 0;
    assert(2 <= d < c && c % d == 0);
    vstd::arithmetic::div_mod::lemma_fundamental_div_mod(c, d);
    let m = c / d;
    assert(c == d * m);
    assert(m >= 2) by (nonlinear_arith)
        requires
            c == d * m,
            2 <= d < c,
            c >= 2,
    ;
    let e = if d <= m {
        d
    } else {
        m
    };
    assert(e * e <= c && 2 <= e && e < c) by (nonlinear_arith)
        requires
            c == d * m,
            2 <= d,
            2 <= m,
            e == if d <= m {
                d
            } else {
                m
            },
    ;
    assert(c % e == 0) by {
        if d <= m {
        } else {
            assert(c == m * d) by (nonlinear_arith)
                requires
                    c == d * m,
            ;
            vstd::arithmetic::div_mod::lemma_mod_multiples_basic(d, m);
        }
    }
    if is_prime(e) {
        assert(is_prime(e) && c % e == 0 && e * e <= c && e < c);
    } else {
        lemma_small_prime_factor(e);
        let q = choose|q: int| is_prime(q) && #[trigger] (e % q) == 0 && q * q <= e && q < e;
        lemma_divides_transitive(q, e, c);
        assert(q * q <= c) by (nonlinear_arith)
            requires
                q * q <= e,
                2 <= e,
                e * e <= c,
        ;
        assert(is_prime(q) && c % q == 0 && q * q <= c && q < c);
    }
}

/// Whether `p * p < len`, computed without overflowing.
fn square_below(p: usize, len: usize) -> (r: bool)
    requires
        p <= 0x1_0001,
    ensures
        r == ((p as int) * (p as int) < len),
{
    proof {
        assert((p as int) * (p as int) <= 0x1_0001 * 0x1_0001) by (nonlinear_arith)
            requires
                p <= 0x1_0001,
        ;
    }
    (p as u64) * (p as u64) < len as u64
}

/// Distinct multiples of `p` lie at least `p` apart.
proof fn lemma_multiple_gap(i: int, j: int, p: int)
    requires
        p >= 1,
        i % p == 0,
        j % p == 0,
        j < i,
    ensures
        i >= j + p,
{
    vstd::arithmetic::div_mod::lemma_fundamental_div_mod(i, p);
    vstd::arithmetic::div_mod::lemma_fundamental_div_mod(j, p);
    let qi = i / p;
    let qj = j / p;
    assert(qi > qj && i >= j + p) by (nonlinear_arith)
        requires
            i == p * qi,
            j == p * qj,
            j < i,
            p >= 1,
    ;
}

/// A smallest-prime-divisor sieve: slot `i` is `None` when `i` is prime
/// (or below 2), and otherwise names a prime that divides `i`.
pub struct FastFactrzation {
    sieve: Vec<Option<usize>>,
}

impl FastFactrzation {
    /// The structural invariant.
    pub closed spec fn wf(&self) -> bool {
        &&& self.sieve@.len() <= 0x1_0000_0000
        &&& forall|i: int|
            2 <= i < self.sieve@.len() ==> match #[trigger] self.sieve@[i] {
                Option::None => is_prime(i),
                Option::Some(p) => is_prime(p as int) && i % (p as int) == 0 && p < i,
            }
    }

    /// The number of slots; values below this bound can be factored.
    pub closed spec fn spec_len(&self) -> int {
        self.sieve@.len() as int
    }

    /// Builds the sieve for values below `len`: walks the candidates
    /// upward and marks every multiple of each prime found.
    pub fn new(len: usize) -> (r: Self)
        requires
            len <= 0x1_0000_0000,
        ensures
            r.wf(),
            r.spec_len() == len,
    {
        let mut sieve: Vec<Option<usize>> = vec![None; len];
        let mut p: usize = 2;
        while square_below(p, len)
            invariant
                len <= 0x1_0000_0000,
                2 <= p <= 0x1_0001,
                sieve@.len() == len,
                forall|i: int|
                    2 <= i < len ==> (#[trigger] sieve@[i] matches Option::Some(q) ==> is_prime(
                        q as int,
                    ) && i % (q as int) == 0 && q < i),
                forall|i: int, q: int|
                    2 <= i < len && 2 <= q < p && is_prime(q) && #[trigger] (i % q) == 0 && q != i
                        ==> (#[trigger] sieve@[i]) is Some,
            decreases len - p,
        {
            proof {
                assert(p < len && p + 1 < len && p < 0x1_0000) by (nonlinear_arith)
                    requires
                        2 <= p,
                        p * p < len,
                        len <= 0x1_0000_0000,
                ;
            }
            if sieve[p].is_none() {
                proof {
                    if !is_prime(p as int) {
                        lemma_small_prime_factor(p as int);
                        let q = choose|q: int|
                            is_prime(q) && #[trigger] ((p as int) % q) == 0 && q * q <= p && q
                                < p;
                        assert(sieve@[p as int] is Some);
                    }
                }
                let mut j: u64 = 2 * (p as u64);
                proof {
                    assert((2 * (p as int)) % (p as int) == 0) by (nonlinear_arith)
                        requires
                            2 <= p,
                    ;
                }
                while j < len as u64
                    invariant
                        len <= 0x1_0000_0000,
                        2 <= p < 0x1_0000,
                        is_prime(p as int),
                        sieve@.len() == len,
                        (j as int) % (p as int) == 0,
                        2 * p <= j,
                        forall|i: int|
                            2 <= i < len ==> (#[trigger] sieve@[i] matches Option::Some(q)
                                ==> is_prime(q as int) && i % (q as int) == 0 && q < i),
                        forall|i: int, q: int|
                            2 <= i < len && 2 <= q < p && is_prime(q) && #[trigger] (i % q) == 0
                                && q != i ==> (#[trigger] sieve@[i]) is Some,
                        forall|i: int|
                            2 * p <= i < j && #[trigger] (i % (p as int)) == 0 ==> sieve@[i]
                                is Some,
                    decreases len as int + p - j,
                {
                    let ghost pre = sieve@;
                    sieve.set(j as usize, Some(p));
                    proof {
                        assert(((j + p as u64) as int) % (p as int) == 0) by (nonlinear_arith)
                            requires
                                (j as int) % (p as int) == 0,
                                2 <= p,
                        ;
                        assert forall|i: int|
                            2 * p <= i < j + p && #[trigger] (i % (p as int)) == 0 implies sieve@[i]
                            is Some by {
                            if i < j {
                                assert(sieve@[i] == pre[i]);
                            } else if i != j {
                                lemma_multiple_gap(i, j as int, p as int);
                            }
                        }
                    }
                    j += p as u64;
                }
                proof {
                    assert forall|i: int, q: int|
                        2 <= i < len && 2 <= q < p + 1 && is_prime(q) && #[trigger] (i % q) == 0
                            && q != i implies (#[trigger] sieve@[i]) is Some by {
                        if q == p {
                            assert(i >= 2 * p) by (nonlinear_arith)
                                requires
                                    i % q == 0,
                                    q == p,
                                    p >= 2,
                                    i >= 2,
                                    i != q,
                            ;
                        }
                    }
                }
            } else {
                proof {
                    assert forall|i: int, q: int|
                        2 <= i < len && 2 <= q < p + 1 && is_prime(q) && #[trigger] (i % q) == 0
                            && q != i implies (#[trigger] sieve@[i]) is Some by {
                        if q == p {
                            assert(sieve@[p as int] is Some);
                            assert(!is_prime(p as int));
                            assert(false);
                        }
                    }
                }
            }
            p += 1;
        }
        let r = FastFactrzation { sieve };
        proof {
            assert forall|i: int| 2 <= i < len implies match #[trigger] r.sieve@[i] {
                Option::None => is_prime(i),
                Option::Some(q) => is_prime(q as int) && i % (q as int) == 0 && q < i,
            } by {
                if r.sieve@[i] is None && !is_prime(i) {
                    lemma_small_prime_factor(i);
                    let q = choose|q: int|
                        is_prime(q) && #[trigger] (i % q) == 0 && q * q <= i && q < i;
                    assert(q < p) by (nonlinear_arith)
                        requires
                            q * q <= i,
                            i < len,
                            len <= p * p,
                            q >= 2,
                            p >= 2,
                    ;
                }
            }
        }
        r
    }

    /// The prime factors of `x`, with multiplicity: repeatedly divides by
    /// the prime the sieve names until a prime remains.
    pub fn factorize(&self, x: u32) -> (res: Vec<u32>)
        requires
            self.wf(),
            1 <= x,
            x < self.spec_len(),
        ensures
            prod(res@) == x,
            forall|k: int| 0 <= k < res@.len() ==> is_prime(res@[k] as int),
    {
        let mut cur = x as usize;
        let mut res: Vec<u32> = Vec::new();
        if cur == 1 {
            return res;
        }
        loop
            invariant
                self.wf(),
                2 <= cur,
                cur < self.sieve@.len(),
                prod(res@) * cur == x,
                forall|k: int| 0 <= k < res@.len() ==> is_prime(res@[k] as int),
            decreases cur,
        {
            match self.sieve[cur] {
                Option::Some(p) => {
                    proof {
                        lemma_prod_push(res@, p as u32);
                        vstd::arithmetic::div_mod::lemma_fundamental_div_mod(
                            cur as int,
                            p as int,
                        );
                        assert((prod(res@) * p) * ((cur as int) / (p as int)) == prod(res@)
                            * cur) by (nonlinear_arith)
                            requires
                                cur == (p as int) * ((cur as int) / (p as int)),
                        ;
                        assert((cur as int) / (p as int) >= 2) by (nonlinear_arith)
                            requires
                                cur == (p as int) * ((cur as int) / (p as int)),
                                2 <= p,
                                (p as int) < cur,
                        ;
                    }
                    proof {
                        assert((cur as int) / (p as int) < cur) by (nonlinear_arith)
                            requires
                                2 <= p,
                                2 <= cur,
                        ;
                    }
                    res.push(p as u32);
                    cur = cur / p;
                }
                Option::None => {
                    proof {
                        lemma_prod_push(res@, cur as u32);
                    }
                    res.push(cur as u32);
                    return res;
                }
            }
        }
    }
}

} // verus!

//! Integer facts that index computations rest on: mixed radix digits, powers of two, ceilings.
use vstd::arithmetic::div_mod::{
    lemma_fundamental_div_mod, lemma_fundamental_div_mod_converse, lemma_mod_bound,
};
use vstd::arithmetic::mul::lemma_mul_is_commutative;
use vstd::arithmetic::power2::{
    lemma2_to64, lemma2_to64_rest, lemma_pow2_adds, lemma_pow2_pos, lemma_pow2_strictly_increases, lemma_pow2_unfold,
    pow2,
};
use vstd::prelude::*;

verus! {

/// `n` is one of 1, 2, 4, 8, ...
pub open spec fn is_pow2(n: int) -> bool {
    exists|e: nat| #[trigger] pow2(e) == n
}

/// The least `e` with `n <= 2^e`.
pub open spec fn clog2(n: nat) -> nat
    decreases n,
{
    if n <= 1 {
        0
    } else {
        1 + clog2(((n + 1) / 2) as nat)
    }
}

/// The greatest `e` with `2^e <= n`, for a positive `n`.
pub open spec fn flog2(n: nat) -> nat
    decreases n,
{
    if n <= 1 {
        0
    } else {
        1 + flog2(n / 2)
    }
}

/// The least power of two that is at least `n`.
pub open spec fn npot(n: nat) -> nat {
    pow2(clog2(n))
}

/// `clog2` is the least exponent whose power reaches `n`.
pub proof fn lemma_clog2(n: nat)
    ensures
        n <= pow2(clog2(n)),
        clog2(n) > 0 ==> pow2((clog2(n) - 1) as nat) < n,
        n >= 1 ==> pow2(clog2(n)) < 2 * n,
    decreases n,
{
    lemma2_to64();
    if n > 1 {
        let m = ((n + 1) / 2) as nat;
        lemma_clog2(m);
        lemma_pow2_unfold(clog2(n));
        if clog2(m) > 0 {
            lemma_pow2_unfold(clog2(m));
        }
    }
}

/// An exponent whose power reaches `n` while half of it does not is `clog2`.
pub proof fn lemma_clog2_unique(n: nat, e: nat)
    requires
        n <= pow2(e),
        e > 0 ==> pow2((e - 1) as nat) < n,
    ensures
        clog2(n) == e,
{
    lemma_clog2(n);
    let c = clog2(n);
    if c < e {
        if c < e - 1 {
            lemma_pow2_strictly_increases(c, (e - 1) as nat);
        }
    } else if c > e {
        if e < c - 1 {
            lemma_pow2_strictly_increases(e, (c - 1) as nat);
        }
    }
}

/// The exponent of a power of two is its `clog2`.
pub proof fn lemma_clog2_pow2(e: nat)
    ensures
        clog2(pow2(e)) == e,
        npot(pow2(e)) == pow2(e),
{
    if e > 0 {
        lemma_pow2_strictly_increases((e - 1) as nat, e);
    }
    lemma_clog2_unique(pow2(e), e);
}

/// The exponent of a power of two is its `flog2`.
pub proof fn lemma_flog2_pow2(e: nat)
    ensures
        flog2(pow2(e)) == e,
    decreases e,
{
    lemma2_to64();
    lemma_pow2_pos(e);
    if e > 0 {
        lemma_pow2_unfold(e);
        lemma_flog2_pow2((e - 1) as nat);
        lemma_pow2_pos((e - 1) as nat);
    }
}

/// `flog2` brackets a positive number between two consecutive powers.
pub proof fn lemma_flog2(n: nat)
    requires
        n >= 1,
    ensures
        pow2(flog2(n)) <= n < 2 * pow2(flog2(n)),
    decreases n,
{
    lemma2_to64();
    if n > 1 {
        lemma_flog2(n / 2);
        lemma_pow2_unfold(flog2(n));
    }
}

/// A power of two is its own next power of two, and `npot` is a power of two.
pub proof fn lemma_npot(n: nat)
    ensures
        is_pow2(npot(n) as int),
        n <= npot(n),
        npot(n) >= 1,
        n >= 1 ==> npot(n) < 2 * n,
        is_pow2(n as int) ==> npot(n) == n,
{
    lemma_clog2(n);
    assert(pow2(clog2(n)) == npot(n));
    lemma_pow2_pos(clog2(n));
    if is_pow2(n as int) {
        let e = choose|e: nat| #[trigger] pow2(e) == n;
        lemma_clog2_pow2(e);
    }
}

/// `npot` is monotone.
pub proof fn lemma_npot_monotone(a: nat, b: nat)
    requires
        a <= b,
    ensures
        npot(a) <= npot(b),
{
    lemma_clog2(a);
    lemma_clog2(b);
    let ca = clog2(a);
    let cb = clog2(b);
    if ca > cb {
        if cb < ca - 1 {
            lemma_pow2_strictly_increases(cb, (ca - 1) as nat);
        }
    } else if ca < cb {
        lemma_pow2_strictly_increases(ca, cb);
    }
}

/// The least power of two that is at least `n`.
pub fn next_power_of_two(n: usize) -> (r: usize)
    requires
        npot(n as nat) <= usize::MAX,
    ensures
        r == npot(n as nat),
        is_pow2(r as int),
        r >= n,
        r >= 1,
{
    let mut p: usize = 1;
    let ghost mut e: nat = 0;
    proof {
        lemma2_to64();
    }
    while p < n
        invariant
            p == pow2(e),
            e > 0 ==> pow2((e - 1) as nat) < n,
            npot(n as nat) <= usize::MAX,
        decreases (if p < n { n - p } else { 0 }),
    {
        proof {
            lemma_pow2_unfold(e + 1);
            lemma_clog2(n as nat);
            let c = clog2(n as nat);
            if c <= e {
                if c < e {
                    lemma_pow2_strictly_increases(c, e);
                }
                assert(false);
            }
            if c > e + 1 {
                lemma_pow2_strictly_increases(e + 1, c);
            }
            lemma_pow2_pos(e);
        }
        p = p * 2;
        proof {
            e = e + 1;
        }
    }
    proof {
        lemma_clog2_unique(n as nat, e);
        lemma_npot(n as nat);
    }
    p
}

/// Is `n` a power of two?
pub fn is_power_of_two(n: usize) -> (r: bool)
    ensures
        r == is_pow2(n as int),
{
    let mut m: usize = n;
    if n == 0 {
        proof {
            if is_pow2(0) {
                let e = choose|e: nat| #[trigger] pow2(e) == 0;
                lemma_pow2_pos(e);
            }
        }
        return false;
    }
    let ghost mut e: nat = 0;
    proof {
        lemma2_to64();
    }
    while m % 2 == 0
        invariant
            m >= 1,
            m * pow2(e) == n,
        decreases m,
    {
        proof {
            lemma_pow2_unfold(e + 1);
            assert((m / 2) * (2 * pow2(e)) == m * pow2(e)) by (nonlinear_arith)
                requires
                    m % 2 == 0,
            ;
            e = e + 1;
        }
        m = m / 2;
    }
    proof {
        if m == 1 {
            assert(pow2(e) == n);
        } else if is_pow2(n as int) {
            let f = choose|f: nat| #[trigger] pow2(f) == n;
            if f < e {
                lemma_pow2_strictly_increases(f, e);
                assert(m * pow2(e) >= pow2(e)) by (nonlinear_arith)
                    requires
                        m >= 1,
                        pow2(e) >= 0,
                ;
            } else {
                let d = (f - e) as nat;
                lemma_pow2_adds(d, e);
                lemma_pow2_pos(e);
                assert(m == pow2(d)) by (nonlinear_arith)
                    requires
                        m * pow2(e) == pow2(d) * pow2(e),
                        pow2(e) > 0,
                ;
                if d > 0 {
                    lemma_pow2_unfold(d);
                } else {
                    lemma2_to64();
                }
                assert(false);
            }
        }
    }
    m == 1
}

/// The least `e` with `n <= 2^e`.
pub fn ceil_log2(n: usize) -> (r: usize)
    ensures
        r == clog2(n as nat),
        r <= 64,
{
    proof {
        lemma_clog2(n as nat);
        lemma2_to64();
        lemma2_to64_rest();
        if clog2(n as nat) > 65 {
            lemma_pow2_strictly_increases(64, (clog2(n as nat) - 1) as nat);
        }
    }
    let mut e: usize = 0;
    let mut m: usize = n;
    while m > 1
        invariant
            e + clog2(m as nat) == clog2(n as nat),
            clog2(n as nat) <= 64,
        decreases m,
    {
        m = (m - 1) / 2 + 1;
        e = e + 1;
    }
    e
}

/// The greatest `e` with `2^e <= n`.
pub fn floor_log2(n: usize) -> (r: usize)
    requires
        n >= 1,
    ensures
        r == flog2(n as nat),
        r < 64,
{
    proof {
        lemma_flog2(n as nat);
        lemma2_to64();
        lemma2_to64_rest();
        if flog2(n as nat) > 64 {
            lemma_pow2_strictly_increases(64, flog2(n as nat));
        }
    }
    let mut e: usize = 0;
    let mut m: usize = n;
    while m > 1
        invariant
            m >= 1,
            e + flog2(m as nat) == flog2(n as nat),
            flog2(n as nat) < 64,
        decreases m,
    {
        m = m / 2;
        e = e + 1;
    }
    e
}

/// `2^e`.
pub fn power_of_two(e: usize) -> (r: usize)
    requires
        pow2(e as nat) <= usize::MAX,
    ensures
        r == pow2(e as nat),
{
    let mut r: usize = 1;
    let mut i: usize = 0;
    proof {
        lemma2_to64();
    }
    while i < e
        invariant
            i <= e,
            pow2(e as nat) <= usize::MAX,
            r == pow2(i as nat),
        decreases e - i,
    {
        proof {
            lemma_pow2_unfold((i + 1) as nat);
            if i + 1 < e {
                lemma_pow2_strictly_increases((i + 1) as nat, e as nat);
            }
        }
        r = r * 2;
        i = i + 1;
    }
    r
}


/// A pair of digits is a position inside the grid.
pub proof fn lemma_grid_bound(i: int, n: int, j: int, m: int)
    requires
        0 <= i < n,
        0 <= j < m,
    ensures
        0 <= i * m + j < n * m,
{
    assert(0 <= i * m + j < n * m) by (nonlinear_arith)
        requires
            0 <= i < n,
            0 <= j < m,
    ;
}

/// The digits of a position determine it and are determined by it.
pub proof fn lemma_grid_digits(i: int, j: int, m: int)
    requires
        0 <= j < m,
    ensures
        (i * m + j) / m == i,
        (i * m + j) % m == j,
{
    lemma_mul_is_commutative(i, m);
    lemma_fundamental_div_mod_converse(i * m + j, m, i, j);
}

/// A position of the grid splits into two digits.
pub proof fn lemma_grid_split(p: int, n: int, m: int)
    requires
        0 <= p < n * m,
        0 < m,
    ensures
        0 <= p / m < n,
        0 <= p % m < m,
        p == (p / m) * m + p % m,
{
    lemma_fundamental_div_mod(p, m);
    lemma_mul_is_commutative(p / m, m);
    lemma_mod_bound(p, m);
    let q = p / m;
    let r = p % m;
    assert(0 <= q < n) by (nonlinear_arith)
        requires
            p == q * m + r,
            0 <= r < m,
            0 <= p < n * m,
            0 < m,
    ;
}

} // verus!

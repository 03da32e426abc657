//! The discrete Fourier transform over the extension field.
use crate::algebra::{
    fneg1, lemma_fneg1, lemma_fpow_1, lemma_fpow_add, lemma_fpow_canon, lemma_fpow_mul, lemma_fpow_one,
    lemma_fsub_neg, lemma_fsum_canon, lemma_fsum_eq, lemma_fsum_scale, lemma_root_of_unity, root_of_unity,
};
use crate::arith::{clog2, is_pow2, lemma_clog2_pow2, lemma_grid_bound};
use crate::field::{
    canon, fadd, fint, fmul, fone, fpow, fsub, fsum, fzero, lemma_fadd_assoc, lemma_fadd_zero, lemma_fe_canon,
    lemma_fint_hom, lemma_fmul_assoc, lemma_fmul_comm, lemma_fmul_one, lemma_fmul_zero, lemma_ops_canon, Fe,
    GoldilocksExt2, P, TWO_ADIC_GENERATOR,
};
use vstd::arithmetic::power2::{
    lemma2_to64, lemma_pow2_adds, lemma_pow2_pos, lemma_pow2_strictly_increases,
    lemma_pow2_unfold, pow2,
};
use vstd::prelude::*;

verus! {

/// The field elements that a sequence of values stands for.
pub open spec fn fes(s: Seq<GoldilocksExt2>) -> Seq<Fe> {
    Seq::new(s.len(), |i: int| s[i].fe())
}

pub open spec fn all_canon(v: Seq<Fe>) -> bool {
    forall|i: int| 0 <= i < v.len() ==> canon(#[trigger] v[i])
}

pub proof fn lemma_fes_canon(s: Seq<GoldilocksExt2>)
    ensures
        all_canon(fes(s)),
{
    assert forall|i: int| 0 <= i < fes(s).len() implies canon(#[trigger] fes(s)[i]) by {
        lemma_fe_canon(s[i]);
    }
}

/// The discrete Fourier transform of `v` with root `w`.
pub open spec fn dft(v: Seq<Fe>, w: Fe) -> Seq<Fe> {
    Seq::new(v.len(), |k: int| fsum(v.len(), |j: int| fmul(v[j], fpow(w, (j * k) as nat))))
}

/// The inverse of two.
pub const HALF: u64 = 9223372034707292161;

/// The inverse of `2^e`.
pub open spec fn inverse_of_pow2(e: nat) -> Fe {
    fpow(fint(HALF as int), e)
}

/// The inverse transform of a vector of length `2^e`.
pub open spec fn idft(v: Seq<Fe>, w: Fe) -> Seq<Fe> {
    let back = dft(v, fpow(w, (v.len() - 1) as nat));
    Seq::new(v.len(), |k: int| fmul(back[k], inverse_of_pow2(clog2(v.len()))))
}

/// The lengths that the transform accepts.
pub open spec fn fft_len(n: nat) -> bool {
    2 <= n <= 0x1_0000_0000 && is_pow2(n as int)
}

/// The lowest `k` bits of `c` in reverse order.
pub open spec fn rev(k: nat, c: nat) -> nat
    decreases k,
{
    if k == 0 {
        0
    } else {
        rev((k - 1) as nat, c / 2) + (c % 2) * pow2((k - 1) as nat)
    }
}

proof fn lemma_rev_bound(k: nat, c: nat)
    ensures
        rev(k, c) < pow2(k),
    decreases k,
{
    lemma2_to64();
    if k > 0 {
        lemma_rev_bound((k - 1) as nat, c / 2);
        lemma_pow2_unfold(k);
        let b = c % 2;
        let p = pow2((k - 1) as nat);
        assert(b * p <= p) by (nonlinear_arith)
            requires
                b <= 1,
                p >= 0,
        ;
    }
}

/// The highest bit comes out lowest.
proof fn lemma_rev_high(k: nat, hi: nat, lo: nat)
    requires
        k >= 1,
        hi <= 1,
        lo < pow2((k - 1) as nat),
    ensures
        rev(k, hi * pow2((k - 1) as nat) + lo) == 2 * rev((k - 1) as nat, lo) + hi,
    decreases k,
{
    lemma2_to64();
    let c = hi * pow2((k - 1) as nat) + lo;
    if k == 1 {
        assert(hi * pow2(0) == hi) by (nonlinear_arith)
            requires
                pow2(0) == 1,
        ;
        assert(rev(0, c / 2) == 0);
        assert(rev(0, lo) == 0);
    } else {
        let h = pow2((k - 2) as nat);
        lemma_pow2_unfold((k - 1) as nat);
        assert(hi * (2 * h) == 2 * (hi * h)) by (nonlinear_arith);
        assert(c % 2 == lo % 2);
        assert(c / 2 == hi * h + lo / 2);
        lemma_rev_high((k - 1) as nat, hi, lo / 2);
        assert((lo % 2) * (2 * h) == 2 * ((lo % 2) * h)) by (nonlinear_arith);
    }
}

/// Reversing twice gives the number back.
proof fn lemma_rev_involution(k: nat, c: nat)
    requires
        c < pow2(k),
    ensures
        rev(k, rev(k, c)) == c,
    decreases k,
{
    lemma2_to64();
    if k > 0 {
        lemma_pow2_unfold(k);
        lemma_rev_involution((k - 1) as nat, c / 2);
        lemma_rev_bound((k - 1) as nat, c / 2);
        lemma_rev_high(k, c % 2, rev((k - 1) as nat, c / 2));
    }
}

/// A sum over twice as many terms splits into the terms of even and of odd index.
proof fn lemma_fsum_even_odd(h: nat, f: spec_fn(int) -> Fe)
    ensures
        fsum(2 * h, f) == fadd(fsum(h, |s: int| f(2 * s)), fsum(h, |s: int| f(2 * s + 1))),
    decreases h,
{
    let fe = |s: int| f(2 * s);
    let fo = |s: int| f(2 * s + 1);
    if h == 0 {
        lemma_fadd_zero(fzero());
    } else {
        let g = (h - 1) as nat;
        lemma_fsum_even_odd(g, f);
        assert(fsum(2 * h, f) == fadd(fsum((2 * h - 1) as nat, f), f(2 * h - 1)));
        assert(fsum((2 * h - 1) as nat, f) == fadd(fsum(2 * g, f), f(2 * h - 2)));
        let (a, b) = (fsum(g, fe), fsum(g, fo));
        let (x, y) = (f(2 * h - 2), f(2 * h - 1));
        lemma_fadd_assoc(fadd(a, b), x, y);
        crate::algebra::lemma_fadd_swap4(a, b, x, y);
        assert(fsum(h, fe) == fadd(a, fe(h - 1)));
        assert(fsum(h, fo) == fadd(b, fo(h - 1)));
    }
}

/// The transform of length `h`, at frequency `k`, of the entries `off`, `off + st`, `off + 2 st`,
/// ... of `v`; the root is the power `st` of `w`.
spec fn part(v: Seq<Fe>, w: Fe, off: int, st: int, h: nat, k: int) -> Fe {
    fsum(h, |t: int| fmul(v[off + st * t], fpow(w, (st * t * k) as nat)))
}

/// How a transform is put together from those of its even and of its odd entries.
proof fn lemma_part_even_odd(v: Seq<Fe>, w: Fe, off: int, st: int, h: nat, k: int)
    requires
        0 <= st,
        0 <= k,
    ensures
        part(v, w, off, st, 2 * h, k) == fadd(
            part(v, w, off, 2 * st, h, k),
            fmul(part(v, w, off + st, 2 * st, h, k), fpow(w, (st * k) as nat)),
        ),
{
    let f = |t: int| fmul(v[off + st * t], fpow(w, (st * t * k) as nat));
    lemma_fsum_even_odd(h, f);
    let fe = |s: int| f(2 * s);
    let fo = |s: int| f(2 * s + 1);
    let ge = |t: int| fmul(v[off + 2 * st * t], fpow(w, (2 * st * t * k) as nat));
    let go = |t: int| fmul(v[off + st + 2 * st * t], fpow(w, (2 * st * t * k) as nat));
    let tw = fpow(w, (st * k) as nat);
    assert forall|s: int| 0 <= s < h implies #[trigger] fe(s) == ge(s) by {
        assert(st * (2 * s) == 2 * st * s) by (nonlinear_arith);
    }
    lemma_fsum_eq(h, fe, ge);
    let sc = |s: int| fmul(tw, go(s));
    assert forall|s: int| 0 <= s < h implies #[trigger] fo(s) == sc(s) by {
        assert(st * (2 * s + 1) == st + 2 * st * s) by (nonlinear_arith);
        assert(st * (2 * s + 1) * k == 2 * st * s * k + st * k) by (nonlinear_arith)
            requires
                st * (2 * s + 1) == st + 2 * st * s,
        ;
        assert(0 <= 2 * st * s * k && 0 <= st * k) by (nonlinear_arith)
            requires
                0 <= st,
                0 <= s,
                0 <= k,
        ;
        let e = fpow(w, (2 * st * s * k) as nat);
        lemma_fpow_add(w, (2 * st * s * k) as nat, (st * k) as nat);
        let x = v[off + st + 2 * st * s];
        lemma_fmul_assoc(x, e, tw);
        lemma_fmul_comm(fmul(x, e), tw);
    }
    lemma_fsum_eq(h, fo, sc);
    lemma_fsum_scale(h, tw, go);
    lemma_fmul_comm(tw, fsum(h, go));
    assert(part(v, w, off, 2 * st, h, k) == fsum(h, ge)) by {
        lemma_fsum_eq(
            h,
            ge,
            |t: int| fmul(v[off + 2 * st * t], fpow(w, (2 * st * t * k) as nat)),
        );
    }
    assert(part(v, w, off + st, 2 * st, h, k) == fsum(h, go)) by {
        lemma_fsum_eq(
            h,
            go,
            |t: int| fmul(v[off + st + 2 * st * t], fpow(w, (2 * st * t * k) as nat)),
        );
    }
}

/// A transform of length `h` repeats after `h` frequencies.
proof fn lemma_part_period(v: Seq<Fe>, w: Fe, off: int, st: int, h: nat, k: int)
    requires
        0 <= st,
        0 <= k,
        fpow(w, (st * h) as nat) == fone(),
    ensures
        part(v, w, off, st, h, k + h) == part(v, w, off, st, h, k),
{
    let f = |t: int| fmul(v[off + st * t], fpow(w, (st * t * (k + h)) as nat));
    let g = |t: int| fmul(v[off + st * t], fpow(w, (st * t * k) as nat));
    assert forall|t: int| 0 <= t < h implies #[trigger] f(t) == g(t) by {
        assert(st * t * (k + h) == st * t * k + st * h * t) by (nonlinear_arith);
        assert(0 <= st * t * k && 0 <= st * h) by (nonlinear_arith)
            requires
                0 <= st,
                0 <= t,
                0 <= k,
                0 <= h,
        ;
        assert(0 <= st * h * t) by (nonlinear_arith)
            requires
                0 <= st * h,
                0 <= t,
        ;
        lemma_fpow_add(w, (st * t * k) as nat, (st * h * t) as nat);
        lemma_fpow_mul(w, (st * h) as nat, t as nat);
        lemma_fpow_one(t as nat);
        lemma_fpow_canon(w, (st * t * k) as nat);
        lemma_fmul_one(fpow(w, (st * t * k) as nat));
    }
    lemma_fsum_eq(h, f, g);
}

/// One butterfly: the frequencies `k` and `k + h` of a transform of length `2 h`.
proof fn lemma_butterfly(v: Seq<Fe>, w: Fe, off: int, st: int, h: nat, k: int)
    requires
        0 <= st,
        0 <= k < h,
        fpow(w, (st * h) as nat) == fneg1(),
    ensures
        part(v, w, off, st, 2 * h, k) == fadd(
            part(v, w, off, 2 * st, h, k),
            fmul(part(v, w, off + st, 2 * st, h, k), fpow(w, (st * k) as nat)),
        ),
        part(v, w, off, st, 2 * h, k + h) == fsub(
            part(v, w, off, 2 * st, h, k),
            fmul(part(v, w, off + st, 2 * st, h, k), fpow(w, (st * k) as nat)),
        ),
{
    let e = part(v, w, off, 2 * st, h, k);
    let o = part(v, w, off + st, 2 * st, h, k);
    let tw = fpow(w, (st * k) as nat);
    lemma_part_even_odd(v, w, off, st, h, k);
    lemma_part_even_odd(v, w, off, st, h, k + h);
    assert(0 <= st * h && 0 <= st * k) by (nonlinear_arith)
        requires
            0 <= st,
            0 <= k,
            0 <= h,
    ;
    assert(2 * st * h == st * h + st * h) by (nonlinear_arith);
    lemma_fpow_add(w, (st * h) as nat, (st * h) as nat);
    lemma_fneg1(fone());
    lemma_part_period(v, w, off, 2 * st, h, k);
    lemma_part_period(v, w, off + st, 2 * st, h, k);
    assert(st * (k + h) == st * k + st * h) by (nonlinear_arith);
    lemma_fpow_add(w, (st * k) as nat, (st * h) as nat);
    lemma_fmul_assoc(o, tw, fneg1());
    lemma_fmul_comm(fmul(o, tw), fneg1());
    lemma_fsum_canon(h, |t: int| fmul(v[off + 2 * st * t], fpow(w, (2 * st * t * k) as nat)));
    lemma_ops_canon(o, tw);
    lemma_fsub_neg(e, fmul(o, tw));
}

/// `ark_std::log2`: the base two logarithm, rounded up; zero for zero.
#[verifier::external_body]
fn ark_log2(x: usize) -> (r: u32)
    ensures
        r == clog2(x as nat),
{
    ark_std::log2(x)
}

/// The root of unity of order `2^n`: the generator of the subgroup of order `2^32`, squared
/// `32 - n` times.
pub fn get_root_of_unity(n: usize) -> (r: GoldilocksExt2)
    requires
        n <= 32,
    ensures
        r.fe() == root_of_unity(n as nat),
{
    let mut rou = GoldilocksExt2::two_adic_generator();
    let ghost g = fint(TWO_ADIC_GENERATOR as int);
    let mut i: usize = 0;
    proof {
        lemma2_to64();
        lemma_fint_hom(TWO_ADIC_GENERATOR as int, 0);
        lemma_fpow_1(g);
    }
    while i < 32 - n
        invariant
            i <= 32 - n,
            n <= 32,
            g == fint(TWO_ADIC_GENERATOR as int),
            rou.fe() == fpow(g, pow2(i as nat)),
        decreases 32 - n - i,
    {
        proof {
            lemma_pow2_unfold((i + 1) as nat);
            lemma_fpow_add(g, pow2(i as nat), pow2(i as nat));
        }
        rou = rou.times(&rou);
        i = i + 1;
    }
    rou
}

/// For each index below `n == 2^logn` the index with its bits reversed.
fn bit_reversal(n: usize, logn: u32) -> (r: Vec<usize>)
    requires
        n == pow2(logn as nat),
        logn >= 1,
    ensures
        r.len() == n,
        forall|i: int| 0 <= i < n ==> #[trigger] r[i] == rev(logn as nat, i as nat),
        forall|i: int| 0 <= i < n ==> #[trigger] r[i] < n,
{
    let ghost k = logn as nat;
    let mut r: Vec<usize> = Vec::with_capacity(n);
    proof {
        lemma2_to64();
        lemma_pow2_unfold(k);
        lemma_pow2_pos((k - 1) as nat);
        lemma_rev_zero(k);
    }
    r.push(0);
    let mut i: usize = 1;
    while i < n
        invariant
            1 <= i <= n,
            r.len() == i,
            k == logn,
            k >= 1,
            n == pow2(k),
            n == 2 * pow2((k - 1) as nat),
            forall|j: int| 0 <= j < i ==> #[trigger] r[j] == rev(k, j as nat),
        decreases n - i,
    {
        proof {
            let c = (i / 2) as nat;
            lemma_rev_high(k, 0, c);
            assert(rev(k, c) == 2 * rev((k - 1) as nat, c));
            lemma_rev_bound(k, i as nat);
            assert((i % 2) * (n / 2) <= n / 2) by (nonlinear_arith)
                requires
                    i % 2 <= 1,
                    n / 2 >= 0,
            ;
            lemma_rev_bound((k - 1) as nat, c);
        }
        let x: usize = r[i / 2] / 2 + (i % 2) * (n / 2);
        r.push(x);
        i = i + 1;
    }
    proof {
        assert forall|i: int| 0 <= i < n implies #[trigger] r[i] < n by {
            lemma_rev_bound(k, i as nat);
        }
    }
    r
}

proof fn lemma_rev_zero(k: nat)
    ensures
        rev(k, 0) == 0,
    decreases k,
{
    if k > 0 {
        lemma_rev_zero((k - 1) as nat);
        assert(0 * pow2((k - 1) as nat) == 0);
    }
}

/// The powers `1, x, x^2, ...` of `x`, `n` of them.
fn powers(x: GoldilocksExt2, n: usize) -> (r: Vec<GoldilocksExt2>)
    ensures
        r.len() == n,
        forall|i: int| 0 <= i < n ==> (#[trigger] r[i]).fe() == fpow(x.fe(), i as nat),
{
    let mut r: Vec<GoldilocksExt2> = Vec::with_capacity(n);
    let mut acc = GoldilocksExt2::one();
    let mut i: usize = 0;
    while i < n
        invariant
            i <= n,
            r.len() == i,
            acc.fe() == fpow(x.fe(), i as nat),
            forall|j: int| 0 <= j < i ==> (#[trigger] r[j]).fe() == fpow(x.fe(), j as nat),
        decreases n - i,
    {
        r.push(acc);
        acc = acc.times(&x);
        i = i + 1;
    }
    r
}

/// Moves each entry to the place whose index has the bits in reverse order.
fn permute_reversed(v: &mut Vec<GoldilocksExt2>, r: &Vec<usize>, Ghost(k): Ghost<nat>)
    requires
        old(v).len() == r.len(),
        r.len() == pow2(k),
        forall|i: int| 0 <= i < r.len() ==> #[trigger] r[i] == rev(k, i as nat),
        forall|i: int| 0 <= i < r.len() ==> #[trigger] r[i] < r.len(),
    ensures
        final(v).len() == old(v).len(),
        forall|i: int| 0 <= i < r.len() ==> #[trigger] final(v)[i] == old(v)[rev(k, i as nat) as int],
{
    let ghost v0 = v@;
    let n = v.len();
    let mut i: usize = 0;
    while i < n
        invariant
            i <= n,
            n == v.len(),
            n == r.len(),
            v0.len() == n,
            n == pow2(k),
            forall|i: int| 0 <= i < n ==> #[trigger] r[i] == rev(k, i as nat),
            forall|i: int| 0 <= i < n ==> #[trigger] r[i] < n,
            forall|p: int|
                0 <= p < n ==> #[trigger] v[p] == (if p < i && rev(k, p as nat) < i {
                    v0[rev(k, p as nat) as int]
                } else {
                    v0[p]
                }),
        decreases n - i,
    {
        let j = r[i];
        let ghost before = v@;
        if j < i {
            let a = v[i];
            let b = v[j];
            v.set(i, b);
            v.set(j, a);
        }
        proof {
            lemma_rev_involution(k, i as nat);
            assert forall|p: int| 0 <= p < n implies #[trigger] v[p] == (if p < i + 1 && rev(
                k,
                p as nat,
            ) < i + 1 {
                v0[rev(k, p as nat) as int]
            } else {
                v0[p]
            }) by {
                lemma_rev_involution(k, p as nat);
                assert(before[p] == (if p < i && rev(k, p as nat) < i {
                    v0[rev(k, p as nat) as int]
                } else {
                    v0[p]
                }));
                assert(before[i as int] == v0[i as int]);
                if j < i {
                    assert(before[j as int] == v0[j as int]);
                }
            }
        }
        i = i + 1;
    }
    proof {
        assert forall|i: int| 0 <= i < r.len() implies #[trigger] v[i] == v0[rev(
            k,
            i as nat,
        ) as int] by {
            lemma_rev_bound(k, i as nat);
        }
    }
}

/// All the butterfly stages, on a vector whose entries stand at bit reversed places.
fn butterflies(v: &mut Vec<GoldilocksExt2>, w: &Vec<GoldilocksExt2>, Ghost(k): Ghost<nat>, Ghost(v0): Ghost<Seq<Fe>>)
    requires
        k >= 1,
        old(v).len() == pow2(k),
        w.len() == pow2(k),
        v0.len() == pow2(k),
        all_canon(v0),
        forall|i: int| 0 <= i < w.len() ==> (#[trigger] w[i]).fe() == fpow(w[1].fe(), i as nat),
        fpow(w[1].fe(), pow2((k - 1) as nat)) == fneg1(),
        forall|i: int| 0 <= i < v0.len() ==> (#[trigger] old(v)[i]).fe() == v0[rev(k, i as nat) as int],
    ensures
        final(v).len() == old(v).len(),
        fes(final(v)@) == dft(v0, w[1].fe()),
{
    let n = v.len();
    let ghost wr = w[1].fe();
    let mut half: usize = 1;
    let ghost mut m: nat = k;
    proof {
        lemma2_to64();
        assert(pow2(m) * 1 == n);
        assert forall|c: int, q: int| 0 <= c < pow2(m) && 0 <= q < 1 implies (#[trigger] v[c * 1
            + q]).fe() == part(v0, wr, rev(m, c as nat) as int, pow2(m) as int, 1, q) by {
            lemma_rev_bound(k, c as nat);
            let off = rev(m, c as nat) as int;
            let st = pow2(m) as int;
            let f = |t: int| fmul(v0[off + st * t], fpow(wr, (st * t * q) as nat));
            assert(st * 0 == 0);
            assert(st * 0 * q == 0);
            assert(fsum(1, f) == fadd(fsum(0, f), f(0)));
            assert(canon(v0[off]));
            lemma_fmul_one(v0[off]);
            lemma_fadd_zero(v0[off]);
            assert(v[c].fe() == v0[rev(k, c as nat) as int]);
        }
    }
    while half < n
        invariant
            half >= 1,
            n == v.len(),
            n == w.len(),
            n == v0.len(),
            n == pow2(k),
            k >= 1,
            m <= k,
            pow2(m) * half == n,
            half == pow2((k - m) as nat),
            wr == w[1].fe(),
            forall|i: int| 0 <= i < w.len() ==> (#[trigger] w[i]).fe() == fpow(w[1].fe(), i as nat),
            fpow(wr, pow2((k - 1) as nat)) == fneg1(),
            forall|c: int, q: int|
                0 <= c < pow2(m) && 0 <= q < half ==> (#[trigger] v[c * half + q]).fe() == part(
                    v0,
                    wr,
                    rev(m, c as nat) as int,
                    pow2(m) as int,
                    half as nat,
                    q,
                ),
        decreases n - half,
    {
        proof {
            lemma2_to64();
            if m == 0 {
                assert(pow2(0) * half == half) by (nonlinear_arith)
                    requires
                        pow2(0) == 1,
                ;
                assert(false);
            }
            lemma_pow2_unfold(m);
            lemma_pow2_unfold((k - m + 1) as nat);
            lemma_pow2_pos(m);
            lemma_pow2_pos((m - 1) as nat);
            lemma_pow2_adds((m - 1) as nat, (k - m) as nat);
            let st = pow2((m - 1) as nat);
            assert(st * (2 * half) == n) by (nonlinear_arith)
                requires
                    (2 * st) * half == n,
            ;
            assert(2 * half <= n) by (nonlinear_arith)
                requires
                    st * (2 * half) == n,
                    st >= 1,
            ;
            vstd::arithmetic::div_mod::lemma_fundamental_div_mod_converse(
                n as int,
                2 * half as int,
                st as int,
                0,
            );
        }
        let size: usize = 2 * half;
        let st: usize = n / size;
        stage(v, w, half, st, Ghost(m), Ghost(v0));
        proof {
            m = (m - 1) as nat;
        }
        half = size;
    }
    proof {
        lemma2_to64();
        let p = pow2(m);
        lemma_pow2_pos(m);
        assert(p == 1) by (nonlinear_arith)
            requires
                p * half == n,
                p >= 1,
                half >= n,
                half >= 1,
        ;
        if m > 0 {
            lemma_pow2_strictly_increases(0, m);
        }
        assert(half == n);
        let d = dft(v0, wr);
        assert forall|q: int| 0 <= q < n implies #[trigger] fes(v@)[q] == d[q] by {
            assert(v[0 * half + q].fe() == part(v0, wr, rev(m, 0) as int, pow2(m) as int, n as nat, q));
            let f = |t: int| fmul(v0[0 + 1 * t], fpow(wr, (1 * t * q) as nat));
            let g = |j: int| fmul(v0[j], fpow(wr, (j * q) as nat));
            assert forall|t: int| 0 <= t < n implies #[trigger] f(t) == g(t) by {
                assert(1 * t == t);
            }
            lemma_fsum_eq(n as nat, f, g);
        }
        assert(fes(v@) =~= d);
    }
}

/// One stage: every two neighbouring transforms of length `half` become one of twice the length.
fn stage(
    v: &mut Vec<GoldilocksExt2>,
    w: &Vec<GoldilocksExt2>,
    half: usize,
    st: usize,
    Ghost(m): Ghost<nat>,
    Ghost(v0): Ghost<Seq<Fe>>,
)
    requires
        m >= 1,
        half >= 1,
        old(v).len() == w.len(),
        old(v).len() == st * (2 * half),
        st == pow2((m - 1) as nat),
        pow2(m) == 2 * st,
        forall|i: int| 0 <= i < w.len() ==> (#[trigger] w[i]).fe() == fpow(w[1].fe(), i as nat),
        fpow(w[1].fe(), (st * half) as nat) == fneg1(),
        2 * half <= usize::MAX,
        forall|c: int, q: int|
            0 <= c < pow2(m) && 0 <= q < half ==> (#[trigger] old(v)[c * half + q]).fe() == part(
                v0,
                w[1].fe(),
                rev(m, c as nat) as int,
                pow2(m) as int,
                half as nat,
                q,
            ),
    ensures
        final(v).len() == old(v).len(),
        forall|c: int, q: int|
            0 <= c < st && 0 <= q < 2 * half ==> (#[trigger] final(v)[c * (2 * half) + q]).fe()
                == part(
                v0,
                w[1].fe(),
                rev((m - 1) as nat, c as nat) as int,
                st as int,
                (2 * half) as nat,
                q,
            ),
{
    let ghost old_v = v@;
    let ghost wr = w[1].fe();
    let n = v.len();
    let size: usize = 2 * half;
    let mut c: usize = 0;
    let mut base: usize = 0;
    proof {
        assert(0 * size == 0);
    }
    while c < st
        invariant
            c <= st,
            m >= 1,
            half >= 1,
            size == 2 * half,
            n == v.len(),
            n == w.len(),
            n == old_v.len(),
            n == st * size,
            base == c * size,
            wr == w[1].fe(),
            st == pow2((m - 1) as nat),
            pow2(m) == 2 * st,
            forall|i: int| 0 <= i < w.len() ==> (#[trigger] w[i]).fe() == fpow(w[1].fe(), i as nat),
            fpow(wr, (st * half) as nat) == fneg1(),
            forall|c: int, q: int|
                0 <= c < pow2(m) && 0 <= q < half ==> (#[trigger] old_v[c * half + q]).fe() == part(
                    v0,
                    wr,
                    rev(m, c as nat) as int,
                    pow2(m) as int,
                    half as nat,
                    q,
                ),
            forall|p: int| base <= p < n ==> #[trigger] v[p] == old_v[p],
            forall|d: int, q: int|
                0 <= d < c && 0 <= q < size ==> (#[trigger] v[d * size + q]).fe() == part(
                    v0,
                    wr,
                    rev((m - 1) as nat, d as nat) as int,
                    st as int,
                    size as nat,
                    q,
                ),
        decreases st - c,
    {
        proof {
            lemma_grid_bound(c as int, st as int, size - 1, size as int);
        }
        let ghost off = rev((m - 1) as nat, c as nat) as int;
        let ghost before = v@;
        let mut k: usize = 0;
        while k < half
            invariant
                k <= half,
                m >= 1,
                half >= 1,
                c < st,
                size == 2 * half,
                n == v.len(),
                n == w.len(),
                n == old_v.len(),
                n == before.len(),
                n == st * size,
                base == c * size,
                base + size <= n,
                wr == w[1].fe(),
                off == rev((m - 1) as nat, c as nat),
                st == pow2((m - 1) as nat),
                pow2(m) == 2 * st,
                forall|i: int|
                    0 <= i < w.len() ==> (#[trigger] w[i]).fe() == fpow(w[1].fe(), i as nat),
                fpow(wr, (st * half) as nat) == fneg1(),
                forall|c: int, q: int|
                    0 <= c < pow2(m) && 0 <= q < half ==> (#[trigger] old_v[c * half + q]).fe()
                        == part(
                        v0,
                        wr,
                        rev(m, c as nat) as int,
                        pow2(m) as int,
                        half as nat,
                        q,
                    ),
                forall|p: int| base <= p < n ==> #[trigger] before[p] == old_v[p],
                forall|p: int|
                    0 <= p < n && !(base <= p < base + k) && !(base + half <= p < base + half + k)
                        ==> #[trigger] v[p] == before[p],
                forall|q: int|
                    0 <= q < k ==> (#[trigger] v[base + q]).fe() == part(
                        v0,
                        wr,
                        off,
                        st as int,
                        size as nat,
                        q,
                    ),
                forall|q: int|
                    half <= q < half + k ==> (#[trigger] v[base + q]).fe() == part(
                        v0,
                        wr,
                        off,
                        st as int,
                        size as nat,
                        q,
                    ),
            decreases half - k,
        {
            proof {
                assert(st * k < n) by (nonlinear_arith)
                    requires
                        n == st * (2 * half),
                        k < half,
                        st >= 0,
                        n >= 2 * half,
                        half >= 1,
                ;
                let c2 = 2 * c as int;
                assert(c2 * half + k == base + k) by (nonlinear_arith)
                    requires
                        base == c * (2 * half),
                        c2 == 2 * c,
                ;
                assert((c2 + 1) * half + k == base + half + k) by (nonlinear_arith)
                    requires
                        base == c * (2 * half),
                        c2 == 2 * c,
                ;
                assert(old_v[c2 * half + k].fe() == part(
                    v0,
                    wr,
                    rev(m, c2 as nat) as int,
                    pow2(m) as int,
                    half as nat,
                    k as int,
                ));
                assert(old_v[(c2 + 1) * half + k].fe() == part(
                    v0,
                    wr,
                    rev(m, (c2 + 1) as nat) as int,
                    pow2(m) as int,
                    half as nat,
                    k as int,
                ));
                assert(rev(m, c2 as nat) == off) by {
                    assert((c2 as nat) / 2 == c as nat && (c2 as nat) % 2 == 0);
                    assert(0 * pow2((m - 1) as nat) == 0);
                }
                assert(rev(m, (c2 + 1) as nat) == off + st) by {
                    assert(((c2 + 1) as nat) / 2 == c as nat && ((c2 + 1) as nat) % 2 == 1);
                    assert(1 * pow2((m - 1) as nat) == pow2((m - 1) as nat));
                }
                lemma_butterfly(v0, wr, off, st as int, half as nat, k as int);
                assert(v[base + k] == before[base + k]);
                assert(v[base + half + k] == before[base + half + k]);
                assert(w[(st * k) as int].fe() == fpow(wr, (st * k) as nat));
            }
            let u = v[base + k];
            let l = v[base + half + k].times(&w[st * k]);
            v.set(base + k, u.plus(&l));
            v.set(base + half + k, u.minus(&l));
            k = k + 1;
        }
        proof {
            assert forall|d: int, q: int|
                0 <= d < c + 1 && 0 <= q < size implies (#[trigger] v[d * size + q]).fe() == part(
                v0,
                wr,
                rev((m - 1) as nat, d as nat) as int,
                st as int,
                size as nat,
                q,
            ) by {
                if d < c {
                    lemma_grid_bound(d, c as int, q, size as int);
                    assert(v[d * size + q] == before[d * size + q]);
                } else {
                    assert(v[base + q].fe() == part(v0, wr, off, st as int, size as nat, q));
                }
            }
            assert((c + 1) * size == base + size) by (nonlinear_arith)
                requires
                    base == c * size,
            ;
        }
        c = c + 1;
        base = base + size;
    }
}

/// An inverse is determined by the element.
pub proof fn lemma_inverse_unique(x: Fe, r: Fe, s: Fe)
    requires
        canon(r),
        canon(s),
        fmul(x, r) == fone(),
        fmul(x, s) == fone(),
    ensures
        r == s,
{
    lemma_fmul_one(r);
    lemma_fmul_one(s);
    lemma_fmul_assoc(r, x, s);
    lemma_fmul_comm(r, x);
}

/// `inverse_of_pow2` is the inverse of the power of two.
pub proof fn lemma_inverse_of_pow2(e: nat)
    ensures
        fmul(fint(pow2(e) as int), inverse_of_pow2(e)) == fone(),
        canon(inverse_of_pow2(e)),
    decreases e,
{
    lemma2_to64();
    lemma_fpow_canon(fint(HALF as int), e);
    if e == 0 {
        lemma_fmul_one(fone());
    } else {
        let d = (e - 1) as nat;
        lemma_inverse_of_pow2(d);
        lemma_pow2_unfold(e);
        lemma_fint_hom(2, pow2(d) as int);
        lemma_fint_hom(2, HALF as int);
        assert((2 * HALF as int) % (P as int) == 1);
        let p = fint(pow2(d) as int);
        lemma_fmul_comm(fint(2), p);
        crate::algebra::lemma_fmul_swap4(p, fint(2), inverse_of_pow2(d), fint(HALF as int));
        lemma_fmul_one(fone());
    }
}

/// The inverse of a root of unity is its last power.
pub proof fn lemma_root_inverse(w: Fe, n: nat)
    requires
        n >= 1,
        canon(w),
        fpow(w, n) == fone(),
    ensures
        fmul(w, fpow(w, (n - 1) as nat)) == fone(),
        canon(fpow(w, (n - 1) as nat)),
{
    lemma_fpow_canon(w, (n - 1) as nat);
    lemma_fmul_comm(w, fpow(w, (n - 1) as nat));
}

/// Transforms `v` in place: the Fourier transform where `flag` is false, the inverse transform
/// where it is true.
pub fn fft(v: &mut Vec<GoldilocksExt2>, flag: bool)
    requires
        fft_len(old(v).len() as nat),
    ensures
        final(v).len() == old(v).len(),
        !flag ==> fes(final(v)@) == dft(fes(old(v)@), root_of_unity(clog2(old(v).len() as nat))),
        flag ==> fes(final(v)@) == idft(fes(old(v)@), root_of_unity(clog2(old(v).len() as nat))),
{
    let ghost v0 = fes(v@);
    let n: usize = v.len();
    let logn: u32 = ark_log2(n);
    let ghost k = logn as nat;
    proof {
        let e = choose|e: nat| #[trigger] pow2(e) == n;
        lemma_clog2_pow2(e);
        lemma2_to64();
        if e == 0 {
            assert(false);
        }
        if e > 32 {
            lemma_pow2_strictly_increases(32, e);
        }
        assert(k == e);
        lemma_root_of_unity(k);
        lemma_fes_canon(v@);
    }
    let rev_table = bit_reversal(n, logn);
    let rou = get_root_of_unity(logn as usize);
    let ghost w = root_of_unity(k);
    let ghost minus = fpow(w, (n - 1) as nat);
    let mut w1 = rou;
    if flag {
        proof {
            lemma_root_inverse(w, n as nat);
            if w == fzero() {
                lemma_fmul_zero(minus);
                lemma_fmul_comm(fzero(), minus);
                assert(false);
            }
        }
        w1 = rou.inverse();
        proof {
            lemma_fe_canon(w1);
            lemma_inverse_unique(w, w1.fe(), minus);
            lemma_inverse_root_is_primitive(w, n as nat, k);
        }
    }
    let table = powers(w1, n);
    proof {
        lemma_fe_canon(w1);
        lemma_fpow_1(w1.fe());
    }
    permute_reversed(v, &rev_table, Ghost(k));
    proof {
        assert forall|i: int| 0 <= i < n implies (#[trigger] v[i]).fe() == v0[rev(
            k,
            i as nat,
        ) as int] by {
            lemma_rev_bound(k, i as nat);
        }
    }
    butterflies(v, &table, Ghost(k), Ghost(v0));
    if flag {
        let len = GoldilocksExt2::from_canonical_u64(n as u64);
        proof {
            lemma_inverse_of_pow2(k);
        }
        let ilen = len.inverse();
        proof {
            lemma_fe_canon(ilen);
            lemma_inverse_unique(fint(n as int), ilen.fe(), inverse_of_pow2(k));
        }
        let ghost back = fes(v@);
        let mut i: usize = 0;
        while i < n
            invariant
                i <= n,
                n == v.len(),
                back.len() == n,
                ilen.fe() == inverse_of_pow2(k),
                forall|j: int| i <= j < n ==> (#[trigger] v[j]).fe() == back[j],
                forall|j: int|
                    0 <= j < i ==> (#[trigger] v[j]).fe() == fmul(back[j], inverse_of_pow2(k)),
            decreases n - i,
        {
            let x = v[i].times(&ilen);
            v.set(i, x);
            i = i + 1;
        }
        proof {
            assert(fes(v@) =~= idft(v0, w));
        }
    }
}

/// The inverse of a primitive root is primitive too.
pub proof fn lemma_inverse_root_is_primitive(w: Fe, n: nat, k: nat)
    requires
        k >= 1,
        n == pow2(k),
        canon(w),
        fpow(w, n) == fone(),
        fpow(w, pow2((k - 1) as nat)) == fneg1(),
    ensures
        fpow(fpow(w, (n - 1) as nat), pow2((k - 1) as nat)) == fneg1(),
{
    let h = pow2((k - 1) as nat);
    let x = fpow(w, (n - 1) as nat);
    lemma_pow2_pos(k);
    lemma_root_inverse(w, n);
    crate::algebra::lemma_fpow_dist(w, x, h);
    lemma_fpow_one(h);
    let y = fpow(x, h);
    lemma_fpow_canon(x, h);
    lemma_fneg1(fone());
    lemma_inverse_unique(fneg1(), y, fneg1());
}

} // verus!

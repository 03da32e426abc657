//! Powers, finite sums and roots of unity in the extension field.
use crate::field::{
    canon, fadd, fint, fmul, fone, fpow, fsub, fsum, fzero, lemma_fadd_assoc, lemma_fadd_comm,
    lemma_fadd_zero, lemma_fint_hom, lemma_fmul_assoc, lemma_fmul_comm, lemma_fmul_dist,
    lemma_fmul_one, lemma_fmul_zero, lemma_fsub_fadd, lemma_ops_canon, Fe, P, TWO_ADIC_GENERATOR,
};
use vstd::arithmetic::power2::{lemma2_to64, lemma_pow2_adds, lemma_pow2_unfold, pow2};
use vstd::prelude::*;

verus! {

pub proof fn lemma_fpow_canon(x: Fe, n: nat)
    ensures
        canon(fpow(x, n)),
{
    if n > 0 {
        lemma_ops_canon(fpow(x, (n - 1) as nat), x);
    }
}

pub proof fn lemma_fpow_add(x: Fe, a: nat, b: nat)
    ensures
        fpow(x, a + b) == fmul(fpow(x, a), fpow(x, b)),
    decreases b,
{
    lemma_fpow_canon(x, a);
    if b == 0 {
        lemma_fmul_one(fpow(x, a));
    } else {
        lemma_fpow_add(x, a, (b - 1) as nat);
        lemma_fmul_assoc(fpow(x, a), fpow(x, (b - 1) as nat), x);
    }
}

pub proof fn lemma_fpow_mul(x: Fe, a: nat, b: nat)
    ensures
        fpow(x, a * b) == fpow(fpow(x, a), b),
    decreases b,
{
    if b == 0 {
        assert(a * b == 0) by (nonlinear_arith)
            requires
                b == 0,
        ;
    } else {
        lemma_fpow_mul(x, a, (b - 1) as nat);
        assert(a * b == a * ((b - 1) as nat) + a) by (nonlinear_arith)
            requires
                b >= 1,
        ;
        lemma_fpow_add(x, a * ((b - 1) as nat), a);
    }
}

pub proof fn lemma_fpow_one(n: nat)
    ensures
        fpow(fone(), n) == fone(),
    decreases n,
{
    if n > 0 {
        lemma_fpow_one((n - 1) as nat);
        lemma_fmul_one(fone());
    }
}

pub proof fn lemma_fpow_1(x: Fe)
    requires
        canon(x),
    ensures
        fpow(x, 1) == x,
{
    lemma_fmul_one(x);
    assert(fpow(x, 1) == fmul(fpow(x, 0), x));
}

/// `(x * y)^n == x^n * y^n`.
pub proof fn lemma_fpow_dist(x: Fe, y: Fe, n: nat)
    ensures
        fpow(fmul(x, y), n) == fmul(fpow(x, n), fpow(y, n)),
    decreases n,
{
    if n == 0 {
        lemma_fmul_one(fone());
    } else {
        let m = (n - 1) as nat;
        lemma_fpow_dist(x, y, m);
        lemma_fmul_swap4(fpow(x, m), fpow(y, m), x, y);
    }
}

/// `(a * b) * (c * d) == (a * c) * (b * d)`.
pub proof fn lemma_fmul_swap4(a: Fe, b: Fe, c: Fe, d: Fe)
    ensures
        fmul(fmul(a, b), fmul(c, d)) == fmul(fmul(a, c), fmul(b, d)),
{
    lemma_fmul_assoc(a, b, fmul(c, d));
    lemma_fmul_assoc(b, c, d);
    lemma_fmul_comm(b, c);
    lemma_fmul_assoc(c, b, d);
    lemma_fmul_assoc(a, c, fmul(b, d));
}

/// `(a + b) + (c + d) == (a + c) + (b + d)`.
pub proof fn lemma_fadd_swap4(a: Fe, b: Fe, c: Fe, d: Fe)
    ensures
        fadd(fadd(a, b), fadd(c, d)) == fadd(fadd(a, c), fadd(b, d)),
{
    lemma_fadd_assoc(a, b, fadd(c, d));
    lemma_fadd_assoc(b, c, d);
    lemma_fadd_comm(b, c);
    lemma_fadd_assoc(c, b, d);
    lemma_fadd_assoc(a, c, fadd(b, d));
}

pub proof fn lemma_fsum_canon(n: nat, f: spec_fn(int) -> Fe)
    ensures
        canon(fsum(n, f)),
{
    if n > 0 {
        lemma_ops_canon(fsum((n - 1) as nat, f), f(n - 1));
    }
}

pub proof fn lemma_fsum_eq(n: nat, f: spec_fn(int) -> Fe, g: spec_fn(int) -> Fe)
    requires
        forall|i: int| 0 <= i < n ==> #[trigger] f(i) == g(i),
    ensures
        fsum(n, f) == fsum(n, g),
    decreases n,
{
    if n > 0 {
        lemma_fsum_eq((n - 1) as nat, f, g);
        assert(f(n - 1) == g(n - 1));
    }
}

pub proof fn lemma_fsum_zero(n: nat, f: spec_fn(int) -> Fe)
    requires
        forall|i: int| 0 <= i < n ==> #[trigger] f(i) == fzero(),
    ensures
        fsum(n, f) == fzero(),
    decreases n,
{
    if n > 0 {
        lemma_fsum_zero((n - 1) as nat, f);
        assert(f(n - 1) == fzero());
        lemma_fadd_zero(fzero());
    }
}

pub proof fn lemma_fsum_add(n: nat, f: spec_fn(int) -> Fe, g: spec_fn(int) -> Fe)
    ensures
        fsum(n, |i: int| fadd(f(i), g(i))) == fadd(fsum(n, f), fsum(n, g)),
    decreases n,
{
    let h = |i: int| fadd(f(i), g(i));
    if n == 0 {
        lemma_fadd_zero(fzero());
    } else {
        let m = (n - 1) as nat;
        lemma_fsum_add(m, f, g);
        lemma_fadd_swap4(fsum(m, f), fsum(m, g), f(n - 1), g(n - 1));
        assert(fsum(n, h) == fadd(fsum(m, h), h(n - 1)));
    }
}

pub proof fn lemma_fsum_scale(n: nat, c: Fe, f: spec_fn(int) -> Fe)
    ensures
        fsum(n, |i: int| fmul(c, f(i))) == fmul(c, fsum(n, f)),
    decreases n,
{
    let h = |i: int| fmul(c, f(i));
    if n == 0 {
        lemma_fmul_zero(c);
    } else {
        let m = (n - 1) as nat;
        lemma_fsum_scale(m, c, f);
        lemma_fmul_dist(c, fsum(m, f), f(n - 1));
        assert(fsum(n, h) == fadd(fsum(m, h), h(n - 1)));
    }
}

/// A sum over `n + m` terms is the sum of the first `n` and of the last `m`.
pub proof fn lemma_fsum_split(n: nat, m: nat, f: spec_fn(int) -> Fe)
    ensures
        fsum(n + m, f) == fadd(fsum(n, f), fsum(m, |i: int| f(n + i))),
    decreases m,
{
    let g = |i: int| f(n + i);
    lemma_fsum_canon(n, f);
    if m == 0 {
        lemma_fadd_zero(fsum(n, f));
    } else {
        let k = (m - 1) as nat;
        lemma_fsum_split(n, k, f);
        assert(fsum(n + m, f) == fadd(fsum(n + k, f), f(n + m - 1)));
        lemma_fadd_assoc(fsum(n, f), fsum(k, g), g(m - 1));
        assert(fsum(m, g) == fadd(fsum(k, g), g(m - 1)));
    }
}

/// Two summations can be exchanged.
pub proof fn lemma_fsum_swap(n: nat, m: nat, f: spec_fn(int, int) -> Fe)
    ensures
        fsum(n, |i: int| fsum(m, |j: int| f(i, j))) == fsum(m, |j: int| fsum(n, |i: int| f(i, j))),
    decreases n,
{
    let row = |i: int| fsum(m, |j: int| f(i, j));
    let col = |j: int| fsum(n, |i: int| f(i, j));
    if n == 0 {
        lemma_fsum_zero(m, col);
    } else {
        let k = (n - 1) as nat;
        lemma_fsum_swap(k, m, f);
        let colk = |j: int| fsum(k, |i: int| f(i, j));
        let last = |j: int| f(n - 1, j);
        assert(fsum(n, row) == fadd(fsum(k, row), row(n - 1)));
        assert(row(n - 1) == fsum(m, last)) by {
            lemma_fsum_eq(m, |j: int| f(n - 1, j), last);
        }
        lemma_fsum_add(m, colk, last);
        let both = |j: int| fadd(colk(j), last(j));
        assert forall|j: int| 0 <= j < m implies #[trigger] col(j) == both(j) by {
            let fj = |i: int| f(i, j);
            assert(fsum(n, fj) == fadd(fsum(k, fj), fj(n - 1)));
        }
        lemma_fsum_eq(m, col, both);
    }
}

/// A sum with at most one term other than zero.
pub proof fn lemma_fsum_single(n: nat, k: int, f: spec_fn(int) -> Fe)
    requires
        0 <= k < n,
        canon(f(k)),
        forall|i: int| 0 <= i < n && i != k ==> #[trigger] f(i) == fzero(),
    ensures
        fsum(n, f) == f(k),
    decreases n,
{
    let m = (n - 1) as nat;
    if k == n - 1 {
        lemma_fsum_zero(m, f);
        lemma_fadd_zero(f(k));
    } else {
        lemma_fsum_single(m, k, f);
        assert(f(n - 1) == fzero());
        lemma_fadd_zero(f(k));
    }
}

/// Minus one.
pub open spec fn fneg1() -> Fe {
    fint(-1)
}

pub proof fn lemma_fneg1(x: Fe)
    requires
        canon(x),
    ensures
        fadd(x, fmul(fneg1(), x)) == fzero(),
        fmul(fneg1(), fneg1()) == fone(),
        fneg1() == (P - 1, 0int),
{
    lemma_fint_hom(-1, -1);
    assert(fint(1) == fone());
    assert((-1int) % (P as int) == P - 1);
    lemma_fint_hom(1, -1);
    assert(fint(0) == fzero());
    lemma_fmul_dist(x, fone(), fneg1());
    lemma_fmul_one(x);
    lemma_fmul_comm(fneg1(), x);
    lemma_fmul_zero(x);
}

/// `a - b == a + (-1) * b`.
pub proof fn lemma_fsub_neg(a: Fe, b: Fe)
    requires
        canon(a),
        canon(b),
    ensures
        fsub(a, b) == fadd(a, fmul(fneg1(), b)),
{
    lemma_fneg1(b);
    let nb = fmul(fneg1(), b);
    lemma_ops_canon(a, nb);
    lemma_ops_canon(fneg1(), b);
    lemma_fadd_assoc(a, nb, b);
    lemma_fadd_comm(nb, b);
    lemma_fadd_zero(a);
    lemma_fsub_fadd(fadd(a, nb), b);
}

spec fn gen_pow(e: nat) -> Fe {
    fpow(fint(TWO_ADIC_GENERATOR as int), pow2(e))
}

proof fn lemma_square_step(e: nat, c: int, d: int)
    requires
        gen_pow(e) == fint(c),
        (c * c) % (P as int) == d % (P as int),
    ensures
        gen_pow(e + 1) == fint(d),
{
    lemma_pow2_unfold(e + 1);
    lemma_fpow_add(fint(TWO_ADIC_GENERATOR as int), pow2(e), pow2(e));
    lemma_fint_hom(c, c);
}

/// The generator's power to `2^31` is minus one.
proof fn lemma_generator_order()
    ensures
        gen_pow(31) == fneg1(),
{
    lemma2_to64();
    lemma_fint_hom(TWO_ADIC_GENERATOR as int, 0);
    lemma_fpow_1(fint(TWO_ADIC_GENERATOR as int));
    assert((1753635133440165772int * 1753635133440165772int) % 0xFFFF_FFFF_0000_0001int == 4614640910117430873int);
    lemma_square_step(0, 1753635133440165772, 4614640910117430873);
    assert((4614640910117430873int * 4614640910117430873int) % 0xFFFF_FFFF_0000_0001int == 9123114210336311365int);
    lemma_square_step(1, 4614640910117430873, 9123114210336311365);
    assert((9123114210336311365int * 9123114210336311365int) % 0xFFFF_FFFF_0000_0001int == 16116352524544190054int);
    lemma_square_step(2, 9123114210336311365, 16116352524544190054);
    assert((16116352524544190054int * 16116352524544190054int) % 0xFFFF_FFFF_0000_0001int == 6414415596519834757int);
    lemma_square_step(3, 16116352524544190054, 6414415596519834757);
    assert((6414415596519834757int * 6414415596519834757int) % 0xFFFF_FFFF_0000_0001int == 1213594585890690845int);
    lemma_square_step(4, 6414415596519834757, 1213594585890690845);
    assert((1213594585890690845int * 1213594585890690845int) % 0xFFFF_FFFF_0000_0001int == 17096174751763063430int);
    lemma_square_step(5, 1213594585890690845, 17096174751763063430);
    assert((17096174751763063430int * 17096174751763063430int) % 0xFFFF_FFFF_0000_0001int == 5456943929260765144int);
    lemma_square_step(6, 17096174751763063430, 5456943929260765144);
    assert((5456943929260765144int * 5456943929260765144int) % 0xFFFF_FFFF_0000_0001int == 9713644485405565297int);
    lemma_square_step(7, 5456943929260765144, 9713644485405565297);
    assert((9713644485405565297int * 9713644485405565297int) % 0xFFFF_FFFF_0000_0001int == 16905767614792059275int);
    lemma_square_step(8, 9713644485405565297, 16905767614792059275);
    assert((16905767614792059275int * 16905767614792059275int) % 0xFFFF_FFFF_0000_0001int == 5416168637041100469int);
    lemma_square_step(9, 16905767614792059275, 5416168637041100469);
    assert((5416168637041100469int * 5416168637041100469int) % 0xFFFF_FFFF_0000_0001int == 17654865857378133588int);
    lemma_square_step(10, 5416168637041100469, 17654865857378133588);
    assert((17654865857378133588int * 17654865857378133588int) % 0xFFFF_FFFF_0000_0001int == 3511170319078647661int);
    lemma_square_step(11, 17654865857378133588, 3511170319078647661);
    assert((3511170319078647661int * 3511170319078647661int) % 0xFFFF_FFFF_0000_0001int == 18146160046829613826int);
    lemma_square_step(12, 3511170319078647661, 18146160046829613826);
    assert((18146160046829613826int * 18146160046829613826int) % 0xFFFF_FFFF_0000_0001int == 9306717745644682924int);
    lemma_square_step(13, 18146160046829613826, 9306717745644682924);
    assert((9306717745644682924int * 9306717745644682924int) % 0xFFFF_FFFF_0000_0001int == 12380578893860276750int);
    lemma_square_step(14, 9306717745644682924, 12380578893860276750);
    assert((12380578893860276750int * 12380578893860276750int) % 0xFFFF_FFFF_0000_0001int == 6115771955107415310int);
    lemma_square_step(15, 12380578893860276750, 6115771955107415310);
    assert((6115771955107415310int * 6115771955107415310int) % 0xFFFF_FFFF_0000_0001int == 17776499369601055404int);
    lemma_square_step(16, 6115771955107415310, 17776499369601055404);
    assert((17776499369601055404int * 17776499369601055404int) % 0xFFFF_FFFF_0000_0001int == 16207902636198568418int);
    lemma_square_step(17, 17776499369601055404, 16207902636198568418);
    assert((16207902636198568418int * 16207902636198568418int) % 0xFFFF_FFFF_0000_0001int == 1532612707718625687int);
    lemma_square_step(18, 16207902636198568418, 1532612707718625687);
    assert((1532612707718625687int * 1532612707718625687int) % 0xFFFF_FFFF_0000_0001int == 17492915097719143606int);
    lemma_square_step(19, 1532612707718625687, 17492915097719143606);
    assert((17492915097719143606int * 17492915097719143606int) % 0xFFFF_FFFF_0000_0001int == 455906449640507599int);
    lemma_square_step(20, 17492915097719143606, 455906449640507599);
    assert((455906449640507599int * 455906449640507599int) % 0xFFFF_FFFF_0000_0001int == 11353340290879379826int);
    lemma_square_step(21, 455906449640507599, 11353340290879379826);
    assert((11353340290879379826int * 11353340290879379826int) % 0xFFFF_FFFF_0000_0001int == 1803076106186727246int);
    lemma_square_step(22, 11353340290879379826, 1803076106186727246);
    assert((1803076106186727246int * 1803076106186727246int) % 0xFFFF_FFFF_0000_0001int == 13797081185216407910int);
    lemma_square_step(23, 1803076106186727246, 13797081185216407910);
    assert((13797081185216407910int * 13797081185216407910int) % 0xFFFF_FFFF_0000_0001int == 17870292113338400769int);
    lemma_square_step(24, 13797081185216407910, 17870292113338400769);
    assert((17870292113338400769int * 17870292113338400769int) % 0xFFFF_FFFF_0000_0001int == 549755813888int);
    lemma_square_step(25, 17870292113338400769, 549755813888);
    assert((549755813888int * 549755813888int) % 0xFFFF_FFFF_0000_0001int == 70368744161280int);
    lemma_square_step(26, 549755813888, 70368744161280);
    assert((70368744161280int * 70368744161280int) % 0xFFFF_FFFF_0000_0001int == 17293822564807737345int);
    lemma_square_step(27, 70368744161280, 17293822564807737345);
    assert((17293822564807737345int * 17293822564807737345int) % 0xFFFF_FFFF_0000_0001int == 18446744069397807105int);
    lemma_square_step(28, 17293822564807737345, 18446744069397807105);
    assert((18446744069397807105int * 18446744069397807105int) % 0xFFFF_FFFF_0000_0001int == 281474976710656int);
    lemma_square_step(29, 18446744069397807105, 281474976710656);
    assert((281474976710656int * 281474976710656int) % 0xFFFF_FFFF_0000_0001int == 18446744069414584320int);
    lemma_square_step(30, 281474976710656, 18446744069414584320);
    lemma_fneg1(fone());
    assert(fint(18446744069414584320) == fneg1());
}

/// The root of unity of order `2^n`.
pub open spec fn root_of_unity(n: nat) -> Fe
    recommends
        n <= 32,
{
    fpow(fint(TWO_ADIC_GENERATOR as int), pow2((32 - n) as nat))
}

/// The root of order `2^n` is primitive: half way round it is minus one.
pub proof fn lemma_root_of_unity(n: nat)
    requires
        1 <= n <= 32,
    ensures
        fpow(root_of_unity(n), pow2((n - 1) as nat)) == fneg1(),
        fpow(root_of_unity(n), pow2(n)) == fone(),
        canon(root_of_unity(n)),
{
    let g = fint(TWO_ADIC_GENERATOR as int);
    let a = (32 - n) as nat;
    let b = (n - 1) as nat;
    lemma_generator_order();
    lemma_pow2_adds(a, b);
    lemma_fpow_mul(g, pow2(a), pow2(b));
    lemma_fpow_canon(g, pow2(a));
    let w = root_of_unity(n);
    lemma_pow2_unfold(n);
    lemma_fpow_add(w, pow2(b), pow2(b));
    lemma_fneg1(fone());
}

} // verus!

//! The quadratic extension of the Goldilocks field: its mathematics and its values.
use p3_field::extension::BinomialExtensionField;
use p3_field::{AbstractExtensionField, AbstractField, Field, PrimeField64, TwoAdicField};
use p3_goldilocks::Goldilocks;
use vstd::arithmetic::div_mod::{lemma_add_mod_noop, lemma_mod_twice, lemma_small_mod, lemma_sub_mod_noop};
use vstd::arithmetic::mul::lemma_mul_is_associative;
use vstd::prelude::*;

verus! {

/// The Goldilocks prime, `2^64 - 2^32 + 1`.
pub const P: u64 = 0xFFFF_FFFF_0000_0001;

/// An element `a + b X` of the extension, where `X * X == 7`.
pub type Fe = (int, int);

/// Both coefficients reduced modulo the prime.
pub open spec fn red(x: Fe) -> Fe {
    (x.0 % P as int, x.1 % P as int)
}

/// The coefficients are the least nonnegative ones.
pub open spec fn canon(x: Fe) -> bool {
    0 <= x.0 < P && 0 <= x.1 < P
}

spec fn radd(x: Fe, y: Fe) -> Fe {
    (x.0 + y.0, x.1 + y.1)
}

spec fn rsub(x: Fe, y: Fe) -> Fe {
    (x.0 - y.0, x.1 - y.1)
}

spec fn rmul(x: Fe, y: Fe) -> Fe {
    (x.0 * y.0 + 7 * (x.1 * y.1), x.0 * y.1 + x.1 * y.0)
}

pub open spec fn fzero() -> Fe {
    (0, 0)
}

pub open spec fn fone() -> Fe {
    (1, 0)
}

/// The integer `n` as an element of the field.
pub open spec fn fint(n: int) -> Fe {
    (n % P as int, 0)
}

#[verifier::opaque]
pub open spec fn fadd(x: Fe, y: Fe) -> Fe {
    ((x.0 + y.0) % P as int, (x.1 + y.1) % P as int)
}

#[verifier::opaque]
pub open spec fn fsub(x: Fe, y: Fe) -> Fe {
    ((x.0 - y.0) % P as int, (x.1 - y.1) % P as int)
}

#[verifier::opaque]
pub open spec fn fmul(x: Fe, y: Fe) -> Fe {
    ((x.0 * y.0 + 7 * (x.1 * y.1)) % P as int, (x.0 * y.1 + x.1 * y.0) % P as int)
}

/// `x` multiplied by itself `n` times.
pub open spec fn fpow(x: Fe, n: nat) -> Fe
    decreases n,
{
    if n == 0 {
        fone()
    } else {
        fmul(fpow(x, (n - 1) as nat), x)
    }
}

/// `f(0) + f(1) + ... + f(n - 1)`.
pub open spec fn fsum(n: nat, f: spec_fn(int) -> Fe) -> Fe
    decreases n,
{
    if n == 0 {
        fzero()
    } else {
        fadd(fsum((n - 1) as nat, f), f(n - 1))
    }
}

pub proof fn lemma_ops_canon(x: Fe, y: Fe)
    ensures
        canon(fadd(x, y)),
        canon(fsub(x, y)),
        canon(fmul(x, y)),
        canon(red(x)),
{
    reveal(fadd);
    reveal(fsub);
    reveal(fmul);
}

proof fn lemma_red_radd(x: Fe, y: Fe)
    ensures
        red(radd(red(x), y)) == red(radd(x, y)),
        red(radd(y, red(x))) == red(radd(y, x)),
{
    let p = P as int;
    lemma_add_mod_noop(x.0, y.0, p);
    lemma_add_mod_noop(x.1, y.1, p);
    lemma_add_mod_noop(x.0 % p, y.0, p);
    lemma_add_mod_noop(x.1 % p, y.1, p);
    lemma_mod_twice(x.0, p);
    lemma_mod_twice(x.1, p);
}

proof fn lemma_red_rsub(x: Fe, y: Fe)
    ensures
        red(rsub(red(x), y)) == red(rsub(x, y)),
        red(rsub(y, red(x))) == red(rsub(y, x)),
{
    let p = P as int;
    lemma_sub_mod_noop(x.0, y.0, p);
    lemma_sub_mod_noop(x.1, y.1, p);
    lemma_sub_mod_noop(x.0 % p, y.0, p);
    lemma_sub_mod_noop(x.1 % p, y.1, p);
    lemma_sub_mod_noop(y.0, x.0, p);
    lemma_sub_mod_noop(y.1, x.1, p);
    lemma_sub_mod_noop(y.0, x.0 % p, p);
    lemma_sub_mod_noop(y.1, x.1 % p, p);
    lemma_mod_twice(x.0, p);
    lemma_mod_twice(x.1, p);
}

proof fn lemma_lin_mod(a: int, b: int, c: int, d: int, k: int)
    ensures
        ((a % P as int) * b + k * ((c % P as int) * d)) % P as int == (a * b + k * (c * d)) % P as int,
{
    let p = P as int;
    let qa = a / p;
    let qc = c / p;
    assert(a == p * qa + a % p && c == p * qc + c % p);
    let t = qa * b + k * (qc * d);
    let ra = a % p;
    let rc = c % p;
    assert(a * b == p * (qa * b) + ra * b) by (nonlinear_arith)
        requires
            a == p * qa + ra,
    ;
    assert(c * d == p * (qc * d) + rc * d) by (nonlinear_arith)
        requires
            c == p * qc + rc,
    ;
    let m = qc * d;
    let u = rc * d;
    let cd = c * d;
    assert(k * cd == p * (k * m) + k * u) by (nonlinear_arith)
        requires
            cd == p * m + u,
    ;
    assert(p * (qa * b) + p * (k * m) == p * t) by (nonlinear_arith)
        requires
            t == qa * b + k * m,
    ;
    vstd::arithmetic::div_mod::lemma_mod_multiples_vanish(
        t,
        (a % p) * b + k * ((c % p) * d),
        p,
    );
}

proof fn lemma_red_rmul(x: Fe, y: Fe)
    ensures
        red(rmul(red(x), y)) == red(rmul(x, y)),
        red(rmul(y, red(x))) == red(rmul(y, x)),
{
    let p = P as int;
    lemma_lin_mod(x.0, y.0, x.1, y.1, 7);
    lemma_lin_mod(x.0, y.1, x.1, y.0, 1);
    lemma_rmul_comm(red(x), y);
    lemma_rmul_comm(x, y);
}

proof fn lemma_rmul_comm(x: Fe, y: Fe)
    ensures
        rmul(x, y) == rmul(y, x),
{
    assert(x.0 * y.0 == y.0 * x.0) by (nonlinear_arith);
    assert(x.1 * y.1 == y.1 * x.1) by (nonlinear_arith);
    assert(x.0 * y.1 == y.1 * x.0) by (nonlinear_arith);
    assert(x.1 * y.0 == y.0 * x.1) by (nonlinear_arith);
}

proof fn lemma_rmul_assoc(x: Fe, y: Fe, z: Fe)
    ensures
        rmul(rmul(x, y), z) == rmul(x, rmul(y, z)),
{
    let (a, b) = x;
    let (c, d) = y;
    let (e, f) = z;
    assert((a * c + 7 * (b * d)) * e == (a * c) * e + 7 * ((b * d) * e)) by (nonlinear_arith);
    assert((a * c + 7 * (b * d)) * f == (a * c) * f + 7 * ((b * d) * f)) by (nonlinear_arith);
    assert((a * d + b * c) * f == (a * d) * f + (b * c) * f) by (nonlinear_arith);
    assert((a * d + b * c) * e == (a * d) * e + (b * c) * e) by (nonlinear_arith);
    assert(a * (c * e + 7 * (d * f)) == a * (c * e) + 7 * (a * (d * f))) by (nonlinear_arith);
    assert(b * (c * e + 7 * (d * f)) == b * (c * e) + 7 * (b * (d * f))) by (nonlinear_arith);
    assert(a * (c * f + d * e) == a * (c * f) + a * (d * e)) by (nonlinear_arith);
    assert(b * (c * f + d * e) == b * (c * f) + b * (d * e)) by (nonlinear_arith);
    lemma_mul_is_associative(a, c, e);
    lemma_mul_is_associative(a, c, f);
    lemma_mul_is_associative(a, d, e);
    lemma_mul_is_associative(a, d, f);
    lemma_mul_is_associative(b, c, e);
    lemma_mul_is_associative(b, c, f);
    lemma_mul_is_associative(b, d, e);
    lemma_mul_is_associative(b, d, f);
}

proof fn lemma_rmul_dist(x: Fe, y: Fe, z: Fe)
    ensures
        rmul(x, radd(y, z)) == radd(rmul(x, y), rmul(x, z)),
        rmul(x, rsub(y, z)) == rsub(rmul(x, y), rmul(x, z)),
{
    let (a, b) = x;
    let (c, d) = y;
    let (e, f) = z;
    assert(a * (c + e) + 7 * (b * (d + f)) == (a * c + 7 * (b * d)) + (a * e + 7 * (b * f)))
        by (nonlinear_arith);
    assert(a * (d + f) + b * (c + e) == (a * d + b * c) + (a * f + b * e)) by (nonlinear_arith);
    assert(a * (c - e) + 7 * (b * (d - f)) == (a * c + 7 * (b * d)) - (a * e + 7 * (b * f)))
        by (nonlinear_arith);
    assert(a * (d - f) + b * (c - e) == (a * d + b * c) - (a * f + b * e)) by (nonlinear_arith);
}

pub proof fn lemma_fadd_comm(x: Fe, y: Fe)
    ensures
        fadd(x, y) == fadd(y, x),
{
    reveal(fadd);
}

pub proof fn lemma_fadd_assoc(x: Fe, y: Fe, z: Fe)
    ensures
        fadd(fadd(x, y), z) == fadd(x, fadd(y, z)),
{
    reveal(fadd);
    lemma_red_radd(radd(x, y), z);
    lemma_red_radd(radd(y, z), x);
    assert(radd(radd(x, y), z) == radd(x, radd(y, z)));
    assert(fadd(fadd(x, y), z) == red(radd(red(radd(x, y)), z)));
    assert(fadd(x, fadd(y, z)) == red(radd(x, red(radd(y, z)))));
}

pub proof fn lemma_fadd_zero(x: Fe)
    requires
        canon(x),
    ensures
        fadd(x, fzero()) == x,
        fadd(fzero(), x) == x,
        fsub(x, fzero()) == x,
        fsub(x, x) == fzero(),
{
    reveal(fadd);
    reveal(fsub);
    lemma_small_mod(x.0 as nat, P as nat);
    lemma_small_mod(x.1 as nat, P as nat);
}

pub proof fn lemma_fmul_comm(x: Fe, y: Fe)
    ensures
        fmul(x, y) == fmul(y, x),
{
    reveal(fmul);
    lemma_rmul_comm(x, y);
    assert(fmul(x, y) == red(rmul(x, y)));
    assert(fmul(y, x) == red(rmul(y, x)));
}

pub proof fn lemma_fmul_assoc(x: Fe, y: Fe, z: Fe)
    ensures
        fmul(fmul(x, y), z) == fmul(x, fmul(y, z)),
{
    reveal(fmul);
    lemma_red_rmul(rmul(x, y), z);
    lemma_red_rmul(rmul(y, z), x);
    lemma_rmul_assoc(x, y, z);
    assert(fmul(fmul(x, y), z) == red(rmul(red(rmul(x, y)), z)));
    assert(fmul(x, fmul(y, z)) == red(rmul(x, red(rmul(y, z)))));
}

pub proof fn lemma_fmul_dist(x: Fe, y: Fe, z: Fe)
    ensures
        fmul(x, fadd(y, z)) == fadd(fmul(x, y), fmul(x, z)),
        fmul(fadd(y, z), x) == fadd(fmul(y, x), fmul(z, x)),
        fmul(x, fsub(y, z)) == fsub(fmul(x, y), fmul(x, z)),
        fmul(fsub(y, z), x) == fsub(fmul(y, x), fmul(z, x)),
{
    reveal(fadd);
    reveal(fsub);
    reveal(fmul);
    lemma_fmul_comm(x, fadd(y, z));
    lemma_fmul_comm(x, fsub(y, z));
    lemma_fmul_comm(x, y);
    lemma_fmul_comm(x, z);
    lemma_red_rmul(radd(y, z), x);
    lemma_red_rmul(rsub(y, z), x);
    lemma_rmul_dist(x, y, z);
    lemma_red_radd(rmul(x, y), rmul(x, z));
    lemma_red_radd(rmul(x, z), red(rmul(x, y)));
    lemma_red_rsub(rmul(x, y), rmul(x, z));
    lemma_red_rsub(rmul(x, z), red(rmul(x, y)));
    assert(fmul(x, fadd(y, z)) == red(rmul(x, red(radd(y, z)))));
    assert(fmul(x, fsub(y, z)) == red(rmul(x, red(rsub(y, z)))));
    assert(fadd(fmul(x, y), fmul(x, z)) == red(radd(red(rmul(x, y)), red(rmul(x, z)))));
    assert(fsub(fmul(x, y), fmul(x, z)) == red(rsub(red(rmul(x, y)), red(rmul(x, z)))));
}

pub proof fn lemma_fmul_one(x: Fe)
    requires
        canon(x),
    ensures
        fmul(x, fone()) == x,
        fmul(fone(), x) == x,
{
    reveal(fmul);
    lemma_fmul_comm(x, fone());
    lemma_small_mod(x.0 as nat, P as nat);
    lemma_small_mod(x.1 as nat, P as nat);
    assert(x.0 * 1 + 7 * (x.1 * 0) == x.0);
    assert(x.0 * 0 + x.1 * 1 == x.1);
}

pub proof fn lemma_fmul_zero(x: Fe)
    ensures
        fmul(x, fzero()) == fzero(),
        fmul(fzero(), x) == fzero(),
{
    reveal(fmul);
    lemma_fmul_comm(x, fzero());
    assert(x.0 * 0 + 7 * (x.1 * 0) == 0);
    assert(x.0 * 0 + x.1 * 0 == 0);
}

/// Subtraction undoes addition.
pub proof fn lemma_fsub_fadd(x: Fe, y: Fe)
    requires
        canon(x),
    ensures
        fsub(fadd(x, y), y) == x,
        fadd(fsub(x, y), y) == x,
{
    reveal(fadd);
    reveal(fsub);
    lemma_red_rsub(radd(x, y), y);
    lemma_red_radd(rsub(x, y), y);
    lemma_small_mod(x.0 as nat, P as nat);
    lemma_small_mod(x.1 as nat, P as nat);
    assert(fsub(fadd(x, y), y) == red(rsub(red(radd(x, y)), y)));
    assert(fadd(fsub(x, y), y) == red(radd(red(rsub(x, y)), y)));
}

/// `fint` turns integer operations into field operations.
pub proof fn lemma_fint_hom(a: int, b: int)
    ensures
        fadd(fint(a), fint(b)) == fint(a + b),
        fsub(fint(a), fint(b)) == fint(a - b),
        fmul(fint(a), fint(b)) == fint(a * b),
        canon(fint(a)),
{
    reveal(fadd);
    reveal(fsub);
    reveal(fmul);
    let p = P as int;
    lemma_add_mod_noop(a, b, p);
    lemma_sub_mod_noop(a, b, p);
    vstd::arithmetic::div_mod::lemma_mul_mod_noop_general(a, b, p);
    assert((a % p) * 0 + 0 * (b % p) == 0) by (nonlinear_arith);
    assert((a % p) * (b % p) + 7 * (0 * 0) == (a % p) * (b % p)) by (nonlinear_arith);
}

/// A value of the extension field, kept with its least nonnegative coefficients.
#[derive(Debug, Clone, Copy, PartialEq, Eq, Structural)]
pub struct GoldilocksExt2 {
    c0: u64,
    c1: u64,
}

/// Addition of `BinomialExtensionField<Goldilocks, 2>`: coefficient by coefficient, modulo the
/// prime.
#[verifier::external_body]
fn p3_add(x: (u64, u64), y: (u64, u64)) -> (r: (u64, u64))
    requires
        x.0 < P && x.1 < P && y.0 < P && y.1 < P,
    ensures
        (r.0 as int, r.1 as int) == fadd((x.0 as int, x.1 as int), (y.0 as int, y.1 as int)),
{
    let a: [Goldilocks; 2] = [Goldilocks::from_canonical_u64(x.0), Goldilocks::from_canonical_u64(x.1)];
    let b: [Goldilocks; 2] = [Goldilocks::from_canonical_u64(y.0), Goldilocks::from_canonical_u64(y.1)];
    let s: BinomialExtensionField<Goldilocks, 2> = BinomialExtensionField::from_base_slice(&a)
        + BinomialExtensionField::from_base_slice(&b);
    let c: &[Goldilocks] = s.as_base_slice();
    (c[0].as_canonical_u64(), c[1].as_canonical_u64())
}

/// Subtraction of `BinomialExtensionField<Goldilocks, 2>`: coefficient by coefficient, modulo
/// the prime.
#[verifier::external_body]
fn p3_sub(x: (u64, u64), y: (u64, u64)) -> (r: (u64, u64))
    requires
        x.0 < P && x.1 < P && y.0 < P && y.1 < P,
    ensures
        (r.0 as int, r.1 as int) == fsub((x.0 as int, x.1 as int), (y.0 as int, y.1 as int)),
{
    let a: [Goldilocks; 2] = [Goldilocks::from_canonical_u64(x.0), Goldilocks::from_canonical_u64(x.1)];
    let b: [Goldilocks; 2] = [Goldilocks::from_canonical_u64(y.0), Goldilocks::from_canonical_u64(y.1)];
    let s: BinomialExtensionField<Goldilocks, 2> = BinomialExtensionField::from_base_slice(&a)
        - BinomialExtensionField::from_base_slice(&b);
    let c: &[Goldilocks] = s.as_base_slice();
    (c[0].as_canonical_u64(), c[1].as_canonical_u64())
}

/// Multiplication of `BinomialExtensionField<Goldilocks, 2>`: the product of two polynomials of
/// degree one, modulo `X * X - 7` and the prime.
#[verifier::external_body]
fn p3_mul(x: (u64, u64), y: (u64, u64)) -> (r: (u64, u64))
    requires
        x.0 < P && x.1 < P && y.0 < P && y.1 < P,
    ensures
        (r.0 as int, r.1 as int) == fmul((x.0 as int, x.1 as int), (y.0 as int, y.1 as int)),
{
    let a: [Goldilocks; 2] = [Goldilocks::from_canonical_u64(x.0), Goldilocks::from_canonical_u64(x.1)];
    let b: [Goldilocks; 2] = [Goldilocks::from_canonical_u64(y.0), Goldilocks::from_canonical_u64(y.1)];
    let s: BinomialExtensionField<Goldilocks, 2> = BinomialExtensionField::from_base_slice(&a)
        * BinomialExtensionField::from_base_slice(&b);
    let c: &[Goldilocks] = s.as_base_slice();
    (c[0].as_canonical_u64(), c[1].as_canonical_u64())
}

/// `Field::inverse` of `BinomialExtensionField<Goldilocks, 2>`: the element whose product with
/// `x` is one. It panics on zero.
#[verifier::external_body]
fn p3_inverse(x: (u64, u64)) -> (r: (u64, u64))
    requires
        x.0 < P && x.1 < P,
        x.0 != 0 || x.1 != 0,
    ensures
        r.0 < P && r.1 < P,
        fmul((x.0 as int, x.1 as int), (r.0 as int, r.1 as int)) == fone(),
{
    let a: [Goldilocks; 2] = [Goldilocks::from_canonical_u64(x.0), Goldilocks::from_canonical_u64(x.1)];
    let s: BinomialExtensionField<Goldilocks, 2> = BinomialExtensionField::from_base_slice(&a);
    let i: BinomialExtensionField<Goldilocks, 2> = s.inverse();
    let c: &[Goldilocks] = i.as_base_slice();
    (c[0].as_canonical_u64(), c[1].as_canonical_u64())
}

/// `Goldilocks::two_adic_generator(Goldilocks::TWO_ADICITY)`: the constant that generates the
/// subgroup of order `2^32`.
#[verifier::external_body]
fn p3_two_adic_generator() -> (r: u64)
    ensures
        r == TWO_ADIC_GENERATOR,
{
    Goldilocks::two_adic_generator(Goldilocks::TWO_ADICITY).as_canonical_u64()
}

/// Generator of the subgroup of order `2^32` of the Goldilocks field.
pub const TWO_ADIC_GENERATOR: u64 = 1753635133440165772;

impl GoldilocksExt2 {
    #[verifier::type_invariant]
    spec fn inv(self) -> bool {
        self.c0 < P && self.c1 < P
    }

    /// The element of the field that this value stands for.
    pub closed spec fn fe(self) -> Fe {
        red((self.c0 as int, self.c1 as int))
    }

    /// Zero.
    pub closed spec fn spec_zero() -> Self {
        GoldilocksExt2 { c0: 0, c1: 0 }
    }

    pub proof fn lemma_spec_zero()
        ensures
            Self::spec_zero().fe() == fzero(),
    {
    }

    pub fn zero() -> (r: Self)
        ensures
            r.fe() == fzero(),
            r == Self::spec_zero(),
    {
        GoldilocksExt2 { c0: 0, c1: 0 }
    }

    pub fn one() -> (r: Self)
        ensures
            r.fe() == fone(),
    {
        GoldilocksExt2 { c0: 1, c1: 0 }
    }

    /// The element of the base field with canonical representative `n`.
    pub fn from_canonical_u64(n: u64) -> (r: Self)
        requires
            n < P,
        ensures
            r.fe() == fint(n as int),
    {
        GoldilocksExt2 { c0: n, c1: 0 }
    }

    /// The element with the given canonical coefficients.
    pub fn from_bases(c0: u64, c1: u64) -> (r: Self)
        requires
            c0 < P,
            c1 < P,
        ensures
            r.fe() == (c0 as int, c1 as int),
    {
        proof {
            lemma_small_mod(c0 as nat, P as nat);
            lemma_small_mod(c1 as nat, P as nat);
        }
        GoldilocksExt2 { c0, c1 }
    }

    /// The canonical coefficients.
    pub fn to_canonical_u64_vec(&self) -> (r: (u64, u64))
        ensures
            self.fe() == (r.0 as int, r.1 as int),
            r.0 < P,
            r.1 < P,
    {
        proof {
            use_type_invariant(self);
            lemma_small_mod(self.c0 as nat, P as nat);
            lemma_small_mod(self.c1 as nat, P as nat);
        }
        (self.c0, self.c1)
    }

    pub fn plus(&self, other: &Self) -> (r: Self)
        ensures
            r.fe() == fadd(self.fe(), other.fe()),
    {
        let (x, y) = (self.to_canonical_u64_vec(), other.to_canonical_u64_vec());
        let s = p3_add(x, y);
        proof {
            lemma_ops_canon(self.fe(), other.fe());
        }
        Self::from_bases(s.0, s.1)
    }

    pub fn minus(&self, other: &Self) -> (r: Self)
        ensures
            r.fe() == fsub(self.fe(), other.fe()),
    {
        let (x, y) = (self.to_canonical_u64_vec(), other.to_canonical_u64_vec());
        let s = p3_sub(x, y);
        proof {
            lemma_ops_canon(self.fe(), other.fe());
        }
        Self::from_bases(s.0, s.1)
    }

    pub fn times(&self, other: &Self) -> (r: Self)
        ensures
            r.fe() == fmul(self.fe(), other.fe()),
    {
        let (x, y) = (self.to_canonical_u64_vec(), other.to_canonical_u64_vec());
        let s = p3_mul(x, y);
        proof {
            lemma_ops_canon(self.fe(), other.fe());
        }
        Self::from_bases(s.0, s.1)
    }

    /// The multiplicative inverse of an element other than zero.
    pub fn inverse(&self) -> (r: Self)
        requires
            self.fe() != fzero(),
        ensures
            fmul(self.fe(), r.fe()) == fone(),
    {
        let x = self.to_canonical_u64_vec();
        let s = p3_inverse(x);
        Self::from_bases(s.0, s.1)
    }

    /// Do the two values stand for the same element?
    pub fn same(&self, other: &Self) -> (r: bool)
        ensures
            r == (self.fe() == other.fe()),
    {
        let (x, y) = (self.to_canonical_u64_vec(), other.to_canonical_u64_vec());
        x.0 == y.0 && x.1 == y.1
    }

    /// The generator of the subgroup of order `2^32`.
    pub fn two_adic_generator() -> (r: Self)
        ensures
            r.fe() == fint(TWO_ADIC_GENERATOR as int),
    {
        Self::from_canonical_u64(p3_two_adic_generator())
    }
}

pub proof fn lemma_fe_canon(x: GoldilocksExt2)
    ensures
        canon(x.fe()),
{
}

/// The integer of least absolute value whose residue is `a`.
pub open spec fn centered(a: int) -> int {
    if a <= P / 2 {
        a
    } else {
        a - P
    }
}

/// A quantised value as a field element: negative numbers are counted down from the prime.
pub fn to_field(e: i64) -> (r: GoldilocksExt2)
    ensures
        r.fe() == fint(e as int),
{
    if e < 0 {
        let m: u64 = (0 - (e + 1)) as u64 + 1;
        proof {
            vstd::arithmetic::div_mod::lemma_mod_add_multiples_vanish(e as int, P as int);
            lemma_small_mod((P - m) as nat, P as nat);
        }
        GoldilocksExt2::from_canonical_u64(P - m)
    } else {
        GoldilocksExt2::from_canonical_u64(e as u64)
    }
}

/// The quantised value that a field element stands for.
pub fn to_element(x: &GoldilocksExt2) -> (r: i64)
    ensures
        r == centered(x.fe().0),
{
    let (a, b) = x.to_canonical_u64_vec();
    if a <= P / 2 {
        a as i64
    } else {
        0 - (P - a) as i64
    }
}

/// A quantised value of absolute value at most half the prime survives the way into the field
/// and back.
pub proof fn law_field_roundtrip(e: int)
    requires
        -(P / 2) <= e <= P / 2,
    ensures
        centered(fint(e).0) == e,
{
    if e < 0 {
        vstd::arithmetic::div_mod::lemma_mod_add_multiples_vanish(e, P as int);
        lemma_small_mod((e + P) as nat, P as nat);
    } else {
        lemma_small_mod(e as nat, P as nat);
    }
}

} // verus!

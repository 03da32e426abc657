//! The numbers that a tensor can hold.
use crate::field::{
    canon, fadd, fmul, fone, fsub, fzero, lemma_fadd_assoc, lemma_fadd_comm, lemma_fadd_zero, lemma_fe_canon,
    lemma_fmul_assoc, lemma_fmul_comm, lemma_fmul_dist, lemma_fmul_one, lemma_fmul_zero, lemma_ops_canon, Fe,
    GoldilocksExt2,
};
use std::cmp::Ordering;
use vstd::prelude::*;

verus! {

/// Quantised value of a model.
pub type Element = i64;

/// Numbers a tensor computes with.
///
/// `M` is the mathematical value of a number: the operations are stated on it, and `fits` says
/// which mathematical values the type can hold.
pub trait Number: Copy + Sized {
    type M;

    /// The mathematical value.
    spec fn value(self) -> Self::M;

    /// Can the type hold this value?
    spec fn fits(m: Self::M) -> bool;

    /// Is this a value of the domain that the laws speak of?
    spec fn m_valid(m: Self::M) -> bool;

    spec fn m_zero() -> Self::M;

    spec fn m_one() -> Self::M;

    spec fn m_add(a: Self::M, b: Self::M) -> Self::M;

    spec fn m_sub(a: Self::M, b: Self::M) -> Self::M;

    spec fn m_mul(a: Self::M, b: Self::M) -> Self::M;

    spec fn m_abs(a: Self::M) -> Self::M;

    /// The strict order that `compare` decides.
    spec fn m_lt(a: Self::M, b: Self::M) -> bool;

    /// The number zero.
    spec fn s_zero() -> Self;

    /// The least number, which `max_value` starts from.
    spec fn m_min() -> Self::M;

    /// The greatest number, which `min_value` starts from.
    spec fn m_max() -> Self::M;

    proof fn law_value(self)
        ensures
            Self::m_valid(self.value()),
            Self::fits(self.value()),
            Self::s_zero().value() == Self::m_zero(),
    ;

    proof fn law_closed(a: Self::M, b: Self::M)
        requires
            Self::m_valid(a),
            Self::m_valid(b),
        ensures
            Self::m_valid(Self::m_zero()),
            Self::m_valid(Self::m_one()),
            Self::m_valid(Self::m_add(a, b)),
            Self::m_valid(Self::m_sub(a, b)),
            Self::m_valid(Self::m_mul(a, b)),
    ;

    proof fn law_ring(a: Self::M, b: Self::M, c: Self::M)
        requires
            Self::m_valid(a),
            Self::m_valid(b),
            Self::m_valid(c),
        ensures
            Self::m_add(a, b) == Self::m_add(b, a),
            Self::m_add(Self::m_add(a, b), c) == Self::m_add(a, Self::m_add(b, c)),
            Self::m_add(a, Self::m_zero()) == a,
            Self::m_mul(a, b) == Self::m_mul(b, a),
            Self::m_mul(Self::m_mul(a, b), c) == Self::m_mul(a, Self::m_mul(b, c)),
            Self::m_mul(a, Self::m_one()) == a,
            Self::m_mul(a, Self::m_zero()) == Self::m_zero(),
            Self::m_mul(a, Self::m_add(b, c)) == Self::m_add(Self::m_mul(a, b), Self::m_mul(a, c)),
    ;

    proof fn law_order(a: Self::M, b: Self::M, c: Self::M)
        ensures
            !Self::m_lt(a, a),
            Self::m_lt(a, b) ==> !Self::m_lt(b, a),
            Self::m_lt(a, b) && Self::m_lt(b, c) ==> Self::m_lt(a, c),
            a == b || Self::m_lt(a, b) || Self::m_lt(b, a),
    ;

    /// No number is below the least.
    proof fn law_min(self)
        ensures
            !Self::m_lt(self.value(), Self::m_min()),
    ;

    fn zero() -> (r: Self)
        ensures
            r == Self::s_zero(),
            r.value() == Self::m_zero(),
    ;

    fn unit() -> (r: Self)
        ensures
            r.value() == Self::m_one(),
    ;

    fn min_number() -> (r: Self)
        ensures
            r.value() == Self::m_min(),
    ;

    fn max_number() -> (r: Self)
        ensures
            r.value() == Self::m_max(),
    ;

    fn plus(&self, other: &Self) -> (r: Self)
        requires
            Self::fits(Self::m_add(self.value(), other.value())),
        ensures
            r.value() == Self::m_add(self.value(), other.value()),
    ;

    fn minus(&self, other: &Self) -> (r: Self)
        requires
            Self::fits(Self::m_sub(self.value(), other.value())),
        ensures
            r.value() == Self::m_sub(self.value(), other.value()),
    ;

    fn times(&self, other: &Self) -> (r: Self)
        requires
            Self::fits(Self::m_mul(self.value(), other.value())),
        ensures
            r.value() == Self::m_mul(self.value(), other.value()),
    ;

    fn absolute_value(&self) -> (r: Self)
        requires
            Self::fits(Self::m_abs(self.value())),
        ensures
            r.value() == Self::m_abs(self.value()),
    ;

    fn same(&self, other: &Self) -> (r: bool)
        ensures
            r == (self.value() == other.value()),
    ;

    fn compare(&self, other: &Self) -> (r: Ordering)
        ensures
            r == Ordering::Less <==> Self::m_lt(self.value(), other.value()),
            r == Ordering::Greater <==> Self::m_lt(other.value(), self.value()),
            r == Ordering::Equal <==> self.value() == other.value(),
    ;

    /// The greater of the two, and `self` where neither is.
    fn cmp_max(&self, other: &Self) -> (r: Self)
        ensures
            r == (if Self::m_lt(self.value(), other.value()) {
                *other
            } else {
                *self
            }),
    {
        proof {
            Self::law_order(self.value(), other.value(), self.value());
        }
        match self.compare(other) {
            Ordering::Greater => *self,
            Ordering::Equal => *self,
            Ordering::Less => *other,
        }
    }

    /// The smaller of the two, and `self` where neither is.
    fn cmp_min(&self, other: &Self) -> (r: Self)
        ensures
            r == (if Self::m_lt(other.value(), self.value()) {
                *other
            } else {
                *self
            }),
    {
        proof {
            Self::law_order(self.value(), other.value(), self.value());
        }
        match self.compare(other) {
            Ordering::Greater => *other,
            Ordering::Equal => *self,
            Ordering::Less => *self,
        }
    }
}

/// `f(0) + f(1) + ... + f(n - 1)`.
pub open spec fn msum<T: Number>(n: nat, f: spec_fn(int) -> T::M) -> T::M
    decreases n,
{
    if n == 0 {
        T::m_zero()
    } else {
        T::m_add(msum::<T>((n - 1) as nat, f), f(n - 1))
    }
}

/// Every partial sum of `f(0) + f(1) + ... + f(n - 1)`, and every term, can be represented.
pub open spec fn sum_fits<T: Number>(n: nat, f: spec_fn(int) -> T::M) -> bool {
    forall|k: int|
        0 <= k < n ==> T::fits(#[trigger] f(k)) && T::fits(msum::<T>((k + 1) as nat, f))
}

pub proof fn lemma_msum_eq<T: Number>(n: nat, f: spec_fn(int) -> T::M, g: spec_fn(int) -> T::M)
    requires
        forall|i: int| 0 <= i < n ==> #[trigger] f(i) == g(i),
    ensures
        msum::<T>(n, f) == msum::<T>(n, g),
    decreases n,
{
    if n > 0 {
        lemma_msum_eq::<T>((n - 1) as nat, f, g);
        assert(f(n - 1) == g(n - 1));
    }
}

pub proof fn lemma_msum_valid<T: Number>(n: nat, f: spec_fn(int) -> T::M)
    requires
        forall|i: int| 0 <= i < n ==> T::m_valid(#[trigger] f(i)),
    ensures
        T::m_valid(msum::<T>(n, f)),
    decreases n,
{
    if n == 0 {
        T::s_zero().law_value();
    } else {
        lemma_msum_valid::<T>((n - 1) as nat, f);
        assert(T::m_valid(f(n - 1)));
        T::law_closed(msum::<T>((n - 1) as nat, f), f(n - 1));
    }
}

/// Terms that are zero from some place on do not count.
pub proof fn lemma_msum_truncate<T: Number>(n: nat, k: nat, f: spec_fn(int) -> T::M)
    requires
        k <= n,
        forall|i: int| 0 <= i < n ==> T::m_valid(#[trigger] f(i)),
        forall|i: int| k <= i < n ==> #[trigger] f(i) == T::m_zero(),
    ensures
        msum::<T>(n, f) == msum::<T>(k, f),
    decreases n,
{
    if k < n {
        let m = (n - 1) as nat;
        lemma_msum_truncate::<T>(m, k, f);
        assert(f(n - 1) == T::m_zero());
        assert(T::m_valid(f(n - 1)));
        lemma_msum_valid::<T>(m, f);
        let s = msum::<T>(m, f);
        T::law_ring(s, s, s);
    }
}

/// A sum of zeros is zero.
pub proof fn lemma_msum_zero<T: Number>(n: nat, f: spec_fn(int) -> T::M)
    requires
        forall|i: int| 0 <= i < n ==> #[trigger] f(i) == T::m_zero(),
    ensures
        msum::<T>(n, f) == T::m_zero(),
{
    T::s_zero().law_value();
    assert forall|i: int| 0 <= i < n implies T::m_valid(#[trigger] f(i)) by {
        T::law_closed(T::s_zero().value(), T::s_zero().value());
    }
    lemma_msum_truncate::<T>(n, 0, f);
}

/// A sum over `n + m` terms is the sum of the first `n` and of the last `m`.
pub proof fn lemma_msum_split<T: Number>(n: nat, m: nat, f: spec_fn(int) -> T::M)
    requires
        forall|i: int| 0 <= i < n + m ==> T::m_valid(#[trigger] f(i)),
    ensures
        msum::<T>(n + m, f) == T::m_add(msum::<T>(n, f), msum::<T>(m, |i: int| f(n + i))),
    decreases m,
{
    let g = |i: int| f(n + i);
    lemma_msum_valid::<T>(n, f);
    let a = msum::<T>(n, f);
    if m == 0 {
        T::law_ring(a, a, a);
    } else {
        let k = (m - 1) as nat;
        lemma_msum_split::<T>(n, k, f);
        assert forall|i: int| 0 <= i < m implies T::m_valid(#[trigger] g(i)) by {
            assert(T::m_valid(f(n + i)));
        }
        lemma_msum_valid::<T>(k, g);
        assert(T::m_valid(g(m - 1)));
        T::law_ring(a, msum::<T>(k, g), g(m - 1));
        assert(msum::<T>(n + m, f) == T::m_add(msum::<T>(n + k, f), f(n + m - 1)));
        assert(msum::<T>(m, g) == T::m_add(msum::<T>(k, g), g(m - 1)));
    }
}

/// A sum over the places of a grid is the sum over its rows of the sums along them.
pub proof fn lemma_msum_grid<T: Number>(a: nat, b: nat, f: spec_fn(int) -> T::M)
    requires
        forall|i: int| 0 <= i < a * b ==> T::m_valid(#[trigger] f(i)),
    ensures
        msum::<T>(a * b, f) == msum::<T>(a, |i: int| msum::<T>(b, |j: int| f(i * b + j))),
    decreases a,
{
    let rows = |i: int| msum::<T>(b, |j: int| f(i * b + j));
    if a == 0 {
        assert(a * b == 0) by (nonlinear_arith)
            requires
                a == 0,
        ;
    } else {
        let c = (a - 1) as nat;
        assert(a * b == c * b + b) by (nonlinear_arith)
            requires
                a == c + 1,
        ;
        lemma_msum_grid::<T>(c, b, f);
        lemma_msum_split::<T>(c * b, b, f);
        lemma_msum_eq::<T>(b, |i: int| f(c * b + i), |j: int| f((a - 1) * b + j));
        assert(msum::<T>(a, rows) == T::m_add(msum::<T>(c, rows), rows(a - 1)));
    }
}

/// `a` where it is at least `b`, and `b` otherwise.
pub open spec fn greater_of<T: Number>(a: T, b: T) -> T {
    if T::m_lt(a.value(), b.value()) {
        b
    } else {
        a
    }
}

/// `a` where it is at most `b`, and `b` otherwise.
pub open spec fn lesser_of<T: Number>(a: T, b: T) -> T {
    if T::m_lt(b.value(), a.value()) {
        b
    } else {
        a
    }
}

pub(crate) fn larger<T: Number>(a: &T, b: &T) -> (r: T)
    ensures
        r == greater_of(*a, *b),
{
    a.cmp_max(b)
}

pub(crate) fn smaller<T: Number>(a: &T, b: &T) -> (r: T)
    ensures
        r == lesser_of(*a, *b),
{
    a.cmp_min(b)
}

pub(crate) fn is_less<T: Number>(a: &T, b: &T) -> (r: bool)
    ensures
        r == T::m_lt(a.value(), b.value()),
{
    match a.compare(b) {
        Ordering::Less => true,
        _ => false,
    }
}

impl Number for i64 {
    type M = int;

    open spec fn value(self) -> int {
        self as int
    }

    open spec fn fits(m: int) -> bool {
        i64::MIN <= m <= i64::MAX
    }

    open spec fn m_valid(m: int) -> bool {
        true
    }

    open spec fn m_zero() -> int {
        0
    }

    open spec fn m_one() -> int {
        1
    }

    open spec fn m_add(a: int, b: int) -> int {
        a + b
    }

    open spec fn m_sub(a: int, b: int) -> int {
        a - b
    }

    open spec fn m_mul(a: int, b: int) -> int {
        a * b
    }

    open spec fn m_abs(a: int) -> int {
        if a < 0 {
            -a
        } else {
            a
        }
    }

    open spec fn m_lt(a: int, b: int) -> bool {
        a < b
    }

    open spec fn s_zero() -> i64 {
        0
    }

    open spec fn m_min() -> int {
        i64::MIN as int
    }

    open spec fn m_max() -> int {
        i64::MAX as int
    }

    proof fn law_value(self) {
    }

    proof fn law_closed(a: int, b: int) {
    }

    proof fn law_ring(a: int, b: int, c: int) {
        assert(a * b == b * a) by (nonlinear_arith);
        assert((a * b) * c == a * (b * c)) by (nonlinear_arith);
        assert(a * (b + c) == a * b + a * c) by (nonlinear_arith);
    }

    proof fn law_order(a: int, b: int, c: int) {
    }

    proof fn law_min(self) {
    }

    fn zero() -> (r: Self) {
        0
    }

    fn unit() -> (r: Self) {
        1
    }

    fn min_number() -> (r: Self) {
        i64::MIN
    }

    fn max_number() -> (r: Self) {
        i64::MAX
    }

    fn plus(&self, other: &Self) -> (r: Self) {
        *self + *other
    }

    fn minus(&self, other: &Self) -> (r: Self) {
        *self - *other
    }

    fn times(&self, other: &Self) -> (r: Self) {
        *self * *other
    }

    fn absolute_value(&self) -> (r: Self) {
        if *self < 0 {
            -*self
        } else {
            *self
        }
    }

    fn same(&self, other: &Self) -> (r: bool) {
        *self == *other
    }

    fn compare(&self, other: &Self) -> (r: Ordering) {
        if *self < *other {
            Ordering::Less
        } else if *self == *other {
            Ordering::Equal
        } else {
            Ordering::Greater
        }
    }
}

impl Number for GoldilocksExt2 {
    type M = Fe;

    open spec fn value(self) -> Fe {
        self.fe()
    }

    open spec fn fits(m: Fe) -> bool {
        true
    }

    open spec fn m_valid(m: Fe) -> bool {
        canon(m)
    }

    open spec fn m_zero() -> Fe {
        fzero()
    }

    open spec fn m_one() -> Fe {
        fone()
    }

    open spec fn m_add(a: Fe, b: Fe) -> Fe {
        fadd(a, b)
    }

    open spec fn m_sub(a: Fe, b: Fe) -> Fe {
        fsub(a, b)
    }

    open spec fn m_mul(a: Fe, b: Fe) -> Fe {
        fmul(a, b)
    }

    open spec fn m_abs(a: Fe) -> Fe {
        a
    }

    /// The coefficients are compared one after the other.
    open spec fn m_lt(a: Fe, b: Fe) -> bool {
        a.0 < b.0 || (a.0 == b.0 && a.1 < b.1)
    }

    open spec fn s_zero() -> GoldilocksExt2 {
        GoldilocksExt2::spec_zero()
    }

    open spec fn m_min() -> Fe {
        fzero()
    }

    open spec fn m_max() -> Fe {
        fzero()
    }

    proof fn law_value(self) {
        lemma_fe_canon(self);
        GoldilocksExt2::lemma_spec_zero();
    }

    proof fn law_closed(a: Fe, b: Fe) {
        lemma_ops_canon(a, b);
    }

    proof fn law_ring(a: Fe, b: Fe, c: Fe) {
        lemma_fadd_comm(a, b);
        lemma_fadd_assoc(a, b, c);
        lemma_fadd_zero(a);
        lemma_fmul_comm(a, b);
        lemma_fmul_assoc(a, b, c);
        lemma_fmul_one(a);
        lemma_fmul_zero(a);
        lemma_fmul_dist(a, b, c);
    }

    proof fn law_order(a: Fe, b: Fe, c: Fe) {
    }

    proof fn law_min(self) {
        lemma_fe_canon(self);
    }

    fn zero() -> (r: Self) {
        GoldilocksExt2::zero()
    }

    fn unit() -> (r: Self) {
        GoldilocksExt2::one()
    }

    fn min_number() -> (r: Self) {
        GoldilocksExt2::zero()
    }

    fn max_number() -> (r: Self) {
        GoldilocksExt2::zero()
    }

    fn plus(&self, other: &Self) -> (r: Self) {
        GoldilocksExt2::plus(self, other)
    }

    fn minus(&self, other: &Self) -> (r: Self) {
        GoldilocksExt2::minus(self, other)
    }

    fn times(&self, other: &Self) -> (r: Self) {
        GoldilocksExt2::times(self, other)
    }

    fn absolute_value(&self) -> (r: Self) {
        *self
    }

    fn same(&self, other: &Self) -> (r: bool) {
        GoldilocksExt2::same(self, other)
    }

    fn compare(&self, other: &Self) -> (r: Ordering) {
        let (a, b) = (self.to_canonical_u64_vec(), other.to_canonical_u64_vec());
        if a.0 < b.0 || (a.0 == b.0 && a.1 < b.1) {
            Ordering::Less
        } else if a.0 == b.0 && a.1 == b.1 {
            Ordering::Equal
        } else {
            Ordering::Greater
        }
    }
}

} // verus!

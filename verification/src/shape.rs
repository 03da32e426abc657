//! Shapes of tensors and row major addressing.
use crate::arith::{clog2, is_pow2, lemma_grid_bound, lemma_grid_digits, lemma_grid_split, npot};
use crate::arith;
use vstd::prelude::*;

verus! {

/// The number of positions of a shape.
pub open spec fn prod(s: Seq<usize>) -> nat
    decreases s.len(),
{
    if s.len() == 0 {
        1
    } else {
        s[0] as nat * prod(s.skip(1))
    }
}

/// `c` addresses a position of the shape `s`.
pub open spec fn in_bounds(s: Seq<usize>, c: Seq<int>) -> bool {
    c.len() == s.len() && forall|i: int| 0 <= i < s.len() ==> 0 <= #[trigger] c[i] < s[i]
}

/// The place of position `c` in row major order.
pub open spec fn flat(s: Seq<usize>, c: Seq<int>) -> int
    decreases s.len(),
{
    if s.len() == 0 {
        0
    } else {
        c[0] * prod(s.skip(1)) + flat(s.skip(1), c.skip(1))
    }
}

/// The position that stands at place `p` in row major order.
pub open spec fn coords(s: Seq<usize>, p: int) -> Seq<int>
    decreases s.len(),
{
    if s.len() == 0 {
        Seq::empty()
    } else {
        let rest = prod(s.skip(1)) as int;
        seq![p / rest] + coords(s.skip(1), p % rest)
    }
}

/// `p` lists the dimensions of `s` rounded up to powers of two.
pub open spec fn is_npot_of(p: Seq<usize>, s: Seq<usize>) -> bool {
    p.len() == s.len() && forall|i: int| 0 <= i < s.len() ==> #[trigger] p[i] == npot(s[i] as nat)
}

/// No dimension is zero.
pub open spec fn nonzero(s: Seq<usize>) -> bool {
    forall|i: int| 0 <= i < s.len() ==> #[trigger] s[i] > 0
}

pub proof fn lemma_prod_zero(s: Seq<usize>, i: int)
    requires
        0 <= i < s.len(),
        s[i] == 0,
    ensures
        prod(s) == 0,
    decreases s.len(),
{
    if i == 0 {
        assert(0 * prod(s.skip(1)) == 0);
    } else {
        lemma_prod_zero(s.skip(1), i - 1);
        assert(s[0] as nat * 0 == 0);
    }
}

pub proof fn lemma_prod_positive(s: Seq<usize>)
    requires
        nonzero(s),
    ensures
        prod(s) >= 1,
    decreases s.len(),
{
    if s.len() > 0 {
        assert forall|i: int| 0 <= i < s.skip(1).len() implies #[trigger] s.skip(1)[i] > 0 by {
            assert(s[i + 1] > 0);
        }
        lemma_prod_positive(s.skip(1));
        let a = s[0] as nat;
        let b = prod(s.skip(1));
        assert(a * b >= 1) by (nonlinear_arith)
            requires
                a >= 1,
                b >= 1,
        ;
    }
}

pub proof fn lemma_prod_append(a: Seq<usize>, b: Seq<usize>)
    ensures
        prod(a + b) == prod(a) * prod(b),
    decreases a.len(),
{
    if a.len() == 0 {
        assert(a + b =~= b);
        assert(1 * prod(b) == prod(b));
    } else {
        assert((a + b).skip(1) =~= a.skip(1) + b);
        lemma_prod_append(a.skip(1), b);
        let x = a[0] as nat;
        let y = prod(a.skip(1));
        let z = prod(b);
        assert(x * (y * z) == (x * y) * z) by (nonlinear_arith);
    }
}

pub proof fn lemma_prod1(a: usize)
    ensures
        prod(seq![a]) == a,
{
    let s = seq![a];
    assert(s.skip(1) =~= Seq::<usize>::empty());
    assert(prod(Seq::<usize>::empty()) == 1);
    assert(a as nat * 1 == a);
}

pub proof fn lemma_prod2(a: usize, b: usize)
    ensures
        prod(seq![a, b]) == a * b,
{
    let s = seq![a, b];
    assert(s.skip(1) =~= seq![b]);
    lemma_prod1(b);
}

pub proof fn lemma_prod3(a: usize, b: usize, c: usize)
    ensures
        prod(seq![a, b, c]) == a * (b * c),
        prod(seq![a, b, c]) == a * b * c,
{
    let s = seq![a, b, c];
    assert(s.skip(1) =~= seq![b, c]);
    lemma_prod2(b, c);
    assert(a * (b * c) == a * b * c) by (nonlinear_arith);
}

pub proof fn lemma_prod4(a: usize, b: usize, c: usize, d: usize)
    ensures
        prod(seq![a, b, c, d]) == a * (b * (c * d)),
        prod(seq![a, b, c, d]) == a * b * c * d,
{
    let s = seq![a, b, c, d];
    assert(s.skip(1) =~= seq![b, c, d]);
    lemma_prod3(b, c, d);
    assert(a * (b * (c * d)) == a * b * c * d) by (nonlinear_arith);
}

/// A shape of rank two is the list of its two dimensions, and so on.
pub proof fn lemma_prod_of_rank(s: Seq<usize>)
    ensures
        s.len() == 1 ==> prod(s) == s[0],
        s.len() == 2 ==> prod(s) == s[0] * s[1],
        s.len() == 3 ==> prod(s) == s[0] * (s[1] * s[2]),
        s.len() == 4 ==> prod(s) == s[0] * (s[1] * (s[2] * s[3])),
{
    if s.len() == 1 {
        assert(s =~= seq![s[0]]);
        lemma_prod1(s[0]);
    } else if s.len() == 2 {
        assert(s =~= seq![s[0], s[1]]);
        lemma_prod2(s[0], s[1]);
    } else if s.len() == 3 {
        assert(s =~= seq![s[0], s[1], s[2]]);
        lemma_prod3(s[0], s[1], s[2]);
    } else if s.len() == 4 {
        assert(s =~= seq![s[0], s[1], s[2], s[3]]);
        lemma_prod4(s[0], s[1], s[2], s[3]);
    }
}

/// A suffix of a shape without zeros has at most as many positions as the shape.
pub proof fn lemma_prod_suffix(s: Seq<usize>, k: int)
    requires
        0 <= k <= s.len(),
        nonzero(s),
    ensures
        prod(s.skip(k)) <= prod(s),
        prod(s.take(k)) <= prod(s),
{
    assert(s =~= s.take(k) + s.skip(k));
    lemma_prod_append(s.take(k), s.skip(k));
    lemma_prod_positive(s.take(k));
    lemma_prod_positive(s.skip(k));
    let a = prod(s.take(k));
    let b = prod(s.skip(k));
    assert(b <= a * b && a <= a * b) by (nonlinear_arith)
        requires
            a >= 1,
            b >= 1,
    ;
}

/// A position is a place below the number of positions.
pub proof fn lemma_flat_bound(s: Seq<usize>, c: Seq<int>)
    requires
        in_bounds(s, c),
    ensures
        0 <= flat(s, c) < prod(s),
    decreases s.len(),
{
    if s.len() > 0 {
        assert(in_bounds(s.skip(1), c.skip(1)));
        lemma_flat_bound(s.skip(1), c.skip(1));
        lemma_grid_bound(c[0], s[0] as int, flat(s.skip(1), c.skip(1)), prod(s.skip(1)) as int);
    }
}

/// Places and positions correspond one to one.
pub proof fn lemma_coords_flat(s: Seq<usize>, c: Seq<int>)
    requires
        in_bounds(s, c),
    ensures
        coords(s, flat(s, c)) == c,
    decreases s.len(),
{
    if s.len() > 0 {
        let rest = prod(s.skip(1)) as int;
        assert(in_bounds(s.skip(1), c.skip(1)));
        lemma_coords_flat(s.skip(1), c.skip(1));
        lemma_flat_bound(s.skip(1), c.skip(1));
        lemma_grid_digits(c[0], flat(s.skip(1), c.skip(1)), rest);
        assert(seq![c[0]] + c.skip(1) =~= c);
    } else {
        assert(c =~= Seq::<int>::empty());
    }
}

/// Places and positions correspond one to one.
pub proof fn lemma_flat_coords(s: Seq<usize>, p: int)
    requires
        0 <= p < prod(s),
    ensures
        in_bounds(s, coords(s, p)),
        flat(s, coords(s, p)) == p,
    decreases s.len(),
{
    if s.len() > 0 {
        let rest = prod(s.skip(1)) as int;
        if rest == 0 {
            assert(s[0] as nat * 0 == 0);
            assert(false);
        }
        lemma_grid_split(p, s[0] as int, rest);
        lemma_flat_coords(s.skip(1), p % rest);
        let c = coords(s, p);
        let d = coords(s.skip(1), p % rest);
        assert(c.skip(1) =~= d);
        assert forall|i: int| 0 <= i < s.len() implies 0 <= #[trigger] c[i] < s[i] by {
            if i > 0 {
                assert(c[i] == d[i - 1]);
                assert(s.skip(1)[i - 1] == s[i]);
            }
        }
    }
}

/// The place of a position whose leading and trailing parts are given.
pub proof fn lemma_flat_append(a: Seq<usize>, b: Seq<usize>, c: Seq<int>, d: Seq<int>)
    requires
        a.len() == c.len(),
        b.len() == d.len(),
    ensures
        flat(a + b, c + d) == flat(a, c) * prod(b) + flat(b, d),
    decreases a.len(),
{
    if a.len() == 0 {
        assert(a + b =~= b);
        assert(c + d =~= d);
        assert(0 * prod(b) == 0);
    } else {
        assert((a + b).skip(1) =~= a.skip(1) + b);
        assert((c + d).skip(1) =~= c.skip(1) + d);
        lemma_flat_append(a.skip(1), b, c.skip(1), d);
        lemma_prod_append(a.skip(1), b);
        let (x, y, z, f) = (c[0], prod(a.skip(1)) as int, prod(b) as int, flat(a.skip(1), c.skip(1)));
        assert(x * (y * z) + f * z == (x * y + f) * z) by (nonlinear_arith);
    }
}

/// The shape of a tensor.
#[derive(Debug, PartialEq, Eq)]
pub struct Shape(pub Vec<usize>);

impl View for Shape {
    type V = Seq<usize>;

    open spec fn view(&self) -> Seq<usize> {
        self.0@
    }
}

impl Clone for Shape {
    fn clone(&self) -> (r: Self)
        ensures
            r@ == self@,
    {
        let r = Shape(self.0.clone());
        proof {
            assert(r@ =~= self@);
        }
        r
    }
}

impl From<Vec<usize>> for Shape {
    fn from(v: Vec<usize>) -> (r: Self) {
        Shape(v)
    }
}

impl vstd::std_specs::convert::FromSpecImpl<Vec<usize>> for Shape {
    open spec fn obeys_from_spec() -> bool {
        true
    }

    open spec fn from_spec(v: Vec<usize>) -> Self {
        Shape(v)
    }
}

/// A copy of the numbers in a slice.
pub(crate) fn usize_vec(s: &[usize]) -> (r: Vec<usize>)
    ensures
        r@ == s@,
{
    let mut r: Vec<usize> = Vec::with_capacity(s.len());
    let mut i: usize = 0;
    while i < s.len()
        invariant
            i <= s.len(),
            r@ == s@.take(i as int),
        decreases s.len() - i,
    {
        r.push(s[i]);
        i = i + 1;
        proof {
            assert(s@.take(i as int) =~= s@.take(i - 1).push(s@[i - 1]));
        }
    }
    proof {
        assert(s@.take(s@.len() as int) =~= s@);
    }
    r
}

impl Shape {
    /// The shape with the given dimensions.
    pub fn from_it(dims: &[usize]) -> (r: Self)
        ensures
            r@ == dims@,
    {
        Shape(usize_vec(dims))
    }

    /// The shape with the given dimensions, of which there is at least one.
    pub fn new(shape: Vec<usize>) -> (r: Self)
        requires
            shape.len() > 0,
        ensures
            r@ == shape@,
    {
        Shape(shape)
    }

    /// The dimensions `start..end`.
    pub fn slice(&self, start: usize, end: usize) -> (r: Shape)
        requires
            start <= end <= self@.len(),
        ensures
            r@ == self@.subrange(start as int, end as int),
    {
        let mut v: Vec<usize> = Vec::with_capacity(end - start);
        let mut i: usize = start;
        while i < end
            invariant
                start <= i <= end <= self@.len(),
                v@ == self@.subrange(start as int, i as int),
            decreases end - i,
        {
            v.push(self.0[i]);
            i = i + 1;
            proof {
                assert(self@.subrange(start as int, i as int) =~= self@.subrange(
                    start as int,
                    i - 1,
                ).push(self@[i - 1]));
            }
        }
        Shape(v)
    }

    /// The size of a dimension.
    pub fn dim(&self, index: usize) -> (r: usize)
        requires
            index < self@.len(),
        ensures
            r == self@[index as int],
    {
        self.0[index]
    }

    /// The shape with a further dimension of size one at `index`.
    pub fn unsqueeze(&self, index: usize) -> (r: Self)
        requires
            index <= self@.len(),
        ensures
            r@ == self@.insert(index as int, 1),
    {
        self.insert(index, 1)
    }

    /// The distance between neighbours along each dimension, in row major order.
    pub fn strides(&self) -> (r: Vec<usize>)
        requires
            forall|k: int| 0 <= k < self@.len() ==> #[trigger] prod(self@.skip(k)) <= usize::MAX,
        ensures
            r.len() == self@.len(),
            forall|i: int| 0 <= i < r.len() ==> #[trigger] r[i] == prod(self@.skip(i + 1)),
    {
        let n = self.0.len();
        let mut r: Vec<usize> = Vec::with_capacity(n);
        let mut k: usize = 0;
        while k < n
            invariant
                k <= n,
                n == self@.len(),
                r.len() == k,
            decreases n - k,
        {
            r.push(1);
            k = k + 1;
        }
        let mut i: usize = n;
        let mut state: usize = 1;
        proof {
            assert(self@.skip(n as int) =~= Seq::<usize>::empty());
        }
        while i > 0
            invariant
                i <= n,
                n == self@.len(),
                r.len() == n,
                state == prod(self@.skip(i as int)),
                forall|k: int| 0 <= k < n ==> #[trigger] prod(self@.skip(k)) <= usize::MAX,
                forall|j: int| i <= j < n ==> #[trigger] r[j] == prod(self@.skip(j + 1)),
            decreases i,
        {
            i = i - 1;
            r.set(i, state);
            proof {
                let s = self@.skip(i as int);
                assert(s.skip(1) =~= self@.skip(i + 1));
                assert(s[0] == self@[i as int]);
                assert(prod(s) == self@[i as int] as nat * state);
                assert(state * self@[i as int] == self@[i as int] * state) by (nonlinear_arith);
                assert(prod(self@.skip(i as int)) <= usize::MAX);
            }
            state = state * self.0[i];
        }
        r
    }

    /// The shape with a further dimension of size `value` at `index`.
    pub fn insert(&self, index: usize, value: usize) -> (r: Self)
        requires
            index <= self@.len(),
        ensures
            r@ == self@.insert(index as int, value),
    {
        let mut v = usize_vec(&self.0);
        v.insert(index, value);
        Shape(v)
    }

    /// The shape whose dimension `i` is the dimension `permutation[i]` of this one.
    pub fn permute(&self, permutation: &[usize]) -> (r: Self)
        requires
            forall|i: int| 0 <= i < permutation@.len() ==> #[trigger] permutation@[i] < self@.len(),
        ensures
            r@ == permutation@.map_values(|p: usize| self@[p as int]),
    {
        let mut v: Vec<usize> = Vec::with_capacity(permutation.len());
        let mut i: usize = 0;
        while i < permutation.len()
            invariant
                i <= permutation@.len(),
                v.len() == i,
                forall|j: int|
                    0 <= j < permutation@.len() ==> #[trigger] permutation@[j] < self@.len(),
                forall|j: int| 0 <= j < i ==> #[trigger] v[j] == self@[permutation@[j] as int],
            decreases permutation@.len() - i,
        {
            v.push(self.0[permutation[i]]);
            i = i + 1;
        }
        proof {
            assert(v@ =~= permutation@.map_values(|p: usize| self@[p as int]));
        }
        Shape(v)
    }

    /// The shape with every dimension rounded up to a power of two.
    pub fn next_power_of_two(&self) -> (r: Self)
        requires
            forall|i: int| 0 <= i < self@.len() ==> npot(#[trigger] self@[i] as nat) <= usize::MAX,
        ensures
            is_npot_of(r@, self@),
    {
        let mut v: Vec<usize> = Vec::with_capacity(self.0.len());
        let mut i: usize = 0;
        while i < self.0.len()
            invariant
                i <= self@.len(),
                v.len() == i,
                forall|i: int|
                    0 <= i < self@.len() ==> npot(#[trigger] self@[i] as nat) <= usize::MAX,
                forall|j: int| 0 <= j < i ==> #[trigger] v[j] == npot(self@[j] as nat),
            decreases self@.len() - i,
        {
            proof {
                assert(npot(self@[i as int] as nat) <= usize::MAX);
            }
            v.push(arith::next_power_of_two(self.0[i]));
            i = i + 1;
        }
        Shape(v)
    }

    /// The dimensions of this shape followed by those of the other.
    pub fn concat(&self, other: &Self) -> (r: Self)
        ensures
            r@ == self@ + other@,
    {
        let mut v = usize_vec(&self.0);
        let mut o = usize_vec(&other.0);
        v.append(&mut o);
        Shape(v)
    }

    pub fn into_vec(self) -> (r: Vec<usize>)
        ensures
            r@ == self@,
    {
        self.0
    }

    /// The number of dimensions.
    pub fn rank(&self) -> (r: usize)
        ensures
            r == self@.len(),
    {
        self.0.len()
    }

    pub fn is_matrix(&self) -> (r: bool)
        ensures
            r == (self@.len() == 2),
    {
        self.0.len() == 2
    }

    /// The number of columns of a matrix.
    pub fn ncols(&self) -> (r: usize)
        requires
            self@.len() == 2,
        ensures
            r == self@[1],
    {
        self.0[1]
    }

    /// The number of rows of a matrix.
    pub fn nrows(&self) -> (r: usize)
        requires
            self@.len() == 2,
        ensures
            r == self@[0],
    {
        self.0[0]
    }

    /// The number of bits of an entry of the product of a matrix of this shape with another,
    /// one more for the sign included. A range that is not given is that of `bit_len` bits.
    pub fn matmul_output_bitsize(
        &self,
        quantized_self_input_range: Option<usize>,
        quantized_other_input_range: Option<usize>,
        bit_len: usize,
    ) -> (r: usize)
        requires
            self@.len() == 2,
            1 <= bit_len <= 64,
        ensures
            r == (match quantized_self_input_range {
                Some(range) => clog2(range as nat) as int,
                None => bit_len - 1,
            }) + (match quantized_other_input_range {
                Some(range) => clog2(range as nat) as int,
                None => bit_len - 1,
            }) + clog2(self@[1] as nat) + 1,
    {
        let a: usize = match quantized_self_input_range {
            Some(range) => arith::ceil_log2(range),
            None => bit_len - 1,
        };
        let b: usize = match quantized_other_input_range {
            Some(range) => arith::ceil_log2(range),
            None => bit_len - 1,
        };
        a + b + arith::ceil_log2(self.ncols()) + 1
    }

    /// Is every dimension a power of two?
    pub fn is_power_of_two(&self) -> (r: bool)
        ensures
            r == (forall|i: int| 0 <= i < self@.len() ==> is_pow2(#[trigger] self@[i] as int)),
    {
        let mut i: usize = 0;
        while i < self.0.len()
            invariant
                i <= self@.len(),
                forall|j: int| 0 <= j < i ==> is_pow2(#[trigger] self@[j] as int),
            decreases self@.len() - i,
        {
            if !arith::is_power_of_two(self.0[i]) {
                proof {
                    assert(!is_pow2(self@[i as int] as int));
                }
                return false;
            }
            i = i + 1;
        }
        true
    }

    /// The number of positions, where it can be held.
    pub fn checked_product(&self) -> (r: Option<usize>)
        ensures
            match r {
                Some(n) => n == prod(self@),
                None => prod(self@) > usize::MAX,
            },
    {
        let n = self.0.len();
        let mut z: usize = 0;
        while z < n
            invariant
                z <= n,
                n == self@.len(),
                forall|j: int| 0 <= j < z ==> #[trigger] self@[j] > 0,
            decreases n - z,
        {
            if self.0[z] == 0 {
                proof {
                    lemma_prod_zero(self@, z as int);
                }
                return Some(0);
            }
            z = z + 1;
        }
        let mut r: usize = 1;
        let mut i: usize = n;
        proof {
            assert(self@.skip(n as int) =~= Seq::<usize>::empty());
        }
        while i > 0
            invariant
                i <= n,
                n == self@.len(),
                nonzero(self@),
                r == prod(self@.skip(i as int)),
            decreases i,
        {
            i = i - 1;
            proof {
                let s = self@.skip(i as int);
                assert(s.skip(1) =~= self@.skip(i + 1));
                lemma_prod_suffix(self@, i as int);
                assert(r * self@[i as int] == self@[i as int] as nat * r) by (nonlinear_arith);
            }
            match r.checked_mul(self.0[i]) {
                Some(x) => {
                    r = x;
                },
                None => {
                    return None;
                },
            }
        }
        proof {
            assert(self@.skip(0) =~= self@);
        }
        Some(r)
    }

    /// The number of positions.
    pub fn product(&self) -> (r: usize)
        requires
            prod(self@) <= usize::MAX,
        ensures
            r == prod(self@),
    {
        self.checked_product().unwrap()
    }

    /// The number of positions.
    pub fn numel(&self) -> (r: usize)
        requires
            prod(self@) <= usize::MAX,
        ensures
            r == prod(self@),
    {
        self.product()
    }

    /// Do the two shapes have the same dimensions?
    pub fn same(&self, other: &Self) -> (r: bool)
        ensures
            r == (self@ == other@),
    {
        if self.0.len() != other.0.len() {
            return false;
        }
        let mut i: usize = 0;
        while i < self.0.len()
            invariant
                i <= self@.len(),
                self@.len() == other@.len(),
                forall|j: int| 0 <= j < i ==> self@[j] == other@[j],
            decreases self@.len() - i,
        {
            if self.0[i] != other.0[i] {
                return false;
            }
            i = i + 1;
        }
        proof {
            assert(self@ =~= other@);
        }
        true
    }
}

/// The shapes are those of the other list.
pub open spec fn same_shapes(a: Seq<Shape>, b: Seq<Shape>) -> bool {
    a.len() == b.len() && forall|i: int| 0 <= i < a.len() ==> (#[trigger] a[i])@ == b[i]@
}

pub(crate) fn copy_shapes(shapes: &[Shape]) -> (r: Vec<Shape>)
    ensures
        same_shapes(r@, shapes@),
{
    let mut r: Vec<Shape> = Vec::with_capacity(shapes.len());
    let mut i: usize = 0;
    while i < shapes.len()
        invariant
            i <= shapes@.len(),
            r@.len() == i,
            forall|j: int| 0 <= j < i ==> (#[trigger] r@[j])@ == shapes@[j]@,
        decreases shapes@.len() - i,
    {
        r.push(shapes[i].clone());
        i = i + 1;
    }
    r
}

/// The dimension that two dimensions broadcast to, where they do.
pub open spec fn broadcast_dim(a: usize, b: usize) -> Option<usize> {
    if a == 1 {
        Some(b)
    } else if b == 1 {
        Some(a)
    } else if a == b {
        Some(a)
    } else {
        None
    }
}

/// Dimension `i` of the shape `s`, brought to rank `n` by dimensions of size one in front.
pub open spec fn padded_dim(s: Seq<usize>, n: nat, i: int) -> usize {
    if i < n - s.len() {
        1
    } else {
        s[i - (n - s.len())]
    }
}

pub open spec fn max_rank(a: Seq<usize>, b: Seq<usize>) -> nat {
    if a.len() < b.len() {
        b.len()
    } else {
        a.len()
    }
}

/// `s` is the shape that `a` and `b` broadcast to.
pub open spec fn is_broadcast(s: Seq<usize>, a: Seq<usize>, b: Seq<usize>) -> bool {
    let n = max_rank(a, b);
    &&& s.len() == n
    &&& forall|i: int| 0 <= i < n ==> broadcast_dim(padded_dim(a, n, i), padded_dim(b, n, i)) == Some(#[trigger] s[i])
}

/// Two shapes broadcast to the same shape in either order, and nothing is left to broadcast then.
pub proof fn law_broadcast(s: Seq<usize>, a: Seq<usize>, b: Seq<usize>)
    requires
        is_broadcast(s, a, b),
    ensures
        is_broadcast(s, b, a),
        is_broadcast(s, s, a),
        is_broadcast(s, s, b),
{
}

/// Two shapes cannot be broadcast: the dimensions `a` and `b` at `index` are incompatible.
#[derive(Debug, Clone, Copy, PartialEq, Eq, Structural)]
pub struct BroadcastError {
    pub a: usize,
    pub b: usize,
    pub index: usize,
}

/// The shape that both shapes broadcast to.
///
/// The shorter one is brought to the rank of the other by dimensions of size one in front. Each
/// two dimensions must then be equal, or one of them one.
pub fn get_broadcasted_shape(shape_a: &Shape, shape_b: &Shape) -> (r: Result<Shape, BroadcastError>)
    ensures
        ({
            let n = max_rank(shape_a@, shape_b@);
            match r {
                Ok(s) => is_broadcast(s@, shape_a@, shape_b@),
                Err(e) => {
                    &&& e.index < n
                    &&& e.a == padded_dim(shape_a@, n, e.index as int)
                    &&& e.b == padded_dim(shape_b@, n, e.index as int)
                    &&& broadcast_dim(e.a, e.b) is None
                    &&& forall|i: int|
                        0 <= i < e.index ==> broadcast_dim(
                            #[trigger] padded_dim(shape_a@, n, i),
                            padded_dim(shape_b@, n, i),
                        ) is Some
                },
            }
        }),
{
    let rank_a = shape_a.rank();
    let rank_b = shape_b.rank();
    let n = if rank_a < rank_b {
        rank_b
    } else {
        rank_a
    };
    let mut v: Vec<usize> = Vec::with_capacity(n);
    let mut i: usize = 0;
    while i < n
        invariant
            i <= n,
            n == max_rank(shape_a@, shape_b@),
            rank_a == shape_a@.len(),
            rank_b == shape_b@.len(),
            v.len() == i,
            forall|j: int|
                0 <= j < i ==> broadcast_dim(
                    padded_dim(shape_a@, n as nat, j),
                    padded_dim(shape_b@, n as nat, j),
                ) == Some(#[trigger] v[j]),
            forall|j: int|
                0 <= j < i ==> broadcast_dim(
                    #[trigger] padded_dim(shape_a@, n as nat, j),
                    padded_dim(shape_b@, n as nat, j),
                ) is Some,
        decreases n - i,
    {
        let a: usize = if i < n - rank_a {
            1
        } else {
            shape_a.0[i - (n - rank_a)]
        };
        let b: usize = if i < n - rank_b {
            1
        } else {
            shape_b.0[i - (n - rank_b)]
        };
        let d: usize = if a == 1 {
            b
        } else if b == 1 || a == b {
            a
        } else {
            return Err(BroadcastError { a, b, index: i });
        };
        v.push(d);
        i = i + 1;
    }
    Ok(Shape(v))
}

} // verus!

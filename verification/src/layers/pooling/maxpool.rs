//! The tables that show that a maximum layer is evaluated correctly.
use crate::arith::{clog2, lemma_clog2, lemma_clog2_unique, lemma_npot, lemma_npot_monotone, npot};
use crate::fft::fes;
use crate::field::{fint, fmul, fzero, lemma_fmul_zero, to_field, Fe, GoldilocksExt2};
use crate::layers::convolution::clearing::lemma_idx3_split;
use crate::layers::convolution::input::lemma_padded3;
use crate::layers::pooling::Maxpool2D;
use crate::number::Element;
use crate::shape::{lemma_prod1, lemma_prod_of_rank, nonzero};
use crate::tensor::access::{idx3, lemma_idx3};
use crate::tensor::pad::{npots, npots_fit, paddable, padded, padded_at};
use crate::tensor::pool::{is_pooled, is_window_max, planes, poolable};
use crate::tensor::Tensor;
use vstd::arithmetic::power2::{lemma2_to64, lemma_pow2_unfold};
use vstd::prelude::*;

verus! {

/// The place of entry `(dh, dw)` of the window of output entry `k`, in a table with lines of length `2 * w2`.
pub open spec fn window_place(w2: int, dh: int, dw: int, k: int) -> int {
    (2 * (k / w2) + dh) * (2 * w2) + (2 * (k % w2) + dw)
}

/// The entries of a tensor, padded with zeros.
pub open spec fn zero_padded(t: &Tensor<Element>) -> Seq<Element> {
    padded(t.data@, t.shape@, npots(t.shape@), 0i64)
}

/// Half the length of a padded line of the input.
pub open spec fn half_width(input: &Tensor<Element>) -> int {
    npot(input.shape@[2] as nat) as int / 2
}

/// Output entry `k` minus one of the entries of its window: table `i` takes column `i / 2` and line `i % 2`
/// of the windows.
pub open spec fn pool_diff(o: &Tensor<Element>, input: &Tensor<Element>, i: int, k: int) -> int {
    zero_padded(o)[k] - zero_padded(input)[window_place(half_width(input), i % 2, i / 2, k)]
}

/// The differences in table `i`.
pub open spec fn pool_table(o: &Tensor<Element>, input: &Tensor<Element>, i: int) -> Seq<Fe> {
    Seq::new(zero_padded(o).len(), |k: int| fint(pool_diff(o, input, i, k)))
}

/// Every difference can be represented.
pub open spec fn diffs_fit(o: &Tensor<Element>, input: &Tensor<Element>) -> bool {
    forall|i: int, k: int|
        0 <= i < 4 && 0 <= k < zero_padded(o).len() ==> Element::MIN <= #[trigger] pool_diff(o, input, i, k)
            <= Element::MAX
}

/// The tables of differences can be computed.
pub open spec fn polys_ok(pool: Maxpool2D, input: &Tensor<Element>) -> bool {
    &&& pool.supported()
    &&& input.shape@.len() == 3
    &&& poolable(input.shape@, 2, 2)
    &&& paddable(input)
    &&& forall|o: Tensor<Element>| #[trigger] is_pooled(&o, input, 2, 2) ==> diffs_fit(&o, input)
}

/// Half of a dimension, padded, is at most half of the padded dimension.
pub proof fn lemma_npot_half(n: nat)
    requires
        n >= 2,
    ensures
        npot(n) == 2 * (npot(n) / 2),
        npot(n) >= 2,
        npot((n / 2) as nat) <= npot(n) / 2,
        n % 2 == 0 ==> npot((n / 2) as nat) == npot(n) / 2,
{
    lemma2_to64();
    lemma_clog2(n);
    let e = clog2(n);
    assert(e > 0);
    lemma_pow2_unfold(e);
    let m = (2 * (n / 2)) as nat;
    lemma_clog2(m);
    assert(m >= 2);
    let d = clog2(m);
    assert(d > 0);
    lemma_pow2_unfold(d);
    if d > 1 {
        lemma_pow2_unfold((d - 1) as nat);
    }
    lemma_clog2_unique((n / 2) as nat, (d - 1) as nat);
    lemma_npot_monotone(m, n);
}

/// The shape of the output, and the sizes of the two padded tables.
pub proof fn lemma_pool_sizes(o: &Tensor<Element>, input: &Tensor<Element>)
    requires
        input.wf(),
        input.shape@.len() == 3,
        poolable(input.shape@, 2, 2),
        paddable(input),
        is_pooled(o, input, 2, 2),
    ensures
        ({
            let s = input.shape@;
            let h2 = npot(s[1] as nat) as int / 2;
            let w2 = half_width(input);
            let t = npots(o.shape@);
            &&& paddable(o)
            &&& o.shape@ == seq![s[0], s[1] / 2, s[2] / 2]
            &&& npots(s) == seq![npot(s[0] as nat) as usize, (2 * h2) as usize, (2 * w2) as usize]
            &&& npot(s[0] as nat) * ((2 * h2) * (2 * w2)) == zero_padded(input).len()
            &&& zero_padded(input).len() <= usize::MAX
            &&& zero_padded(o).len() <= npot(s[0] as nat) * (h2 * w2)
            &&& h2 >= 1
            &&& w2 >= 1
            &&& 2 * h2 <= usize::MAX
            &&& 2 * w2 <= usize::MAX
            &&& npot(s[0] as nat) <= usize::MAX
            &&& s[1] % 2 == 0 && s[2] % 2 == 0 ==> {
                &&& t == seq![npot(s[0] as nat) as usize, h2 as usize, w2 as usize]
                &&& zero_padded(o).len() == npot(s[0] as nat) * (h2 * w2)
            }
        }),
{
    let s = input.shape@;
    let os = o.shape@;
    let t = npots(os);
    assert(os =~= seq![s[0], s[1] / 2, s[2] / 2]);
    lemma_npot_half(s[1] as nat);
    lemma_npot_half(s[2] as nat);
    assert(npot(s[0] as nat) <= usize::MAX && npot(s[1] as nat) <= usize::MAX && npot(s[2] as nat) <= usize::MAX) by {
        assert(npots_fit(s));
        let (a, b, c) = (s[0], s[1], s[2]);
    }
    let c = npot(s[0] as nat) as int;
    let h2 = npot(s[1] as nat) as int / 2;
    let w2 = npot(s[2] as nat) as int / 2;
    assert(npots(s) =~= seq![c as usize, (2 * h2) as usize, (2 * w2) as usize]);
    lemma_prod_of_rank(npots(s));
    lemma_prod_of_rank(t);
    let (a, b) = (npot((s[1] / 2) as nat) as int, npot((s[2] / 2) as nat) as int);
    assert(t =~= seq![c as usize, a as usize, b as usize]);
    lemma_npot((s[1] / 2) as nat);
    lemma_npot((s[2] / 2) as nat);
    lemma_npot(s[0] as nat);
    assert(a * b <= h2 * w2) by (nonlinear_arith)
        requires
            0 <= a <= h2,
            0 <= b <= w2,
    ;
    assert(c * (a * b) <= c * (h2 * w2)) by (nonlinear_arith)
        requires
            0 <= c,
            a * b <= h2 * w2,
    ;
    assert(c * ((2 * h2) * (2 * w2)) == 4 * (c * (h2 * w2))) by (nonlinear_arith);
    assert(c * (h2 * w2) >= 0) by (nonlinear_arith)
        requires
            c >= 0,
            h2 >= 0,
            w2 >= 0,
    ;
    assert(nonzero(os));
    assert(npots_fit(os));
}

/// The entry of a window lies in the input table.
pub proof fn lemma_window_place(cs: int, h2: int, w2: int, dh: int, dw: int, k: int)
    requires
        0 <= cs,
        1 <= h2,
        1 <= w2,
        0 <= dh < 2,
        0 <= dw < 2,
        0 <= k < cs * (h2 * w2),
    ensures
        0 <= window_place(w2, dh, dw, k) < cs * ((2 * h2) * (2 * w2)),
        window_place(w2, dh, dw, k) == idx3(
            2 * h2,
            2 * w2,
            k / (h2 * w2),
            2 * ((k % (h2 * w2)) / w2) + dh,
            2 * ((k % (h2 * w2)) % w2) + dw,
        ),
{
    lemma_idx3_split(cs, h2, w2, k);
    let (c, i, j) = (k / (h2 * w2), (k % (h2 * w2)) / w2, (k % (h2 * w2)) % w2);
    assert(c * (h2 * w2) + (i * w2 + j) == (c * h2 + i) * w2 + j) by (nonlinear_arith);
    crate::arith::lemma_grid_digits(c * h2 + i, j, w2);
    assert((2 * (c * h2 + i) + dh) * (2 * w2) + (2 * j + dw) == c * ((2 * h2) * (2 * w2)) + ((2 * i + dh) * (2 * w2)
        + (2 * j + dw))) by (nonlinear_arith);
    lemma_idx3(cs, 2 * h2, 2 * w2, c, 2 * i + dh, 2 * j + dw);
}

impl Maxpool2D {
    /// Four tables, one for each place in the windows: the padded output minus the entries of the padded input
    /// at that place. At every point one of the four is zero, see `law_maxpool_zerocheck`.
    pub fn compute_polys(&self, input: &Tensor<Element>) -> (r: Vec<Vec<GoldilocksExt2>>)
        requires
            polys_ok(*self, input),
        ensures
            r@.len() == 4,
            exists|o: Tensor<Element>| #[trigger]
                is_pooled(&o, input, 2, 2) && forall|i: int|
                    0 <= i < 4 ==> fes((#[trigger] r@[i])@) == pool_table(&o, input, i),
    {
        let padded_input = input.pad_next_power_of_two();
        let output = self.op(input);
        proof {
            lemma_pool_sizes(&output, input);
        }
        let padded_output = output.pad_next_power_of_two();
        let ghost c = npot(input.shape@[0] as nat) as int;
        let ghost h2 = npot(input.shape@[1] as nat) as int / 2;
        let w2: usize = padded_input.shape.0[2] / 2;
        let len: usize = padded_output.data.len();
        let mut r: Vec<Vec<GoldilocksExt2>> = Vec::with_capacity(4);
        let mut i: usize = 0;
        while i < 4
            invariant
                i <= 4,
                w2 == half_width(input),
                1 <= w2,
                1 <= h2,
                0 <= c,
                padded_output.data@ == zero_padded(&output),
                padded_input.data@ == zero_padded(input),
                c * ((2 * h2) * (2 * w2)) == padded_input.data@.len(),
                padded_input.data@.len() <= usize::MAX,
                len == padded_output.data@.len(),
                len <= c * (h2 * w2),
                2 * w2 <= usize::MAX,
                diffs_fit(&output, input),
                r@.len() == i,
                forall|j: int| 0 <= j < i ==> fes((#[trigger] r@[j])@) == pool_table(&output, input, j),
            decreases 4 - i,
        {
            let mut table: Vec<GoldilocksExt2> = Vec::with_capacity(len);
            let mut k: usize = 0;
            while k < len
                invariant
                    k <= len,
                    i < 4,
                    w2 == half_width(input),
                    1 <= w2,
                    1 <= h2,
                    0 <= c,
                    padded_output.data@ == zero_padded(&output),
                    padded_input.data@ == zero_padded(input),
                    c * ((2 * h2) * (2 * w2)) == padded_input.data@.len(),
                    padded_input.data@.len() <= usize::MAX,
                    len == padded_output.data@.len(),
                    len <= c * (h2 * w2),
                    2 * w2 <= usize::MAX,
                    diffs_fit(&output, input),
                    table@.len() == k,
                    forall|j: int|
                        0 <= j < k ==> (#[trigger] table@[j]).fe() == fint(pool_diff(&output, input, i as int, j)),
                decreases len - k,
            {
                proof {
                    lemma_window_place(c, h2, w2 as int, i as int % 2, i as int / 2, k as int);
                    let (a, b) = (2 * (k as int / w2 as int) + i as int % 2, 2 * (k as int % w2 as int) + i as int / 2);
                    assert(0 <= a <= a * (2 * w2)) by (nonlinear_arith)
                        requires
                            a >= 0,
                            w2 >= 1,
                    ;
                }
                let place: usize = (2 * (k / w2) + i % 2) * (2 * w2) + (2 * (k % w2) + i / 2);
                assert(Element::MIN <= pool_diff(&output, input, i as int, k as int) <= Element::MAX);
                let diff: Element = padded_output.data[k] - padded_input.data[place];
                table.push(to_field(diff));
                k = k + 1;
            }
            proof {
                assert(fes(table@) =~= pool_table(&output, input, i as int));
            }
            r.push(table);
            i = i + 1;
        }
        proof {
            assert(is_pooled(&output, input, 2, 2));
        }
        r
    }
}

/// The product of the four entries at `k`.
pub open spec fn diff_product(tables: Seq<Seq<Fe>>, k: int) -> Fe {
    fmul(fmul(fmul(tables[0][k], tables[1][k]), tables[2][k]), tables[3][k])
}

/// Where the sides of the planes are even, the product of the four tables of a maximum layer is zero
/// everywhere.
pub proof fn law_maxpool_zerocheck(o: &Tensor<Element>, input: &Tensor<Element>, k: int)
    requires
        input.wf(),
        input.shape@.len() == 3,
        poolable(input.shape@, 2, 2),
        paddable(input),
        is_pooled(o, input, 2, 2),
        input.shape@[1] % 2 == 0,
        input.shape@[2] % 2 == 0,
        0 <= k < zero_padded(o).len(),
    ensures
        diff_product(Seq::new(4, |i: int| pool_table(o, input, i)), k) == fzero(),
        exists|i: int| 0 <= i < 4 && #[trigger] pool_diff(o, input, i, k) == 0,
{
    let s = input.shape@;
    let os = o.shape@;
    let cs = npot(s[0] as nat) as int;
    let h2 = npot(s[1] as nat) as int / 2;
    let w2 = half_width(input);
    lemma_pool_sizes(o, input);
    lemma_idx3_split(cs, h2, w2, k);
    let (c, i, j) = (k / (h2 * w2), (k % (h2 * w2)) / w2, (k % (h2 * w2)) % w2);
    lemma_padded3(o.data@, os, npots(os), 0i64, c, i, j);
    lemma_prod_of_rank(npots(os));
    assert(zero_padded(o)[k] == padded_at(o.data@, os, npots(os), 0i64, k));
    let tables = Seq::new(4, |i: int| pool_table(o, input, i));
    let w: int = if c < s[0] && i < s[1] / 2 && j < s[2] / 2 {
        let r = o.data@[idx3(os[1] as int, os[2] as int, c, i, j)];
        assert(planes(s) == s[0]) by {
            assert(s.take(1) =~= seq![s[0]]);
            lemma_prod1(s[0]);
        }
        assert(is_window_max(input.data@, s[1] as int, s[2] as int, c, i * 2, j * 2, 2, r));
        let (a, b) = choose|a: int, b: int|
            0 <= a < 2 && 0 <= b < 2 && r == #[trigger] input.data@[idx3(
                s[1] as int,
                s[2] as int,
                c,
                i * 2 + a,
                j * 2 + b,
            )];
        lemma_window_place(cs, h2, w2, a, b, k);
        lemma_padded3(input.data@, s, npots(s), 0i64, c, 2 * i + a, 2 * j + b);
        2 * b + a
    } else {
        lemma_window_place(cs, h2, w2, 0, 0, k);
        lemma_padded3(input.data@, s, npots(s), 0i64, c, 2 * i, 2 * j);
        0
    };
    lemma_window_place(cs, h2, w2, w % 2, w / 2, k);
    lemma_prod_of_rank(npots(s));
    assert(pool_diff(o, input, w, k) == 0);
    assert(tables[w][k] == fint(pool_diff(o, input, w, k)));
    assert(fint(0) == fzero());
    let (t0, t1, t2, t3) = (tables[0][k], tables[1][k], tables[2][k], tables[3][k]);
    lemma_fmul_zero(t0);
    lemma_fmul_zero(t1);
    lemma_fmul_zero(t2);
    lemma_fmul_zero(t3);
    let t01 = fmul(t0, t1);
    let t012 = fmul(t01, t2);
    lemma_fmul_zero(t01);
    lemma_fmul_zero(t012);
}

} // verus!

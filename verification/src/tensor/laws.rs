//! What holds of tensors whatever they hold: greatest and least entries, repeated entries, transformed filters.
use crate::algebra::root_of_unity;
use crate::arith::clog2;
use crate::fft::{dft, idft};
use crate::field::{fint, fmul, fsum};
use crate::number::{greater_of, lemma_msum_eq, lesser_of, msum, Element, Number};
use crate::shape::{
    broadcast_dim, coords, flat, in_bounds, is_broadcast, is_npot_of, lemma_coords_flat, lemma_prod2, max_rank,
    padded_dim, prod,
};
use crate::tensor::fft_conv::{
    chunks, conv_poly, conv_side, filter_of, lemma_conv_row, lemma_conv_side, padded_filter, reversed_chunk,
    transformed_product, zero_extended,
};
use crate::tensor::permute::{expandable, expanded_at, padded_dims};
use crate::tensor::access::{dims4, framed_at, idx3, idx4, is_framed};
use crate::tensor::conv::{row_term, rows_term, windows};
use crate::tensor::linear::{is_transpose, matmul_term, matvec_term};
use crate::tensor::permute::is_permuted;
use crate::tensor::pool::{is_pooled, is_window_max};
use crate::tensor::slicing::added_slices;
use crate::tensor::{is_first_max, is_max_of, is_min_of, same_values, Tensor};
use vstd::arithmetic::power2::pow2;
use vstd::prelude::*;

verus! {

/// Quantised values are integers: their sums, differences, products and order are those of the integers, and an
/// absolute value is the number or its opposite, and not negative.
pub proof fn law_quantised_values(x: Element, a: int, b: int)
    ensures
        x.value() == x,
        Element::m_sub(Element::m_add(a, b), b) == a,
        Element::m_add(a, b) == a + b,
        Element::m_mul(a, b) == a * b,
        Element::m_abs(a) >= 0,
        Element::m_abs(a) == a || Element::m_abs(a) == -a,
        Element::m_abs(-a) == Element::m_abs(a),
        Element::m_lt(a, b) <==> b - a > 0,
        Element::m_min() <= x <= Element::m_max(),
        Element::fits(Element::m_min()) && !Element::fits(Element::m_min() - 1),
        Element::fits(Element::m_max()) && !Element::fits(Element::m_max() + 1),
{
}

/// The greater and the lesser of two numbers are the two numbers, and the one is not less than the other.
pub proof fn law_greater_and_lesser<T: Number>(a: T, b: T)
    ensures
        (greater_of(a, b).value() == a.value() && lesser_of(a, b).value() == b.value()) || (greater_of(a, b).value()
            == b.value() && lesser_of(a, b).value() == a.value()),
        !T::m_lt(greater_of(a, b).value(), lesser_of(a, b).value()),
        greater_of(a, b).value() == greater_of(b, a).value(),
        lesser_of(a, b).value() == lesser_of(b, a).value(),
{
    T::law_order(a.value(), b.value(), a.value());
    T::law_order(b.value(), a.value(), b.value());
}

/// There is one greatest number and one least number; no number is above the one or below the other.
pub proof fn law_greatest_and_least(first: int, n: nat, f: spec_fn(int) -> int, r: int, s: int, j: int)
    requires
        is_max_of::<Element>(first, n, f, r),
        0 <= j < n,
    ensures
        r >= first,
        r >= f(j),
        r == first || exists|k: int| 0 <= k < n && r == #[trigger] f(k),
        is_max_of::<Element>(first, n, f, s) ==> s == r,
{
    if is_max_of::<Element>(first, n, f, s) {
        if s != first {
            let k = choose|k: int| 0 <= k < n && s == #[trigger] f(k);
            assert(s == f(k));
        }
        if r != first {
            let k = choose|k: int| 0 <= k < n && r == #[trigger] f(k);
            assert(r == f(k));
        }
    }
}

/// The least number is the opposite of the greatest opposite.
pub proof fn law_least_is_opposite_of_greatest(first: int, n: nat, f: spec_fn(int) -> int, r: int)
    ensures
        is_min_of::<Element>(first, n, f, r) <==> is_max_of::<Element>(-first, n, |j: int| -f(j), -r),
{
    let g = |j: int| -f(j);
    assert(forall|j: int| #[trigger] g(j) == -f(j));
    if is_min_of::<Element>(first, n, f, r) {
        if r != first {
            let k = choose|k: int| 0 <= k < n && r == #[trigger] f(k);
            assert(-r == g(k));
        }
        assert forall|j: int| 0 <= j < n implies !Element::m_lt(-r, #[trigger] g(j)) by {
            assert(!Element::m_lt(f(j), r));
        }
    }
    if is_max_of::<Element>(-first, n, g, -r) {
        if r != first {
            let k = choose|k: int| 0 <= k < n && -r == #[trigger] g(k);
            assert(r == f(k));
        }
        assert forall|j: int| 0 <= j < n implies !Element::m_lt(#[trigger] f(j), r) by {
            assert(!Element::m_lt(-r, g(j)));
        }
    }
}

/// The first greatest entry is the only one: what is before it is less, and what is behind it is not greater.
pub proof fn law_first_greatest<T: Number>(s: Seq<T>, r: int, q: int, j: int)
    requires
        is_first_max(s, r),
        is_first_max(s, q),
        0 <= j < s.len(),
    ensures
        q == r,
        s[j].value() == s[r].value() ==> r <= j,
        !T::m_lt(s[r].value(), s[j].value()),
{
    T::law_order(s[r].value(), s[q].value(), s[r].value());
    T::law_order(s[j].value(), s[r].value(), s[j].value());
    assert(!T::m_lt(s[r].value(), s[q].value()) && !T::m_lt(s[q].value(), s[r].value()));
    if r < q {
        assert(T::m_lt(s[r].value(), s[q].value()));
    }
    if q < r {
        assert(T::m_lt(s[q].value(), s[r].value()));
    }
}

/// Quantised tensors stand for the same numbers exactly where they hold the same entries.
pub proof fn law_same_quantised_values(a: Seq<Element>, b: Seq<Element>)
    ensures
        same_values(a, b) <==> a == b,
{
    if same_values(a, b) {
        assert forall|i: int| 0 <= i < a.len() implies a[i] == b[i] by {
            assert(a[i].value() == b[i].value());
        }
        assert(a =~= b);
    }
}

/// Counted from the last dimension, a shape that two shapes broadcast to has the dimension of each of them, or they
/// have one there; a dimension that only one of them has stays.
pub proof fn law_dimensions_of_a_broadcast(s: Seq<usize>, a: Seq<usize>, b: Seq<usize>, k: int)
    requires
        is_broadcast(s, a, b),
        0 <= k < s.len(),
    ensures
        s.len() >= a.len(),
        s.len() >= b.len(),
        s.len() == a.len() || s.len() == b.len(),
        k < a.len() ==> a[a.len() - 1 - k] == s[s.len() - 1 - k] || a[a.len() - 1 - k] == 1,
        k < b.len() ==> b[b.len() - 1 - k] == s[s.len() - 1 - k] || b[b.len() - 1 - k] == 1,
        k >= b.len() ==> k < a.len() && a[a.len() - 1 - k] == s[s.len() - 1 - k],
        k >= a.len() ==> k < b.len() && b[b.len() - 1 - k] == s[s.len() - 1 - k],
        k < a.len() && k < b.len() ==> s[s.len() - 1 - k] == a[a.len() - 1 - k] || s[s.len() - 1 - k] == b[b.len() - 1
            - k],
{
    let n = max_rank(a, b);
    assert(broadcast_dim(padded_dim(a, n, n - 1 - k), padded_dim(b, n, n - 1 - k)) == Some(s[n - 1 - k]));
}

/// A tensor can be expanded to a shape without zeros exactly where its shape broadcasts to that shape with it.
pub proof fn law_expanding_is_broadcasting(s: Seq<usize>, es: Seq<usize>)
    requires
        crate::shape::nonzero(es),
    ensures
        expandable(s, es) <==> s.len() <= es.len() && is_broadcast(es, s, es),
{
    let n = es.len();
    if s.len() <= n {
        assert(max_rank(s, es) == n);
        assert forall|i: int| 0 <= i < n implies padded_dim(es, n, i) == #[trigger] es[i] by {}
        if expandable(s, es) {
            assert forall|i: int| 0 <= i < n implies broadcast_dim(padded_dim(s, n, i), padded_dim(es, n, i)) == Some(
                #[trigger] es[i],
            ) by {
                assert(padded_dims(s, n)[i] == padded_dim(s, n, i));
            }
        }
        if is_broadcast(es, s, es) {
            assert forall|i: int| 0 <= i < n implies crate::tensor::permute::expands_to(
                padded_dims(s, n)[i],
                #[trigger] es[i],
            ) by {
                assert(broadcast_dim(padded_dim(s, n, i), padded_dim(es, n, i)) == Some(es[i]));
                assert(es[i] > 0);
            }
        }
    }
}

/// A row that is expanded to a matrix stands in every row of it, and a column in every column; what has the shape
/// already stays as it is.
pub proof fn law_expanded_rows_and_columns<T>(data: Seq<T>, m: usize, n: usize, i: int, j: int)
    requires
        0 <= i < m,
        0 <= j < n,
    ensures
        expanded_at(data, seq![1usize, n], seq![m, n], i * n + j) == data[j],
        expanded_at(data, seq![m, 1usize], seq![m, n], i * n + j) == data[i],
        expanded_at(data, seq![m, n], seq![m, n], i * n + j) == data[i * n + j],
        padded_dims(seq![n], 2) == seq![1usize, n],
{
    let es = seq![m, n];
    let c = seq![i, j];
    assert(in_bounds(es, c));
    reveal_with_fuel(flat, 3);
    reveal_with_fuel(prod, 3);
    lemma_coords_flat(es, c);
    assert(es.skip(1) =~= seq![n]);
    assert(c.skip(1) =~= seq![j]);
    assert(seq![n].skip(1) =~= Seq::<usize>::empty());
    assert(seq![j].skip(1) =~= Seq::<int>::empty());
    crate::shape::lemma_prod1(n);
    assert(flat(seq![n], seq![j]) == j * 1 + flat(Seq::<usize>::empty(), Seq::<int>::empty()));
    assert(flat(es, c) == i * n + j);
    assert(coords(es, i * n + j) == c);
    let row = seq![1usize, n];
    assert(row.skip(1) =~= seq![n]);
    let col = seq![m, 1usize];
    assert(col.skip(1) =~= seq![1usize]);
    crate::shape::lemma_prod1(1);
    let (jr, ic) = (if n == 1 {
        0
    } else {
        j
    }, if m == 1 {
        0
    } else {
        i
    });
    let a = crate::tensor::permute::clamped(row, c);
    assert(a =~= seq![0, jr]);
    assert(a.skip(1) =~= seq![jr]);
    assert(seq![jr].skip(1) =~= Seq::<int>::empty());
    assert(flat(row, a) == 0 * n + jr);
    assert(0 * n == 0);
    let b = crate::tensor::permute::clamped(col, c);
    assert(b =~= seq![ic, 0]);
    assert(b.skip(1) =~= seq![0int]);
    assert(seq![0int].skip(1) =~= Seq::<int>::empty());
    assert(seq![1usize].skip(1) =~= Seq::<usize>::empty());
    assert(flat(col, b) == ic * 1 + 0);
    let d = crate::tensor::permute::clamped(es, c);
    assert(d =~= c);
    assert(padded_dims(seq![n], 2) =~= row);
}

/// Every dimension is rounded up to the least power of two that reaches it.
pub proof fn law_rounded_dimensions(r: Seq<usize>, s: Seq<usize>, i: int)
    requires
        is_npot_of(r, s),
        0 <= i < s.len(),
    ensures
        r.len() == s.len(),
        crate::arith::is_pow2(r[i] as int),
        s[i] <= r[i],
        s[i] >= 1 ==> r[i] < 2 * s[i],
        crate::arith::is_pow2(s[i] as int) ==> r[i] == s[i],
{
    crate::arith::lemma_npot(s[i] as nat);
}

/// A matrix has its rows and columns; a filter counts those of a matrix of square blocks, one block for each pair of
/// channels, whose side is the number of entries of a plane.
pub proof fn law_rows_and_columns<T>(t: &Tensor<T>)
    requires
        t.shape@.len() == 2 || t.shape@.len() == 4,
    ensures
        t.shape@.len() == 2 ==> t.spec_nrows_2d() * t.spec_ncols_2d() == prod(t.shape@),
        t.shape@.len() == 4 ==> {
            let plane = t.shape@[2] * t.shape@[2];
            t.spec_nrows_2d() * t.spec_ncols_2d() == (t.shape@[0] * t.shape@[1]) * (plane * plane)
        },
        t.shape@.len() == 4 && t.shape@[2] == 1 ==> t.spec_nrows_2d() == t.shape@[0] && t.spec_ncols_2d() == t.shape@[1],
{
    let s = t.shape@;
    if s.len() == 2 {
        assert(s =~= seq![s[0], s[1]]);
        lemma_prod2(s[0], s[1]);
    } else {
        let (a, b, n) = (s[0] as int, s[1] as int, s[2] as int);
        assert((a * n * n) * (b * n * n) == (a * b) * ((n * n) * (n * n))) by (nonlinear_arith);
        assert(a * 1 * 1 == a && b * 1 * 1 == b);
    }
}

/// A tensor that is put behind others adds as many slices as its first dimension has entries, or a single one where it
/// is a slice itself, whatever the others are.
pub proof fn law_added_slices<T>(ts: Seq<Tensor<T>>, t: Tensor<T>, s: Seq<usize>)
    requires
        ts.len() >= 1,
    ensures
        added_slices(seq![ts[0]], s) == 0,
        t.shape@.len() == s.len() ==> added_slices(ts.push(t), s) == added_slices(ts, s) + t.shape@[0],
        t.shape@.len() < s.len() ==> added_slices(ts.push(t), s) == added_slices(ts, s) + 1,
{
    assert(ts.push(t).drop_last() =~= ts);
}

/// A matrix times a matrix of one column is the matrix times that column.
pub proof fn law_column_is_a_vector<T: Number>(a: Seq<T>, v: Seq<T>, n: int, i: int)
    requires
        0 <= n,
    ensures
        msum::<T>(n as nat, matmul_term::<T>(a, v, n, 1, i, 0)) == msum::<T>(
            n as nat,
            matvec_term::<T>(a, v, n, i),
        ),
{
    let (f, g) = (matmul_term::<T>(a, v, n, 1, i, 0), matvec_term::<T>(a, v, n, i));
    assert forall|k: int| 0 <= k < n implies #[trigger] f(k) == g(k) by {
        assert(k * 1 + 0 == k);
    }
    lemma_msum_eq::<T>(n as nat, f, g);
}

/// The transposed product is the product of the transposed factors in the other order.
pub proof fn law_transposed_product<T: Number>(
    a: Tensor<T>,
    at: Tensor<T>,
    b: Tensor<T>,
    bt: Tensor<T>,
    i: int,
    j: int,
)
    requires
        is_transpose(at, a),
        is_transpose(bt, b),
        b.shape@.len() == 2,
        a.shape@[1] == b.shape@[0],
        0 <= i < a.shape@[0],
        0 <= j < b.shape@[1],
    ensures
        msum::<T>(
            a.shape@[1] as nat,
            matmul_term::<T>(a.data@, b.data@, a.shape@[1] as int, b.shape@[1] as int, i, j),
        ) == msum::<T>(
            a.shape@[1] as nat,
            matmul_term::<T>(bt.data@, at.data@, a.shape@[1] as int, a.shape@[0] as int, j, i),
        ),
{
    let (m, n, p) = (a.shape@[0] as int, a.shape@[1] as int, b.shape@[1] as int);
    let f = matmul_term::<T>(a.data@, b.data@, n, p, i, j);
    let g = matmul_term::<T>(bt.data@, at.data@, n, m, j, i);
    assert forall|k: int| 0 <= k < n implies #[trigger] f(k) == g(k) by {
        assert(at.data@[k * m + i] == a.data@[i * n + k]);
        assert(bt.data@[j * n + k] == b.data@[k * p + j]);
        let (x, y) = (a.data@[i * n + k], b.data@[k * p + j]);
        x.law_value();
        y.law_value();
        T::law_ring(x.value(), y.value(), x.value());
    }
    lemma_msum_eq::<T>(n as nat, f, g);
}

/// There is a window `j` exactly where the window that starts at `j * stride` ends within the `n` places.
pub proof fn law_number_of_windows(n: int, k: int, stride: int, j: int)
    requires
        0 <= k <= n,
        stride > 0,
        0 <= j,
    ensures
        j < windows(n, k, stride) <==> j * stride + k <= n,
{
    crate::layers::convolution::shapes::law_strided_outputs(n, k, 0, stride, j);
    assert((n - k) / 1 == n - k);
}

/// The largest entry of a window is one of its entries, and none of them is larger.
pub proof fn law_pooled_entries(
    r: &Tensor<Element>,
    t: &Tensor<Element>,
    k: int,
    stride: int,
    p: int,
    i: int,
    j: int,
    a: int,
    b: int,
)
    requires
        is_pooled(r, t, k, stride),
        t.shape@.len() == 3,
        0 <= p < t.shape@[0],
        0 <= i < windows(t.shape@[1] as int, k, stride),
        0 <= j < windows(t.shape@[2] as int, k, stride),
        0 <= a < k,
        0 <= b < k,
    ensures
        ({
            let (h, w) = (t.shape@[1] as int, t.shape@[2] as int);
            let x = r.data@[idx3(windows(h, k, stride), windows(w, k, stride), p, i, j)];
            &&& x >= t.data@[idx3(h, w, p, i * stride + a, j * stride + b)]
            &&& exists|c: int, d: int|
                0 <= c < k && 0 <= d < k && x == #[trigger] t.data@[idx3(h, w, p, i * stride + c, j * stride + d)]
        }),
{
    let s = t.shape@;
    assert(s.take(1) =~= seq![s[0]]);
    crate::shape::lemma_prod1(s[0]);
    let (h, w) = (s[1] as int, s[2] as int);
    let x = r.data@[idx3(windows(h, k, stride), windows(w, k, stride), p, i, j)];
    assert(is_window_max(t.data@, h, w, p, i * stride, j * stride, k, x));
}

/// A shape without a batch is read as one with a batch of one.
pub proof fn law_batch_of_one_is_none(c: usize, h: usize, w: usize, n: usize)
    ensures
        dims4(seq![c, h, w]) == (1int, c as int, h as int, w as int),
        dims4(seq![n, c, h, w]) == (n as int, c as int, h as int, w as int),
        dims4(seq![1usize, c, h, w]) == dims4(seq![c, h, w]),
{
}

/// A frame adds its lines above and below and its columns left and right of every channel: the entries are moved by
/// it, and everything else is zero.
pub proof fn law_framed_tensor<T: Number>(
    r: &Tensor<T>,
    t: &Tensor<T>,
    ph: int,
    pw: int,
    c: int,
    h: int,
    w: int,
)
    requires
        is_framed(r, t, ph, pw),
        t.shape@.len() == 3,
        0 <= ph,
        0 <= pw,
        t.shape@[1] + 2 * ph <= usize::MAX,
        t.shape@[2] + 2 * pw <= usize::MAX,
        0 <= c < t.shape@[0],
        -ph <= h < t.shape@[1] + ph,
        -pw <= w < t.shape@[2] + pw,
    ensures
        r.shape@ == seq![
            t.shape@[0],
            (t.shape@[1] + 2 * ph) as usize,
            (t.shape@[2] + 2 * pw) as usize,
        ],
        r.data@[idx3(t.shape@[1] + 2 * ph, t.shape@[2] + 2 * pw, c, h + ph, w + pw)] == (if 0 <= h < t.shape@[1] && 0
            <= w < t.shape@[2] {
            t.data@[idx3(t.shape@[1] as int, t.shape@[2] as int, c, h, w)]
        } else {
            T::s_zero()
        }),
{
    let s = t.shape@;
    let d = dims4(s);
    let (hp, wp) = (s[1] + 2 * ph, s[2] + 2 * pw);
    assert(r.shape@ =~= seq![s[0], hp as usize, wp as usize]);
    let (x, y) = (d.1 * (hp * wp), d.1 * (d.2 * d.3));
    assert(0 * x == 0 && 0 * y == 0);
    if ph != 0 || pw != 0 {
        assert(idx4(d.1, hp, wp, 0, c, h + ph, w + pw) == idx3(hp, wp, c, h + ph, w + pw));
        assert(r.data@[idx4(d.1, hp, wp, 0, c, h + ph, w + pw)] == framed_at(
            t.data@,
            d,
            ph,
            pw,
            T::s_zero(),
            0,
            c,
            h + ph,
            w + pw,
        ));
        assert(idx4(d.1, d.2, d.3, 0, c, h, w) == idx3(d.2, d.3, c, h, w));
    }
}

/// Exchanging the first two dimensions moves the entry at `(i, j, k)` to `(j, i, k)`.
pub proof fn law_exchanged_dimensions<T>(r: &Tensor<T>, t: &Tensor<T>, i: int, j: int, k: int)
    requires
        is_permuted(r, t, seq![1usize, 0usize, 2usize]),
        t.shape@.len() == 3,
        0 <= i < t.shape@[0],
        0 <= j < t.shape@[1],
        0 <= k < t.shape@[2],
    ensures
        r.shape@ == seq![t.shape@[1], t.shape@[0], t.shape@[2]],
        r.data@[idx3(t.shape@[0] as int, t.shape@[2] as int, j, i, k)] == t.data@[idx3(
            t.shape@[1] as int,
            t.shape@[2] as int,
            i,
            j,
            k,
        )],
{
    assert(r.shape@ =~= seq![t.shape@[1], t.shape@[0], t.shape@[2]]);
    assert(t.data@[idx3(t.shape@[1] as int, t.shape@[2] as int, i, j, k)] == r.data@[idx3(
        r.shape@[1] as int,
        r.shape@[2] as int,
        j,
        i,
        k,
    )]);
}

/// The products of a filter with an input further down are those with the input without its first lines.
pub proof fn law_products_move_with_the_input<T: Number>(x: Seq<Vec<T>>, w: Seq<Vec<T>>, ii: int, jj: int)
    requires
        0 <= ii,
        w.len() + ii <= x.len(),
    ensures
        msum::<T>(w.len(), rows_term::<T>(x, w, ii, jj)) == msum::<T>(
            w.len(),
            rows_term::<T>(x.skip(ii), w, 0, jj),
        ),
{
    let (f, g) = (rows_term::<T>(x, w, ii, jj), rows_term::<T>(x.skip(ii), w, 0, jj));
    assert forall|a: int| 0 <= a < w.len() implies #[trigger] f(a) == g(a) by {
        let (p, q) = (row_term::<T>(x, w, ii, jj, a), row_term::<T>(x.skip(ii), w, 0, jj, a));
        assert(x.skip(ii)[a + 0] == x[a + ii]);
        lemma_msum_eq::<T>(w[a]@.len(), p, q);
    }
    lemma_msum_eq::<T>(w.len(), f, g);
}

/// The product of a filter of one entry with the input is the product of that entry with the one it lies on.
pub proof fn law_filter_of_one_entry(x: Seq<Vec<Element>>, w: Seq<Vec<Element>>, ii: int, jj: int)
    requires
        w.len() == 1,
        w[0]@.len() == 1,
    ensures
        msum::<Element>(1, rows_term::<Element>(x, w, ii, jj)) == w[0]@[0] * x[ii]@[jj],
{
    reveal_with_fuel(msum, 3);
    assert(msum::<Element>(1, row_term::<Element>(x, w, ii, jj, 0)) == w[0]@[0] * x[0 + ii]@[0 + jj]);
}

/// Where the weights are the transforms of a filter, the products that a convolution with transformed weights sums up
/// are the transform of the polynomial that a convolution with the filter itself is read from, so both are read from
/// the same polynomial.
pub proof fn law_transformed_weights(
    x: Seq<Element>,
    w: Seq<Element>,
    filter: Seq<Element>,
    f: int,
    kx: int,
    n: int,
    i: int,
)
    requires
        conv_side(n),
        kx == chunks(x.len() as int, n * n),
        kx >= 0,
        x.len() == kx * (n * n),
        forall|j: int, q: int|
            0 <= j < kx && 0 <= q < 2 * (n * n) ==> fint(#[trigger] w[(i * kx + j) * (2 * (n * n)) + q] as int) == dft(
                padded_filter(filter_of(filter, f, kx, i, j), f, n, (2 * (n * n)) as nat),
                root_of_unity(clog2((2 * (n * n)) as nat)),
            )[q],
    ensures
        transformed_product(x, w, n, i) == dft(
            conv_poly(x, filter, f, kx, n, i),
            root_of_unity(clog2((2 * (n * n)) as nat)),
        ),
        idft(transformed_product(x, w, n, i), root_of_unity(clog2((2 * (n * n)) as nat))) == conv_poly(
            x,
            filter,
            f,
            kx,
            n,
            i,
        ),
{
    let len = (2 * (n * n)) as nat;
    let k = clog2(len);
    let r = root_of_unity(k);
    lemma_conv_side(n as nat);
    let xs = |j: int| zero_extended(reversed_chunk(x, n * n, j), len);
    let ws = |j: int| padded_filter(filter_of(filter, f, kx, i, j), f, n, len);
    let p = transformed_product(x, w, n, i);
    assert forall|q: int| 0 <= q < pow2(k) implies #[trigger] p[q] == fsum(
        kx as nat,
        |j: int| fmul(dft(xs(j), r)[q], dft(ws(j), r)[q]),
    ) by {
        let a = |j: int| fmul(dft(xs(j), r)[q], fint(w[(i * kx + j) * len + q] as int));
        let b = |j: int| fmul(dft(xs(j), r)[q], dft(ws(j), r)[q]);
        assert forall|j: int| 0 <= j < kx implies #[trigger] a(j) == b(j) by {
            assert(fint(w[(i * kx + j) * (2 * (n * n)) + q] as int) == dft(ws(j), r)[q]);
        }
        crate::algebra::lemma_fsum_eq(kx as nat, a, b);
        let c = |j: int|
            fmul(dft(zero_extended(reversed_chunk(x, n * n, j), len), r)[q], fint(w[(i * kx + j) * len + q] as int));
        crate::algebra::lemma_fsum_eq(kx as nat, a, c);
    }
    lemma_conv_row(xs, ws, kx as nat, k, r, p);
    let c = Seq::new(pow2(k), |m: int| fsum(kx as nat, |j: int| crate::fft_laws::cyclic(xs(j), ws(j))[m]));
    let d = conv_poly(x, filter, f, kx, n, i);
    assert forall|m: int| 0 <= m < len implies c[m] == d[m] by {
        crate::algebra::lemma_fsum_eq(
            kx as nat,
            |j: int| crate::fft_laws::cyclic(xs(j), ws(j))[m],
            |j: int|
                crate::fft_laws::cyclic(
                    zero_extended(reversed_chunk(x, n * n, j), len),
                    padded_filter(filter_of(filter, f, kx, i, j), f, n, len),
                )[m],
        );
    }
    assert(c =~= d);
}

} // verus!

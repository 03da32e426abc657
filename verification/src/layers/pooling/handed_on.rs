//! What a pooling layer computes and looks up, and what it hands on to the next layer.
use crate::arith::{clog2, lemma_npot, npot};
use crate::fft::fes;
use crate::algebra::lemma_fsum_eq;
use crate::layers::pooling::average_proof::{resized, spatial_vars};
use crate::field::{fsum, fzero, lemma_fadd_zero, centered, Fe, GoldilocksExt2};
use crate::iop::context::{ContextAux, TableType};
use crate::layers::pooling::average::{average_ok, is_average, plane_term, trunc_div};
use crate::layers::pooling::witness::{counts, occurrences, total_occurrences};
use crate::layers::pooling::{
    context_rank, context_vars, dims_of, is_step_info, longest, vars_of, GlobalAvgPool2D, PoolKind, Pooling, PoolingCtx,
};
use crate::layers::LayerError;
use crate::number::{msum, Element};
use crate::shape::{lemma_prod1, lemma_prod_append, lemma_prod_of_rank, prod};
use crate::tensor::pad::npots;
use crate::tensor::Tensor;
use vstd::arithmetic::power2::{lemma_pow2_adds, pow2};
use vstd::prelude::*;

verus! {

/// The next layer is told the shape of what it receives: the shape that is handed on for an input is that of the output
/// for an input of that shape.
pub proof fn law_handed_on_shape_is_that_of_the_output(
    out: &Tensor<Element>,
    input: &Tensor<Element>,
    pool: Pooling,
    id: usize,
    aux: &ContextAux,
    ctx: PoolingCtx,
    next: ContextAux,
    i: int,
)
    requires
        is_step_info(Ok((ctx, next)), pool, id, aux),
        0 <= i < aux.last_output_shape@.len(),
        input.shape@ == aux.last_output_shape@[i]@,
        pool.is_output(out, input),
    ensures
        next.last_output_shape@.len() == aux.last_output_shape@.len(),
        next.last_output_shape@[i]@ == out.shape@,
{
    let (ins, outs) = (dims_of(aux.last_output_shape@), dims_of(next.last_output_shape@));
    assert(outs[i] == next.last_output_shape@[i]@);
    assert(ins[i] == input.shape@);
    assert(context_rank(pool, ins[i]));
    assert(outs[i] =~= out.shape@);
}

/// The shape of the output, as it is computed without applying the layer, is that of the output.
pub proof fn law_computed_shape_is_that_of_the_output(
    r: Seq<usize>,
    out: &Tensor<Element>,
    input: &Tensor<Element>,
    pool: Pooling,
)
    requires
        input.shape@.len() == 3,
        pool.applies(input),
        pool.has_shape(input.shape@),
        pool.is_shape(r, input.shape@),
        pool.is_output(out, input),
    ensures
        r == out.shape@,
{
    assert(r =~= out.shape@);
}

proof fn lemma_vars(s: Seq<usize>)
    requires
        crate::tensor::pad::npots_fit(s),
    ensures
        pow2(vars_of(s)) == prod(npots(s)),
    decreases s.len(),
{
    vstd::arithmetic::power2::lemma2_to64();
    if s.len() > 0 {
        let t = s.drop_last();
        assert forall|i: int| 0 <= i < t.len() implies npot(#[trigger] t[i] as nat) <= usize::MAX by {
            assert(t[i] == s[i]);
        }
        lemma_vars(t);
        let last = npot(s.last() as nat) as usize;
        assert(npot(s[s.len() - 1] as nat) <= usize::MAX);
        assert(npots(s) =~= npots(t) + seq![last]);
        lemma_prod_append(npots(t), seq![last]);
        lemma_prod1(last);
        lemma_pow2_adds(vars_of(t), clog2(s.last() as nat));
        lemma_npot(s.last() as nat);
    }
}

/// The number of variables is that of the padded output: a table with that many variables has an entry for each entry
/// of the padded output of every input.
pub proof fn law_variables_are_those_of_the_output(
    pool: Pooling,
    id: usize,
    aux: &ContextAux,
    ctx: PoolingCtx,
    next: ContextAux,
    i: int,
)
    requires
        is_step_info(Ok((ctx, next)), pool, id, aux),
        0 <= i < aux.last_output_shape@.len(),
        forall|j: int|
            0 <= j < aux.last_output_shape@.len() ==> crate::layers::pooling::context_fits(
                pool,
                (#[trigger] aux.last_output_shape@[j])@,
            ),
    ensures
        pow2(ctx.num_vars as nat) == prod(npots(next.last_output_shape@[i]@)),
{
    let (ins, outs) = (dims_of(aux.last_output_shape@), dims_of(next.last_output_shape@));
    assert(outs[i] == next.last_output_shape@[i]@);
    assert(ins[i] == aux.last_output_shape@[i]@);
    assert(context_rank(pool, ins[i]));
    assert(context_vars(pool, ins[i]) == context_vars(pool, ins[0]));
    assert(crate::layers::pooling::context_fits(pool, aux.last_output_shape@[i]@));
    lemma_vars(outs[i]);
    if pool is GlobalAvgPool2D {
        let c = outs[i][0];
        assert(clog2(1) == 0);
        vstd::arithmetic::power2::lemma2_to64();
        assert(npot(1) == 1);
        lemma_npot(c as nat);
        assert(npot(outs[i][0] as nat) <= usize::MAX);
        assert(npots(outs[i]) =~= seq![npot(c as nat) as usize, 1usize, 1usize]);
        lemma_prod_of_rank(npots(outs[i]));
        let n = npot(c as nat) as int;
        assert(n * 1 * 1 == n && n * (1 * 1) == n) by (nonlinear_arith);
    }
}

/// The longest polynomial is at least as long as those so far and as the padded output of every input, and it is one of
/// them.
pub proof fn law_longest_polynomial(start: nat, ss: Seq<Seq<usize>>)
    ensures
        longest(start, ss) >= start,
        forall|i: int| 0 <= i < ss.len() ==> longest(start, ss) >= prod(npots(#[trigger] ss[i])),
        longest(start, ss) == start || exists|i: int|
            0 <= i < ss.len() && longest(start, ss) == prod(npots(#[trigger] ss[i])),
    decreases ss.len(),
{
    if ss.len() > 0 {
        let t = ss.drop_last();
        law_longest_polynomial(start, t);
        assert forall|i: int| 0 <= i < ss.len() implies longest(start, ss) >= prod(npots(#[trigger] ss[i])) by {
            if i < t.len() {
                assert(t[i] == ss[i]);
            }
        }
        if longest(start, ss) == longest(start, t) && longest(start, t) != start {
            let i = choose|i: int| 0 <= i < t.len() && longest(start, t) == prod(npots(#[trigger] t[i]));
            assert(ss[i] == t[i]);
        } else if longest(start, ss) != longest(start, t) {
            assert(ss[ss.len() - 1] == ss.last());
        }
    }
}

/// The context is that of the layer: it holds the layer itself, under the given id. A maximum looks values up in a
/// range, an average looks up nothing; tables that are in use stay so, and no table is entered twice.
pub proof fn law_context_is_that_of_the_layer(
    pool: Pooling,
    id: usize,
    aux: &ContextAux,
    ctx: PoolingCtx,
    next: ContextAux,
    t: TableType,
)
    requires
        is_step_info(Ok((ctx, next)), pool, id, aux),
    ensures
        ctx.layer() == pool,
        ctx.node_id == id,
        next.tables@.contains(t) <==> aux.tables@.contains(t) || (pool is Maxpool2D && t == TableType::Range),
        aux.tables@.no_duplicates() ==> next.tables@.no_duplicates(),
        next.last_unpadded_output_shape == aux.last_unpadded_output_shape,
        next.model_polys is None,
        next.max_poly_len >= aux.max_poly_len,
        pool matches Pooling::Maxpool2D(m) ==> ctx.pool_kind == PoolKind::MaxPool(m),
        pool matches Pooling::GlobalAvgPool2D(g) ==> ctx.pool_kind == PoolKind::GlobalAvgPool(g),
{
    law_longest_polynomial(aux.max_poly_len as nat, dims_of(next.last_output_shape@));
    let (old_tables, new_tables) = (aux.tables@, next.tables@);
    if new_tables != old_tables {
        assert(new_tables.last() == TableType::Range);
        assert(new_tables[new_tables.len() - 1] == TableType::Range);
        if old_tables.contains(t) {
            let i = choose|i: int| 0 <= i < old_tables.len() && old_tables[i] == t;
            assert(new_tables[i] == t);
        }
        if new_tables.contains(t) && t != TableType::Range {
            let i = choose|i: int| 0 <= i < new_tables.len() && new_tables[i] == t;
            assert(old_tables[i] == t);
        }
    }
}

/// A single input is rejected only where an average is taken of something that is not made of planes.
pub proof fn law_single_input(pool: Pooling, id: usize, aux: &ContextAux, e: LayerError)
    requires
        aux.last_output_shape@.len() == 1,
    ensures
        is_step_info(Err(e), pool, id, aux) <==> e == LayerError::InputRank && pool is GlobalAvgPool2D
            && aux.last_output_shape@[0]@.len() != 3,
{
    let ins = dims_of(aux.last_output_shape@);
    assert(ins[0] == aux.last_output_shape@[0]@);
    assert(forall|i: int| 0 <= i < ins.len() ==> i == 0 && #[trigger] ins[i] == ins[0]);
    if e == LayerError::InputRank && pool is GlobalAvgPool2D && aux.last_output_shape@[0]@.len() != 3 {
        assert(!context_rank(pool, ins[0]));
    }
}

/// The quotient is rounded toward zero: the remainder has the sign of the dividend and is less than the divisor, and
/// the quotient of the opposite is the opposite of the quotient.
pub proof fn law_rounded_toward_zero(a: int, n: int)
    requires
        n > 0,
    ensures
        a >= 0 ==> 0 <= a - n * trunc_div(a, n) < n,
        a <= 0 ==> -n < a - n * trunc_div(a, n) <= 0,
        trunc_div(-a, n) == -trunc_div(a, n),
{
    vstd::arithmetic::div_mod::lemma_fundamental_div_mod(a, n);
    vstd::arithmetic::div_mod::lemma_fundamental_div_mod(-a, n);
    let q = (-a) / n;
    assert(n * (-q) == -(n * q)) by (nonlinear_arith);
    assert(0int / n == 0) by {
        vstd::arithmetic::div_mod::lemma_basic_div(0, n);
    }
}

proof fn lemma_sum_bounds(n: nat, f: spec_fn(int) -> int, lo: int, hi: int)
    requires
        forall|p: int| 0 <= p < n ==> lo <= #[trigger] f(p) <= hi,
    ensures
        n * lo <= msum::<Element>(n, f) <= n * hi,
    decreases n,
{
    if n > 0 {
        lemma_sum_bounds((n - 1) as nat, f, lo, hi);
        assert(lo <= f(n - 1) <= hi);
        assert(n * lo == (n - 1) * lo + lo && n * hi == (n - 1) * hi + hi) by (nonlinear_arith);
        assert(msum::<Element>(n, f) == msum::<Element>((n - 1) as nat, f) + f(n - 1));
    } else {
        assert(0 * lo == 0 && 0 * hi == 0);
    }
}

/// The average of a plane lies between bounds on its entries; a plane with one value everywhere has that average. Other
/// planes do not matter.
pub proof fn law_average_is_between(
    gap: GlobalAvgPool2D,
    r: &Tensor<Element>,
    input: &Tensor<Element>,
    c: int,
    lo: int,
    hi: int,
)
    requires
        average_ok(gap, input),
        is_average(gap, r, input),
        gap.spatial_size == input.shape@[1] * input.shape@[2],
        0 <= c < input.shape@[0],
        forall|h: int, w: int|
            0 <= h < input.shape@[1] && 0 <= w < input.shape@[2] ==> lo <= #[trigger] input.data@[c * (input.shape@[1]
                * input.shape@[2]) + (h * input.shape@[2] + w)] <= hi,
    ensures
        r.shape@ == seq![input.shape@[0], 1usize, 1usize],
        lo <= r.data@[c] <= hi,
{
    let (h, w) = (input.shape@[1] as int, input.shape@[2] as int);
    let size = h * w;
    let f = plane_term(input.data@, size, c);
    assert forall|p: int| 0 <= p < size implies lo <= #[trigger] f(p) <= hi by {
        assert(w > 0) by (nonlinear_arith)
            requires
                0 <= p < h * w,
                w >= 0,
        ;
        crate::arith::lemma_grid_split(p, h, w);
        let (i, j) = (p / w, p % w);
        assert(lo <= input.data@[c * (h * w) + (i * w + j)] <= hi);
    }
    lemma_sum_bounds(size as nat, f, lo, hi);
    let s = msum::<Element>(size as nat, f);
    law_rounded_toward_zero(s, size);
    let q = trunc_div(s, size);
    assert(lo <= q <= hi) by (nonlinear_arith)
        requires
            size > 0,
            size * lo <= s <= size * hi,
            s >= 0 ==> 0 <= s - size * q < size,
            s <= 0 ==> -size < s - size * q <= 0,
    ;
    assert(r.shape@ =~= seq![input.shape@[0], 1usize, 1usize]);
}

/// The average times the number of entries is the sum of the plane, but for a remainder less than that number.
pub proof fn law_average_times_size(gap: GlobalAvgPool2D, r: &Tensor<Element>, input: &Tensor<Element>, c: int)
    requires
        average_ok(gap, input),
        is_average(gap, r, input),
        0 <= c < input.shape@[0],
    ensures
        ({
            let size = (input.shape@[1] * input.shape@[2]) as nat;
            let s = msum::<Element>(size, |p: int| input.data@[c * size + p] as int);
            let rest = s - gap.spatial_size * r.data@[c];
            &&& -gap.spatial_size < rest < gap.spatial_size
            &&& s >= 0 ==> rest >= 0
            &&& s <= 0 ==> rest <= 0
        }),
{
    let size = input.shape@[1] * input.shape@[2];
    assert(size >= 0) by (nonlinear_arith)
        requires
            size == input.shape@[1] * input.shape@[2],
    ;
    let f = plane_term(input.data@, size, c);
    let g = |p: int| input.data@[c * (size as nat) + p] as int;
    assert(f =~= g);
    law_rounded_toward_zero(msum::<Element>(size as nat, f), gap.spatial_size as int);
}

/// The number of variables of a plane is that of a padded plane: a table with that many variables has an entry for each
/// entry of a plane whose sides are rounded up to powers of two.
pub proof fn law_variables_of_a_plane(s: Seq<usize>)
    requires
        s.len() == 3,
    ensures
        pow2(spatial_vars(s)) == npot(s[1] as nat) * npot(s[2] as nat),
{
    lemma_pow2_adds(clog2(s[1] as nat), clog2(s[2] as nat));
}

/// A table that is made longer keeps its entries and adds up to the same.
pub proof fn law_longer_table(e: Seq<Fe>, n: nat)
    requires
        e.len() <= n,
    ensures
        resized(e, n).len() == n,
        resized(e, n).take(e.len() as int) == e,
        fsum(n, |i: int| resized(e, n)[i]) == fsum(e.len(), |i: int| e[i]),
{
    let r = resized(e, n);
    assert(r.take(e.len() as int) =~= e);
    let (f, g) = (|i: int| r[i], |i: int| e[i]);
    let z = (n - e.len()) as nat;
    crate::algebra::lemma_fsum_split(e.len(), z, f);
    let tail = |i: int| f(e.len() + i);
    assert forall|i: int| 0 <= i < z implies #[trigger] tail(i) == fzero() by {
        assert(r[e.len() + i] == fzero());
    }
    crate::algebra::lemma_fsum_zero(z, tail);
    assert forall|i: int| 0 <= i < e.len() implies #[trigger] f(i) == g(i) by {}
    lemma_fsum_eq(e.len(), f, g);
    crate::algebra::lemma_fsum_canon(e.len(), f);
    lemma_fadd_zero(fsum(e.len(), f));
}

/// Occurrences add up over the parts of a table.
pub proof fn law_occurrences_add_up(a: Seq<Fe>, b: Seq<Fe>, e: Element)
    ensures
        occurrences(a + b, e) == occurrences(a, e) + occurrences(b, e),
        occurrences(a, e) <= a.len(),
    decreases b.len(), a.len(),
{
    if b.len() == 0 {
        assert(a + b =~= a);
        if a.len() > 0 {
            law_occurrences_add_up(a.drop_last(), seq![], e);
        }
    } else {
        assert((a + b).drop_last() =~= a + b.drop_last());
        law_occurrences_add_up(a, b.drop_last(), e);
    }
}

/// A value occurs exactly where an entry has that value; a table that has it everywhere counts every entry, and each
/// entry is counted for one value only.
pub proof fn law_occurrences(table: Seq<Fe>, d: Element, e: Element)
    ensures
        occurrences(table, e) > 0 <==> exists|i: int| 0 <= i < table.len() && centered((#[trigger] table[i]).0) == e,
        (forall|i: int| 0 <= i < table.len() ==> centered((#[trigger] table[i]).0) == e) ==> occurrences(table, e)
            == table.len(),
        d != e ==> occurrences(table, d) + occurrences(table, e) <= table.len(),
    decreases table.len(),
{
    if table.len() > 0 {
        let t = table.drop_last();
        law_occurrences(t, d, e);
        assert(forall|i: int| 0 <= i < t.len() ==> #[trigger] t[i] == table[i]);
        assert(table[table.len() - 1] == table.last());
        if occurrences(t, e) > 0 {
            let i = choose|i: int| 0 <= i < t.len() && centered((#[trigger] t[i]).0) == e;
            assert(table[i] == t[i]);
        }
        if exists|i: int| 0 <= i < table.len() && centered((#[trigger] table[i]).0) == e {
            let i = choose|i: int| 0 <= i < table.len() && centered((#[trigger] table[i]).0) == e;
            if i < t.len() {
                assert(t[i] == table[i]);
            }
        }
        if forall|i: int| 0 <= i < table.len() ==> centered((#[trigger] table[i]).0) == e {
            assert forall|i: int| 0 <= i < t.len() implies centered((#[trigger] t[i]).0) == e by {
                assert(table[i] == t[i]);
            }
        }
    }
}

/// The counts of what is looked up have an entry for exactly the values that occur in a table.
pub proof fn law_counted_values(m: Map<Element, u64>, tables: Seq<Vec<GoldilocksExt2>>, e: Element)
    requires
        counts(m, |e: Element| total_occurrences(tables, e)),
    ensures
        m.contains_key(e) <==> exists|k: int, i: int| is_entry(tables, k, i, e),
        m.contains_key(e) ==> m[e] >= 1,
{
    let n = |e: Element| total_occurrences(tables, e);
    assert(m.contains_key(e) == (n(e) > 0));
    lemma_total_occurrences(tables, e);
}

/// Entry `i` of table `k` has the value `e`.
pub open spec fn is_entry(tables: Seq<Vec<GoldilocksExt2>>, k: int, i: int, e: Element) -> bool {
    0 <= k < tables.len() && 0 <= i < tables[k]@.len() && centered(tables[k]@[i].fe().0) == e
}

proof fn lemma_total_occurrences(tables: Seq<Vec<GoldilocksExt2>>, e: Element)
    ensures
        total_occurrences(tables, e) > 0 <==> exists|k: int, i: int| is_entry(tables, k, i, e),
    decreases tables.len(),
{
    if tables.len() > 0 {
        let t = tables.drop_last();
        let n = tables.len() - 1;
        lemma_total_occurrences(t, e);
        let last = fes(tables.last()@);
        law_occurrences(last, e, e);
        if total_occurrences(t, e) > 0 {
            let (k, i) = choose|k: int, i: int| is_entry(t, k, i, e);
            assert(is_entry(tables, k, i, e));
        }
        if occurrences(last, e) > 0 {
            let i = choose|i: int| 0 <= i < last.len() && centered((#[trigger] last[i]).0) == e;
            assert(is_entry(tables, n, i, e));
        }
        if exists|k: int, i: int| is_entry(tables, k, i, e) {
            let (k, i) = choose|k: int, i: int| is_entry(tables, k, i, e);
            if k < n {
                assert(is_entry(t, k, i, e));
            } else {
                assert(centered(last[i].0) == e);
            }
        }
    }
}

/// The occurrences in several tables add up.
pub proof fn law_total_occurrences(tables: Seq<Vec<GoldilocksExt2>>, table: Vec<GoldilocksExt2>, e: Element)
    ensures
        total_occurrences(tables.push(table), e) == total_occurrences(tables, e) + occurrences(fes(table@), e),
        total_occurrences(seq![], e) == 0,
{
    assert(tables.push(table).drop_last() =~= tables);
}

} // verus!

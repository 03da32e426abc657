//! What a pooling layer looks up.
use crate::arith::{ceil_log2, clog2};
use crate::fft::fes;
use crate::field::{centered, to_element, to_field, Fe, GoldilocksExt2};
use crate::layers::pooling::laws::fints;
use crate::layers::pooling::maxpool::{pool_table, polys_ok};
use crate::layers::pooling::Pooling;
use crate::layers::LayerError;
use crate::number::Element;
use crate::tensor::pool::is_pooled;
use crate::tensor::Tensor;
use std::collections::HashMap;
use vstd::prelude::*;

verus! {

/// The tables that are looked up, and how often every value occurs in them.
#[derive(Debug)]
pub struct PoolingWitness {
    pub column_evals: Vec<Vec<GoldilocksExt2>>,
    pub output_poly: Vec<GoldilocksExt2>,
    /// The number of variables of the tables.
    pub num_vars: usize,
    pub element_count: HashMap<Element, u64>,
}

/// How often `e` occurs in the table.
pub open spec fn occurrences(table: Seq<Fe>, e: Element) -> nat
    decreases table.len(),
{
    if table.len() == 0 {
        0
    } else {
        occurrences(table.drop_last(), e) + (if centered(table.last().0) == e {
            1nat
        } else {
            0
        })
    }
}

/// How often `e` occurs in all the tables.
pub open spec fn total_occurrences(tables: Seq<Vec<GoldilocksExt2>>, e: Element) -> nat
    decreases tables.len(),
{
    if tables.len() == 0 {
        0
    } else {
        total_occurrences(tables.drop_last(), e) + occurrences(fes(tables.last()@), e)
    }
}

/// The number of entries of all the tables.
pub open spec fn total_len(tables: Seq<Vec<GoldilocksExt2>>) -> nat
    decreases tables.len(),
{
    if tables.len() == 0 {
        0
    } else {
        total_len(tables.drop_last()) + tables.last()@.len()
    }
}

/// The map holds how often every value that occurs at all occurs.
pub open spec fn counts(m: Map<Element, u64>, n: spec_fn(Element) -> nat) -> bool {
    forall|e: Element| #[trigger] m.contains_key(e) == (n(e) > 0) && (n(e) > 0 ==> m[e] == n(e))
}

proof fn lemma_occurrences_bound(table: Seq<Fe>, e: Element)
    ensures
        occurrences(table, e) <= table.len(),
    decreases table.len(),
{
    if table.len() > 0 {
        lemma_occurrences_bound(table.drop_last(), e);
    }
}

proof fn lemma_total_occurrences_bound(tables: Seq<Vec<GoldilocksExt2>>, e: Element)
    ensures
        total_occurrences(tables, e) <= total_len(tables),
    decreases tables.len(),
{
    if tables.len() > 0 {
        lemma_total_occurrences_bound(tables.drop_last(), e);
        lemma_occurrences_bound(fes(tables.last()@), e);
    }
}

proof fn lemma_total_len_prefix(tables: Seq<Vec<GoldilocksExt2>>, i: int)
    requires
        0 <= i <= tables.len(),
    ensures
        total_len(tables.take(i)) <= total_len(tables),
    decreases tables.len() - i,
{
    if i < tables.len() {
        lemma_total_len_prefix(tables, i + 1);
        assert(tables.take(i + 1).drop_last() =~= tables.take(i));
    } else {
        assert(tables.take(i) =~= tables);
    }
}

fn increment(m: &mut HashMap<Element, u64>, e: Element)
    requires
        old(m)@.contains_key(e) ==> old(m)@[e] < u64::MAX,
    ensures
        final(m)@ == old(m)@.insert(
            e,
            if old(m)@.contains_key(e) {
                (old(m)@[e] + 1) as u64
            } else {
                1
            },
        ),
{
    broadcast use vstd::std_specs::hash::group_hash_axioms;

    let n: u64 = match m.get(&e) {
        Some(n) => *n + 1,
        None => 1,
    };
    m.insert(e, n);
}

/// How often every value occurs in the tables.
pub fn element_count(tables: &Vec<Vec<GoldilocksExt2>>) -> (r: HashMap<Element, u64>)
    requires
        total_len(tables@) <= u64::MAX,
    ensures
        counts(r@, |e: Element| total_occurrences(tables@, e)),
{
    broadcast use vstd::std_specs::hash::group_hash_axioms;

    let mut r: HashMap<Element, u64> = HashMap::new();
    let mut i: usize = 0;
    proof {
        assert(tables@.take(0) =~= Seq::empty());
    }
    while i < tables.len()
        invariant
            i <= tables@.len(),
            total_len(tables@) <= u64::MAX,
            counts(r@, |e: Element| total_occurrences(tables@.take(i as int), e)),
        decreases tables@.len() - i,
    {
        let table = &tables[i];
        let ghost before = tables@.take(i as int);
        proof {
            lemma_total_len_prefix(tables@, i + 1);
            assert(tables@.take(i + 1).drop_last() =~= before);
            assert(fes(table@).take(0) =~= Seq::empty());
        }
        let mut k: usize = 0;
        while k < table.len()
            invariant
                k <= table@.len(),
                total_len(before) + table@.len() <= u64::MAX,
                counts(
                    r@,
                    |e: Element| total_occurrences(before, e) + occurrences(fes(table@).take(k as int), e),
                ),
            decreases table@.len() - k,
        {
            let e = to_element(&table[k]);
            let ghost f = fes(table@);
            let ghost n = |e: Element| total_occurrences(before, e) + occurrences(f.take(k as int), e);
            let ghost n2 = |e: Element| total_occurrences(before, e) + occurrences(f.take(k + 1), e);
            proof {
                assert(f.take(k + 1).drop_last() =~= f.take(k as int));
                lemma_total_occurrences_bound(before, e);
                lemma_occurrences_bound(f.take(k as int), e);
                assert(r@.contains_key(e) == (n(e) > 0));
                assert forall|d: Element| #[trigger] n2(d) == n(d) + (if d == e {
                    1nat
                } else {
                    0
                }) by {}
            }
            let ghost was = r@;
            increment(&mut r, e);
            proof {
                assert forall|d: Element| #[trigger] r@.contains_key(d) == (n2(d) > 0) && (n2(d) > 0 ==> r@[d] == n2(d)) by {
                    assert(was.contains_key(d) == (n(d) > 0));
                    assert(n2(d) == n(d) + (if d == e {
                        1nat
                    } else {
                        0
                    }));
                }
                assert(counts(r@, n2));
            }
            k = k + 1;
        }
        proof {
            let all = tables@.take(i + 1);
            assert(fes(table@).take(k as int) =~= fes(table@));
            let n = |e: Element| total_occurrences(before, e) + occurrences(fes(table@), e);
            let n2 = |e: Element| total_occurrences(all, e);
            assert forall|d: Element| #[trigger] n2(d) == n(d) by {}
            assert forall|d: Element| #[trigger] r@.contains_key(d) == (n2(d) > 0) && (n2(d) > 0 ==> r@[d] == n2(d)) by {
                assert(n2(d) == n(d));
            }
            assert(counts(r@, n2));
        }
        i = i + 1;
    }
    proof {
        assert(tables@.take(i as int) =~= tables@);
    }
    r
}

/// The entries as field elements.
fn to_base(data: &[Element]) -> (r: Vec<GoldilocksExt2>)
    ensures
        fes(r@) == fints(data@),
{
    let mut r: Vec<GoldilocksExt2> = Vec::with_capacity(data.len());
    let mut i: usize = 0;
    while i < data.len()
        invariant
            i <= data@.len(),
            r@.len() == i,
            forall|j: int| 0 <= j < i ==> (#[trigger] r@[j]).fe() == fints(data@)[j],
        decreases data@.len() - i,
    {
        r.push(to_field(data[i]));
        i = i + 1;
    }
    proof {
        assert(fes(r@) =~= fints(data@));
    }
    r
}

impl Pooling {
    /// What the layer looks up for one input and one output; nothing for an average.
    pub fn gen_lookup_witness(&self, inputs: &Vec<Tensor<Element>>, outputs: &Vec<Tensor<Element>>) -> (r: Result<
        Option<PoolingWitness>,
        LayerError,
    >)
        requires
            inputs@.len() == 1 && outputs@.len() == 1 ==> {
                &&& self matches Pooling::Maxpool2D(info) ==> polys_ok(*info, &inputs@[0])
                &&& crate::arith::npot(outputs@[0].data@.len()) <= usize::MAX
            },
        ensures
            match r {
                Ok(None) => inputs@.len() == 1 && outputs@.len() == 1 && *self is GlobalAvgPool2D,
                Ok(Some(w)) => {
                    &&& inputs@.len() == 1
                    &&& outputs@.len() == 1
                    &&& *self is Maxpool2D
                    &&& w.column_evals@.len() == 4
                    &&& exists|o: Tensor<Element>| #[trigger]
                        is_pooled(&o, &inputs@[0], 2, 2) && forall|i: int|
                            0 <= i < 4 ==> fes((#[trigger] w.column_evals@[i])@) == pool_table(&o, &inputs@[0], i)
                    &&& fes(w.output_poly@) == fints(outputs@[0].data@)
                    &&& w.num_vars == clog2(outputs@[0].data@.len())
                    &&& counts(w.element_count@, |e: Element| total_occurrences(w.column_evals@, e))
                },
                Err(e) => {
                    ||| e == LayerError::InputCount && inputs@.len() != 1
                    ||| e == LayerError::OutputCount && inputs@.len() == 1 && outputs@.len() != 1
                },
            },
    {
        if inputs.len() != 1 {
            return Err(LayerError::InputCount);
        }
        if outputs.len() != 1 {
            return Err(LayerError::OutputCount);
        }
        match self {
            Pooling::GlobalAvgPool2D(_) => Ok(None),
            Pooling::Maxpool2D(info) => {
                let column_evals = info.compute_polys(&inputs[0]);
                proof {
                    let o = choose|o: Tensor<Element>| #[trigger]
                        is_pooled(&o, &inputs@[0], 2, 2) && forall|i: int|
                            0 <= i < 4 ==> fes((#[trigger] column_evals@[i])@) == pool_table(&o, &inputs@[0], i);
                    lemma_total_len_of_four(column_evals@, &o, &inputs@[0]);
                }
                let element_count = element_count(&column_evals);
                let output_poly = to_base(&outputs[0].data);
                proof {
                    assert(fes(output_poly@).len() == output_poly@.len());
                }
                let num_vars = ceil_log2(output_poly.len());
                Ok(Some(PoolingWitness { column_evals, output_poly, num_vars, element_count }))
            },
        }
    }
}

proof fn lemma_total_len_of_four(tables: Seq<Vec<GoldilocksExt2>>, o: &Tensor<Element>, input: &Tensor<Element>)
    requires
        tables.len() == 4,
        input.wf(),
        input.shape@.len() == 3,
        crate::tensor::pool::poolable(input.shape@, 2, 2),
        crate::tensor::pad::paddable(input),
        is_pooled(o, input, 2, 2),
        forall|i: int| 0 <= i < 4 ==> fes((#[trigger] tables[i])@) == pool_table(o, input, i),
    ensures
        total_len(tables) <= usize::MAX,
{
    crate::layers::pooling::maxpool::lemma_pool_sizes(o, input);
    let s = input.shape@;
    let c = crate::arith::npot(s[0] as nat) as int;
    let h2 = crate::arith::npot(s[1] as nat) as int / 2;
    let w2 = crate::layers::pooling::maxpool::half_width(input);
    assert(c * ((2 * h2) * (2 * w2)) == 4 * (c * (h2 * w2))) by (nonlinear_arith);
    reveal_with_fuel(total_len, 5);
    assert forall|i: int| 0 <= i < 4 implies (#[trigger] tables[i])@.len() <= c * (h2 * w2) by {
        assert(fes(tables[i]@).len() == tables[i]@.len());
        assert(fes(tables[i]@) == pool_table(o, input, i));
    }
    let t3 = tables.drop_last();
    let t2 = t3.drop_last();
    let t1 = t2.drop_last();
    assert(t3.last() == tables[2]);
    assert(t2.last() == tables[1]);
    assert(t1.last() == tables[0]);
    assert(t1.drop_last().len() == 0);
    assert(tables.last() == tables[3]);
}

} // verus!

//! The products of tables that the sum for a maximum layer adds up, and the values that its proof brings.
use crate::algebra::{lemma_fsum_eq, lemma_fsum_scale, lemma_fsum_split};
use crate::arith::{ceil_log2, clog2};
use crate::fft::fes;
use crate::field::{
    canon, fadd, fmul, fone, fpow, fsum, fzero, lemma_fadd_comm, lemma_fadd_zero, lemma_fmul_assoc, lemma_fmul_comm,
    lemma_fmul_one, lemma_ops_canon, Fe, GoldilocksExt2,
};
use crate::iop::delegation::betas;
use crate::iop::{Claim, Term};
use crate::layers::pooling::claims::{product_from, summand, zerocheck_tables, MaxPoolValues};
use crate::layers::pooling::laws::entries_at;
use crate::layers::pooling::PoolingCtx;
use crate::mle::{chi, lemma_chi_canon};
use crate::tensor::copy_slice;
use crate::tensor::fft_conv::fes2;
use vstd::arithmetic::power2::pow2;
use vstd::prelude::*;

verus! {

/// The number of places of a window, each of which has a column in the lookup.
pub const WINDOW_PLACES: usize = 4;

/// The product of the entries at corner `k`, times the coefficient.
pub open spec fn term_at(t: &Term, k: int) -> Fe {
    product_from(t.coefficient.fe(), entries_at(fes2(t.tables@), k), t.tables@.len())
}

/// What the terms add up to at corner `k`.
pub open spec fn terms_at(terms: Seq<Term>, k: int) -> Fe {
    fsum(terms.len(), |j: int| term_at(&terms[j], k))
}

/// The term is the coefficient times the tables.
pub open spec fn is_term(t: &Term, coefficient: Fe, tables: Seq<Seq<Fe>>) -> bool {
    t.coefficient.fe() == coefficient && fes2(t.tables@) == tables
}

/// The terms of the sum for a maximum layer: the product of the columns and of the corner polynomials of `p`, each column
/// times those, and the output times the corner polynomials of `last`; from the second term on, the powers of the
/// challenge are the coefficients.
pub open spec fn are_maxpool_terms(
    terms: Seq<Term>,
    columns: Seq<Seq<Fe>>,
    out: Seq<Fe>,
    p: Seq<Fe>,
    last: Seq<Fe>,
    b: Fe,
) -> bool {
    let n = columns.len() as int;
    &&& terms.len() == n + 2
    &&& is_term(&terms[0], fone(), columns.push(betas(p)))
    &&& forall|j: int| 1 <= j <= n ==> is_term(&#[trigger] terms[j], fpow(b, j as nat), seq![columns[j - 1], betas(p)])
    &&& is_term(&terms[n + 1], fpow(b, (n + 1) as nat), seq![out, betas(last)])
}

/// Copies of the tables.
fn copy_tables(v: &Vec<Vec<GoldilocksExt2>>) -> (r: Vec<Vec<GoldilocksExt2>>)
    ensures
        fes2(r@) == fes2(v@),
        r@.len() == v@.len(),
{
    let mut r: Vec<Vec<GoldilocksExt2>> = Vec::with_capacity(v.len());
    let mut i: usize = 0;
    while i < v.len()
        invariant
            i <= v@.len(),
            r@.len() == i,
            forall|j: int| 0 <= j < i ==> (#[trigger] r@[j])@ == v@[j]@,
        decreases v@.len() - i,
    {
        r.push(copy_slice(&v[i]));
        i = i + 1;
    }
    proof {
        assert(fes2(r@) =~= fes2(v@));
    }
    r
}

/// The terms of the sum for a maximum layer, from the columns of its lookup and its output.
pub fn maxpool_terms(
    columns: &Vec<Vec<GoldilocksExt2>>,
    output: Vec<GoldilocksExt2>,
    lookup_point: &[GoldilocksExt2],
    last_claim: &Claim,
    batch_challenge: &GoldilocksExt2,
) -> (r: Vec<Term>)
    requires
        pow2(lookup_point@.len()) <= usize::MAX,
        pow2(last_claim.point@.len()) <= usize::MAX,
        columns@.len() + 2 <= usize::MAX,
    ensures
        are_maxpool_terms(
            r@,
            fes2(columns@),
            fes(output@),
            fes(lookup_point@),
            last_claim.at(),
            batch_challenge.fe(),
        ),
{
    let n: usize = columns.len();
    let t = zerocheck_tables(lookup_point, last_claim, batch_challenge, n);
    let ghost (cols, out, p, last, b) = (
        fes2(columns@),
        fes(output@),
        fes(lookup_point@),
        last_claim.at(),
        batch_challenge.fe(),
    );
    proof {
        assert(fes(t.beta@) =~= betas(p));
        assert(fes(t.last_beta@) =~= betas(last));
        assert(cols.len() == n);
    }
    let mut all = copy_tables(columns);
    let ghost some = all@;
    all.push(copy_slice(&t.beta));
    proof {
        assert(fes2(all@) =~= fes2(some).push(betas(p)));
    }
    let mut r: Vec<Term> = vec![Term { coefficient: GoldilocksExt2::one(), tables: all }];
    let mut i: usize = 0;
    while i < n
        invariant
            i <= n,
            n == columns@.len(),
            cols == fes2(columns@),
            fes(t.beta@) == betas(p),
            t.coefficients@.len() == n + 1,
            forall|j: int| 0 <= j <= n ==> (#[trigger] t.coefficients@[j]).fe() == fpow(b, (j + 1) as nat),
            r@.len() == i + 1,
            is_term(&r@[0], fone(), cols.push(betas(p))),
            forall|j: int| 1 <= j <= i ==> is_term(&#[trigger] r@[j], fpow(b, j as nat), seq![cols[j - 1], betas(p)]),
        decreases n - i,
    {
        let pair = vec![copy_slice(&columns[i]), copy_slice(&t.beta)];
        proof {
            assert(fes2(pair@) =~= seq![cols[i as int], betas(p)]);
            assert(t.coefficients@[i as int].fe() == fpow(b, (i + 1) as nat));
        }
        r.push(Term { coefficient: t.coefficients[i], tables: pair });
        i = i + 1;
    }
    let pair = vec![output, t.last_beta];
    proof {
        assert(fes2(pair@) =~= seq![out, betas(last)]);
        assert(t.coefficients@[n as int].fe() == fpow(b, (n + 1) as nat));
    }
    r.push(Term { coefficient: t.coefficients[n], tables: pair });
    r
}

/// A factor can be taken out of a product.
proof fn lemma_product_factor(start: Fe, x: Seq<Fe>, n: nat)
    requires
        canon(start),
    ensures
        product_from(start, x, n) == fmul(start, product_from(fone(), x, n)),
    decreases n,
{
    if n == 0 {
        lemma_fmul_one(start);
    } else {
        let m = (n - 1) as nat;
        lemma_product_factor(start, x, m);
        lemma_fmul_assoc(start, product_from(fone(), x, m), x[m as int]);
    }
}

proof fn lemma_product_prefix(start: Fe, x: Seq<Fe>, y: Seq<Fe>, n: nat)
    requires
        forall|i: int| 0 <= i < n ==> #[trigger] x[i] == y[i],
    ensures
        product_from(start, x, n) == product_from(start, y, n),
    decreases n,
{
    if n > 0 {
        lemma_product_prefix(start, x, y, (n - 1) as nat);
        assert(x[n - 1] == y[n - 1]);
    }
}

/// At every corner the terms add up to the summand that the checks of the proof speak of.
pub proof fn law_maxpool_terms(
    terms: Seq<Term>,
    columns: Seq<Seq<Fe>>,
    out: Seq<Fe>,
    p: Seq<Fe>,
    last: Seq<Fe>,
    b: Fe,
    k: int,
)
    requires
        are_maxpool_terms(terms, columns, out, p, last, b),
        0 <= k < pow2(p.len()),
        p.len() == last.len(),
    ensures
        terms_at(terms, k) == summand(entries_at(columns, k), out[k], chi(k, p), chi(k, last), b),
{
    let n = columns.len();
    let d = entries_at(columns, k);
    let (x, y) = (chi(k, p), chi(k, last));
    let g = |j: int| term_at(&terms[j], k);
    lemma_chi_canon(k, p);
    lemma_chi_canon(k, last);
    reveal_with_fuel(product_from, 3);
    // the product of all columns
    let all = entries_at(columns.push(betas(p)), k);
    assert(g(0) == product_from(x, d, n)) by {
        assert(fes2(terms[0].tables@).len() == terms[0].tables@.len());
        assert(all[n as int] == x);
        lemma_product_prefix(fone(), all, d, n);
        lemma_product_factor(x, d, n);
        lemma_fmul_comm(x, product_from(fone(), d, n));
    }
    // the columns, one by one
    let h = |i: int| g(1 + i);
    let f = |i: int| fmul(d[i], fpow(b, (i + 1) as nat));
    let s = |i: int| fmul(x, f(i));
    assert forall|i: int| 0 <= i < n implies #[trigger] h(i) == s(i) by {
        let t = terms[i + 1];
        assert(is_term(&terms[i + 1], fpow(b, (i + 1) as nat), seq![columns[i], betas(p)]));
        assert(fes2(t.tables@).len() == t.tables@.len());
        let c = fpow(b, (i + 1) as nat);
        let e = entries_at(fes2(t.tables@), k);
        assert(e[0] == d[i] && e[1] == x);
        assert(product_from(c, e, 2) == fmul(fmul(c, d[i]), x));
        lemma_fmul_comm(c, d[i]);
        lemma_fmul_comm(fmul(c, d[i]), x);
    }
    lemma_fsum_eq(n, h, s);
    lemma_fsum_scale(n, x, f);
    lemma_fmul_comm(x, fsum(n, f));
    // the output
    assert(g((n + 1) as int) == fmul(fmul(out[k], y), fpow(b, n + 1))) by {
        let t = terms[(n + 1) as int];
        assert(fes2(t.tables@).len() == t.tables@.len());
        let c = fpow(b, n + 1);
        let e = entries_at(fes2(t.tables@), k);
        assert(e[0] == out[k] && e[1] == y);
        assert(product_from(c, e, 2) == fmul(fmul(c, out[k]), y));
        lemma_fmul_assoc(c, out[k], y);
        lemma_fmul_comm(c, fmul(out[k], y));
    }
    lemma_fsum_split(1, n, g);
    lemma_fsum_eq(n, |i: int| g(1 + i), h);
    assert(fsum(1, g) == g(0)) by {
        assert(fsum(0, g) == fzero());
        assert(fsum(1, g) == fadd(fsum(0, g), g(0)));
        lemma_product_factor(x, d, n);
        lemma_ops_canon(x, product_from(fone(), d, n));
        lemma_fadd_comm(fzero(), g(0));
        lemma_fadd_zero(g(0));
    }
    assert(fsum(n + 2, g) == fadd(fsum(n + 1, g), g((n + 1) as int)));
    assert(1 + n == n + 1);
}

/// What a proof of a maximum layer brings, from the values of the tables in the order of their first occurrence in the
/// terms: those of the columns and, behind that of the corner polynomials, that of the output.
pub fn maxpool_values(evals: &[GoldilocksExt2], places: usize, row_length: usize) -> (r: MaxPoolValues)
    requires
        evals@.len() >= places + 2,
        row_length >= 2,
    ensures
        r.zerocheck_evals@ == evals@.take(places as int).push(evals@[places + 1]),
        r.variable_gap == clog2(row_length as nat) - 1,
{
    let mut zerocheck_evals: Vec<GoldilocksExt2> = Vec::with_capacity(evals.len());
    let mut i: usize = 0;
    while i < places
        invariant
            i <= places,
            evals@.len() >= places + 2,
            zerocheck_evals@ == evals@.take(i as int),
        decreases places - i,
    {
        zerocheck_evals.push(evals[i]);
        proof {
            assert(evals@.take(i + 1) =~= evals@.take(i as int).push(evals@[i as int]));
        }
        i = i + 1;
    }
    zerocheck_evals.push(evals[places + 1]);
    let vars: usize = ceil_log2(row_length);
    MaxPoolValues { zerocheck_evals, variable_gap: vars - 1 }
}

impl PoolingCtx {
    /// The numbers of variables of the tables whose product is the longest term of a maximum layer.
    pub fn zerocheck_sizes(&self) -> (r: Vec<usize>)
        ensures
            r@ == Seq::new((WINDOW_PLACES + 1) as nat, |i: int| self.num_vars),
    {
        let v: usize = self.num_vars;
        let r: Vec<usize> = vec![v, v, v, v, v];
        proof {
            assert(r@ =~= Seq::new((WINDOW_PLACES + 1) as nat, |i: int| self.num_vars));
        }
        r
    }
}

impl MaxPoolValues {
    /// Does the proof hold the value of the output, and do the points fit each other and the proof?
    pub fn fits(
        &self,
        lookup_point: &[GoldilocksExt2],
        last_claim: &Claim,
        zerocheck_point: &[GoldilocksExt2],
    ) -> (r: bool)
        ensures
            r == {
                &&& self.zerocheck_evals@.len() >= 1
                &&& self.variable_gap <= zerocheck_point@.len()
                &&& lookup_point@.len() == zerocheck_point@.len()
                &&& last_claim.point@.len() == zerocheck_point@.len()
                &&& zerocheck_point@.len() + 2 <= usize::MAX
            },
    {
        self.zerocheck_evals.len() >= 1 && self.variable_gap <= zerocheck_point.len() && lookup_point.len()
            == zerocheck_point.len() && last_claim.point.len() == zerocheck_point.len() && zerocheck_point.len()
            <= usize::MAX - 2
    }
}

} // verus!

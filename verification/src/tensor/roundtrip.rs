//! Cropping a padded tensor gives the tensor back, and padding it once more changes nothing.
use crate::arith::{is_pow2, lemma_npot, npot};
use crate::shape::{coords, flat, in_bounds, lemma_coords_flat, lemma_flat_bound, lemma_flat_coords, prod};
use crate::tensor::access::{is_corner, lemma_flat3};
use crate::tensor::pad::{all_pow2, npots, npots_fit, padded, padded_at};
use vstd::prelude::*;

verus! {

/// Cropping undoes padding: the corner of the shape that a tensor had before padding holds its entries.
pub proof fn law_crop_undoes_padding<T>(x: Seq<T>, s: Seq<usize>, t: Seq<usize>, fill: T, r: Seq<T>)
    requires
        s.len() == 3,
        t.len() == 3,
        forall|i: int| 0 <= i < 3 ==> #[trigger] s[i] <= t[i],
        x.len() == prod(s),
        r.len() == prod(s),
        is_corner(r, s, padded(x, s, t, fill), t),
    ensures
        r == x,
{
    let p = padded(x, s, t, fill);
    assert forall|k: int| 0 <= k < r.len() implies r[k] == x[k] by {
        let c = coords(s, k);
        lemma_flat_coords(s, k);
        assert(c =~= seq![c[0], c[1], c[2]]);
        lemma_flat3(s, c[0], c[1], c[2]);
        lemma_flat3(t, c[0], c[1], c[2]);
        assert(in_bounds(t, c)) by {
            assert forall|i: int| 0 <= i < t.len() implies 0 <= #[trigger] c[i] < t[i] by {
                assert(s[i] <= t[i]);
            }
        }
        lemma_flat_bound(t, c);
        lemma_coords_flat(t, c);
        assert(0 <= c[0] < s[0] && 0 <= c[1] < s[1] && 0 <= c[2] < s[2]);
        assert(p[flat(t, c)] == x[flat(s, c)]);
    }
    assert(r =~= x);
}

/// A dimension is rounded up to the least power of two that reaches it.
pub proof fn law_powers_of_two(s: Seq<usize>, i: int)
    requires
        npots_fit(s),
        0 <= i < s.len(),
    ensures
        npots(s).len() == s.len(),
        is_pow2(npots(s)[i] as int),
        s[i] <= npots(s)[i],
        s[i] >= 1 ==> npots(s)[i] < 2 * s[i],
{
    lemma_npot(s[i] as nat);
    assert(npot(s[i] as nat) <= usize::MAX);
}

/// Cropping a tensor that was padded to powers of two to its shape gives the tensor back.
pub proof fn law_crop_undoes_padding_to_powers_of_two<T>(x: Seq<T>, s: Seq<usize>, fill: T, r: Seq<T>)
    requires
        s.len() == 3,
        npots_fit(s),
        x.len() == prod(s),
        r.len() == prod(s),
        is_corner(r, s, padded(x, s, npots(s), fill), npots(s)),
    ensures
        r == x,
{
    assert forall|i: int| 0 <= i < 3 implies #[trigger] s[i] <= npots(s)[i] by {
        law_powers_of_two(s, i);
    }
    law_crop_undoes_padding(x, s, npots(s), fill, r);
}

/// A tensor that was padded to powers of two is not changed by padding it once more.
pub proof fn law_padding_twice<T>(x: Seq<T>, s: Seq<usize>, fill: T)
    requires
        npots_fit(s),
        x.len() == prod(s),
    ensures
        all_pow2(npots(s)),
        npots(npots(s)) == npots(s),
        padded(padded(x, s, npots(s), fill), npots(s), npots(npots(s)), fill) == padded(x, s, npots(s), fill),
{
    let t = npots(s);
    assert forall|i: int| 0 <= i < t.len() implies is_pow2(#[trigger] t[i] as int) && npots(t)[i] == t[i] by {
        law_powers_of_two(s, i);
        lemma_npot(t[i] as nat);
    }
    assert(npots(t) =~= t);
    let p = padded(x, s, t, fill);
    assert forall|k: int| 0 <= k < p.len() implies padded_at(p, t, t, fill, k) == p[k] by {
        lemma_flat_coords(t, k);
    }
    assert(padded(p, t, t, fill) =~= p);
}

} // verus!

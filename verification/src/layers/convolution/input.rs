//! The input that a convolution by Fourier transform works on.
use crate::arith::{lemma_npot, npot};
use crate::layers::convolution::clearing::{lemma_idx3_digits, lemma_idx3_split};
use crate::number::Element;
use crate::shape::{in_bounds, lemma_coords_flat, lemma_prod3, lemma_prod_of_rank, prod, Shape};
use crate::tensor::access::{dims4, framed_at, idx3, idx4, lemma_flat3, lemma_idx3};
use crate::tensor::pad::{npots, npots_fit, padded_at};
use crate::tensor::Tensor;
use vstd::prelude::*;

verus! {

/// The entry of channel `c`, line `y` and column `x` of an input that is cut to the shape `us` and framed
/// by `ph` lines and `pw` columns of `fill`.
pub open spec fn framed_entry<T>(
    d: Seq<T>,
    s: Seq<usize>,
    us: Seq<usize>,
    ph: int,
    pw: int,
    fill: T,
    c: int,
    y: int,
    x: int,
) -> T {
    if c < us[0] && ph <= y < ph + us[1] && pw <= x < pw + us[2] {
        d[idx3(s[1] as int, s[2] as int, c, y - ph, x - pw)]
    } else {
        fill
    }
}

/// The shape of the framed input, each dimension rounded up to a power of two.
pub open spec fn framed_dims(us: Seq<usize>, ph: int, pw: int) -> (int, int, int) {
    (npot(us[0] as nat) as int, npot((us[1] + 2 * ph) as nat) as int, npot((us[2] + 2 * pw) as nat) as int)
}

/// The input `d` of shape `s`, cut to the shape `us`, framed by `ph` lines and `pw` columns of `fill` and
/// filled up until every dimension is a power of two.
pub open spec fn framed_input<T>(d: Seq<T>, s: Seq<usize>, us: Seq<usize>, ph: int, pw: int, fill: T) -> Seq<T> {
    let (cs, hs, ws) = framed_dims(us, ph, pw);
    Seq::new(
        (cs * (hs * ws)) as nat,
        |p: int| framed_entry(d, s, us, ph, pw, fill, p / (hs * ws), (p % (hs * ws)) / ws, (p % (hs * ws)) % ws),
    )
}

/// The input holds one of the shape `us`, and the framed input is not too large.
pub open spec fn framing_ok(s: Seq<usize>, us: Seq<usize>, ph: int, pw: int) -> bool {
    let (cs, hs, ws) = framed_dims(us, ph, pw);
    &&& s.len() == 3
    &&& us.len() == 3
    &&& us[0] <= s[0]
    &&& us[1] <= s[1]
    &&& us[2] <= s[2]
    &&& us[0] > 0
    &&& us[1] + 2 * ph > 0
    &&& us[2] + 2 * pw > 0
    &&& cs <= usize::MAX
    &&& hs <= usize::MAX
    &&& ws <= usize::MAX
    &&& hs * ws <= usize::MAX
    &&& cs * (hs * ws) <= usize::MAX
}

/// An entry of a padded tensor of rank three.
pub proof fn lemma_padded3<T>(data: Seq<T>, s: Seq<usize>, t: Seq<usize>, fill: T, c: int, h: int, w: int)
    requires
        s.len() == 3,
        t.len() == 3,
        0 <= c < t[0],
        0 <= h < t[1],
        0 <= w < t[2],
    ensures
        padded_at(data, s, t, fill, idx3(t[1] as int, t[2] as int, c, h, w)) == (if c < s[0] && h < s[1] && w < s[2] {
            data[idx3(s[1] as int, s[2] as int, c, h, w)]
        } else {
            fill
        }),
        0 <= idx3(t[1] as int, t[2] as int, c, h, w) < prod(t),
{
    let k = seq![c, h, w];
    lemma_flat3(t, c, h, w);
    lemma_flat3(s, c, h, w);
    assert(in_bounds(t, k));
    lemma_coords_flat(t, k);
    lemma_prod_of_rank(t);
    lemma_idx3(t[0] as int, t[1] as int, t[2] as int, c, h, w);
    if in_bounds(s, k) {
        assert(0 <= k[0] < s[0] && 0 <= k[1] < s[1] && 0 <= k[2] < s[2]);
    }
}

/// An entry of the framed input.
pub proof fn lemma_framed_input<T>(
    d: Seq<T>,
    s: Seq<usize>,
    us: Seq<usize>,
    ph: int,
    pw: int,
    fill: T,
    c: int,
    y: int,
    x: int,
)
    requires
        0 <= c < framed_dims(us, ph, pw).0,
        0 <= y < framed_dims(us, ph, pw).1,
        0 <= x < framed_dims(us, ph, pw).2,
    ensures
        ({
            let (cs, hs, ws) = framed_dims(us, ph, pw);
            &&& 0 <= idx3(hs, ws, c, y, x) < cs * (hs * ws)
            &&& framed_input(d, s, us, ph, pw, fill)[idx3(hs, ws, c, y, x)] == framed_entry(
                d,
                s,
                us,
                ph,
                pw,
                fill,
                c,
                y,
                x,
            )
        }),
{
    let (cs, hs, ws) = framed_dims(us, ph, pw);
    lemma_idx3(cs, hs, ws, c, y, x);
    lemma_idx3_digits(hs, ws, c, y, x);
}

/// The input cut to `unpadded`, framed with zeros and padded with zeros until every dimension is a power of
/// two.
pub(crate) fn frame_input(input: &Tensor<Element>, unpadded: &Shape, ph: usize, pw: usize) -> (r: Tensor<Element>)
    requires
        input.wf(),
        framing_ok(input.shape@, unpadded@, ph as int, pw as int),
        !(ph == 0 && pw == 0),
    ensures
        r.wf(),
        r.shape@.len() == 3,
        ({
            let d = framed_dims(unpadded@, ph as int, pw as int);
            r.shape@[0] == d.0 && r.shape@[1] == d.1 && r.shape@[2] == d.2
        }),
        r.data@ == framed_input(input.data@, input.shape@, unpadded@, ph as int, pw as int, 0),
{
    let ghost us = unpadded@;
    let ghost (hh, ww) = (us[1] + 2 * ph, us[2] + 2 * pw);
    let ghost fd = framed_dims(us, ph as int, pw as int);
    proof {
        lemma_npot(us[0] as nat);
        lemma_npot(hh as nat);
        lemma_npot(ww as nat);
        assert(hh * ww <= fd.1 * fd.2) by (nonlinear_arith)
            requires
                0 <= hh <= fd.1,
                0 <= ww <= fd.2,
        ;
        let (a, b, e) = (us[0] as int, hh * ww, fd.1 * fd.2);
        assert(0 <= b) by (nonlinear_arith)
            requires
                b == hh * ww,
                0 <= hh,
                0 <= ww,
        ;
        assert(a * b <= fd.0 * e && b <= e) by (nonlinear_arith)
            requires
                0 <= a <= fd.0,
                0 <= b <= e,
        ;
    }
    let cut = input.crop_to(unpadded);
    proof {
        assert(dims4(us) == (1int, us[0] as int, us[1] as int, us[2] as int));
        lemma_prod_of_rank(us);
        assert(1 * (us[0] * (us[1] * us[2])) == prod(us));
        assert(1 * (us[0] * (hh * ww)) == us[0] * (hh * ww));
    }
    let spatially = cut.zero_pad_spatial(ph, pw);
    let ghost fs = spatially.shape@;
    proof {
        assert(fs =~= seq![us[0], hh as usize, ww as usize]);
        let t = npots(fs);
        assert(t =~= seq![fd.0 as usize, fd.1 as usize, fd.2 as usize]);
        lemma_prod3(fd.0 as usize, fd.1 as usize, fd.2 as usize);
        assert(crate::shape::nonzero(fs));
        assert(npots_fit(fs));
    }
    let r = spatially.pad_next_power_of_two();
    proof {
        let want = framed_input(input.data@, input.shape@, us, ph as int, pw as int, 0i64);
        let t = npots(fs);
        assert forall|p: int| 0 <= p < want.len() implies r.data@[p] == want[p] by {
            lemma_idx3_split(fd.0, fd.1, fd.2, p);
            let (c, y, x) = (p / (fd.1 * fd.2), (p % (fd.1 * fd.2)) / fd.2, (p % (fd.1 * fd.2)) % fd.2);
            lemma_padded3(spatially.data@, fs, t, 0i64, c, y, x);
            assert(r.data@[p] == padded_at(spatially.data@, fs, t, 0i64, p));
            if c < us[0] && y < hh && x < ww {
                let d = dims4(us);
                assert(idx4(d.1, hh, ww, 0, c, y, x) == idx3(hh, ww, c, y, x)) by {
                    assert(0 * (d.1 * (hh * ww)) == 0);
                }
                assert(spatially.data@[idx4(d.1, hh, ww, 0, c, y, x)] == framed_at(
                    cut.data@,
                    d,
                    ph as int,
                    pw as int,
                    0i64,
                    0,
                    c,
                    y,
                    x,
                ));
                if ph <= y < ph + us[1] && pw <= x < pw + us[2] {
                    assert(0 * (us[0] * (us[1] * us[2])) == 0);
                    if input.shape@ != us {
                        assert(cut.data@[idx3(us[1] as int, us[2] as int, c, y - ph, x - pw)]
                            == input.data@[idx3(
                            input.shape@[1] as int,
                            input.shape@[2] as int,
                            c,
                            y - ph,
                            x - pw,
                        )]);
                    }
                }
            }
        }
        lemma_prod_of_rank(t);
        assert(r.data@ =~= want);
    }
    r
}

} // verus!

//! Whether the shapes of a convolution layer allow for the clearing of its output.
use crate::arith::{clog2, flog2, floor_log2, lemma_clog2, lemma_flog2, next_power_of_two, npot, power_of_two};
use crate::iop::Claim;
use crate::layers::convolution::claims::{clearing_inputs_ok, output_side};
use crate::layers::convolution::context::ConvCtx;
use crate::layers::convolution::shapes::{conv_shape_ok, kernel_sides, out_height, out_width, outputs, sides};
use crate::layers::convolution::verify::{claimed_shape, clearing_ok, full_shape, ShapeStep};
use crate::shape::Shape;
use vstd::arithmetic::power2::{
    lemma2_to64, lemma_pow2_adds, lemma_pow2_pos, lemma_pow2_strictly_increases, lemma_pow2_unfold, pow2,
};
use vstd::prelude::*;

verus! {

/// Can the number be rounded up to a power of two?
fn can_round_up(x: usize) -> (r: bool)
    ensures
        r == (npot(x as nat) <= usize::MAX),
{
    let mut p: usize = 1;
    let ghost mut e: nat = 0;
    proof {
        lemma2_to64();
        lemma_clog2(x as nat);
    }
    while p < x
        invariant
            p == pow2(e),
            x <= pow2(clog2(x as nat)),
            clog2(x as nat) > 0 ==> pow2((clog2(x as nat) - 1) as nat) < x,
            e == 0 || pow2((e - 1) as nat) < x,
        decreases usize::MAX - p,
    {
        proof {
            lemma_pow2_pos(e);
            lemma_pow2_unfold(e + 1);
            // the next power of two is a greater one
            let c = clog2(x as nat);
            if c <= e {
                if c < e {
                    lemma_pow2_strictly_increases(c, e);
                }
                assert(false);
            }
            if e + 1 < c {
                lemma_pow2_strictly_increases(e + 1, c);
            }
        }
        if p > usize::MAX / 2 {
            return false;
        }
        p = 2 * p;
        proof {
            e = e + 1;
        }
    }
    proof {
        let c = clog2(x as nat);
        if c > e {
            if c - 1 > e {
                lemma_pow2_strictly_increases(e, (c - 1) as nat);
            }
            assert(false);
        }
        if c < e {
            lemma_pow2_strictly_increases(c, e);
        }
    }
    true
}

/// The number of places of a kernel, where the kernel fits and the number can be held.
fn checked_outputs(n: usize, k: usize, pad: usize, stride: usize) -> (r: Option<usize>)
    requires
        stride > 0,
    ensures
        match r {
            Some(x) => k <= n + 2 * pad <= usize::MAX && x == outputs(n as int, k as int, pad as int, stride as int),
            None => k > n + 2 * pad || n + 2 * pad > usize::MAX || outputs(
                n as int,
                k as int,
                pad as int,
                stride as int,
            ) > usize::MAX,
        },
{
    let framed: u128 = n as u128 + 2 * pad as u128;
    if framed > usize::MAX as u128 || (k as u128) > framed {
        return None;
    }
    let rest: usize = framed as usize - k;
    let places: usize = rest / stride;
    if places == usize::MAX {
        return None;
    }
    Some(places + 1)
}

/// The sides of the output, where the kernel fits on the framed input.
fn checked_sides(
    input: &Shape,
    filter: &Shape,
    frame: (usize, usize),
    steps: (usize, usize),
) -> (r: Option<(usize, usize)>)
    ensures
        r is Some <==> conv_shape_ok(
            input@,
            filter@,
            frame.0 as int,
            frame.1 as int,
            steps.0 as int,
            steps.1 as int,
        ),
        r matches Some((h, w)) ==> {
            &&& h == out_height(input@, filter@, frame.0 as int, steps.0 as int)
            &&& w == out_width(input@, filter@, frame.1 as int, steps.1 as int)
        },
{
    let (ph, pw) = frame;
    let (sh, sw) = steps;
    let (s, f) = (&input.0, &filter.0);
    if s.len() < 3 || f.len() < 3 || sh == 0 || sw == 0 {
        return None;
    }
    if sh == 1 && sw == 1 {
        if ph == 0 && pw == 0 {
            if f[2] < 1 {
                return None;
            }
        } else if f.len() < 4 {
            return None;
        }
    }
    let (h, w) = sides(input);
    let (kh, kw) = kernel_sides(filter);
    match (checked_outputs(h, kh, ph, sh), checked_outputs(w, kw, pw, sw)) {
        (Some(a), Some(b)) => Some((a, b)),
        _ => None,
    }
}

/// Can the output be cleared, given the shapes, the claim and the number of entries?
pub fn can_clear(
    stride: usize,
    last_claim: &Claim,
    output_shape: &Shape,
    unpadded_output_shape: &Shape,
    len: usize,
) -> (r: bool)
    ensures
        r == clearing_inputs_ok(stride as int, last_claim, output_shape@, unpadded_output_shape@, len as nat),
{
    let s = &output_shape.0;
    let rank: usize = unpadded_output_shape.0.len();
    if stride == 0 || s.len() != 3 || !(rank == 3 || rank == 4) {
        return false;
    }
    if stride == 1 {
        return match output_shape.checked_product() {
            Some(n) => n == len,
            None => false,
        };
    }
    let (c, h, w) = (s[0], s[1], s[2]);
    if c == 0 || h == 0 || w == 0 || len == 0 {
        return false;
    }
    let square: usize = len / c;
    if square == 0 {
        proof {
            let n = output_side(len as nat, c as nat);
            lemma_pow2_pos((flog2((len / c) as nat) / 2) as nat);
            assert(c * (n * n) >= c) by (nonlinear_arith)
                requires
                    n >= 1,
                    c >= 1,
            ;
            vstd::arithmetic::div_mod::lemma_fundamental_div_mod(len as int, c as int);
            vstd::arithmetic::div_mod::lemma_mod_bound(len as int, c as int);
            assert(len < c);
        }
        return false;
    }
    let log_n: usize = floor_log2(square) / 2;
    proof {
        // the square of the side is at most what a channel holds
        lemma_flog2(square as nat);
        lemma_pow2_adds(log_n as nat, log_n as nat);
        if 2 * log_n < flog2(square as nat) {
            lemma_pow2_strictly_increases((2 * log_n) as nat, flog2(square as nat));
        }
        lemma_pow2_pos(log_n as nat);
        let n = pow2(log_n as nat) as int;
        assert(n <= n * n) by (nonlinear_arith)
            requires
                n >= 1,
        ;
        vstd::arithmetic::div_mod::lemma_fundamental_div_mod(len as int, c as int);
        vstd::arithmetic::div_mod::lemma_mod_bound(len as int, c as int);
        assert(c * (n * n) <= c * square) by (nonlinear_arith)
            requires
                n * n <= square,
                c >= 0,
        ;
        assert(0 <= c * (n * n)) by (nonlinear_arith)
            requires
                c >= 0,
        ;
        crate::arith::lemma_flog2_pow2(log_n as nat);
    }
    let n: usize = power_of_two(log_n);
    let step: usize = floor_log2(stride);
    len == c * (n * n) && floor_log2(h) + step <= log_n && floor_log2(w) + step <= log_n && last_claim.point.len()
        == floor_log2(w) + floor_log2(h) + floor_log2(c)
}

impl ConvCtx {
    /// Can the claim be carried over to the output of the transform? A step with other than one input is left to
    /// `clearing_claim`.
    pub fn can_clear(&self, last_claim: &Claim, shape_step: &ShapeStep) -> (r: bool)
        ensures
            r == (shape_step.unpadded_input_shape@.len() == 1 && shape_step.padded_input_shape@.len() == 1
                ==> clearing_ok(
                self,
                shape_step.unpadded_input_shape@[0]@,
                shape_step.padded_input_shape@[0]@,
                last_claim,
            )),
    {
        if shape_step.unpadded_input_shape.len() != 1 || shape_step.padded_input_shape.len() != 1 {
            return true;
        }
        let us = &shape_step.unpadded_input_shape[0];
        let ps = &shape_step.padded_input_shape[0];
        let frame: (usize, usize) = (self.input_padding[0], self.input_padding[1]);
        let steps: (usize, usize) = (self.stride[0], self.stride[1]);
        let stride: usize = steps.0;
        if stride != steps.1 || stride == 0 {
            return false;
        }
        if checked_sides(us, &self.unpadded_filter_shape, frame, steps).is_none() {
            return false;
        }
        let (h, w) = match checked_sides(ps, &self.padded_filter_shape, frame, steps) {
            Some(x) => x,
            None => {
                return false;
            },
        };
        let c: usize = self.padded_filter_shape.0[0];
        if !(can_round_up(c) && can_round_up(h) && can_round_up(w)) {
            return false;
        }
        let (c, h, w) = (next_power_of_two(c), next_power_of_two(h), next_power_of_two(w));
        let ghost s = claimed_shape(self, ps@);
        proof {
            assert(s =~= seq![c, h, w]);
        }
        if stride == 1 {
            let full = Shape::new(vec![c, h, w]);
            proof {
                assert(full@ =~= full_shape(self, us@, ps@));
            }
            return full.checked_product().is_some();
        }
        let framed: u128 = us.0[1] as u128 + 2 * frame.0 as u128;
        if framed > usize::MAX as u128 || !can_round_up(framed as usize) {
            return false;
        }
        let n: usize = next_power_of_two(framed as usize);
        let full = Shape::new(vec![c, n, n]);
        proof {
            assert(full@ =~= full_shape(self, us@, ps@));
        }
        let step: usize = floor_log2(stride);
        full.checked_product().is_some() && floor_log2(h) + step <= floor_log2(n) && floor_log2(w) + step
            <= floor_log2(n) && last_claim.point.len() == floor_log2(w) + floor_log2(h) + floor_log2(c)
    }
}

} // verus!

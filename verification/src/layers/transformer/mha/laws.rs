//! How the parts of an attention layer fit together.
use crate::arith::{is_pow2, lemma_npot};
use crate::iop::Claim;
use crate::layers::transformer::mha::flow::{ClaimFlow, Inference};
use crate::layers::transformer::mha::{is_padded_mha, ConcatMatMul, InputMatrixDimensions, Mha, SubLayer, SubspaceReshape};
use crate::number::Element;
use crate::shape::Shape;
use crate::tensor::Tensor;
use vstd::prelude::*;

verus! {

/// The shape that a reshape gives: some dimensions are replaced by others.
pub open spec fn replaced(r: SubspaceReshape, s: Seq<usize>) -> Seq<usize> {
    s.take(r.start as int) + r.to_add@ + s.skip(r.end as int)
}

/// The shape of a batched product before its dimensions are put into another order: the batch, what remains of the left
/// factor, and what remains of the right one.
pub open spec fn product_shape(m: ConcatMatMul, left: Seq<usize>, right: Seq<usize>) -> Seq<usize> {
    seq![
        left[m.left.concat_dim as int],
        left[m.left.output_dim as int],
        right[m.right.output_dim as int],
    ]
}

/// The factors of a batched product fit to each other: they have the same batch and the same length to sum over.
pub open spec fn factors_fit(m: ConcatMatMul, left: Seq<usize>, right: Seq<usize>) -> bool {
    &&& left[m.left.concat_dim as int] == right[m.right.concat_dim as int]
    &&& left[m.left.mat_mul_dim as int] == right[m.right.mat_mul_dim as int]
}

/// Each dimension of a factor has one role.
pub open spec fn roles_differ(d: InputMatrixDimensions) -> bool {
    &&& d.concat_dim < 3 && d.mat_mul_dim < 3 && d.output_dim < 3
    &&& d.concat_dim != d.mat_mul_dim
    &&& d.concat_dim != d.output_dim
    &&& d.mat_mul_dim != d.output_dim
}

/// Splitting into heads and joining them again gives the shape back: the first dimension stays, and the second one is
/// the number of heads times their width.
pub proof fn law_heads_are_split_and_joined(m: Mha, n: usize)
    requires
        m.wf(),
        m.num_heads * m.head_dim <= usize::MAX,
    ensures
        ({
            let whole = seq![n, (m.num_heads * m.head_dim) as usize];
            let split = replaced(m.inputs_reshape, whole);
            &&& split == seq![n, m.num_heads, m.head_dim]
            &&& replaced(m.final_reshape, split) == whole
        }),
{
    let whole = seq![n, (m.num_heads * m.head_dim) as usize];
    let split = seq![n, m.num_heads, m.head_dim];
    assert(replaced(m.inputs_reshape, whole) =~= split);
    assert(replaced(m.final_reshape, split) =~= whole);
}

/// The parts of the layer fit to each other: queries and keys have the same heads of the same width, their product has
/// the shape that the last product takes, for each head a row for each query and a column for each key; the values fit
/// to it, and the result, put into order, has the shape of the queries.
pub proof fn law_parts_fit(m: Mha)
    requires
        m.wf(),
    ensures
        ({
            let heads = seq![m.context_length, m.num_heads, m.head_dim];
            let scores = product_shape(m.qk, heads, heads);
            let joined = product_shape(m.final_mul, scores, heads);
            let order = m.final_mul.permutation->0@;
            &&& roles_differ(m.qk.left) && roles_differ(m.qk.right)
            &&& roles_differ(m.final_mul.left) && roles_differ(m.final_mul.right)
            &&& m.qk.max_shapes.0@ == heads && m.qk.max_shapes.1@ == heads
            &&& factors_fit(m.qk, heads, heads)
            &&& scores == seq![m.num_heads, m.context_length, m.context_length]
            &&& m.qk.permutation is None
            &&& m.final_mul.max_shapes.0@ == scores && m.final_mul.max_shapes.1@ == heads
            &&& factors_fit(m.final_mul, scores, heads)
            &&& m.final_mul.permutation is Some && order.len() == 3
            &&& seq![joined[order[0] as int], joined[order[1] as int], joined[order[2] as int]] == heads
        }),
{
    let heads = seq![m.context_length, m.num_heads, m.head_dim];
    let scores = product_shape(m.qk, heads, heads);
    assert(scores =~= seq![m.num_heads, m.context_length, m.context_length]);
    let joined = product_shape(m.final_mul, scores, heads);
    let order = m.final_mul.permutation->0@;
    assert(seq![joined[order[0] as int], joined[order[1] as int], joined[order[2] as int]] =~= heads);
}

/// Padding rounds the number and the width of the heads up to powers of two, as little as possible, and joins as many
/// entries as the padded heads have; nothing else changes, and padding again changes nothing.
pub proof fn law_padded_heads(q: &Mha, m: &Mha, again: &Mha)
    requires
        m.heads_fit(),
        m.num_heads > 0,
        m.head_dim > 0,
        is_padded_mha(q, m),
        is_padded_mha(again, q),
    ensures
        is_pow2(q.num_heads as int) && m.num_heads <= q.num_heads < 2 * m.num_heads,
        is_pow2(q.head_dim as int) && m.head_dim <= q.head_dim < 2 * m.head_dim,
        q.final_reshape.to_add@.len() == 1,
        q.final_reshape.to_add@[0] == q.num_heads * q.head_dim,
        q.final_reshape.start == m.final_reshape.start,
        q.final_reshape.end == m.final_reshape.end,
        q.context_length == m.context_length,
        q.inputs_reshape == m.inputs_reshape,
        q.qk == m.qk,
        q.final_mul == m.final_mul,
        again.num_heads == q.num_heads,
        again.head_dim == q.head_dim,
        again.final_reshape.to_add@ == q.final_reshape.to_add@,
{
    lemma_npot(m.num_heads as nat);
    lemma_npot(m.head_dim as nat);
    lemma_npot(q.num_heads as nat);
    lemma_npot(q.head_dim as nat);
    let (h, d) = m.padded_dims();
    assert(d * h == h * d) by (nonlinear_arith);
}

/// Whatever the parts give: the first product receives queries and keys, the softmax the first product, the last
/// product the softmax and the values, which are those of the first reshape, and the last reshape the last product. In
/// the end the output is there with what each part gave.
pub proof fn law_order_of_evaluation(
    a: Inference,
    split: Seq<Tensor<Element>>,
    split_shapes: Seq<Shape>,
    b: Inference,
    scores: Seq<Tensor<Element>>,
    score_shapes: Seq<Shape>,
    c: Inference,
    weights: Seq<Tensor<Element>>,
    weight_shapes: Seq<Shape>,
    d: Inference,
    heads: Seq<Tensor<Element>>,
    head_shapes: Seq<Shape>,
    e: Inference,
    joined: Seq<Tensor<Element>>,
    joined_shapes: Seq<Shape>,
    f: Inference,
)
    requires
        a is InputsReshape,
        split.len() == 3,
        split_shapes.len() == 3,
        Inference::follows(a, split, split_shapes, b),
        Inference::follows(b, scores, score_shapes, c),
        Inference::follows(c, weights, weight_shapes, d),
        Inference::follows(d, heads, head_shapes, e),
        Inference::follows(e, joined, joined_shapes, f),
    ensures
        b matches Inference::Qk { factors, shapes, .. } && {
            &&& factors@ == seq![split[0], split[1]]
            &&& shapes@.len() == 2
            &&& shapes@[0]@ == split_shapes[0]@
            &&& shapes@[1]@ == split_shapes[1]@
        },
        c matches Inference::Softmax { qk, shapes, .. } && qk@ == scores && shapes@ == score_shapes,
        d matches Inference::FinalMul { factors, shapes, .. } && {
            &&& factors@ == seq![weights[0], split[2]]
            &&& shapes@.len() == 2
            &&& shapes@[0] == weight_shapes[0]
            &&& shapes@[1]@ == split_shapes[2]@
        },
        e matches Inference::FinalReshape { heads: h, shapes, .. } && h@ == heads && shapes@ == head_shapes,
        f matches Inference::Done { out, heads: h, softmax, qk } && {
            &&& out@ == joined
            &&& h@ == heads
            &&& softmax == weights[0]
            &&& qk@ == scores
        },
{
    assert(split.take(2) =~= seq![split[0], split[1]]);
    assert(split_shapes.take(2)[0] == split_shapes[0]);
    assert(split_shapes.take(2)[1] == split_shapes[1]);
}

/// The evaluation goes on as long as a part gives what the next one reads, and ends after the last reshape.
pub proof fn law_evaluation_goes_on(a: Inference, b: Inference, outputs: Seq<Tensor<Element>>, shapes: Seq<Shape>)
    requires
        Inference::follows(a, outputs, shapes, b),
    ensures
        a is InputsReshape ==> a.can_go_on(3, 3) && !a.can_go_on(2, 3) && !a.can_go_on(3, 2) && b is Qk,
        a is Qk ==> a.can_go_on(1, 1) && b is Softmax,
        a is Softmax ==> a.can_go_on(1, 1) && !a.can_go_on(1, 0) && a.can_go_on(2, 0) && b is FinalMul,
        a is Softmax ==> b.can_go_on(1, 1),
        a is FinalMul ==> b is FinalReshape,
        a is FinalReshape ==> a.can_go_on(1, 1) && b is Done && !b.can_go_on(1, 1),
        !(a is Done),
{
}

/// Whatever claims the parts leave: the softmax is asked for what the last product claims of its left factor, the first
/// product for what the softmax claims of its input, and in the end there are the claims on queries and keys, which the
/// first product leaves, and that on the values, which the last product leaves.
pub proof fn law_order_of_claims(
    a: ClaimFlow,
    last: Seq<Claim>,
    b: ClaimFlow,
    middle: Seq<Claim>,
    c: ClaimFlow,
    first: Seq<Claim>,
    d: ClaimFlow,
)
    requires
        a is FinalMul,
        last.len() == a.num_claims(),
        ClaimFlow::follows(a, last, b),
        middle.len() == b.num_claims(),
        ClaimFlow::follows(b, middle, c),
        first.len() == c.num_claims(),
        ClaimFlow::follows(c, first, d),
    ensures
        last.len() == 2,
        middle.len() == 1,
        first.len() == 2,
        b matches ClaimFlow::Softmax { claim, .. } && claim == last[0],
        c matches ClaimFlow::Qk { claim, .. } && claim == middle[0],
        d matches ClaimFlow::Done { claims } && claims@ == seq![first[0], first[1], last[1]],
{
    assert(first.push(last[1]) =~= seq![first[0], first[1], last[1]]);
}

/// The parts of a layer are told apart by their names, and the parts of different layers by the node.
pub proof fn law_parts_are_told_apart(node: usize, other: usize, a: SubLayer, b: SubLayer)
    ensures
        seq![node as u64] + a.separator() == seq![other as u64] + b.separator() <==> node as u64 == other as u64 && a
            == b,
{
    let (s, t) = (seq![node as u64] + a.separator(), seq![other as u64] + b.separator());
    if s == t {
        assert(s[0] == node as u64 && t[0] == other as u64);
        assert(s[1] == a.separator()[0] && t[1] == b.separator()[0]);
    }
}

/// The names of the parts, as text.
pub proof fn law_names_of_parts(part: SubLayer, i: int)
    ensures
        ({
            let name = match part {
                SubLayer::Qk => "qk"@,
                SubLayer::Softmax => "softmax"@,
                SubLayer::FinalMul => "final_mul"@,
            };
            &&& part.separator().len() == name.len()
            &&& 0 <= i < name.len() ==> part.separator()[i] == name[i] as u64
        }),
{
    reveal_strlit("qk");
    reveal_strlit("softmax");
    reveal_strlit("final_mul");
}

} // verus!

//! What holds of the kinds of layers, of their contexts and of their proofs.
use crate::field::GoldilocksExt2;
use crate::layers::{Layer, LayerCtx, LayerProof, LookupFractions};
use vstd::prelude::*;

verus! {

/// `data` holds every fraction of a lookup, and nothing else.
pub open spec fn is_data_of(
    data: Option<(Seq<GoldilocksExt2>, Seq<GoldilocksExt2>)>,
    f: LookupFractions,
) -> bool {
    data matches Some((n, d)) && {
        &&& n.len() == f.numerators@.len()
        &&& d.len() == f.denominators@.len()
        &&& forall|i: int| 0 <= i < f.numerators@.len() ==> #[trigger] n[i] == f.numerators@[i]
        &&& forall|i: int| 0 <= i < f.denominators@.len() ==> #[trigger] d[i] == f.denominators@[i]
    }
}

/// Whatever layer a lookup belongs to, all of its fractions are among the lookup data of the proof of that layer.
pub proof fn law_every_lookup_is_handed_on(f: LookupFractions)
    ensures
        is_data_of(LayerProof::Activation(f).fractions(), f),
        is_data_of(LayerProof::Pooling(Some(f)).fractions(), f),
        is_data_of(LayerProof::Mha(f).fractions(), f),
        is_data_of(LayerProof::LayerNorm(f).fractions(), f),
        is_data_of(LayerProof::Softmax(f).fractions(), f),
        is_data_of(LayerProof::Logits(f).fractions(), f),
{
}

/// The lookup data of a requantization holds the fractions of both of its lookups: those for clamping first, then
/// those for shifting.
pub proof fn law_both_lookups_are_handed_on(clamp: LookupFractions, shift: LookupFractions)
    ensures
        LayerProof::Requant(clamp, shift).fractions() matches Some((n, d)) && {
            &&& n.len() == clamp.numerators@.len() + shift.numerators@.len()
            &&& d.len() == clamp.denominators@.len() + shift.denominators@.len()
            &&& forall|i: int| 0 <= i < clamp.numerators@.len() ==> #[trigger] n[i] == clamp.numerators@[i]
            &&& forall|i: int| 0 <= i < clamp.denominators@.len() ==> #[trigger] d[i] == clamp.denominators@[i]
            &&& forall|i: int|
                0 <= i < shift.numerators@.len() ==> n[clamp.numerators@.len() + i] == #[trigger] shift.numerators@[i]
            &&& forall|i: int|
                0 <= i < shift.denominators@.len() ==> d[clamp.denominators@.len() + i]
                    == #[trigger] shift.denominators@[i]
        },
{
}

/// A proof has no lookup data exactly where it holds no lookup.
pub proof fn law_no_lookup_data(p: LayerProof)
    ensures
        p.fractions() is None <==> match p {
            LayerProof::Activation(_) | LayerProof::Requant(_, _) | LayerProof::Mha(_) | LayerProof::LayerNorm(_)
            | LayerProof::Softmax(_) | LayerProof::Logits(_) => false,
            LayerProof::Pooling(f) => f is None,
            LayerProof::Dense | LayerProof::MatMul | LayerProof::Convolution | LayerProof::QKV
            | LayerProof::ConcatMatMul | LayerProof::Add | LayerProof::Embeddings | LayerProof::Positional
            | LayerProof::Dummy => true,
        },
{
}

/// What is known beforehand of a layer of the same kind.
pub open spec fn is_ctx_kind<T>(layer: Layer<T>, ctx: LayerCtx) -> bool {
    ||| layer is Dense && ctx is Dense
    ||| layer is MatMul && ctx is MatMul
    ||| layer is Convolution && ctx is Convolution
    ||| layer is Activation && ctx is Activation
    ||| layer is Requant && ctx is Requant
    ||| layer is Pooling && ctx is Pooling
    ||| layer is QKV && ctx is QKV
    ||| layer is Mha && ctx is Mha
    ||| layer is ConcatMatMul && ctx is ConcatMatMul
    ||| layer is LayerNorm && ctx is LayerNorm
    ||| layer is Softmax && ctx is Softmax
    ||| layer is Add && ctx is Add
    ||| layer is Embeddings && ctx is Embeddings
    ||| layer is Positional && ctx is Positional
    ||| layer is Logits && ctx is Logits
}

/// A layer is proved with the contexts of its own kind, and with no other.
pub proof fn law_proved_with_its_own_context<T>(layer: Layer<T>, ctx: LayerCtx)
    ensures
        layer.proved_with(ctx) == is_ctx_kind(layer, ctx),
{
}

/// A layer is provable exactly where there is a context that it is proved with.
pub proof fn law_provable_layers_have_a_context<T>(layer: Layer<T>)
    ensures
        layer.provable() <==> exists|ctx: LayerCtx| #[trigger] layer.proved_with(ctx),
{
    let ctx: LayerCtx = match layer {
        Layer::Dense(_) => LayerCtx::Dense,
        Layer::MatMul(_) => LayerCtx::MatMul,
        Layer::Convolution(_) => LayerCtx::Convolution(arbitrary()),
        Layer::Activation => LayerCtx::Activation,
        Layer::Requant => LayerCtx::Requant,
        Layer::Pooling(_) => LayerCtx::Pooling(arbitrary()),
        Layer::QKV(_) => LayerCtx::QKV,
        Layer::Mha(_) => LayerCtx::Mha,
        Layer::ConcatMatMul(_) => LayerCtx::ConcatMatMul,
        Layer::LayerNorm => LayerCtx::LayerNorm,
        Layer::Softmax => LayerCtx::Softmax,
        Layer::Add => LayerCtx::Add,
        Layer::Embeddings => LayerCtx::Embeddings,
        Layer::Positional => LayerCtx::Positional,
        Layer::Logits => LayerCtx::Logits,
        Layer::Flatten | Layer::Reshape | Layer::SchoolBookConvolution(_) => LayerCtx::Table,
    };
    if layer.provable() {
        assert(layer.proved_with(ctx));
    }
}

/// One context belongs to layers of one kind.
pub proof fn law_a_context_has_one_kind<T>(a: Layer<T>, b: Layer<T>, ctx: LayerCtx)
    requires
        a.proved_with(ctx),
        b.proved_with(ctx),
    ensures
        a.same_kind(b),
        a.kind_name() == b.kind_name(),
{
}

/// A proof is expected for the contexts that a layer is proved with, for that of a reshape, and for no other.
pub proof fn law_expected_proofs<T>(ctx: LayerCtx)
    ensures
        ctx.proof_expected() <==> ctx is Reshape || exists|layer: Layer<T>| #[trigger] layer.proved_with(ctx),
{
    let layer: Layer<T> = match ctx {
        LayerCtx::Dense => Layer::Dense(arbitrary()),
        LayerCtx::MatMul => Layer::MatMul(arbitrary()),
        LayerCtx::Convolution(_) => Layer::Convolution(arbitrary()),
        LayerCtx::Activation => Layer::Activation,
        LayerCtx::Requant => Layer::Requant,
        LayerCtx::Pooling(_) => Layer::Pooling(arbitrary()),
        LayerCtx::QKV => Layer::QKV(arbitrary()),
        LayerCtx::Mha => Layer::Mha(arbitrary()),
        LayerCtx::ConcatMatMul => Layer::ConcatMatMul(arbitrary()),
        LayerCtx::LayerNorm => Layer::LayerNorm,
        LayerCtx::Softmax => Layer::Softmax,
        LayerCtx::Add => Layer::Add,
        LayerCtx::Embeddings => Layer::Embeddings,
        LayerCtx::Positional => Layer::Positional,
        LayerCtx::Logits => Layer::Logits,
        LayerCtx::Flatten | LayerCtx::Table | LayerCtx::SchoolBookConvolution(_) | LayerCtx::Reshape => Layer::Flatten,
    };
    if ctx.proof_expected() && !(ctx is Reshape) {
        assert(layer.proved_with(ctx));
    }
}

/// The scaling changes with every layer that computes new values with parameters of its own or adds up inputs: only
/// layers that move, compare or requantize entries keep it.
pub proof fn law_layers_that_keep_the_scaling<T>(layer: Layer<T>)
    ensures
        layer.scaling_kept() <==> match layer {
            Layer::Activation | Layer::Requant | Layer::Pooling(_) | Layer::Flatten | Layer::Reshape => true,
            Layer::Dense(_) | Layer::MatMul(_) | Layer::Convolution(_) | Layer::SchoolBookConvolution(_)
            | Layer::QKV(_) | Layer::Mha(_) | Layer::ConcatMatMul(_) | Layer::LayerNorm | Layer::Softmax | Layer::Add
            | Layer::Embeddings | Layer::Positional | Layer::Logits => false,
        },
        !layer.provable() && !layer.scaling_kept() ==> layer is SchoolBookConvolution,
{
}

/// The place of a kind among the kinds of layers.
spec fn kind_number<T>(layer: Layer<T>) -> int {
    match layer {
        Layer::Dense(_) => 0,
        Layer::MatMul(_) => 1,
        Layer::Convolution(_) => 2,
        Layer::SchoolBookConvolution(_) => 3,
        Layer::Activation => 4,
        Layer::Requant => 5,
        Layer::Pooling(_) => 6,
        Layer::Flatten => 7,
        Layer::QKV(_) => 8,
        Layer::Mha(_) => 9,
        Layer::ConcatMatMul(_) => 10,
        Layer::LayerNorm => 11,
        Layer::Softmax => 12,
        Layer::Add => 13,
        Layer::Reshape => 14,
        Layer::Embeddings => 15,
        Layer::Positional => 16,
        Layer::Logits => 17,
    }
}

/// Layers have the same name exactly where they are of the same kind.
pub proof fn law_names_tell_layers_apart<T>(a: Layer<T>, b: Layer<T>)
    ensures
        a.kind_name() == b.kind_name() <==> a.same_kind(b),
{
    reveal_strlit("dense");
    reveal_strlit("mat-mul");
    reveal_strlit("convolution");
    reveal_strlit("school-book-convolution");
    reveal_strlit("activation");
    reveal_strlit("requant");
    reveal_strlit("pooling");
    reveal_strlit("flatten");
    reveal_strlit("qkv");
    reveal_strlit("mha-qk");
    reveal_strlit("concat-mat-mul");
    reveal_strlit("layer-norm");
    reveal_strlit("softmax");
    reveal_strlit("add");
    reveal_strlit("reshape");
    reveal_strlit("embeddings");
    reveal_strlit("positional");
    reveal_strlit("logits");
    let (s, t) = (a.kind_name(), b.kind_name());
    assert(s == t ==> s.len() == t.len() && s[0] == t[0] && s[1] == t[1] && s[2] == t[2]);
    assert(a.same_kind(b) <==> kind_number(a) == kind_number(b));
}

/// Contexts have the same name exactly where they are of the same kind, but for those of the two layers that only
/// change shapes, which share theirs.
pub proof fn law_names_tell_contexts_apart(a: LayerCtx, b: LayerCtx)
    ensures
        a.name() == b.name() <==> ctx_number(a) == ctx_number(b) || (a is Flatten && b is Reshape) || (a is Reshape
            && b is Flatten),
{
    reveal_strlit("Dense");
    reveal_strlit("Matrix Multiplication");
    reveal_strlit("Convolution");
    reveal_strlit("Traditional Convolution");
    reveal_strlit("Activation");
    reveal_strlit("Requant");
    reveal_strlit("Pooling");
    reveal_strlit("Table");
    reveal_strlit("QKV");
    reveal_strlit("MHA");
    reveal_strlit("ConcatMatMul");
    reveal_strlit("LayerNorm");
    reveal_strlit("Reshape");
    reveal_strlit("Add");
    reveal_strlit("Softmax");
    reveal_strlit("Embeddings");
    reveal_strlit("Positional");
    reveal_strlit("Logits");
    let (s, t) = (a.name(), b.name());
    assert(s == t ==> s.len() == t.len() && s[0] == t[0] && s[1] == t[1] && s[2] == t[2]);
}

/// The place of a kind among the kinds of contexts.
pub open spec fn ctx_number(ctx: LayerCtx) -> int {
    match ctx {
        LayerCtx::Dense => 0,
        LayerCtx::MatMul => 1,
        LayerCtx::Convolution(_) => 2,
        LayerCtx::SchoolBookConvolution(_) => 3,
        LayerCtx::Activation => 4,
        LayerCtx::Requant => 5,
        LayerCtx::Pooling(_) => 6,
        LayerCtx::Table => 7,
        LayerCtx::QKV => 8,
        LayerCtx::Mha => 9,
        LayerCtx::ConcatMatMul => 10,
        LayerCtx::LayerNorm => 11,
        LayerCtx::Flatten => 12,
        LayerCtx::Add => 13,
        LayerCtx::Softmax => 14,
        LayerCtx::Reshape => 15,
        LayerCtx::Embeddings => 16,
        LayerCtx::Positional => 17,
        LayerCtx::Logits => 18,
    }
}

/// The place of a kind among the kinds of proofs.
pub open spec fn proof_number(p: LayerProof) -> int {
    match p {
        LayerProof::Dense => 0,
        LayerProof::MatMul => 1,
        LayerProof::Convolution => 2,
        LayerProof::Activation(_) => 3,
        LayerProof::Requant(_, _) => 4,
        LayerProof::Pooling(_) => 5,
        LayerProof::QKV => 6,
        LayerProof::Mha(_) => 7,
        LayerProof::ConcatMatMul => 8,
        LayerProof::Add => 9,
        LayerProof::LayerNorm(_) => 10,
        LayerProof::Softmax(_) => 11,
        LayerProof::Embeddings => 12,
        LayerProof::Logits(_) => 13,
        LayerProof::Positional => 14,
        LayerProof::Dummy => 15,
    }
}

/// Proofs have the same name exactly where they are of the same kind.
pub proof fn law_names_tell_proofs_apart(a: LayerProof, b: LayerProof)
    ensures
        a.name() == b.name() <==> proof_number(a) == proof_number(b),
{
    reveal_strlit("Dense");
    reveal_strlit("Matmul");
    reveal_strlit("Convolution");
    reveal_strlit("Activation");
    reveal_strlit("Requant");
    reveal_strlit("Pooling");
    reveal_strlit("QKV");
    reveal_strlit("MHA");
    reveal_strlit("ConcatMatMul");
    reveal_strlit("LayerNorm");
    reveal_strlit("Add");
    reveal_strlit("Softmax");
    reveal_strlit("Embeddings");
    reveal_strlit("Positional");
    reveal_strlit("Logits");
    reveal_strlit("Dummy");
    let (s, t) = (a.name(), b.name());
    assert(s == t ==> s.len() == t.len() && s[0] == t[0] && s[1] == t[1] && s[2] == t[2]);
}

/// The context and the proof of a layer have the same name, but for a product of matrices.
pub proof fn law_contexts_and_proofs_share_names(ctx: LayerCtx, p: LayerProof)
    requires
        match ctx {
            LayerCtx::Dense => p is Dense,
            LayerCtx::Convolution(_) => p is Convolution,
            LayerCtx::Activation => p is Activation,
            LayerCtx::Requant => p is Requant,
            LayerCtx::Pooling(_) => p is Pooling,
            LayerCtx::QKV => p is QKV,
            LayerCtx::Mha => p is Mha,
            LayerCtx::ConcatMatMul => p is ConcatMatMul,
            LayerCtx::Add => p is Add,
            LayerCtx::LayerNorm => p is LayerNorm,
            LayerCtx::Softmax => p is Softmax,
            LayerCtx::Embeddings => p is Embeddings,
            LayerCtx::Logits => p is Logits,
            LayerCtx::Positional => p is Positional,
            _ => false,
        },
    ensures
        ctx.name() == p.name(),
{
}

} // verus!

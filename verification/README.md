# zkml

Verified building blocks for proofs of the inference of neural networks: tensors and their operations, the layers
that are built on them, the padding of layers to powers of two, the reading of ONNX models, and the tables, claims and
checks of the proofs of layers.

- `src/` is the library. Its functions have contracts, which Verus proves, except for those of the few wrappers that
  call other crates: these are believed, and each names what it claims.
  - `field`, `algebra`, `fft`, `fft_laws`, `mle`: the extension field of degree two over the Goldilocks prime, the
    Fourier transform, and multilinear extensions.
  - `shape`, `number`, `tensor`: shapes, and tensors of quantized values or of field elements.
  - `layers`: convolution (by its definition and by Fourier transform), pooling, the masks and the garbage of attention
    layers, and what the proofs of these layers compute and check.
  - `padding`: padding of the weights and shapes of a model.
  - `parser`: layers from the nodes of an ONNX model.
  - `iop`: the reduction of claims on Fourier transforms, and the bookkeeping of the prover.
- `app/` is ordinary Rust: the calls into a sum-check protocol, a transcript and a commitment scheme, floating-point
  numbers, files and text.
- `tests/` runs the library.

What is believed stands in three places: the wrappers of `field`, for the arithmetic of `p3-field` and
`p3-goldilocks`; the wrapper of `fft`, for a logarithm of `ark-std`; and those of `tensor::random`, for the random
numbers of `ark-std`, of which only the range is claimed.

# kurumi_core

A tensor-graph intermediate representation with machine-checked contracts. A `Graph` is an
append-only arena of nodes; each node holds a primitive `Op`, its sources, and the shape and
dtype derived from them. Op builders record decompositions onto the primitive set and
refuse malformed requests with an `Error`. Verus checks the derivation rules, the binary
blob format (with its round-trip laws), and, for every builder, when it succeeds and the
shape and dtype of its result. For most builders the contracts also state the nodes that
the builder appends (the decomposition itself, down to the constants it reads), so that a
builder that computed something else would not meet them; chains of steps (padding axis by
axis, DFTs over several axes, stacking) are stated by recursive predicates. `einsum` states,
for two operands with distinct labels, which operands and which axes its contraction takes.
For the composite builders that remain (the convolutions and transposed convolutions,
`matrix_exp`, `svd`, `lrn`, `rope`, `cross_entropy`, `upsample_nearest2d`, `resize_gather`,
`resize_mix`, `gather_nd`, `cdist`, `pdist`, `atan2`, `angle`, `digamma`, `stft`, `fft_conv` and the cosine
windows) only acceptance, shape and dtype are stated. As long as the arena does not fill,
`amp` rebuilds the root's cone with every F32 contraction run in F16 between casts, and
`simplify` reduces a leaf, a double negation of a leaf, a product of a leaf with ones, and
zeros plus such a product to the leaf; both only append to the arena.

Layout:

- `src/graph.rs`, `src/graph/op.rs`, `src/graph/infer.rs`, `src/graph/derive.rs`: the arena,
  the op set, and the shape/dtype derivation (a spec and its executable twin).
- `src/graph/ops/base/*`, `src/graph/ops/nn/*`: the op builders (elementwise, reductions,
  views, indexing, linear algebra, FFT and signal processing, einsum, statistics, random
  draws, normalization, attention, convolution and pooling).
- `src/graph/inspect.rs`, `src/graph/pass/*`: reachability, the simplifier and mixed
  precision.
- `src/graph/serialize/*`: the `KGPH` blob writer and reader, with the round-trip laws.
- `src/text.rs`, `src/bytes.rs`, `src/storage.rs`, `src/dtype.rs`, `src/error.rs`: support.
- `app/lib.rs`: builders with `f32` parameters, the floating-point parts of quantile and
  resize, and the textual dump.

Float constants are handled as IEEE-754 binary32 bit patterns inside the library.

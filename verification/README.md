# fast_gpt2

GPT-2 inference in Rust, verified with Verus.

`src/` is the library. It is generic in the number type: a type implements `Scalar`, whose
operations are functions of their operands, and every tensor operation says exactly which of them it
applies to which elements, in which order. What a product of two matrices leaves in an entry is a
function of what the entry held and of the row and the column that meet there; how the products are
summed is the number type's choice. Numbers that compare equal may stand for one another in sums and
products, beside a zero any ordinary number may stand, and zeros behind a row change nothing.

- `ops` holds the tensor operations: products, broadcasting sums, normalisation, softmax, attention
  over a cache of keys and values, what the cache is good for (`incremental`), and that later rows
  leave earlier ones alone (`causal`).
- `model` holds the network: its parts, how they are loaded, when they fit together (`shaped`), that
  their rows are independent outside attention (`rows`), and what the cache is good for (`cached`).
- `weights` looks tensors up in a safetensors file.
- `wire` is the text that the first layer sends to a remote peer, and what it reads from the reply.

A pass stops where the peer may have to be asked: `forward_start` returns what to send, and
`forward_finish` takes the reply.

`app/` runs the network over `f32`, multiplies matrices with `matrixmultiply` or a BLAS library, and
talks to the peer. What the library proves holds there as far as `f32` and the product meet what
`Scalar` says. Nothing shows that a BLAS library leaves in an entry of a product a function of the
entry, the row and the column alone: one that splits its sums by the size of the matrices, or by the
number of threads, does not.

# tachiom

Late-interaction multivector retrieval over an inverted file of coarse centroids, with the parts
that decide, order, group, draw and lay out verified in [Verus](https://github.com/verus-lang/verus).

* `src/` is the library. Every item in it is verified. It works on plain values: vectors are
  half-precision bit patterns, scores single-precision ones.
* `app/` is what goes around it: files, threads, the command line, the Python module, the tracing
  layer, arithmetic on vectors and scores, and the calls into `kannolo` (proximity graph) and
  `vectorium` (k-means, product quantisation), which need a nightly compiler.
* `tests/` runs the library.

## Building an index

1. `npy` reads the vectors, token types and document lengths; `dataset` checks that they fit
   together and lays out the documents; `auto` recommends clustering parameters.
2. `tac` clusters the tokens by token type, or `pgc` whatever their type. Both say what to compute
   next and take the result.
3. `sample` picks the tokens that the residual quantiser is trained on.
4. `encode` cuts the documents out of the token buffer; `assembly` puts the encoded documents and
   the inverted lists together.

## Searching

`search` goes through the three stages: `coarse` collects the documents that the probed centroids
list, `candidates` selects and prunes the most promising, `rerank` asks for full scores until it has
seen enough. `query` divides a batch into queries and lays out the results.

## What is trusted

Two modules call other crates and state what they rely on: `fx` the hash tables of `rustc-hash`,
`random` the generator of `rand`. Of a random draw, only what holds of every outcome is claimed.

# cb2vec

Categorical codebook value models: a categorical state is a list of integer
tokens grouped into sites, each token owns an `i16` embedding row, the rows of
a site are summed and activated, and activated sites are pooled into groups.

The library in `src/` is verified with Verus:

| module       | contents                                                                                   |
|--------------|--------------------------------------------------------------------------------------------|
| `model`      | `ModelShape` and the flat `i16` codebook `QuantizedCodebookWeights`                        |
| `features`   | the mathematical model of site sums, group sums and pooling divisors, with their lemmas    |
| `trainer`    | `GroupedTokens`, inference recipes, exact integer features, and the shuffle generator      |
| `session`    | `IncrementalSession`, a preallocated make/undo evaluator over a borrowed model             |
| `checkpoint` | the `CB2VECCK` trainer checkpoint byte format and its CRC-32                               |
| `abi`        | the decisions of the C ABI: versions, fixed-layout argument structs, status codes, batches |

The main theorems:

* a materialized session holds exactly the features and divisors that a
  one-shot materialization computes for its current tokens
  (`IncrementalSession::lemma_matches_one_shot`);
* popping a frame exactly undoes pushing it (`IncrementalSession::lemma_pop_undoes_push`),
  also after the frame was materialized (`IncrementalSession::lemma_pop_after_materialize`);
* construction fails only at a buffer in allocation order: the first one
  too large to address gives a capacity overflow naming it, and an
  allocator refusal names its buffer and length (`IncrementalSession::new`);
* every reachable session keeps its stack, position and accumulators within
  its limits and consistent with its history (`IncrementalSession::lemma_invariants`);
* a reset or a push is accepted exactly when its documented conditions hold
  (`session::lemma_reset_accepts`, `session::lemma_push_accepts`);
* replacing a token's embedding row and replacing it back restores the
  buffer (`QuantizedCodebookWeights::lemma_replacement_undo`);
* restoring a written checkpoint gives back what was written, for a
  state whose optimizer values (Adam moments and powers, the buffered
  normal sample) are finite and whose training config is valid, as every
  trainer's state is (`checkpoint::lemma_checkpoint_round_trip`), and a checkpoint with one
  byte of its checksummed part changed is refused with a checksum mismatch
  (`checkpoint::lemma_corruption_detected`);
* the training shuffle only reorders (`trainer::lemma_shuffle_permutes`);
* exactly the published ABI revisions are accepted (`abi::lemma_supported_revisions`).

`tests/` exercises the library on concrete values. `app/` holds what the
verified core leaves to ordinary Rust: a counting global allocator for
allocation audits and the text of error messages.

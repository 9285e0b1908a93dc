# divot

A diff engine over `imara-diff`: line, word and character diffs whose result
is the complete list of unchanged, removed and added runs, plus unified diff
text.

- `src/tokenize.rs`: the word, character and line tokenizers, with proofs
  that they are lossless and that word tokens are maximal runs of one class.
- `src/engine.rs`: the calls into `imara-diff`, returning plain hunks.
- `src/diff.rs`: runs from hunks, the public diff functions, and the proofs
  that the runs give back both inputs.
- `src/text.rs`: UTF-8 facts used to slice strings at character boundaries.
- `app/`: the Node bindings.

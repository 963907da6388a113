# lau_information_theory (verified core)

Shannon information theory: entropy, divergences, mutual information, channel
capacity, source coding, rate-distortion and information inequalities.

- `src/` is the verified library: the integer-valued parts.
  - `coding`: code trees, the code words and lengths read off them, and the
    proofs that such codes are prefix-free and meet the Kraft equality.
  - `huffman`: the Huffman forest (one leaf per symbol, pairwise merges) that
    keeps every symbol at exactly one leaf, and the finished code book.
  - `kraft`: the step that lengthens the longest code, and the Kraft
    inequality for every binary prefix-free code.
  - `kraft_code`: the converse: lengths with Kraft sum at most 1 are the
    lengths of some binary prefix-free code.
  - `agent`: the round-robin starting clusters of the information bottleneck.
- `app/` holds everything computed in `f64` or over `nalgebra` matrices, with
  `serde` derives, calling the library for the integer parts (for instance the
  Huffman priority queue decides which trees the forest merges).
- `tests/` runs the library on concrete codes.

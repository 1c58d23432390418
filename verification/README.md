# bpe_tokenizer

A byte-pair-encoding tokenizer. It learns merge rules from a corpus of
texts: starting from one token per distinct character, it repeatedly merges
the most common pair of adjacent tokens into a new token, until no pair is
frequent enough or the vocabulary is full. The merge, counting, training,
encoding, decoding and JSON logic is verified with Verus.

Layout:

- `src/merge.rs`: tokens, rules, and the greedy left-to-right merge pass.
- `src/counting.rs`: counts of adjacent pairs and the most common pair.
- `src/training.rs`: the training run as a mathematical model, and its laws.
- `src/text.rs`: the alphabet of a corpus and string helpers.
- `src/tokenizer.rs`: a tokenizer trained on one text.
- `src/corpus.rs`, `src/pair_search.rs`: a tokenizer trained on a corpus,
  with the encoded corpus; pairs are counted in an array or, in the
  low-memory mode, in a hash table.
- `src/json.rs`, `src/numerals.rs`: JSON output and numbers with commas.
- `src/cli.rs`: reading the command line, one argument at a time.
- `app/main.rs`: the command-line program (file and directory reading,
  saving, timing).
- `tests/`: tests on concrete inputs.

Usage of the program:

```
bpe_tokenizer [-f | --files] text1.txt ... [-d | --dirs] dir ...
              [-v | --vocab-size] 1024 --min-freq 2 --low-mem
              --tokenizer-path tokenizer.json --tokenization-path corpus.json
```

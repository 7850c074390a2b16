# neox_tokenizer

A GPT-NeoX byte-level BPE tokenizer written in Verus: the tokenization,
encoding, truncation, decoding and file-format logic carry `requires` /
`ensures` contracts that Verus proves.

Layout:

- `src/unicode.rs` – characters, UTF-8, white space, replacement and trimming.
- `src/bytes.rs` – the byte alphabet (one printable character per byte) and its laws.
- `src/token.rs` – tokens, offsets, masks and the result types.
- `src/bpe.rs` – the ranked merge table and the BPE merge loop, with its laws.
- `src/split.rs` – splitting on special tokens, on the pre-tokenization
  expressions and into BPE pieces; lower-casing.
- `src/pattern.rs` – the `regex` crate behind two small trusted wrappers.
- `src/vocab.rs` – the vocabulary, the special tokens and the errors.
- `src/tokenizer.rs` – the tokenizer: tokenizing, ids, special tokens, decoding.
- `src/loading.rs` – merges files, vocabulary JSON (through `serde_json`),
  `tokenizer.json` values and special-token mappings.
- `src/encode.rs` – truncation strategies and `encode`.
- `app/lib.rs` – the constructors that read files and hand their contents to
  the library.
- `tests/` – the tokenizer's unit tests and tests of the laws on concrete values.

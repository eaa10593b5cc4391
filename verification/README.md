# pklib

A compressor for the PKWare Data Compression Library ("implode") format,
written in Verus.

- `src/common.rs`: modes, dictionary sizes, errors, the byte-pair hash.
- `src/tables.rs`: the Huffman code tables of the format.
- `src/state.rs`: the compressor state and the construction of its code tables.
- `src/hash.rs`: the hash table of byte pairs (`sort_buffer` and its lookups).
- `src/pattern.rs`: the search for repetitions.
- `src/bits.rs`: the compressed stream as bits, and the lemmas on bit packing.
- `src/tokens.rs`: literals and repetitions, what they describe and how they are coded.
- `src/writer.rs`: the streaming compressor and `implode_bytes`.
- `app/`: a `std::io::Write` adapter that sends the compressed bytes to a sink.

The main theorem is in the contract of `ImplodeWriter::finish` (and
`implode_bytes`): every compressed stream is the header, the codes of tokens
that describe exactly the data written, and the end marker; `lemma_describes_unique`
shows that such tokens determine the data. The tokens are given exactly by
`model_compress` (and `model_process`, `model_finish` for a writer), stated on
the data alone: window by window, the greedy parse of `model_greedy`;
`lemma_repetition_model` ties the hash-table search to it.

# huffman

A Huffman compressor for byte streams, with machine-checked contracts and proofs.

## Layout

- `src/frequency.rs`: byte frequency tables.
- `src/tree.rs`: the Huffman tree and its construction (repeatedly merge the
  two least frequent trees of a forest).
- `src/codebook.rs`: the code of every byte, read off the tree.
- `src/code_lengths.rs`: why a more frequent byte never gets a longer code.
- `src/bits.rs`: `BitWriter` and `BitReader`, most significant bit first.
- `src/codec.rs`: the `.huff` format, `compress` and `decompress`.
- `src/lib.rs`: `WasmResult` and the `compress` / `decompress` entry points.
- `app/lib.rs`: the `wasm-bindgen` bindings for JavaScript.

## The .huff format

| bytes  | content                                         |
|--------|-------------------------------------------------|
| 4      | `HUFF`                                          |
| 8      | original size, little-endian u64                |
| 8      | number of encoded bits, little-endian u64       |
| 2048   | 256 frequencies, little-endian u64 each         |
| rest   | encoded bits, MSB first, zero-padded to a byte  |

Trees are rebuilt from the frequency table, so encoder and decoder must break
ties between equal frequencies the same way. This library takes the first tree
of least frequency in a forest that starts with the leaves in byte order and
appends each merged tree at the end. A decoder that breaks ties otherwise can
build a different tree from the same table and misread such a file.

## What is proved

- `decompress` gives back what `compress` was given (`codec::lemma_roundtrip`),
  also when bytes follow the file (`codec::lemma_roundtrip_ignores_trailing_bytes`).
- The frequency table counts every byte, and its entries add up to the input
  length.
- The tree is built exactly as specified by `tree::huffman_tree`: `None` when no
  byte occurs, otherwise an internal root holding the total frequency and a leaf
  for every byte that occurs.
- Codes are prefix-free, a byte's codebook entry is empty exactly when the byte
  does not occur, every code has at most 255 bits, and a more frequent byte
  never has a longer code than a less frequent one.
- The bit writer and reader agree: reading back the written number of bits
  returns exactly the written bits, and the padding is never read.

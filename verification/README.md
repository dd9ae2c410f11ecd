# orz

A verified Lempel-Ziv block coder. The text is divided into matches, predicted
words and single bytes; their symbols are ranked in context by an adaptive
move-to-front coder, and the ranks are written with a canonical prefix code.

- `src/lz.rs`: `LZEncoder` and `LZDecoder`.
- `src/model.rs`: what encoding and decoding a chunk compute, as mathematical
  functions. The contracts of the coders are stated over them.
- `src/mtf.rs`: the symbol ranking coder.
- `src/matchfinder.rs`: match buckets and the hash chains that search them.
- `src/roid.rs`: offset classes.
- `src/stats.rs`: symbol statistics.
- `src/codelen.rs`, `src/huffman.rs`, `src/kraft.rs`: code lengths, codes, and
  why the lengths of a weight tree form a code.
- `src/bits.rs`: bit streams.
- `src/facts.rs`, `src/roundtrip.rs`: what holds of the coders, above all that
  decoding undoes encoding.
- `app/`: fuzzing entry points.

A chunk holds, in this order: all symbols by frequency in two bytes each (in
the first chunk only), the end position in the text and the number of items in
four bytes each, the code lengths for the ranks and for the long match lengths
in half a byte each, and the bits of the items.

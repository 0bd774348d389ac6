# rope

A rope: a long text kept as a balanced tree of short strings, with a line count
metric. The library is written in Verus, and what its functions return is stated in
their contracts and proved.

- `text` and `leaves` hold the model: a text as a sequence of UTF-8 code units, with
  its codepoint boundaries and lines, and the same text cut into leaves.
- `leaf` and `tree` hold the strings at the leaves, how they are split, and the tree.
- `metric` measures texts in bytes and in lines.
- `cursor`, `grapheme` and `lines` walk over a rope by codepoints, graphemes, chunks
  and lines.
- `rope` is the interface, and `delta` the transforms from one rope to another.
- `laws` states what holds between the operations.
- `scan` and `segment` state what is taken on trust of the crates that search bytes
  and find grapheme boundaries. Of the standard library two more things are: that
  `Arc::clone` shares its value (`share` in `tree`), and that the `Debug` form of a
  string depends on the string alone (`quote` in `rope`).

`app/` holds serde, `Debug` and `Iterator` for types around those of the library.

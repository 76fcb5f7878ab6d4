# faf_text

A GPU text renderer that evaluates glyph outlines per pixel, with its decisions
verified by Verus.

The decisions stand in `src/`, each function with a contract that Verus proves:
where instances live and what a frame uploads, how curves are banded and packed
into the curve texture, which glyphs are evicted, how the atlas is shared out, what
a glyph's weight and color are, what a terminal grid holds and draws, which lines of
a document are laid out, how a cursor moves. What computes with floating-point
numbers, talks to the GPU or reads a font stands in `app/`, and with it the few
decisions that rest on rounding, such as which bands a curve comes near enough to;
that it is in every band that it reaches is proved. Floating-point values that the
library only passes on or compares are held as their bit patterns.

## Layout

`src/`, by what it is about:

- glyph curves: `outline`, `halves`, `bands`, `curves`, `inspect`
- rasterized and color glyphs: `atlas`, `colr`
- retained content: `arena`, `layers`, `blocks`, `retained`, `mirror`, `renderer`,
  `frames`
- terminal grid: `color`, `cells`, `width`, `grid`, `box_table`, `boxes`, `scene`,
  `font`
- text: `text`, `lines`, `indexed`, `search`, `graphemes`, `view`, `decoration`,
  `document`
- the demo: `selection`, `readout`
- `bits`: comparing floating-point values by their bit patterns

`tests/` runs the library on concrete values. `app/` is the ordinary Rust around
it: fonts, shaders, buffers, camera matrices and the browser bindings.

## What is proved, and what is taken on trust

A contract says what a call returns and what it leaves behind, over a mathematical
model of each type (the structs whose names end in `State`). What holds across
calls is stated by the public proof functions, `lemma_*`, next to what they are
about; `frames` and `mirror` hold nothing else: that an idle frame uploads nothing,
that a moved block costs one uniform, that the instance buffers are in step with
the blocks after every upload, that an evicted glyph draws nothing.

Calls into other crates and into parts of the standard library that Verus does not
know stand behind small functions marked `external_body`. Their doc comments say
what is taken on trust:

- `atlas`: the shelf allocator of `etagere`
- `colr`: font and palette tables, read by `ttf-parser`
- `graphemes`: grapheme clusters and word boundaries of `unicode-segmentation`
- `curves`, `readout`, `scene`: `sort_unstable`, `to_lowercase` and `String::push`

# aquarelle

Watercolor-style rendering on a `tiny_skia::Pixmap`, verified with Verus.

- An *orb* is a radial gradient with a saturated falloff, up to three
  satellites around it and a near-white core. Four knobs tune it: `bleed`,
  `bloom`, `offset` and `halo`.
- The *bleed pass* bleeds the pixels of a whole picture: three box blurs, a
  saturation boost, a paper grain, and a mixture with the picture.
- The *spiral bleed* averages the coverage of one primitive over a disk of 48
  taps laid out by the golden angle, and gives its color a character. There is
  a WGSL fragment of it.

## Layout

- `src/` is the verified library.
  - `single` holds binary32 numbers by their bits, with arithmetic that is
    proved to round to nearest.
  - `color`, `blur`, `orb`, `bleed` and `spiral` hold the logic.
  - `draw` and `pixmap` declare what is taken from `rand_chacha` and
    `tiny_skia`; nothing in them is proved.
  - `shader` holds the WGSL fragment.
  - The `laws` modules, and `orb::pictures`, `bleed::bytes`, `blur::sums`,
    `blur::full`, `spiral::taps`, `spiral::hashing` and `spiral::character`,
    state what holds of the results: that seed and parameters determine them,
    that a premultiplied picture stays premultiplied, that far pixels do not
    count, and so on. Each law says which inputs it is about. Those on means and
    on far pixels are about blur windows of at most 65535 samples, up to which
    the running sums are exact. Those on determined results ask that every
    function handed in gives one answer.
- `app/` is the crate for callers who have `f32` numbers. It hands in sine and
  cosine, the color conversions of `palette`, the ranges of `rand` and the
  gradients of `tiny_skia`.
- `tests/` runs the library, with machine numbers beside it.

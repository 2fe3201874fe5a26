# imagespin

Turns a concentric sigil/mandala image into a seamless animated GIF where each layer
rotates independently. This crate is the whole-number core of it, specified and proved
with Verus; the command line, the file and image I/O and the floating-point geometry live
in `app/`.

## Layout

- `src/spin.rs` — which step of the loop a layer has reached on a frame; frame `N` lands
  exactly where frame 0 does.
- `src/config.rs` — `#RRGGBB` colours, and rewriting `turns`, `frames` and `fps` in a
  `layers.json` text while leaving every other line as it was.
- `src/gifout.rs` — the GIF palette (trained by `color_quant`, always holding the
  background exactly), its 32³ lookup cube, cropping frames to palette indices, and the
  inter-frame delta encoding whose error per pixel stays within the tolerance.
- `src/pyramid.rs` — the glow map's mip chain, down to one texel.
- `src/glyphs.rs` — finding the letters of the artwork by flood-filling ink.
- `src/pool.rs` — a bounded list of live effects, oldest first.
- `src/typing.rs` — which letter a keystroke lights, which one backspace puts out, and the
  bounded list of lit letters.
- `src/surge.rs` — the order of what Enter sets off: charge, explosion, hold, reform.
- `src/dissolve.rs` — which layers a new dissolve may burn.
- `src/keys.rs` — what each key asks the viewer to do.
- `src/text.rs` — font faces (read by `ttf-parser`) and which characters they can letter.
- `src/figure/` — the figure file's rules: colours, symbols, text items, star shapes,
  layer names and stacking, and errors that point at the offending line.
- `src/chars.rs` — text as sequences of characters: lines, searching, decimal numbers.

The code in `src/` is verified by Verus, except the few small functions that call an outside
crate (`color_quant`, `ttf-parser`, `json5`, `serde_path_to_error`) or `String`'s own
formatting: their contracts say what those crates do and are taken on trust. The tests
under `tests/` run the library with the real outside crates.

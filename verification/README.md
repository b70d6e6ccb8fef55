# bnchroma

Theme your apps from your wallpaper: pick eight colors from an image, build a
16-step gradient from one of them, and fill in templates with the result.

The crate is a Verus library with a small command-line program around it.

- `src/` — the verified library.
  - `text.rs`: trimming, decimal and hexadecimal rendering, `str` ↔ `Vec<char>`.
  - `utils.rs`: `#rrggbb` parsing, color inversion, `name=hex` candidate lists
    and the closest-candidate choice, the "does this write change the file"
    decision.
  - `fade.rs`: the placeholder language (`{{col.N.fmt | mods}}`,
    `{{var.name}}`) with its meaning as spec functions, the renderer proved
    against it, config entry checks, output assembly, the command environment,
    and the choice of the source color.
  - `pick.rs`: image decoding and resampling (through the image crate),
    median-cut palette extraction, the palette cache record, the published
    color list and the cache key.
- `app/` — the program: command-line parsing, files, the sampled image
  size, the floating-point color math (HLS gradient, CSS `hsl()`, CIELAB distance),
  TOML loading and running post-commands.
- `tests/` — tests of the library on concrete values.

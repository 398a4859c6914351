# quill_engine

The engine of a Markdown writing app, written in Verus: the Document and
what it keeps in step with its text, the Markup the Editor draws, Focus's
tiers, the Palette's lists, the Library's tree, the file names and the line
diff of the disk, the HTML body of an export, and the small SVG subset the
app's marks are drawn from. Every function in `src/` carries a contract that
Verus proves; the Markdown parser (pulldown-cmark) is called through a few
trusted wrappers in `src/markdown.rs` whose results are named rather than
restated.

Layout:

- `src/` — the verified library, one module per part of the engine.
- `tests/` — its tests, ordinary Rust against the compiled library.
- `app/` — the ordinary Rust around it: reading and writing files, the
  floating-point geometry of glyphs and measures, and the glue that hands the
  library plain values.

# thyme

Thyme is a themable immediate mode GUI toolkit.  This crate holds, verified with
Verus, the parts of Thyme that decide things without floating point arithmetic,
a window system or a GPU:

- `theme`: flattening a theme's widget themes into a list addressed by handles,
  resolving `from` references in rounds, inheriting unset settings and merging
  or copying children (stated exactly over the `ThemeTree` model, which also
  follows where each custom data entry comes from), with every custom data value
  a chain of clones of the defined value its origin names;
- `image_set`: building the image sets of a theme (the `empty` image, aliases,
  groups, and images made of other images, collected ones in any order that
  works);
- `font`: the handles, sources and character ranges of a theme's fonts, the
  characters of a font's ranges and the placement of glyphs on the font texture;
- `markdown`: the styling of text areas from markdown events;
- `input`, `input_field`, `groups`, `ids`, `state`: mouse, keyboard, modal and
  render group state, widget identifiers and persistent widget state;
- `assets`: which files are assets, keyed by file stem, and listed files joined
  to their base directory;
- `bench`: benchmark timings, each the time from its start to a clock reading;
- `border`, `layout`, `render`, `text`: smaller pieces.

`app/` holds what stays outside the verified library: logging, the process-wide
benchmark registry, serde support, the floating point geometry types and the
registration of fonts with the renderer.

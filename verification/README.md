# imgui (verified parts)

A Verus library in three parts:

- `glyph_ranges`: the font glyph range sets of Dear ImGui, and the check of a
  custom zero-terminated list of inclusive code point ranges (pairs in order,
  no glyph zero or beyond U+10FFFF, no two ranges overlapping).
- `bindings`: the text processing around the generated low-level bindings:
  the type and function allowlists read from the cimgui JSON metadata, the
  file names per variant, and the rewrite of derived `PartialEq`/`Eq`/`Hash`
  on structs that hold function pointers into hand-written impls.
- `text`: the character-level operations (trim, search, split, join, lines)
  with their meaning stated over `Seq<char>`.

`app/` holds the command that reads the metadata files, runs bindgen through
libclang and writes the patched bindings.

# hwp_linebreak

Line breaking for HWP paragraphs, verified with Verus, and the conversion of rendered SVG
pages to PDF.

- `src/chars.rs`: character classes (line-start and line-end restrictions, Hangul, language
  slots, Latin, Hanja and kana).
- `src/metrics.rs`: the measurement table handed to the line breaker (font size and width of
  each character under each language slot) and the lookup of character shapes.
- `src/tokenize.rs`: splitting a paragraph into words, spaces, tabs and line feeds.
- `src/fill.rs`: greedy placement of the tokens on lines, with the character-level fallback
  for over-long words.
- `src/paragraph.rs`: line spacing and the reflow of a paragraph's line segments.
- `src/section.rs`: vertical positions of the paragraphs of a section.
- `src/pdf.rs`: font fallbacks in SVG text, the outcome and failure message of the parsing
  and conversion stages, and the order in which a batch of pages is converted (one step per
  page).
- `app/`: reading fonts from disk, the usvg parse and the svg2pdf conversion of each page
  (both can panic on inputs that no contract on text or on an opaque tree can rule out), and
  pixel-to-HWPUNIT conversion of measurements and styles at a given dpi.

All lengths in the library are integers in HWPUNIT (7200 per inch); measuring text is left
to the caller, which fills the measurement table. The layout's pixel defaults (12-pixel font
size, 48-pixel tab interval, one-pixel narrowest line) are taken at the caller's pixel size,
the HWPUNIT in one pixel at its dpi.

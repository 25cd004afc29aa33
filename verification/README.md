# linglun

A jianpu (numbered musical notation) typesetter: it reads a score written in
the `.llpartition` text format and writes it as a PDF.

- `src/` is the library, verified with Verus: the score grammar and its
  parser, the extraction of score events (notes, chords, beams, slurs, grace
  notes, controls, bar lines), the diagnostics collector, and the decisions
  of layout that are not geometry (page metadata, measures, which events take
  room on a line, underline counts, time signatures, hairpin spans, tempo
  text pieces, the glyphs a score needs from its fonts, the output path), and
  reading a font face from its bytes (through `owned_ttf_parser`).
- `app/` is the program around it: the command line, file I/O, font file
  reading and embedding, and the geometry and drawing of the PDF in floating point.
- `tests/` exercises the library.

Score syntax, in short: digits are notes (`1`-`7` do to si, `0` a rest), `^` with an
optional sign and count shifts the octave, `.` dots a note, `[..]` halves the
duration and beams its notes, `(..)` slurs, `{..}` stacks a chord, `|`, `||`,
`|||`, `||:`, `:||` are bar lines, `-` extends the previous note, and
`#name<value>` is a control (`#key`, `#tempo`, `#timesig`, `#dynamics`,
`#sharp`, `#flat`, `#nat`, `#cresc`, `#dim`, `#grace`, `#title`,
`#subtitle`, `#credit`).

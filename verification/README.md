# thoth

A Unicode glyph and chrome-accessibility toolkit with an Oniguruma-style
regular-expression engine, written in Verus. Every function in `src/` is
verified against its contract, but the contracts differ in reach: the
matching engine is specified exactly only for the plain fragment described
below, and the pattern parser is specified piece by piece, with success
promised only for plain-text patterns.

## Layout

- `src/symbols/` -- named glyph constants (status, navigation) and the
  labelled-glyph HTML helper.
- `src/a11y/` -- accessible labels (`img`, `named`), ARIA live regions and
  status announcements, with attribute and text escaping.
- `src/expressions/` -- the regex engine:
  - `syntax/`, `encoding.rs`, `unicode.rs`: options, syntaxes, encodings
    (UTF-8/16/32, ASCII, ISO-8859-1) and Unicode properties;
  - `parse.rs`, `ast.rs`: the pattern parser;
  - `compile.rs`, `opcode.rs`, `meaning.rs`: compilation to forward-only
    bytecode, and what a syntax tree means;
  - `optimize.rs`, `exec/analyze.rs`: literal, first-byte and class-bitmap
    analysis;
  - `exec/`: the backtracking VM and the search loop;
  - `region.rs`, `scan.rs`, `set.rs`, `ops.rs`: match results, scanning,
    regex sets and one-call helpers.
- `src/text.rs` -- small string helpers.
- `tests/` -- unit and scenario tests.
- `app/` -- demo programs around the library.

## What is proved

Among others: escaped labels and live-region text cannot break out of their
markup; a literal pattern's search returns exactly the first occurrence and a
scan lists exactly the disjoint occurrences; for patterns made only of
characters, classes, dots, anchors, groups and alternation (the plain
fragment), the compiled code means what the syntax tree means, a match at a
position is exactly the first one in priority order, and every match that
search, scan or a regex set reports is that match at its start; in
single-byte encodings a search of such a pattern reports the leftmost match
(its start-position filters skip no match), a scan lists the successive
leftmost matches, and a regex set the leftmost member match; compiled code
only jumps forward; class bitmaps agree with class membership; the required
literal is one of the program's literals and lies in every match; the
first-byte set covers every match; the capture-history tree nests and is
walked in preorder; the encoding decoders and character-class predicates
match their specifications. The matcher also runs repetitions (greedy, lazy
and possessive, of one character, one class or a whole sub-pattern) and the
built-in callouts `(*FAIL)`, `(*MISMATCH)`, `(*SKIP)`, `(*COUNT)` and
`(*TOTAL_COUNT)` as their meaning (`rep_end`, `builtin_callout`) says, so a
match that a search, a scan, a regex set or `find_at` reports for a compiled
program made only of these and the plain fragment is the first one in
priority order at its start. A pattern of ASCII letters and digits always
compiles; a plain pattern (of fewer than 300 instructions) searched without
retry limits always gives an answer rather than an error.

## What is not specified

Matching with look-around, atomic groups, backreferences, subexpression
calls, conditionals, absent operators, user callouts, `\G` and `\K`; which
patterns compile to a program of the repetition fragment; the leftmost-match
law in multi-byte encodings and for repetitions; which patterns the parser
accepts beyond plain text (so the capture count of a pattern with groups,
and which patterns are refused as never-ending recursion, are stated over
the parsed tree only); and the exact instruction layout the compiler emits
beyond loops and plain code.

The crate has no design-token style sheet: the colour, radius, spacing and
type-scale tables it would be built from are not included.

Unicode general categories come from the `unicode-general-category` crate.

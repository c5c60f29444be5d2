# vortex_read

Reads columnar layouts: stored segments, constants, chunks one after the other, structs, dictionaries,
zoned columns, and functions of any of these. A reader delivers a range of its rows as a stream of
arrays that are still to be computed. Expressions are pushed into readers, and a scan reads a
projection and a filter side by side over a selection of rows, up to a limit.

Every function of the library carries a contract. Verus proves it, except for the wrappers around
calls into other crates (in `arrow`, `estimate` and `selection`): their contracts are believed, and
the comment above each says what is.

## The library, `src/`

- `row`, `cells`, `layout`: where each row of a layout comes from, and in which pieces a layout
  delivers a range of its rows, or the errors of reading them.
- `track`: what a stream is still to read, and what reading and skipping leave of it.
- `chunks`: lists of chunks, dropped from and read side by side.
- `apply`: what it is to push an expression into a layout.
- `reader`, `readers`: the readers and their streams.
- `scan`, `selection`, `mask`: scans.
- `future`, `estimate`: arrays still to be computed, and how much memory they take.
- `expr`, `stats`, `dtype`, `scalar`, `array`, `error`: expressions and what they work on.
- `numeric`, `arithmetic`, `arrow`, `operator`: arithmetic on arrays and on single values.
- `display`: readers as trees of labels.

Functions named `law_...` state what holds of several functions together.

## Around it

- `tests/` runs the library on concrete values.
- `app/` computes the arrays that the library plans, drives scans as streams, and prints trees.

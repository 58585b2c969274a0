# clikit

Verified building blocks of three command-line tools: a field cutter, a hex
viewer and a calculator. The library in `src/` is written in Verus; every
public function carries a contract over mathematical models (sequences of
characters and bytes), and the laws that tie functions together are proved
as public proof functions.

## Layout

- `src/` — the verified library.
  - Field cutting: `bounds` (selection syntax), `cutter` and `cut` (splitting,
    selecting, joining, JSON output), `split`, `format` (output templates),
    `cli` (the cutter's arguments), `engine` (JSON arrays).
  - Hex viewing: `printer` (line and bordered layouts, squeezing, colors),
    `display` and `config` (a second renderer), `chars` and `charset`
    (character tables), `colors`, `units` and `parse_size` (byte counts),
    `args` (the viewer's command line as plain values).
  - Calculator: `parser` (parenthesis balancing, implied multiplication),
    `expression` (reading an expression into the steps that compute it),
    `session` (arguments and history files), `repl`, `error`, `eval`,
    `angle`.
  - Shared: `text` (string and sequence helpers), `num` (integer reading
    and writing).
- `tests/` — tests of the library on concrete values.
- `app/` — the calculator program and the tools' input and output: file and
  terminal access, the clap command line, and the floating-point parts
  (carrying out an expression's steps, gradient colors, scaled byte
  counts).

The regular-expression engine is used through a few trusted wrappers in
`cutter`; each states what the library relies on.

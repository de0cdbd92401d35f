# first_principles

The integer, byte and text logic of a small machine-learning course
library, written in Verus and proved against its contracts: tokenizers,
corpus cleaning and deduplication, data splits and batching, model shapes
and parameter layouts, checkpoint formats, request parsing, routing
capacity, quantized storage and the other bookkeeping around the numerical
code. Floating-point values cross the library as IEEE-754 bit patterns, so
the formats and checks that handle them are exact.

## Layout

- `src/` — the verified library, one module per topic (`bpe`, `corpus`,
  `splits`, `decoder`, `training`, `moe`, `checkpoint`, `capacity`,
  `batch`, `minibatch`, `http`, `quant`, `sparse`, ...). Each public
  function states in its `ensures` what it returns for every input, and the
  laws that relate several functions (round trips of every file format,
  tilings of parameter layouts, schedules that cover their data) are public
  proof functions.
- `tests/` — ordinary Rust tests of the library on concrete values.
- `app/` — the command-line program: the floating-point models and
  optimizers, file and network I/O, and the GPU host code, all calling the
  library for their checks, layouts, formats and schedules. Run it without
  arguments for the mixture-of-experts demo; an unknown command prints the
  list of commands.

The compute shaders that the GPU commands load are read from a directory
given on the command line.

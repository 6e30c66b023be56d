# borobudur

The rules of the Borobudur risk monitor as a verified library: who may see or
change what, which rows each figure is taken from, when a limit is breached,
how breach episodes open and close, what an import replaces, and what is said
about it.

## Layout

- `src/` is the library. Every item is verified with Verus against the
  `requires` / `ensures` contracts beside it, and the properties that span
  several functions stand there as public proof functions named `law_...`.
- `tests/` runs the library on concrete values.
- `app/` is the ordinary Rust around it: floating-point arithmetic, PostgreSQL,
  and serialisation.

## Figures

The library never computes with floating point. A measured figure is a
`Number`, the bit pattern of an IEEE 754 binary64 value, and the library
compares such figures exactly. Where a rule needs a sum or a quotient, it names
the rows to add or the two figures to divide; `app/` does the arithmetic and
hands the result back. Where a law speaks of the figures themselves, as of a
holding that never falls below zero, it does so over the binary64 arithmetic
that `src/binary64.rs` defines.

## What is trusted

Calendar arithmetic is `chrono`'s, called from `src/date.rs`. From the standard
library `src/text.rs` takes white space, upper and lower case, and appending a
character to a string. Each of these calls has a contract that states what is
relied on; everything else is proved.

# bit-compact

Compact storage of embedding vectors, verified with Verus.

Single-precision vectors are stored as one byte per coordinate, between bounds kept for every
dimension. A file is a header of 32 bytes, the bounds, the data block, and a footer with row
identifiers and a SHA-256 checksum, all in big-endian order. Vector `i` is fetched with one read
at a computed position.

## Layout

- `src/` is the library. It performs no input or output: opening, inspecting, searching and
  verifying are sessions that name the bytes to fetch next, and each has a form that works on
  bytes held in memory.
- `tests/` runs the library with the arithmetic of the machine.
- `app/` is the `bitcompact` program: files, sockets, threads and floating point.

## What is proved

- Storage: a finished file opens, verified or not, says what was written, and gives back for
  every vector the bytes that appending it produced; altered data is refused unless the digest
  is the same; a finished file passes inspection, and what passes inspection opens.
- Search: a scan ends with the `k` nearest by ascending distance, and a search in parts finds
  what one scan finds.
- Cache: a cache answers as the file does, and removes at most the least recently used vector.
- Calibration: bounds enclose the data, and calibration in parts gives the same bounds.
- Opening: the footer of a file that opens lies behind its data block, whether or not the
  checksum is verified.

Floating-point operations are handed in through the traits `Arithmetic`, `WideArithmetic` and
`Numerals`, of whose results nothing is promised. Contracts say which operations are applied to
which values, and in which order. What needs more of the arithmetic is proved from a stated
premise:

- where every operation has one result, up to the bits of not-a-number (`determined`), outcomes
  are determined: a search in parts comes out as one scan, a cached vector is a fresh one after
  any calls, a buffer holds what a new vector holds;
- where operations keep order (`bins::laws`), bytes do, and values are clamped;
- where operations round to nearest (`bins::error`, `quant::laws`), a stored vector reads back,
  off by at most eleven tenths of a step, where the extent of every dimension and its upper bound
  leave a little room below the largest number; and percentile bounds lie between the calibrated
  ones.

# KnoflikSDR

A receiver for the SoftRock and the SDRplay RSP1, built around a library whose logic is proved with
Verus.

- `src/` is the library. Every function says in its contract what it returns, and the laws that hold
  across functions are public proof functions whose names begin with `law_`.
- `tests/` runs the library on concrete values.
- `app/` is the program: threads, sound, USB, files, the net, the window, and the signal processing
  in floating point.

The library counts in whole numbers: frequencies and widths in millihertz, levels in thousandths of
a decibel, times in milliseconds. Samples pass through the ring as the bit patterns of floats.

# oslibc

A small C library for a hobby operating system, with its logic verified by
Verus.

- `src/` is the verified library: the heap (free list, `malloc`/`free`/
  `realloc` decisions, `calloc` sizes), the byte and string functions, the
  `printf` formatter, the window-manager protocol (messages built and read),
  the input-event parser, the drawing primitives on a pixel slice, and the
  small helpers (alignment, decimal digits, file descriptors, time).
- `app/` is the system-facing half: raw system calls, the global heap state
  behind a spin lock, pointers turned into slices, the waits on ports, and
  the floating-point parts (`atof`, `%f`).
- `tests/` runs the library on concrete values.

# microfetch

A small system information fetch tool for Linux. It prints the user and host,
the OS and kernel, the shell, the uptime, the desktop, the memory and disk
usage and a color swatch next to a logo.

## Layout

- `src/` is the library, verified with Verus. Each function states what it
  returns in its `ensures` clause, over spec functions on sequences and
  integers:
  - `bump`: a bump allocator over a fixed heap;
  - `mem`: the C memory routines (`memcpy`, `memset`, `bcmp`, `memcmp`,
    `strlen`) over byte slices;
  - `text`: decimal rendering and parsing, line scanning, C paths;
  - `uptime`, `desktop`, `release`, `system`, `colors`: the fields of the
    fetch, each computed from the values that the system gives;
  - `cpu`, `cpuinfo`: core and thread counts, CPU model name and frequency;
  - `fetch`: the whole rendered text.
- `app/` is the program: it makes the system calls, reads the kernel files
  and the environment, hands the values to the library and writes the result.
  The memory and disk figures in GiB are floating point and are formatted
  there.
- `tests/` runs the library on concrete inputs.

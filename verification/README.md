# ferr_os

The verified core of the FerrOS kernel, written in Verus.

- `src/` is the library, every function of it proved against its contract:
  the heap allocator, paths and small data structures, the keyboard and
  mouse decoding, interrupt and segment descriptors, the frame allocator and the
  four-level page tables (a model of the tables held in physical memory,
  with translation, mapping, copying and sweeping),
  the file descriptor tables, the virtual file system and its drivers
  (pipes, the ustar disk format, process information, devices).
- `app/` assembles the kernel around it: port I/O with the disk, the clock
  and the PS/2 controller, the global locks, and the requests made on the
  file system.
- `tests/` runs the library on concrete values.

Outside crates: `bit_field` and `crossbeam-queue` are called from the
library behind trusted items whose contracts state what their
documentation promises; `x86_64` gives the physical address type and the
ports; `spin` gives `app/` its locks.

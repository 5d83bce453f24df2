# memory_scanner

A memory scanner for Windows processes, in the manner of a cheat engine: it
lists processes and their modules, walks the memory regions of a process,
and searches them for a 32- or 64-bit integer or floating-point value. A
small web server exposes the process listing and an open/close cycle.

- `src/` is the verified library (Verus): `scan` (value encoding, chunk
  scan of region bytes, hit addresses), `regions` (choice of regions by
  protection, the address walk), `names` (file-name buffers to file
  names, process and module listings), `server` (the state of the server's
  open process and its replies).
- `app/` is the Windows program around it: command line, Win32 calls and
  the Rocket routes.
- `tests/` runs the library on concrete values.

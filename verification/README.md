# spicekit

Readers and a writer for NASA/NAIF SPICE kernel formats, verified with
Verus.

- `src/` is the verified library: the DAF container reader (`daf`), the
  SPK segment table and lookup routing (`spk`), the binary PCK segment
  table and segment choice (`pck`), the SPK Type 3 / Type 9 writer
  (`spk_writer`), the text-kernel parser (`text_kernel`, `text_lex`,
  `decimal`), a built-in NAIF body table (a subset of the NAIF
  toolkit's: barycenters, Sun, planets, satellites, two spacecraft) and its lookups
  (`naif_ids`, `builtin_table`), kernel-supplied name bindings (`bindings`), and the
  facts about IEEE-754 bit patterns the readers need (`double_word`,
  `count_double`). Doubles are held as their 64-bit patterns.
  `spk_roundtrip` and `spk_readback` prove that what the writer writes,
  the DAF and SPK readers read back; `binding_text` proves what the
  text-kernel parser makes of a kernel binding one name to one code.
- `app/` holds what is not verified: opening and memory-mapping files,
  writing SPK files atomically, the floating-point evaluation of segment
  polynomials (Chebyshev, Lagrange, Hermite), frame rotations, error
  messages, and a kernel-set backend that routes lookups across loaded
  files.
- `tests/` exercise the library on concrete kernels built in memory.

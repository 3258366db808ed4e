# elma

Reading, writing and checking Elasto Mania level files, verified with Verus.

## Layout

- `src/` — the verified library.
  - `level.rs`: the level model (polygons, objects, pictures, best times) and
    its constructors. Coordinates are held as IEEE-754 bit patterns.
  - `reader.rs`: the file format as a function on bytes (`parse_level_spec`)
    and `Level::from_bytes`, which meets it. The three counts of a file are
    stored as floating-point numbers; the reader hands their bits out and
    takes the decoded counts back in.
  - `writer.rs`: the bytes of a level (`level_bytes`) and `Level::to_bytes`,
    which takes the floating-point fields (integrity sums, encoded counts)
    as bit patterns.
  - `roundtrip.rs`: a written level reads back as written
    (`lemma_write_then_read`).
  - `top10.rs`: the best-times tables; `crypt.rs`: their cipher;
    `text.rs`: zero-padded names; `endian.rs`: little-endian integers
    (through `byteorder`); `layout.rs`: lemmas on concatenated fields;
    `topology.rs`: object-count and polygon checks.
- `tests/` — tests of the library.
- `app/` — what stays outside: files, floating-point geometry (bounding
  boxes, width, height, the size limits of the topology check), the
  integrity sums, the encoding and decoding of the stored counts, and the
  random draws of link numbers.

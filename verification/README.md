# hdf5_rust

An HDF5 reader and writer whose byte-level logic is verified with Verus.
IEEE values are handled as integer bit patterns (`u64` / `u32` lanes); no
hardware floating point is used.

## Layout

- `src/` — the verified library.
  - `buf`, `checksum`, `superblock`, `ohdr`, `messages`, `btree`: the on-disk
    structures, each parser and encoder specified by a spec function over bytes.
  - `model`, `table`, `paths`, `text`: the in-memory graph (sorted tables of
    groups and datasets), path normalization, decimal text.
  - `decode`, `encode`: a whole file image to the graph and back.
  - `file`: the public `Hdf5File` object and its operations, stated over the
    graph.
  - `lanes`: typed values to and from little-endian payload bytes.
  - `laws`, `roundtrip`, `image`, `tree`, `shape`, `encodable`: proofs of
    what holds across calls: read after write, component round trips, that
    reading back a written file gives the same graph, which graphs are always
    written (and which error a refused one gives), and which operations keep
    a graph shaped as a tree.
- `tests/` — behaviour on concrete inputs.
- `app/` — file I/O (`open`, `save`) and `Display` for errors, outside the
  verified library.

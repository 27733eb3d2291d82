# rgit

A small Git-style version store, written in Verus: the logic is verified
against its contracts, and a thin command line does the file work.

## Layout

- `src/` — the verified library
  - `codec.rs`: hex, decimal, big-endian and UTF-8 helpers, byte search
  - `digest.rs`: the SHA-1 and zlib calls the store rests on
  - `storage.rs`: object framing (`"<type> <size>\0<content>"`), naming and reading
  - `index.rs`: the staging index and its `DIRC` file format
  - `tree.rs`: tree objects, built from the index and read back level by level
  - `listing.rs`: what the written trees list, read from the root
  - `tree_id.rs`: what a tree's name depends on
  - `object.rs`: commit objects, their text and how it is parsed
  - `refs.rs`: ref files, `HEAD`, symbolic and direct refs
  - `commands.rs`: dates, history entries and the status report
- `app/` — the `rgit` command line: arguments, files and directories
- `tests/` — tests of the library on concrete values

## Main properties proved

- stored objects read back as the type and content they were made of;
- an index file read back gives the entries that were saved;
- a commit's text parses back into the fields it was written from;
- a tree's content parses back into the entries it was written from; every
  tree written for an index reads back level by level as the sorted entries
  of its directory, and those levels, followed from the root through each
  subdirectory's tree, hold exactly the staged files;
- a tree's name depends only on the paths, modes and blobs staged below its
  directory, not on modification times or other entries;
- the ref written by `set-head` / `update-ref` reads back as its target;
- hex text decodes back into the bytes it encodes;
- dates are the Gregorian calendar dates of the Unix time, before 1970 too;
- staging a file for a given clock reading records that reading in
  nanoseconds since the epoch (`Index::add_at`); `Index::add` stamps the
  current reading, whose value no contract can give.

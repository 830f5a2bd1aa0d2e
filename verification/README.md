# gputrace-bundle

A reader for the texture manifest of a `.gputrace` capture bundle, written in
Verus. It parses the `xdic` index and inflates the 248-byte texture
descriptors stored as zlib streams in `store0`.

Layout:

- `src/bytes.rs`: little-endian fields.
- `src/index.rs`: the index header, the record array and the bucket table
  that redirects alias records to their canonical record.
- `src/store.rs`: reading one zlib stream out of `store0` (through flate2).
- `src/descriptor.rs`: decoding a descriptor and voting for the capture's tag.
- `src/order.rs`: a stable merge sort by `store0` offset.
- `src/manifest.rs`: from records to the tagged, decoded descriptors.
- `src/lib.rs`: `Error` and `Bundle`.
- `app/`: opening a bundle directory from the filesystem.

`Bundle::open` takes the bytes of the two members; its contract states which
error each malformed index gets and, otherwise, exactly which descriptors the
bundle holds and in what order.

# ieee802154

Decoding and encoding of IEEE 802.15.4 MAC frames, verified with Verus.

- `src/codec.rs`: the byte-level error type, and reads and writes of bytes,
  little-endian integers and slices through the `byte` crate, with the model
  of a write as a sequence of all-or-nothing chunks.
- `src/mac/frame/`: frames, their content, the header and its frame control
  field; decoding and encoding, and the laws that relate them.
- `src/mac/beacon.rs`, `src/mac/command.rs`: beacon and MAC command content.
- `app/`: `byte::TryRead` and `byte::TryWrite` for frames and frame content.
- `tests/`: scenarios on concrete bytes.

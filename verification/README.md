# cobs_io_async

Consistent Overhead Byte Stuffing (COBS) with zero as the fixed frame
delimiter, as a verified library of I/O-free state machines, plus
asynchronous drivers for `embedded-io-async` and Tokio.

## Layout

- `src/` — the library, verified with Verus.
  - `format.rs`: the COBS encoding as a specification (`cobs_encode`), and
    its laws: no zero byte in an encoding, length bounds.
  - `seekable.rs`: slice-backed readers and writers with checked seeking.
  - `encode.rs`: one-shot encoding of a slice (`SliceEncoder`) and the
    incremental encoder (`EncoderCore`), which decides every destination
    action (`DestOp`) and tracks the body it has written; once finalized,
    that body is the encoding of everything pushed.
  - `decode.rs`: the byte-level decoder, the frame-level `DecoderCore`
    (padding, completion, invalid frames, poisoning and recovery), the
    steps of an incremental push, and one-shot decoding into a slice
    (`SliceDecoder`); decoding an encoding gives back its payload.
  - `error.rs`: error types shared by all of them.
- `tests/` — tests of the library on concrete values.
- `app/` — the asynchronous drivers: they perform the reads, writes and
  seeks that the state machines ask for, and give the progress and error
  types their serialization, formatting and I/O error kinds.

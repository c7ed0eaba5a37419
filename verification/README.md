# fastproto

The core of a protobuf codec for Python dataclasses, verified with
[Verus](https://github.com/verus-lang/verus).

* `src/wire.rs` reads and writes the primitives of the wire format;
  `src/wire_laws.rs` proves that what is written reads back.
* `src/descriptor.rs` is the internal schema, `src/parse.rs` the parser that
  makes it from `DescriptorProto` bytes, `src/text.rs` UTF-8 and dotted names;
  `src/parse_laws.rs` proves what of those bytes matters.
* `src/value.rs` models message instances as plain values; `src/message.rs`
  holds compiled descriptors and the classes that they are linked to.
* `src/arrival.rs` is what decoding hands out: every value as it arrives, even
  one that a later value replaces. `src/arrival_laws.rs` proves that this builds
  the message that the bytes stand for; `src/entries.rs` says what a map then
  holds.
* `src/encode.rs` and `src/decode.rs` walk a descriptor; `src/wellknown.rs` does
  the arithmetic of `Timestamp` and `Duration`.
* `src/codec_laws.rs` and `src/decode_laws.rs` prove what holds of encoder and
  decoder together: an encoded message decodes to itself, unknown fields
  survive, the last member of a oneof group wins, and every decoded message can
  be encoded again.

`app/` is the Python extension module around the library: it reads Python
objects into messages, and converts and stores each value that arrives, through
pyo3.

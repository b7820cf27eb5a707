# bevy_net

Networking for Bevy, with its wire formats verified in Verus.

- `src/codec.rs`: the frame codec. VarInts (`varint32_length`,
  `varint32_encode`, `varint32_decode`, `varint21_decode`), length-prefixed
  frames, zlib compression above a threshold (flate2) and AES-128 CFB-8
  encryption (aes, cfb8), over a `bytes::BytesMut` buffer. Contracts state the
  exact bytes of each frame, when encoding succeeds, and what decoding any
  buffer gives; laws state the round trips of VarInts, of one frame and of a
  stream of frames, that CFB-8 over a stream in pieces is CFB-8 over the
  whole stream, and that a decrypting decoder fed ciphertext over many calls
  hands out exactly the decryption of all it received.
- `src/replication.rs`: the replication update message. Type hashes, entity
  links and the registry of received types (held in Bevy's hash collections),
  `UpdateWriter` (the sending side) and `UpdateReader`, a state machine
  that tells the receiving side what to deserialize next. The law
  `law_update_roundtrip` states that the reader asks for exactly what was
  written.
- `app/`: Bevy plugins and systems, TCP and WebTransport transports, the
  tokio codec traits and serde/bincode (de)serialization around the library.

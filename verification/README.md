# hydra-transit

A point-to-point tunnel for a byte stream, encrypted chunk by chunk with
ChaCha20-Poly1305 under a key that changes with every chunk
(`K_{N+1} = BLAKE3(K_N || Tag_N)`), with its session logic verified in Verus.

* `src/` is the verified library. It decides what a node reads, writes, seals
  and opens. `src/stream.rs` says which bytes travel and proves what that
  guarantees: what one side sends arrives whole at the other, and nothing comes
  out of a receiver but the plaintext of genuine frames.
* `app/` is the program around it: command line, sockets, standard input and
  output.
* `tests/` runs the library with the real `chacha20poly1305`, `blake3` and `hex`.

What is taken on trust stands in `src/primitives.rs` (the cipher and the hash),
in `src/key.rs` (hexadecimal decoding and trimming) and in `src/network.rs` (the
type of I/O errors), each with a comment that says what is claimed.

The key is a pre-shared one: there is no handshake, no authentication of the
peer, and no forward secrecy between sessions.

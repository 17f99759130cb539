//! Point-to-point encrypted transit of a byte stream.
//!
//! The stream is cut into chunks of at most 64 KiB. Chunk `N` is sealed in
//! place with ChaCha20-Poly1305 under a key `K_N` and a nonce that both nodes
//! count for themselves, and the key of the next chunk is
//! `K_{N+1} = BLAKE3(K_N || Tag_N)`. A chunk travels as
//!
//! ```text
//! [ 4 bytes: payload length, u32 LE ] [ sealed payload ] [ 16 bytes: tag ]
//! ```
//!
//! and the length header is authenticated together with the payload.
//!
//! * [`primitives`] declares what is taken from `chacha20poly1305` and `blake3`;
//! * [`crypto`] holds the cipher with its key chain;
//! * [`stream`] defines the wire format of a whole session, and its laws;
//! * [`frame`] seals and opens one frame in its buffer;
//! * [`sender`] and [`receiver`] drive the two sides of a session, read by read
//!   and write by write, and [`session`] says what holds of both together;
//! * [`network`] holds the sizes of a frame and the errors of a session;
//! * [`key`] reads the initial key from its hexadecimal form;
//! * [`bytes`] and [`text`] hold little-endian numbers and message texts.

pub mod bytes;
pub mod crypto;
pub mod frame;
pub mod key;
pub mod network;
pub mod primitives;
pub mod receiver;
pub mod sender;
pub mod session;
pub mod stream;
pub mod text;

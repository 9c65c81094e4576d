/// Contracts for the calls that the library makes into std and into outside crates.
pub mod bindings;
/// WebSocket frames: building masked client frames and reading frame headers.
pub mod frame;
/// The HTTP side of connecting: probe and upgrade requests, cookies, handshake answers.
pub mod handshake;
/// The LZW decoder that the server's text messages are compressed with.
pub mod lzw;
/// Text helpers over character sequences: search, lines, trimming.
pub mod text;
/// The live-lightning servers and their addresses.
pub mod tracker;
/// Decoding UTF-8 payloads into Unicode scalar values.
pub mod utf8;
/// The client and the states of its connection life cycle.
pub mod web_socket;

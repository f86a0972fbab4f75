//! The core of a BitTorrent peer handshake: the 68-byte wire format, a per-socket
//! state machine for both directions, the filter registry consulted along the way,
//! the pipeline stages' decisions, the handshaker's configuration, and the bencode
//! value model with its encoder and decoder.

pub mod bencode;
pub mod builder;
pub mod bytes;
pub mod decode;
pub mod encode;
pub mod filter;
pub mod machine;
pub mod pipeline;
pub mod wire;

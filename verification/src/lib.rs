//! Secure-channel toolkit for a peer-to-peer chat tool: Diffie-Hellman key
//! agreement over a duplex byte channel, a linear-congruential keystream
//! cipher, and the small hex and grid utilities the surrounding tools use.

pub mod channel;
pub mod cipher;
pub mod exchange;
pub mod grid;
pub mod hexutil;
pub mod modexp;

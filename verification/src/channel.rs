//! The secure channel. After the handshake both peers hold the same shared
//! secret and run two independent cipher instances, one per direction: the
//! outbound cipher only ever encrypts what this peer sends, the inbound one
//! only ever decrypts what it receives. The blocking send and receive loops
//! live outside the library and hand byte buffers in and out; this module
//! owns the cipher state and the connection's phase bookkeeping.

use crate::cipher::{lcg_iter, lemma_process_round_trip, process_spec, LcgCipher};
use vstd::prelude::*;

verus! {

/// A send or receive failure during the chat loop. It ends the owning task;
/// on the receive side it ends the whole session.
#[derive(Clone, Copy, Debug, PartialEq, Eq, Structural)]
pub enum TransportError {
    Io,
}

/// The connection's lifecycle. `Closed` is terminal.
#[derive(Clone, Copy, Debug, PartialEq, Eq, Structural)]
pub enum Phase {
    Disconnected,
    Handshaking,
    Established,
    Closing,
    Closed,
}

/// What the surrounding send and receive loops observe.
#[derive(Clone, Copy, Debug, PartialEq, Eq, Structural)]
pub enum ChannelEvent {
    HandshakeStarted,
    HandshakeSucceeded,
    HandshakeFailed,
    PeerClosed,
    TransportFailed,
    InputExhausted,
    ShutdownComplete,
}

/// The phase reached after observing an event. A failed handshake closes the
/// connection outright; an established connection starts closing when either
/// direction sees the end of its stream or an error, or when the local input
/// is exhausted. Events that do not apply to the current phase leave it
/// unchanged.
pub open spec fn step_spec(p: Phase, e: ChannelEvent) -> Phase {
    match (p, e) {
        (Phase::Disconnected, ChannelEvent::HandshakeStarted) => Phase::Handshaking,
        (Phase::Handshaking, ChannelEvent::HandshakeSucceeded) => Phase::Established,
        (Phase::Handshaking, ChannelEvent::HandshakeFailed) => Phase::Closed,
        (Phase::Established, ChannelEvent::PeerClosed) => Phase::Closing,
        (Phase::Established, ChannelEvent::TransportFailed) => Phase::Closing,
        (Phase::Established, ChannelEvent::InputExhausted) => Phase::Closing,
        (Phase::Closing, ChannelEvent::ShutdownComplete) => Phase::Closed,
        (q, _) => q,
    }
}

/// Advance the connection's phase on an observed event.
pub fn step(p: Phase, e: ChannelEvent) -> (r: Phase)
    ensures
        r == step_spec(p, e),
{
    match (p, e) {
        (Phase::Disconnected, ChannelEvent::HandshakeStarted) => Phase::Handshaking,
        (Phase::Handshaking, ChannelEvent::HandshakeSucceeded) => Phase::Established,
        (Phase::Handshaking, ChannelEvent::HandshakeFailed) => Phase::Closed,
        (Phase::Established, ChannelEvent::PeerClosed) => Phase::Closing,
        (Phase::Established, ChannelEvent::TransportFailed) => Phase::Closing,
        (Phase::Established, ChannelEvent::InputExhausted) => Phase::Closing,
        (Phase::Closing, ChannelEvent::ShutdownComplete) => Phase::Closed,
        (q, _) => q,
    }
}

/// `Closed` is terminal: no event leaves it.
pub proof fn lemma_closed_is_terminal(e: ChannelEvent)
    ensures
        step_spec(Phase::Closed, e) == Phase::Closed,
{
}

/// The two cipher instances of an established connection. They are never
/// shared between the sender and the receiver: each side owns its own
/// direction exclusively.
pub struct SecureChannel {
    pub outbound: LcgCipher,
    pub inbound: LcgCipher,
}

impl SecureChannel {
    /// Both directions are seeded with the low 32 bits of the same shared
    /// secret; each advances independently afterwards.
    pub fn new(shared_secret: u64) -> (c: SecureChannel)
        ensures
            c.outbound.state == shared_secret as u32,
            c.inbound.state == shared_secret as u32,
            c.outbound.count == 0,
            c.inbound.count == 0,
    {
        SecureChannel {
            outbound: LcgCipher::new(shared_secret),
            inbound: LcgCipher::new(shared_secret),
        }
    }

    /// Encrypt one line of input with the outbound cipher. Empty lines are
    /// never transmitted: for them nothing is produced and the cipher is left
    /// exactly where it was. The inbound cipher is never touched.
    pub fn encrypt_outgoing(&mut self, line: &[u8]) -> (r: Option<Vec<u8>>)
        requires
            old(self).outbound.count + line@.len() <= usize::MAX,
        ensures
            final(self).inbound == old(self).inbound,
            line@.len() == 0 ==> r is None && final(self).outbound == old(self).outbound,
            line@.len() > 0 ==> (r matches Some(c) && c@ == process_spec(
                old(self).outbound.state,
                line@,
            )),
            line@.len() > 0 ==> final(self).outbound.state == lcg_iter(
                old(self).outbound.state,
                line@.len(),
            ) && final(self).outbound.count == old(self).outbound.count + line@.len(),
    {
        if line.len() == 0 {
            None
        } else {
            Some(self.outbound.process(line))
        }
    }

    /// Decrypt a buffer received from the peer with the inbound cipher. The
    /// outbound cipher is never touched.
    pub fn decrypt_incoming(&mut self, data: &[u8]) -> (r: Vec<u8>)
        requires
            old(self).inbound.count + data@.len() <= usize::MAX,
        ensures
            final(self).outbound == old(self).outbound,
            r@ == process_spec(old(self).inbound.state, data@),
            final(self).inbound.state == lcg_iter(old(self).inbound.state, data@.len()),
            final(self).inbound.count == old(self).inbound.count + data@.len(),
    {
        self.inbound.process(data)
    }
}

/// Duplex round trip: when the receiving peer's inbound cipher sits at the
/// same keystream position `k` as the sending peer's outbound cipher - both
/// seeded from the same shared secret - it recovers every line exactly.
pub proof fn lemma_duplex_round_trip(shared_secret: u64, k: nat, line: Seq<u8>)
    ensures
        process_spec(
            lcg_iter(shared_secret as u32, k),
            process_spec(lcg_iter(shared_secret as u32, k), line),
        ) == line,
{
    lemma_process_round_trip(lcg_iter(shared_secret as u32, k), line);
}

} // verus!

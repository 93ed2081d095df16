//! Diffie-Hellman key agreement: the fixed public parameters, key-pair
//! generation, the 8-byte big-endian wire form of a public key, and
//! shared-secret derivation. The channel I/O that carries the two handshake
//! messages lives outside the library; it hands the received bytes in here.

use crate::modexp::{lemma_mod_pow_symmetry, mod_pow, mod_pow_spec};
use vstd::prelude::*;

verus! {

/// The fixed 64-bit prime modulus, identical on every peer.
pub const P: u64 = 0xD87FA3E291B4C7F3;

/// The fixed generator, identical on every peer.
pub const G: u64 = 2;

/// Why a handshake failed: the transport broke during the exchange, or the
/// peer's public key did not arrive as exactly 8 bytes.
#[derive(Clone, Copy, Debug, PartialEq, Eq, Structural)]
pub enum HandshakeError {
    Io,
    ShortExchange,
}

/// A session key pair. The private exponent never leaves this peer; the
/// public value `G^private mod P` is sent in the clear.
pub struct KeyPair {
    pub private_key: u64,
    pub public_key: u64,
}

impl KeyPair {
    /// The public key really is `G` raised to the private exponent, mod `P`.
    pub open spec fn wf(&self) -> bool {
        self.public_key == mod_pow_spec(G as nat, self.private_key as nat, P as nat)
    }
}

/// Relies on rand::random for an unpredictable 64-bit private exponent;
/// nothing is assumed about the value drawn. The thread generator panics if
/// the operating system's randomness source fails - an environmental
/// failure no precondition can exclude.
#[verifier::external_body]
fn random_u64() -> u64 {
    rand::random()
}

/// The key pair a given private exponent determines. Taking the exponent as
/// an argument lets a caller substitute a deterministic source for the
/// session generator.
pub fn keypair_from_private(private_key: u64) -> (kp: KeyPair)
    ensures
        kp.wf(),
        kp.private_key == private_key,
{
    let public_key = mod_pow(G, private_key, P);
    KeyPair { private_key, public_key }
}

/// Draw a fresh private key for this session and compute the matching
/// public key. Whatever exponent the generator hands back, the pair is
/// well-formed.
pub fn generate_keypair() -> (kp: KeyPair)
    ensures
        kp.wf(),
{
    let private_key = random_u64();
    keypair_from_private(private_key)
}

/// Derive the shared secret from the peer's public key and the local
/// private exponent: `peer_public^private mod P`.
pub fn derive_shared_secret(peer_public: u64, private_key: u64) -> (s: u64)
    ensures
        s == mod_pow_spec(peer_public as nat, private_key as nat, P as nat),
{
    mod_pow(peer_public, private_key, P)
}

/// Diffie-Hellman symmetry for the fixed parameters: the secret one peer
/// derives from the other's public key equals the secret the other derives,
/// whatever the two private exponents are.
pub proof fn lemma_shared_secret_symmetric(priv_a: u64, priv_b: u64)
    ensures
        mod_pow_spec(
            mod_pow_spec(G as nat, priv_a as nat, P as nat),
            priv_b as nat,
            P as nat,
        ) == mod_pow_spec(
            mod_pow_spec(G as nat, priv_b as nat, P as nat),
            priv_a as nat,
            P as nat,
        ),
{
    lemma_mod_pow_symmetry(G as nat, priv_a as nat, priv_b as nat, P as nat);
}

/// The 8-byte big-endian wire form of a 64-bit value.
pub open spec fn be_bytes_of(x: u64) -> Seq<u8> {
    seq![
        ((x >> 56) & 0xFF) as u8,
        ((x >> 48) & 0xFF) as u8,
        ((x >> 40) & 0xFF) as u8,
        ((x >> 32) & 0xFF) as u8,
        ((x >> 24) & 0xFF) as u8,
        ((x >> 16) & 0xFF) as u8,
        ((x >> 8) & 0xFF) as u8,
        (x & 0xFF) as u8,
    ]
}

/// The 64-bit value an 8-byte big-endian sequence denotes.
pub open spec fn u64_of_be(s: Seq<u8>) -> u64
    recommends
        s.len() == 8,
{
    ((s[0] as u64) << 56) | ((s[1] as u64) << 48) | ((s[2] as u64) << 40) | ((s[3] as u64) << 32)
        | ((s[4] as u64) << 24) | ((s[5] as u64) << 16) | ((s[6] as u64) << 8) | (s[7] as u64)
}

/// Encode a public key as the 8 big-endian bytes the handshake sends.
pub fn encode_public_key(key: u64) -> (b: Vec<u8>)
    ensures
        b@ == be_bytes_of(key),
        b@.len() == 8,
{
    let mut b: Vec<u8> = Vec::new();
    b.push(((key >> 56) & 0xFF) as u8);
    b.push(((key >> 48) & 0xFF) as u8);
    b.push(((key >> 40) & 0xFF) as u8);
    b.push(((key >> 32) & 0xFF) as u8);
    b.push(((key >> 24) & 0xFF) as u8);
    b.push(((key >> 16) & 0xFF) as u8);
    b.push(((key >> 8) & 0xFF) as u8);
    b.push((key & 0xFF) as u8);
    proof {
        assert(b@ =~= be_bytes_of(key));
    }
    b
}

/// Interpret the bytes received during the handshake as the peer's public
/// key. Exactly 8 bytes decode big-endian; any other length is a short
/// read or write and fails the handshake.
pub fn decode_public_key(bytes: &[u8]) -> (r: Result<u64, HandshakeError>)
    ensures
        bytes@.len() == 8 ==> r == Ok::<u64, HandshakeError>(u64_of_be(bytes@)),
        bytes@.len() != 8 ==> r == Err::<u64, HandshakeError>(HandshakeError::ShortExchange),
{
    if bytes.len() != 8 {
        return Err(HandshakeError::ShortExchange);
    }
    let x = ((bytes[0] as u64) << 56) | ((bytes[1] as u64) << 48) | ((bytes[2] as u64) << 40)
        | ((bytes[3] as u64) << 32) | ((bytes[4] as u64) << 24) | ((bytes[5] as u64) << 16)
        | ((bytes[6] as u64) << 8) | (bytes[7] as u64);
    Ok(x)
}

/// The wire form decodes to the key it encodes: the two handshake codecs
/// are inverse to one another.
pub proof fn lemma_public_key_wire_round_trip(x: u64)
    ensures
        u64_of_be(be_bytes_of(x)) == x,
{
    let b0 = ((x >> 56) & 0xFF) as u8;
    let b1 = ((x >> 48) & 0xFF) as u8;
    let b2 = ((x >> 40) & 0xFF) as u8;
    let b3 = ((x >> 32) & 0xFF) as u8;
    let b4 = ((x >> 24) & 0xFF) as u8;
    let b5 = ((x >> 16) & 0xFF) as u8;
    let b6 = ((x >> 8) & 0xFF) as u8;
    let b7 = (x & 0xFF) as u8;
    assert(((b0 as u64) << 56) | ((b1 as u64) << 48) | ((b2 as u64) << 40) | ((b3 as u64) << 32)
        | ((b4 as u64) << 24) | ((b5 as u64) << 16) | ((b6 as u64) << 8) | (b7 as u64) == x)
        by (bit_vector)
        requires
            b0 == ((x >> 56) & 0xFF) as u8,
            b1 == ((x >> 48) & 0xFF) as u8,
            b2 == ((x >> 40) & 0xFF) as u8,
            b3 == ((x >> 32) & 0xFF) as u8,
            b4 == ((x >> 24) & 0xFF) as u8,
            b5 == ((x >> 16) & 0xFF) as u8,
            b6 == ((x >> 8) & 0xFF) as u8,
            b7 == (x & 0xFF) as u8,
    ;
}

} // verus!

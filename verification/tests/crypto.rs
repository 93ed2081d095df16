use streamchat::channel::{step, ChannelEvent, Phase, SecureChannel};
use streamchat::cipher::LcgCipher;
use streamchat::exchange::{
    decode_public_key, derive_shared_secret, encode_public_key, generate_keypair,
    keypair_from_private, HandshakeError, G, P,
};
use streamchat::modexp::mod_pow;

#[test]
fn mod_pow_small_values() {
    assert_eq!(mod_pow(2, 10, 1000), 24);
    assert_eq!(mod_pow(0xDEAD, 0, 5), 1);
    assert_eq!(mod_pow(0, 5, 7), 0);
    assert_eq!(mod_pow(5, 1, 7), 5);
    assert_eq!(mod_pow(7, 1, 1), 0);
}

#[test]
fn mod_pow_matches_repeated_multiplication() {
    // the reference result computed by plain repeated multiplication in 128 bits
    let (base, exp, m) = (0x1234_5678u64, 29u64, 0xD87F_A3E2_91B4_C7F3u64);
    let mut reference: u128 = 1;
    for _ in 0..exp {
        reference = (reference * base as u128) % m as u128;
    }
    assert_eq!(mod_pow(base, exp, m), reference as u64);
}

#[test]
fn mod_pow_large_operands() {
    assert_eq!(mod_pow(u64::MAX, 3, P), 0xAEBF_4FEB_8A8A_2121);
}

#[test]
fn dh_concrete_scenario() {
    let priv_a: u64 = 5;
    let priv_b: u64 = 7;
    let pub_a = mod_pow(G, priv_a, P);
    let pub_b = mod_pow(G, priv_b, P);
    assert_eq!(pub_a, 32);
    assert_eq!(pub_b, 128);
    let secret_a = mod_pow(pub_b, priv_a, P);
    let secret_b = mod_pow(pub_a, priv_b, P);
    assert_eq!(secret_a, secret_b);
    assert_eq!(secret_a, mod_pow(2, 35, P));
    assert_eq!(secret_a, 34359738368);
}

#[test]
fn deterministic_keypair() {
    let kp = keypair_from_private(5);
    assert_eq!(kp.private_key, 5);
    assert_eq!(kp.public_key, 32);
    let kp2 = keypair_from_private(7);
    assert_eq!(kp2.public_key, 128);
    let secret_a = derive_shared_secret(kp2.public_key, kp.private_key);
    let secret_b = derive_shared_secret(kp.public_key, kp2.private_key);
    assert_eq!(secret_a, secret_b);
    assert_eq!(secret_a, 34359738368);
}

#[test]
fn dh_random_keypairs_agree() {
    let kp_a = generate_keypair();
    let kp_b = generate_keypair();
    let secret_a = derive_shared_secret(kp_b.public_key, kp_a.private_key);
    let secret_b = derive_shared_secret(kp_a.public_key, kp_b.private_key);
    assert_eq!(secret_a, secret_b);
}

#[test]
fn public_key_wire_round_trip() {
    let encoded = encode_public_key(0x0123_4567_89AB_CDEF);
    assert_eq!(encoded, vec![0x01, 0x23, 0x45, 0x67, 0x89, 0xAB, 0xCD, 0xEF]);
    assert_eq!(decode_public_key(&encoded), Ok(0x0123_4567_89AB_CDEF));
}

#[test]
fn short_handshake_read_is_rejected() {
    assert_eq!(decode_public_key(&[1, 2, 3]), Err(HandshakeError::ShortExchange));
    assert_eq!(
        decode_public_key(&[0, 0, 0, 0, 0, 0, 0, 0, 0]),
        Err(HandshakeError::ShortExchange)
    );
}

#[test]
fn lcg_first_bytes_match_hand_computation() {
    let mut cipher = LcgCipher::new(0x1234_ABCD);
    assert_eq!(cipher.next_byte(), 0xBA);
    assert_eq!(cipher.next_byte(), 0x0C);
    assert_eq!(cipher.next_byte(), 0x97);

    // the same three steps computed directly from the recurrence
    let mut state: u64 = 0x1234_ABCD;
    let mut reference = LcgCipher::new(0x1234_ABCD);
    for _ in 0..3 {
        state = (state * 1103515245 + 12345) % 0x1_0000_0000;
        assert_eq!(reference.next_byte(), (state >> 24) as u8);
    }
}

#[test]
fn keystream_is_deterministic() {
    let mut a = LcgCipher::new(0xCAFE_BABE);
    let mut b = LcgCipher::new(0xCAFE_BABE);
    for _ in 0..64 {
        assert_eq!(a.next_byte(), b.next_byte());
    }
}

#[test]
fn seed_truncates_to_low_32_bits() {
    let mut a = LcgCipher::new(0xFFFF_FFFF_CAFE_BABE);
    let mut b = LcgCipher::new(0x0000_0000_CAFE_BABE);
    for _ in 0..16 {
        assert_eq!(a.next_byte(), b.next_byte());
    }
}

#[test]
fn process_advances_counter_and_position() {
    let mut cipher = LcgCipher::new(77);
    assert_eq!(cipher.count, 0);
    let empty = cipher.process(&[]);
    assert_eq!(empty.len(), 0);
    assert_eq!(cipher.count, 0);
    let first = cipher.process(&[1, 2, 3, 4, 5]);
    assert_eq!(first.len(), 5);
    assert_eq!(cipher.count, 5);

    // the next byte continues at position 5, not at position 0
    let continued = cipher.next_byte();
    let mut fresh = LcgCipher::new(77);
    for _ in 0..5 {
        fresh.next_byte();
    }
    assert_eq!(continued, fresh.next_byte());
    assert_eq!(cipher.count, 6);
}

#[test]
fn encrypt_hi_with_seed_one() {
    let mut encryptor = LcgCipher::new(0x0000_0001);
    let ciphertext = encryptor.process(&[0x48, 0x69]);
    assert_eq!(ciphertext, vec![0x09, 0xFF]);
    let mut decryptor = LcgCipher::new(0x0000_0001);
    assert_eq!(decryptor.process(&ciphertext), vec![0x48, 0x69]);
}

#[test]
fn process_round_trip_long_message() {
    let message: Vec<u8> = (0u16..300).map(|i| (i % 251) as u8).collect();
    let mut encryptor = LcgCipher::new(0xDEAD_BEEF);
    let mut decryptor = LcgCipher::new(0xDEAD_BEEF);
    let ciphertext = encryptor.process(&message);
    assert_ne!(ciphertext, message);
    assert_eq!(decryptor.process(&ciphertext), message);
}

#[test]
fn secure_channel_duplex_conversation() {
    let shared_secret: u64 = 0xD87F_A3E2_0000_1234;
    let mut peer_a = SecureChannel::new(shared_secret);
    let mut peer_b = SecureChannel::new(shared_secret);

    let first = peer_a.encrypt_outgoing(b"Hello").expect("nonempty line");
    assert_eq!(peer_b.decrypt_incoming(&first), b"Hello".to_vec());

    let second = peer_a.encrypt_outgoing(b"World!").expect("nonempty line");
    assert_eq!(peer_b.decrypt_incoming(&second), b"World!".to_vec());

    // the other direction runs its own pair of ciphers, starting at zero
    let reply = peer_b.encrypt_outgoing(b"Hi back").expect("nonempty line");
    assert_eq!(peer_a.decrypt_incoming(&reply), b"Hi back".to_vec());
}

#[test]
fn empty_lines_are_skipped() {
    let mut peer = SecureChannel::new(42);
    assert!(peer.encrypt_outgoing(b"").is_none());
    assert_eq!(peer.outbound.count, 0);
    let sent = peer.encrypt_outgoing(b"x").expect("nonempty line");
    assert_eq!(sent.len(), 1);
    assert_eq!(peer.outbound.count, 1);
    assert_eq!(peer.inbound.count, 0);
}

#[test]
fn phase_machine_follows_lifecycle() {
    let p0 = Phase::Disconnected;
    let p1 = step(p0, ChannelEvent::HandshakeStarted);
    assert_eq!(p1, Phase::Handshaking);
    let p2 = step(p1, ChannelEvent::HandshakeSucceeded);
    assert_eq!(p2, Phase::Established);
    let p3 = step(p2, ChannelEvent::PeerClosed);
    assert_eq!(p3, Phase::Closing);
    let p4 = step(p3, ChannelEvent::ShutdownComplete);
    assert_eq!(p4, Phase::Closed);
}

#[test]
fn phase_machine_failure_and_terminal_cases() {
    assert_eq!(
        step(Phase::Handshaking, ChannelEvent::HandshakeFailed),
        Phase::Closed
    );
    assert_eq!(
        step(Phase::Established, ChannelEvent::TransportFailed),
        Phase::Closing
    );
    assert_eq!(
        step(Phase::Established, ChannelEvent::InputExhausted),
        Phase::Closing
    );
    // events that do not apply leave the phase unchanged
    assert_eq!(
        step(Phase::Disconnected, ChannelEvent::PeerClosed),
        Phase::Disconnected
    );
    // Closed is terminal
    assert_eq!(step(Phase::Closed, ChannelEvent::HandshakeStarted), Phase::Closed);
    assert_eq!(step(Phase::Closed, ChannelEvent::PeerClosed), Phase::Closed);
}

//! The keystream cipher: a linear-congruential generator whose most
//! significant byte is XORed against the data stream. Encryption and
//! decryption are the same operation.

use vstd::prelude::*;

verus! {

/// Multiplier of the linear-congruential generator.
pub const LCG_A: u32 = 1103515245;

/// Increment of the linear-congruential generator.
pub const LCG_C: u32 = 12345;

/// One step of the generator: `state * A + C mod 2^32`.
pub open spec fn lcg_next(s: u32) -> u32 {
    s.wrapping_mul(LCG_A).wrapping_add(LCG_C)
}

/// The register after `n` steps from `s`.
pub open spec fn lcg_iter(s: u32, n: nat) -> u32
    decreases n,
{
    if n == 0 {
        s
    } else {
        lcg_next(lcg_iter(s, (n - 1) as nat))
    }
}

/// The `k`-th keystream byte emitted from register `s`: the most significant
/// byte of the register after `k + 1` steps.
pub open spec fn keystream_byte(s: u32, k: nat) -> u8 {
    (lcg_iter(s, k + 1) >> 24) as u8
}

/// The first `n` keystream bytes emitted from register `s`.
pub open spec fn keystream(s: u32, n: nat) -> Seq<u8> {
    Seq::new(n, |i: int| keystream_byte(s, i as nat))
}

/// `data` XORed byte-for-byte against the keystream from register `s`.
pub open spec fn process_spec(s: u32, data: Seq<u8>) -> Seq<u8> {
    Seq::new(data.len(), |i: int| data[i] ^ keystream_byte(s, i as nat))
}

/// Stream cipher state: the generator register and how many keystream bytes
/// have been drawn since construction. The counter never decreases.
pub struct LcgCipher {
    pub state: u32,
    pub count: usize,
}

impl LcgCipher {
    /// A fresh cipher seeded with the low 32 bits of a shared secret; the
    /// step counter starts at zero.
    pub fn new(seed: u64) -> (c: LcgCipher)
        ensures
            c.state == seed as u32,
            c.count == 0,
    {
        LcgCipher { state: #[verifier::truncate] (seed as u32), count: 0 }
    }

    /// Advance the register one step and emit its most significant byte.
    pub fn next_byte(&mut self) -> (r: u8)
        requires
            old(self).count < usize::MAX,
        ensures
            final(self).state == lcg_next(old(self).state),
            final(self).count == old(self).count + 1,
            r == keystream_byte(old(self).state, 0),
    {
        proof {
            reveal_with_fuel(lcg_iter, 2);
        }
        self.state = self.state.wrapping_mul(LCG_A).wrapping_add(LCG_C);
        self.count = self.count + 1;
        (self.state >> 24) as u8
    }

    /// XOR `data` against the keystream, drawing one keystream byte per input
    /// byte. The counter grows by exactly the length of `data`, and the
    /// register ends `data.len()` steps further on, so a later call carries
    /// the keystream on from that position.
    pub fn process(&mut self, data: &[u8]) -> (out: Vec<u8>)
        requires
            old(self).count + data@.len() <= usize::MAX,
        ensures
            final(self).state == lcg_iter(old(self).state, data@.len()),
            final(self).count == old(self).count + data@.len(),
            out@ == process_spec(old(self).state, data@),
    {
        let ghost s0 = self.state;
        let ghost c0 = self.count;
        let mut out: Vec<u8> = Vec::new();
        let mut i: usize = 0;
        while i < data.len()
            invariant
                i <= data@.len(),
                c0 + data@.len() <= usize::MAX,
                self.state == lcg_iter(s0, i as nat),
                self.count == c0 + i,
                out@.len() == i as nat,
                forall|j: int| 0 <= j < i ==> out@[j] == (data@[j] ^ keystream_byte(s0, j as nat)),
            decreases data@.len() - i,
        {
            let k = self.next_byte();
            proof {
                reveal_with_fuel(lcg_iter, 2);
                assert(lcg_iter(s0, (i + 1) as nat) == lcg_next(lcg_iter(s0, i as nat)));
                assert(keystream_byte(lcg_iter(s0, i as nat), 0) == keystream_byte(s0, i as nat));
            }
            out.push(data[i] ^ k);
            i = i + 1;
        }
        proof {
            assert(out@ =~= process_spec(s0, data@));
        }
        out
    }
}

/// Stepping the register `a + b` times is stepping it `a` times and then `b`
/// more: a cipher that has already consumed `a` bytes continues the keystream
/// at position `a` rather than restarting.
pub proof fn lemma_lcg_iter_adds(s: u32, a: nat, b: nat)
    ensures
        lcg_iter(s, a + b) == lcg_iter(lcg_iter(s, a), b),
    decreases b,
{
    if b > 0 {
        lemma_lcg_iter_adds(s, a, (b - 1) as nat);
        assert(lcg_iter(s, a + b) == lcg_next(lcg_iter(s, (a + b - 1) as nat)));
    }
}

/// After `a` keystream bytes have been drawn, the next byte the register
/// yields is byte `a + k` of the original stream.
pub proof fn lemma_keystream_position(s: u32, a: nat, k: nat)
    ensures
        keystream_byte(lcg_iter(s, a), k) == keystream_byte(s, a + k),
{
    lemma_lcg_iter_adds(s, a, k + 1);
}

/// Keystream determinism: the bytes a cipher goes on to produce depend only
/// on its register, so two ciphers in the same state - in particular, two
/// freshly constructed from the same seed - emit identical sequences for any
/// number of steps.
pub proof fn lemma_keystream_determinism(c1: LcgCipher, c2: LcgCipher, n: nat)
    requires
        c1.state == c2.state,
    ensures
        keystream(c1.state, n) == keystream(c2.state, n),
{
}

/// Round trip: XORing with the same keystream twice gives the data back, so
/// decrypting with a fresh cipher what an identically seeded fresh cipher
/// encrypted is the identity.
pub proof fn lemma_process_round_trip(s: u32, data: Seq<u8>)
    ensures
        process_spec(s, process_spec(s, data)) == data,
{
    let once = process_spec(s, data);
    assert forall|i: int| 0 <= i < data.len() implies process_spec(s, once)[i] == data[i] by {
        let d = data[i];
        let k = keystream_byte(s, i as nat);
        assert((d ^ k) ^ k == d) by (bit_vector);
    };
    assert(process_spec(s, process_spec(s, data)) =~= data);
}

} // verus!

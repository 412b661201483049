//! The generator with 32 bits of state.
use crate::byte_order::{
    chunk_len, host_is_little_endian, lemma_low_half_bytes, native_u32, ordered_byte,
    put_low_bytes, word32_be, word32_in, word32_le,
};
use rand_core::{RngCore, SeedableRng};
use vstd::prelude::*;

verus! {

/// First multiplier of the 32-bit mixing round.
pub const MIX32_C1: u32 = 0xcc9e2d51;

/// Second multiplier of the 32-bit mixing round.
pub const MIX32_C2: u32 = 0x1b873593;

/// The product of `a` and `b` modulo 2^32.
pub open spec fn mul32(a: u32, b: u32) -> u32 {
    ((a as nat * b as nat) % 0x1_0000_0000) as u32
}

/// `x` rotated left by 15 bits.
pub open spec fn rotl15(x: u32) -> u32 {
    (x << 15) | (x >> 17)
}

/// One transition of the generator: multiply, rotate, multiply.
pub open spec fn mix32(s: u32) -> u32 {
    mul32(rotl15(mul32(s, MIX32_C1)), MIX32_C2)
}

/// The state after `n` transitions from `s`, which is also the `n`-th word
/// drawn (counting from 1).
pub open spec fn stream32(s: u32, n: nat) -> u32
    decreases n,
{
    if n == 0 {
        s
    } else {
        mix32(stream32(s, (n - 1) as nat))
    }
}

/// The 64-bit word with `lo` as its low half and `hi` as its high half.
pub open spec fn pair64(lo: u32, hi: u32) -> u64 {
    ((hi as u64) << 32) | (lo as u64)
}

/// The `q`-th 64-bit word drawn from state `s` (counting from 0): two
/// consecutive 32-bit words, the earlier one in the low half.
pub open spec fn draw64(s: u32, q: nat) -> u64 {
    pair64(stream32(s, 2 * q + 1), stream32(s, 2 * q + 2))
}

/// Byte `i` of a buffer of `len` bytes filled from state `s`.
pub open spec fn fill_byte32(s: u32, len: nat, i: nat, little: bool) -> u8 {
    ordered_byte(draw64(s, i / 8), chunk_len(len, i / 8), i % 8, little)
}

/// A buffer of `len` bytes filled from state `s`: 64-bit words, eight bytes
/// each in the given byte order, then the low-order bytes of one more word
/// for what is left.
pub open spec fn filled32(s: u32, len: nat, little: bool) -> Seq<u8> {
    Seq::new(len, |i: int| fill_byte32(s, len, i as nat, little))
}

/// The number of transitions that filling `len` bytes takes: two for each
/// eight bytes, two for a rest of four to seven bytes, which is drawn as a
/// 64-bit word, and one for a rest of one to three, drawn as a 32-bit word.
pub open spec fn draws32(len: nat) -> nat {
    2 * (len / 8) + if len % 8 >= 4 {
        2nat
    } else if len % 8 > 0 {
        1nat
    } else {
        0nat
    }
}

/// The seed of a `Mixer32`: four bytes, read in the host's byte order.
#[derive(Clone, Copy, Debug)]
pub struct Seed32(pub [u8; 4]);

impl Default for Seed32 {
    /// The seed of four zero bytes.
    fn default() -> (r: Self)
        ensures
            r.0@ == seq![0u8, 0u8, 0u8, 0u8],
    {
        let r = Seed32([0, 0, 0, 0]);
        assert(r.0@ =~= seq![0u8, 0u8, 0u8, 0u8]);
        r
    }
}

impl AsRef<[u8]> for Seed32 {
    /// The seed's four bytes.
    fn as_ref(&self) -> (r: &[u8])
        ensures
            r@ == self.0@,
    {
        self.0.as_slice()
    }
}

impl AsMut<[u8]> for Seed32 {
    /// The seed's four bytes, to be written in place.
    fn as_mut(&mut self) -> (r: &mut [u8])
        ensures
            r@ == old(self).0@,
            final(r)@ == final(self).0@,
    {
        self.0.as_mut_slice()
    }
}

/// A generator whose whole state is one 32-bit word.
#[derive(Clone, Copy, Debug)]
pub struct Mixer32 {
    state: u32,
}

impl View for Mixer32 {
    type V = u32;

    /// The generator's state.
    closed spec fn view(&self) -> u32 {
        self.state
    }
}

impl Mixer32 {
    /// The generator whose state is `state`.
    pub fn from_state(state: u32) -> (r: Self)
        ensures
            r@ == state,
    {
        Mixer32 { state }
    }

    /// Fills `dest` from the stream, writing each word in the given byte
    /// order: `little` for least significant byte first.
    pub fn fill_bytes_ordered(&mut self, dest: &mut [u8], little: bool)
        ensures
            final(dest)@.len() == old(dest)@.len(),
            final(dest)@ == filled32(old(self)@, old(dest)@.len(), little),
            final(self)@ == stream32(old(self)@, draws32(old(dest)@.len())),
    {
        let ghost s0 = self@;
        let n: usize = dest.len();
        let mut at: usize = 0;
        while n - at >= 8
            invariant
                at <= n,
                at % 8 == 0,
                dest@.len() == n,
                self@ == stream32(s0, 2 * (at as nat / 8)),
                forall|i: int|
                    0 <= i < at ==> dest@[i] == fill_byte32(s0, n as nat, i as nat, little),
            decreases n - at,
        {
            let ghost q = at as nat / 8;
            let w: u64 = self.next_u64();
            put_low_bytes(dest, at, w, 8, little);
            proof {
                assert(w == draw64(s0, q));
                assert forall|i: int| at <= i < at + 8 implies dest@[i] == fill_byte32(
                    s0,
                    n as nat,
                    i as nat,
                    little,
                ) by {
                    assert(dest@[i] == dest@.subrange(at as int, at + 8)[i - at]);
                    assert(i as nat / 8 == q && i as nat % 8 == i - at);
                }
            }
            at += 8;
        }
        let rest: usize = n - at;
        let ghost q = at as nat / 8;
        if rest >= 4 {
            let w: u64 = self.next_u64();
            put_low_bytes(dest, at, w, rest, little);
            proof {
                assert(w == draw64(s0, q));
                assert forall|i: int| at <= i < n implies dest@[i] == fill_byte32(
                    s0,
                    n as nat,
                    i as nat,
                    little,
                ) by {
                    assert(dest@[i] == dest@.subrange(at as int, at + rest)[i - at]);
                    assert(i as nat / 8 == q && i as nat % 8 == i - at);
                }
            }
        } else if rest > 0 {
            let x: u32 = self.next_u32();
            put_low_bytes(dest, at, x as u64, rest, little);
            proof {
                let w = draw64(s0, q);
                assert(x == stream32(s0, 2 * q + 1));
                lemma_pair64_halves(x, stream32(s0, 2 * q + 2));
                assert forall|i: int| at <= i < n implies dest@[i] == fill_byte32(
                    s0,
                    n as nat,
                    i as nat,
                    little,
                ) by {
                    assert(dest@[i] == dest@.subrange(at as int, at + rest)[i - at]);
                    assert(i as nat / 8 == q && i as nat % 8 == i - at);
                    let k: nat = if little {
                        (i - at) as nat
                    } else {
                        (rest - 1 - (i - at)) as nat
                    };
                    lemma_low_half_bytes(w, k);
                }
            }
        }
        assert(dest@ =~= filled32(s0, n as nat, little));
    }
}

/// A composed 64-bit word gives back its two components: the low 32 bits are
/// the first, the high 32 bits the second.
pub proof fn lemma_pair64_halves(lo: u32, hi: u32)
    ensures
        pair64(lo, hi) & 0xffff_ffff == lo as u64,
        (pair64(lo, hi) >> 32) == hi as u64,
{
    assert((((hi as u64) << 32) | (lo as u64)) & 0xffff_ffff == lo as u64) by (bit_vector);
    assert(((((hi as u64) << 32) | (lo as u64)) >> 32) == hi as u64) by (bit_vector);
}

/// One 64-bit draw is two 32-bit draws: from any state, the word that
/// `next_u64` returns has the next 32-bit word of the stream as its low half
/// and the one after it as its high half, and leaves the state where two
/// 32-bit draws leave it.
pub proof fn lemma_word_decomposition(s: u32)
    ensures
        draw64(s, 0) == pair64(mix32(s), mix32(mix32(s))),
        draw64(s, 0) & 0xffff_ffff == stream32(s, 1) as u64,
        draw64(s, 0) >> 32 == stream32(s, 2) as u64,
        stream32(s, 2) == mix32(mix32(s)),
{
    assert(stream32(s, 0) == s);
    assert(stream32(s, 1) == mix32(stream32(s, 0)));
    assert(stream32(s, 2) == mix32(stream32(s, 1)));
    lemma_pair64_halves(stream32(s, 1), stream32(s, 2));
}

/// Drawing `m` words and then `n` more reaches the state that drawing
/// `m + n` words reaches: the state is a function of the starting state and
/// the number of words drawn.
pub proof fn lemma_stream32_split(s: u32, m: nat, n: nat)
    ensures
        stream32(stream32(s, m), n) == stream32(s, m + n),
    decreases n,
{
    if n > 0 {
        lemma_stream32_split(s, m, (n - 1) as nat);
        assert(stream32(s, m + n) == mix32(stream32(s, (m + n - 1) as nat)));
    }
}

/// Two generators in the same state draw the same words and fill a buffer
/// with the same bytes, however far the stream is followed.
pub proof fn lemma_same_state_same_stream(a: Mixer32, b: Mixer32, n: nat, len: nat, little: bool)
    requires
        a@ == b@,
    ensures
        stream32(a@, n) == stream32(b@, n),
        filled32(a@, len, little) == filled32(b@, len, little),
{
}

/// The first whole words of a filled buffer do not depend on how long the
/// buffer is: a buffer of `len` bytes starts with the bytes of a buffer of
/// `8 * words` bytes filled from the same state.
pub proof fn lemma_filled32_prefix(s: u32, len: nat, words: nat, little: bool)
    requires
        8 * words <= len,
    ensures
        filled32(s, len, little).subrange(0, 8 * words as int) == filled32(s, 8 * words, little),
{
    let long = filled32(s, len, little);
    let short = filled32(s, 8 * words, little);
    assert forall|i: int| 0 <= i < 8 * words implies #[trigger] long[i] == short[i] by {
        assert(i as nat / 8 < words);
        assert(words <= len / 8);
        assert((8 * words) / 8 == words);
    }
    assert(long.subrange(0, 8 * words as int) =~= short);
}

/// Instances do not share state. Where `b` was copied from `a` and `a` then
/// drew `k` words, `b` still draws the words that `a` drew from the point of
/// the copy, and `a` goes on from its own state as if no copy had been taken.
pub proof fn lemma_copy_is_independent(a: Mixer32, b: Mixer32, k: nat, n: nat)
    requires
        b@ == a@,
    ensures
        stream32(b@, n) == stream32(a@, n),
        stream32(stream32(a@, k), n) == stream32(a@, k + n),
{
    lemma_stream32_split(a@, k, n);
}

/// Two generators seeded with the same bytes, read in the same byte order,
/// draw the same words and fill a buffer with the same bytes, however far
/// the stream is followed.
pub proof fn lemma_same_seed_same_stream(
    seed: Seed32,
    order: bool,
    a: Mixer32,
    b: Mixer32,
    n: nat,
    len: nat,
    little: bool,
)
    requires
        a@ == word32_in(seed.0@, order),
        b@ == word32_in(seed.0@, order),
    ensures
        stream32(a@, n) == stream32(b@, n),
        filled32(a@, len, little) == filled32(b@, len, little),
{
}

/// The transition is one-to-one: distinct states lead to distinct states.
pub proof fn lemma_mix32_injective(a: u32, b: u32)
    requires
        mix32(a) == mix32(b),
    ensures
        a == b,
{
    let a1 = mul32(a, MIX32_C1);
    let b1 = mul32(b, MIX32_C1);
    let a2 = rotl15(a1);
    let b2 = rotl15(b1);
    assert(mul32(a2, MIX32_C2) == mul32(b2, MIX32_C2) ==> a2 == b2) by (bit_vector);
    assert(rotl15(a1) == rotl15(b1) ==> a1 == b1) by (bit_vector);
    assert(mul32(a, MIX32_C1) == mul32(b, MIX32_C1) ==> a == b) by (bit_vector);
}

/// Distinct states stay distinct however many words are drawn.
pub proof fn lemma_stream32_injective(a: u32, b: u32, n: nat)
    requires
        stream32(a, n) == stream32(b, n),
    ensures
        a == b,
    decreases n,
{
    if n > 0 {
        lemma_mix32_injective(stream32(a, (n - 1) as nat), stream32(b, (n - 1) as nat));
        lemma_stream32_injective(a, b, (n - 1) as nat);
    }
}

/// The stream has no lead-in: where a state comes again after `j - i` more
/// words, the starting state itself comes again after `j - i` words.
pub proof fn lemma_stream32_periodic(s: u32, i: nat, j: nat)
    requires
        i <= j,
        stream32(s, i) == stream32(s, j),
    ensures
        stream32(s, (j - i) as nat) == s,
{
    lemma_stream32_split(s, (j - i) as nat, i);
    lemma_stream32_injective(stream32(s, (j - i) as nat), s, i);
}

/// From a starting state that the transition does not map to itself, no word
/// of the stream equals the word before it: the words are never all the
/// same, and the stream's period is at least two. Zero is left out, being
/// mapped to itself.
pub proof fn lemma_non_degenerate32(s: u32, i: nat)
    requires
        mix32(s) != s,
    ensures
        stream32(s, i) != stream32(s, i + 1),
        s != 0,
{
    if stream32(s, i) == stream32(s, i + 1) {
        lemma_stream32_periodic(s, i, i + 1);
        assert(stream32(s, 1) == mix32(stream32(s, 0)));
    }
    if s == 0 {
        lemma_zero_stream32(1);
        assert(stream32(0, 1) == mix32(stream32(0, 0)));
    }
}

/// A generator that starts from a state other than zero never reaches zero.
pub proof fn lemma_nonzero_stream32(s: u32, n: nat)
    requires
        s != 0,
    ensures
        stream32(s, n) != 0,
{
    lemma_zero_stream32(n);
    if stream32(s, n) == 0 {
        lemma_stream32_injective(s, 0, n);
    }
}

/// Zero is a fixed point of the transition: a generator in state zero draws
/// zero for ever.
pub proof fn lemma_zero_stream32(n: nat)
    ensures
        stream32(0, n) == 0,
    decreases n,
{
    if n > 0 {
        lemma_zero_stream32((n - 1) as nat);
        assert(mul32(0, MIX32_C1) == 0);
        assert(rotl15(0) == 0) by (bit_vector);
        assert(mul32(0, MIX32_C2) == 0);
    }
}

impl SeedableRng for Mixer32 {
    type Seed = Seed32;

    /// The generator whose state is the seed's four bytes read as one word in
    /// the host's byte order.
    fn from_seed(seed: Seed32) -> (r: Self)
        ensures
            r@ == word32_le(seed.0@) || r@ == word32_be(seed.0@),
    {
        Mixer32::from_state(native_u32(seed.0))
    }
}

impl RngCore for Mixer32 {
    /// Advances the state by one transition and returns the new state.
    fn next_u32(&mut self) -> (r: u32)
        ensures
            r == mix32(old(self)@),
            final(self)@ == r,
    {
        let a: u32 = self.state.wrapping_mul(MIX32_C1);
        let b: u32 = (a << 15) | (a >> 17);
        self.state = b.wrapping_mul(MIX32_C2);
        self.state
    }

    /// Draws two 32-bit words; the first is the low half of the result, the
    /// second the high half.
    fn next_u64(&mut self) -> (r: u64)
        ensures
            r == pair64(mix32(old(self)@), mix32(mix32(old(self)@))),
            final(self)@ == mix32(mix32(old(self)@)),
    {
        let lo: u32 = self.next_u32();
        let hi: u32 = self.next_u32();
        ((hi as u64) << 32) | (lo as u64)
    }

    /// Fills `dest` from the stream, writing each word in the host's byte
    /// order.
    fn fill_bytes(&mut self, dest: &mut [u8])
        ensures
            final(dest)@.len() == old(dest)@.len(),
            final(dest)@ == filled32(old(self)@, old(dest)@.len(), true) || final(dest)@
                == filled32(old(self)@, old(dest)@.len(), false),
            final(self)@ == stream32(old(self)@, draws32(old(dest)@.len())),
    {
        let little: bool = host_is_little_endian();
        self.fill_bytes_ordered(dest, little);
    }

    /// Fills `dest` as `fill_bytes` does; it never fails.
    fn try_fill_bytes(&mut self, dest: &mut [u8]) -> (r: Result<(), rand_core::Error>)
        ensures
            r is Ok,
            final(dest)@.len() == old(dest)@.len(),
            final(dest)@ == filled32(old(self)@, old(dest)@.len(), true) || final(dest)@
                == filled32(old(self)@, old(dest)@.len(), false),
            final(self)@ == stream32(old(self)@, draws32(old(dest)@.len())),
    {
        self.fill_bytes(dest);
        Ok(())
    }
}

} // verus!

//! The generator with 64 bits of state.
use crate::byte_order::{
    chunk_len, host_is_little_endian, lemma_low_half_bytes, native_u64, ordered_byte,
    put_low_bytes, word64_be, word64_in, word64_le,
};
use rand_core::{RngCore, SeedableRng};
use vstd::prelude::*;

verus! {

/// First multiplier of the 64-bit mixing round.
pub const MIX64_C1: u64 = 0xff51_afd7_ed55_8ccd;

/// Second multiplier of the 64-bit mixing round.
pub const MIX64_C2: u64 = 0xc4ce_b9fe_1a85_ec53;

/// The product of `a` and `b` modulo 2^64.
pub open spec fn mul64(a: u64, b: u64) -> u64 {
    ((a as nat * b as nat) % 0x1_0000_0000_0000_0000) as u64
}

/// `k` with its high bits folded onto its low bits: `k ^ (k >> 33)`.
pub open spec fn fold33(k: u64) -> u64 {
    k ^ (k >> 33)
}

/// One transition of the generator: fold, multiply, fold, multiply, fold.
pub open spec fn mix64(s: u64) -> u64 {
    fold33(mul64(fold33(mul64(fold33(s), MIX64_C1)), MIX64_C2))
}

/// The state after `n` transitions from `s`, which is also the `n`-th word
/// drawn (counting from 1).
pub open spec fn stream64(s: u64, n: nat) -> u64
    decreases n,
{
    if n == 0 {
        s
    } else {
        mix64(stream64(s, (n - 1) as nat))
    }
}

/// The low 32 bits of `w`.
pub open spec fn low32(w: u64) -> u32 {
    (w & 0xffff_ffff) as u32
}

/// Byte `i` of a buffer of `len` bytes filled from state `s`.
pub open spec fn fill_byte64(s: u64, len: nat, i: nat, little: bool) -> u8 {
    ordered_byte(stream64(s, i / 8 + 1), chunk_len(len, i / 8), i % 8, little)
}

/// A buffer of `len` bytes filled from state `s`: one word for each eight
/// bytes, in the given byte order, then the low-order bytes of one more word
/// for what is left.
pub open spec fn filled64(s: u64, len: nat, little: bool) -> Seq<u8> {
    Seq::new(len, |i: int| fill_byte64(s, len, i as nat, little))
}

/// The number of transitions that filling `len` bytes takes: one for each
/// eight bytes, and one more for a rest.
pub open spec fn draws64(len: nat) -> nat {
    len / 8 + if len % 8 > 0 {
        1nat
    } else {
        0nat
    }
}

/// The seed of a `Mixer64`: eight bytes, read in the host's byte order.
#[derive(Clone, Copy, Debug)]
pub struct Seed64(pub [u8; 8]);

impl Default for Seed64 {
    /// The seed of eight zero bytes.
    fn default() -> (r: Self)
        ensures
            r.0@ == seq![0u8, 0u8, 0u8, 0u8, 0u8, 0u8, 0u8, 0u8],
    {
        let r = Seed64([0, 0, 0, 0, 0, 0, 0, 0]);
        assert(r.0@ =~= seq![0u8, 0u8, 0u8, 0u8, 0u8, 0u8, 0u8, 0u8]);
        r
    }
}

impl AsRef<[u8]> for Seed64 {
    /// The seed's eight bytes.
    fn as_ref(&self) -> (r: &[u8])
        ensures
            r@ == self.0@,
    {
        self.0.as_slice()
    }
}

impl AsMut<[u8]> for Seed64 {
    /// The seed's eight bytes, to be written in place.
    fn as_mut(&mut self) -> (r: &mut [u8])
        ensures
            r@ == old(self).0@,
            final(r)@ == final(self).0@,
    {
        self.0.as_mut_slice()
    }
}

/// A generator whose whole state is one 64-bit word.
#[derive(Clone, Copy, Debug)]
pub struct Mixer64 {
    state: u64,
}

impl View for Mixer64 {
    type V = u64;

    /// The generator's state.
    closed spec fn view(&self) -> u64 {
        self.state
    }
}

impl Default for Mixer64 {
    /// The generator in state zero, which draws zero for ever.
    fn default() -> (r: Self)
        ensures
            r@ == 0,
    {
        Mixer64 { state: 0 }
    }
}

impl Mixer64 {
    /// The generator whose state is `state`.
    pub fn from_state(state: u64) -> (r: Self)
        ensures
            r@ == state,
    {
        Mixer64 { state }
    }

    /// Fills `dest` from the stream, writing each word in the given byte
    /// order: `little` for least significant byte first.
    pub fn fill_bytes_ordered(&mut self, dest: &mut [u8], little: bool)
        ensures
            final(dest)@.len() == old(dest)@.len(),
            final(dest)@ == filled64(old(self)@, old(dest)@.len(), little),
            final(self)@ == stream64(old(self)@, draws64(old(dest)@.len())),
    {
        let ghost s0 = self@;
        let n: usize = dest.len();
        let mut at: usize = 0;
        while n - at >= 8
            invariant
                at <= n,
                at % 8 == 0,
                dest@.len() == n,
                self@ == stream64(s0, at as nat / 8),
                forall|i: int|
                    0 <= i < at ==> dest@[i] == fill_byte64(s0, n as nat, i as nat, little),
            decreases n - at,
        {
            let ghost q = at as nat / 8;
            let w: u64 = self.next_u64();
            put_low_bytes(dest, at, w, 8, little);
            proof {
                assert(w == stream64(s0, q + 1));
                assert forall|i: int| at <= i < at + 8 implies dest@[i] == fill_byte64(
                    s0,
                    n as nat,
                    i as nat,
                    little,
                ) by {
                    assert(dest@[i] == dest@.subrange(at as int, at + 8)[i - at]);
                    assert(i as nat / 8 == q && i as nat % 8 == i - at);
                }
            }
            at += 8;
        }
        let rest: usize = n - at;
        let ghost q = at as nat / 8;
        if rest >= 4 {
            let w: u64 = self.next_u64();
            put_low_bytes(dest, at, w, rest, little);
            proof {
                assert(w == stream64(s0, q + 1));
                assert forall|i: int| at <= i < n implies dest@[i] == fill_byte64(
                    s0,
                    n as nat,
                    i as nat,
                    little,
                ) by {
                    assert(dest@[i] == dest@.subrange(at as int, at + rest)[i - at]);
                    assert(i as nat / 8 == q && i as nat % 8 == i - at);
                }
            }
        } else if rest > 0 {
            let x: u32 = self.next_u32();
            put_low_bytes(dest, at, x as u64, rest, little);
            proof {
                let w = stream64(s0, q + 1);
                assert(x == low32(w));
                assert(x as u64 == w & 0xffff_ffff) by {
                    assert((w & 0xffff_ffff) <= 0xffff_ffff) by (bit_vector);
                }
                assert forall|i: int| at <= i < n implies dest@[i] == fill_byte64(
                    s0,
                    n as nat,
                    i as nat,
                    little,
                ) by {
                    assert(dest@[i] == dest@.subrange(at as int, at + rest)[i - at]);
                    assert(i as nat / 8 == q && i as nat % 8 == i - at);
                    let k: nat = if little {
                        (i - at) as nat
                    } else {
                        (rest - 1 - (i - at)) as nat
                    };
                    lemma_low_half_bytes(w, k);
                }
            }
        }
        assert(dest@ =~= filled64(s0, n as nat, little));
    }
}

/// Drawing `m` words and then `n` more reaches the state that drawing
/// `m + n` words reaches: the state is a function of the starting state and
/// the number of words drawn.
pub proof fn lemma_stream64_split(s: u64, m: nat, n: nat)
    ensures
        stream64(stream64(s, m), n) == stream64(s, m + n),
    decreases n,
{
    if n > 0 {
        lemma_stream64_split(s, m, (n - 1) as nat);
        assert(stream64(s, m + n) == mix64(stream64(s, (m + n - 1) as nat)));
    }
}

/// Two generators in the same state draw the same words and fill a buffer
/// with the same bytes, however far the stream is followed.
pub proof fn lemma_same_state_same_stream(a: Mixer64, b: Mixer64, n: nat, len: nat, little: bool)
    requires
        a@ == b@,
    ensures
        stream64(a@, n) == stream64(b@, n),
        filled64(a@, len, little) == filled64(b@, len, little),
{
}

/// The first whole words of a filled buffer do not depend on how long the
/// buffer is: a buffer of `len` bytes starts with the bytes of a buffer of
/// `8 * words` bytes filled from the same state.
pub proof fn lemma_filled64_prefix(s: u64, len: nat, words: nat, little: bool)
    requires
        8 * words <= len,
    ensures
        filled64(s, len, little).subrange(0, 8 * words as int) == filled64(s, 8 * words, little),
{
    let long = filled64(s, len, little);
    let short = filled64(s, 8 * words, little);
    assert forall|i: int| 0 <= i < 8 * words implies #[trigger] long[i] == short[i] by {
        assert(i as nat / 8 < words);
        assert(words <= len / 8);
        assert((8 * words) / 8 == words);
    }
    assert(long.subrange(0, 8 * words as int) =~= short);
}

/// Instances do not share state. Where `b` was copied from `a` and `a` then
/// drew `k` words, `b` still draws the words that `a` drew from the point of
/// the copy, and `a` goes on from its own state as if no copy had been taken.
pub proof fn lemma_copy_is_independent(a: Mixer64, b: Mixer64, k: nat, n: nat)
    requires
        b@ == a@,
    ensures
        stream64(b@, n) == stream64(a@, n),
        stream64(stream64(a@, k), n) == stream64(a@, k + n),
{
    lemma_stream64_split(a@, k, n);
}

/// Two generators seeded with the same bytes, read in the same byte order,
/// draw the same words and fill a buffer with the same bytes, however far
/// the stream is followed.
pub proof fn lemma_same_seed_same_stream(
    seed: Seed64,
    order: bool,
    a: Mixer64,
    b: Mixer64,
    n: nat,
    len: nat,
    little: bool,
)
    requires
        a@ == word64_in(seed.0@, order),
        b@ == word64_in(seed.0@, order),
    ensures
        stream64(a@, n) == stream64(b@, n),
        filled64(a@, len, little) == filled64(b@, len, little),
{
}

/// The transition is one-to-one: distinct states lead to distinct states.
pub proof fn lemma_mix64_injective(a: u64, b: u64)
    requires
        mix64(a) == mix64(b),
    ensures
        a == b,
{
    let a1 = fold33(a);
    let b1 = fold33(b);
    let a2 = mul64(a1, MIX64_C1);
    let b2 = mul64(b1, MIX64_C1);
    let a3 = fold33(a2);
    let b3 = fold33(b2);
    let a4 = mul64(a3, MIX64_C2);
    let b4 = mul64(b3, MIX64_C2);
    assert(fold33(a4) == fold33(b4) ==> a4 == b4) by (bit_vector);
    assert(mul64(a3, MIX64_C2) == mul64(b3, MIX64_C2) ==> a3 == b3) by (bit_vector);
    assert(fold33(a2) == fold33(b2) ==> a2 == b2) by (bit_vector);
    assert(mul64(a1, MIX64_C1) == mul64(b1, MIX64_C1) ==> a1 == b1) by (bit_vector);
    assert(fold33(a) == fold33(b) ==> a == b) by (bit_vector);
}

/// Distinct states stay distinct however many words are drawn.
pub proof fn lemma_stream64_injective(a: u64, b: u64, n: nat)
    requires
        stream64(a, n) == stream64(b, n),
    ensures
        a == b,
    decreases n,
{
    if n > 0 {
        lemma_mix64_injective(stream64(a, (n - 1) as nat), stream64(b, (n - 1) as nat));
        lemma_stream64_injective(a, b, (n - 1) as nat);
    }
}

/// The stream has no lead-in: where a state comes again after `j - i` more
/// words, the starting state itself comes again after `j - i` words.
pub proof fn lemma_stream64_periodic(s: u64, i: nat, j: nat)
    requires
        i <= j,
        stream64(s, i) == stream64(s, j),
    ensures
        stream64(s, (j - i) as nat) == s,
{
    lemma_stream64_split(s, (j - i) as nat, i);
    lemma_stream64_injective(stream64(s, (j - i) as nat), s, i);
}

/// From a starting state that the transition does not map to itself, no word
/// of the stream equals the word before it: the words are never all the
/// same, and the stream's period is at least two. Zero is left out, being
/// mapped to itself.
pub proof fn lemma_non_degenerate64(s: u64, i: nat)
    requires
        mix64(s) != s,
    ensures
        stream64(s, i) != stream64(s, i + 1),
        s != 0,
{
    if stream64(s, i) == stream64(s, i + 1) {
        lemma_stream64_periodic(s, i, i + 1);
        assert(stream64(s, 1) == mix64(stream64(s, 0)));
    }
    if s == 0 {
        lemma_zero_stream64(1);
        assert(stream64(0, 1) == mix64(stream64(0, 0)));
    }
}

/// A generator that starts from a state other than zero never reaches zero.
pub proof fn lemma_nonzero_stream64(s: u64, n: nat)
    requires
        s != 0,
    ensures
        stream64(s, n) != 0,
{
    lemma_zero_stream64(n);
    if stream64(s, n) == 0 {
        lemma_stream64_injective(s, 0, n);
    }
}

/// Zero is a fixed point of the transition: a generator in state zero draws
/// zero for ever.
pub proof fn lemma_zero_stream64(n: nat)
    ensures
        stream64(0, n) == 0,
    decreases n,
{
    if n > 0 {
        lemma_zero_stream64((n - 1) as nat);
        assert(fold33(0) == 0) by (bit_vector);
        assert(mul64(0, MIX64_C1) == 0);
        assert(mul64(0, MIX64_C2) == 0);
    }
}

impl SeedableRng for Mixer64 {
    type Seed = Seed64;

    /// The generator whose state is the seed's eight bytes read as one word
    /// in the host's byte order.
    fn from_seed(seed: Seed64) -> (r: Self)
        ensures
            r@ == word64_le(seed.0@) || r@ == word64_be(seed.0@),
    {
        Mixer64::from_state(native_u64(seed.0))
    }
}

impl RngCore for Mixer64 {
    /// Advances the state by one transition and returns the low 32 bits of
    /// the new state; the high bits are not kept for a later draw.
    fn next_u32(&mut self) -> (r: u32)
        ensures
            r == low32(mix64(old(self)@)),
            final(self)@ == mix64(old(self)@),
    {
        let w: u64 = self.next_u64();
        let low: u64 = w & 0xffff_ffff;
        assert(low <= 0xffff_ffff) by (bit_vector)
            requires
                low == w & 0xffff_ffff,
        ;
        low as u32
    }

    /// Advances the state by one transition and returns the new state.
    fn next_u64(&mut self) -> (r: u64)
        ensures
            r == mix64(old(self)@),
            final(self)@ == r,
    {
        let mut k: u64 = self.state;
        k = k ^ (k >> 33);
        k = k.wrapping_mul(MIX64_C1);
        k = k ^ (k >> 33);
        k = k.wrapping_mul(MIX64_C2);
        k = k ^ (k >> 33);
        self.state = k;
        k
    }

    /// Fills `dest` from the stream, writing each word in the host's byte
    /// order.
    fn fill_bytes(&mut self, dest: &mut [u8])
        ensures
            final(dest)@.len() == old(dest)@.len(),
            final(dest)@ == filled64(old(self)@, old(dest)@.len(), true) || final(dest)@
                == filled64(old(self)@, old(dest)@.len(), false),
            final(self)@ == stream64(old(self)@, draws64(old(dest)@.len())),
    {
        let little: bool = host_is_little_endian();
        self.fill_bytes_ordered(dest, little);
    }

    /// Fills `dest` as `fill_bytes` does; it never fails.
    fn try_fill_bytes(&mut self, dest: &mut [u8]) -> (r: Result<(), rand_core::Error>)
        ensures
            r is Ok,
            final(dest)@.len() == old(dest)@.len(),
            final(dest)@ == filled64(old(self)@, old(dest)@.len(), true) || final(dest)@
                == filled64(old(self)@, old(dest)@.len(), false),
            final(self)@ == stream64(old(self)@, draws64(old(dest)@.len())),
    {
        self.fill_bytes(dest);
        Ok(())
    }
}

} // verus!

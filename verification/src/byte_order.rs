//! Bytes of machine words, in either byte order, and the host's own order.
use vstd::prelude::*;

verus! {

/// Byte `k` of `w`, byte 0 being the least significant.
pub open spec fn byte_of(w: u64, k: nat) -> u8 {
    ((w >> ((8 * k) as u64)) & 0xff) as u8
}

/// The byte that stands at position `j` when the `count` low-order bytes of
/// `w` are laid out in the given order: least significant first if `little`,
/// most significant first otherwise.
pub open spec fn ordered_byte(w: u64, count: nat, j: nat, little: bool) -> u8 {
    byte_of(
        w,
        if little {
            j
        } else {
            (count - 1 - j) as nat
        },
    )
}

/// The `count` low-order bytes of `w`, laid out in the given order.
pub open spec fn low_bytes(w: u64, count: nat, little: bool) -> Seq<u8> {
    Seq::new(count, |j: int| ordered_byte(w, count, j as nat, little))
}

/// When `len` bytes are filled from 64-bit words, eight bytes to a word, the
/// number of bytes that word `q` contributes: eight, but for a last partial
/// word, which contributes what is left.
pub open spec fn chunk_len(len: nat, q: nat) -> nat {
    if q < len / 8 {
        8
    } else {
        len % 8
    }
}

/// The low four bytes of a 64-bit word are those of its low 32 bits.
pub proof fn lemma_low_half_bytes(w: u64, k: nat)
    requires
        k < 4,
    ensures
        byte_of(w & 0xffff_ffff, k) == byte_of(w, k),
{
    let shift = (8 * k) as u64;
    assert(((w & 0xffff_ffff) >> shift) & 0xff == (w >> shift) & 0xff) by (bit_vector)
        requires
            shift == 0 || shift == 8 || shift == 16 || shift == 24,
    ;
}

/// The 32-bit word whose bytes, least significant first, are `b`.
pub open spec fn word32_le(b: Seq<u8>) -> u32
    recommends
        b.len() == 4,
{
    (b[0] + b[1] * 0x100 + b[2] * 0x1_0000 + b[3] * 0x100_0000) as u32
}

/// The 32-bit word whose bytes, most significant first, are `b`.
pub open spec fn word32_be(b: Seq<u8>) -> u32
    recommends
        b.len() == 4,
{
    word32_le(b.reverse())
}

/// The 64-bit word whose bytes, least significant first, are `b`.
pub open spec fn word64_le(b: Seq<u8>) -> u64
    recommends
        b.len() == 8,
{
    (word32_le(b.subrange(0, 4)) + word32_le(b.subrange(4, 8)) * 0x1_0000_0000) as u64
}

/// The 64-bit word whose bytes, most significant first, are `b`.
pub open spec fn word64_be(b: Seq<u8>) -> u64
    recommends
        b.len() == 8,
{
    word64_le(b.reverse())
}

/// The word that `b` holds in the given byte order.
pub open spec fn word32_in(b: Seq<u8>, little: bool) -> u32 {
    if little {
        word32_le(b)
    } else {
        word32_be(b)
    }
}

/// The word that `b` holds in the given byte order.
pub open spec fn word64_in(b: Seq<u8>, little: bool) -> u64 {
    if little {
        word64_le(b)
    } else {
        word64_be(b)
    }
}

/// A 32-bit word is the sum of its four bytes, each at its place value.
proof fn lemma_word32_from_parts(x: u32)
    ensures
        byte_of(x as u64, 0) + byte_of(x as u64, 1) * 0x100 + byte_of(x as u64, 2) * 0x1_0000
            + byte_of(x as u64, 3) * 0x100_0000 == x,
{
    let w = x as u64;
    let c0: u64 = (w >> 0) & 0xff;
    let c1: u64 = (w >> 8) & 0xff;
    let c2: u64 = (w >> 16) & 0xff;
    let c3: u64 = (w >> 24) & 0xff;
    assert(c0 < 0x100 && c1 < 0x100 && c2 < 0x100 && c3 < 0x100 && c0 + c1 * 0x100 + c2 * 0x1_0000
        + c3 * 0x100_0000 == w) by (bit_vector)
        requires
            w <= 0xffff_ffff,
            c0 == (w >> 0) & 0xff,
            c1 == (w >> 8) & 0xff,
            c2 == (w >> 16) & 0xff,
            c3 == (w >> 24) & 0xff,
    ;
    assert(byte_of(w, 0) == c0 && byte_of(w, 1) == c1 && byte_of(w, 2) == c2 && byte_of(w, 3)
        == c3);
}

/// Reading back the four bytes of a word in the order in which they were
/// laid out gives the word: a generator seeded with the bytes of `x` in the
/// host's order starts in state `x`.
pub proof fn lemma_word32_round_trip(x: u32, little: bool)
    ensures
        word32_in(low_bytes(x as u64, 4, little), little) == x,
{
    lemma_word32_from_parts(x);
    let b = low_bytes(x as u64, 4, little);
    if little {
        assert(b[0] == byte_of(x as u64, 0) && b[1] == byte_of(x as u64, 1) && b[2] == byte_of(
            x as u64,
            2,
        ) && b[3] == byte_of(x as u64, 3));
    } else {
        let r = b.reverse();
        assert(r[0] == b[3] && r[1] == b[2] && r[2] == b[1] && r[3] == b[0]);
        assert(r[0] == byte_of(x as u64, 0) && r[1] == byte_of(x as u64, 1) && r[2] == byte_of(
            x as u64,
            2,
        ) && r[3] == byte_of(x as u64, 3));
    }
}

/// The high four bytes of a 64-bit word are the bytes of its high 32 bits.
pub proof fn lemma_high_half_bytes(w: u64, k: nat)
    requires
        k < 4,
    ensures
        byte_of(w >> 32, k) == byte_of(w, k + 4),
{
    let low = (8 * k) as u64;
    let high = (8 * (k + 4)) as u64;
    assert(((w >> 32) >> low) & 0xff == (w >> high) & 0xff) by (bit_vector)
        requires
            low == 0 || low == 8 || low == 16 || low == 24,
            high == low + 32,
    ;
}

/// Reading back the eight bytes of a word in the order in which they were
/// laid out gives the word: a generator seeded with the bytes of `w` in the
/// host's order starts in state `w`.
pub proof fn lemma_word64_round_trip(w: u64, little: bool)
    ensures
        word64_in(low_bytes(w, 8, little), little) == w,
{
    let lo: u64 = w & 0xffff_ffff;
    let hi: u64 = w >> 32;
    assert(lo <= 0xffff_ffff && hi <= 0xffff_ffff && lo + hi * 0x1_0000_0000 == w)
        by (bit_vector)
        requires
            lo == w & 0xffff_ffff,
            hi == w >> 32,
    ;
    lemma_word32_from_parts(lo as u32);
    lemma_word32_from_parts(hi as u32);
    lemma_low_half_bytes(w, 0);
    lemma_low_half_bytes(w, 1);
    lemma_low_half_bytes(w, 2);
    lemma_low_half_bytes(w, 3);
    lemma_high_half_bytes(w, 0);
    lemma_high_half_bytes(w, 1);
    lemma_high_half_bytes(w, 2);
    lemma_high_half_bytes(w, 3);
    let b = low_bytes(w, 8, little);
    let c = if little {
        b
    } else {
        b.reverse()
    };
    assert forall|k: int| 0 <= k < 8 implies c[k] == byte_of(w, k as nat) by {
        if !little {
            assert(c[k] == b[7 - k]);
        }
    }
    let l = c.subrange(0, 4);
    let h = c.subrange(4, 8);
    assert(l[0] == c[0] && l[1] == c[1] && l[2] == c[2] && l[3] == c[3]);
    assert(h[0] == c[4] && h[1] == c[5] && h[2] == c[6] && h[3] == c[7]);
    assert(word32_le(l) == lo);
    assert(word32_le(h) == hi);
}

/// `<[T; N]>::as_mut_slice`: the array, borrowed as a slice of all its
/// elements. The slice starts out with the array's contents, and what is
/// written to it is written to the array. Not proved.
pub assume_specification<T, const N: usize>[ <[T; N]>::as_mut_slice ](ar: &mut [T; N]) -> (out:
    &mut [T])
    ensures
        out@ == old(ar)@,
        final(out)@ == final(ar)@,
;

/// `u32::from_ne_bytes`: reads four bytes in the host's byte order. Which order
/// that is depends on the machine, so the contract only claims that the result
/// is one of the two readings; it was not proved.
#[verifier::external_body]
pub(crate) fn native_u32(b: [u8; 4]) -> (r: u32)
    ensures
        r == word32_le(b@) || r == word32_be(b@),
{
    u32::from_ne_bytes(b)
}

/// `u64::from_ne_bytes`: reads eight bytes in the host's byte order. The
/// contract claims that the result is one of the two readings; it was not
/// proved.
#[verifier::external_body]
pub(crate) fn native_u64(b: [u8; 8]) -> (r: u64)
    ensures
        r == word64_le(b@) || r == word64_be(b@),
{
    u64::from_ne_bytes(b)
}

/// Whether the host stores the least significant byte first, found by reading
/// a known byte pattern in the host's order.
pub(crate) fn host_is_little_endian() -> (little: bool) {
    let probe: u32 = native_u32([1, 0, 0, 0]);
    is_little_endian_reading(probe)
}

/// The byte pattern whose reading tells the two byte orders apart: read
/// least significant byte first it is 1, read the other way it is 2^24.
pub open spec fn probe_bytes() -> Seq<u8> {
    seq![1u8, 0u8, 0u8, 0u8]
}

/// The probe pattern's two readings: 1 least significant byte first, 2^24
/// the other way.
pub proof fn lemma_probe_readings()
    ensures
        word32_le(probe_bytes()) == 1,
        word32_be(probe_bytes()) == 0x100_0000,
{
    let b = probe_bytes();
    let r = b.reverse();
    assert(b[0] == 1 && b[1] == 0 && b[2] == 0 && b[3] == 0);
    assert(r[0] == b[3] && r[1] == b[2] && r[2] == b[1] && r[3] == b[0]);
}

/// Whether `reading`, a word read from the probe pattern, is the pattern's
/// little-endian reading. Of the pattern's two readings it accepts the
/// little-endian one and refuses the big-endian one.
pub fn is_little_endian_reading(reading: u32) -> (little: bool)
    ensures
        little == (reading == word32_le(probe_bytes())),
        reading == word32_be(probe_bytes()) ==> !little,
{
    proof {
        lemma_probe_readings();
    }
    reading == 1
}

/// Writes the `count` low-order bytes of `word` to `dest[at..at + count]` in
/// the given byte order and leaves the rest of `dest` as it was.
pub fn put_low_bytes(dest: &mut [u8], at: usize, word: u64, count: usize, little: bool)
    requires
        count <= 8,
        at + count <= old(dest)@.len(),
    ensures
        final(dest)@.len() == old(dest)@.len(),
        final(dest)@.subrange(at as int, at + count) == low_bytes(word, count as nat, little),
        forall|i: int|
            0 <= i < old(dest)@.len() && !(at <= i < at + count) ==> final(dest)@[i] == old(
                dest,
            )@[i],
{
    let ghost before = dest@;
    let n: usize = dest.len();
    let mut j: usize = 0;
    while j < count
        invariant
            j <= count <= 8,
            at + count <= n,
            dest@.len() == n == before.len(),
            forall|i: int| 0 <= i < before.len() && !(at <= i < at + j) ==> dest@[i] == before[i],
            forall|i: int|
                at <= i < at + j ==> dest@[i] == ordered_byte(
                    word,
                    count as nat,
                    (i - at) as nat,
                    little,
                ),
        decreases count - j,
    {
        let k: usize = if little {
            j
        } else {
            count - 1 - j
        };
        let shift: u64 = 8 * (k as u64);
        let b: u64 = (word >> shift) & 0xff;
        assert(b < 0x100) by (bit_vector)
            requires
                b == (word >> shift) & 0xff,
        ;
        dest[at + j] = b as u8;
        j += 1;
    }
    assert(dest@.subrange(at as int, at + count) =~= low_bytes(word, count as nat, little));
}

} // verus!

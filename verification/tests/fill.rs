use rand_core::{RngCore, SeedableRng};
use rand_murmur3::byte_order::{is_little_endian_reading, put_low_bytes};
use rand_murmur3::{Mixer32, Mixer64, Seed32, Seed64};

const GUARD: usize = 16;
const MARK: u8 = 0xa5;

/// A plain generator with the 32-bit transition, written with std's own
/// rotate, to hold the library against `rand_core`'s helpers.
struct Plain32(u32);

impl RngCore for Plain32 {
    fn next_u32(&mut self) -> u32 {
        self.0 = self
            .0
            .wrapping_mul(0xcc9e_2d51)
            .rotate_left(15)
            .wrapping_mul(0x1b87_3593);
        self.0
    }

    fn next_u64(&mut self) -> u64 {
        rand_core::impls::next_u64_via_u32(self)
    }

    fn fill_bytes(&mut self, dest: &mut [u8]) {
        rand_core::impls::fill_bytes_via_next(self, dest)
    }

    fn try_fill_bytes(&mut self, dest: &mut [u8]) -> Result<(), rand_core::Error> {
        self.fill_bytes(dest);
        Ok(())
    }
}

/// The same for the 64-bit transition.
struct Plain64(u64);

impl RngCore for Plain64 {
    fn next_u32(&mut self) -> u32 {
        self.next_u64() as u32
    }

    fn next_u64(&mut self) -> u64 {
        let mut k = self.0;
        k ^= k >> 33;
        k = k.wrapping_mul(0xff51_afd7_ed55_8ccd);
        k ^= k >> 33;
        k = k.wrapping_mul(0xc4ce_b9fe_1a85_ec53);
        k ^= k >> 33;
        self.0 = k;
        k
    }

    fn fill_bytes(&mut self, dest: &mut [u8]) {
        rand_core::impls::fill_bytes_via_next(self, dest)
    }

    fn try_fill_bytes(&mut self, dest: &mut [u8]) -> Result<(), rand_core::Error> {
        self.fill_bytes(dest);
        Ok(())
    }
}

fn host_is_little() -> bool {
    u16::from_ne_bytes([1, 0]) == 1
}

fn check_fill32(n: usize) {
    let mut buf = vec![MARK; n + 2 * GUARD];
    let mut rng = Mixer32::from_seed(Seed32(10u32.to_ne_bytes()));
    rng.fill_bytes(&mut buf[GUARD..GUARD + n]);
    assert_eq!(buf.len(), n + 2 * GUARD);
    assert!(buf[..GUARD].iter().all(|b| *b == MARK));
    assert!(buf[GUARD + n..].iter().all(|b| *b == MARK));
    let mut again = vec![0u8; n];
    Mixer32::from_state(10).fill_bytes_ordered(&mut again, host_is_little());
    assert_eq!(&buf[GUARD..GUARD + n], &again[..]);
    let mut little = vec![0u8; n];
    let mut plain = vec![0u8; n];
    let mut mine = Mixer32::from_state(10);
    let mut theirs = Plain32(10);
    mine.fill_bytes_ordered(&mut little, true);
    theirs.fill_bytes(&mut plain);
    assert_eq!(little, plain);
    if n % 8 == 4 {
        // A rest of four bytes is drawn here as a 64-bit word, there as a
        // 32-bit word: the bytes agree, and this generator is one word ahead.
        theirs.next_u32();
    }
    assert_eq!(mine.next_u32(), theirs.next_u32());
    if n >= 4 {
        assert_eq!(&little[..4], &0x65c1_87a2u32.to_le_bytes()[..]);
    }
}

fn check_fill64(n: usize) {
    let mut buf = vec![MARK; n + 2 * GUARD];
    let mut rng = Mixer64::from_seed(Seed64(10u64.to_ne_bytes()));
    rng.fill_bytes(&mut buf[GUARD..GUARD + n]);
    assert_eq!(buf.len(), n + 2 * GUARD);
    assert!(buf[..GUARD].iter().all(|b| *b == MARK));
    assert!(buf[GUARD + n..].iter().all(|b| *b == MARK));
    let mut again = vec![0u8; n];
    Mixer64::from_state(10).fill_bytes_ordered(&mut again, host_is_little());
    assert_eq!(&buf[GUARD..GUARD + n], &again[..]);
    let mut little = vec![0u8; n];
    let mut plain = vec![0u8; n];
    let mut mine = Mixer64::from_state(10);
    let mut theirs = Plain64(10);
    mine.fill_bytes_ordered(&mut little, true);
    theirs.fill_bytes(&mut plain);
    assert_eq!(little, plain);
    assert_eq!(mine.next_u64(), theirs.next_u64());
    if n >= 8 {
        assert_eq!(&little[..8], &0x6461_7244_2548_d30du64.to_le_bytes()[..]);
    }
}

#[test]
fn fill32_length_0() {
    check_fill32(0);
    let mut rng = Mixer32::from_state(10);
    let mut empty: [u8; 0] = [];
    rng.fill_bytes(&mut empty);
    assert_eq!(rng.next_u32(), 0x65c1_87a2);
}

#[test]
fn fill32_length_1() {
    check_fill32(1);
}

#[test]
fn fill32_length_3() {
    check_fill32(3);
}

#[test]
fn fill32_length_4() {
    check_fill32(4);
}

#[test]
fn fill32_length_7() {
    check_fill32(7);
}

#[test]
fn fill32_length_8() {
    check_fill32(8);
}

#[test]
fn fill32_length_4000000() {
    check_fill32(4_000_000);
}

#[test]
fn fill64_length_0() {
    check_fill64(0);
    let mut rng = Mixer64::from_state(10);
    let mut empty: [u8; 0] = [];
    rng.fill_bytes(&mut empty);
    assert_eq!(rng.next_u64(), 0x6461_7244_2548_d30d);
}

#[test]
fn fill64_length_1() {
    check_fill64(1);
}

#[test]
fn fill64_length_3() {
    check_fill64(3);
}

#[test]
fn fill64_length_4() {
    check_fill64(4);
}

#[test]
fn fill64_length_7() {
    check_fill64(7);
}

#[test]
fn fill64_length_8() {
    check_fill64(8);
}

#[test]
fn fill64_length_4000000() {
    check_fill64(4_000_000);
}

#[test]
fn fill32_exact_bytes_little() {
    let mut rng = Mixer32::from_state(10);
    let mut buf = [0u8; 13];
    rng.fill_bytes_ordered(&mut buf, true);
    assert_eq!(buf, [162, 135, 193, 101, 133, 102, 171, 176, 49, 245, 224, 154, 230]);
    assert_eq!(rng.next_u32(), 0x05a4_ac89);
    let mut rng = Mixer32::from_state(10);
    let mut buf = [0u8; 11];
    rng.fill_bytes_ordered(&mut buf, true);
    assert_eq!(buf, [162, 135, 193, 101, 133, 102, 171, 176, 49, 245, 224]);
    assert_eq!(rng.next_u32(), 0x7c97_11e6);
    let mut rng = Mixer32::from_state(10);
    let mut buf = [0u8; 20];
    rng.fill_bytes_ordered(&mut buf, true);
    assert_eq!(
        buf,
        [162, 135, 193, 101, 133, 102, 171, 176, 49, 245, 224, 154, 230, 17, 151, 124, 137, 172, 164, 5]
    );
    assert_eq!(rng.next_u32(), 0x6f5f_a8f4);
}

#[test]
fn fill32_rest_of_four_draws_a_wide_word() {
    let mut rng = Mixer32::from_state(10);
    let mut buf = [0u8; 4];
    rng.fill_bytes_ordered(&mut buf, true);
    assert_eq!(buf, [162, 135, 193, 101]);
    assert_eq!(rng.next_u32(), 0x9ae0_f531);
    let mut rng = Mixer32::from_state(10);
    let mut buf = [0u8; 3];
    rng.fill_bytes_ordered(&mut buf, true);
    assert_eq!(buf, [162, 135, 193]);
    assert_eq!(rng.next_u32(), 0xb0ab_6685);
    let mut rng = Mixer32::from_state(10);
    let mut buf = [0u8; 3];
    rng.fill_bytes_ordered(&mut buf, false);
    assert_eq!(buf, [193, 135, 162]);
    let mut rng = Mixer64::from_state(10);
    let mut buf = [0u8; 4];
    rng.fill_bytes_ordered(&mut buf, true);
    assert_eq!(buf, [13, 211, 72, 37]);
    assert_eq!(rng.next_u64(), 0x3ca0_27e0_82c8_54b4);
}

#[test]
fn fill32_exact_bytes_big() {
    let mut rng = Mixer32::from_state(10);
    let mut buf = [0u8; 13];
    rng.fill_bytes_ordered(&mut buf, false);
    assert_eq!(buf, [176, 171, 102, 133, 101, 193, 135, 162, 230, 154, 224, 245, 49]);
    assert_eq!(rng.next_u32(), 0x05a4_ac89);
    let mut rng = Mixer32::from_state(10);
    let mut buf = [0u8; 11];
    rng.fill_bytes_ordered(&mut buf, false);
    assert_eq!(buf, [176, 171, 102, 133, 101, 193, 135, 162, 224, 245, 49]);
    assert_eq!(rng.next_u32(), 0x7c97_11e6);
}

#[test]
fn fill64_exact_bytes_little() {
    let mut rng = Mixer64::from_state(10);
    let mut buf = [0u8; 13];
    rng.fill_bytes_ordered(&mut buf, true);
    assert_eq!(buf, [13, 211, 72, 37, 68, 114, 97, 100, 180, 84, 200, 130, 224]);
    assert_eq!(rng.next_u64(), 0x9cf9_5373_b62e_bf5c);
    let mut rng = Mixer64::from_state(10);
    let mut buf = [0u8; 11];
    rng.fill_bytes_ordered(&mut buf, true);
    assert_eq!(buf, [13, 211, 72, 37, 68, 114, 97, 100, 180, 84, 200]);
    assert_eq!(rng.next_u64(), 0x9cf9_5373_b62e_bf5c);
    let mut rng = Mixer64::from_state(10);
    let mut buf = [0u8; 20];
    rng.fill_bytes_ordered(&mut buf, true);
    assert_eq!(
        buf,
        [13, 211, 72, 37, 68, 114, 97, 100, 180, 84, 200, 130, 224, 39, 160, 60, 92, 191, 46, 182]
    );
    assert_eq!(rng.next_u64(), 0x845b_3e45_2e6b_6f79);
}

#[test]
fn fill64_exact_bytes_big() {
    let mut rng = Mixer64::from_state(10);
    let mut buf = [0u8; 13];
    rng.fill_bytes_ordered(&mut buf, false);
    assert_eq!(buf, [100, 97, 114, 68, 37, 72, 211, 13, 224, 130, 200, 84, 180]);
    assert_eq!(rng.next_u64(), 0x9cf9_5373_b62e_bf5c);
    let mut rng = Mixer64::from_state(10);
    let mut buf = [0u8; 20];
    rng.fill_bytes_ordered(&mut buf, false);
    assert_eq!(
        buf,
        [100, 97, 114, 68, 37, 72, 211, 13, 60, 160, 39, 224, 130, 200, 84, 180, 182, 46, 191, 92]
    );
}

#[test]
fn fill_matches_rand_core_on_every_short_length() {
    for n in 0..70usize {
        let mut mine = vec![0u8; n];
        let mut theirs = vec![0u8; n];
        let mut a = Mixer32::from_state(0xdead_beef);
        let mut b = Plain32(0xdead_beef);
        a.fill_bytes_ordered(&mut mine, true);
        b.fill_bytes(&mut theirs);
        assert_eq!(mine, theirs);
        if n % 8 == 4 {
            b.next_u32();
        }
        assert_eq!(a.next_u64(), b.next_u64());
        let mut a = Mixer64::from_state(0xdead_beef_0bad_cafe);
        let mut b = Plain64(0xdead_beef_0bad_cafe);
        a.fill_bytes_ordered(&mut mine, true);
        b.fill_bytes(&mut theirs);
        assert_eq!(mine, theirs);
        assert_eq!(a.next_u32(), b.next_u32());
    }
}

#[test]
fn try_fill_bytes_always_succeeds() {
    let mut a = Mixer32::from_state(10);
    let mut b = Mixer32::from_state(10);
    let mut x = [0u8; 29];
    let mut y = [0u8; 29];
    assert!(a.try_fill_bytes(&mut x).is_ok());
    b.fill_bytes(&mut y);
    assert_eq!(x, y);
    assert_eq!(a.next_u32(), b.next_u32());
    let mut a = Mixer64::from_state(10);
    let mut b = Mixer64::from_state(10);
    assert!(a.try_fill_bytes(&mut x).is_ok());
    b.fill_bytes(&mut y);
    assert_eq!(x, y);
    assert_eq!(a.next_u64(), b.next_u64());
    let mut empty: [u8; 0] = [];
    assert!(a.try_fill_bytes(&mut empty).is_ok());
}

#[test]
fn put_low_bytes_in_both_orders() {
    let word = 0x0807_0605_0403_0201u64;
    let mut buf = [0xeeu8; 12];
    put_low_bytes(&mut buf, 2, word, 8, true);
    assert_eq!(buf, [0xee, 0xee, 1, 2, 3, 4, 5, 6, 7, 8, 0xee, 0xee]);
    put_low_bytes(&mut buf, 2, word, 8, false);
    assert_eq!(buf, [0xee, 0xee, 8, 7, 6, 5, 4, 3, 2, 1, 0xee, 0xee]);
    let mut buf = [0xeeu8; 6];
    put_low_bytes(&mut buf, 1, word, 3, true);
    assert_eq!(buf, [0xee, 1, 2, 3, 0xee, 0xee]);
    put_low_bytes(&mut buf, 3, word, 3, false);
    assert_eq!(buf, [0xee, 1, 2, 3, 2, 1]);
    put_low_bytes(&mut buf, 6, word, 0, true);
    assert_eq!(buf, [0xee, 1, 2, 3, 2, 1]);
    let mut big = [0u8; 8];
    put_low_bytes(&mut big, 0, word, 8, false);
    assert_eq!(big, word.to_be_bytes());
    assert_eq!(&word.to_le_bytes()[..], &{
        let mut b = [0u8; 8];
        put_low_bytes(&mut b, 0, word, 8, true);
        b
    }[..]);
}

#[test]
fn probe_readings_tell_byte_orders_apart() {
    assert!(is_little_endian_reading(u32::from_le_bytes([1, 0, 0, 0])));
    assert!(!is_little_endian_reading(u32::from_be_bytes([1, 0, 0, 0])));
    assert!(is_little_endian_reading(1));
    assert!(!is_little_endian_reading(0x0100_0000));
    assert!(!is_little_endian_reading(0));
    assert_eq!(
        is_little_endian_reading(u32::from_ne_bytes([1, 0, 0, 0])),
        host_is_little()
    );
}

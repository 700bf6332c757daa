use vigenere_ioc::vigenere::{decrypt, encrypt};

fn letter(i: u8) -> char {
    (b'A' + i) as char
}

#[test]
fn t_encrypt_basic() {
    // (2 + 2 + 3) mod 26
    assert_eq!(encrypt('C', 2, 3), 7);
    // (25 + 1 + 0) mod 26 wraps to 0
    assert_eq!(encrypt('Z', 1, 0), 0);
    assert_eq!(encrypt('A', 0, 0), 0);
    // shifts far beyond the alphabet only matter modulo 26
    assert_eq!(encrypt('A', 52, 104), 0);
}

#[test]
fn t_decrypt_basic() {
    assert_eq!(decrypt('H', 2, 3), 2);
    assert_eq!(decrypt('A', 1, 0), 25);
}

#[test]
fn t_round_trip_all_letters() {
    for c in 0u8..26 {
        for &k in &[0usize, 1, 5, 25, 31, 200] {
            for &p in &[0usize, 1, 7, 25, 100] {
                let e = encrypt(letter(c), k, p);
                let back = decrypt(letter(e), k, p);
                assert_eq!(back, c, "round trip failed for c={} k={} p={}", c, k, p);
            }
        }
    }
}

#[test]
fn t_decrypt_always_in_range() {
    // Cases where cipherLetter - key - blockPosition is negative.
    for c in 0u8..26 {
        for &k in &[0usize, 13, 25, 30, 77] {
            for &p in &[0usize, 3, 25, 60] {
                let r = decrypt(letter(c), k, p);
                assert!(r < 26, "decrypt out of range for c={} k={} p={}", c, k, p);
            }
        }
    }
    // 0 - 25 - 30 = -55, normalized: -55 + 78 = 23
    assert_eq!(decrypt('A', 25, 30), 23);
    // 1 - 0 - 3 = -2, normalized: 24
    assert_eq!(decrypt('B', 0, 3), 24);
}

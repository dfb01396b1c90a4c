//! The hash over words, bytes and text, and the comparison of strings.

use hashconsing::hash::hash_bytes;
use hashconsing::hash::hash_str;
use hashconsing::hash::mix;
use hashconsing::hash::str_eq;
use hashconsing::hash::HASH_PRIME;
use hashconsing::hash::HASH_SEED;

#[test]
fn mix_is_xor_then_multiply() {
    assert_eq!(mix(1, 2), 0x0000_0300_0000_0519);
    assert_eq!(mix(0, 1), HASH_PRIME);
    assert_eq!(mix(5, 5), 0);
    assert_eq!(mix(HASH_SEED, 0), 0xaf63_bd4c_8601_b7df);
}

#[test]
fn mix_wraps_around() {
    assert_eq!(mix(u64::MAX, 0), u64::MAX.wrapping_mul(HASH_PRIME));
    assert_eq!(mix(u64::MAX, 0), 0xffff_feff_ffff_fe4d);
}

#[test]
fn hash_of_no_bytes_is_the_state() {
    assert_eq!(hash_bytes(HASH_SEED, b""), HASH_SEED);
    assert_eq!(hash_bytes(17, &[]), 17);
    assert_eq!(hash_str(17, ""), 17);
}

#[test]
fn hash_of_bytes_matches_known_values() {
    assert_eq!(hash_bytes(HASH_SEED, b"a"), 0xaf63_dc4c_8601_ec8c);
    assert_eq!(hash_bytes(HASH_SEED, b"foobar"), 0x8594_4171_f739_67e8);
}

#[test]
fn hash_of_bytes_is_a_left_fold() {
    let whole = hash_bytes(HASH_SEED, b"foobar");
    let split = hash_bytes(hash_bytes(HASH_SEED, b"foo"), b"bar");
    assert_eq!(whole, split);
    assert_eq!(hash_bytes(HASH_SEED, &[7]), mix(HASH_SEED, 7));
    assert_ne!(hash_bytes(HASH_SEED, b"ab"), hash_bytes(HASH_SEED, b"ba"));
}

#[test]
fn hash_of_a_string_goes_over_its_utf8_bytes() {
    assert_eq!(hash_str(HASH_SEED, "foobar"), 0x8594_4171_f739_67e8);
    assert_eq!(hash_str(HASH_SEED, "é"), hash_bytes(HASH_SEED, &[0xc3, 0xa9]));
    assert_eq!(hash_str(mix(HASH_SEED, 0), "é"), 0xd6b6_0918_69db_93a7);
}

#[test]
fn str_eq_tells_strings_apart() {
    assert!(str_eq("", ""));
    assert!(str_eq("abc", "abc"));
    assert!(str_eq("é", "\u{e9}"));
    assert!(!str_eq("abc", "abd"));
    assert!(!str_eq("abc", "ab"));
    assert!(!str_eq("", "a"));
    assert!(!str_eq("e", "é"));
    let owned = String::from("abc");
    assert!(str_eq(owned.as_str(), "abc"));
}

use pow_chain::block::{meets_difficulty, Block};
use pow_chain::text::{push_decimal, push_signed_decimal, to_lower_hex};
use sha2::Digest;

fn sha256_hex(text: &str) -> String {
    format!("{:x}", sha2::Sha256::digest(text.as_bytes()))
}

#[test]
fn preimage_concatenates_fields_without_delimiters() {
    let p = Block::preimage(0, "genesis", 1700000000, "genesis", 42);
    assert_eq!(p, "0genesis1700000000genesis42");
}

#[test]
fn preimage_renders_negative_timestamp_and_extremes() {
    assert_eq!(Block::preimage(7, "ab", -15, "x", 0), "7ab-15x0");
    assert_eq!(
        Block::preimage(u64::MAX, "", i64::MIN, "", u64::MAX),
        "18446744073709551615-922337203685477580818446744073709551615"
    );
}

#[test]
fn decimal_rendering() {
    let mut s = String::new();
    push_decimal(&mut s, 0);
    push_decimal(&mut s, 1234567890);
    push_signed_decimal(&mut s, -1);
    push_signed_decimal(&mut s, 10);
    assert_eq!(s, "01234567890-110");
}

#[test]
fn lower_hex_rendering() {
    assert_eq!(to_lower_hex(&[0x00, 0x0f, 0xab, 0xff, 0x10]), "000fabff10");
    assert_eq!(to_lower_hex(&[]), "");
}

#[test]
fn hash_is_sha256_hex_of_preimage() {
    let h = Block::hash(0, "genesis", 1700000000, "genesis", 42);
    assert_eq!(h, sha256_hex("0genesis1700000000genesis42"));
    assert_eq!(h.len(), 64);
    assert!(h.chars().all(|c| c.is_ascii_digit() || ('a'..='f').contains(&c)));
    assert_ne!(h, "0genesis1700000000genesis42");
}

#[test]
fn hash_is_deterministic() {
    let a = Block::hash(3, "prev", 1234, "payload", 99);
    let b = Block::hash(3, "prev", 1234, "payload", 99);
    assert_eq!(a, b);
    let c = Block::hash(3, "prev", 1234, "payload", 100);
    assert_ne!(a, c);
}

#[test]
fn hash_of_known_input() {
    // SHA-256 of the ASCII text "1abc2d3"
    let h = Block::hash(1, "abc", 2, "d", 3);
    assert_eq!(h, sha256_hex("1abc2d3"));
}

#[test]
fn difficulty_predicate() {
    assert!(meets_difficulty("00abc", 2));
    assert!(!meets_difficulty("0abc", 2));
    assert!(!meets_difficulty("0", 2));
    assert!(meets_difficulty("", 0));
    assert!(meets_difficulty("f", 0));
    assert!(meets_difficulty("00000f", 5));
    assert!(!meets_difficulty("0000f0", 5));
}

#[test]
fn mine_finds_first_nonce_meeting_difficulty() {
    let (hash, nonce) = Block::mine(1, "prev", 1700000000, "Hello", 2).unwrap();
    assert!(hash.starts_with("00"));
    assert_eq!(hash, Block::hash(1, "prev", 1700000000, "Hello", nonce));
    for k in 0..nonce {
        assert!(!Block::hash(1, "prev", 1700000000, "Hello", k).starts_with("00"));
    }
}

#[test]
fn mine_with_zero_difficulty_takes_nonce_zero() {
    let (hash, nonce) = Block::mine(4, "x", 5, "y", 0).unwrap();
    assert_eq!(nonce, 0);
    assert_eq!(hash, sha256_hex("4x5y0"));
}

#[test]
fn new_at_fills_every_field() {
    let b = Block::new_at(1, String::from("abc"), 99, String::from("Hello"), 1).unwrap();
    assert_eq!(b.id, 1);
    assert_eq!(b.previous_hash, "abc");
    assert_eq!(b.timestamp, 99);
    assert_eq!(b.data, "Hello");
    assert!(b.hash.starts_with('0'));
    assert_eq!(b.hash, Block::hash(1, "abc", 99, "Hello", b.nonce));
}

#[test]
fn new_stamps_current_time() {
    let b = Block::new(2, String::from("abc"), String::from("Hello"), 1).unwrap();
    assert!(b.timestamp > 1_600_000_000);
    assert_eq!(b.id, 2);
    assert_eq!(b.hash, Block::hash(2, "abc", b.timestamp, "Hello", b.nonce));
}

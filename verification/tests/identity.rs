//! The identity key and its file.

use ed25519_dalek::SigningKey;
use mimir_call_mediator::identity::{
    identity_of, load_or_gen_key, seed_from_file, seed_from_text,
};

/// The first test vector of the signature scheme.
const SEED: [u8; 32] = [
    0x9d, 0x61, 0xb1, 0x9d, 0xef, 0xfd, 0x5a, 0x60, 0xba, 0x84, 0x4a, 0xf4, 0x92, 0xec, 0x2c, 0xc4,
    0x44, 0x49, 0xc5, 0x69, 0x7b, 0x32, 0x69, 0x19, 0x70, 0x3b, 0xac, 0x03, 0x1c, 0xae, 0x7f, 0x60,
];

const PUBLIC: [u8; 32] = [
    0xd7, 0x5a, 0x98, 0x01, 0x82, 0xb1, 0x0a, 0xb7, 0xd5, 0x4b, 0xfe, 0xd3, 0xc9, 0x64, 0x07, 0x3a,
    0x0e, 0xe1, 0x72, 0xf3, 0xda, 0xa6, 0x23, 0x25, 0xaf, 0x02, 0x1a, 0x68, 0xf7, 0x07, 0x51, 0x1a,
];

const TEXT: &str = "9d61b19deffd5a60ba844af492ec2cc44449c5697b326919703bac031cae7f60";

#[test]
fn raw_key_file_is_loaded() {
    let id = load_or_gen_key(Some(SEED.to_vec()));
    assert_eq!(id.seed, SEED);
    assert_eq!(id.public, PUBLIC);
    assert!(!id.generated);
}

#[test]
fn hex_key_file_is_loaded() {
    let upper = TEXT.to_uppercase();
    for text in [TEXT.to_string(), format!("{}\n", TEXT), format!(" \t{}\r\n", upper)] {
        let id = load_or_gen_key(Some(text.into_bytes()));
        assert_eq!(id.seed, SEED);
        assert_eq!(id.public, PUBLIC);
        assert!(!id.generated);
    }
}

#[test]
fn wide_white_space_is_cut_off() {
    assert_eq!(seed_from_text(&format!("\u{3000}{}\u{a0}", TEXT)), Some(SEED));
}

#[test]
fn other_texts_are_no_seed() {
    assert_eq!(seed_from_text(""), None);
    assert_eq!(seed_from_text(&TEXT[..62]), None);
    assert_eq!(seed_from_text(&format!("{}00", TEXT)), None);
    assert_eq!(seed_from_text(&format!("g{}", &TEXT[1..])), None);
    assert_eq!(seed_from_text(&format!("{} {}", &TEXT[..31], &TEXT[32..])), None);
}

#[test]
fn other_files_are_no_seed() {
    assert_eq!(seed_from_file(&[]), None);
    assert_eq!(seed_from_file(&[0u8; 31]), None);
    assert_eq!(seed_from_file(&[0xFFu8; 64]), None);
    assert_eq!(seed_from_file(&[0u8; 32]), Some([0u8; 32]));
    // Thirty-two bytes are a seed as they are, whatever they spell.
    assert_eq!(seed_from_file(TEXT[..32].as_bytes()).unwrap(), TEXT.as_bytes()[..32]);
}

#[test]
fn missing_or_broken_file_gives_a_new_key() {
    let a = load_or_gen_key(None);
    let b = load_or_gen_key(Some(b"not a key".to_vec()));
    assert!(a.generated && b.generated);
    assert!(load_or_gen_key(Some(vec![])).generated);
    let mut broken = TEXT.as_bytes().to_vec();
    broken[10] = 0xFF;
    assert!(load_or_gen_key(Some(broken)).generated);
    assert_ne!(a.seed, b.seed);
    assert_eq!(a.public, SigningKey::from_bytes(&a.seed).verifying_key().to_bytes());
}

#[test]
fn saved_key_comes_back() {
    let made = load_or_gen_key(None);
    let again = load_or_gen_key(Some(made.seed.to_vec()));
    assert_eq!(again.seed, made.seed);
    assert_eq!(again.public, made.public);
    assert!(!again.generated);
}

#[test]
fn identity_goes_with_its_seed() {
    let id = identity_of(SEED, true);
    assert_eq!(id.seed, SEED);
    assert_eq!(id.public, PUBLIC);
    assert!(id.generated);
}

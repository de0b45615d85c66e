//! The identity key of the mediator: read from the key file, or made anew.
//!
//! The file holds the seed of the key, either as it is or as hexadecimal text
//! with white space around it.

use vstd::prelude::*;
use vstd::string::*;
use vstd::utf8::*;

use crate::bytes::as_array;
use crate::constants::PUBKEY_LEN;
use crate::text::{self, hex_decode, trim, REPLACEMENT};

verus! {

/// Bytes in the seed of an Ed25519 key.
pub const SEED_LEN: usize = 32;

/// Hexadecimal digits in the text form of a seed.
pub const SEED_TEXT_LEN: usize = 64;

/// The seed of an Ed25519 key.
pub type Seed = [u8; SEED_LEN];

/// `String::from_utf8_lossy` of std, as an owned text. Where the bytes are valid
/// UTF-8, it is the text that they encode; where they are not, there is a
/// replacement character in it. What else is in it is left open.
#[verifier::external_body]
fn lossy_text(s: &[u8]) -> (r: String)
    ensures
        valid_utf8(s@) ==> r@ == decode_utf8(s@),
        !valid_utf8(s@) ==> r@.contains(REPLACEMENT),
{
    String::from_utf8_lossy(s).into_owned()
}

/// The public key of a seed.
pub uninterp spec fn ed25519_public(seed: Seq<u8>) -> Seq<u8>;

/// The bytes of `SigningKey::verifying_key` of the crate `ed25519-dalek`, for
/// the key that `SigningKey::from_bytes` makes of a seed. They depend on the
/// seed alone.
#[verifier::external_body]
fn public_key(seed: &Seed) -> (r: [u8; PUBKEY_LEN])
    ensures
        r@ == ed25519_public(seed@),
{
    ed25519_dalek::SigningKey::from_bytes(seed).verifying_key().to_bytes()
}

/// A random seed: the bytes of `SigningKey::generate` of the crate
/// `ed25519-dalek`, out of the generator of the operating system. Nothing is
/// claimed of them.
#[verifier::external_body]
fn generate_seed() -> (r: Seed) {
    ed25519_dalek::SigningKey::generate(&mut rand::rngs::OsRng).to_bytes()
}

/// The seed that `text` spells.
pub open spec fn seed_of_text(text: Seq<char>) -> Option<Seq<u8>> {
    let digits = encode_utf8(text::trimmed(text));
    if digits.len() == SEED_TEXT_LEN {
        text::hex_bytes(digits)
    } else {
        None
    }
}

/// The seed in a key file: the file itself where it has the length of a seed, or
/// else what it spells. There is none in a file that is not UTF-8.
pub open spec fn seed_of_file(data: Seq<u8>) -> Option<Seq<u8>> {
    if data.len() == SEED_LEN {
        Some(data)
    } else if valid_utf8(data) {
        seed_of_text(decode_utf8(data))
    } else {
        None
    }
}

/// The seed that `text` spells: 64 hexadecimal digits, with white space around
/// them.
pub fn seed_from_text(text: &str) -> (r: Option<Seed>)
    ensures
        match r {
            Some(seed) => seed_of_text(text@) == Some(seed@),
            None => seed_of_text(text@) is None,
        },
{
    let digits: &str = trim(text);
    if digits.as_bytes().len() != SEED_TEXT_LEN {
        return None;
    }
    match hex_decode(digits) {
        None => None,
        Some(bytes) => {
            let seed: Seed = *as_array(bytes.as_slice());
            Some(seed)
        },
    }
}

/// The seed in a key file: 32 bytes, or hexadecimal text.
pub fn seed_from_file(data: &[u8]) -> (r: Option<Seed>)
    ensures
        match r {
            Some(seed) => seed_of_file(data@) == Some(seed@),
            None => seed_of_file(data@) is None,
        },
{
    if data.len() == SEED_LEN {
        let seed: Seed = *as_array(data);
        return Some(seed);
    }
    let text: String = lossy_text(data);
    proof {
        if !valid_utf8(data@) {
            text::replaced_text_is_not_hex(text@);
        }
    }
    seed_from_text(text.as_str())
}

/// The key that the mediator goes by.
#[derive(Clone, Copy, Debug)]
pub struct Identity {
    pub seed: Seed,
    pub public: [u8; PUBKEY_LEN],
    /// Whether the key is new, so that its seed is to be saved.
    pub generated: bool,
}

/// The identity that goes with a seed.
pub fn identity_of(seed: Seed, generated: bool) -> (r: Identity)
    ensures
        r.seed@ == seed@,
        r.public@ == ed25519_public(seed@),
        r.generated == generated,
{
    let public: [u8; PUBKEY_LEN] = public_key(&seed);
    Identity { seed, public, generated }
}

/// The seed in a key file, where it could be read.
pub open spec fn seed_of_key_file(file: Option<Vec<u8>>) -> Option<Seq<u8>> {
    match file {
        Some(data) => seed_of_file(data@),
        None => None,
    }
}

/// The key in the key file, whose contents are `file` where it could be read; or
/// a new key where there is none in it.
pub fn load_or_gen_key(file: Option<Vec<u8>>) -> (r: Identity)
    ensures
        r.public@ == ed25519_public(r.seed@),
        match seed_of_key_file(file) {
            Some(seed) => r.seed@ == seed && !r.generated,
            None => r.generated,
        },
{
    let found: Option<Seed> = match &file {
        Some(data) => seed_from_file(data.as_slice()),
        None => None,
    };
    match found {
        Some(seed) => identity_of(seed, false),
        None => identity_of(generate_seed(), true),
    }
}

// ── Laws ─────────────────────────────────────────────────────────────────

/// The identity is stable: a seed that was saved to the key file is the seed
/// that is in it.
pub proof fn saved_seed_loads(seed: Seed)
    ensures
        seed_of_file(seed@) == Some(seed@),
{
}

/// A key file that holds a seed as hexadecimal text, with white space before and
/// after it, is read as that seed.
pub proof fn seed_text_loads(seed: Seed, before: Seq<char>, after: Seq<char>)
    requires
        forall|i: int| 0 <= i < before.len() ==> text::is_white(#[trigger] before[i]),
        forall|i: int| 0 <= i < after.len() ==> text::is_white(#[trigger] after[i]),
    ensures
        seed_of_file(encode_utf8(before + text::hex_lower(seed@) + after)) == Some(seed@),
{
    let all = before + text::hex_lower(seed@) + after;
    let digits = text::hex_lower(seed@);
    assert(!text::is_white(digits[0]));
    assert(!text::is_white(digits.last()));
    text::trim_cuts_ends(before, digits, after);
    text::hex_roundtrip(seed@);
    text::lemma_bytes_at_least(all);
    encode_utf8_valid_utf8(all);
    encode_utf8_decode_utf8(all);
}

} // verus!

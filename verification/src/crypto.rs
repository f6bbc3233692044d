//! Digests and keys: the short hash that stands for a window title, and the random key of
//! the database.
use vstd::prelude::*;
use vstd::utf8::encode_utf8;
use crate::digits::{hex_lower, hex_text};
use sha2::{Digest, Sha256};
use vstd::std_specs::iter::IteratorSpec;
use vstd::string::StringSliceAdditionalSpecFns;

verus! {

/// The SHA-256 digest of `data`.
pub uninterp spec fn sha256_of(data: Seq<u8>) -> Seq<u8>;

/// `sha2::Sha256`, fed `data` with `update` and read with `finalize`: the SHA-256 digest of
/// `data`, 32 bytes (the hasher's output size). The digest itself is only named here.
#[verifier::external_body]
fn sha256_digest(data: &[u8]) -> (r: Vec<u8>)
    ensures
        r@ == sha256_of(data@),
        r@.len() == 32,
{
    let mut hasher = Sha256::new();
    hasher.update(data);
    hasher.finalize().to_vec()
}

/// The title hash of a digest: its first 8 bytes as 16 lowercase hexadecimal digits.
pub fn title_hash_from_digest(digest: &[u8]) -> (r: String)
    requires
        digest@.len() >= 8,
    ensures
        r@ == hex_text(digest@.take(8)),
        r@.len() == 16,
{
    let mut first: Vec<u8> = Vec::new();
    let mut i: usize = 0;
    while i < 8
        invariant
            i <= 8,
            digest@.len() >= 8,
            first@ == digest@.take(i as int),
        decreases 8 - i,
    {
        first.push(digest[i]);
        assert(first@ =~= digest@.take(i + 1));
        i = i + 1;
    }
    let r = hex_lower(first.as_slice());
    proof {
        lemma_hex_len(first@);
    }
    r
}

/// Hex text has two digits per byte.
pub proof fn lemma_hex_len(bytes: Seq<u8>)
    ensures
        hex_text(bytes).len() == 2 * bytes.len(),
    decreases bytes.len(),
{
    if bytes.len() > 0 {
        lemma_hex_len(bytes.drop_last());
    }
}

/// The hash that stands for a text: the first 16 lowercase hexadecimal digits of the SHA-256
/// digest of its UTF-8 bytes.
pub open spec fn text_hash(text: Seq<char>) -> Seq<char> {
    hex_text(sha256_of(encode_utf8(text)).take(8))
}

/// The hash that stands for a window title, so that the title itself is never stored: the
/// first 16 lowercase hexadecimal digits of the SHA-256 digest of its UTF-8 bytes.
pub fn hash_window_title(title: &str) -> (r: String)
    ensures
        r@ == hex_text(sha256_of(title.spec_bytes()).take(8)),
        r@ == text_hash(title@),
        r@.len() == 16,
{
    let digest = sha256_digest(title.as_bytes());
    title_hash_from_digest(digest.as_slice())
}

/// `getrandom::getrandom`: fills `buf` from the system's random source; `true` on success.
/// What the bytes are is left open (they are random).
#[verifier::external_body]
fn fill_random(buf: &mut Vec<u8>) -> (ok: bool)
    ensures
        final(buf)@.len() == old(buf)@.len(),
{
    getrandom::getrandom(buf.as_mut_slice()).is_ok()
}

/// Whether a character is an ASCII hexadecimal digit.
pub open spec fn is_hex_digit(c: char) -> bool {
    ('0' <= c && c <= '9') || ('a' <= c && c <= 'f') || ('A' <= c && c <= 'F')
}

/// A database key: 64 hexadecimal digits.
pub open spec fn is_db_key(key: Seq<char>) -> bool {
    key.len() == 64 && forall|k: int| 0 <= k < key.len() ==> is_hex_digit(#[trigger] key[k])
}

/// A new random database key: 32 random bytes as 64 lowercase hexadecimal digits; `None`
/// when the system's random source fails.
pub fn generate_hex_key() -> (r: Option<String>)
    ensures
        r matches Some(k) ==> is_db_key(k@) && exists|bytes: Seq<u8>|
            bytes.len() == 32 && k@ == hex_text(bytes),
{
    let mut bytes: Vec<u8> = Vec::new();
    let mut i: usize = 0;
    while i < 32
        invariant
            i <= 32,
            bytes@.len() == i,
        decreases 32 - i,
    {
        bytes.push(0);
        i = i + 1;
    }
    if !fill_random(&mut bytes) {
        return None;
    }
    let key = hex_lower(bytes.as_slice());
    proof {
        lemma_hex_len(bytes@);
        lemma_hex_digits(bytes@);
    }
    Some(key)
}

/// Hex text holds only hexadecimal digits.
pub proof fn lemma_hex_digits(bytes: Seq<u8>)
    ensures
        forall|k: int| 0 <= k < hex_text(bytes).len() ==> is_hex_digit(#[trigger] hex_text(bytes)[k]),
    decreases bytes.len(),
{
    if bytes.len() > 0 {
        let d = bytes.drop_last();
        lemma_hex_digits(d);
        lemma_hex_len(d);
        let b = bytes.last();
        assert forall|k: int| 0 <= k < hex_text(bytes).len() implies is_hex_digit(#[trigger] hex_text(bytes)[k]) by {
            if k >= hex_text(d).len() {
                let hi = (b / 16) as nat;
                let lo = (b % 16) as nat;
                assert(hi < 16 && lo < 16);
            } else {
                assert(hex_text(bytes)[k] == hex_text(d)[k]);
            }
        }
    }
}

/// Whether a stored key can be used: exactly 64 hexadecimal digits.
pub fn is_valid_db_key(key: &str) -> (r: bool)
    ensures
        r == is_db_key(key@),
{
    broadcast use vstd::string::group_string_axioms;

    let mut it = key.chars();
    let mut n: usize = 0;
    let ghost mut i: int = 0;
    loop
        invariant
            0 <= i <= key@.len(),
            n == i,
            n <= 64,
            it.remaining() == key@.skip(i),
            forall|k: int| 0 <= k < i ==> is_hex_digit(#[trigger] key@[k]),
        decreases key@.len() - i,
    {
        match it.next() {
            None => {
                assert(i == key@.len()) by {
                    if i < key@.len() {
                        assert(key@.skip(i).len() > 0);
                    }
                }
                return n == 64;
            },
            Some(c) => {
                assert(c == key@[i]) by {
                    assert(key@.skip(i)[0] == key@[i]);
                }
                let hex = ('0' <= c && c <= '9') || ('a' <= c && c <= 'f') || ('A' <= c && c <= 'F');
                if !hex || n == 64 {
                    return false;
                }
                proof {
                    assert(key@.skip(i).drop_first() =~= key@.skip(i + 1));
                    i = i + 1;
                }
                n = n + 1;
            },
        }
    }
}

/// Every key made from 32 bytes passes the check of a stored key.
pub proof fn law_generated_key_is_valid(bytes: Seq<u8>)
    requires
        bytes.len() == 32,
    ensures
        is_db_key(hex_text(bytes)),
{
    lemma_hex_len(bytes);
    lemma_hex_digits(bytes);
}

} // verus!

//! Passphrase-based authenticated encryption of one secret value: a key is
//! derived from the passphrase and a random salt with Argon2, and the value
//! is sealed with ChaCha20-Poly1305 under that key and a random nonce.
use vstd::prelude::*;
use argon2::Argon2;
use chacha20poly1305::aead::{Aead, KeyInit};
use chacha20poly1305::{ChaCha20Poly1305, Key, Nonce};

verus! {

pub const SALT_LEN: usize = 16;

pub const NONCE_LEN: usize = 12;

pub const KEY_LEN: usize = 32;

pub const TAG_LEN: usize = 16;

/// Longest passphrase or value that the key derivation and the cipher take.
pub const MAX_INPUT_LEN: usize = 0x7FFF_FFFF;

/// The key that Argon2 (default parameters) derives from a passphrase and a salt.
pub uninterp spec fn argon2_key(passphrase: Seq<u8>, salt: Seq<u8>) -> Seq<u8>;

/// The ciphertext followed by the tag that ChaCha20-Poly1305 produces.
pub uninterp spec fn chacha_seal(key: Seq<u8>, nonce: Seq<u8>, plaintext: Seq<u8>) -> Seq<u8>;

/// Relies on getrandom::getrandom: fills the buffer from the operating
/// system's secure source, or reports that it could not.
#[verifier::external_body]
pub(crate) fn random_bytes(n: usize) -> (r: Option<Vec<u8>>)
    ensures
        r matches Some(v) ==> v@.len() == n,
{
    let mut buf = vec![0u8; n];
    match getrandom::getrandom(&mut buf) {
        Ok(()) => Some(buf),
        Err(_) => None,
    }
}

/// Relies on argon2::Argon2::hash_password_into with default parameters:
/// it fails only for a passphrase over 2^32 - 1 bytes, a salt outside
/// 8 ..= 2^32 - 1 bytes or an output outside 4 ..= 2^32 - 1 bytes.
#[verifier::external_body]
fn derive_key(passphrase: &[u8], salt: &Vec<u8>) -> (key: Vec<u8>)
    requires
        passphrase@.len() <= MAX_INPUT_LEN,
        salt@.len() == SALT_LEN,
    ensures
        key@ == argon2_key(passphrase@, salt@),
        key@.len() == KEY_LEN,
{
    let mut key = vec![0u8; KEY_LEN];
    Argon2::default().hash_password_into(passphrase, salt, &mut key).expect("valid argon2 input");
    key
}

/// Relies on chacha20poly1305's Aead::encrypt: it fails only when the
/// plaintext reaches 2^32 - 1 blocks of 64 bytes, and appends a 16-byte tag
/// to a ciphertext as long as the plaintext.
#[verifier::external_body]
fn seal(key: &Vec<u8>, nonce: &Vec<u8>, plaintext: &Vec<u8>) -> (r: Vec<u8>)
    requires
        key@.len() == KEY_LEN,
        nonce@.len() == NONCE_LEN,
        plaintext@.len() <= MAX_INPUT_LEN,
    ensures
        r@ == chacha_seal(key@, nonce@, plaintext@),
        r@.len() == plaintext@.len() + TAG_LEN,
{
    let cipher = ChaCha20Poly1305::new(Key::from_slice(key));
    cipher.encrypt(Nonce::from_slice(nonce), plaintext.as_slice()).expect("plaintext within limit")
}

/// Relies on chacha20poly1305's Aead::decrypt: it returns the plaintext
/// exactly when the tag verifies, that is when the input is the sealing of
/// that plaintext under the same key and nonce.
#[verifier::external_body]
fn open(key: &Vec<u8>, nonce: &Vec<u8>, sealed: &Vec<u8>) -> (r: Option<Vec<u8>>)
    requires
        key@.len() == KEY_LEN,
        nonce@.len() == NONCE_LEN,
    ensures
        r matches Some(p) ==> chacha_seal(key@, nonce@, p@) == sealed@,
        forall|p: Seq<u8>|
            #[trigger] chacha_seal(key@, nonce@, p) == sealed@ ==> r is Some && r->Some_0@ == p,
{
    let cipher = ChaCha20Poly1305::new(Key::from_slice(key));
    cipher.decrypt(Nonce::from_slice(nonce), sealed.as_slice()).ok()
}

/// The packed payload that protects `value`: salt, nonce, then the sealed value.
pub open spec fn payload_of(value: Seq<u8>, passphrase: Seq<u8>, salt: Seq<u8>, nonce: Seq<u8>) -> Seq<u8> {
    salt + nonce + chacha_seal(argon2_key(passphrase, salt), nonce, value)
}

/// The salt stored at the front of a payload.
pub open spec fn salt_of(payload: Seq<u8>) -> Seq<u8> {
    payload.subrange(0, SALT_LEN as int)
}

/// The nonce stored after the salt.
pub open spec fn nonce_of(payload: Seq<u8>) -> Seq<u8> {
    payload.subrange(SALT_LEN as int, (SALT_LEN + NONCE_LEN) as int)
}

/// The sealed value stored after the nonce.
pub open spec fn sealed_of(payload: Seq<u8>) -> Seq<u8> {
    payload.subrange((SALT_LEN + NONCE_LEN) as int, payload.len() as int)
}

/// Whether `value` is what `payload` protects under `passphrase`: the sealed
/// part is the sealing of `value` under the key derived from the passphrase
/// and the stored salt, with the stored nonce.
pub open spec fn opens_to(payload: Seq<u8>, passphrase: Seq<u8>, value: Seq<u8>) -> bool {
    &&& payload.len() >= SALT_LEN + NONCE_LEN
    &&& chacha_seal(argon2_key(passphrase, salt_of(payload)), nonce_of(payload), value)
        == sealed_of(payload)
}

/// The bytes of `v` from `start` up to `end`.
pub fn copy_range(v: &Vec<u8>, start: usize, end: usize) -> (r: Vec<u8>)
    requires
        start <= end <= v.len(),
    ensures
        r@ == v@.subrange(start as int, end as int),
{
    let mut r: Vec<u8> = Vec::new();
    let mut i: usize = start;
    while i < end
        invariant
            start <= i <= end <= v.len(),
            r@ == v@.subrange(start as int, i as int),
        decreases end - i,
    {
        r.push(v[i]);
        i = i + 1;
        assert(r@ =~= v@.subrange(start as int, i as int));
    }
    r
}

/// Appends all of `src` to `dst`.
pub fn append_all(dst: &mut Vec<u8>, src: &Vec<u8>)
    ensures
        final(dst)@ == old(dst)@ + src@,
{
    let ghost start = dst@;
    let mut i: usize = 0;
    while i < src.len()
        invariant
            i <= src.len(),
            dst@ == start + src@.subrange(0, i as int),
        decreases src.len() - i,
    {
        dst.push(src[i]);
        i = i + 1;
        assert(dst@ =~= start + src@.subrange(0, i as int));
    }
    assert(src@.subrange(0, src.len() as int) =~= src@);
}

/// Encrypts `value` under a key derived from `passphrase` and `salt`, with
/// `nonce`, and packs salt, nonce and sealed value into one payload.
pub fn seal_value(value: &Vec<u8>, passphrase: &[u8], salt: &Vec<u8>, nonce: &Vec<u8>) -> (payload: Vec<u8>)
    requires
        value@.len() <= MAX_INPUT_LEN,
        passphrase@.len() <= MAX_INPUT_LEN,
        salt@.len() == SALT_LEN,
        nonce@.len() == NONCE_LEN,
    ensures
        payload@ == payload_of(value@, passphrase@, salt@, nonce@),
        payload@.len() == SALT_LEN + NONCE_LEN + value@.len() + TAG_LEN,
{
    let key = derive_key(passphrase, salt);
    let sealed = seal(&key, nonce, value);
    let mut payload: Vec<u8> = Vec::new();
    append_all(&mut payload, salt);
    append_all(&mut payload, nonce);
    append_all(&mut payload, &sealed);
    assert(payload@ =~= salt@ + nonce@ + sealed@);
    payload
}

/// Recovers the value that `payload` protects under `passphrase`; `None`
/// when there is none, that is when the payload is too short to hold a salt
/// and a nonce or its authentication fails.
pub fn open_value(payload: &Vec<u8>, passphrase: &[u8]) -> (r: Option<Vec<u8>>)
    requires
        passphrase@.len() <= MAX_INPUT_LEN,
    ensures
        r matches Some(v) ==> opens_to(payload@, passphrase@, v@),
        forall|v: Seq<u8>| #[trigger] opens_to(payload@, passphrase@, v) ==> (r matches Some(w) && w@ == v),
{
    if payload.len() < SALT_LEN + NONCE_LEN {
        return None;
    }
    let salt = copy_range(payload, 0, SALT_LEN);
    let nonce = copy_range(payload, SALT_LEN, SALT_LEN + NONCE_LEN);
    let sealed = copy_range(payload, SALT_LEN + NONCE_LEN, payload.len());
    let key = derive_key(passphrase, &salt);
    let r = open(&key, &nonce, &sealed);
    assert forall|v: Seq<u8>| #[trigger] opens_to(payload@, passphrase@, v) implies (r matches Some(
        w,
    ) && w@ == v) by {
        assert(chacha_seal(key@, nonce@, v) == sealed@);
    }
    r
}

/// A payload opens, under the passphrase it was sealed with, to the value
/// it was sealed from, and to nothing else.
pub proof fn lemma_payload_opens(value: Seq<u8>, passphrase: Seq<u8>, salt: Seq<u8>, nonce: Seq<u8>)
    requires
        salt.len() == SALT_LEN,
        nonce.len() == NONCE_LEN,
    ensures
        opens_to(payload_of(value, passphrase, salt, nonce), passphrase, value),
{
    let p = payload_of(value, passphrase, salt, nonce);
    assert(salt_of(p) =~= salt);
    assert(nonce_of(p) =~= nonce);
    assert(sealed_of(p) =~= chacha_seal(argon2_key(passphrase, salt), nonce, value));
}

} // verus!

//! The authenticated cipher under the frame layer: XChaCha20-Poly1305.
use chacha20poly1305::aead::Aead;
use chacha20poly1305::{Key, KeyInit, XChaCha20Poly1305, XNonce};
use vstd::prelude::*;

verus! {

/// Ciphertext followed by the 16-byte tag that XChaCha20-Poly1305 gives for
/// `plaintext` under `key` (32 bytes) and `nonce` (24 bytes), with no associated data.
pub uninterp spec fn aead_seal(key: Seq<u8>, nonce: Seq<u8>, plaintext: Seq<u8>) -> Seq<u8>;

/// The cipher refuses messages of 2^32 - 1 blocks of 64 bytes or more.
pub open spec fn aead_len_ok(n: nat) -> bool {
    n / 64 < 0xffff_ffff
}

/// Relies on `Aead::encrypt` of `XChaCha20Poly1305`: it fails only on an
/// over-long message, and otherwise appends a 16-byte tag to a ciphertext of the
/// plaintext's length.
#[verifier::external_body]
pub(crate) fn aead_encrypt(key: &[u8], nonce: &[u8], plaintext: &[u8]) -> (r: Option<Vec<u8>>)
    requires
        key@.len() == 32,
        nonce@.len() == 24,
    ensures
        r is Some <==> aead_len_ok(plaintext@.len()),
        r matches Some(c) ==> c@ == aead_seal(key@, nonce@, plaintext@) && c@.len()
            == plaintext@.len() + 16,
{
    XChaCha20Poly1305::new(Key::from_slice(key)).encrypt(XNonce::from_slice(nonce), plaintext).ok()
}

/// Relies on `Aead::decrypt` of `XChaCha20Poly1305`: the tag is checked before
/// anything is returned, so a plaintext comes back exactly when sealing it gives
/// `ciphertext` (the cipher is deterministic for a fixed key and nonce).
#[verifier::external_body]
pub(crate) fn aead_decrypt(key: &[u8], nonce: &[u8], ciphertext: &[u8]) -> (r: Option<Vec<u8>>)
    requires
        key@.len() == 32,
        nonce@.len() == 24,
    ensures
        r matches Some(p) ==> p@.len() + 16 == ciphertext@.len() && aead_len_ok(p@.len())
            && aead_seal(key@, nonce@, p@) == ciphertext@,
        forall|p: Seq<u8>|
            #![trigger aead_seal(key@, nonce@, p)]
            p.len() + 16 == ciphertext@.len() && aead_len_ok(p.len()) && aead_seal(key@, nonce@, p)
                == ciphertext@ ==> r is Some && r.unwrap()@ == p,
{
    XChaCha20Poly1305::new(Key::from_slice(key)).decrypt(XNonce::from_slice(nonce), ciphertext).ok()
}

} // verus!

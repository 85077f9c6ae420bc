//! Ephemeral key agreement: X25519 over a fresh key pair per connection, then
//! a BLAKE3 key derivation from the salt and the shared secret.
use crate::frame::{FrameDecoder, FrameEncoder, KEY_LEN, PREFIX_LEN};
use chacha20poly1305::aead::rand_core::RngCore;
use chacha20poly1305::aead::OsRng;
use vstd::prelude::*;
use x25519_dalek::{EphemeralSecret, PublicKey};

verus! {

pub const SALT_LEN: usize = 16;

pub const PUBLIC_KEY_LEN: usize = 32;

/// Salt, nonce prefix and the sender's public key, as sent in the clear.
pub const HELLO_LEN: usize = 67;

/// Context string of the session key derivation.
pub const KEY_CONTEXT: &'static str = "lsend key generation for XChaCha20 cipher";

#[verifier::external_type_specification]
#[verifier::external_body]
pub struct ExEphemeralSecret(EphemeralSecret);

/// The 32 bytes that BLAKE3 in key derivation mode gives for `context` and `material`.
pub uninterp spec fn blake3_derive_key(context: Seq<char>, material: Seq<u8>) -> Seq<u8>;

/// The session key that both sides derive from the salt and the shared secret.
pub open spec fn session_key_of(salt: Seq<u8>, shared: Seq<u8>) -> Seq<u8> {
    blake3_derive_key(KEY_CONTEXT@, salt + shared)
}

/// Why a handshake could not complete.
#[derive(Debug, Clone, Copy, PartialEq, Eq, Structural)]
pub enum HandshakeError {
    /// A fixed-length field had the wrong length.
    Malformed,
}

/// Relies on `blake3::derive_key`: a 32-byte key that depends on the context
/// and the key material alone.
#[verifier::external_body]
fn derive_key(context: &str, material: &[u8]) -> (r: Vec<u8>)
    ensures
        r@ == blake3_derive_key(context@, material@),
        r@.len() == 32,
{
    blake3::derive_key(context, material).to_vec()
}

/// Relies on `OsRng::fill_bytes`: `n` bytes from the operating system's
/// random source.
#[verifier::external_body]
fn random_bytes(n: usize) -> (r: Vec<u8>)
    ensures
        r@.len() == n,
{
    let mut buf = vec![0u8; n];
    OsRng.fill_bytes(&mut buf);
    buf
}

/// Relies on `EphemeralSecret::random`: a fresh secret from the operating
/// system's random source.
#[verifier::external_body]
fn new_secret() -> (r: EphemeralSecret) {
    EphemeralSecret::random()
}

/// Relies on `PublicKey::from(&EphemeralSecret)`: the 32 bytes of the
/// secret's public key.
#[verifier::external_body]
fn public_key_of(secret: &EphemeralSecret) -> (r: Vec<u8>)
    ensures
        r@.len() == PUBLIC_KEY_LEN,
{
    PublicKey::from(secret).as_bytes().to_vec()
}

/// Relies on `EphemeralSecret::diffie_hellman`: the 32-byte shared secret
/// with the peer's public key; the secret is consumed.
#[verifier::external_body]
fn diffie_hellman(secret: EphemeralSecret, peer: &[u8]) -> (r: Vec<u8>)
    requires
        peer@.len() == PUBLIC_KEY_LEN,
    ensures
        r@.len() == 32,
{
    let mut point = [0u8; 32];
    point.copy_from_slice(peer);
    secret.diffie_hellman(&PublicKey::from(point)).as_bytes().to_vec()
}

/// Derives the session key from the handshake salt and the shared secret.
pub fn derive_session_key(salt: &[u8], shared: &[u8]) -> (r: Vec<u8>)
    ensures
        r@ == session_key_of(salt@, shared@),
        r@.len() == KEY_LEN,
{
    let mut material: Vec<u8> = Vec::new();
    material.extend_from_slice(salt);
    material.extend_from_slice(shared);
    assert(material@ =~= salt@ + shared@);
    derive_key(KEY_CONTEXT, material.as_slice())
}

/// Both sides derive the same session key and use the same nonce prefix
/// when the receiver reads the sender's hello unchanged and the two shared
/// secrets agree.
pub proof fn lemma_sides_agree(
    salt: Seq<u8>,
    nonce_prefix: Seq<u8>,
    public_key: Seq<u8>,
    hello: Seq<u8>,
    sender_shared: Seq<u8>,
    receiver_shared: Seq<u8>,
)
    requires
        salt.len() == SALT_LEN,
        nonce_prefix.len() == PREFIX_LEN,
        hello == salt + nonce_prefix + public_key,
        sender_shared == receiver_shared,
    ensures
        session_key_of(salt, sender_shared) == session_key_of(hello.subrange(0, 16), receiver_shared),
        nonce_prefix == hello.subrange(16, 35),
{
    assert(hello.subrange(0, 16) =~= salt);
    assert(hello.subrange(16, 35) =~= nonce_prefix);
}

/// The sending side of a handshake, between its hello and the peer's reply.
pub struct Initiator {
    salt: Vec<u8>,
    nonce_prefix: Vec<u8>,
    secret: EphemeralSecret,
    public: Vec<u8>,
}

impl Initiator {
    pub closed spec fn salt(&self) -> Seq<u8> {
        self.salt@
    }

    pub closed spec fn nonce_prefix(&self) -> Seq<u8> {
        self.nonce_prefix@
    }

    pub closed spec fn public_key(&self) -> Seq<u8> {
        self.public@
    }

    pub open spec fn wf(&self) -> bool {
        self.salt().len() == SALT_LEN && self.nonce_prefix().len() == PREFIX_LEN
            && self.public_key().len() == PUBLIC_KEY_LEN
    }

    /// Draws a fresh salt, nonce prefix and ephemeral key pair.
    pub fn new() -> (r: Initiator)
        ensures
            r.wf(),
    {
        let salt = random_bytes(SALT_LEN);
        let nonce_prefix = random_bytes(PREFIX_LEN);
        let secret = new_secret();
        let public = public_key_of(&secret);
        Initiator { salt, nonce_prefix, secret, public }
    }

    /// The clear-text hello: salt, nonce prefix, then the public key.
    pub fn hello(&self) -> (r: Vec<u8>)
        requires
            self.wf(),
        ensures
            r@ == self.salt() + self.nonce_prefix() + self.public_key(),
            r@.len() == HELLO_LEN,
    {
        let mut r: Vec<u8> = Vec::new();
        r.extend_from_slice(self.salt.as_slice());
        r.extend_from_slice(self.nonce_prefix.as_slice());
        r.extend_from_slice(self.public.as_slice());
        assert(r@ =~= self.salt() + self.nonce_prefix() + self.public_key());
        r
    }

    /// Takes the peer's public key and gives the encoder of the session.
    pub fn finish(self, reply: &[u8]) -> (r: Result<FrameEncoder, HandshakeError>)
        requires
            self.wf(),
        ensures
            r is Ok <==> reply@.len() == PUBLIC_KEY_LEN,
            r matches Ok(enc) ==> enc.wf() && enc@.prefix == self.nonce_prefix() && enc@.position
                == 0 && exists|shared: Seq<u8>|
                shared.len() == 32 && enc@.key == session_key_of(self.salt(), shared),
    {
        if reply.len() != PUBLIC_KEY_LEN {
            return Err(HandshakeError::Malformed);
        }
        let Initiator { salt, nonce_prefix, secret, public } = self;
        let shared = diffie_hellman(secret, reply);
        let key = derive_session_key(salt.as_slice(), shared.as_slice());
        Ok(FrameEncoder::new(key, nonce_prefix))
    }
}

/// Answers a hello: the decoder of the session and the reply (this side's
/// public key) to send back.
pub fn respond(hello: &[u8]) -> (r: Result<(FrameDecoder, Vec<u8>), HandshakeError>)
    ensures
        r is Ok <==> hello@.len() == HELLO_LEN,
        r matches Ok((dec, reply)) ==> dec.wf() && reply@.len() == PUBLIC_KEY_LEN && dec@.prefix
            == hello@.subrange(16, 35) && dec@.position == 0 && exists|shared: Seq<u8>|
            shared.len() == 32 && dec@.key == session_key_of(hello@.subrange(0, 16), shared),
{
    if hello.len() != HELLO_LEN {
        return Err(HandshakeError::Malformed);
    }
    let salt = &hello[0..16];
    let mut nonce_prefix: Vec<u8> = Vec::new();
    nonce_prefix.extend_from_slice(&hello[16..35]);
    let peer = &hello[35..67];
    let secret = new_secret();
    let reply = public_key_of(&secret);
    let shared = diffie_hellman(secret, peer);
    let key = derive_session_key(salt, shared.as_slice());
    Ok((FrameDecoder::new(key, nonce_prefix), reply))
}

} // verus!

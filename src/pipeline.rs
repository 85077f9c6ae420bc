//! The file body: gzip compression under the frame cipher, and the content
//! hash that checks the delivered bytes end to end.
use crate::frame::{body_fits, body_matches, decrypt, encrypt, FrameDecoder, FrameEncoder, FrameError};
use crate::metadata::{MetadataView, TransferMetadata, HASH_LEN};
use flate2::Compression;
use std::io::Read;
use vstd::prelude::*;

verus! {

/// The gzip stream that flate2 writes for `data` at compression `level`.
pub uninterp spec fn gzip_of(level: u32, data: Seq<u8>) -> Seq<u8>;

/// What flate2 decompresses from the gzip stream `data`, if it is one.
pub uninterp spec fn gunzip_of(data: Seq<u8>) -> Option<Seq<u8>>;

/// The BLAKE3 hash of `data`.
pub uninterp spec fn blake3_hash_of(data: Seq<u8>) -> Seq<u8>;

/// Relies on `flate2::read::GzEncoder`: the gzip stream of `data`, which
/// depends on the bytes and the level alone; reading from a slice does not fail.
#[verifier::external_body]
fn gzip(data: &[u8], level: u32) -> (r: Vec<u8>)
    requires
        level <= 9,
    ensures
        r@ == gzip_of(level, data@),
{
    let mut out = Vec::new();
    flate2::read::GzEncoder::new(data, Compression::new(level)).read_to_end(&mut out).unwrap();
    out
}

/// Relies on `flate2::read::GzDecoder`: the bytes a gzip stream holds, and
/// for a stream that flate2 wrote, the bytes it was written from.
#[verifier::external_body]
fn gunzip(data: &[u8]) -> (r: Option<Vec<u8>>)
    ensures
        match r {
            Some(d) => gunzip_of(data@) == Some(d@),
            None => gunzip_of(data@) is None,
        },
        forall|level: u32, d: Seq<u8>|
            #![trigger gzip_of(level, d)]
            level <= 9 && gzip_of(level, d) == data@ ==> r is Some && r.unwrap()@ == d,
{
    let mut out = Vec::new();
    match flate2::read::GzDecoder::new(data).read_to_end(&mut out) {
        Ok(_) => Some(out),
        Err(_) => None,
    }
}

/// Relies on `blake3::hash`: the 32-byte hash of `data`.
#[verifier::external_body]
fn blake3_hash(data: &[u8]) -> (r: Vec<u8>)
    ensures
        r@ == blake3_hash_of(data@),
        r@.len() == HASH_LEN,
{
    blake3::hash(data).as_bytes().to_vec()
}

/// Why a body could not be delivered.
#[derive(Debug, Clone, Copy, PartialEq, Eq, Structural)]
pub enum BodyError {
    /// The sealed stream did not open.
    Frame(FrameError),
    /// The opened stream is not a gzip stream.
    Decompress,
}

/// The BLAKE3 hash of a file's bytes.
pub fn content_hash(data: &[u8]) -> (r: Vec<u8>)
    ensures
        r@ == blake3_hash_of(data@),
        r@.len() == HASH_LEN,
{
    blake3_hash(data)
}

impl TransferMetadata {
    /// The header that offers the file `name` with contents `data`.
    pub fn describe(name: String, data: &[u8]) -> (r: TransferMetadata)
        ensures
            r@ == (MetadataView { name: name@, size: data@.len() as u64, hash: blake3_hash_of(data@) }),
    {
        let hash = content_hash(data);
        TransferMetadata { name, size: data.len() as u64, hash }
    }

    /// Whether `data`, as delivered, has the hash that the header announced.
    pub fn matches_content(&self, data: &[u8]) -> (r: bool)
        ensures
            r == (blake3_hash_of(data@) == self@.hash),
    {
        let h = content_hash(data);
        hash_eq(h.as_slice(), self.hash.as_slice())
    }
}

/// Whether two hashes are the same bytes.
pub fn hash_eq(a: &[u8], b: &[u8]) -> (r: bool)
    ensures
        r == (a@ == b@),
{
    if a.len() != b.len() {
        return false;
    }
    let mut i: usize = 0;
    while i < a.len()
        invariant
            a@.len() == b@.len(),
            i <= a@.len(),
            forall|j: int| 0 <= j < i ==> a@[j] == b@[j],
        decreases a@.len() - i,
    {
        if a[i] != b[i] {
            return false;
        }
        i = i + 1;
    }
    assert(a@ =~= b@);
    true
}

/// Compresses `data` at `level` and seals the result as the rest of the stream.
pub fn seal_body(data: &[u8], level: u32, cipher: FrameEncoder) -> (r: Result<Vec<u8>, FrameError>)
    requires
        cipher.wf(),
        1 <= level <= 9,
    ensures
        r is Ok <==> body_fits(cipher@.position, gzip_of(level, data@).len()),
        r matches Ok(w) ==> body_matches(
            cipher@.key,
            cipher@.prefix,
            cipher@.position,
            gzip_of(level, data@),
            w@,
        ),
{
    let compressed = gzip(data, level);
    encrypt(compressed.as_slice(), cipher)
}

/// Opens a sealed body and decompresses it.
pub fn open_body(wire: &[u8], cipher: FrameDecoder) -> (r: Result<Vec<u8>, BodyError>)
    requires
        cipher.wf(),
    ensures
        r matches Ok(d) ==> exists|c: Seq<u8>|
            body_matches(cipher@.key, cipher@.prefix, cipher@.position, c, wire@) && gunzip_of(c)
                == Some(d@),
        forall|level: u32, d: Seq<u8>|
            #![trigger body_matches(cipher@.key, cipher@.prefix, cipher@.position, gzip_of(level, d), wire@)]
            level <= 9 && body_matches(
                cipher@.key,
                cipher@.prefix,
                cipher@.position,
                gzip_of(level, d),
                wire@,
            ) && body_fits(cipher@.position, gzip_of(level, d).len()) ==> r is Ok && r.unwrap()@
                == d,
{
    let ghost k = cipher@.key;
    let ghost pre = cipher@.prefix;
    let ghost pos = cipher@.position;
    let compressed = match decrypt(wire, cipher) {
        Ok(c) => c,
        Err(e) => return Err(BodyError::Frame(e)),
    };
    match gunzip(compressed.as_slice()) {
        Some(d) => Ok(d),
        None => Err(BodyError::Decompress),
    }
}

} // verus!

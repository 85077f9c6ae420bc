//! The header sent ahead of a file body: name, size and content hash, each
//! field sealed as a frame of its own.
use crate::aead::aead_len_ok;
use crate::frame::{
    read_decrypted, sealed_frame, write_encrypted, FrameDecoder, FrameEncoder, FrameError, TAG_LEN,
};
use vstd::prelude::*;
use vstd::utf8::{decode_utf8, encode_utf8, encode_utf8_decode_utf8, encode_utf8_valid_utf8, valid_utf8};
use vstd::string::StringSliceAdditionalSpecFns;

verus! {

pub const HASH_LEN: usize = 32;

/// Description of the file that is offered.
pub struct TransferMetadata {
    pub name: String,
    pub size: u64,
    /// BLAKE3 hash of the file's bytes.
    pub hash: Vec<u8>,
}

pub ghost struct MetadataView {
    pub name: Seq<char>,
    pub size: u64,
    pub hash: Seq<u8>,
}

impl MetadataView {
    /// The name's UTF-8 bytes.
    pub open spec fn name_bytes(self) -> Seq<u8> {
        encode_utf8(self.name)
    }

    pub open spec fn wf(self) -> bool {
        self.hash.len() == HASH_LEN && self.name_bytes().len() <= u64::MAX && aead_len_ok(
            self.name_bytes().len(),
        )
    }
}

impl View for TransferMetadata {
    type V = MetadataView;

    open spec fn view(&self) -> MetadataView {
        MetadataView { name: self.name@, size: self.size, hash: self.hash@ }
    }
}

/// Why a header could not be read or written.
#[derive(Debug, Clone, Copy, PartialEq, Eq, Structural)]
pub enum MetadataError {
    /// The frame counter has no room for the header's frames.
    CounterExhausted,
    /// The name is too long for the cipher.
    NameTooLong,
    /// The bytes do not have the header's layout.
    Malformed,
    /// A field failed authentication.
    Authentication,
    /// The name is not valid UTF-8.
    InvalidName,
}

/// Little-endian bytes of `n`.
pub open spec fn le64(n: u64) -> Seq<u8> {
    seq![
        (n & 0xff) as u8,
        ((n >> 8) & 0xff) as u8,
        ((n >> 16) & 0xff) as u8,
        ((n >> 24) & 0xff) as u8,
        ((n >> 32) & 0xff) as u8,
        ((n >> 40) & 0xff) as u8,
        ((n >> 48) & 0xff) as u8,
        ((n >> 56) & 0xff) as u8,
    ]
}

/// `rest` holds the name, size and hash frames of `md`, from `position` on.
pub open spec fn rest_matches(
    key: Seq<u8>,
    prefix: Seq<u8>,
    position: nat,
    md: MetadataView,
    rest: Seq<u8>,
) -> bool {
    let name = md.name_bytes();
    let n = name.len() as int;
    rest.len() == n + 88 && sealed_frame(key, prefix, position, false, name) == rest.take(n + 16)
        && sealed_frame(key, prefix, position + 1, false, le64(md.size)) == rest.subrange(
        n + 16,
        n + 40,
    ) && sealed_frame(key, prefix, position + 2, false, md.hash) == rest.subrange(n + 40, n + 88)
}

/// `wire` is the whole header of `md`, from `position` on: the name's length
/// in bytes, then the frames of `rest_matches`.
pub open spec fn metadata_matches(
    key: Seq<u8>,
    prefix: Seq<u8>,
    position: nat,
    md: MetadataView,
    wire: Seq<u8>,
) -> bool {
    wire.len() >= 24 && sealed_frame(key, prefix, position, false, le64(md.name_bytes().len() as u64))
        == wire.take(24) && rest_matches(key, prefix, position + 1, md, wire.skip(24))
}

fn le64_bytes(n: u64) -> (r: Vec<u8>)
    ensures
        r@ == le64(n),
{
    let mut r: Vec<u8> = Vec::new();
    r.push((n & 0xff) as u8);
    r.push(((n >> 8) & 0xff) as u8);
    r.push(((n >> 16) & 0xff) as u8);
    r.push(((n >> 24) & 0xff) as u8);
    r.push(((n >> 32) & 0xff) as u8);
    r.push(((n >> 40) & 0xff) as u8);
    r.push(((n >> 48) & 0xff) as u8);
    r.push(((n >> 56) & 0xff) as u8);
    assert(r@ =~= le64(n));
    r
}

proof fn lemma_le64_injective(x: u64, y: u64)
    requires
        le64(x) == le64(y),
    ensures
        x == y,
{
    assert(le64(x)[0] == le64(y)[0]);
    assert(le64(x)[1] == le64(y)[1]);
    assert(le64(x)[2] == le64(y)[2]);
    assert(le64(x)[3] == le64(y)[3]);
    assert(le64(x)[4] == le64(y)[4]);
    assert(le64(x)[5] == le64(y)[5]);
    assert(le64(x)[6] == le64(y)[6]);
    assert(le64(x)[7] == le64(y)[7]);
    assert(x == y) by (bit_vector)
        requires
            (x & 0xff) as u8 == (y & 0xff) as u8,
            ((x >> 8) & 0xff) as u8 == ((y >> 8) & 0xff) as u8,
            ((x >> 16) & 0xff) as u8 == ((y >> 16) & 0xff) as u8,
            ((x >> 24) & 0xff) as u8 == ((y >> 24) & 0xff) as u8,
            ((x >> 32) & 0xff) as u8 == ((y >> 32) & 0xff) as u8,
            ((x >> 40) & 0xff) as u8 == ((y >> 40) & 0xff) as u8,
            ((x >> 48) & 0xff) as u8 == ((y >> 48) & 0xff) as u8,
            ((x >> 56) & 0xff) as u8 == ((y >> 56) & 0xff) as u8,
    ;
}

fn read_le64(b: &[u8]) -> (r: u64)
    requires
        b@.len() == 8,
    ensures
        le64(r) == b@,
{
    let b0 = b[0];
    let b1 = b[1];
    let b2 = b[2];
    let b3 = b[3];
    let b4 = b[4];
    let b5 = b[5];
    let b6 = b[6];
    let b7 = b[7];
    let r: u64 = (b0 as u64) | ((b1 as u64) << 8) | ((b2 as u64) << 16) | ((b3 as u64) << 24) | ((
    b4 as u64) << 32) | ((b5 as u64) << 40) | ((b6 as u64) << 48) | ((b7 as u64) << 56);
    assert((r & 0xff) as u8 == b0 && ((r >> 8) & 0xff) as u8 == b1 && ((r >> 16) & 0xff) as u8 == b2
        && ((r >> 24) & 0xff) as u8 == b3 && ((r >> 32) & 0xff) as u8 == b4 && ((r >> 40) & 0xff) as u8
        == b5 && ((r >> 48) & 0xff) as u8 == b6 && ((r >> 56) & 0xff) as u8 == b7) by (bit_vector)
        requires
            r == (b0 as u64) | ((b1 as u64) << 8) | ((b2 as u64) << 16) | ((b3 as u64) << 24) | ((
            b4 as u64) << 32) | ((b5 as u64) << 40) | ((b6 as u64) << 48) | ((b7 as u64) << 56),
    ;
    assert(le64(r) =~= b@);
    r
}

/// Relies on `String::from_utf8`: it succeeds exactly on valid UTF-8 and keeps
/// the bytes.
#[verifier::external_body]
fn string_from_utf8(bytes: Vec<u8>) -> (r: Option<String>)
    ensures
        r is Some <==> valid_utf8(bytes@),
        r matches Some(s) ==> encode_utf8(s@) == bytes@,
{
    String::from_utf8(bytes).ok()
}

fn frame_error(e: FrameError) -> (r: MetadataError)
    ensures
        e == FrameError::Authentication ==> r == MetadataError::Authentication,
        e == FrameError::CounterExhausted ==> r == MetadataError::CounterExhausted,
        e == FrameError::TooLong ==> r == MetadataError::NameTooLong,
{
    match e {
        FrameError::Authentication => MetadataError::Authentication,
        FrameError::CounterExhausted => MetadataError::CounterExhausted,
        FrameError::TooLong => MetadataError::NameTooLong,
    }
}

impl TransferMetadata {
    pub open spec fn wf(&self) -> bool {
        self@.wf()
    }

    /// Seals the header as four frames: name length, name, size, hash.
    pub fn encode(&self, cipher: &mut FrameEncoder) -> (r: Result<Vec<u8>, MetadataError>)
        requires
            old(cipher).wf(),
            self@.hash.len() == HASH_LEN,
        ensures
            final(cipher).wf(),
            final(cipher)@.key == old(cipher)@.key,
            final(cipher)@.prefix == old(cipher)@.prefix,
            r is Ok <==> old(cipher)@.position + 4 <= u32::MAX && aead_len_ok(
                self@.name_bytes().len(),
            ),
            r == Err::<Vec<u8>, MetadataError>(MetadataError::CounterExhausted) <==> old(
                cipher,
            )@.position + 4 > u32::MAX,
            r matches Ok(w) ==> metadata_matches(
                old(cipher)@.key,
                old(cipher)@.prefix,
                old(cipher)@.position,
                self@,
                w@,
            ) && final(cipher)@.position == old(cipher)@.position + 4,
            r is Err ==> final(cipher)@ == old(cipher)@,
    {
        let name = self.name.as_str().as_bytes();
        if cipher.position() > u32::MAX - 4 {
            return Err(MetadataError::CounterExhausted);
        }
        if name.len() / 64 >= 0xffff_ffff {
            return Err(MetadataError::NameTooLong);
        }
        let ghost k = cipher@.key;
        let ghost pre = cipher@.prefix;
        let ghost pos = cipher@.position;
        let len_bytes = le64_bytes(name.len() as u64);
        let size_bytes = le64_bytes(self.size);
        let mut w = match write_encrypted(cipher, len_bytes.as_slice()) {
            Ok(c) => c,
            Err(e) => return Err(frame_error(e)),
        };
        let mut c1 = match write_encrypted(cipher, name) {
            Ok(c) => c,
            Err(e) => return Err(frame_error(e)),
        };
        let mut c2 = match write_encrypted(cipher, size_bytes.as_slice()) {
            Ok(c) => c,
            Err(e) => return Err(frame_error(e)),
        };
        let mut c3 = match write_encrypted(cipher, self.hash.as_slice()) {
            Ok(c) => c,
            Err(e) => return Err(frame_error(e)),
        };
        let ghost s0 = w@;
        let ghost s1 = c1@;
        let ghost s2 = c2@;
        let ghost s3 = c3@;
        w.append(&mut c1);
        w.append(&mut c2);
        w.append(&mut c3);
        proof {
            let n = name@.len() as int;
            assert(w@.take(24) =~= s0);
            let rest = w@.skip(24);
            assert(rest.take(n + 16) =~= s1);
            assert(rest.subrange(n + 16, n + 40) =~= s2);
            assert(rest.subrange(n + 40, n + 88) =~= s3);
        }
        Ok(w)
    }
}

/// Opens the header's first frame, which holds the name's length in bytes.
pub fn read_name_len(cipher: &mut FrameDecoder, frame: &[u8]) -> (r: Result<u64, MetadataError>)
    requires
        old(cipher).wf(),
    ensures
        final(cipher).wf(),
        final(cipher)@.key == old(cipher)@.key,
        final(cipher)@.prefix == old(cipher)@.prefix,
        r matches Ok(n) ==> frame@.len() == 24 && sealed_frame(
            old(cipher)@.key,
            old(cipher)@.prefix,
            old(cipher)@.position,
            false,
            le64(n),
        ) == frame@ && final(cipher)@.position == old(cipher)@.position + 1,
        forall|n: u64|
            #![trigger sealed_frame(old(cipher)@.key, old(cipher)@.prefix, old(cipher)@.position, false, le64(n))]
            old(cipher)@.position < u32::MAX && frame@.len() == 24 && sealed_frame(
                old(cipher)@.key,
                old(cipher)@.prefix,
                old(cipher)@.position,
                false,
                le64(n),
            ) == frame@ ==> r == Ok::<u64, MetadataError>(n),
        r is Err ==> final(cipher)@ == old(cipher)@,
{
    if frame.len() != 24 {
        return Err(MetadataError::Malformed);
    }
    let plain = match read_decrypted(cipher, frame) {
        Ok(p) => p,
        Err(e) => {
            proof {
                assert forall|n: u64|
                    #![trigger le64(n)]
                    old(cipher)@.position < u32::MAX && sealed_frame(
                        old(cipher)@.key,
                        old(cipher)@.prefix,
                        old(cipher)@.position,
                        false,
                        le64(n),
                    ) == frame@ implies false by {
                    assert(aead_len_ok(le64(n).len()));
                }
            }
            return Err(frame_error(e));
        },
    };
    let n = read_le64(plain.as_slice());
    proof {
        assert forall|x: u64|
            #![trigger le64(x)]
            old(cipher)@.position < u32::MAX && sealed_frame(
                old(cipher)@.key,
                old(cipher)@.prefix,
                old(cipher)@.position,
                false,
                le64(x),
            ) == frame@ implies x == n by {
            assert(aead_len_ok(le64(x).len()));
            lemma_le64_injective(x, n);
        }
    }
    Ok(n)
}

impl TransferMetadata {
    /// Opens the name, size and hash frames of a header whose name is
    /// `name_len` bytes long; the name must be valid UTF-8.
    pub fn decode_rest(cipher: &mut FrameDecoder, name_len: u64, rest: &[u8]) -> (r: Result<
        TransferMetadata,
        MetadataError,
    >)
        requires
            old(cipher).wf(),
        ensures
            final(cipher).wf(),
            final(cipher)@.key == old(cipher)@.key,
            final(cipher)@.prefix == old(cipher)@.prefix,
            r matches Ok(md) ==> md@.wf() && md@.name_bytes().len() == name_len && rest_matches(
                old(cipher)@.key,
                old(cipher)@.prefix,
                old(cipher)@.position,
                md@,
                rest@,
            ) && final(cipher)@.position == old(cipher)@.position + 3,
            forall|md: MetadataView|
                #![trigger rest_matches(old(cipher)@.key, old(cipher)@.prefix, old(cipher)@.position, md, rest@)]
                md.wf() && md.name_bytes().len() == name_len && old(cipher)@.position + 3
                    <= u32::MAX && rest_matches(
                    old(cipher)@.key,
                    old(cipher)@.prefix,
                    old(cipher)@.position,
                    md,
                    rest@,
                ) ==> r is Ok && r.unwrap()@ == md,
    {
        broadcast use encode_utf8_valid_utf8, encode_utf8_decode_utf8;

        let ghost k = cipher@.key;
        let ghost pre = cipher@.prefix;
        let ghost pos = cipher@.position;
        let ghost r0 = rest@;
        if name_len > rest.len() as u64 || rest.len() - (name_len as usize) != 88 {
            return Err(MetadataError::Malformed);
        }
        let n = name_len as usize;
        let name_frame = &rest[0..n + 16];
        let size_frame = &rest[n + 16..n + 40];
        let hash_frame = &rest[n + 40..n + 88];
        proof {
            assert(name_frame@ =~= r0.take(n + 16));
            assert(size_frame@ =~= r0.subrange(n + 16, n + 40));
            assert(hash_frame@ =~= r0.subrange(n + 40, n + 88));
        }
        let name_plain = match read_decrypted(cipher, name_frame) {
            Ok(p) => p,
            Err(e) => {
                proof {
                    assert forall|md: MetadataView|
                        #![trigger rest_matches(k, pre, pos, md, r0)]
                        md.wf() && md.name_bytes().len() == name_len && pos + 3 <= u32::MAX
                            && rest_matches(k, pre, pos, md, r0) implies false by {
                        assert(sealed_frame(k, pre, pos, false, md.name_bytes()) == name_frame@);
                    }
                }
                return Err(frame_error(e));
            },
        };
        let ghost name_seq = name_plain@;
        let name = match string_from_utf8(name_plain) {
            Some(s) => s,
            None => {
                proof {
                    assert forall|md: MetadataView|
                        #![trigger rest_matches(k, pre, pos, md, r0)]
                        md.wf() && md.name_bytes().len() == name_len && pos + 3 <= u32::MAX
                            && rest_matches(k, pre, pos, md, r0) implies false by {
                        assert(sealed_frame(k, pre, pos, false, md.name_bytes()) == name_frame@);
                    }
                }
                return Err(MetadataError::InvalidName);
            },
        };
        let size_plain = match read_decrypted(cipher, size_frame) {
            Ok(p) => p,
            Err(e) => {
                proof {
                    assert forall|md: MetadataView|
                        #![trigger rest_matches(k, pre, pos, md, r0)]
                        md.wf() && md.name_bytes().len() == name_len && pos + 3 <= u32::MAX
                            && rest_matches(k, pre, pos, md, r0) implies false by {
                        assert(sealed_frame(k, pre, pos + 1, false, le64(md.size)) == size_frame@);
                        assert(aead_len_ok(le64(md.size).len()));
                    }
                }
                return Err(frame_error(e));
            },
        };
        let hash_plain = match read_decrypted(cipher, hash_frame) {
            Ok(p) => p,
            Err(e) => {
                proof {
                    assert forall|md: MetadataView|
                        #![trigger rest_matches(k, pre, pos, md, r0)]
                        md.wf() && md.name_bytes().len() == name_len && pos + 3 <= u32::MAX
                            && rest_matches(k, pre, pos, md, r0) implies false by {
                        assert(sealed_frame(k, pre, pos + 2, false, md.hash) == hash_frame@);
                        assert(aead_len_ok(md.hash.len()));
                    }
                }
                return Err(frame_error(e));
            },
        };
        let size = read_le64(size_plain.as_slice());
        let md = TransferMetadata { name, size, hash: hash_plain };
        proof {
            assert forall|m: MetadataView|
                #![trigger rest_matches(k, pre, pos, m, r0)]
                m.wf() && m.name_bytes().len() == name_len && pos + 3 <= u32::MAX && rest_matches(
                    k,
                    pre,
                    pos,
                    m,
                    r0,
                ) implies md@ == m by {
                assert(sealed_frame(k, pre, pos, false, m.name_bytes()) == name_frame@);
                assert(sealed_frame(k, pre, pos + 1, false, le64(m.size)) == size_frame@);
                assert(sealed_frame(k, pre, pos + 2, false, m.hash) == hash_frame@);
                assert(aead_len_ok(le64(m.size).len()));
                assert(aead_len_ok(m.hash.len()));
                assert(decode_utf8(encode_utf8(md.name@)) == decode_utf8(encode_utf8(m.name)));
                lemma_le64_injective(md.size, m.size);
            }
        }
        Ok(md)
    }

    /// Opens a whole header: its length frame, then the rest.
    pub fn decode(cipher: &mut FrameDecoder, wire: &[u8]) -> (r: Result<
        TransferMetadata,
        MetadataError,
    >)
        requires
            old(cipher).wf(),
        ensures
            final(cipher).wf(),
            final(cipher)@.key == old(cipher)@.key,
            final(cipher)@.prefix == old(cipher)@.prefix,
            r matches Ok(md) ==> md@.wf() && metadata_matches(
                old(cipher)@.key,
                old(cipher)@.prefix,
                old(cipher)@.position,
                md@,
                wire@,
            ) && final(cipher)@.position == old(cipher)@.position + 4,
            forall|md: MetadataView|
                #![trigger metadata_matches(old(cipher)@.key, old(cipher)@.prefix, old(cipher)@.position, md, wire@)]
                md.wf() && old(cipher)@.position + 4 <= u32::MAX && metadata_matches(
                    old(cipher)@.key,
                    old(cipher)@.prefix,
                    old(cipher)@.position,
                    md,
                    wire@,
                ) ==> r is Ok && r.unwrap()@ == md,
    {
        let ghost k = cipher@.key;
        let ghost pre = cipher@.prefix;
        let ghost pos = cipher@.position;
        let ghost w = wire@;
        if wire.len() < 24 {
            return Err(MetadataError::Malformed);
        }
        let first = &wire[0..24];
        let rest = &wire[24..wire.len()];
        proof {
            assert(first@ =~= w.take(24));
            assert(rest@ =~= w.skip(24));
        }
        let n = match read_name_len(cipher, first) {
            Ok(n) => n,
            Err(e) => {
                proof {
                    assert forall|md: MetadataView|
                        #![trigger metadata_matches(k, pre, pos, md, w)]
                        md.wf() && pos + 4 <= u32::MAX && metadata_matches(k, pre, pos, md, w)
                            implies false by {
                        let x = md.name_bytes().len() as u64;
                        assert(sealed_frame(k, pre, pos, false, le64(x)) == first@);
                    }
                }
                return Err(e);
            },
        };
        proof {
            assert forall|md: MetadataView|
                #![trigger metadata_matches(k, pre, pos, md, w)]
                md.wf() && pos + 4 <= u32::MAX && metadata_matches(k, pre, pos, md, w)
                    implies md.name_bytes().len() == n && rest_matches(k, pre, pos + 1, md, rest@) by {
                let x = md.name_bytes().len() as u64;
                assert(sealed_frame(k, pre, pos, false, le64(x)) == first@);
            }
        }
        TransferMetadata::decode_rest(cipher, n, rest)
    }
}

/// A header has one sealed form for a given key, prefix and position: bytes
/// that differ from it in any place never open to that header.
pub proof fn lemma_header_is_unique(
    key: Seq<u8>,
    prefix: Seq<u8>,
    position: nat,
    md: MetadataView,
    w1: Seq<u8>,
    w2: Seq<u8>,
)
    requires
        metadata_matches(key, prefix, position, md, w1),
        metadata_matches(key, prefix, position, md, w2),
    ensures
        w1 == w2,
{
    let n = md.name_bytes().len() as int;
    let r1 = w1.skip(24);
    let r2 = w2.skip(24);
    assert(r1 =~= r1.take(n + 16) + r1.subrange(n + 16, n + 40) + r1.subrange(n + 40, n + 88));
    assert(r2 =~= r2.take(n + 16) + r2.subrange(n + 16, n + 40) + r2.subrange(n + 40, n + 88));
    assert(w1 =~= w1.take(24) + r1);
    assert(w2 =~= w2.take(24) + r2);
}

/// The number of bytes after the first header frame, for a name of
/// `name_len` bytes, where that fits in memory.
pub fn rest_len(name_len: u64) -> (r: Option<usize>)
    ensures
        r matches Some(n) ==> n == name_len + 88,
        r is None <==> name_len + 88 > usize::MAX,
{
    if name_len > (usize::MAX - 88) as u64 {
        None
    } else {
        Some(name_len as usize + 88)
    }
}

} // verus!

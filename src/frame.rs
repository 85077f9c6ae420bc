//! Streaming authenticated framing: plaintext is cut into frames of at most
//! 500 bytes, each sealed under `prefix || big-endian counter || last flag`.
use crate::aead::{aead_decrypt, aead_encrypt, aead_len_ok, aead_seal};
use vstd::prelude::*;

verus! {

pub const FRAME_LEN: usize = 500;

pub const TAG_LEN: usize = 16;

pub const SEALED_FRAME_LEN: usize = 516;

pub const KEY_LEN: usize = 32;

pub const PREFIX_LEN: usize = 19;

/// Why a frame could not be sealed or opened.
#[derive(Debug, Clone, Copy, PartialEq, Eq, Structural)]
pub enum FrameError {
    /// The 32-bit frame counter has no value left for another frame.
    CounterExhausted,
    /// The cipher refuses a message of this length.
    TooLong,
    /// A frame failed authentication: the stream was altered, cut short or
    /// sealed under another key.
    Authentication,
}

/// What a cipher state holds: session key, nonce prefix and the counter of the
/// next frame.
pub ghost struct CipherView {
    pub key: Seq<u8>,
    pub prefix: Seq<u8>,
    pub position: nat,
}

impl CipherView {
    pub open spec fn wf(self) -> bool {
        self.key.len() == KEY_LEN && self.prefix.len() == PREFIX_LEN && self.position
            <= u32::MAX
    }
}

/// The four big-endian bytes of a 32-bit counter.
pub open spec fn be32(n: nat) -> Seq<u8> {
    seq![
        (n / 0x100_0000 % 256) as u8,
        (n / 0x1_0000 % 256) as u8,
        (n / 0x100 % 256) as u8,
        (n % 256) as u8,
    ]
}

/// The 24-byte nonce of the frame at `position`.
pub open spec fn frame_nonce(prefix: Seq<u8>, position: nat, last: bool) -> Seq<u8> {
    prefix + be32(position) + seq![if last { 1u8 } else { 0u8 }]
}

/// The wire form of one frame.
pub open spec fn sealed_frame(
    key: Seq<u8>,
    prefix: Seq<u8>,
    position: nat,
    last: bool,
    plaintext: Seq<u8>,
) -> Seq<u8> {
    aead_seal(key, frame_nonce(prefix, position, last), plaintext)
}

/// `wire` is the sealing of the message `m`, starting at frame `position`:
/// full frames of 500 bytes while at least 500 bytes remain, then one final
/// frame of 0 to 499 bytes that carries the last flag.
pub open spec fn body_matches(
    key: Seq<u8>,
    prefix: Seq<u8>,
    position: nat,
    m: Seq<u8>,
    wire: Seq<u8>,
) -> bool
    decreases m.len(),
{
    if m.len() < FRAME_LEN {
        wire.len() == m.len() + TAG_LEN && sealed_frame(key, prefix, position, true, m) == wire
    } else {
        wire.len() >= SEALED_FRAME_LEN && sealed_frame(
            key,
            prefix,
            position,
            false,
            m.take(FRAME_LEN as int),
        ) == wire.take(SEALED_FRAME_LEN as int) && body_matches(
            key,
            prefix,
            position + 1,
            m.skip(FRAME_LEN as int),
            wire.skip(SEALED_FRAME_LEN as int),
        )
    }
}

/// A message of `n` bytes fits in the counters left from `position` on.
pub open spec fn body_fits(position: nat, n: nat) -> bool {
    position + n / FRAME_LEN as nat <= u32::MAX
}

/// The sending half of a session's framing.
pub struct FrameEncoder {
    key: Vec<u8>,
    prefix: Vec<u8>,
    position: u32,
}

/// The receiving half of a session's framing.
pub struct FrameDecoder {
    key: Vec<u8>,
    prefix: Vec<u8>,
    position: u32,
}

impl View for FrameEncoder {
    type V = CipherView;

    closed spec fn view(&self) -> CipherView {
        CipherView { key: self.key@, prefix: self.prefix@, position: self.position as nat }
    }
}

impl View for FrameDecoder {
    type V = CipherView;

    closed spec fn view(&self) -> CipherView {
        CipherView { key: self.key@, prefix: self.prefix@, position: self.position as nat }
    }
}

fn frame_nonce_bytes(prefix: &Vec<u8>, position: u32, last: bool) -> (r: Vec<u8>)
    ensures
        r@ == frame_nonce(prefix@, position as nat, last),
{
    let mut r = prefix.clone();
    r.push((position / 0x100_0000 % 256) as u8);
    r.push((position / 0x1_0000 % 256) as u8);
    r.push((position / 0x100 % 256) as u8);
    r.push((position % 256) as u8);
    r.push(if last { 1u8 } else { 0u8 });
    assert(r@ =~= frame_nonce(prefix@, position as nat, last));
    r
}

fn seal_at(key: &Vec<u8>, prefix: &Vec<u8>, position: u32, last: bool, plaintext: &[u8]) -> (r:
    Result<Vec<u8>, FrameError>)
    requires
        key@.len() == KEY_LEN,
        prefix@.len() == PREFIX_LEN,
    ensures
        r is Ok <==> aead_len_ok(plaintext@.len()),
        r matches Ok(c) ==> c@ == sealed_frame(key@, prefix@, position as nat, last, plaintext@)
            && c@.len() == plaintext@.len() + TAG_LEN,
        r matches Err(e) ==> e == FrameError::TooLong,
{
    let nonce = frame_nonce_bytes(prefix, position, last);
    match aead_encrypt(key.as_slice(), nonce.as_slice(), plaintext) {
        Some(c) => Ok(c),
        None => Err(FrameError::TooLong),
    }
}

fn open_at(key: &Vec<u8>, prefix: &Vec<u8>, position: u32, last: bool, frame: &[u8]) -> (r:
    Result<Vec<u8>, FrameError>)
    requires
        key@.len() == KEY_LEN,
        prefix@.len() == PREFIX_LEN,
    ensures
        r matches Ok(p) ==> p@.len() + TAG_LEN == frame@.len() && aead_len_ok(p@.len()) && sealed_frame(
            key@,
            prefix@,
            position as nat,
            last,
            p@,
        ) == frame@,
        forall|p: Seq<u8>|
            #![trigger sealed_frame(key@, prefix@, position as nat, last, p)]
            p.len() + TAG_LEN == frame@.len() && aead_len_ok(p.len()) && sealed_frame(
                key@,
                prefix@,
                position as nat,
                last,
                p,
            ) == frame@ ==> r is Ok && r.unwrap()@ == p,
        r matches Err(e) ==> e == FrameError::Authentication,
{
    let nonce = frame_nonce_bytes(prefix, position, last);
    match aead_decrypt(key.as_slice(), nonce.as_slice(), frame) {
        Some(p) => Ok(p),
        None => Err(FrameError::Authentication),
    }
}

impl FrameEncoder {
    pub fn new(key: Vec<u8>, prefix: Vec<u8>) -> (r: FrameEncoder)
        requires
            key@.len() == KEY_LEN,
            prefix@.len() == PREFIX_LEN,
        ensures
            r@ == (CipherView { key: key@, prefix: prefix@, position: 0 }),
    {
        FrameEncoder { key, prefix, position: 0 }
    }

    /// The counter of the next frame.
    pub fn position(&self) -> (r: u32)
        ensures
            r == self@.position,
    {
        self.position
    }

    pub open spec fn wf(&self) -> bool {
        self@.wf()
    }
}

impl FrameDecoder {
    pub fn new(key: Vec<u8>, prefix: Vec<u8>) -> (r: FrameDecoder)
        requires
            key@.len() == KEY_LEN,
            prefix@.len() == PREFIX_LEN,
        ensures
            r@ == (CipherView { key: key@, prefix: prefix@, position: 0 }),
    {
        FrameDecoder { key, prefix, position: 0 }
    }

    /// The counter of the next frame.
    pub fn position(&self) -> (r: u32)
        ensures
            r == self@.position,
    {
        self.position
    }

    pub open spec fn wf(&self) -> bool {
        self@.wf()
    }
}

/// Seals `buf` as the next (not final) frame and returns its wire form.
pub fn write_encrypted(cipher: &mut FrameEncoder, buf: &[u8]) -> (r: Result<Vec<u8>, FrameError>)
    requires
        old(cipher).wf(),
    ensures
        final(cipher).wf(),
        final(cipher)@.key == old(cipher)@.key,
        final(cipher)@.prefix == old(cipher)@.prefix,
        r is Ok <==> old(cipher)@.position < u32::MAX && aead_len_ok(buf@.len()),
        r == Err::<Vec<u8>, FrameError>(FrameError::CounterExhausted) <==> old(cipher)@.position
            == u32::MAX,
        r matches Ok(c) ==> c@ == sealed_frame(
            old(cipher)@.key,
            old(cipher)@.prefix,
            old(cipher)@.position,
            false,
            buf@,
        ) && c@.len() == buf@.len() + TAG_LEN && final(cipher)@.position == old(cipher)@.position
            + 1,
        r is Err ==> final(cipher)@ == old(cipher)@,
{
    if cipher.position == u32::MAX {
        return Err(FrameError::CounterExhausted);
    }
    let c = seal_at(&cipher.key, &cipher.prefix, cipher.position, false, buf)?;
    cipher.position = cipher.position + 1;
    Ok(c)
}

/// Opens `frame` as the next (not final) frame and returns its plaintext.
pub fn read_decrypted(cipher: &mut FrameDecoder, frame: &[u8]) -> (r: Result<Vec<u8>, FrameError>)
    requires
        old(cipher).wf(),
    ensures
        final(cipher).wf(),
        final(cipher)@.key == old(cipher)@.key,
        final(cipher)@.prefix == old(cipher)@.prefix,
        r == Err::<Vec<u8>, FrameError>(FrameError::CounterExhausted) <==> old(cipher)@.position
            == u32::MAX,
        r matches Ok(p) ==> p@.len() + TAG_LEN == frame@.len() && aead_len_ok(p@.len()) && sealed_frame(
            old(cipher)@.key,
            old(cipher)@.prefix,
            old(cipher)@.position,
            false,
            p@,
        ) == frame@ && final(cipher)@.position == old(cipher)@.position + 1,
        forall|p: Seq<u8>|
            #![trigger sealed_frame(old(cipher)@.key, old(cipher)@.prefix, old(cipher)@.position, false, p)]
            old(cipher)@.position < u32::MAX && p.len() + TAG_LEN == frame@.len() && aead_len_ok(
                p.len(),
            ) && sealed_frame(old(cipher)@.key, old(cipher)@.prefix, old(cipher)@.position, false, p)
                == frame@ ==> r is Ok && r.unwrap()@ == p,
        r is Err ==> final(cipher)@ == old(cipher)@,
{
    if cipher.position == u32::MAX {
        return Err(FrameError::CounterExhausted);
    }
    let p = open_at(&cipher.key, &cipher.prefix, cipher.position, false, frame)?;
    cipher.position = cipher.position + 1;
    Ok(p)
}


proof fn lemma_body_step(
    key: Seq<u8>,
    prefix: Seq<u8>,
    position: nat,
    m: Seq<u8>,
    c: Seq<u8>,
    rest: Seq<u8>,
)
    requires
        m.len() >= FRAME_LEN,
        c.len() == SEALED_FRAME_LEN,
        sealed_frame(key, prefix, position, false, m.take(FRAME_LEN as int)) == c,
        body_matches(key, prefix, position + 1, m.skip(FRAME_LEN as int), rest),
    ensures
        body_matches(key, prefix, position, m, c + rest),
{
    assert((c + rest).take(SEALED_FRAME_LEN as int) =~= c);
    assert((c + rest).skip(SEALED_FRAME_LEN as int) =~= rest);
}

/// Seals the whole of `plaintext` from the encoder's position on, the final
/// frame included, and returns the wire bytes.
pub fn encrypt(plaintext: &[u8], cipher: FrameEncoder) -> (r: Result<Vec<u8>, FrameError>)
    requires
        cipher.wf(),
    ensures
        r is Ok <==> body_fits(cipher@.position, plaintext@.len()),
        r matches Err(e) ==> e == FrameError::CounterExhausted,
        r matches Ok(w) ==> body_matches(
            cipher@.key,
            cipher@.prefix,
            cipher@.position,
            plaintext@,
            w@,
        ),
{
    let ghost k = cipher@.key;
    let ghost pre = cipher@.prefix;
    let ghost pos0 = cipher@.position;
    let ghost m = plaintext@;
    let mut enc = cipher;
    let mut out: Vec<u8> = Vec::new();
    let mut i: usize = 0;
    proof {
        assert forall|rest: Seq<u8>|
            #![trigger body_matches(k, pre, pos0, m.skip(0), rest)]
            body_matches(k, pre, pos0, m.skip(0), rest) implies body_matches(
                k,
                pre,
                pos0,
                m,
                out@ + rest,
            ) by {
            assert(m.skip(0) =~= m);
            assert(out@ + rest =~= rest);
        }
    }
    while plaintext.len() - i >= FRAME_LEN
        invariant
            enc.wf(),
            enc@.key == k,
            enc@.prefix == pre,
            k == cipher@.key,
            pre == cipher@.prefix,
            pos0 == cipher@.position,
            m == plaintext@,
            i <= plaintext@.len(),
            i % FRAME_LEN == 0,
            enc@.position == pos0 + (i as nat) / (FRAME_LEN as nat),
            forall|rest: Seq<u8>|
                #![trigger body_matches(k, pre, enc@.position, m.skip(i as int), rest)]
                body_matches(k, pre, enc@.position, m.skip(i as int), rest) ==> body_matches(
                    k,
                    pre,
                    pos0,
                    m,
                    out@ + rest,
                ),
        decreases plaintext@.len() - i,
    {
        let ghost old_out = out@;
        let ghost old_pos = enc@.position;
        let sealed = write_encrypted(&mut enc, &plaintext[i..i + FRAME_LEN]);
        let c = match sealed {
            Ok(c) => c,
            Err(_) => {
                proof {
                    assert(aead_len_ok(FRAME_LEN as nat));
                    assert(old_pos == u32::MAX);
                    assert(!body_fits(pos0, m.len())) by {
                        assert(m.len() / FRAME_LEN as nat >= (i as nat) / (FRAME_LEN as nat) + 1) by (
                        nonlinear_arith)
                            requires
                                i + FRAME_LEN <= m.len(),
                                i % FRAME_LEN == 0,
                        ;
                    }
                }
                return Err(FrameError::CounterExhausted);
            },
        };
        proof {
            let s = m.skip(i as int);
            assert(s.take(FRAME_LEN as int) =~= plaintext@.subrange(i as int, i + FRAME_LEN));
            assert(s.skip(FRAME_LEN as int) =~= m.skip(i + FRAME_LEN));
            assert forall|rest: Seq<u8>|
                #![trigger body_matches(k, pre, old_pos + 1, m.skip(i + FRAME_LEN), rest)]
                body_matches(k, pre, old_pos + 1, m.skip(i + FRAME_LEN), rest) implies body_matches(
                    k,
                    pre,
                    pos0,
                    m,
                    old_out + c@ + rest,
                ) by {
                lemma_body_step(k, pre, old_pos, s, c@, rest);
                assert(old_out + c@ + rest =~= old_out + (c@ + rest));
            }
        }
        let mut c = c;
        out.append(&mut c);
        i = i + FRAME_LEN;
        proof {
            assert((i as nat) / (FRAME_LEN as nat) == ((i - FRAME_LEN) as nat) / (FRAME_LEN as nat) + 1) by (
            nonlinear_arith)
                requires
                    i >= FRAME_LEN,
            ;
        }
    }
    proof {
        assert(m.len() / FRAME_LEN as nat == (i as nat) / (FRAME_LEN as nat)) by (nonlinear_arith)
            requires
                i <= m.len() < i + FRAME_LEN,
                i % FRAME_LEN == 0,
        ;
    }
    let mut c = match seal_at(&enc.key, &enc.prefix, enc.position, true, &plaintext[i..plaintext.len()]) {
        Ok(c) => c,
        Err(e) => {
            return Err(e);
        },
    };
    proof {
        assert(plaintext@.subrange(i as int, plaintext@.len() as int) =~= m.skip(i as int));
        assert(body_matches(k, pre, enc@.position, m.skip(i as int), c@));
    }
    out.append(&mut c);
    Ok(out)
}

proof fn lemma_unfold_full(key: Seq<u8>, prefix: Seq<u8>, position: nat, m: Seq<u8>, w: Seq<u8>)
    requires
        body_matches(key, prefix, position, m, w),
        w.len() >= SEALED_FRAME_LEN,
    ensures
        m.len() >= FRAME_LEN,
        sealed_frame(key, prefix, position, false, m.take(FRAME_LEN as int)) == w.take(
            SEALED_FRAME_LEN as int,
        ),
        body_matches(key, prefix, position + 1, m.skip(FRAME_LEN as int), w.skip(SEALED_FRAME_LEN as int)),
{
}

proof fn lemma_unfold_last(key: Seq<u8>, prefix: Seq<u8>, position: nat, m: Seq<u8>, w: Seq<u8>)
    requires
        body_matches(key, prefix, position, m, w),
        w.len() < SEALED_FRAME_LEN,
    ensures
        m.len() < FRAME_LEN,
        w.len() == m.len() + TAG_LEN,
        sealed_frame(key, prefix, position, true, m) == w,
{
}

/// Opens a whole sealed stream from the decoder's position on: every frame
/// must authenticate and the stream must end with the frame that carries the
/// last flag. Exactly the wires that `encrypt` can give open, each to the
/// message it was sealed from.
#[verifier::rlimit(60)]
pub fn decrypt(wire: &[u8], cipher: FrameDecoder) -> (r: Result<Vec<u8>, FrameError>)
    requires
        cipher.wf(),
    ensures
        r matches Ok(p) ==> body_matches(cipher@.key, cipher@.prefix, cipher@.position, p@, wire@)
            && body_fits(cipher@.position, p@.len()),
        forall|m: Seq<u8>|
            #![trigger body_matches(cipher@.key, cipher@.prefix, cipher@.position, m, wire@)]
            body_matches(cipher@.key, cipher@.prefix, cipher@.position, m, wire@) && body_fits(
                cipher@.position,
                m.len(),
            ) ==> r is Ok && r.unwrap()@ == m,
{
    let ghost k = cipher@.key;
    let ghost pre = cipher@.prefix;
    let ghost pos0 = cipher@.position;
    let ghost w = wire@;
    let mut dec = cipher;
    let mut out: Vec<u8> = Vec::new();
    let mut j: usize = 0;
    proof {
        assert(w.skip(0) =~= w);
        assert forall|d: Seq<u8>|
            #![trigger body_matches(k, pre, pos0, d, w.skip(0))]
            body_matches(k, pre, pos0, d, w.skip(0)) implies body_matches(k, pre, pos0, out@ + d, w) by {
            assert(out@ + d =~= d);
        }
        assert forall|m: Seq<u8>|
            #![trigger body_matches(k, pre, pos0, m, w)]
            body_matches(k, pre, pos0, m, w) && body_fits(pos0, m.len()) implies m.take(0) == out@
                && m.skip(0) == m by {
            assert(m.take(0) =~= out@);
            assert(m.skip(0) =~= m);
        }
    }
    while wire.len() - j >= SEALED_FRAME_LEN
        invariant
            dec.wf(),
            dec@.key == k,
            dec@.prefix == pre,
            k == cipher@.key,
            pre == cipher@.prefix,
            pos0 == cipher@.position,
            w == wire@,
            j <= w.len(),
            pos0 <= dec@.position,
            out@.len() == (dec@.position - pos0) * FRAME_LEN,
            forall|d: Seq<u8>|
                #![trigger body_matches(k, pre, dec@.position, d, w.skip(j as int))]
                body_matches(k, pre, dec@.position, d, w.skip(j as int)) ==> body_matches(
                    k,
                    pre,
                    pos0,
                    out@ + d,
                    w,
                ),
            forall|m: Seq<u8>|
                #![trigger body_matches(k, pre, pos0, m, w)]
                body_matches(k, pre, pos0, m, w) && body_fits(pos0, m.len()) ==> m.len()
                    >= out@.len() && m.take(out@.len() as int) == out@ && body_matches(
                    k,
                    pre,
                    dec@.position,
                    m.skip(out@.len() as int),
                    w.skip(j as int),
                ) && body_fits(dec@.position, (m.len() - out@.len()) as nat),
        decreases w.len() - j,
    {
        let ghost pos = dec@.position;
        let ghost old_out = out@;
        let ghost rest = w.skip(j as int);
        let frame = &wire[j..j + SEALED_FRAME_LEN];
        proof {
            assert(frame@ =~= rest.take(SEALED_FRAME_LEN as int));
        }
        let opened = read_decrypted(&mut dec, frame);
        let p = match opened {
            Ok(p) => p,
            Err(e) => {
                proof {
                    assert forall|m: Seq<u8>|
                        #![trigger body_matches(k, pre, pos0, m, w)]
                        body_matches(k, pre, pos0, m, w) && body_fits(pos0, m.len()) implies false by {
                        let mr = m.skip(old_out.len() as int);
                        assert(mr.len() == m.len() - old_out.len());
                        lemma_unfold_full(k, pre, pos, mr, rest);
                        assert(aead_len_ok(FRAME_LEN as nat));
                        assert(pos < u32::MAX);
                        let q = mr.take(FRAME_LEN as int);
                        assert(sealed_frame(k, pre, pos, false, q) == frame@);
                    }
                }
                return Err(e);
            },
        };
        proof {
            assert(rest.skip(SEALED_FRAME_LEN as int) =~= w.skip(j + SEALED_FRAME_LEN));
            assert forall|d: Seq<u8>|
                #![trigger body_matches(k, pre, pos + 1, d, w.skip(j + SEALED_FRAME_LEN))]
                body_matches(k, pre, pos + 1, d, w.skip(j + SEALED_FRAME_LEN)) implies body_matches(
                    k,
                    pre,
                    pos0,
                    old_out + p@ + d,
                    w,
                ) by {
                let pd = p@ + d;
                assert(pd.take(FRAME_LEN as int) =~= p@);
                assert(pd.skip(FRAME_LEN as int) =~= d);
                assert(body_matches(k, pre, pos, pd, rest));
                assert(old_out + p@ + d =~= old_out + pd);
            }
            assert forall|m: Seq<u8>|
                #![trigger body_matches(k, pre, pos0, m, w)]
                body_matches(k, pre, pos0, m, w) && body_fits(pos0, m.len()) implies m.len()
                    >= old_out.len() + FRAME_LEN && m.take(old_out.len() + FRAME_LEN) == old_out
                    + p@ && body_matches(
                    k,
                    pre,
                    pos + 1,
                    m.skip(old_out.len() + FRAME_LEN),
                    w.skip(j + SEALED_FRAME_LEN),
                ) && body_fits(pos + 1, (m.len() - (old_out.len() + FRAME_LEN)) as nat) by {
                let mr = m.skip(old_out.len() as int);
                lemma_unfold_full(k, pre, pos, mr, rest);
                let q = mr.take(FRAME_LEN as int);
                assert(aead_len_ok(FRAME_LEN as nat));
                assert(sealed_frame(k, pre, pos, false, q) == frame@);
                assert(q == p@);
                assert(m.take(old_out.len() + FRAME_LEN) =~= m.take(old_out.len() as int) + q);
                assert(mr.skip(FRAME_LEN as int) =~= m.skip(old_out.len() + FRAME_LEN));
                let x = (m.len() - old_out.len()) as nat;
                assert(pos + x / (FRAME_LEN as nat) == pos + 1 + ((x - FRAME_LEN) as nat) / (
                FRAME_LEN as nat)) by (nonlinear_arith)
                    requires
                        x >= FRAME_LEN,
                ;
            }
        }
        let mut p = p;
        out.append(&mut p);
        j = j + SEALED_FRAME_LEN;
    }
    let ghost pos = dec@.position;
    let ghost rest = w.skip(j as int);
    let last = &wire[j..wire.len()];
    proof {
        assert(last@ =~= rest);
    }
    let opened = open_at(&dec.key, &dec.prefix, dec.position, true, last);
    let mut p = match opened {
        Ok(p) => p,
        Err(e) => {
            proof {
                assert forall|m: Seq<u8>|
                    #![trigger body_matches(k, pre, pos0, m, w)]
                    body_matches(k, pre, pos0, m, w) && body_fits(pos0, m.len()) implies false by {
                    let mr = m.skip(out@.len() as int);
                    lemma_unfold_last(k, pre, pos, mr, rest);
                    assert(aead_len_ok(mr.len()));
                }
            }
            return Err(e);
        },
    };
    let ghost old_out = out@;
    proof {
        assert(body_matches(k, pre, pos, p@, rest));
        assert(aead_len_ok(p@.len()));
        assert forall|m: Seq<u8>|
            #![trigger body_matches(k, pre, pos0, m, w)]
            body_matches(k, pre, pos0, m, w) && body_fits(pos0, m.len()) implies old_out + p@ == m by {
            let mr = m.skip(old_out.len() as int);
            lemma_unfold_last(k, pre, pos, mr, rest);
            assert(aead_len_ok(mr.len()));
            assert(mr == p@);
            assert(m =~= m.take(old_out.len() as int) + mr);
        }
        let f = (pos - pos0) as nat;
        assert(((f * FRAME_LEN + p@.len()) as nat) / (FRAME_LEN as nat) == f) by (nonlinear_arith)
            requires
                p@.len() < FRAME_LEN,
        ;
    }
    out.append(&mut p);
    Ok(out)
}

/// A message has one sealed form for a given key, prefix and starting
/// position: bytes that differ from it in any place never open to that message.
pub proof fn lemma_sealing_is_unique(
    key: Seq<u8>,
    prefix: Seq<u8>,
    position: nat,
    m: Seq<u8>,
    w1: Seq<u8>,
    w2: Seq<u8>,
)
    requires
        body_matches(key, prefix, position, m, w1),
        body_matches(key, prefix, position, m, w2),
    ensures
        w1 == w2,
    decreases m.len(),
{
    if m.len() >= FRAME_LEN {
        lemma_sealing_is_unique(
            key,
            prefix,
            position + 1,
            m.skip(FRAME_LEN as int),
            w1.skip(SEALED_FRAME_LEN as int),
            w2.skip(SEALED_FRAME_LEN as int),
        );
        assert(w1 =~= w1.take(SEALED_FRAME_LEN as int) + w1.skip(SEALED_FRAME_LEN as int));
        assert(w2 =~= w2.take(SEALED_FRAME_LEN as int) + w2.skip(SEALED_FRAME_LEN as int));
    }
}

} // verus!

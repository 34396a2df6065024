//! The encrypted session format.
//!
//! Current: `TTEC2\n`, a prefix of 4 bytes, then frames, each a length of 4 bytes (big endian)
//! and that many bytes of ciphertext. The nonce of frame `k` is the prefix followed by `k` in 8
//! bytes, big endian.
//!
//! Legacy: `TTEC1\n`, then frames, each a length of 4 bytes, a nonce of 12 and the ciphertext.

use crate::format::{decimal, push_u64};
use crate::outside::{
    aes256_gcm_open, aes256_gcm_seal, fill_random, key_fits, lossy, lossy_text, open, read_u32_be,
    seal, write_u32_be,
};
use crate::text::{copy_bytes, push_bytes, same_bytes};
use vstd::prelude::*;
use vstd::string::*;

verus! {

/// `TTEC2\n`
pub const MAGIC: [u8; 6] = [0x54, 0x54, 0x45, 0x43, 0x32, 0x0a];

/// `TTEC1\n`
pub const MAGIC_V1: [u8; 6] = [0x54, 0x54, 0x45, 0x43, 0x31, 0x0a];

pub const KEY_SIZE: usize = 32;

/// The most plaintext that one frame holds.
pub const CHUNK_SIZE: usize = 32768;

/// The most ciphertext that one frame holds: a chunk and its tag.
pub const MAX_CT_LEN: usize = 32784;

/// The longest legacy frame.
pub const MAX_FRAME_V1: usize = 1048576;

/// Why a key or a stream is refused.
#[derive(Debug, Clone, Copy, PartialEq, Eq, Structural)]
pub enum CryptoError {
    /// The key does not have the size that the cipher takes.
    InvalidKey,
    /// A key file holds this many bytes.
    WrongKeySize(usize),
    /// The cipher did not encrypt a frame.
    EncryptFrame,
    /// The stream ends inside its header.
    UnexpectedEof,
    /// A frame announces this length.
    InvalidFrameLength(usize),
    /// The frame with this number does not authenticate.
    AuthenticationFailed(u64),
    /// A legacy frame announces this length.
    InvalidFrameLengthV1(usize),
    /// A legacy frame does not authenticate.
    AuthenticationFailedV1,
}

/// What a stream turned out to be.
#[derive(Debug, Clone, Copy, PartialEq, Eq, Structural)]
pub enum Format {
    V2,
    V1,
    /// No magic header: the bytes are passed on as they are.
    Plain,
}

/// The number that four bytes stand for, the most significant first.
pub open spec fn be32_value(s: Seq<u8>) -> int {
    s[0] * 0x100_0000 + s[1] * 0x1_0000 + s[2] * 0x100 + s[3]
}

/// `n` in four bytes, the most significant first.
pub open spec fn be32(n: int) -> Seq<u8> {
    seq![
        (n / 0x100_0000 % 0x100) as u8,
        (n / 0x1_0000 % 0x100) as u8,
        (n / 0x100 % 0x100) as u8,
        (n % 0x100) as u8,
    ]
}

/// `k` in eight bytes, the most significant first.
pub open spec fn be64(k: int) -> Seq<u8> {
    be32(k / 0x1_0000_0000) + be32(k % 0x1_0000_0000)
}

/// The nonce of frame `k`.
pub open spec fn nonce(prefix: Seq<u8>, k: int) -> Seq<u8> {
    prefix + be64(k)
}

/// Frame `k`, which holds `chunk`.
pub open spec fn frame(key: Seq<u8>, prefix: Seq<u8>, k: int, chunk: Seq<u8>) -> Seq<u8> {
    let ct = aes256_gcm_seal(key, nonce(prefix, k), chunk);
    be32(ct.len() as int) + ct
}

/// The frames from number `k` on that hold `chunks`.
pub open spec fn frames(key: Seq<u8>, prefix: Seq<u8>, k: int, chunks: Seq<Seq<u8>>) -> Seq<u8>
    decreases chunks.len(),
{
    if chunks.len() == 0 {
        Seq::empty()
    } else {
        frame(key, prefix, k, chunks[0]) + frames(key, prefix, k + 1, chunks.drop_first())
    }
}

/// The stream that holds `chunks`.
pub open spec fn sealed(key: Seq<u8>, prefix: Seq<u8>, chunks: Seq<Seq<u8>>) -> Seq<u8> {
    MAGIC@ + prefix + frames(key, prefix, 0, chunks)
}

/// `data` cut into pieces of `CHUNK_SIZE` bytes; the last may be shorter, none is empty.
pub open spec fn chunks_of(data: Seq<u8>) -> Seq<Seq<u8>>
    decreases data.len(),
{
    if data.len() == 0 {
        Seq::empty()
    } else if data.len() <= CHUNK_SIZE {
        seq![data]
    } else {
        seq![data.take(CHUNK_SIZE as int)] + chunks_of(data.skip(CHUNK_SIZE as int))
    }
}

/// What is written of the frames `s`, numbered from `k`, and how reading them ends. A stream that
/// is cut short ends well, with what its whole frames hold.
pub open spec fn open_frames(key: Seq<u8>, prefix: Seq<u8>, k: int, s: Seq<u8>) -> (
    Seq<u8>,
    Result<(), CryptoError>,
)
    decreases s.len(),
{
    let n = be32_value(s);
    if s.len() < 4 {
        (Seq::empty(), Ok(()))
    } else if n < 16 || n > MAX_CT_LEN {
        (Seq::empty(), Err(CryptoError::InvalidFrameLength(n as usize)))
    } else if s.len() < 4 + n {
        (Seq::empty(), Ok(()))
    } else {
        match aes256_gcm_open(key, nonce(prefix, k), s.subrange(4, 4 + n)) {
            None => (Seq::empty(), Err(CryptoError::AuthenticationFailed(k as u64))),
            Some(pt) => {
                let rest = open_frames(key, prefix, k + 1, s.skip(4 + n));
                (pt + rest.0, rest.1)
            },
        }
    }
}

/// The same of legacy frames, each of which carries its nonce.
pub open spec fn open_frames_v1(key: Seq<u8>, s: Seq<u8>) -> (Seq<u8>, Result<(), CryptoError>)
    decreases s.len(),
{
    let n = be32_value(s);
    if s.len() < 4 {
        (Seq::empty(), Ok(()))
    } else if n < 12 || n > MAX_FRAME_V1 {
        (Seq::empty(), Err(CryptoError::InvalidFrameLengthV1(n as usize)))
    } else if s.len() < 4 + n {
        (Seq::empty(), Ok(()))
    } else {
        match aes256_gcm_open(key, s.subrange(4, 16), s.subrange(16, 4 + n)) {
            None => (Seq::empty(), Err(CryptoError::AuthenticationFailedV1)),
            Some(pt) => {
                let rest = open_frames_v1(key, s.skip(4 + n));
                (pt + rest.0, rest.1)
            },
        }
    }
}

/// Attaches what a stream was to how reading it ended.
pub open spec fn ended(format: Format, end: Result<(), CryptoError>) -> Result<Format, CryptoError> {
    match end {
        Ok(()) => Ok(format),
        Err(e) => Err(e),
    }
}

/// What is written of the stream `s`, and how reading it ends.
pub open spec fn opened(key: Seq<u8>, s: Seq<u8>) -> (Seq<u8>, Result<Format, CryptoError>) {
    if key.len() != KEY_SIZE {
        (Seq::empty(), Err(CryptoError::InvalidKey))
    } else if s.len() < 6 {
        (Seq::empty(), Err(CryptoError::UnexpectedEof))
    } else if s.take(6) == MAGIC_V1@ {
        let r = open_frames_v1(key, s.skip(6));
        (r.0, ended(Format::V1, r.1))
    } else if s.take(6) != MAGIC@ {
        (s, Ok(Format::Plain))
    } else if s.len() < 10 {
        (Seq::empty(), Err(CryptoError::UnexpectedEof))
    } else {
        let r = open_frames(key, s.subrange(6, 10), 0, s.skip(10));
        (r.0, ended(Format::V2, r.1))
    }
}

/// Whether `data` begins with one of the two magic headers.
pub open spec fn encrypted(data: Seq<u8>) -> bool {
    MAGIC@.is_prefix_of(data) || MAGIC_V1@.is_prefix_of(data)
}

/// Whether `data` is an encrypted stream, by its first bytes.
pub fn is_encrypted(data: &[u8]) -> (r: bool)
    ensures
        r == encrypted(data@),
{
    if data.len() < 6 {
        return false;
    }
    let head = vstd::slice::slice_subrange(data, 0, 6);
    proof {
        assert(head@ =~= data@.take(6));
        assert(MAGIC@.is_prefix_of(data@) <==> data@.take(6) =~= MAGIC@);
        assert(MAGIC_V1@.is_prefix_of(data@) <==> data@.take(6) =~= MAGIC_V1@);
    }
    same_bytes(head, MAGIC.as_slice()) || same_bytes(head, MAGIC_V1.as_slice())
}

/// `k` in eight bytes, the most significant first.
fn counter_bytes(k: u64) -> (r: Vec<u8>)
    ensures
        r@ == be64(k as int),
{
    let high: u32 = (k / 0x1_0000_0000) as u32;
    let low: u32 = (k % 0x1_0000_0000) as u32;
    let mut out: Vec<u8> = Vec::new();
    let _ = write_u32_be(&mut out, high);
    let _ = write_u32_be(&mut out, low);
    proof {
        lemma_be32_bytes(high);
        lemma_be32_bytes(low);
        assert(out@ =~= be64(k as int));
    }
    out
}

/// What `write_u32_be` appends is `be32`.
proof fn lemma_be32_bytes(n: u32)
    ensures
        seq![
            (n / 0x100_0000) as u8,
            (n / 0x1_0000 % 0x100) as u8,
            (n / 0x100 % 0x100) as u8,
            (n % 0x100) as u8,
        ] == be32(n as int),
{
    assert(n / 0x100_0000 < 0x100);
    assert(seq![
        (n / 0x100_0000) as u8,
        (n / 0x1_0000 % 0x100) as u8,
        (n / 0x100 % 0x100) as u8,
        (n % 0x100) as u8,
    ] =~= be32(n as int));
}

/// Four bytes give back the number that they were made of.
pub proof fn lemma_be32_value(n: int)
    requires
        0 <= n < 0x1_0000_0000,
    ensures
        be32_value(be32(n)) == n,
{
    let a = n / 0x100_0000 % 0x100;
    let b = n / 0x1_0000 % 0x100;
    let c = n / 0x100 % 0x100;
    let d = n % 0x100;
    assert(be32(n)[0] == a && be32(n)[1] == b && be32(n)[2] == c && be32(n)[3] == d);
    assert(a * 0x100_0000 + b * 0x1_0000 + c * 0x100 + d == n);
}

/// The nonce of frame `k`.
fn nonce_bytes(prefix: &[u8], k: u64) -> (r: Vec<u8>)
    requires
        prefix@.len() == 4,
    ensures
        r@ == nonce(prefix@, k as int),
        r@.len() == 12,
{
    let mut out = copy_bytes(prefix);
    push_bytes(&mut out, counter_bytes(k).as_slice());
    out
}

/// Seals the chunks of one stream, one after the other.
pub struct FrameSealer<'a> {
    key: &'a [u8],
    prefix: [u8; 4],
    counter: u64,
}

impl<'a> FrameSealer<'a> {
    pub closed spec fn wf(&self) -> bool {
        self.key@.len() == KEY_SIZE
    }

    pub closed spec fn key(&self) -> Seq<u8> {
        self.key@
    }

    pub closed spec fn prefix(&self) -> Seq<u8> {
        self.prefix@
    }

    /// How many frames were sealed.
    pub closed spec fn counter(&self) -> u64 {
        self.counter
    }

    /// Begins a stream. The key must have the size that the cipher takes.
    pub fn start(key: &'a [u8], prefix: [u8; 4]) -> (r: Result<Self, CryptoError>)
        ensures
            r is Ok <==> key@.len() == KEY_SIZE,
            r matches Ok(s) ==> s.wf() && s.key() == key@ && s.prefix() == prefix@ && s.counter()
                == 0,
            r matches Err(e) ==> e == CryptoError::InvalidKey,
    {
        if !key_fits(key) {
            return Err(CryptoError::InvalidKey);
        }
        Ok(FrameSealer { key, prefix, counter: 0 })
    }

    /// Begins a stream, with a prefix that is drawn for it.
    pub fn begin(key: &'a [u8]) -> (r: Result<Self, CryptoError>)
        ensures
            r is Ok <==> key@.len() == KEY_SIZE,
            r matches Ok(s) ==> s.wf() && s.key() == key@ && s.prefix().len() == 4 && s.counter()
                == 0,
            r matches Err(e) ==> e == CryptoError::InvalidKey,
    {
        let prefix = random_prefix();
        FrameSealer::start(key, prefix)
    }

    /// What stands before the first frame.
    pub fn header(&self) -> (r: Vec<u8>)
        ensures
            r@ == MAGIC@ + self.prefix(),
    {
        let mut out = copy_bytes(MAGIC.as_slice());
        push_bytes(&mut out, self.prefix.as_slice());
        out
    }

    /// Whether another frame can be numbered.
    pub fn can_seal(&self) -> (r: bool)
        ensures
            r == (self.counter() < u64::MAX),
    {
        self.counter < u64::MAX
    }

    /// The next frame, which holds `chunk`. It opens to `chunk` again.
    pub fn seal_frame(&mut self, chunk: &[u8]) -> (r: Result<Vec<u8>, CryptoError>)
        requires
            old(self).wf(),
            old(self).counter() < u64::MAX,
            chunk@.len() <= CHUNK_SIZE,
        ensures
            final(self).wf(),
            final(self).key() == old(self).key(),
            final(self).prefix() == old(self).prefix(),
            final(self).counter() == old(self).counter() + 1,
            r is Ok,
            r->Ok_0@ == frame(old(self).key(), old(self).prefix(), old(self).counter() as int, chunk@),
            frame_opens(old(self).key(), old(self).prefix(), old(self).counter() as int, chunk@),
    {
        let nonce = nonce_bytes(self.prefix.as_slice(), self.counter);
        match seal(self.key, nonce.as_slice(), chunk) {
            None => Err(CryptoError::EncryptFrame),
            Some(ct) => {
                let mut out: Vec<u8> = Vec::new();
                let n: u32 = ct.len() as u32;
                let _ = write_u32_be(&mut out, n);
                push_bytes(&mut out, ct.as_slice());
                proof {
                    lemma_be32_bytes(n);
                    assert(out@ =~= frame(self.key@, self.prefix@, self.counter as int, chunk@));
                }
                self.counter = self.counter + 1;
                Ok(out)
            },
        }
    }
}

/// Frame `k` has a chunk and a tag in it, and opens to the chunk.
pub open spec fn frame_opens(key: Seq<u8>, prefix: Seq<u8>, k: int, chunk: Seq<u8>) -> bool {
    let ct = aes256_gcm_seal(key, nonce(prefix, k), chunk);
    &&& ct.len() == chunk.len() + 16
    &&& chunk.len() <= CHUNK_SIZE
    &&& aes256_gcm_open(key, nonce(prefix, k), ct) == Some(chunk)
}

/// The frames from number `k` on that hold `chunks` open to them.
pub open spec fn frames_open(key: Seq<u8>, prefix: Seq<u8>, k: int, chunks: Seq<Seq<u8>>) -> bool {
    forall|i: int|
        #![trigger chunks[i]]
        0 <= i < chunks.len() ==> frame_opens(key, prefix, k + i, chunks[i])
}

/// The bytes of `chunks`, one chunk after the other.
pub open spec fn joined(chunks: Seq<Seq<u8>>) -> Seq<u8>
    decreases chunks.len(),
{
    if chunks.len() == 0 {
        Seq::empty()
    } else {
        chunks[0] + joined(chunks.drop_first())
    }
}

/// Reading the frames that were made of some chunks gives those chunks, one after the other.
pub proof fn lemma_open_frames(key: Seq<u8>, prefix: Seq<u8>, k: int, chunks: Seq<Seq<u8>>)
    requires
        frames_open(key, prefix, k, chunks),
    ensures
        open_frames(key, prefix, k, frames(key, prefix, k, chunks)) == (
            joined(chunks),
            Ok::<(), CryptoError>(()),
        ),
    decreases chunks.len(),
{
    if chunks.len() > 0 {
        let chunk = chunks[0];
        let ct = aes256_gcm_seal(key, nonce(prefix, k), chunk);
        let rest = frames(key, prefix, k + 1, chunks.drop_first());
        let s = frames(key, prefix, k, chunks);
        assert(frame_opens(key, prefix, k + 0, chunks[0]));
        lemma_be32_value(ct.len() as int);
        assert(s == be32(ct.len() as int) + ct + rest);
        assert(be32_value(s) == be32_value(be32(ct.len() as int)));
        assert(s.subrange(4, 4 + ct.len() as int) =~= ct);
        assert(s.skip(4 + ct.len() as int) =~= rest);
        assert forall|i: int|
            #![trigger chunks.drop_first()[i]]
            0 <= i < chunks.drop_first().len() implies frame_opens(
            key,
            prefix,
            k + 1 + i,
            chunks.drop_first()[i],
        ) by {
            assert(frame_opens(key, prefix, k + (i + 1), chunks[i + 1]));
        }
        lemma_open_frames(key, prefix, k + 1, chunks.drop_first());
    }
}

/// Reading a stream that was sealed gives the chunks that were sealed in it.
pub proof fn law_sealed_opens(key: Seq<u8>, prefix: Seq<u8>, chunks: Seq<Seq<u8>>)
    requires
        key.len() == KEY_SIZE,
        prefix.len() == 4,
        frames_open(key, prefix, 0, chunks),
    ensures
        opened(key, sealed(key, prefix, chunks)) == (
            joined(chunks),
            Ok::<Format, CryptoError>(Format::V2),
        ),
        encrypted(sealed(key, prefix, chunks)),
{
    let s = sealed(key, prefix, chunks);
    assert(s.take(6) =~= MAGIC@);
    assert(MAGIC@[4] != MAGIC_V1@[4]);
    assert(s.subrange(6, 10) =~= prefix);
    assert(s.skip(10) =~= frames(key, prefix, 0, chunks));
    lemma_open_frames(key, prefix, 0, chunks);
}

/// Cutting data into chunks loses nothing.
pub proof fn lemma_joined_chunks(data: Seq<u8>)
    ensures
        joined(chunks_of(data)) == data,
    decreases data.len(),
{
    let chunks = chunks_of(data);
    if data.len() == 0 {
        assert(joined(chunks) =~= data);
    } else if data.len() <= CHUNK_SIZE {
        reveal_with_fuel(joined, 2);
        assert(joined(chunks) =~= data);
    } else {
        let rest = data.skip(CHUNK_SIZE as int);
        lemma_joined_chunks(rest);
        assert(chunks.drop_first() =~= chunks_of(rest));
        assert(data.take(CHUNK_SIZE as int) + rest =~= data);
    }
}

/// Appends the stream that holds `r` to `w`, with `prefix` in its nonces.
pub fn encrypt_with_prefix(
    r: &[u8],
    w: &mut Vec<u8>,
    key: &[u8],
    prefix: [u8; 4],
) -> (res: Result<(), CryptoError>)
    ensures
        res is Ok <==> key@.len() == KEY_SIZE,
        res matches Err(e) ==> e == CryptoError::InvalidKey && final(w)@ == old(w)@,
        res is Ok ==> final(w)@ == old(w)@ + sealed(key@, prefix@, chunks_of(r@)),
        res is Ok ==> opened(key@, sealed(key@, prefix@, chunks_of(r@))) == (
            r@,
            Ok::<Format, CryptoError>(Format::V2),
        ),
        res is Ok ==> encrypted(sealed(key@, prefix@, chunks_of(r@))),
        res is Ok ==> frames_open(key@, prefix@, 0, chunks_of(r@)),
{
    let mut sealer = match FrameSealer::start(key, prefix) {
        Err(e) => {
            return Err(e);
        },
        Ok(sealer) => sealer,
    };
    push_bytes(w, sealer.header().as_slice());
    let ghost before = w@;
    let ghost chunks = chunks_of(r@);
    let ghost mut done: Seq<Seq<u8>> = Seq::empty();
    let mut pos: usize = 0;
    proof {
        assert(r@.skip(0) =~= r@);
        assert(done + chunks_of(r@.skip(0)) =~= chunks);
        assert(w@ + frames(key@, prefix@, 0, chunks) =~= before + frames(key@, prefix@, 0, chunks));
    }
    while pos < r.len()
        invariant
            pos <= r@.len(),
            sealer.wf(),
            sealer.key() == key@,
            sealer.prefix() == prefix@,
            sealer.counter() == done.len(),
            sealer.counter() <= pos,
            chunks == done + chunks_of(r@.skip(pos as int)),
            frames_open(key@, prefix@, 0, done),
            w@ + frames(key@, prefix@, sealer.counter() as int, chunks_of(r@.skip(pos as int)))
                == before + frames(key@, prefix@, 0, chunks),
        decreases r@.len() - pos,
    {
        let left: usize = r.len() - pos;
        let n: usize = if left <= CHUNK_SIZE {
            left
        } else {
            CHUNK_SIZE
        };
        let chunk = vstd::slice::slice_subrange(r, pos, pos + n);
        let ghost rest = r@.skip(pos as int);
        let ghost k = sealer.counter() as int;
        let ghost w0 = w@;
        match sealer.seal_frame(chunk) {
            Err(e) => {
                return Err(e);
            },
            Ok(f) => {
                push_bytes(w, f.as_slice());
                proof {
                    assert(rest.skip(n as int) =~= r@.skip(pos + n));
                    assert(chunks_of(rest)[0] =~= chunk@);
                    assert(chunks_of(rest).drop_first() =~= chunks_of(r@.skip(pos + n)));
                    let next = chunks_of(r@.skip(pos + n));
                    assert(done + chunks_of(rest) =~= done.push(chunk@) + next);
                    assert(w@ + frames(key@, prefix@, k + 1, next) =~= w0 + frames(
                        key@,
                        prefix@,
                        k,
                        chunks_of(rest),
                    ));
                    done = done.push(chunk@);
                }
                pos = pos + n;
            },
        }
    }
    proof {
        assert(chunks_of(r@.skip(pos as int)) =~= Seq::<Seq<u8>>::empty());
        assert(done =~= chunks);
        law_sealed_opens(key@, prefix@, chunks);
        lemma_joined_chunks(r@);
        assert(w@ =~= before + frames(key@, prefix@, 0, chunks));
        assert(w@ =~= old(w)@ + sealed(key@, prefix@, chunks));
    }
    Ok(())
}

/// `out` is a stream that holds `data`, whatever prefix was drawn for it: each frame is as long as
/// its chunk and a tag, and opens to the chunk.
pub open spec fn seals(key: Seq<u8>, data: Seq<u8>, out: Seq<u8>) -> bool {
    exists|prefix: Seq<u8>|
        prefix.len() == 4 && out == #[trigger] sealed(key, prefix, chunks_of(data)) && frames_open(
            key,
            prefix,
            0,
            chunks_of(data),
        )
}

/// Draws the prefix of a stream.
fn random_prefix() -> (r: [u8; 4]) {
    let mut bytes: Vec<u8> = vec![0, 0, 0, 0];
    fill_random(&mut bytes);
    [bytes[0], bytes[1], bytes[2], bytes[3]]
}

/// Appends a stream that holds `r` to `w`. Reading that stream with the same key gives `r` back.
pub fn encrypt_stream(r: &[u8], w: &mut Vec<u8>, key: &[u8]) -> (res: Result<(), CryptoError>)
    ensures
        res is Ok <==> key@.len() == KEY_SIZE,
        res matches Err(e) ==> e == CryptoError::InvalidKey && final(w)@ == old(w)@,
        res is Ok ==> exists|out: Seq<u8>|
            final(w)@ == old(w)@ + out && #[trigger] seals(key@, r@, out) && encrypted(out)
                && opened(key@, out) == (r@, Ok::<Format, CryptoError>(Format::V2)),
{
    let prefix = random_prefix();
    let res = encrypt_with_prefix(r, w, key, prefix);
    assert(res is Ok ==> seals(key@, r@, sealed(key@, prefix@, chunks_of(r@))));
    res
}

/// Reads frames and appends what they hold to `w`.
pub fn decrypt_v2_frames(r: &[u8], w: &mut Vec<u8>, key: &[u8], prefix: &[u8]) -> (res: Result<
    (),
    CryptoError,
>)
    requires
        key@.len() == KEY_SIZE,
        prefix@.len() == 4,
    ensures
        final(w)@ == old(w)@ + open_frames(key@, prefix@, 0, r@).0,
        res == open_frames(key@, prefix@, 0, r@).1,
{
    let mut pos: usize = 0;
    let mut counter: u64 = 0;
    let ghost whole = open_frames(key@, prefix@, 0, r@);
    proof {
        assert(r@.skip(0) =~= r@);
    }
    loop
        invariant
            key@.len() == KEY_SIZE,
            prefix@.len() == 4,
            pos <= r@.len(),
            counter <= pos,
            whole == open_frames(key@, prefix@, 0, r@),
            old(w)@ + whole.0 == w@ + open_frames(
                key@,
                prefix@,
                counter as int,
                r@.skip(pos as int),
            ).0,
            whole.1 == open_frames(key@, prefix@, counter as int, r@.skip(pos as int)).1,
        decreases r@.len() - pos,
    {
        let ghost s = r@.skip(pos as int);
        let rest = vstd::slice::slice_subrange(r, pos, r.len());
        assert(rest@ =~= s);
        let ct_len: usize = match read_u32_be(rest) {
            None => {
                assert(old(w)@ + whole.0 =~= w@);
                return Ok(());
            },
            Some(n) => n as usize,
        };
        if ct_len < 16 || ct_len > MAX_CT_LEN {
            assert(old(w)@ + whole.0 =~= w@);
            return Err(CryptoError::InvalidFrameLength(ct_len));
        }
        if rest.len() < 4 + ct_len {
            assert(old(w)@ + whole.0 =~= w@);
            return Ok(());
        }
        let ct = vstd::slice::slice_subrange(rest, 4, 4 + ct_len);
        let nonce = nonce_bytes(prefix, counter);
        match open(key, nonce.as_slice(), ct) {
            None => {
                assert(old(w)@ + whole.0 =~= w@);
                return Err(CryptoError::AuthenticationFailed(counter));
            },
            Some(pt) => {
                let ghost w0 = w@;
                push_bytes(w, pt.as_slice());
                proof {
                    assert(s.skip(4 + ct_len) =~= r@.skip(pos + 4 + ct_len));
                    let tail = open_frames(
                        key@,
                        prefix@,
                        counter + 1,
                        r@.skip(pos + 4 + ct_len),
                    ).0;
                    assert(w0 + (pt@ + tail) =~= w@ + tail);
                }
                pos = pos + 4 + ct_len;
                counter = counter + 1;
            },
        }
    }
}

/// Reads legacy frames and appends what they hold to `w`.
pub fn decrypt_v1_frames(r: &[u8], w: &mut Vec<u8>, key: &[u8]) -> (res: Result<(), CryptoError>)
    requires
        key@.len() == KEY_SIZE,
    ensures
        final(w)@ == old(w)@ + open_frames_v1(key@, r@).0,
        res == open_frames_v1(key@, r@).1,
{
    let mut pos: usize = 0;
    let ghost whole = open_frames_v1(key@, r@);
    proof {
        assert(r@.skip(0) =~= r@);
    }
    loop
        invariant
            key@.len() == KEY_SIZE,
            pos <= r@.len(),
            whole == open_frames_v1(key@, r@),
            old(w)@ + whole.0 == w@ + open_frames_v1(key@, r@.skip(pos as int)).0,
            whole.1 == open_frames_v1(key@, r@.skip(pos as int)).1,
        decreases r@.len() - pos,
    {
        let ghost s = r@.skip(pos as int);
        let rest = vstd::slice::slice_subrange(r, pos, r.len());
        assert(rest@ =~= s);
        let len: usize = match read_u32_be(rest) {
            None => {
                assert(old(w)@ + whole.0 =~= w@);
                return Ok(());
            },
            Some(n) => n as usize,
        };
        if len < 12 || len > MAX_FRAME_V1 {
            assert(old(w)@ + whole.0 =~= w@);
            return Err(CryptoError::InvalidFrameLengthV1(len));
        }
        if rest.len() < 4 + len {
            assert(old(w)@ + whole.0 =~= w@);
            return Ok(());
        }
        let nonce = vstd::slice::slice_subrange(rest, 4, 16);
        let ct = vstd::slice::slice_subrange(rest, 16, 4 + len);
        match open(key, nonce, ct) {
            None => {
                assert(old(w)@ + whole.0 =~= w@);
                return Err(CryptoError::AuthenticationFailedV1);
            },
            Some(pt) => {
                let ghost w0 = w@;
                push_bytes(w, pt.as_slice());
                proof {
                    assert(s.skip(4 + len) =~= r@.skip(pos + 4 + len));
                    let tail = open_frames_v1(key@, r@.skip(pos + 4 + len)).0;
                    assert(w0 + (pt@ + tail) =~= w@ + tail);
                }
                pos = pos + 4 + len;
            },
        }
    }
}

/// Reads the stream `r` and appends what it holds to `w`, up to the first frame that is refused.
/// Without a magic header, `r` is taken for plaintext.
pub fn decrypt_stream(r: &[u8], w: &mut Vec<u8>, key: &[u8]) -> (res: Result<Format, CryptoError>)
    ensures
        final(w)@ == old(w)@ + opened(key@, r@).0,
        res == opened(key@, r@).1,
{
    if !key_fits(key) {
        assert(w@ =~= old(w)@ + opened(key@, r@).0);
        return Err(CryptoError::InvalidKey);
    }
    if r.len() < 6 {
        assert(w@ =~= old(w)@ + opened(key@, r@).0);
        return Err(CryptoError::UnexpectedEof);
    }
    let magic = vstd::slice::slice_subrange(r, 0, 6);
    assert(magic@ =~= r@.take(6));
    if same_bytes(magic, MAGIC_V1.as_slice()) {
        let rest = vstd::slice::slice_subrange(r, 6, r.len());
        assert(rest@ =~= r@.skip(6));
        return match decrypt_v1_frames(rest, w, key) {
            Ok(()) => Ok(Format::V1),
            Err(e) => Err(e),
        };
    }
    if !same_bytes(magic, MAGIC.as_slice()) {
        push_bytes(w, r);
        return Ok(Format::Plain);
    }
    if r.len() < 10 {
        assert(w@ =~= old(w)@ + opened(key@, r@).0);
        return Err(CryptoError::UnexpectedEof);
    }
    let prefix = vstd::slice::slice_subrange(r, 6, 10);
    let rest = vstd::slice::slice_subrange(r, 10, r.len());
    assert(rest@ =~= r@.skip(10));
    match decrypt_v2_frames(rest, w, key, prefix) {
        Ok(()) => Ok(Format::V2),
        Err(e) => Err(e),
    }
}

/// No two frames of one stream share a nonce.
pub proof fn law_nonces_differ(prefix: Seq<u8>, i: u64, j: u64)
    requires
        i != j,
    ensures
        nonce(prefix, i as int) != nonce(prefix, j as int),
{
    let a = nonce(prefix, i as int);
    let b = nonce(prefix, j as int);
    if a == b {
        let n = prefix.len() as int;
        assert(be64(i as int) =~= a.skip(n));
        assert(be64(j as int) =~= b.skip(n));
        lemma_be64_injective(i as int, j as int);
    }
}

/// Eight bytes give back the number that they were made of.
pub proof fn lemma_be64_injective(i: int, j: int)
    requires
        0 <= i < 0x1_0000_0000_0000_0000,
        0 <= j < 0x1_0000_0000_0000_0000,
        be64(i) == be64(j),
    ensures
        i == j,
{
    assert(be32(i / 0x1_0000_0000) =~= be64(i).take(4));
    assert(be32(j / 0x1_0000_0000) =~= be64(j).take(4));
    assert(be32(i % 0x1_0000_0000) =~= be64(i).skip(4));
    assert(be32(j % 0x1_0000_0000) =~= be64(j).skip(4));
    lemma_be32_value(i / 0x1_0000_0000);
    lemma_be32_value(j / 0x1_0000_0000);
    lemma_be32_value(i % 0x1_0000_0000);
    lemma_be32_value(j % 0x1_0000_0000);
}

/// Frames that read well still read well when they are cut short anywhere, and what is read of
/// them is the beginning of what they hold.
pub proof fn lemma_cut_frames(key: Seq<u8>, prefix: Seq<u8>, k: int, s: Seq<u8>, n: int)
    requires
        open_frames(key, prefix, k, s).1 is Ok,
        0 <= n <= s.len(),
    ensures
        open_frames(key, prefix, k, s.take(n)).1 is Ok,
        open_frames(key, prefix, k, s.take(n)).0.is_prefix_of(open_frames(key, prefix, k, s).0),
    decreases s.len(),
{
    let cut = s.take(n);
    if n >= 4 {
        assert(be32_value(cut) == be32_value(s));
        let m = be32_value(s);
        if 16 <= m <= MAX_CT_LEN && n >= 4 + m {
            assert(cut.subrange(4, 4 + m) =~= s.subrange(4, 4 + m));
            assert(cut.skip(4 + m) =~= s.skip(4 + m).take(n - 4 - m));
            lemma_cut_frames(key, prefix, k + 1, s.skip(4 + m), n - 4 - m);
        }
    }
}

/// A session that is still being written can be read: cutting a stream that reads well anywhere
/// behind its header leaves a stream that reads well, to the beginning of what the whole holds.
pub proof fn law_cut_stream(key: Seq<u8>, s: Seq<u8>, n: int)
    requires
        opened(key, s).1 == Ok::<Format, CryptoError>(Format::V2),
        10 <= n <= s.len(),
    ensures
        opened(key, s.take(n)).1 == Ok::<Format, CryptoError>(Format::V2),
        opened(key, s.take(n)).0.is_prefix_of(opened(key, s).0),
{
    let cut = s.take(n);
    assert(cut.take(6) =~= s.take(6));
    assert(cut.subrange(6, 10) =~= s.subrange(6, 10));
    assert(cut.skip(10) =~= s.skip(10).take(n - 10));
    lemma_cut_frames(key, s.subrange(6, 10), 0, s.skip(10), n - 10);
}

/// How many of the frames that hold `chunks` lie wholly within `n` bytes. A frame takes four bytes
/// for its length and sixteen for its tag.
pub open spec fn frames_within(chunks: Seq<Seq<u8>>, n: int) -> int
    decreases chunks.len(),
{
    if chunks.len() == 0 || n < chunks[0].len() + 20 {
        0
    } else {
        1 + frames_within(chunks.drop_first(), n - chunks[0].len() - 20)
    }
}

/// The frames that hold the rest of the chunks open to them.
proof fn lemma_frames_open_rest(key: Seq<u8>, prefix: Seq<u8>, k: int, chunks: Seq<Seq<u8>>)
    requires
        frames_open(key, prefix, k, chunks),
        chunks.len() > 0,
    ensures
        frame_opens(key, prefix, k, chunks[0]),
        frames_open(key, prefix, k + 1, chunks.drop_first()),
{
    let rest = chunks.drop_first();
    assert(frame_opens(key, prefix, k + 0, chunks[0]));
    assert forall|i: int|
        #![trigger rest[i]]
        0 <= i < rest.len() implies frame_opens(key, prefix, k + 1 + i, rest[i]) by {
        assert(frame_opens(key, prefix, k + (i + 1), chunks[i + 1]));
    }
}

/// `frames_within` counts the frames that are whole: those lie within `n` bytes, and one more
/// would not.
pub proof fn law_frames_within(
    key: Seq<u8>,
    prefix: Seq<u8>,
    k: int,
    chunks: Seq<Seq<u8>>,
    n: int,
)
    requires
        frames_open(key, prefix, k, chunks),
        0 <= n,
    ensures
        0 <= frames_within(chunks, n) <= chunks.len(),
        frames(key, prefix, k, chunks.take(frames_within(chunks, n))).len() <= n,
        frames_within(chunks, n) < chunks.len() ==> frames(
            key,
            prefix,
            k,
            chunks.take(frames_within(chunks, n) + 1),
        ).len() > n,
    decreases chunks.len(),
{
    reveal_with_fuel(frames, 2);
    let j = frames_within(chunks, n);
    if chunks.len() > 0 {
        let rest = chunks.drop_first();
        lemma_frames_open_rest(key, prefix, k, chunks);
        if n < chunks[0].len() + 20 {
            let one = chunks.take(1);
            assert(one[0] == chunks[0]);
            assert(one.drop_first() =~= Seq::<Seq<u8>>::empty());
        } else {
            law_frames_within(key, prefix, k + 1, rest, n - chunks[0].len() - 20);
            let whole = chunks.take(j);
            assert(whole[0] == chunks[0]);
            assert(whole.drop_first() =~= rest.take(j - 1));
            if j < chunks.len() {
                let more = chunks.take(j + 1);
                assert(more[0] == chunks[0]);
                assert(more.drop_first() =~= rest.take(j));
            }
        }
    }
}

/// Reading frames that were cut after `n` bytes gives exactly what the whole ones hold.
pub proof fn law_cut_frames(key: Seq<u8>, prefix: Seq<u8>, k: int, chunks: Seq<Seq<u8>>, n: int)
    requires
        frames_open(key, prefix, k, chunks),
        0 <= n <= frames(key, prefix, k, chunks).len(),
    ensures
        open_frames(key, prefix, k, frames(key, prefix, k, chunks).take(n)) == (
            joined(chunks.take(frames_within(chunks, n))),
            Ok::<(), CryptoError>(()),
        ),
    decreases chunks.len(),
{
    let s = frames(key, prefix, k, chunks);
    let cut = s.take(n);
    let j = frames_within(chunks, n);
    if chunks.len() == 0 {
        assert(chunks.take(0) =~= chunks);
    } else {
        let chunk = chunks[0];
        let ct = aes256_gcm_seal(key, nonce(prefix, k), chunk);
        let m = ct.len() as int;
        let rest = chunks.drop_first();
        lemma_frames_open_rest(key, prefix, k, chunks);
        lemma_be32_value(m);
        assert(s == be32(m) + ct + frames(key, prefix, k + 1, rest));
        if n >= 4 {
            assert(be32_value(cut) == be32_value(be32(m)));
        }
        if n < m + 4 {
            assert(chunks.take(0) =~= Seq::<Seq<u8>>::empty());
        } else {
            assert(cut.subrange(4, 4 + m) =~= ct);
            assert(cut.skip(4 + m) =~= frames(key, prefix, k + 1, rest).take(n - 4 - m));
            law_frames_within(key, prefix, k + 1, rest, n - 4 - m);
            law_cut_frames(key, prefix, k + 1, rest, n - 4 - m);
            let whole = chunks.take(j);
            assert(whole[0] == chunk);
            assert(whole.drop_first() =~= rest.take(j - 1));
        }
    }
}

/// Reading a stream that was cut anywhere behind its header gives exactly what its whole frames
/// hold: a frame that is cut is dropped, and no other.
pub proof fn law_cut_sealed(key: Seq<u8>, prefix: Seq<u8>, chunks: Seq<Seq<u8>>, n: int)
    requires
        key.len() == KEY_SIZE,
        prefix.len() == 4,
        frames_open(key, prefix, 0, chunks),
        10 <= n <= sealed(key, prefix, chunks).len(),
    ensures
        opened(key, sealed(key, prefix, chunks).take(n)) == (
            joined(chunks.take(frames_within(chunks, n - 10))),
            Ok::<Format, CryptoError>(Format::V2),
        ),
{
    let cut = sealed(key, prefix, chunks).take(n);
    assert(cut.take(6) =~= MAGIC@);
    assert(MAGIC@[4] != MAGIC_V1@[4]);
    assert(cut.subrange(6, 10) =~= prefix);
    assert(cut.skip(10) =~= frames(key, prefix, 0, chunks).take(n - 10));
    law_cut_frames(key, prefix, 0, chunks, n - 10);
}

/// Reading a stream as it grows: the frames of a longer stream begin with those of a shorter one.
pub proof fn law_frames_append(
    key: Seq<u8>,
    prefix: Seq<u8>,
    k: int,
    first: Seq<Seq<u8>>,
    more: Seq<Seq<u8>>,
)
    ensures
        frames(key, prefix, k, first + more) == frames(key, prefix, k, first) + frames(
            key,
            prefix,
            k + first.len(),
            more,
        ),
    decreases first.len(),
{
    if first.len() == 0 {
        assert(first + more =~= more);
        assert(frames(key, prefix, k, first) + frames(key, prefix, k, more) =~= frames(
            key,
            prefix,
            k,
            more,
        ));
    } else {
        law_frames_append(key, prefix, k + 1, first.drop_first(), more);
        assert((first + more).drop_first() =~= first.drop_first() + more);
        assert(frames(key, prefix, k, first + more) =~= frames(key, prefix, k, first) + frames(
            key,
            prefix,
            k + first.len(),
            more,
        ));
    }
}

/// Where the key comes from.
#[derive(Debug)]
pub enum KeyFile {
    /// The key file held it.
    Existing(Vec<u8>),
    /// There was no key file: this one is new, and has to be kept.
    Fresh(Vec<u8>),
}

impl KeyFile {
    /// The key.
    pub open spec fn key(&self) -> Seq<u8> {
        match *self {
            KeyFile::Existing(k) => k@,
            KeyFile::Fresh(k) => k@,
        }
    }
}

/// The key to work with, given what the key file holds, if there is one, and the bytes that were
/// drawn in case there is none. A file of the wrong size is refused.
pub fn key_from(existing: Option<Vec<u8>>, drawn: Vec<u8>) -> (r: Result<KeyFile, CryptoError>)
    ensures
        match existing {
            Some(k) => if k@.len() == KEY_SIZE {
                r is Ok && r->Ok_0 is Existing && r->Ok_0.key() == k@
            } else {
                r == Err::<KeyFile, CryptoError>(CryptoError::WrongKeySize(k.len()))
            },
            None => r is Ok && r->Ok_0 is Fresh && r->Ok_0.key() == drawn@,
        },
{
    match existing {
        Some(k) => {
            if k.len() != KEY_SIZE {
                return Err(CryptoError::WrongKeySize(k.len()));
            }
            Ok(KeyFile::Existing(k))
        },
        None => Ok(KeyFile::Fresh(drawn)),
    }
}

/// The key to work with, given what the key file holds, if there is one. A file of the wrong size
/// is refused; where there is no file a key is drawn.
pub fn ensure_key(existing: Option<Vec<u8>>) -> (r: Result<KeyFile, CryptoError>)
    ensures
        match existing {
            Some(k) => if k@.len() == KEY_SIZE {
                r is Ok && r->Ok_0 is Existing && r->Ok_0.key() == k@
            } else {
                r == Err::<KeyFile, CryptoError>(CryptoError::WrongKeySize(k.len()))
            },
            None => r is Ok && r->Ok_0 is Fresh && r->Ok_0.key().len() == KEY_SIZE,
        },
{
    let mut drawn: Vec<u8> = Vec::new();
    if existing.is_none() {
        drawn = vec![0; KEY_SIZE];
        fill_random(&mut drawn);
    }
    key_from(existing, drawn)
}

/// What is said of an error; `key_file` is the path of the key file.
pub open spec fn error_text(e: CryptoError, key_file: Seq<u8>) -> Seq<char> {
    match e {
        CryptoError::InvalidKey => "invalid key"@,
        CryptoError::WrongKeySize(n) => "key "@ + lossy(key_file) + " has wrong size "@
            + decimal(n as nat),
        CryptoError::EncryptFrame => "encrypt frame"@,
        CryptoError::UnexpectedEof => "failed to fill whole buffer"@,
        CryptoError::InvalidFrameLength(n) => "corrupt encrypted stream: invalid frame length "@
            + decimal(n as nat),
        CryptoError::AuthenticationFailed(k) =>
            "corrupt encrypted stream: authentication failed at frame "@ + decimal(k as nat),
        CryptoError::InvalidFrameLengthV1(n) =>
            "corrupt encrypted stream (v1): invalid frame length "@ + decimal(n as nat),
        CryptoError::AuthenticationFailedV1 =>
            "corrupt encrypted stream (v1): authentication failed"@,
    }
}

impl CryptoError {
    /// What is said of the error; `key_file` is the path of the key file.
    pub fn message(&self, key_file: &[u8]) -> (r: String)
        ensures
            r@ == error_text(*self, key_file@),
    {
        match *self {
            CryptoError::InvalidKey => "invalid key".to_owned(),
            CryptoError::WrongKeySize(n) => {
                let mut out = "key ".to_owned();
                out.append(lossy_text(key_file).as_str());
                out.append(" has wrong size ");
                push_u64(&mut out, n as u64);
                out
            },
            CryptoError::EncryptFrame => "encrypt frame".to_owned(),
            CryptoError::UnexpectedEof => "failed to fill whole buffer".to_owned(),
            CryptoError::InvalidFrameLength(n) => {
                let mut out = "corrupt encrypted stream: invalid frame length ".to_owned();
                push_u64(&mut out, n as u64);
                out
            },
            CryptoError::AuthenticationFailed(k) => {
                let mut out = "corrupt encrypted stream: authentication failed at frame ".to_owned();
                push_u64(&mut out, k);
                out
            },
            CryptoError::InvalidFrameLengthV1(n) => {
                let mut out = "corrupt encrypted stream (v1): invalid frame length ".to_owned();
                push_u64(&mut out, n as u64);
                out
            },
            CryptoError::AuthenticationFailedV1 =>
                "corrupt encrypted stream (v1): authentication failed".to_owned(),
        }
    }
}

/// An encrypted file begins with `TTEC2` or `TTEC1` and a line feed.
pub proof fn law_encrypted(data: Seq<u8>)
    ensures
        encrypted(data) <==> seq![0x54u8, 0x54u8, 0x45u8, 0x43u8, 0x32u8, 0x0au8].is_prefix_of(data)
            || seq![0x54u8, 0x54u8, 0x45u8, 0x43u8, 0x31u8, 0x0au8].is_prefix_of(data),
{
    assert(MAGIC@ =~= seq![0x54u8, 0x54u8, 0x45u8, 0x43u8, 0x32u8, 0x0au8]);
    assert(MAGIC_V1@ =~= seq![0x54u8, 0x54u8, 0x45u8, 0x43u8, 0x31u8, 0x0au8]);
}

/// Data is cut into chunks of 32768 bytes, but for the last, which may be shorter; none is empty,
/// and together they are the data.
pub proof fn law_chunks(data: Seq<u8>)
    ensures
        joined(chunks_of(data)) == data,
        forall|i: int|
            0 <= i < chunks_of(data).len() ==> 0 < (#[trigger] chunks_of(data)[i]).len() <= 32768,
        forall|i: int|
            0 <= i < chunks_of(data).len() - 1 ==> (#[trigger] chunks_of(data)[i]).len() == 32768,
    decreases data.len(),
{
    lemma_joined_chunks(data);
    if data.len() > CHUNK_SIZE {
        let rest = data.skip(CHUNK_SIZE as int);
        law_chunks(rest);
        let all = chunks_of(data);
        let more = chunks_of(rest);
        assert(more.len() > 0);
        assert forall|i: int| 0 <= i < all.len() implies 0 < (#[trigger] all[i]).len() <= 32768 by {
            if i > 0 {
                assert(all[i] == more[i - 1]);
            }
        }
        assert forall|i: int| 0 <= i < all.len() - 1 implies (#[trigger] all[i]).len() == 32768 by {
            if i > 0 {
                assert(all[i] == more[i - 1]);
            }
        }
    }
}

/// What follows frames that open is read behind what they hold.
proof fn lemma_open_behind(
    key: Seq<u8>,
    prefix: Seq<u8>,
    k: int,
    chunks: Seq<Seq<u8>>,
    rest: Seq<u8>,
)
    requires
        frames_open(key, prefix, k, chunks),
    ensures
        open_frames(key, prefix, k, frames(key, prefix, k, chunks) + rest) == (
            joined(chunks) + open_frames(key, prefix, k + chunks.len(), rest).0,
            open_frames(key, prefix, k + chunks.len(), rest).1,
        ),
    decreases chunks.len(),
{
    let s = frames(key, prefix, k, chunks) + rest;
    let r = open_frames(key, prefix, k + chunks.len(), rest);
    if chunks.len() == 0 {
        assert(s =~= rest);
        assert(joined(chunks) + r.0 =~= r.0);
    } else {
        let chunk = chunks[0];
        let ct = aes256_gcm_seal(key, nonce(prefix, k), chunk);
        let m = ct.len() as int;
        let fewer = chunks.drop_first();
        lemma_frames_open_rest(key, prefix, k, chunks);
        lemma_be32_value(m);
        lemma_open_behind(key, prefix, k + 1, fewer, rest);
        let tail = frames(key, prefix, k + 1, fewer) + rest;
        assert(s =~= be32(m) + ct + tail);
        assert(be32_value(s) == be32_value(be32(m)));
        assert(s.subrange(4, 4 + m) =~= ct);
        assert(s.skip(4 + m) =~= tail);
        assert(chunk + (joined(fewer) + r.0) =~= joined(chunks) + r.0);
    }
}

/// A frame that does not open ends reading: what the frames before it hold is read, and the error
/// names its number.
pub proof fn law_bad_frame(
    key: Seq<u8>,
    prefix: Seq<u8>,
    chunks: Seq<Seq<u8>>,
    ct: Seq<u8>,
    rest: Seq<u8>,
)
    requires
        frames_open(key, prefix, 0, chunks),
        16 <= ct.len() <= 32784,
        aes256_gcm_open(key, nonce(prefix, chunks.len() as int), ct) is None,
    ensures
        open_frames(
            key,
            prefix,
            0,
            frames(key, prefix, 0, chunks) + (be32(ct.len() as int) + ct + rest),
        ) == (
            joined(chunks),
            Err::<(), CryptoError>(CryptoError::AuthenticationFailed(chunks.len() as u64)),
        ),
{
    let m = ct.len() as int;
    let s = be32(m) + ct + rest;
    lemma_open_behind(key, prefix, 0, chunks, s);
    lemma_be32_value(m);
    assert(be32_value(s) == be32_value(be32(m)));
    assert(s.subrange(4, 4 + m) =~= ct);
    assert(joined(chunks) + Seq::<u8>::empty() =~= joined(chunks));
}

/// A frame that announces fewer than 16 bytes, or more than a chunk and its tag have, ends reading
/// in the same way, and the error names the length.
pub proof fn law_bad_length(
    key: Seq<u8>,
    prefix: Seq<u8>,
    chunks: Seq<Seq<u8>>,
    n: u32,
    rest: Seq<u8>,
)
    requires
        frames_open(key, prefix, 0, chunks),
        n < 16 || n > 32784,
    ensures
        open_frames(key, prefix, 0, frames(key, prefix, 0, chunks) + (be32(n as int) + rest)) == (
            joined(chunks),
            Err::<(), CryptoError>(CryptoError::InvalidFrameLength(n as usize)),
        ),
{
    let s = be32(n as int) + rest;
    lemma_open_behind(key, prefix, 0, chunks, s);
    lemma_be32_value(n as int);
    assert(be32_value(s) == be32_value(be32(n as int)));
    assert(joined(chunks) + Seq::<u8>::empty() =~= joined(chunks));
}

/// Legacy frames, each with its nonce and its ciphertext.
pub open spec fn legacy_frames(parts: Seq<(Seq<u8>, Seq<u8>)>) -> Seq<u8>
    decreases parts.len(),
{
    if parts.len() == 0 {
        Seq::empty()
    } else {
        let (nonce, ct) = parts[0];
        be32((nonce.len() + ct.len()) as int) + nonce + ct + legacy_frames(parts.drop_first())
    }
}

/// What legacy frames hold is read in order, each frame with the nonce that it carries.
pub proof fn law_legacy_opens(key: Seq<u8>, parts: Seq<(Seq<u8>, Seq<u8>)>, chunks: Seq<Seq<u8>>)
    requires
        parts.len() == chunks.len(),
        forall|i: int|
            #![trigger parts[i]]
            0 <= i < parts.len() ==> parts[i].0.len() == 12 && parts[i].1.len() <= 1048564
                && aes256_gcm_open(key, parts[i].0, parts[i].1) == Some(chunks[i]),
    ensures
        open_frames_v1(key, legacy_frames(parts)) == (joined(chunks), Ok::<(), CryptoError>(())),
    decreases parts.len(),
{
    if parts.len() > 0 {
        let (nonce, ct) = parts[0];
        let fewer = parts.drop_first();
        let rest = chunks.drop_first();
        let s = legacy_frames(parts);
        let m = (nonce.len() + ct.len()) as int;
        assert(parts[0].0.len() == 12);
        assert forall|i: int|
            #![trigger fewer[i]]
            0 <= i < fewer.len() implies fewer[i].0.len() == 12 && fewer[i].1.len() <= 1048564
            && aes256_gcm_open(key, fewer[i].0, fewer[i].1) == Some(rest[i]) by {
            assert(fewer[i] == parts[i + 1]);
        }
        law_legacy_opens(key, fewer, rest);
        lemma_be32_value(m);
        assert(be32_value(s) == be32_value(be32(m)));
        assert(s.subrange(4, 16) =~= nonce);
        assert(s.subrange(16, 4 + m) =~= ct);
        assert(s.skip(4 + m) =~= legacy_frames(fewer));
    }
}

/// How a stream is read: a key of another size than 32 bytes is refused, and so is a stream that
/// ends in its header; one without a magic header is passed on as it is; a legacy one is read as
/// such.
pub proof fn law_opened(key: Seq<u8>, s: Seq<u8>)
    ensures
        key.len() != 32 ==> opened(key, s) == (
            Seq::<u8>::empty(),
            Err::<Format, CryptoError>(CryptoError::InvalidKey),
        ),
        key.len() == 32 && s.len() < 6 ==> opened(key, s) == (
            Seq::<u8>::empty(),
            Err::<Format, CryptoError>(CryptoError::UnexpectedEof),
        ),
        key.len() == 32 && s.len() >= 6 && !encrypted(s) ==> opened(key, s) == (
            s,
            Ok::<Format, CryptoError>(Format::Plain),
        ),
        key.len() == 32 && MAGIC_V1@.is_prefix_of(s) ==> opened(key, s).0 == open_frames_v1(
            key,
            s.skip(6),
        ).0,
        key.len() == 32 && MAGIC_V1@.is_prefix_of(s) ==> match open_frames_v1(key, s.skip(6)).1 {
            Ok(()) => opened(key, s).1 == Ok::<Format, CryptoError>(Format::V1),
            Err(e) => opened(key, s).1 == Err::<Format, CryptoError>(e),
        },
        key.len() == 32 && MAGIC@.is_prefix_of(s) && s.len() < 10 ==> opened(key, s) == (
            Seq::<u8>::empty(),
            Err::<Format, CryptoError>(CryptoError::UnexpectedEof),
        ),
{
    if s.len() >= 6 {
        assert(MAGIC@.is_prefix_of(s) <==> s.take(6) =~= MAGIC@);
        assert(MAGIC_V1@.is_prefix_of(s) <==> s.take(6) =~= MAGIC_V1@);
        assert(MAGIC@[4] != MAGIC_V1@[4]);
    }
}

/// The number of a frame stands in its nonce behind the prefix, in eight bytes of which the first
/// counts most.
pub proof fn law_nonce(prefix: Seq<u8>, k: u64)
    requires
        prefix.len() == 4,
    ensures
        nonce(prefix, k as int).len() == 12,
        nonce(prefix, k as int).take(4) == prefix,
        be32_value(nonce(prefix, k as int).subrange(4, 8)) * 0x1_0000_0000 + be32_value(
            nonce(prefix, k as int).subrange(8, 12),
        ) == k,
{
    let n = nonce(prefix, k as int);
    let (high, low) = (k as int / 0x1_0000_0000, k as int % 0x1_0000_0000);
    assert(n.take(4) =~= prefix);
    assert(n.subrange(4, 8) =~= be32(high));
    assert(n.subrange(8, 12) =~= be32(low));
    lemma_be32_value(high);
    lemma_be32_value(low);
}

/// A frame is the length of its ciphertext, in four bytes, and the ciphertext.
pub proof fn law_frame(key: Seq<u8>, prefix: Seq<u8>, k: int, chunk: Seq<u8>)
    requires
        frame_opens(key, prefix, k, chunk),
    ensures
        frame(key, prefix, k, chunk).len() == 4 + chunk.len() + 16,
        be32_value(frame(key, prefix, k, chunk).take(4)) == chunk.len() + 16,
        aes256_gcm_open(key, nonce(prefix, k), frame(key, prefix, k, chunk).skip(4)) == Some(chunk),
{
    let ct = aes256_gcm_seal(key, nonce(prefix, k), chunk);
    let f = frame(key, prefix, k, chunk);
    lemma_be32_value(ct.len() as int);
    assert(f.take(4) =~= be32(ct.len() as int));
    assert(f.skip(4) =~= ct);
}

/// What is said of an error names what is wrong with the number that it carries.
pub proof fn law_error_texts(n: usize, k: u64, key_file: Seq<u8>)
    ensures
        error_text(CryptoError::WrongKeySize(n), key_file) == "key "@ + lossy(key_file)
            + " has wrong size "@ + decimal(n as nat),
        error_text(CryptoError::InvalidFrameLength(n), key_file)
            == "corrupt encrypted stream: invalid frame length "@ + decimal(n as nat),
        error_text(CryptoError::AuthenticationFailed(k), key_file)
            == "corrupt encrypted stream: authentication failed at frame "@ + decimal(k as nat),
        error_text(CryptoError::InvalidFrameLengthV1(n), key_file)
            == "corrupt encrypted stream (v1): invalid frame length "@ + decimal(n as nat),
{
}

} // verus!

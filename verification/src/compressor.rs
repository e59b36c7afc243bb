//! String staging and background compression.
//!
//! A `BackgroundCompressor` accumulates null-terminated strings in a
//! staging buffer; `rotate` hands the filled buffer to a background
//! worker for compression and delivers at most one previously completed
//! buffer back; `finish` drains every outstanding result.  The staging
//! arithmetic and the accounting of in-flight buffers are verified; the
//! codec, the worker pool and the result channel are trusted items.

use std::sync::mpsc::{channel, Receiver, Sender};

use vstd::prelude::*;
use vstd::string::StringSliceAdditionalSpecFns;
use vstd::utf8::{encode_scalar, encode_utf8, is_scalar};

use crate::Error;

verus! {

/// The fixed compression level every buffer is compressed at.
pub const COMPRESSION_LEVEL: i32 = 12;

/// What the codec produces for the given bytes at the fixed level: one
/// compressed frame, a function of the input alone.
pub uninterp spec fn compress_of(data: Seq<u8>) -> Seq<u8>;

/// What the codec reads out of a frame header: the declared content
/// size, `None` when the frame declares none, or an error when the
/// bytes are no frame prefix.  A function of the bytes alone.
pub uninterp spec fn frame_size_of(frame: Seq<u8>) -> Result<Option<u64>, ()>;

/// The buffers handed to the background workers and not yet delivered
/// back, keyed by the tag they were submitted under.
pub uninterp spec fn pool_jobs(p: CompressPool) -> Map<i64, Seq<u8>>;

impl CompressPool {
    /// A pool with no job in flight.
    pub open spec fn idle(self) -> bool {
        pool_jobs(self) == Map::<i64, Seq<u8>>::empty()
    }
}

/// A worker pool compressing buffers off-thread, with a channel that
/// carries completed buffers back.  Holds the two channel ends; the
/// workers run on the global thread pool.
#[verifier::external_body]
pub struct CompressPool {
    sender: Sender<(i64, Result<Vec<u8>, ()>)>,
    receiver: Receiver<(i64, Result<Vec<u8>, ()>)>,
}

/// The result rows of a drained pool answer for its jobs: every row is
/// a job's tag with the compressed form of that job's buffer, every job
/// is answered, and no tag is answered twice.  The order is the order
/// of completion, about which nothing is said.
pub open spec fn drained_ok(jobs: Map<i64, Seq<u8>>, v: Seq<(i64, Vec<u8>)>) -> bool {
    &&& forall|k: int|
        0 <= k < v.len() ==> jobs.contains_key((#[trigger] v[k]).0) && v[k].1@ == compress_of(
            jobs[v[k].0],
        )
    &&& forall|t: i64| #[trigger]
        jobs.contains_key(t) ==> exists|k: int| 0 <= k < v.len() && (#[trigger] v[k]).0 == t
    &&& forall|k1: int, k2: int|
        0 <= k1 < k2 < v.len() ==> (#[trigger] v[k1]).0 != (#[trigger] v[k2]).0
}

impl CompressPool {
    /// Relies on `std::sync::mpsc::channel` only.
    #[verifier::external_body]
    fn new() -> (r: CompressPool)
        ensures
            r.idle(),
    {
        let (sender, receiver) = channel();
        CompressPool { sender, receiver }
    }

    /// Relies on `rayon_core::spawn` and `zstd_safe::compress`: the
    /// worker compresses the buffer at the fixed level and sends the
    /// frame back tagged; compression into a buffer sized by
    /// `zstd_safe::compress_bound` cannot run out of room.
    #[verifier::external_body]
    fn submit(&mut self, tag: i64, data: Vec<u8>)
        requires
            !pool_jobs(*old(self)).contains_key(tag),
        ensures
            pool_jobs(*final(self)) == pool_jobs(*old(self)).insert(tag, data@),
    {
        let sender = self.sender.clone();
        rayon_core::spawn(move || {
            let mut dst = vec![0u8; zstd_safe::compress_bound(data.len())];
            let r = match zstd_safe::compress(dst.as_mut_slice(), &data, COMPRESSION_LEVEL) {
                Ok(n) => {
                    dst.truncate(n);
                    Ok(dst)
                },
                Err(_) => Err(()),
            };
            let _ = sender.send((tag, r));
        });
    }

    /// Relies on `std::sync::mpsc::Receiver::try_recv`: a completed
    /// job may be delivered, in completion order, or none if no worker
    /// has finished yet.
    #[verifier::external_body]
    fn try_collect(&mut self) -> (r: Result<Option<(i64, Vec<u8>)>, Error>)
        ensures
            r matches Ok(None) ==> pool_jobs(*final(self)) == pool_jobs(*old(self)),
            r matches Ok(Some(p)) ==> {
                &&& pool_jobs(*old(self)).contains_key(p.0)
                &&& p.1@ == compress_of(pool_jobs(*old(self))[p.0])
                &&& pool_jobs(*final(self)) == pool_jobs(*old(self)).remove(p.0)
            },
            r is Err ==> exists|t: i64|
                #![auto]
                pool_jobs(*old(self)).contains_key(t) && pool_jobs(*final(self)) == pool_jobs(
                    *old(self),
                ).remove(t),
            r matches Err(e) ==> e == Error::CompressError,
    {
        match self.receiver.try_recv() {
            Ok((tag, Ok(frame))) => Ok(Some((tag, frame))),
            Ok((_, Err(()))) => Err(Error::CompressError),
            Err(_) => Ok(None),
        }
    }

    /// Relies on dropping the sender and iterating the receiver: every
    /// outstanding worker result arrives exactly once, in completion
    /// order; a failed compression surfaces as the error.
    #[verifier::external_body]
    fn drain(self) -> (r: Result<Vec<(i64, Vec<u8>)>, Error>)
        ensures
            r matches Ok(v) ==> drained_ok(pool_jobs(self), v@),
            r matches Err(e) ==> e == Error::CompressError,
    {
        let CompressPool { sender, receiver } = self;
        drop(sender);
        let mut out = Vec::new();
        for (tag, res) in receiver.iter() {
            match res {
                Ok(frame) => out.push((tag, frame)),
                Err(()) => return Err(Error::CompressError),
            }
        }
        Ok(out)
    }
}

/// Appends every byte of `src` to `dst`.
pub fn push_bytes(dst: &mut Vec<u8>, src: &[u8])
    ensures
        final(dst)@ == old(dst)@ + src@,
{
    let mut i: usize = 0;
    while i < src.len()
        invariant
            i <= src@.len(),
            dst@ == old(dst)@ + src@.subrange(0, i as int),
        decreases src@.len() - i,
    {
        dst.push(src[i]);
        i = i + 1;
        assert(dst@ =~= old(dst)@ + src@.subrange(0, i as int));
    }
    assert(dst@ =~= old(dst)@ + src@);
}

/// A sequence contains an element exactly when its head is the element
/// or its tail contains it.
proof fn contains_head_rest<T>(s: Seq<T>, x: T)
    requires
        s.len() > 0,
    ensures
        s.contains(x) <==> (s[0] == x || s.drop_first().contains(x)),
{
    if s.contains(x) {
        let i = choose|i: int| 0 <= i < s.len() && s[i] == x;
        if i > 0 {
            assert(s.drop_first()[i - 1] == x);
        }
    }
    if s.drop_first().contains(x) {
        let j = choose|j: int| 0 <= j < s.drop_first().len() && s.drop_first()[j] == x;
        assert(s[j + 1] == x);
    }
}

/// A concatenation contains an element exactly when one of its parts
/// does.
proof fn concat_contains(a: Seq<u8>, b: Seq<u8>, x: u8)
    ensures
        (a + b).contains(x) <==> (a.contains(x) || b.contains(x)),
{
    if (a + b).contains(x) {
        let i = choose|i: int| 0 <= i < (a + b).len() && (a + b)[i] == x;
        if i < a.len() {
            assert(a[i] == x);
        } else {
            assert(b[i - a.len()] == x);
        }
    }
    if a.contains(x) {
        let i = choose|i: int| 0 <= i < a.len() && a[i] == x;
        assert((a + b)[i] == x);
    }
    if b.contains(x) {
        let i = choose|i: int| 0 <= i < b.len() && b[i] == x;
        assert((a + b)[a.len() + i] == x);
    }
}

/// The encoding of a Unicode scalar holds a zero byte exactly when the
/// scalar is zero.
proof fn scalar_nul(s: u32)
    requires
        is_scalar(s),
    ensures
        encode_scalar(s).contains(0u8) <==> s == 0,
{
    if s <= 0x7F {
        assert(((s & 0x7F) as u8 == 0) <==> s == 0) by (bit_vector)
            requires
                s <= 0x7F,
        ;
        if s == 0 {
            assert(encode_scalar(s)[0] == 0u8);
        } else {
            assert forall|i: int| 0 <= i < encode_scalar(s).len() implies encode_scalar(s)[i]
                != 0u8 by {}
        }
    } else {
        assert((0xC0u8 | ((s >> 6) & 0x1F) as u8) != 0) by (bit_vector);
        assert((0xE0u8 | ((s >> 12) & 0x0F) as u8) != 0) by (bit_vector);
        assert((0xF0u8 | ((s >> 18) & 0x7) as u8) != 0) by (bit_vector);
        assert((0x80u8 | (s & 0x3F) as u8) != 0) by (bit_vector);
        assert((0x80u8 | ((s >> 6) & 0x3F) as u8) != 0) by (bit_vector);
        assert((0x80u8 | ((s >> 12) & 0x3F) as u8) != 0) by (bit_vector);
        assert forall|i: int| 0 <= i < encode_scalar(s).len() implies encode_scalar(s)[i]
            != 0u8 by {}
    }
}

/// A character sequence holds the null character exactly when its
/// UTF-8 encoding holds a zero byte.
pub proof fn nul_free_encoding(chars: Seq<char>)
    ensures
        encode_utf8(chars).contains(0u8) <==> chars.contains('\0'),
    decreases chars.len(),
{
    if chars.len() == 0 {
        assert(!encode_utf8(chars).contains(0u8));
        assert(!chars.contains('\0'));
    } else {
        let c = chars[0];
        vstd::utf8::char_is_scalar(c);
        scalar_nul(c as u32);
        nul_free_encoding(chars.drop_first());
        concat_contains(encode_scalar(c as u32), encode_utf8(chars.drop_first()), 0u8);
        contains_head_rest(chars, '\0');
        vstd::utf8::char_u32_cast(c, c as u32);
        vstd::utf8::char_u32_cast('\0', '\0' as u32);
        assert('\0' as u32 == 0);
        assert(c == '\0' <==> c as u32 == 0);
    }
}

/// Accumulates null-terminated strings and compresses full buffers in
/// the background.
pub struct BackgroundCompressor {
    staging: Vec<u8>,
    pool: CompressPool,
}

impl BackgroundCompressor {
    /// The bytes accumulated since the last rotation.
    pub closed spec fn staged(&self) -> Seq<u8> {
        self.staging@
    }

    /// The buffers sent to the workers and not yet delivered, by tag.
    pub closed spec fn jobs(&self) -> Map<i64, Seq<u8>> {
        pool_jobs(self.pool)
    }

    pub fn new() -> (r: BackgroundCompressor)
        ensures
            r.staged() == Seq::<u8>::empty(),
            r.jobs() == Map::<i64, Seq<u8>>::empty(),
    {
        BackgroundCompressor { staging: Vec::new(), pool: CompressPool::new() }
    }

    pub fn len(&self) -> (r: usize)
        ensures
            r == self.staged().len(),
    {
        self.staging.len()
    }

    /// Appends `text` and a terminating null byte to the staging
    /// buffer and returns the offset `text` starts at.  Text holding a
    /// null character is refused before anything is written; so is
    /// text that would push an offset past the stored 32-bit range.
    pub fn push(&mut self, text: &str) -> (r: Result<u32, Error>)
        ensures
            r matches Ok(off) ==> {
                &&& !text@.contains('\0')
                &&& old(self).staged().len() + text.spec_bytes().len() + 1 <= u32::MAX
                &&& off == old(self).staged().len()
                &&& final(self).staged() == old(self).staged() + text.spec_bytes() + seq![0u8]
                &&& final(self).jobs() == old(self).jobs()
            },
            r is Err ==> *final(self) == *old(self),
            r == Err::<u32, Error>(Error::EmbeddedNul) <==> text@.contains('\0'),
            r matches Err(e) ==> e == Error::EmbeddedNul || e == Error::CompressError,
            !text@.contains('\0') && old(self).staged().len() + text.spec_bytes().len() + 1
                <= u32::MAX ==> r is Ok,
    {
        let bytes = text.as_bytes();
        let mut i: usize = 0;
        while i < bytes.len()
            invariant
                i <= bytes@.len(),
                bytes@ == text.spec_bytes(),
                forall|j: int| 0 <= j < i ==> bytes@[j] != 0u8,
            decreases bytes@.len() - i,
        {
            if bytes[i] == 0 {
                proof {
                    nul_free_encoding(text@);
                    assert(text.spec_bytes().contains(0u8));
                }
                return Err(Error::EmbeddedNul);
            }
            i = i + 1;
        }
        proof {
            nul_free_encoding(text@);
            if text.spec_bytes().contains(0u8) {
                let j = choose|j: int|
                    0 <= j < text.spec_bytes().len() && text.spec_bytes()[j] == 0u8;
                assert(false);
            }
        }
        let limit: usize = (u32::MAX as usize) - 1;
        if bytes.len() > limit || self.staging.len() > limit - bytes.len() {
            return Err(Error::CompressError);
        }
        let off: u32 = self.staging.len() as u32;
        push_bytes(&mut self.staging, bytes);
        self.staging.push(0);
        proof {
            assert(self.staged() =~= old(self).staged() + text.spec_bytes() + seq![0u8]);
        }
        Ok(off)
    }

    /// Swaps in an empty staging buffer, hands the filled one to the
    /// workers under `tag`, and delivers at most one previously
    /// completed buffer.
    pub fn rotate(&mut self, tag: i64) -> (r: Result<Option<(i64, Vec<u8>)>, Error>)
        requires
            !old(self).jobs().contains_key(tag),
        ensures
            r matches Ok(done) ==> {
                &&& final(self).staged() == Seq::<u8>::empty()
                &&& (done matches Some(p) ==> {
                    &&& old(self).jobs().contains_key(p.0)
                    &&& p.1@ == compress_of(old(self).jobs()[p.0])
                    &&& final(self).jobs() == old(self).jobs().remove(p.0).insert(
                        tag,
                        old(self).staged(),
                    )
                })
                &&& (done is None ==> final(self).jobs() == old(self).jobs().insert(
                    tag,
                    old(self).staged(),
                ))
            },
            r is Err ==> final(self).staged() == old(self).staged() && exists|t: i64|
                #![auto]
                old(self).jobs().contains_key(t) && final(self).jobs() == old(
                    self,
                ).jobs().remove(t),
            r matches Err(e) ==> e == Error::CompressError,
    {
        let done = match self.pool.try_collect() {
            Ok(d) => d,
            Err(e) => {
                return Err(e);
            },
        };
        let mut buf: Vec<u8> = Vec::new();
        core::mem::swap(&mut buf, &mut self.staging);
        self.pool.submit(tag, buf);
        Ok(done)
    }

    /// Sends any unfinished staging buffer to the workers under `tag`
    /// and waits for every outstanding buffer, returning the compressed
    /// frames in completion order.
    pub fn finish(self, tag: i64) -> (r: Result<Vec<(i64, Vec<u8>)>, Error>)
        requires
            !self.jobs().contains_key(tag),
        ensures
            r matches Ok(v) ==> drained_ok(
                if self.staged().len() > 0 {
                    self.jobs().insert(tag, self.staged())
                } else {
                    self.jobs()
                },
                v@,
            ),
            r matches Err(e) ==> e == Error::CompressError,
    {
        let BackgroundCompressor { staging, mut pool } = self;
        if staging.len() > 0 {
            pool.submit(tag, staging);
        }
        pool.drain()
    }
}

/// Reads back the original bytes of one compressed frame.
pub struct Decompressor {
    buffer: Vec<u8>,
}

impl View for Decompressor {
    type V = Seq<u8>;

    closed spec fn view(&self) -> Seq<u8> {
        self.buffer@
    }
}

/// Relies on `zstd_safe::get_frame_content_size`: it reports the
/// declared content size of the frame's header, and a frame written by
/// the simple compression path declares its uncompressed size.
#[verifier::external_body]
fn frame_content_size(frame: &[u8]) -> (r: Result<Option<u64>, Error>)
    ensures
        r matches Ok(v) ==> frame_size_of(frame@) matches Ok(fv) && fv == v,
        r is Err <==> frame_size_of(frame@) is Err,
        r matches Ok(v) ==> forall|s: Seq<u8>|
            frame@ == compress_of(s) && s.len() <= u64::MAX ==> v == Some(s.len() as u64),
        r is Ok <== exists|s: Seq<u8>| frame@ == compress_of(s) && s.len() <= u64::MAX,
        r matches Err(e) ==> e == Error::DecompressError,
{
    match zstd_safe::get_frame_content_size(frame) {
        Ok(size) => Ok(size),
        Err(_) => Err(Error::DecompressError),
    }
}

/// Relies on `zstd_safe::decompress`: decompression is the inverse of
/// compression, so a frame the codec produced yields exactly the bytes
/// it was given, provided the output buffer is large enough.
#[verifier::external_body]
fn zstd_decompress(frame: &[u8], capacity: usize) -> (r: Result<Vec<u8>, Error>)
    ensures
        r matches Ok(b) ==> forall|s: Seq<u8>|
            frame@ == compress_of(s) && s.len() <= capacity ==> b@ == s,
        r is Ok <== exists|s: Seq<u8>| frame@ == compress_of(s) && s.len() <= capacity,
        r matches Err(e) ==> e == Error::DecompressError,
{
    let mut dst = vec![0u8; capacity];
    match zstd_safe::decompress(dst.as_mut_slice(), frame) {
        Ok(n) => {
            dst.truncate(n);
            Ok(dst)
        },
        Err(_) => Err(Error::DecompressError),
    }
}

impl Decompressor {
    pub fn new() -> (r: Decompressor)
        ensures
            r@ == Seq::<u8>::empty(),
    {
        Decompressor { buffer: Vec::new() }
    }

    /// The bytes of the most recently decompressed frame.
    pub fn buf(&self) -> (r: &[u8])
        ensures
            r@ == self@,
    {
        self.buffer.as_slice()
    }

    /// Replaces the held buffer by the decompressed content of
    /// `compr`.  Fails with `UnknownFrameSize` exactly when the frame
    /// declares no uncompressed size; on failure the held buffer is
    /// unchanged.
    pub fn decompress(&mut self, compr: &[u8]) -> (r: Result<(), Error>)
        ensures
            forall|s: Seq<u8>|
                compr@ == compress_of(s) && s.len() <= usize::MAX ==> r is Ok && final(self)@
                    == s,
            r is Err ==> final(self)@ == old(self)@,
            r == Err::<(), Error>(Error::UnknownFrameSize) <==> frame_size_of(compr@) == Ok::<
                Option<u64>,
                (),
            >(None::<u64>),
            r is Err ==> (r == Err::<(), Error>(Error::UnknownFrameSize) || r == Err::<
                (),
                Error,
            >(Error::DecompressError)),
    {
        let n = match frame_content_size(compr) {
            Ok(Some(n)) => n,
            Ok(None) => {
                return Err(Error::UnknownFrameSize);
            },
            Err(e) => {
                return Err(e);
            },
        };
        if n > usize::MAX as u64 {
            return Err(Error::DecompressError);
        }
        let out = match zstd_decompress(compr, n as usize) {
            Ok(out) => out,
            Err(e) => {
                return Err(e);
            },
        };
        self.buffer = out;
        Ok(())
    }
}

} // verus!

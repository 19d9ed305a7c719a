//! Output sinks for the encoders.
//!
//! [`WireWrite`] is the sink abstraction the encoders are generic over, so a
//! single proof covers both paths: the bounds-checked, growable
//! [`BufferChain`], and the exact-presized [`FlatBuf`] whose capacity must be
//! established by the size pass before any write. [`BufferChain`]
//! additionally supports zero-copy segments: shared-ownership byte buffers
//! welded into the output without copying.

use bytes::Bytes;
use vstd::prelude::*;

use crate::extbytes::{bytes_as_slice, bytes_len, bytes_seq};

verus! {

/// An ordered output sink for wire bytes.
///
/// `room()` is the byte count the sink still accepts: effectively unbounded
/// for the growable chain, and exactly the remaining allocation for the
/// exact-presized buffer. A write of `n` bytes needs `room() >= n` and
/// consumes exactly `n` of it.
pub trait WireWrite: Sized {
    /// The bytes appended so far.
    spec fn wview(&self) -> Seq<u8>;

    /// The sink's internal invariant.
    spec fn wwf(&self) -> bool;

    /// How many more bytes may be written.
    spec fn room(&self) -> int;

    /// Append one byte.
    fn put_byte(&mut self, b: u8)
        requires
            old(self).wwf(),
            old(self).room() >= 1,
        ensures
            final(self).wwf(),
            final(self).wview() == old(self).wview().push(b),
            final(self).room() == old(self).room() - 1,
    ;

    /// Append a slice of bytes.
    fn put_slice(&mut self, s: &[u8])
        requires
            old(self).wwf(),
            old(self).room() >= s@.len(),
        ensures
            final(self).wwf(),
            final(self).wview() == old(self).wview() + s@,
            final(self).room() == old(self).room() - s@.len(),
    ;
}

/// One segment of a buffer chain: bytes copied into owned storage, or a
/// shared-ownership handle to externally owned storage.
pub enum BufferSegment {
    Owned(Vec<u8>),
    ZeroCopy(Bytes),
}

impl BufferSegment {
    /// The bytes the segment contributes to the output.
    pub open spec fn seg_bytes(self) -> Seq<u8> {
        match self {
            BufferSegment::Owned(v) => v@,
            BufferSegment::ZeroCopy(b) => bytes_seq(b),
        }
    }

    /// The bytes the segment holds in owned (copied) storage.
    pub open spec fn seg_copied(self) -> nat {
        match self {
            BufferSegment::Owned(v) => v@.len(),
            BufferSegment::ZeroCopy(_) => 0,
        }
    }
}

/// The concatenated bytes of a sequence of segments.
pub open spec fn segs_bytes(s: Seq<BufferSegment>) -> Seq<u8>
    decreases s.len(),
{
    if s.len() == 0 {
        Seq::empty()
    } else {
        segs_bytes(s.drop_last()) + s.last().seg_bytes()
    }
}

/// The copied-byte count of a sequence of segments.
pub open spec fn segs_copied(s: Seq<BufferSegment>) -> nat
    decreases s.len(),
{
    if s.len() == 0 {
        0
    } else {
        segs_copied(s.drop_last()) + s.last().seg_copied()
    }
}

pub proof fn lemma_segs_push(s: Seq<BufferSegment>, seg: BufferSegment)
    ensures
        segs_bytes(s.push(seg)) == segs_bytes(s) + seg.seg_bytes(),
        segs_copied(s.push(seg)) == segs_copied(s) + seg.seg_copied(),
{
    assert(s.push(seg).drop_last() =~= s);
    assert(s.push(seg).last() == seg);
}

/// An appendable sequence of byte segments: the output of an encode call.
///
/// Owned bytes are copied into the open tail segment; zero-copy appends
/// close the tail and push a shared-ownership segment. The chain is
/// finalized by streaming its segments, in order, to a sink.
pub struct BufferChain {
    pub segments: Vec<BufferSegment>,
    pub tail: Vec<u8>,
    pub total: usize,
    pub copied: usize,
}

impl BufferChain {
    /// The chain's internal invariant: the cached counters match the
    /// segment contents.
    pub open spec fn wf_chain(self) -> bool {
        &&& self.total == segs_bytes(self.segments@).len() + self.tail@.len()
        &&& self.copied == segs_copied(self.segments@) + self.tail@.len()
        &&& segs_copied(self.segments@) <= segs_bytes(self.segments@).len()
    }

    /// All bytes appended so far, in order.
    pub open spec fn chain_bytes(self) -> Seq<u8> {
        segs_bytes(self.segments@) + self.tail@
    }

    /// The bytes held in owned (copied) storage.
    pub open spec fn copied_bytes(self) -> nat {
        segs_copied(self.segments@) + self.tail@.len()
    }

    /// An empty chain.
    pub fn new() -> (r: BufferChain)
        ensures
            r.wf_chain(),
            r.chain_bytes() == Seq::<u8>::empty(),
            r.copied_bytes() == 0,
    {
        let r = BufferChain { segments: Vec::new(), tail: Vec::new(), total: 0, copied: 0 };
        assert(r.chain_bytes() =~= Seq::<u8>::empty());
        r
    }

    /// Bytes appended so far.
    pub fn current_length(&self) -> (r: usize)
        requires
            self.wf_chain(),
        ensures
            r == self.chain_bytes().len(),
    {
        self.total
    }

    /// Bytes held in owned storage; the remainder of the output is carried
    /// by zero-copy segments.
    pub fn copied_length(&self) -> (r: usize)
        requires
            self.wf_chain(),
        ensures
            r == self.copied_bytes(),
    {
        self.copied
    }

    /// Grow the open owned segment in advance; the contents are unchanged.
    pub fn reserve(&mut self, n: usize)
        requires
            old(self).wf_chain(),
        ensures
            final(self).wf_chain(),
            final(self).chain_bytes() == old(self).chain_bytes(),
            final(self).copied_bytes() == old(self).copied_bytes(),
    {
        self.tail.reserve(n);
    }

    /// Copy bytes into the open owned segment.
    pub fn append_owned(&mut self, s: &[u8])
        requires
            old(self).wf_chain(),
            old(self).chain_bytes().len() + s@.len() <= usize::MAX,
        ensures
            final(self).wf_chain(),
            final(self).chain_bytes() == old(self).chain_bytes() + s@,
            final(self).copied_bytes() == old(self).copied_bytes() + s@.len(),
    {
        self.tail.extend_from_slice(s);
        self.total = self.total + s.len();
        self.copied = self.copied + s.len();
        assert(final(self).chain_bytes() =~= old(self).chain_bytes() + s@);
    }

    /// Weld a zero-copy segment into the chain: the open owned segment is
    /// closed and the shared handle is pushed without copying its contents.
    pub fn append_zero_copy(&mut self, b: Bytes)
        requires
            old(self).wf_chain(),
            old(self).chain_bytes().len() + bytes_seq(b).len() <= usize::MAX,
        ensures
            final(self).wf_chain(),
            final(self).chain_bytes() == old(self).chain_bytes() + bytes_seq(b),
            final(self).copied_bytes() == old(self).copied_bytes(),
    {
        let n = bytes_len(&b);
        if self.tail.len() > 0 {
            let mut t: Vec<u8> = Vec::new();
            core::mem::swap(&mut t, &mut self.tail);
            let ghost segs0 = self.segments@;
            self.segments.push(BufferSegment::Owned(t));
            proof {
                lemma_segs_push(segs0, BufferSegment::Owned(t));
            }
        }
        let ghost segs1 = self.segments@;
        self.segments.push(BufferSegment::ZeroCopy(b));
        proof {
            lemma_segs_push(segs1, BufferSegment::ZeroCopy(b));
        }
        self.total = self.total + n;
        assert(final(self).chain_bytes() =~= old(self).chain_bytes() + bytes_seq(b));
        assert(final(self).tail@ =~= Seq::<u8>::empty());
    }

    /// Stream every segment, in order, to the sink. The chain never becomes
    /// one contiguous block itself; only the sink's demand for contiguous
    /// bytes forces the zero-copy segments to be copied here.
    pub fn finalize(&self, sink: &mut Vec<u8>)
        requires
            old(sink)@.len() + self.chain_bytes().len() <= usize::MAX,
        ensures
            final(sink)@ == old(sink)@ + self.chain_bytes(),
    {
        let ghost segs = self.segments@;
        let n = self.segments.len();
        let mut i: usize = 0;
        while i < n
            invariant
                n == segs.len(),
                i <= n,
                segs == self.segments@,
                old(sink)@.len() + self.chain_bytes().len() <= usize::MAX,
                segs_bytes(segs.take(i as int)).len() <= segs_bytes(segs).len(),
                sink@ == old(sink)@ + segs_bytes(segs.take(i as int)),
            decreases n - i,
        {
            proof {
                lemma_segs_bytes_take(segs, i as int);
                lemma_segs_bytes_take_le(segs, i + 1);
            }
            match &self.segments[i] {
                BufferSegment::Owned(v) => {
                    sink.extend_from_slice(v.as_slice());
                },
                BufferSegment::ZeroCopy(b) => {
                    let s = bytes_as_slice(b);
                    sink.extend_from_slice(s);
                },
            }
            assert(sink@ =~= old(sink)@ + segs_bytes(segs.take(i + 1)));
            i = i + 1;
        }
        assert(segs.take(n as int) =~= segs);
        sink.extend_from_slice(self.tail.as_slice());
        assert(sink@ =~= old(sink)@ + self.chain_bytes());
    }
}

/// Splitting off the last of the first `i + 1` segments.
pub proof fn lemma_segs_bytes_take(s: Seq<BufferSegment>, i: int)
    requires
        0 <= i < s.len(),
    ensures
        segs_bytes(s.take(i + 1)) == segs_bytes(s.take(i)) + s[i].seg_bytes(),
        segs_copied(s.take(i + 1)) == segs_copied(s.take(i)) + s[i].seg_copied(),
{
    assert(s.take(i + 1).drop_last() =~= s.take(i));
    assert(s.take(i + 1).last() == s[i]);
}

/// A prefix of the segments contributes no more bytes than all of them.
pub proof fn lemma_segs_bytes_take_le(s: Seq<BufferSegment>, i: int)
    requires
        0 <= i <= s.len(),
    ensures
        segs_bytes(s.take(i)).len() <= segs_bytes(s).len(),
    decreases s.len() - i,
{
    if i < s.len() {
        lemma_segs_bytes_take(s, i);
        lemma_segs_bytes_take_le(s, i + 1);
    } else {
        assert(s.take(i) =~= s);
    }
}

impl WireWrite for BufferChain {
    open spec fn wview(&self) -> Seq<u8> {
        self.chain_bytes()
    }

    open spec fn wwf(&self) -> bool {
        self.wf_chain()
    }

    open spec fn room(&self) -> int {
        usize::MAX - self.chain_bytes().len()
    }

    fn put_byte(&mut self, b: u8) {
        self.tail.push(b);
        self.total = self.total + 1;
        self.copied = self.copied + 1;
        assert(final(self).chain_bytes() =~= old(self).chain_bytes().push(b));
    }

    fn put_slice(&mut self, s: &[u8]) {
        self.append_owned(s);
    }
}

/// A contiguous buffer of fixed capacity, filled front to back.
///
/// This is the exact-presized encode path: the caller allocates exactly the
/// byte count the size pass computed, and every write is proved, not
/// checked, to stay within that allocation. The buffer never grows.
pub struct FlatBuf {
    pub data: Vec<u8>,
    pub pos: usize,
}

impl FlatBuf {
    /// The fixed capacity.
    pub open spec fn cap(self) -> nat {
        self.data@.len()
    }

    /// Bytes written so far.
    pub open spec fn flat_bytes(self) -> Seq<u8> {
        self.data@.take(self.pos as int)
    }

    /// A zeroed buffer of exactly `n` bytes, with nothing written yet.
    pub fn with_exact_size(n: usize) -> (r: FlatBuf)
        ensures
            r.wwf(),
            r.cap() == n,
            r.room() == n,
            r.flat_bytes() == Seq::<u8>::empty(),
    {
        let data: Vec<u8> = vec![0u8; n];
        let r = FlatBuf { data, pos: 0 };
        assert(r.flat_bytes() =~= Seq::<u8>::empty());
        r
    }

    /// The filled buffer, once every reserved byte has been written.
    pub fn into_vec(self) -> (r: Vec<u8>)
        requires
            self.wwf(),
            self.room() == 0,
        ensures
            r@ == self.flat_bytes(),
    {
        assert(self.data@.take(self.pos as int) =~= self.data@);
        self.data
    }
}

impl WireWrite for FlatBuf {
    open spec fn wview(&self) -> Seq<u8> {
        self.flat_bytes()
    }

    open spec fn wwf(&self) -> bool {
        self.pos <= self.data@.len()
    }

    open spec fn room(&self) -> int {
        self.data@.len() - self.pos
    }

    fn put_byte(&mut self, b: u8) {
        let p = self.pos;
        let n = self.data.len();
        self.data[p] = b;
        self.pos = p + 1;
        assert(final(self).flat_bytes() =~= old(self).flat_bytes().push(b));
    }

    fn put_slice(&mut self, s: &[u8]) {
        let len = s.len();
        let cap = self.data.len();
        let mut i: usize = 0;
        while i < len
            invariant
                len == s@.len(),
                i <= len,
                cap == self.data@.len(),
                old(self).pos + len <= old(self).data@.len(),
                self.pos == old(self).pos + i,
                self.data@.len() == old(self).data@.len(),
                self.flat_bytes() == old(self).flat_bytes() + s@.take(i as int),
            decreases len - i,
        {
            assert(i < len);
            let p = self.pos;
            let ghost before = *self;
            self.data[p] = s[i];
            self.pos = p + 1;
            proof {
                assert(self.data@ == before.data@.update(p as int, s@[i as int]));
                assert(before.flat_bytes() == old(self).flat_bytes() + s@.take(i as int));
                assert forall|j: int| 0 <= j < p + 1 implies #[trigger] (self.data@.take(p + 1)[j])
                    == (old(self).flat_bytes() + s@.take(i + 1))[j] by {
                    if j < p {
                        assert(self.data@[j] == before.data@[j]);
                        assert(before.data@.take(p as int)[j] == before.data@[j]);
                    }
                }
                assert(self.data@.take(p + 1) =~= old(self).flat_bytes() + s@.take(i + 1));
            }
            i = i + 1;
        }
        assert(s@.take(len as int) =~= s@);
    }
}


impl WireWrite for Vec<u8> {
    open spec fn wview(&self) -> Seq<u8> {
        self@
    }

    open spec fn wwf(&self) -> bool {
        true
    }

    open spec fn room(&self) -> int {
        usize::MAX - self@.len()
    }

    fn put_byte(&mut self, b: u8) {
        self.push(b);
    }

    fn put_slice(&mut self, s: &[u8]) {
        self.extend_from_slice(s);
    }
}

} // verus!

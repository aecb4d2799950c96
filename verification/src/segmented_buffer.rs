//! A logical byte stream laid out over an ordered sequence of fixed-size
//! segments.
//!
//! `SegmentedBuf` owns the segments and a write cursor; bytes are appended
//! into the last partially filled segment and never move again.  A read
//! cursor over the same segments advances independently and can be rewound
//! without discarding writes.  `SegmentedPoolBuf` composes such a buffer
//! with a `SegmentPool`: when the current segment is exhausted it acquires
//! a fresh chunk, growing the pool if need be, subject to an optional
//! maximum total size that enforces backpressure.

use vstd::prelude::*;
use vstd::slice::slice_subrange;
use crate::segment_pool::Buffer;
use crate::segment_pool::SegmentPool;

verus! {

/// The bytes of a sequence of segments, in order.
pub open spec fn segs_content(bs: Seq<Seq<u8>>) -> Seq<u8>
    decreases bs.len(),
{
    if bs.len() == 0 {
        seq![]
    } else {
        segs_content(bs.drop_last()) + bs.last()
    }
}

/// The total length of the first `k` segments.
pub open spec fn sum_lens(bs: Seq<Seq<u8>>, k: int) -> int
    decreases k,
{
    if k <= 0 {
        0
    } else {
        sum_lens(bs, k - 1) + bs[k - 1].len()
    }
}

proof fn lemma_sum_lens_agree(bs: Seq<Seq<u8>>, cs: Seq<Seq<u8>>, k: int)
    requires
        0 <= k,
        k <= bs.len(),
        k <= cs.len(),
        forall|i: int| 0 <= i < k ==> bs[i] == cs[i],
    ensures
        sum_lens(bs, k) == sum_lens(cs, k),
    decreases k,
{
    if k > 0 {
        lemma_sum_lens_agree(bs, cs, k - 1);
    }
}

proof fn lemma_sum_lens_mono(bs: Seq<Seq<u8>>, k1: int, k2: int)
    requires
        0 <= k1 <= k2,
    ensures
        sum_lens(bs, k1) <= sum_lens(bs, k2),
        sum_lens(bs, k1) >= 0 || k1 > bs.len(),
    decreases k2,
{
    if k2 > 0 {
        if k1 == k2 {
            lemma_sum_lens_mono(bs, 0, k1 - 1);
        } else {
            lemma_sum_lens_mono(bs, k1, k2 - 1);
        }
    }
}

proof fn lemma_segs_content_len(bs: Seq<Seq<u8>>)
    ensures
        segs_content(bs).len() == sum_lens(bs, bs.len() as int),
    decreases bs.len(),
{
    if bs.len() > 0 {
        lemma_segs_content_len(bs.drop_last());
        lemma_sum_lens_agree(bs.drop_last(), bs, bs.len() - 1);
    }
}

/// Content of a sequence of segments whose last one grew: the new bytes land
/// at the very end, provided every segment after the grown one is empty.
proof fn lemma_segs_content_append_at(bs: Seq<Seq<u8>>, p: int, x: Seq<u8>)
    requires
        0 <= p < bs.len(),
        forall|i: int| p < i < bs.len() ==> (#[trigger] bs[i]).len() == 0,
    ensures
        segs_content(bs.update(p, bs[p] + x)) == segs_content(bs) + x,
    decreases bs.len(),
{
    let bs2 = bs.update(p, bs[p] + x);
    if p == bs.len() - 1 {
        assert(bs2.drop_last() =~= bs.drop_last());
        assert(segs_content(bs2) == segs_content(bs.drop_last()) + (bs[p] + x));
        assert(segs_content(bs.drop_last()) + (bs[p] + x) =~= (segs_content(bs.drop_last())
            + bs[p]) + x);
    } else {
        lemma_segs_content_append_at(bs.drop_last(), p, x);
        assert(bs2.drop_last() =~= bs.drop_last().update(p, bs[p] + x));
        assert(bs.last().len() == 0);
        assert(bs2.last() == bs.last());
        assert(segs_content(bs2) == (segs_content(bs.drop_last()) + x) + bs.last());
        assert((segs_content(bs.drop_last()) + x) + bs.last() =~= (segs_content(bs.drop_last())
            + bs.last()) + x);
    }
}

/// Pushing a segment appends its bytes.
proof fn lemma_segs_content_push(bs: Seq<Seq<u8>>, x: Seq<u8>)
    ensures
        segs_content(bs.push(x)) == segs_content(bs) + x,
{
    assert(bs.push(x).drop_last() =~= bs);
}

/// A byte of segment `k` stands in the whole content at the offset of that
/// segment plus its index within it.
proof fn lemma_segs_content_index(bs: Seq<Seq<u8>>, k: int, j: int)
    requires
        0 <= k < bs.len(),
        0 <= j < bs[k].len(),
    ensures
        0 <= sum_lens(bs, k) + j < segs_content(bs).len(),
        segs_content(bs)[sum_lens(bs, k) + j] == bs[k][j],
    decreases bs.len(),
{
    lemma_segs_content_len(bs);
    lemma_sum_lens_mono(bs, 0, k);
    lemma_sum_lens_mono(bs, k + 1, bs.len() as int);
    if k == bs.len() - 1 {
        lemma_segs_content_len(bs.drop_last());
        lemma_sum_lens_agree(bs.drop_last(), bs, k);
    } else {
        lemma_segs_content_index(bs.drop_last(), k, j);
        lemma_sum_lens_agree(bs.drop_last(), bs, k);
    }
}

/// A slice within one segment equals the matching subrange of the whole
/// content.
proof fn lemma_segs_content_subrange(bs: Seq<Seq<u8>>, k: int, i: int, j: int)
    requires
        0 <= k < bs.len(),
        0 <= i <= j <= bs[k].len(),
    ensures
        0 <= sum_lens(bs, k) + i,
        sum_lens(bs, k) + j <= segs_content(bs).len(),
        segs_content(bs).subrange(sum_lens(bs, k) + i, sum_lens(bs, k) + j) == bs[k].subrange(
            i,
            j,
        ),
{
    lemma_segs_content_len(bs);
    lemma_sum_lens_mono(bs, 0, k);
    lemma_sum_lens_mono(bs, k + 1, bs.len() as int);
    let base = sum_lens(bs, k);
    assert forall|u: int| base + i <= u < base + j implies #[trigger] segs_content(bs)[u] == bs[k][u
        - base] by {
        lemma_segs_content_index(bs, k, u - base);
    }
    assert(segs_content(bs).subrange(base + i, base + j) =~= bs[k].subrange(i, j));
}

/// An ordered sequence of segments with a write cursor and one read cursor.
pub struct SegmentedBuf {
    bufs: Vec<Buffer>,
    pos: usize,
    offset: usize,
    length: usize,
    read_pos: usize,
    read_offset: usize,
    read_consumed: usize,
    segment_size: usize,
}

impl SegmentedBuf {
    /// The segments' bytes, as mathematical sequences.
    pub closed spec fn seg_views(self) -> Seq<Seq<u8>> {
        self.bufs@.map_values(|b: Buffer| b@)
    }

    /// Every byte written so far, in write order.
    pub open spec fn content(self) -> Seq<u8> {
        segs_content(self.seg_views())
    }

    /// The configured size of one segment.
    pub closed spec fn spec_segment_size(self) -> nat {
        self.segment_size as nat
    }

    /// How many segments are attached.
    pub closed spec fn seg_count(self) -> nat {
        self.bufs@.len()
    }

    /// Absolute position of the read cursor within `content()`.
    pub closed spec fn read_index(self) -> int {
        self.read_consumed as int
    }

    /// Bytes attached but not yet filled.
    pub open spec fn free_space(self) -> int {
        self.seg_count() * self.spec_segment_size() - self.content().len()
    }

    /// Well-formedness: segments before the write cursor are full, the one at
    /// it holds exactly `offset` bytes, later ones are empty; the cached
    /// length and read cursor agree with the segment contents; and the read
    /// cursor never precedes the write cursor.
    pub closed spec fn wf(self) -> bool {
        &&& self.segment_size >= 1
        &&& self.pos <= self.bufs@.len()
        &&& self.offset <= self.segment_size
        &&& (self.pos == self.bufs@.len() ==> self.offset == 0)
        &&& (forall|i: int|
            0 <= i < self.pos ==> (#[trigger] self.seg_views()[i]).len() == self.segment_size)
        &&& (self.pos < self.bufs@.len() ==> self.seg_views()[self.pos as int].len()
            == self.offset)
        &&& (forall|i: int|
            self.pos < i < self.bufs@.len() ==> (#[trigger] self.seg_views()[i]).len() == 0)
        &&& self.length == self.content().len()
        &&& self.read_pos <= self.pos
        &&& (self.read_pos < self.pos ==> self.read_offset < self.segment_size)
        &&& (self.read_pos < self.bufs@.len() ==> self.read_offset <= self.seg_views()[
            self.read_pos as int].len())
        &&& (self.read_pos == self.bufs@.len() ==> self.read_offset == 0)
        &&& self.read_consumed == sum_lens(self.seg_views(), self.read_pos as int)
            + self.read_offset
        &&& self.read_consumed <= self.length
    }

    /// The content holds exactly the full segments before the cursor plus
    /// the partial one at it.
    proof fn lemma_wf_sum_lens(self, k: int)
        requires
            self.wf(),
            0 <= k <= self.seg_count(),
        ensures
            sum_lens(self.seg_views(), k) == if k <= self.pos {
                k * self.spec_segment_size()
            } else {
                self.pos * self.spec_segment_size() + self.offset
            },
        decreases k,
    {
        if k > 0 {
            self.lemma_wf_sum_lens(k - 1);
            let sv = self.seg_views();
            assert(sum_lens(sv, k) == sum_lens(sv, k - 1) + sv[k - 1].len());
            if k <= self.pos {
                assert(sv[k - 1].len() == self.segment_size);
                assert((k - 1) * self.spec_segment_size() + self.spec_segment_size() == k
                    * self.spec_segment_size()) by (nonlinear_arith);
            } else if k - 1 == self.pos {
                assert(self.pos < self.bufs@.len());
                assert(sv[k - 1].len() == self.offset);
            } else {
                assert(sv[k - 1].len() == 0);
            }
        }
        if k == 0 {
            assert(sum_lens(self.seg_views(), 0) == 0);
            assert(k * self.spec_segment_size() == 0);
            assert(k <= self.pos);
        }
        assert(sum_lens(self.seg_views(), k) == if k <= self.pos {
            k * self.spec_segment_size()
        } else {
            self.pos * self.spec_segment_size() + self.offset
        });
    }

    /// A well-formed buffer never holds more than its attached capacity.
    proof fn lemma_free_space_nonneg(self)
        requires
            self.wf(),
        ensures
            self.free_space() >= 0,
    {
        self.lemma_wf_content_len();
        assert(self.pos * self.spec_segment_size() + self.spec_segment_size() <= self.seg_count()
            * self.spec_segment_size() || self.pos == self.seg_count()) by (nonlinear_arith)
            requires self.pos <= self.seg_count(), self.spec_segment_size() >= 1;
    }

    /// Total length in terms of the write cursor.
    proof fn lemma_wf_content_len(self)
        requires
            self.wf(),
        ensures
            self.content().len() == self.pos * self.spec_segment_size() + self.offset,
    {
        lemma_segs_content_len(self.seg_views());
        self.lemma_wf_sum_lens(self.seg_count() as int);
        if self.pos == self.seg_count() {
            assert(self.offset == 0);
        }
    }

    /// An empty buffer whose segments hold 16 KiB each.
    pub fn new() -> (b: SegmentedBuf)
        ensures
            b.wf(),
            b.content() =~= Seq::<u8>::empty(),
            b.seg_count() == 0,
            b.spec_segment_size() == 16384,
            b.read_index() == 0,
    {
        SegmentedBuf::with_segment_size(16384)
    }

    /// An empty buffer with the given segment size.
    pub fn with_segment_size(segment_size: usize) -> (b: SegmentedBuf)
        requires
            segment_size >= 1,
        ensures
            b.wf(),
            b.content() =~= Seq::<u8>::empty(),
            b.seg_count() == 0,
            b.spec_segment_size() == segment_size,
            b.read_index() == 0,
    {
        let b = SegmentedBuf {
            bufs: Vec::new(),
            pos: 0,
            offset: 0,
            length: 0,
            read_pos: 0,
            read_offset: 0,
            read_consumed: 0,
            segment_size,
        };
        proof {
            assert(b.seg_views() =~= Seq::<Seq<u8>>::empty());
        }
        b
    }

    /// Append a fresh (empty) segment after the current ones.
    pub fn attach(&mut self, buf: Buffer)
        requires
            old(self).wf(),
            buf@.len() == 0,
        ensures
            final(self).wf(),
            final(self).content() == old(self).content(),
            final(self).seg_count() == old(self).seg_count() + 1,
            final(self).spec_segment_size() == old(self).spec_segment_size(),
            final(self).read_index() == old(self).read_index(),
    {
        proof {
            lemma_segs_content_push(old(self).seg_views(), buf@);
        }
        self.bufs.push(buf);
        proof {
            assert(self.seg_views() =~= old(self).seg_views().push(buf@));
            assert(self.content() =~= old(self).content());
            lemma_sum_lens_agree(self.seg_views(), old(self).seg_views(), self.read_pos as int);
        }
    }

    /// Rewind the read cursor to the first byte without discarding writes.
    pub fn reset_read(&mut self)
        requires
            old(self).wf(),
        ensures
            final(self).wf(),
            final(self).content() == old(self).content(),
            final(self).seg_count() == old(self).seg_count(),
            final(self).spec_segment_size() == old(self).spec_segment_size(),
            final(self).read_index() == 0,
            final(self).free_space() == old(self).free_space(),
    {
        self.read_pos = 0;
        self.read_offset = 0;
        self.read_consumed = 0;
        proof {
            assert(final(self).seg_views() =~= old(self).seg_views());
        }
    }

    /// Total number of bytes written so far.
    pub fn len(&self) -> (n: usize)
        requires
            self.wf(),
        ensures
            n == self.content().len(),
    {
        self.length
    }

    /// Bytes between the read cursor and the end of the written content.
    pub fn remaining(&self) -> (n: usize)
        requires
            self.wf(),
        ensures
            n == self.content().len() - self.read_index(),
    {
        self.length - self.read_consumed
    }

    /// Number of attached segments.
    pub fn segment_count(&self) -> (n: usize)
        ensures
            n == self.seg_count(),
    {
        self.bufs.len()
    }

    /// The configured segment size.
    pub fn segment_size(&self) -> (n: usize)
        ensures
            n == self.spec_segment_size(),
    {
        self.segment_size
    }

    /// Copy bytes into the attached segments, filling the one under the
    /// write cursor and walking forward while attached segments remain.
    /// Returns how many bytes were consumed: all of them, unless every
    /// attached segment filled up first.
    #[verifier::loop_isolation(false)]
    pub fn write(&mut self, data: &[u8]) -> (n: usize)
        requires
            old(self).wf(),
            old(self).content().len() + data@.len() <= usize::MAX,
        ensures
            final(self).wf(),
            n <= data@.len(),
            n == if data@.len() <= old(self).free_space() {
                data@.len() as int
            } else {
                old(self).free_space()
            },
            final(self).content() == old(self).content() + data@.take(n as int),
            final(self).seg_count() == old(self).seg_count(),
            final(self).spec_segment_size() == old(self).spec_segment_size(),
            final(self).read_index() == old(self).read_index(),
            final(self).free_space() == old(self).free_space() - n,
    {
        proof {
            old(self).lemma_wf_content_len();
            assert(data@.take(0) =~= Seq::<u8>::empty());
            assert(old(self).content() + Seq::<u8>::empty() =~= old(self).content());
        }
        let ghost orig = *old(self);
        let mut written: usize = 0;
        loop
            invariant
                self.wf(),
                written <= data@.len(),
                orig.content().len() + data@.len() <= usize::MAX,
                self.content() == orig.content() + data@.take(written as int),
                self.seg_count() == orig.seg_count(),
                self.spec_segment_size() == orig.spec_segment_size(),
                self.read_index() == orig.read_index(),
                self.free_space() == orig.free_space() - written,
            decreases data@.len() - written, self.bufs@.len() - self.pos,
        {
            proof {
                self.lemma_wf_content_len();
            }
            if written >= data.len() || self.pos >= self.bufs.len() {
                proof {
                    self.lemma_free_space_nonneg();
                    if written < data@.len() {
                        assert(self.offset == 0);
                        assert(self.content().len() == self.pos * self.spec_segment_size());
                        assert(self.free_space() == 0);
                    } else {
                        assert(data@.take(written as int) =~= data@);
                    }
                }
                return written;
            }
            let avail = self.segment_size - self.offset;
            if avail == 0 {
                let ghost before = *self;
                self.pos = self.pos + 1;
                self.offset = 0;
                if self.read_pos + 1 == self.pos && self.read_offset == self.segment_size {
                    // the read cursor had consumed this whole segment: move
                    // it along with the write cursor, keeping its position
                    self.read_pos = self.read_pos + 1;
                    self.read_offset = 0;
                    proof {
                        assert(self.seg_views()[self.read_pos - 1].len() == self.segment_size);
                        assert(sum_lens(self.seg_views(), self.read_pos as int) == sum_lens(
                            self.seg_views(), self.read_pos - 1) + self.segment_size);
                    }
                }
                proof {
                    lemma_sum_lens_agree(self.seg_views(), before.seg_views(),
                        self.read_pos as int);
                }
            } else {
                let rest = data.len() - written;
                let k = if avail < rest {
                    avail
                } else {
                    rest
                };
                let piece = slice_subrange(data, written, written + k);
                let ghost before = *self;
                let target = &mut self.bufs[self.pos];
                target.extend_from(piece);
                proof {
                    assert(self.seg_views() =~= before.seg_views().update(before.pos as int,
                        before.seg_views()[before.pos as int] + piece@));
                    lemma_segs_content_append_at(before.seg_views(), before.pos as int, piece@);
                    assert(self.content() == before.content() + piece@);
                }
                self.offset = self.offset + k;
                self.length = self.length + k;
                written = written + k;
                proof {
                    assert(data@.take(written as int) =~= data@.take((written - k) as int)
                        + piece@);
                    assert(self.content() =~= orig.content() + data@.take(written as int));
                    lemma_sum_lens_agree(self.seg_views(), before.seg_views(),
                        self.read_pos as int);
                }
            }
        }
    }

    /// Move the read cursor forward `cnt` bytes, crossing segment boundaries
    /// as needed.  The count may not exceed what remains unread.
    #[verifier::loop_isolation(false)]
    pub fn advance(&mut self, cnt: usize)
        requires
            old(self).wf(),
            cnt <= old(self).content().len() - old(self).read_index(),
        ensures
            final(self).wf(),
            final(self).content() == old(self).content(),
            final(self).seg_count() == old(self).seg_count(),
            final(self).spec_segment_size() == old(self).spec_segment_size(),
            final(self).read_index() == old(self).read_index() + cnt,
            final(self).free_space() == old(self).free_space(),
    {
        let ghost orig = *old(self);
        let mut rem: usize = cnt;
        while rem > 0
            invariant
                self.wf(),
                rem <= self.content().len() - self.read_index(),
                self.content() == orig.content(),
                self.seg_views() == orig.seg_views(),
                self.seg_count() == orig.seg_count(),
                self.spec_segment_size() == orig.spec_segment_size(),
                self.read_index() + rem == orig.read_index() + cnt,
                self.pos == orig.pos,
                self.offset == orig.offset,
                self.length == orig.length,
            decreases self.bufs@.len() - self.read_pos, rem,
        {
            proof {
                self.lemma_wf_content_len();
                self.lemma_wf_sum_lens(self.read_pos as int);
                if self.read_pos == self.bufs@.len() {
                    assert(self.read_index() == self.content().len());
                }
            }
            let seg_len = self.bufs[self.read_pos].len();
            let avail = seg_len - self.read_offset;
            if avail >= rem {
                self.read_offset = self.read_offset + rem;
                self.read_consumed = self.read_consumed + rem;
                rem = 0;
                if self.read_pos < self.pos && self.read_offset == self.segment_size {
                    // the cursor landed exactly at the end of a full
                    // segment: rest at the start of the next one instead
                    self.read_pos = self.read_pos + 1;
                    self.read_offset = 0;
                    proof {
                        assert(self.seg_views()[self.read_pos - 1].len() == self.segment_size);
                        assert(sum_lens(self.seg_views(), self.read_pos as int) == sum_lens(
                            self.seg_views(), self.read_pos - 1) + self.segment_size);
                    }
                }
            } else {
                proof {
                    self.lemma_wf_sum_lens(self.read_pos + 1);
                    if self.read_pos + 1 > self.pos {
                        // the cursor would pass the write cursor: impossible,
                        // since what remains unread past this segment is zero
                        assert(sum_lens(self.seg_views(), self.read_pos + 1)
                            == self.content().len());
                    }
                }
                self.read_pos = self.read_pos + 1;
                self.read_offset = 0;
                self.read_consumed = self.read_consumed + avail;
                rem = rem - avail;
            }
        }
    }

    /// The unread suffix of the active read segment: everything the
    /// segment under the read cursor still holds, never a part of it.
    pub fn chunk(&self) -> (s: &[u8])
        requires
            self.wf(),
            self.has_active_read_segment(),
        ensures
            s@ == self.content().subrange(self.read_index(), self.read_index() + s@.len()),
            self.read_index() + s@.len() <= self.content().len(),
            s@.len() == self.seg_views()[self.spec_read_pos() as int].len()
                - self.spec_read_offset(),
            self.read_index() < self.content().len() ==> s@.len() > 0,
    {
        proof {
            self.lemma_wf_sum_lens(self.read_pos as int);
            self.lemma_wf_content_len();
            lemma_segs_content_subrange(self.seg_views(), self.read_pos as int,
                self.read_offset as int, self.seg_views()[self.read_pos as int].len() as int);
            lemma_segs_content_len(self.seg_views());
            self.lemma_wf_sum_lens(self.read_pos + 1);
        }
        let b = &self.bufs[self.read_pos];
        let end = b.len();
        slice_subrange(b.inner(), self.read_offset, end)
    }

    /// Whether a segment stands under the read cursor.
    pub closed spec fn has_active_read_segment(self) -> bool {
        self.read_pos < self.bufs@.len()
    }

    /// The read cursor's segment index.
    pub closed spec fn spec_read_pos(self) -> nat {
        self.read_pos as nat
    }

    /// The read cursor's offset within its segment.
    pub closed spec fn spec_read_offset(self) -> nat {
        self.read_offset as nat
    }

    /// A buffer with unread bytes always has an active read segment.
    pub proof fn lemma_remaining_active(self)
        requires
            self.wf(),
            self.read_index() < self.content().len(),
        ensures
            self.has_active_read_segment(),
    {
        self.lemma_wf_sum_lens(self.read_pos as int);
        self.lemma_wf_content_len();
    }

    /// Copy the whole content out, without touching any cursor.
    #[verifier::loop_isolation(false)]
    pub fn to_vec(&self) -> (v: Vec<u8>)
        requires
            self.wf(),
        ensures
            v@ == self.content(),
    {
        let mut v: Vec<u8> = Vec::new();
        let mut i: usize = 0;
        proof {
            lemma_segs_content_len(self.seg_views());
            self.lemma_wf_content_len();
        }
        while i < self.bufs.len()
            invariant
                self.wf(),
                i <= self.bufs@.len(),
                v@ == segs_content(self.seg_views().take(i as int)),
                v@.len() <= self.content().len(),
            decreases self.bufs@.len() - i,
        {
            proof {
                lemma_segs_content_push(self.seg_views().take(i as int),
                    self.seg_views()[i as int]);
                assert(self.seg_views().take(i as int).push(self.seg_views()[i as int])
                    =~= self.seg_views().take(i + 1));
                lemma_take_content_prefix(self.seg_views(), i + 1);
            }
            let b = &self.bufs[i];
            let s = b.inner();
            v.extend_from_slice(s);
            i = i + 1;
        }
        proof {
            assert(self.seg_views().take(self.seg_views().len() as int) =~= self.seg_views());
        }
        v
    }

    /// The write cursor's segment index.
    pub closed spec fn spec_pos(self) -> nat {
        self.pos as nat
    }

    /// The write cursor's offset within its segment.
    pub closed spec fn spec_offset(self) -> nat {
        self.offset as nat
    }

    /// The byte at a given segment and offset.
    pub fn byte_in_segment(&self, k: usize, off: usize) -> (b: u8)
        requires
            self.wf(),
            k < self.seg_count(),
            off < self.seg_views()[k as int].len(),
        ensures
            b == self.seg_views()[k as int][off as int],
    {
        self.bufs[k].byte_at(off)
    }

    /// The byte at an absolute position of the content.  Full segments make
    /// the position's segment and offset a plain division.
    pub fn byte_at_index(&self, i: usize) -> (b: u8)
        requires
            self.wf(),
            i < self.content().len(),
        ensures
            b == self.content()[i as int],
    {
        proof {
            self.lemma_wf_content_len();
        }
        let seg = self.segment_size;
        let k = i / seg;
        let off = i % seg;
        proof {
            let segi = seg as int;
            let ii = i as int;
            let pos = self.pos as int;
            assert(ii == (ii / segi) * segi + ii % segi && 0 <= ii % segi < segi)
                by (nonlinear_arith)
                requires segi >= 1, ii >= 0;
            assert(ii / segi <= pos) by (nonlinear_arith)
                requires
                    ii < pos * segi + self.offset,
                    self.offset <= segi,
                    segi >= 1,
                    ii >= 0,
                    pos >= 0,
            ;
            self.lemma_wf_sum_lens(ii / segi);
            if ii / segi == pos {
                assert(ii % segi < self.offset);
                assert(pos < self.bufs@.len());
            }
            assert((k as int) < self.seg_count());
            lemma_segs_content_index(self.seg_views(), k as int, off as int);
        }
        self.byte_in_segment(k, off)
    }

    /// Give up the segments, for their return to a pool.
    pub fn into_segments(self) -> (v: Vec<Buffer>)
        ensures
            v@.len() == self.seg_count(),
            v@.map_values(|b: Buffer| b@) == self.seg_views(),
    {
        self.bufs
    }

    /// Read everything between the read cursor and the end of the content,
    /// leaving the cursor at the end.
    #[verifier::loop_isolation(false)]
    pub fn read_from_cursor(&mut self) -> (v: Vec<u8>)
        requires
            old(self).wf(),
        ensures
            final(self).wf(),
            final(self).content() == old(self).content(),
            final(self).seg_count() == old(self).seg_count(),
            final(self).spec_segment_size() == old(self).spec_segment_size(),
            final(self).free_space() == old(self).free_space(),
            v@ == old(self).content().skip(old(self).read_index()),
            final(self).read_index() == old(self).content().len(),
    {
        let all = self.to_vec();
        let mut v: Vec<u8> = Vec::new();
        let mut i: usize = self.read_consumed;
        while i < self.length
            invariant
                self.read_consumed <= i <= self.length,
                v@ == self.content().subrange(self.read_index(), i as int),
            decreases self.length - i,
        {
            let b = all[i];
            v.push(b);
            i = i + 1;
            proof {
                assert(v@ =~= self.content().subrange(self.read_index(), i as int));
            }
        }
        let n = self.length - self.read_consumed;
        self.advance(n);
        proof {
            assert(old(self).content().subrange(old(self).read_index(),
                old(self).content().len() as int) =~= old(self).content().skip(
                old(self).read_index()));
        }
        v
    }
}

/// The content of a prefix of the segments is a prefix of the whole content.
proof fn lemma_take_content_prefix(bs: Seq<Seq<u8>>, k: int)
    requires
        0 <= k <= bs.len(),
    ensures
        segs_content(bs.take(k)).len() <= segs_content(bs).len(),
        segs_content(bs.take(k)) == segs_content(bs).take(segs_content(bs.take(k)).len() as int),
    decreases bs.len() - k,
{
    if k == bs.len() {
        assert(bs.take(k) =~= bs);
        assert(segs_content(bs).take(segs_content(bs).len() as int) =~= segs_content(bs));
    } else {
        lemma_take_content_prefix(bs, k + 1);
        lemma_segs_content_push(bs.take(k), bs[k]);
        assert(bs.take(k).push(bs[k]) =~= bs.take(k + 1));
        assert(segs_content(bs.take(k + 1)) == segs_content(bs.take(k)) + bs[k]);
        let n = segs_content(bs.take(k)).len() as int;
        assert(segs_content(bs.take(k)) =~= segs_content(bs.take(k + 1)).take(n));
        assert(segs_content(bs.take(k + 1)).take(n) =~= segs_content(bs).take(n));
    }
}


/// The byte capacity a ceiling of `m` admits at segment granularity: whole
/// segments only, as the conservative backpressure check counts them.
pub open spec fn allowed_bytes(m: nat, seg: nat) -> int {
    ((m / seg) * seg) as int
}

/// Error of a write against a pooled segmented buffer.
#[derive(Debug, PartialEq, Eq, Structural)]
pub enum SegmentedPoolBufError {
    /// The writer refused to grow past its configured ceiling.
    BufferFull,
}

/// A segmented buffer that grows by acquiring chunks from a pool, under an
/// optional maximum total size.
pub struct SegmentedPoolBuf {
    pool: SegmentPool,
    buf: SegmentedBuf,
    pool_buf_max_size: Option<usize>,
}

impl SegmentedPoolBuf {
    /// Every byte written so far, in write order.
    pub closed spec fn content(self) -> Seq<u8> {
        self.buf.content()
    }

    /// The configured size of one segment.
    pub closed spec fn spec_segment_size(self) -> nat {
        self.buf.spec_segment_size()
    }

    /// Number of segments attached to the buffer.
    pub closed spec fn seg_count(self) -> nat {
        self.buf.seg_count()
    }

    /// Absolute position of the read cursor.
    pub closed spec fn read_index(self) -> int {
        self.buf.read_index()
    }

    /// The read cursor's segment index.
    pub closed spec fn spec_read_pos(self) -> nat {
        self.buf.spec_read_pos()
    }

    /// The read cursor's offset within its segment.
    pub closed spec fn spec_read_offset(self) -> nat {
        self.buf.spec_read_offset()
    }

    /// The bytes of one attached segment.
    pub closed spec fn seg_view(self, i: int) -> Seq<u8> {
        self.buf.seg_views()[i]
    }

    /// Whether a maximum total size is configured.
    pub open spec fn limited(self) -> bool {
        self.spec_max_size() is Some
    }

    /// The configured ceiling, when one is set.
    pub closed spec fn spec_max_size(self) -> Option<usize> {
        self.pool_buf_max_size
    }

    /// The bytes the ceiling admits, at segment granularity.
    pub open spec fn spec_allowed(self) -> int {
        match self.spec_max_size() {
            Some(m) => allowed_bytes(m as nat, self.spec_segment_size()),
            None => 0,
        }
    }

    /// The pool this writer draws chunks from.
    pub closed spec fn spec_pool(self) -> SegmentPool {
        self.pool
    }

    /// Writer invariant: buffer and pool are well formed and agree on the
    /// segment size, every attached segment is accounted as outstanding in
    /// the pool, at most one attached segment is not yet full, and the
    /// attached capacity stays within the configured ceiling.
    pub closed spec fn wf(self) -> bool {
        &&& self.buf.wf()
        &&& self.pool.wf()
        &&& self.pool.spec_max_reserve() >= 1
        &&& self.pool.spec_segment_size() == self.buf.spec_segment_size()
        &&& self.pool.spec_outstanding() == self.buf.seg_count()
        &&& self.buf.free_space() <= self.buf.spec_segment_size()
        &&& (self.pool_buf_max_size matches Some(m) ==> self.buf.seg_count()
            * self.buf.spec_segment_size() <= allowed_bytes(m as nat,
            self.buf.spec_segment_size()))
    }

    /// Total number of bytes written so far.
    pub fn len(&self) -> (n: usize)
        requires
            self.wf(),
        ensures
            n == self.content().len(),
    {
        self.buf.len()
    }

    /// Rewind the read cursor without discarding writes.
    pub fn reset_read(&mut self)
        requires
            old(self).wf(),
        ensures
            final(self).wf(),
            final(self).content() == old(self).content(),
            final(self).read_index() == 0,
            final(self).spec_segment_size() == old(self).spec_segment_size(),
            final(self).spec_max_size() == old(self).spec_max_size(),
            final(self).spec_pool() == old(self).spec_pool(),
    {
        self.buf.reset_read()
    }

    /// Bytes between the read cursor and the end of the written content.
    pub fn remaining(&self) -> (n: usize)
        requires
            self.wf(),
        ensures
            n == self.content().len() - self.read_index(),
    {
        self.buf.remaining()
    }

    /// The unread suffix of the active read segment: everything the
    /// segment under the read cursor still holds, never a part of it.
    pub fn chunk(&self) -> (s: &[u8])
        requires
            self.wf(),
            self.read_index() < self.content().len(),
        ensures
            s@ == self.content().subrange(self.read_index(), self.read_index() + s@.len()),
            self.read_index() + s@.len() <= self.content().len(),
            s@.len() == self.seg_view(self.spec_read_pos() as int).len()
                - self.spec_read_offset(),
            s@.len() > 0,
    {
        proof {
            self.buf.lemma_remaining_active();
        }
        self.buf.chunk()
    }

    /// Move the read cursor forward, crossing segment boundaries as needed.
    pub fn advance(&mut self, cnt: usize)
        requires
            old(self).wf(),
            cnt <= old(self).content().len() - old(self).read_index(),
        ensures
            final(self).wf(),
            final(self).content() == old(self).content(),
            final(self).read_index() == old(self).read_index() + cnt,
            final(self).spec_segment_size() == old(self).spec_segment_size(),
            final(self).spec_max_size() == old(self).spec_max_size(),
            final(self).spec_pool() == old(self).spec_pool(),
    {
        self.buf.advance(cnt)
    }

    /// Read everything between the read cursor and the end of the content,
    /// leaving the cursor at the end.
    pub fn read_to_end(&mut self) -> (v: Vec<u8>)
        requires
            old(self).wf(),
        ensures
            final(self).wf(),
            final(self).content() == old(self).content(),
            v@ == old(self).content().skip(old(self).read_index()),
            final(self).read_index() == old(self).content().len(),
            final(self).spec_segment_size() == old(self).spec_segment_size(),
            final(self).spec_max_size() == old(self).spec_max_size(),
            final(self).spec_pool() == old(self).spec_pool(),
    {
        let v = self.buf.read_from_cursor();
        v
    }

    /// Copy the whole content out, without touching any cursor.
    pub fn to_vec(&self) -> (v: Vec<u8>)
        requires
            self.wf(),
        ensures
            v@ == self.content(),
    {
        self.buf.to_vec()
    }

    /// Chunks of this writer's pool currently handed out.
    pub fn pool_outstanding(&self) -> (n: usize)
        ensures
            n == self.spec_pool().spec_outstanding(),
    {
        self.pool.outstanding_count()
    }

    /// Chunks of this writer's pool currently alive: idle plus outstanding.
    pub fn pool_live(&self) -> (n: usize)
        requires
            self.wf(),
        ensures
            n == self.spec_pool().spec_idle() + self.spec_pool().spec_outstanding(),
    {
        self.pool.live_count()
    }

    /// Cumulative count of chunk allocations in this writer's pool.
    pub fn pool_total_allocated(&self) -> (n: usize)
        ensures
            n == self.spec_pool().spec_total_allocated(),
    {
        self.pool.total_allocated_count()
    }

    /// A byte-by-byte cursor over the written content.
    pub fn iter(&self) -> (it: SegmentedPoolBufIter)
        ensures
            it.spec_index() == 0,
    {
        SegmentedPoolBufIter { index: 0 }
    }

    /// Append bytes, acquiring fresh segments from the pool as the current
    /// one fills: synchronously when an idle chunk is available, by growing
    /// the pool otherwise.  When a ceiling is configured and the bytes would
    /// not fit into the segments it admits, the write stops at the ceiling
    /// and reports `BufferFull`; everything written up to that point stays
    /// valid and counted.
    #[verifier::loop_isolation(false)]
    pub fn write(&mut self, data: &[u8]) -> (r: Result<usize, SegmentedPoolBufError>)
        requires
            old(self).wf(),
            old(self).content().len() + data@.len() + old(self).spec_segment_size()
                <= usize::MAX,
            data@.len() > 0 ==> old(self).spec_pool().spec_total_allocated() + data@.len()
                + 1 <= usize::MAX,
        ensures
            final(self).wf(),
            final(self).spec_segment_size() == old(self).spec_segment_size(),
            final(self).spec_max_size() == old(self).spec_max_size(),
            final(self).read_index() == old(self).read_index(),
            final(self).spec_pool().spec_max_reserve() == old(
                self,
            ).spec_pool().spec_max_reserve(),
            r matches Ok(n) ==> n == data@.len() && final(self).content() == old(self).content()
                + data@,
            r is Err <==> old(self).limited() && old(self).content().len() + data@.len() > old(
                self,
            ).spec_allowed(),
            r is Err ==> r == Err::<usize, SegmentedPoolBufError>(
                SegmentedPoolBufError::BufferFull,
            ) && final(self).content() == old(self).content() + data@.take(
                old(self).spec_allowed() - old(self).content().len(),
            ),
            final(self).spec_pool().spec_total_allocated() <= old(
                self,
            ).spec_pool().spec_total_allocated() + 2 * data@.len(),
            final(self).seg_count() >= old(self).seg_count(),
            final(self).spec_pool().spec_total_allocated() <= old(
                self,
            ).spec_pool().spec_total_allocated() + (final(self).seg_count() - old(
                self,
            ).seg_count()),
    {
        let ghost orig = *old(self);
        let mut written: usize = 0;
        proof {
            assert(data@.take(0) =~= Seq::<u8>::empty());
            assert(orig.content() + Seq::<u8>::empty() =~= orig.content());
        }
        while written < data.len()
            invariant
                self.wf(),
                written <= data@.len(),
                self.content() == orig.content() + data@.take(written as int),
                self.spec_segment_size() == orig.spec_segment_size(),
                self.spec_max_size() == orig.spec_max_size(),
                self.read_index() == orig.read_index(),
                self.spec_pool().spec_max_reserve() == orig.spec_pool().spec_max_reserve(),
                self.seg_count() >= orig.seg_count(),
                self.spec_pool().spec_total_allocated() <= orig.spec_pool().spec_total_allocated()
                    + (self.seg_count() - orig.seg_count()),
                self.seg_count() - orig.seg_count() <= written,
            decreases data@.len() - written,
        {
            proof {
                self.buf.lemma_free_space_nonneg();
                orig.buf.lemma_free_space_nonneg();
                assert(self.seg_count() * self.spec_segment_size() == self.content().len()
                    + self.buf.free_space());
            }
            let cap = self.buf.segment_count() * self.buf.segment_size();
            let used = self.buf.len();
            if cap == used {
                // the attached segments are full: check the ceiling, then
                // acquire one more chunk
                let seg = self.buf.segment_size();
                let ghost segi = self.spec_segment_size() as int;
                let ghost cnt = self.seg_count() as int;
                let ghost d = self.seg_count() - orig.seg_count();
                proof {
                    // the segments attached since entry were all
                    // filled by this very call
                    assert(cnt * segi == orig.seg_count() * segi + d * segi) by (nonlinear_arith)
                        requires cnt == orig.seg_count() + d;
                    assert(orig.seg_count() * segi == orig.content().len()
                        + orig.buf.free_space());
                    assert(d * segi == written - orig.buf.free_space());
                    if d > 0 {
                        assert(d <= d * segi) by (nonlinear_arith)
                            requires segi >= 1, d >= 1;
                    }
                    assert(d <= written);
                }
                match self.pool_buf_max_size {
                    Some(m) => {
                        if cap + seg > m {
                            proof {
                                assert((cnt + 1) * segi == cap + segi) by (nonlinear_arith)
                                    requires cnt * segi == cap as int;
                                assert(cnt + 1 > m as int / segi) by (nonlinear_arith)
                                    requires
                                        (cnt + 1) * segi > m as int,
                                        segi >= 1,
                                        cnt >= 0,
                                ;
                                assert(cnt <= m as int / segi) by (nonlinear_arith)
                                    requires
                                        cnt * segi <= (m as int / segi) * segi,
                                        segi >= 1,
                                        cnt >= 0,
                                ;
                                assert(cnt == m as int / segi);
                                assert(self.content().len() == orig.spec_allowed());
                                assert(written == orig.spec_allowed() - orig.content().len());
                                assert(orig.content().len() + data@.len() > orig.spec_allowed());
                            }
                            return Err(SegmentedPoolBufError::BufferFull);
                        }
                    },
                    None => {},
                }
                let ghost pre = *self;
                let chunk = match self.pool.try_acquire() {
                    Some(c) => c,
                    None => {
                        match self.pool.expand() {
                            Ok(_) => {
                                match self.pool.try_acquire() {
                                    Some(c) => c,
                                    None => {
                                        // the expansion just put an idle chunk there
                                        proof {
                                            assert(false);
                                        }
                                        Buffer::new(Vec::new())
                                    },
                                }
                            },
                            Err(_) => {
                                // the factory is never exhausted under this
                                // write's allocation headroom
                                proof {
                                    assert(false);
                                }
                                Buffer::new(Vec::new())
                            },
                        }
                    },
                };
                self.buf.attach(chunk);
                proof {
                    assert((cnt + 1) * segi == cnt * segi + segi) by (nonlinear_arith);
                    match self.pool_buf_max_size {
                        Some(m) => {
                            assert((cnt + 1) * segi <= m as int);
                            assert(cnt + 1 <= m as int / segi) by (nonlinear_arith)
                                requires
                                    (cnt + 1) * segi <= m as int,
                                    segi >= 1,
                                    cnt >= 0,
                            ;
                            assert((cnt + 1) * segi <= (m as int / segi) * segi)
                                by (nonlinear_arith)
                                requires
                                    cnt + 1 <= m as int / segi,
                                    segi >= 1,
                            ;
                            assert(self.seg_count() * self.spec_segment_size() == (cnt + 1)
                                * segi) by (nonlinear_arith)
                                requires self.seg_count() == cnt + 1,
                                    self.spec_segment_size() == segi;
                        },
                        None => {},
                    }
                }
            }
            proof {
                self.buf.lemma_free_space_nonneg();
                assert(self.buf.free_space() >= 1);
            }
            let piece = slice_subrange(data, written, data.len());
            let n = self.buf.write(piece);
            written = written + n;
            proof {
                assert(data@.take(written as int) =~= data@.take((written - n) as int)
                    + piece@.take(n as int));
                assert(self.content() =~= orig.content() + data@.take(written as int));
            }
        }
        proof {
            assert(data@.take(written as int) =~= data@);
            self.buf.lemma_free_space_nonneg();
            assert(self.seg_count() * self.spec_segment_size() == self.content().len()
                + self.buf.free_space());
            if orig.limited() {
                assert(orig.content().len() + data@.len() <= orig.spec_allowed());
            }
        }
        Ok(written)
    }

    /// Return every attached chunk to the pool and hand the pool back, as
    /// dropping the writer does.  Everything this writer held outstanding is
    /// accounted back in.
    pub fn into_pool(self) -> (p: SegmentPool)
        requires
            self.wf(),
        ensures
            p.wf(),
            p.spec_outstanding() == 0,
            p.spec_max_reserve() == self.spec_pool().spec_max_reserve(),
            p.spec_segment_size() == self.spec_pool().spec_segment_size(),
            p.spec_total_allocated() == self.spec_pool().spec_total_allocated(),
    {
        let SegmentedPoolBuf { pool, buf, pool_buf_max_size: _ } = self;
        let mut pool = pool;
        let mut bufs = buf.into_segments();
        while bufs.len() > 0
            invariant
                pool.wf(),
                pool.spec_outstanding() == bufs@.len(),
                pool.spec_max_reserve() == self.spec_pool().spec_max_reserve(),
                pool.spec_segment_size() == self.spec_pool().spec_segment_size(),
                pool.spec_total_allocated() == self.spec_pool().spec_total_allocated(),
            decreases bufs@.len(),
        {
            match bufs.pop() {
                Some(c) => pool.release(c),
                None => {},
            }
        }
        pool
    }

    /// A fresh empty writer with the same configuration and a fresh pool.
    pub fn duplicate(&self) -> (r: SegmentedPoolBuf)
        requires
            self.wf(),
        ensures
            r.wf(),
            r.content() =~= Seq::<u8>::empty(),
            r.spec_segment_size() == self.spec_segment_size(),
            r.spec_max_size() == self.spec_max_size(),
            r.read_index() == 0,
            r.spec_pool().spec_outstanding() == 0,
            r.spec_pool().spec_total_allocated() == 0,
    {
        let seg = self.buf.segment_size();
        let pool = SegmentPool::new(seg, 0, self.pool.max_reserve_count());
        SegmentedPoolBuf {
            pool,
            buf: SegmentedBuf::with_segment_size(seg),
            pool_buf_max_size: self.pool_buf_max_size,
        }
    }

    /// A full data copy: the source is read through a fresh pass and written
    /// into a newly constructed writer; never a cheap reference copy.
    pub fn clone_buf(&self) -> (r: SegmentedPoolBuf)
        requires
            self.wf(),
            self.content().len() + self.spec_segment_size() + 1 <= usize::MAX,
        ensures
            r.wf(),
            r.content() == self.content(),
            r.spec_segment_size() == self.spec_segment_size(),
            r.spec_max_size() == self.spec_max_size(),
            r.read_index() == 0,
    {
        let mut r = self.duplicate();
        let data = self.to_vec();
        proof {
            if r.limited() {
                self.lemma_content_within_allowed();
            }
        }
        let res = r.write(data.as_slice());
        proof {
            assert(res is Ok);
            assert(Seq::<u8>::empty() + data@ =~= data@);
        }
        r
    }

    /// Allocation economy: a well-formed writer keeps at most one segment
    /// of attached free space, so its attached chunks never outnumber what
    /// the written bytes need plus one.
    pub proof fn lemma_allocation_economy(self)
        requires
            self.wf(),
        ensures
            0 <= self.seg_count() * self.spec_segment_size() - self.content().len()
                <= self.spec_segment_size(),
    {
        self.buf.lemma_free_space_nonneg();
    }

    /// A limited writer's content always stays within what its ceiling
    /// admits.
    pub proof fn lemma_content_within_allowed(self)
        requires
            self.wf(),
            self.limited(),
        ensures
            self.content().len() <= self.spec_allowed(),
    {
        self.buf.lemma_free_space_nonneg();
    }
}

/// Bytes are laid out in the exact order write calls are issued, whatever
/// the split: two successful writes in a row append the concatenation of
/// their bytes, so any sequence of writes lays out exactly the
/// concatenation of everything written, and a fresh read pass returns it.
pub proof fn lemma_writes_append_in_order(
    w0: SegmentedPoolBuf,
    w1: SegmentedPoolBuf,
    w2: SegmentedPoolBuf,
    b1: Seq<u8>,
    b2: Seq<u8>,
)
    requires
        w1.content() == w0.content() + b1,
        w2.content() == w1.content() + b2,
    ensures
        w2.content() == w0.content() + (b1 + b2),
{
    assert(w2.content() =~= w0.content() + (b1 + b2));
}

/// A byte-by-byte read cursor over a pooled writer's content, independent
/// of the writer's own read cursor.
pub struct SegmentedPoolBufIter {
    index: usize,
}

impl SegmentedPoolBufIter {
    /// How many bytes this cursor has produced.
    pub closed spec fn spec_index(self) -> int {
        self.index as int
    }

    /// The next unread byte of the writer's content, if any.
    pub fn next(&mut self, b: &SegmentedPoolBuf) -> (r: Option<u8>)
        requires
            b.wf(),
            old(self).spec_index() <= b.content().len(),
        ensures
            r == if old(self).spec_index() < b.content().len() {
                Some(b.content()[old(self).spec_index()])
            } else {
                None::<u8>
            },
            final(self).spec_index() == if old(self).spec_index() < b.content().len() {
                old(self).spec_index() + 1
            } else {
                old(self).spec_index()
            },
    {
        if self.index >= b.buf.len() {
            return None;
        }
        let byte = b.buf.byte_at_index(self.index);
        self.index = self.index + 1;
        Some(byte)
    }
}


/// Bytes per chunk when no segment size is configured.
pub const DEFAULT_SEGMENT_SIZE: usize = 16384;

/// The idle-set retention bound of pools the builder creates.
pub const SERIALIZATION_BUF_RESERVE_SEGMENTS: usize = 100;

/// Configuration for a pooled segmented buffer: segment size, initial
/// reserve, and the optional maximum total size used for backpressure.
pub struct SegmentedPoolBufBuilder {
    initial_capacity: Option<usize>,
    segment_size: Option<usize>,
    max_size: Option<usize>,
}

impl SegmentedPoolBufBuilder {
    /// The segment size the builder will use.
    pub closed spec fn spec_effective_segment_size(self) -> nat {
        match self.segment_size {
            Some(s) => s as nat,
            None => DEFAULT_SEGMENT_SIZE as nat,
        }
    }

    /// The initial capacity, in bytes, the builder will reserve.
    pub closed spec fn spec_effective_initial(self) -> nat {
        match self.initial_capacity {
            Some(i) => i as nat,
            None => DEFAULT_SEGMENT_SIZE as nat,
        }
    }

    /// The configured ceiling, if any.
    pub closed spec fn spec_max_size(self) -> Option<usize> {
        self.max_size
    }

    /// A builder with every setting at its default.
    pub fn new() -> (b: SegmentedPoolBufBuilder)
        ensures
            b.spec_effective_segment_size() == DEFAULT_SEGMENT_SIZE,
            b.spec_effective_initial() == DEFAULT_SEGMENT_SIZE,
            b.spec_max_size() is None,
    {
        SegmentedPoolBufBuilder { initial_capacity: None, segment_size: None, max_size: None }
    }

    /// Set the size in bytes of each segment.
    pub fn segment_size(self, segment_size: usize) -> (b: SegmentedPoolBufBuilder)
        ensures
            b.spec_effective_segment_size() == segment_size,
            b.spec_effective_initial() == self.spec_effective_initial(),
            b.spec_max_size() == self.spec_max_size(),
    {
        SegmentedPoolBufBuilder { segment_size: Some(segment_size), ..self }
    }

    /// Set the initial reserve, in bytes.
    pub fn initial_capacity(self, initial_capacity: usize) -> (b: SegmentedPoolBufBuilder)
        ensures
            b.spec_effective_initial() == initial_capacity,
            b.spec_effective_segment_size() == self.spec_effective_segment_size(),
            b.spec_max_size() == self.spec_max_size(),
    {
        SegmentedPoolBufBuilder { initial_capacity: Some(initial_capacity), ..self }
    }

    /// Set the maximum total size of the buffer, useful to implement
    /// backpressure on buffer consumers.
    pub fn max_capacity(self, max_size: Option<usize>) -> (b: SegmentedPoolBufBuilder)
        ensures
            b.spec_max_size() == max_size,
            b.spec_effective_segment_size() == self.spec_effective_segment_size(),
            b.spec_effective_initial() == self.spec_effective_initial(),
    {
        SegmentedPoolBufBuilder { max_size, ..self }
    }

    /// Build an empty writer over a fresh pool seeded with enough chunks for
    /// the configured initial capacity.
    pub fn build(self) -> (w: SegmentedPoolBuf)
        requires
            self.spec_effective_segment_size() >= 1,
            self.spec_effective_initial() / self.spec_effective_segment_size() + 1
                <= SERIALIZATION_BUF_RESERVE_SEGMENTS,
        ensures
            w.wf(),
            w.content() =~= Seq::<u8>::empty(),
            w.spec_segment_size() == self.spec_effective_segment_size(),
            w.spec_max_size() == self.spec_max_size(),
            w.read_index() == 0,
            w.spec_pool().spec_outstanding() == 0,
            w.spec_pool().spec_idle() == self.spec_effective_initial()
                / self.spec_effective_segment_size() + 1,
            w.spec_pool().spec_total_allocated() == self.spec_effective_initial()
                / self.spec_effective_segment_size() + 1,
            w.spec_pool().spec_max_reserve() == SERIALIZATION_BUF_RESERVE_SEGMENTS,
    {
        let seg = match self.segment_size {
            Some(s) => s,
            None => DEFAULT_SEGMENT_SIZE,
        };
        let init = match self.initial_capacity {
            Some(i) => i,
            None => DEFAULT_SEGMENT_SIZE,
        };
        let pool = SegmentPool::new(seg, init / seg + 1, SERIALIZATION_BUF_RESERVE_SEGMENTS);
        self.with_pool(pool)
    }

    /// Build an empty writer over an existing pool.
    pub fn with_pool(self, pool: SegmentPool) -> (w: SegmentedPoolBuf)
        requires
            self.spec_effective_segment_size() >= 1,
            pool.wf(),
            pool.spec_outstanding() == 0,
            pool.spec_max_reserve() >= 1,
            pool.spec_segment_size() == self.spec_effective_segment_size(),
        ensures
            w.wf(),
            w.content() =~= Seq::<u8>::empty(),
            w.spec_segment_size() == self.spec_effective_segment_size(),
            w.spec_max_size() == self.spec_max_size(),
            w.read_index() == 0,
            w.spec_pool() == pool,
    {
        let seg = match self.segment_size {
            Some(s) => s,
            None => DEFAULT_SEGMENT_SIZE,
        };
        let w = SegmentedPoolBuf {
            pool,
            buf: SegmentedBuf::with_segment_size(seg),
            pool_buf_max_size: self.max_size,
        };
        proof {
            match w.pool_buf_max_size {
                Some(m) => {
                    assert(w.buf.seg_count() * w.buf.spec_segment_size() == 0);
                    assert(allowed_bytes(m as nat, w.buf.spec_segment_size()) >= 0);
                },
                None => {},
            }
        }
        w
    }
}

/// An independent byte-by-byte read cursor over a segmented buffer's
/// content; many readers may stand over the same buffer.
#[derive(Clone)]
pub struct SegmentedBufBytesReader {
    index: usize,
}

impl SegmentedBuf {
    /// A fresh read cursor over this buffer, starting at the first byte.
    pub fn reader(&self) -> (r: SegmentedBufBytesReader)
        ensures
            r.spec_index() == 0,
    {
        SegmentedBufBytesReader { index: 0 }
    }
}

impl SegmentedBufBytesReader {
    /// How many bytes this cursor has produced.
    pub closed spec fn spec_index(self) -> int {
        self.index as int
    }

    /// The next unread byte, if any.
    pub fn next(&mut self, b: &SegmentedBuf) -> (r: Option<u8>)
        requires
            b.wf(),
            old(self).spec_index() <= b.content().len(),
        ensures
            r == if old(self).spec_index() < b.content().len() {
                Some(b.content()[old(self).spec_index()])
            } else {
                None::<u8>
            },
            final(self).spec_index() == if old(self).spec_index() < b.content().len() {
                old(self).spec_index() + 1
            } else {
                old(self).spec_index()
            },
    {
        if self.index >= b.len() {
            return None;
        }
        let byte = b.byte_at_index(self.index);
        self.index = self.index + 1;
        Some(byte)
    }

    /// Read everything from the cursor to the end of the content, leaving
    /// the cursor at the end.
    #[verifier::loop_isolation(false)]
    pub fn read_to_end(&mut self, b: &SegmentedBuf) -> (v: Vec<u8>)
        requires
            b.wf(),
            old(self).spec_index() <= b.content().len(),
        ensures
            v@ == b.content().skip(old(self).spec_index()),
            final(self).spec_index() == b.content().len(),
    {
        let mut v: Vec<u8> = Vec::new();
        while self.index < b.len()
            invariant
                old(self).spec_index() <= self.spec_index() <= b.content().len(),
                v@ == b.content().subrange(old(self).spec_index(), self.spec_index()),
            decreases b.content().len() - self.spec_index(),
        {
            let byte = b.byte_at_index(self.index);
            v.push(byte);
            self.index = self.index + 1;
            proof {
                assert(v@ =~= b.content().subrange(old(self).spec_index(), self.spec_index()));
            }
        }
        proof {
            assert(b.content().subrange(old(self).spec_index(), b.content().len() as int)
                =~= b.content().skip(old(self).spec_index()));
        }
        v
    }
}
} // verus!

//! Reusable byte chunks and the pool that owns the idle ones.
//!
//! The pool hands out cleared chunks on request, accepts them back when a
//! holder is done, and keeps at most its configured reserve of idle chunks:
//! a chunk released beyond that bound is discarded rather than retained, so
//! the idle set can never grow without bound.  Counters track how many
//! chunks are outstanding, the historical maximum outstanding, and how many
//! the factory ever produced.

use vstd::prelude::*;

verus! {

/// One reusable byte chunk.  Its view is the bytes written so far.
pub struct Buffer {
    data: Vec<u8>,
}

impl View for Buffer {
    type V = Seq<u8>;

    closed spec fn view(&self) -> Seq<u8> {
        self.data@
    }
}

impl Buffer {
    /// Wrap an existing byte vector as a chunk.
    pub fn new(data: Vec<u8>) -> (b: Buffer)
        ensures
            b@ == data@,
    {
        Buffer { data }
    }

    /// Number of bytes the chunk currently holds.
    pub fn len(&self) -> (n: usize)
        ensures
            n == self@.len(),
    {
        self.data.len()
    }

    /// The bytes written so far.
    pub fn inner(&self) -> (s: &[u8])
        ensures
            s@ == self@,
    {
        self.data.as_slice()
    }

    /// Forget the contents, keeping the allocation for reuse.
    pub fn clear(&mut self)
        ensures
            final(self)@ == Seq::<u8>::empty(),
    {
        self.data.clear()
    }

    /// Append bytes at the end of the chunk.
    pub fn extend_from(&mut self, s: &[u8])
        ensures
            final(self)@ == old(self)@ + s@,
    {
        self.data.extend_from_slice(s)
    }

    /// The byte at a given index.
    pub fn byte_at(&self, i: usize) -> (b: u8)
        requires
            i < self@.len(),
        ensures
            b == self@[i as int],
    {
        self.data[i]
    }
}

/// Error of a pool expansion whose chunk factory failed.
#[derive(Debug)]
pub struct CapacityError;

/// A bounded collection of idle chunks plus allocation counters.
pub struct SegmentPool {
    idle: Vec<Buffer>,
    segment_size: usize,
    max_reserve: usize,
    outstanding: usize,
    max_outstanding: usize,
    total_allocated: usize,
}

impl SegmentPool {
    /// Chunks currently handed out and not yet returned.
    pub closed spec fn spec_outstanding(self) -> nat {
        self.outstanding as nat
    }

    /// Chunks currently idle in the pool.
    pub closed spec fn spec_idle(self) -> nat {
        self.idle@.len()
    }

    /// The retention bound on the idle set.
    pub closed spec fn spec_max_reserve(self) -> nat {
        self.max_reserve as nat
    }

    /// Size in bytes of the chunks this pool creates.
    pub closed spec fn spec_segment_size(self) -> nat {
        self.segment_size as nat
    }

    /// Cumulative count of factory invocations.
    pub closed spec fn spec_total_allocated(self) -> nat {
        self.total_allocated as nat
    }

    /// Historical maximum of the outstanding count.
    pub closed spec fn spec_max_outstanding(self) -> nat {
        self.max_outstanding as nat
    }

    /// Pool accounting invariant: the idle set never exceeds the configured
    /// reserve, every idle chunk is cleared, and the counters are consistent:
    /// live chunks (idle plus outstanding) never exceed what the factory
    /// produced, and the outstanding count never exceeds its historical
    /// maximum.
    pub closed spec fn wf(self) -> bool {
        &&& self.segment_size >= 1
        &&& self.idle@.len() <= self.max_reserve
        &&& forall|i: int| 0 <= i < self.idle@.len() ==> (#[trigger] self.idle@[i])@.len() == 0
        &&& self.outstanding + self.idle@.len() <= self.total_allocated
        &&& self.outstanding <= self.max_outstanding
        &&& self.max_outstanding <= self.total_allocated
    }

    /// Create a pool holding `initial` idle chunks.
    pub fn new(segment_size: usize, initial: usize, max_reserve: usize) -> (p: SegmentPool)
        requires
            segment_size >= 1,
            initial <= max_reserve,
        ensures
            p.wf(),
            p.spec_outstanding() == 0,
            p.spec_idle() == initial,
            p.spec_max_reserve() == max_reserve,
            p.spec_segment_size() == segment_size,
            p.spec_total_allocated() == initial,
            p.spec_max_outstanding() == 0,
    {
        let mut idle: Vec<Buffer> = Vec::new();
        let mut i: usize = 0;
        while i < initial
            invariant
                i <= initial,
                idle@.len() == i,
                forall|j: int| 0 <= j < idle@.len() ==> (#[trigger] idle@[j])@.len() == 0,
            decreases initial - i,
        {
            idle.push(Buffer::new(Vec::with_capacity(segment_size)));
            i = i + 1;
        }
        SegmentPool {
            idle,
            segment_size,
            max_reserve,
            outstanding: 0,
            max_outstanding: 0,
            total_allocated: initial,
        }
    }

    /// Hand out an idle chunk if one is available; the pool is left unchanged
    /// when it is empty.
    pub fn try_acquire(&mut self) -> (r: Option<Buffer>)
        requires
            old(self).wf(),
        ensures
            final(self).wf(),
            r is Some <==> old(self).spec_idle() > 0,
            final(self).spec_max_reserve() == old(self).spec_max_reserve(),
            final(self).spec_segment_size() == old(self).spec_segment_size(),
            final(self).spec_total_allocated() == old(self).spec_total_allocated(),
            r matches Some(c) ==> {
                &&& c@.len() == 0
                &&& final(self).spec_outstanding() == old(self).spec_outstanding() + 1
                &&& final(self).spec_idle() == old(self).spec_idle() - 1
            },
            r is None ==> {
                &&& final(self).spec_outstanding() == old(self).spec_outstanding()
                &&& final(self).spec_idle() == old(self).spec_idle()
                &&& final(self).spec_max_outstanding() == old(self).spec_max_outstanding()
            },
    {
        match self.idle.pop() {
            Some(c) => {
                self.outstanding = self.outstanding + 1;
                if self.max_outstanding < self.outstanding {
                    self.max_outstanding = self.outstanding;
                }
                Some(c)
            },
            None => None,
        }
    }

    /// Create one more idle chunk with the factory, unless the idle set
    /// already stands at its reserve bound.  Expansion fails exactly when
    /// the factory does; here the factory fails only once its cumulative
    /// allocation counter can no longer grow.
    pub fn expand(&mut self) -> (r: Result<(), CapacityError>)
        requires
            old(self).wf(),
        ensures
            final(self).wf(),
            r is Err <==> old(self).spec_total_allocated() == usize::MAX,
            final(self).spec_outstanding() == old(self).spec_outstanding(),
            final(self).spec_max_reserve() == old(self).spec_max_reserve(),
            final(self).spec_segment_size() == old(self).spec_segment_size(),
            final(self).spec_max_outstanding() == old(self).spec_max_outstanding(),
            r is Ok && old(self).spec_idle() < old(self).spec_max_reserve() ==> {
                &&& final(self).spec_idle() == old(self).spec_idle() + 1
                &&& final(self).spec_total_allocated() == old(self).spec_total_allocated() + 1
            },
            !(r is Ok && old(self).spec_idle() < old(self).spec_max_reserve()) ==> {
                &&& final(self).spec_idle() == old(self).spec_idle()
                &&& final(self).spec_total_allocated() == old(self).spec_total_allocated()
            },
    {
        if self.total_allocated == usize::MAX {
            Err(CapacityError)
        } else {
            if self.idle.len() < self.max_reserve {
                self.idle.push(Buffer::new(Vec::with_capacity(self.segment_size)));
                self.total_allocated = self.total_allocated + 1;
            }
            Ok(())
        }
    }

    /// Hand out a chunk, growing the pool first when it stands empty.  This
    /// is the blocking form of acquisition: the only suspension point of the
    /// whole core is here, and it reduces to a synchronous expansion.  `None`
    /// comes only when the pool was empty and the factory failed.
    pub fn acquire(&mut self) -> (r: Option<Buffer>)
        requires
            old(self).wf(),
            old(self).spec_max_reserve() >= 1,
        ensures
            final(self).wf(),
            final(self).spec_max_reserve() == old(self).spec_max_reserve(),
            final(self).spec_segment_size() == old(self).spec_segment_size(),
            r is None <==> old(self).spec_idle() == 0 && old(self).spec_total_allocated()
                == usize::MAX,
            r matches Some(c) ==> {
                &&& c@.len() == 0
                &&& final(self).spec_outstanding() == old(self).spec_outstanding() + 1
            },
            r is None ==> final(self).spec_outstanding() == old(self).spec_outstanding(),
    {
        match self.try_acquire() {
            Some(c) => Some(c),
            None => {
                match self.expand() {
                    Ok(_) => self.try_acquire(),
                    Err(_) => None,
                }
            },
        }
    }

    /// Take a chunk back.  It is cleared and retained for reuse while the
    /// idle set is below the reserve bound, and discarded otherwise.
    pub fn release(&mut self, chunk: Buffer)
        requires
            old(self).wf(),
            old(self).spec_outstanding() >= 1,
        ensures
            final(self).wf(),
            final(self).spec_outstanding() == old(self).spec_outstanding() - 1,
            final(self).spec_max_reserve() == old(self).spec_max_reserve(),
            final(self).spec_segment_size() == old(self).spec_segment_size(),
            final(self).spec_total_allocated() == old(self).spec_total_allocated(),
            final(self).spec_max_outstanding() == old(self).spec_max_outstanding(),
            final(self).spec_idle() == if old(self).spec_idle() < old(self).spec_max_reserve() {
                old(self).spec_idle() + 1
            } else {
                old(self).spec_idle()
            },
    {
        let mut chunk = chunk;
        self.outstanding = self.outstanding - 1;
        if self.idle.len() < self.max_reserve {
            chunk.clear();
            self.idle.push(chunk);
        }
    }

    /// Chunks currently handed out and not yet returned.
    pub fn outstanding_count(&self) -> (n: usize)
        ensures
            n == self.spec_outstanding(),
    {
        self.outstanding
    }

    /// Chunks currently idle in the pool.
    pub fn idle_count(&self) -> (n: usize)
        ensures
            n == self.spec_idle(),
    {
        self.idle.len()
    }

    /// Chunks currently alive: idle plus outstanding.
    pub fn live_count(&self) -> (n: usize)
        requires
            self.wf(),
        ensures
            n == self.spec_idle() + self.spec_outstanding(),
    {
        self.idle.len() + self.outstanding
    }

    /// Cumulative count of factory invocations.
    pub fn total_allocated_count(&self) -> (n: usize)
        ensures
            n == self.spec_total_allocated(),
    {
        self.total_allocated
    }

    /// Historical maximum of the outstanding count.
    pub fn max_outstanding_count(&self) -> (n: usize)
        ensures
            n == self.spec_max_outstanding(),
    {
        self.max_outstanding
    }

    /// The retention bound on the idle set.
    pub fn max_reserve_count(&self) -> (n: usize)
        ensures
            n == self.spec_max_reserve(),
    {
        self.max_reserve
    }
}

/// Pool accounting law: a well-formed pool retains no more idle chunks than
/// its configured reserve, and its live chunks never outnumber what the
/// factory produced.
pub proof fn lemma_pool_accounting(p: SegmentPool)
    requires
        p.wf(),
    ensures
        p.spec_idle() <= p.spec_max_reserve(),
        p.spec_idle() + p.spec_outstanding() <= p.spec_total_allocated(),
        p.spec_outstanding() <= p.spec_max_outstanding(),
{
}

} // verus!

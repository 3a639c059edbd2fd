//! The abstract consumer that a ring buffer flushes into, and two
//! implementations of it: a bounded in-memory sink and an adapter for
//! ordinary `std::io` destinations.

use vstd::prelude::*;

verus! {

/// An abstract writable destination. Offered a byte range, it reports how
/// many leading bytes it actually accepted (possibly zero), or fails having
/// accepted none. No assumption is made that an offered range is accepted in
/// full.
pub trait Sink {
    /// The cause a failing write reports, surfaced to callers for
    /// diagnostics.
    type Error;

    /// What this sink demands of itself before it can be written to, and
    /// re-establishes after every write.
    spec fn inv(&self) -> bool;

    /// The bytes this sink has accepted so far, in the order it accepted
    /// them.
    spec fn accepted(&self) -> Seq<u8>;

    /// Offer `buf` to the sink. On success, exactly the first `n` bytes of
    /// `buf` have been appended to the sink's accepted stream; on failure,
    /// the sink has accepted nothing from this offer.
    fn write(&mut self, buf: &[u8]) -> (r: Result<usize, Self::Error>)
        requires
            old(self).inv(),
        ensures
            final(self).inv(),
            match r {
                Ok(n) => {
                    &&& n <= buf@.len()
                    &&& final(self).accepted() == old(self).accepted() + buf@.take(n as int)
                },
                Err(_) => final(self).accepted() == old(self).accepted(),
            },
    ;
}

/// A bounded in-memory sink: it accepts bytes into a growing vector until a
/// configurable capacity is reached, and can be armed to fail exactly one
/// upcoming write with a numeric cause. Short writes and transient failures
/// of a real consumer can thus be reproduced deterministically.
pub struct MemSink {
    data: Vec<u8>,
    capacity: usize,
    fault: Option<u32>,
}

impl MemSink {
    /// How many bytes this sink will accept in total.
    pub closed spec fn capacity_spec(&self) -> usize {
        self.capacity
    }

    /// The cause the next write will fail with, if one is armed.
    pub closed spec fn pending_fault(&self) -> Option<u32> {
        self.fault
    }

    /// A sink that accepts up to `capacity` bytes and is not armed to fail.
    pub fn new(capacity: usize) -> (s: MemSink)
        ensures
            s.accepted() == Seq::<u8>::empty(),
            s.capacity_spec() == capacity,
            s.pending_fault() is None,
    {
        MemSink { data: Vec::new(), capacity, fault: None }
    }

    /// The bytes accepted so far.
    pub fn contents(&self) -> (r: &Vec<u8>)
        ensures
            r@ == self.accepted(),
    {
        &self.data
    }

    /// Drop everything accepted so far and disarm any pending fault.
    pub fn clear(&mut self)
        ensures
            final(self).accepted() == Seq::<u8>::empty(),
            final(self).capacity_spec() == old(self).capacity_spec(),
            final(self).pending_fault() is None,
    {
        self.data = Vec::new();
        self.fault = None;
    }

    /// Arm the sink to fail its next write with `code`.
    pub fn set_fault(&mut self, code: u32)
        ensures
            final(self).accepted() == old(self).accepted(),
            final(self).capacity_spec() == old(self).capacity_spec(),
            final(self).pending_fault() == Some(code),
    {
        self.fault = Some(code);
    }

    /// Change the total capacity; bytes already accepted beyond the new
    /// capacity are discarded.
    pub fn set_capacity(&mut self, capacity: usize)
        ensures
            final(self).capacity_spec() == capacity,
            final(self).pending_fault() == old(self).pending_fault(),
            final(self).accepted() == (if capacity < old(self).accepted().len() {
                old(self).accepted().take(capacity as int)
            } else {
                old(self).accepted()
            }),
    {
        self.capacity = capacity;
        if self.data.len() > capacity {
            self.data.truncate(capacity);
            proof {
                assert(self.data@ =~= old(self).data@.take(capacity as int));
            }
        }
    }
}

impl Sink for MemSink {
    type Error = u32;

    /// A memory sink is usable in any state.
    open spec fn inv(&self) -> bool {
        true
    }

    closed spec fn accepted(&self) -> Seq<u8> {
        self.data@
    }

    /// If a fault is armed, the write fails with its code and disarms it.
    /// Otherwise the sink accepts exactly as many leading bytes as fit under
    /// its capacity.
    fn write(&mut self, buf: &[u8]) -> (r: Result<usize, u32>)
        ensures
            match old(self).pending_fault() {
                Some(code) => {
                    &&& r == Err::<usize, u32>(code)
                    &&& final(self).accepted() == old(self).accepted()
                    &&& final(self).pending_fault() is None
                },
                None => {
                    let room = if old(self).capacity_spec() >= old(self).accepted().len() {
                        old(self).capacity_spec() - old(self).accepted().len()
                    } else {
                        0
                    };
                    let n = if room < buf@.len() { room } else { buf@.len() as int };
                    &&& r == Ok::<usize, u32>(n as usize)
                    &&& final(self).accepted() == old(self).accepted() + buf@.take(n)
                    &&& final(self).pending_fault() is None
                },
            },
            final(self).capacity_spec() == old(self).capacity_spec(),
    {
        if let Some(code) = self.fault {
            self.fault = None;
            return Err(code);
        }
        let room = if self.capacity >= self.data.len() {
            self.capacity - self.data.len()
        } else {
            0
        };
        let n = if room < buf.len() { room } else { buf.len() };
        proof {
            assert(self.data@ =~= old(self).data@ + buf@.take(0));
        }
        let mut i: usize = 0;
        while i < n
            invariant
                i <= n,
                n <= buf@.len(),
                self.data@ == old(self).data@ + buf@.take(i as int),
                self.capacity == old(self).capacity,
                self.fault is None,
            decreases n - i,
        {
            let b = buf[i];
            self.data.push(b);
            proof {
                assert(self.data@ =~= old(self).data@ + buf@.take(i + 1));
            }
            i += 1;
        }
        Ok(n)
    }
}

/// A contract-free byte consumer: anything that can try to take a prefix of
/// an offered byte range and report a count, or fail. Real destinations —
/// a stream, a pipe, a test double — implement this outside the library;
/// nothing is assumed of how an implementation behaves.
pub trait RawWrite {
    /// The cause a failing write reports.
    type Error;

    /// Try to consume a prefix of `buf`, reporting how many bytes were
    /// taken, or fail.
    fn raw_write(&mut self, buf: &[u8]) -> (r: Result<usize, Self::Error>);
}

/// Adapter that gives any raw writer the sink contract: the count a write
/// reports is clamped to the offered length, and the bytes reported as
/// taken are mirrored into the accepted stream, so the buffer's flush
/// contract speaks about the writer's byte stream. Short writes and
/// failures pass straight through.
pub struct IoSink<W> {
    writer: W,
    accepted: Ghost<Seq<u8>>,
}

impl<W: RawWrite> IoSink<W> {
    /// Wrap a raw writer; nothing has been accepted through this sink yet.
    pub fn new(writer: W) -> (s: IoSink<W>)
        ensures
            s.accepted() == Seq::<u8>::empty(),
    {
        IoSink { writer, accepted: Ghost(Seq::empty()) }
    }

    /// Take the wrapped writer back out.
    pub fn into_inner(self) -> W {
        self.writer
    }
}

impl<W: RawWrite> Sink for IoSink<W> {
    type Error = W::Error;

    /// An adapted writer is usable in any state.
    open spec fn inv(&self) -> bool {
        true
    }

    closed spec fn accepted(&self) -> Seq<u8> {
        self.accepted@
    }

    fn write(&mut self, buf: &[u8]) -> (r: Result<usize, W::Error>) {
        match self.writer.raw_write(buf) {
            Ok(n) => {
                let k = if n <= buf.len() {
                    n
                } else {
                    buf.len()
                };
                self.accepted = Ghost(self.accepted@ + buf@.take(k as int));
                Ok(k)
            },
            Err(e) => Err(e),
        }
    }
}

} // verus!

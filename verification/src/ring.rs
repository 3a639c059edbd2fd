//! The ring buffer proper: fixed capacity, lazily allocated storage, and
//! wrapping head/tail counters.

use crate::sink::Sink;
use vstd::arithmetic::div_mod::lemma_add_mod_noop;
use vstd::arithmetic::div_mod::lemma_fundamental_div_mod;
use vstd::arithmetic::div_mod::lemma_fundamental_div_mod_converse_mod;
use vstd::arithmetic::div_mod::lemma_mod_bound;
use vstd::arithmetic::div_mod::lemma_mod_multiples_vanish;
use vstd::prelude::*;
use vstd::slice::slice_subrange;

verus! {

/// Fixed size of every buffer's backing storage, in bytes.
pub const TX_BUF_SIZE: usize = 65536;

/// `push` rejected a chunk that does not fit in the remaining capacity; the
/// buffer is unchanged.
#[derive(Clone, Copy, Debug, PartialEq, Eq)]
pub struct TxBufFull;

impl TxBufFull {
    /// A human-readable description of this error.
    pub fn message(&self) -> (s: &'static str)
        ensures
            s@ == "Attempted to push data to a full TX buffer"@,
    {
        "Attempted to push data to a full TX buffer"
    }
}

/// `flush_to` made no progress: the sink failed before accepting any byte.
/// Carries the sink's own failure cause for diagnostics.
#[derive(Debug)]
pub struct TxBufFlush<E>(pub E);

/// A fixed-capacity byte ring buffer, used to absorb data arriving faster
/// than a downstream sink can consume it. Memory for the buffer is allocated
/// lazily, when the first byte is pushed.
///
/// `head` and `tail` are monotonically increasing wrapping counters of bytes
/// ever pushed and ever flushed; only their difference is meaningful, and the
/// physical offsets into storage are the counters modulo `TX_BUF_SIZE`.
#[derive(Debug)]
pub struct TxBuf {
    /// Backing storage of exactly `TX_BUF_SIZE` bytes; absent until the
    /// first byte is pushed, never released or resized afterwards.
    data: Option<Vec<u8>>,
    /// Total bytes ever pushed, wrapping. New data lands at
    /// `head % TX_BUF_SIZE`.
    head: u32,
    /// Total bytes ever fully flushed, wrapping. Data leaves from
    /// `tail % TX_BUF_SIZE`.
    tail: u32,
}

impl TxBuf {
    /// Occupied length: `head - tail` under wrapping u32 arithmetic.
    pub closed spec fn used(&self) -> int {
        if self.head >= self.tail {
            self.head - self.tail
        } else {
            self.head - self.tail + 0x1_0000_0000
        }
    }

    /// Whether backing storage has been allocated yet.
    pub closed spec fn allocated(&self) -> bool {
        self.data is Some
    }

    /// Well-formed: the occupied length never exceeds the capacity, the
    /// storage (once allocated) is exactly `TX_BUF_SIZE` bytes, and both
    /// counters still sit at zero while no byte has ever been pushed.
    pub closed spec fn wf(&self) -> bool {
        &&& self.used() <= TX_BUF_SIZE
        &&& match self.data {
            Some(d) => d@.len() == TX_BUF_SIZE,
            None => self.head == 0 && self.tail == 0,
        }
    }

    /// Ring-buffer constructor: empty, with no storage allocated.
    pub fn new() -> (r: TxBuf)
        ensures
            r.wf(),
            r@ == Seq::<u8>::empty(),
            !r.allocated(),
    {
        let r = TxBuf { data: None, head: 0, tail: 0 };
        proof {
            assert(r@ =~= Seq::<u8>::empty());
        }
        r
    }

    /// The used length of this buffer: bytes that have been pushed in but
    /// not yet flushed out.
    pub fn len(&self) -> (n: usize)
        requires
            self.wf(),
        ensures
            n == self@.len(),
            n <= TX_BUF_SIZE,
    {
        self.head.wrapping_sub(self.tail) as usize
    }

    /// Whether the buffer holds any data that has not yet been flushed out.
    pub fn is_empty(&self) -> (b: bool)
        requires
            self.wf(),
        ensures
            b == (self@.len() == 0),
    {
        self.len() == 0
    }

    /// Whether backing storage has been allocated. Storage materializes when
    /// the first byte is pushed and is never released.
    pub fn is_allocated(&self) -> (b: bool)
        ensures
            b == self.allocated(),
    {
        self.data.is_some()
    }

    /// Push a chunk onto the ring buffer.
    ///
    /// All or nothing: either every byte of `src` is appended behind the
    /// bytes already buffered, in order, or — when the chunk does not fit in
    /// the remaining capacity — the buffer is left completely unmodified and
    /// `TxBufFull` is returned. A chunk longer than `TX_BUF_SIZE` is thus
    /// always rejected. Storage is allocated when the first byte is pushed;
    /// an empty chunk succeeds without allocating anything.
    pub fn push(&mut self, src: &[u8]) -> (r: Result<(), TxBufFull>)
        requires
            old(self).wf(),
        ensures
            final(self).wf(),
            match r {
                Ok(_) => {
                    &&& old(self)@.len() + src@.len() <= TX_BUF_SIZE
                    &&& final(self)@ == old(self)@ + src@
                    &&& final(self).allocated() == (old(self).allocated() || src@.len() > 0)
                },
                Err(_) => {
                    &&& old(self)@.len() + src@.len() > TX_BUF_SIZE
                    &&& *final(self) == *old(self)
                },
            },
    {
        // Error out if there is no room to push the entire chunk.
        let used = self.len();
        if src.len() > TX_BUF_SIZE - used {
            return Err(TxBufFull);
        }

        // An empty chunk is a no-op; in particular it must not be the reason
        // storage comes into being.
        if src.len() == 0 {
            proof {
                assert(self@ + src@ =~= self@);
            }
            return Ok(());
        }

        if self.data.is_none() {
            self.data = Some(zeroed(TX_BUF_SIZE));
        }
        let ghost pre = *self;
        proof {
            assert(pre@ =~= old(self)@);
        }

        // Buffer head, as an offset into the storage.
        let head_ofs: usize = (self.head as usize) % TX_BUF_SIZE;

        // Pushing a chunk takes either one or two copies: one if the chunk
        // fits between `head_ofs` and the physical end of storage, two if
        // the head wraps around.
        let first_run: usize = if TX_BUF_SIZE - head_ofs < src.len() {
            TX_BUF_SIZE - head_ofs
        } else {
            src.len()
        };

        let mut data = self.data.take().unwrap();
        copy_into(&mut data, head_ofs, src, 0, first_run);
        // If the chunk did not fit, the head wraps around and pushing
        // continues from the start of the storage.
        if first_run < src.len() {
            copy_into(&mut data, 0, src, first_run, src.len() - first_run);
        }
        self.data = Some(data);

        // Exactly `src.len()` bytes were pushed, so that is the amount by
        // which the wrapping head counter moves forward.
        self.head = self.head.wrapping_add(src.len() as u32);

        proof {
            lemma_push_view(pre, *self, src@, head_ofs as int, first_run as int);
        }
        Ok(())
    }

    /// Flush the contents of the ring buffer into a sink.
    ///
    /// Moves as many buffered bytes as possible in one call: one contiguous
    /// write, plus a second one if the occupied range wraps past the
    /// physical end of storage and the sink accepted the whole first write.
    /// Returns the number of bytes the sink accepted, which may be less than
    /// the occupied length (a short write) or zero. An error is surfaced
    /// only when the sink fails before accepting any byte in this call; a
    /// failure of the second write after the first made progress is
    /// absorbed, and the call still reports the first write's count as a
    /// success.
    pub fn flush_to<W: Sink>(&mut self, sink: &mut W) -> (r: Result<usize, TxBufFlush<W::Error>>)
        requires
            old(self).wf(),
            old(sink).inv(),
        ensures
            final(self).wf(),
            final(sink).inv(),
            final(self).allocated() == old(self).allocated(),
            // Byte-exact FIFO: whatever the sink did, the total stream —
            // bytes the sink has accepted, then bytes still buffered — is
            // conserved.
            final(sink).accepted() + final(self)@ == old(sink).accepted() + old(self)@,
            match r {
                Ok(n) => {
                    &&& n <= old(self)@.len()
                    &&& final(self)@ == old(self)@.skip(n as int)
                    &&& final(sink).accepted() == old(sink).accepted() + old(self)@.take(n as int)
                    &&& (old(self)@.len() == 0 ==> n == 0 && *final(sink) == *old(sink))
                },
                Err(_) => {
                    &&& old(self)@.len() > 0
                    &&& *final(self) == *old(self)
                    &&& final(sink).accepted() == old(sink).accepted()
                },
            },
    {
        // Nothing to do if this buffer holds no data; the sink is not even
        // consulted.
        if self.is_empty() {
            proof {
                assert(self@.skip(0) =~= self@);
                assert(sink.accepted() + self@.take(0) =~= sink.accepted());
            }
            return Ok(0);
        }

        let used = self.len();
        // Buffer tail, as an offset into the storage.
        let tail_ofs: usize = (self.tail as usize) % TX_BUF_SIZE;

        // Flushing takes either one or two writes: one if the occupied range
        // is contiguous, two if it wraps past the physical end of storage.
        // First write length: the lesser of tail to physical end, or the
        // whole occupied length.
        let len1: usize = if TX_BUF_SIZE - tail_ofs < used {
            TX_BUF_SIZE - tail_ofs
        } else {
            used
        };
        let ghost pre = *self;

        let w1 = {
            let data = vec_ref(&self.data);
            let part = slice_subrange(data.as_slice(), tail_ofs, tail_ofs + len1);
            proof {
                lemma_run_is_prefix(pre, tail_ofs as int, len1 as int);
            }
            match sink.write(part) {
                Ok(n) => n,
                Err(e) => {
                    return Err(TxBufFlush(e));
                },
            }
        };

        // Move the tail ahead by the amount the sink was able to take.
        self.tail = self.tail.wrapping_add(w1 as u32);
        proof {
            lemma_advance_tail(pre, *self, w1 as int);
            lemma_flush_combine(old(sink).accepted(), pre@, len1 as int, w1 as int, 0);
        }

        // A short write: the sink has signaled it cannot currently take
        // more, so the wraparound segment is not attempted.
        if w1 < len1 {
            return Ok(w1);
        }

        // The first run was accepted in full. If bytes remain, the occupied
        // range wrapped past the physical end, and the remainder is
        // contiguous from the start of the storage. A failure here is
        // absorbed — progress was already made in this call — and a short
        // second write simply lowers the total.
        if self.is_empty() {
            return Ok(w1);
        }
        let len2 = self.len();
        let ghost mid = *self;
        let w2 = {
            let data = vec_ref(&self.data);
            let part2 = slice_subrange(data.as_slice(), 0, len2);
            proof {
                lemma_run_is_prefix(mid, 0, len2 as int);
            }
            match sink.write(part2) {
                Ok(n) => n,
                Err(_) => 0,
            }
        };
        self.tail = self.tail.wrapping_add(w2 as u32);
        proof {
            lemma_advance_tail(mid, *self, w2 as int);
            lemma_flush_combine(old(sink).accepted(), pre@, len1 as int, w1 as int, w2 as int);
        }
        Ok(w1 + w2)
    }
}

impl View for TxBuf {
    type V = Seq<u8>;

    /// The buffered, not-yet-flushed bytes, oldest first.
    closed spec fn view(&self) -> Seq<u8> {
        Seq::new(
            self.used() as nat,
            |i: int|
                match self.data {
                    Some(d) => d@[(self.tail + i) % (TX_BUF_SIZE as int)],
                    None => 0u8,
                },
        )
    }
}

/// The buffer itself behaves as a sink: accepting bytes means buffering
/// them. Acceptance is all or nothing — the whole chunk when it fits, a
/// `TxBufFull` failure (leaving the buffer untouched) when it does not — so
/// upstream code can feed the buffer through the same uniform write
/// interface as any other byte consumer.
impl Sink for TxBuf {
    type Error = TxBufFull;

    /// A buffer can absorb writes whenever it is well-formed.
    open spec fn inv(&self) -> bool {
        self.wf()
    }

    closed spec fn accepted(&self) -> Seq<u8> {
        self@
    }

    fn write(&mut self, buf: &[u8]) -> (r: Result<usize, TxBufFull>)
        ensures
            match r {
                Ok(n) => {
                    &&& n == buf@.len()
                    &&& old(self)@.len() + buf@.len() <= TX_BUF_SIZE
                    &&& final(self)@ == old(self)@ + buf@
                },
                Err(_) => {
                    &&& old(self)@.len() + buf@.len() > TX_BUF_SIZE
                    &&& *final(self) == *old(self)
                },
            },
    {
        match self.push(buf) {
            Ok(()) => {
                proof {
                    assert(buf@.take(buf@.len() as int) =~= buf@);
                }
                Ok(buf.len())
            },
            Err(e) => Err(e),
        }
    }
}

/// Capacity invariant: a well-formed buffer never buffers more than
/// `TX_BUF_SIZE` bytes. Its occupied length is the distance between the
/// wrapping flushed-bytes and pushed-bytes counters, and every `push` and
/// `flush_to` keeps that distance within the capacity.
pub proof fn lemma_capacity_invariant(b: &TxBuf)
    requires
        b.wf(),
    ensures
        b@.len() <= TX_BUF_SIZE,
{
}

/// Byte-exact FIFO, across calls: one flush hands the sink the oldest `n1`
/// buffered bytes and the next flush the `n2` bytes that followed them, so
/// the chunks flushed out, concatenated in flush order, are exactly the
/// oldest `n1 + n2` buffered bytes in push order.
pub proof fn lemma_flush_concat(buffered: Seq<u8>, n1: int, n2: int)
    requires
        0 <= n1,
        0 <= n2,
        n1 + n2 <= buffered.len(),
    ensures
        buffered.take(n1) + buffered.skip(n1).take(n2) == buffered.take(n1 + n2),
{
    assert(buffered.take(n1) + buffered.skip(n1).take(n2) =~= buffered.take(n1 + n2));
}

/// Byte-exact FIFO, within a call: flushing the oldest `n` buffered bytes
/// into the sink and dropping them from the buffer conserves the total
/// stream — the bytes the sink has accepted followed by the bytes still
/// buffered.
pub proof fn lemma_fifo_conservation(accepted: Seq<u8>, buffered: Seq<u8>, n: int)
    requires
        0 <= n <= buffered.len(),
    ensures
        (accepted + buffered.take(n)) + buffered.skip(n) == accepted + buffered,
{
    assert((accepted + buffered.take(n)) + buffered.skip(n) =~= accepted + buffered);
}

/// A zero-initialized vector of exactly `n` bytes.
fn zeroed(n: usize) -> (v: Vec<u8>)
    ensures
        v@.len() == n,
        forall|i: int| 0 <= i < n ==> v@[i] == 0u8,
{
    let mut v: Vec<u8> = Vec::new();
    while v.len() < n
        invariant
            v@.len() <= n,
            forall|i: int| 0 <= i < v@.len() ==> v@[i] == 0u8,
        decreases n - v@.len(),
    {
        v.push(0u8);
    }
    v
}

/// Copy `src[src_start .. src_start + count]` over
/// `dst[dst_start .. dst_start + count]`, leaving the rest of `dst` as it
/// was.
fn copy_into(dst: &mut Vec<u8>, dst_start: usize, src: &[u8], src_start: usize, count: usize)
    requires
        src_start + count <= src@.len(),
        dst_start + count <= old(dst)@.len(),
    ensures
        final(dst)@.len() == old(dst)@.len(),
        forall|j: int|
            dst_start <= j < dst_start + count ==> final(dst)@[j] == src@[src_start + (j
                - dst_start)],
        forall|j: int|
            0 <= j < old(dst)@.len() && !(dst_start <= j < dst_start + count) ==> final(dst)@[j]
                == old(dst)@[j],
{
    let src_len = src.len();
    let dst_len = dst.len();
    let mut i: usize = 0;
    while i < count
        invariant
            i <= count,
            src_len == src@.len(),
            dst_len == dst@.len(),
            src_start + count <= src_len,
            dst_start + count <= dst_len,
            dst@.len() == old(dst)@.len(),
            forall|j: int|
                dst_start <= j < dst_start + i ==> dst@[j] == src@[src_start + (j - dst_start)],
            forall|j: int|
                0 <= j < dst@.len() && !(dst_start <= j < dst_start + i) ==> dst@[j] == old(
                    dst,
                )@[j],
        decreases count - i,
    {
        let b = src[src_start + i];
        dst[dst_start + i] = b;
        i += 1;
    }
}

/// Shared reference to the backing storage; callable only once it exists.
fn vec_ref(data: &Option<Vec<u8>>) -> (r: &Vec<u8>)
    requires
        data is Some,
    ensures
        r == data->0,
{
    data.as_ref().unwrap()
}

/// If adding `k` to `x` does not cross the next multiple of the capacity,
/// the physical offset advances by plain addition.
proof fn lemma_mod_step(x: int, k: int)
    requires
        x >= 0,
        0 <= k,
        (x % (TX_BUF_SIZE as int)) + k < TX_BUF_SIZE,
    ensures
        (x + k) % (TX_BUF_SIZE as int) == (x % (TX_BUF_SIZE as int)) + k,
{
    let m = TX_BUF_SIZE as int;
    lemma_fundamental_div_mod(x, m);
    lemma_mod_bound(x, m);
    lemma_fundamental_div_mod_converse_mod(x + k, m, x / m, (x % m) + k);
}

/// If adding `k` to `x` crosses the next multiple of the capacity exactly
/// once, the physical offset wraps around.
proof fn lemma_mod_step_wrap(x: int, k: int)
    requires
        x >= 0,
        0 <= k,
        TX_BUF_SIZE <= (x % (TX_BUF_SIZE as int)) + k < 2 * TX_BUF_SIZE,
    ensures
        (x + k) % (TX_BUF_SIZE as int) == (x % (TX_BUF_SIZE as int)) + k - TX_BUF_SIZE,
{
    let m = TX_BUF_SIZE as int;
    lemma_fundamental_div_mod(x, m);
    lemma_mod_bound(x, m);
    lemma_fundamental_div_mod_converse_mod(x + k, m, x / m + 1, (x % m) + k - m);
}

/// Two stream positions within one capacity of each other occupy the same
/// physical slot only if they are the same position.
proof fn lemma_phys_inj(t: int, a: int, b: int)
    requires
        t >= 0,
        0 <= a < TX_BUF_SIZE,
        0 <= b < TX_BUF_SIZE,
        (t + a) % (TX_BUF_SIZE as int) == (t + b) % (TX_BUF_SIZE as int),
    ensures
        a == b,
{
    let m = TX_BUF_SIZE as int;
    lemma_mod_bound(t, m);
    if (t % m) + a < m {
        lemma_mod_step(t, a);
    } else {
        lemma_mod_step_wrap(t, a);
    }
    if (t % m) + b < m {
        lemma_mod_step(t, b);
    } else {
        lemma_mod_step_wrap(t, b);
    }
}

/// Congruent stream positions land on the same physical slot.
proof fn lemma_congruent_plus(a: int, b: int, i: int)
    requires
        a % (TX_BUF_SIZE as int) == b % (TX_BUF_SIZE as int),
    ensures
        (a + i) % (TX_BUF_SIZE as int) == (b + i) % (TX_BUF_SIZE as int),
{
    let m = TX_BUF_SIZE as int;
    lemma_add_mod_noop(a, i, m);
    lemma_add_mod_noop(b, i, m);
}

/// The head counter is congruent to tail plus the occupied length, modulo
/// the capacity: the counters wrap at a multiple of it.
proof fn lemma_head_congruent(b: TxBuf)
    ensures
        (b.head as int) % (TX_BUF_SIZE as int) == ((b.tail as int) + b.used()) % (
        TX_BUF_SIZE as int),
{
    let m = TX_BUF_SIZE as int;
    if b.head < b.tail {
        // tail + used == head + 2^32, and 2^32 is a multiple of the capacity
        lemma_mod_multiples_vanish(65536, b.head as int, m);
    }
}

/// Advancing the tail by `w` flushed bytes drops exactly the first `w`
/// bytes of the view.
proof fn lemma_advance_tail(pre: TxBuf, post: TxBuf, w: int)
    requires
        pre.wf(),
        pre.allocated(),
        0 <= w <= pre.used(),
        post.data == pre.data,
        post.head == pre.head,
        post.tail == pre.tail.wrapping_add(w as u32),
    ensures
        post.wf(),
        post.allocated(),
        post.used() == pre.used() - w,
        post@ == pre@.skip(w),
        ((pre.tail as int) % (TX_BUF_SIZE as int)) + w == TX_BUF_SIZE ==> (post.tail as int) % (
        TX_BUF_SIZE as int) == 0,
{
    let m = TX_BUF_SIZE as int;
    let t = pre.tail as int;
    // The new tail is congruent to `tail + w` modulo the capacity.
    if t + w > u32::MAX {
        lemma_mod_multiples_vanish(-65536, t + w, m);
        assert(m * (-65536) + (t + w) == post.tail as int);
    }
    assert((post.tail as int) % m == (t + w) % m);
    assert(post.used() == pre.used() - w);
    assert forall|i: int| 0 <= i < post.used() implies post@[i] == pre@[w + i] by {
        lemma_congruent_plus(post.tail as int, t + w, i);
    }
    assert(post@ =~= pre@.skip(w));
    if (t % m) + w == m {
        lemma_mod_step_wrap(t, w);
    }
}

/// The contiguous run starting at the tail offset is a prefix of the view.
proof fn lemma_run_is_prefix(b: TxBuf, start: int, len: int)
    requires
        b.wf(),
        b.allocated(),
        start == (b.tail as int) % (TX_BUF_SIZE as int),
        0 <= len <= b.used(),
        start + len <= TX_BUF_SIZE,
    ensures
        b.data->0@.subrange(start, start + len) == b@.take(len),
{
    let m = TX_BUF_SIZE as int;
    assert forall|k: int| 0 <= k < len implies b.data->0@[start + k] == b@[k] by {
        lemma_mod_bound(b.tail as int, m);
        lemma_mod_step(b.tail as int, k);
    }
    assert(b.data->0@.subrange(start, start + len) =~= b@.take(len));
}

/// Sequence algebra behind combining the two bounded writes of one flush:
/// consecutive takes and skips of the buffered bytes compose, so the sink
/// ends up with exactly the oldest `w1 + w2` bytes and the buffer with the
/// rest.
proof fn lemma_flush_combine(acc0: Seq<u8>, buf0: Seq<u8>, len1: int, w1: int, w2: int)
    requires
        0 <= w1 <= len1 <= buf0.len(),
        0 <= w2,
        w1 + w2 <= buf0.len(),
    ensures
        buf0.take(len1).take(w1) == buf0.take(w1),
        buf0.skip(w1).take(buf0.len() - w1) == buf0.skip(w1),
        buf0.skip(w1).skip(w2) == buf0.skip(w1 + w2),
        (acc0 + buf0.take(w1)) + buf0.skip(w1).take(w2) == acc0 + buf0.take(w1 + w2),
        (acc0 + buf0.take(w1 + w2)) + buf0.skip(w1 + w2) == acc0 + buf0,
{
    assert(buf0.take(len1).take(w1) =~= buf0.take(w1));
    assert(buf0.skip(w1).take(buf0.len() - w1) =~= buf0.skip(w1));
    assert(buf0.skip(w1).skip(w2) =~= buf0.skip(w1 + w2));
    assert((acc0 + buf0.take(w1)) + buf0.skip(w1).take(w2) =~= acc0 + buf0.take(w1 + w2));
    assert((acc0 + buf0.take(w1 + w2)) + buf0.skip(w1 + w2) =~= acc0 + buf0);
}

/// Pushing writes exactly the chunk behind the bytes already buffered: the
/// untouched slots keep the old view, the one or two copied runs lay the
/// chunk out contiguously in stream order.
proof fn lemma_push_view(pre: TxBuf, post: TxBuf, src: Seq<u8>, head_ofs: int, first_run: int)
    requires
        pre.wf(),
        pre.allocated(),
        pre.used() + src.len() <= TX_BUF_SIZE,
        head_ofs == (pre.head as int) % (TX_BUF_SIZE as int),
        first_run == if TX_BUF_SIZE - head_ofs < src.len() {
            TX_BUF_SIZE - head_ofs
        } else {
            src.len() as int
        },
        post.tail == pre.tail,
        post.head == pre.head.wrapping_add(src.len() as u32),
        post.data is Some,
        post.data->0@.len() == TX_BUF_SIZE,
        forall|j: int|
            head_ofs <= j < head_ofs + first_run ==> post.data->0@[j] == src[j - head_ofs],
        forall|j: int| 0 <= j < src.len() - first_run ==> post.data->0@[j] == src[first_run + j],
        forall|j: int|
            0 <= j < TX_BUF_SIZE && !(head_ofs <= j < head_ofs + first_run) && !(0 <= j < src.len()
                - first_run) ==> post.data->0@[j] == pre.data->0@[j],
    ensures
        post.wf(),
        post.allocated(),
        post@ == pre@ + src,
{
    let m = TX_BUF_SIZE as int;
    let l = src.len() as int;
    let u0 = pre.used();
    let t = pre.tail as int;
    let h = pre.head as int;
    // The new head is congruent to `head + l` modulo 2^32, so the occupied
    // length grew by exactly the chunk length.
    if h + l > u32::MAX {
        assert(post.head as int == h + l - 0x1_0000_0000);
    }
    assert(post.used() == u0 + l);
    lemma_head_congruent(pre);
    lemma_mod_bound(h, m);
    lemma_mod_bound(t, m);
    assert forall|i: int| 0 <= i < u0 + l implies post@[i] == (pre@ + src)[i] by {
        let p = (t + i) % m;
        lemma_mod_bound(t + i, m);
        if i < u0 {
            // This slot is outside both copied runs, hence untouched:
            // a slot inside a copied run would mean two distinct stream
            // positions within one capacity share a physical slot.
            if head_ofs <= p < head_ofs + first_run {
                let k = p - head_ofs;
                lemma_mod_step(h, k);
                lemma_congruent_plus(h, t + u0, k);
                lemma_phys_inj(t, i, u0 + k);
                assert(false);
            }
            if 0 <= p < l - first_run {
                lemma_mod_step_wrap(h, first_run + p);
                lemma_congruent_plus(h, t + u0, first_run + p);
                lemma_phys_inj(t, i, u0 + first_run + p);
                assert(false);
            }
        } else {
            // This slot received byte `i - u0` of the chunk, by the first
            // copy if it lies before the physical end, by the second if it
            // wrapped around.
            let j = i - u0;
            lemma_congruent_plus(t + u0, h, j);
            if j < first_run {
                lemma_mod_step(h, j);
            } else {
                lemma_mod_step_wrap(h, j);
            }
        }
    }
    assert(post@ =~= pre@ + src);
}

} // verus!

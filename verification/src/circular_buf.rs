//! A circular byte buffer that grows on demand.
//!
//! The buffer stores its bytes in a ring of `cap()` slots; the contents are
//! the `len()` bytes that start at slot `head()` and wrap around the end of
//! the ring. Writing into a full buffer doubles the ring (or gives it
//! `INITIAL_CAP` slots when it has none), and whenever the buffer becomes
//! empty its head goes back to slot 0.
use vstd::prelude::*;
use crate::frame::{decode_header, encode_frame, encode_header, frames, frames_len, frames_rest, has_frame, frame_len, frame_payload};

verus! {

/// Number of slots a buffer without any gets when it is first written to.
pub const INITIAL_CAP: usize = 1024;

/// Circular buffer of bytes which grows on demand.
pub struct CircularBuffer {
    /// the ring of slots; its length is the capacity
    inner: Vec<u8>,
    /// slot of the first byte of the contents
    start: usize,
    /// amount of data in the buffer
    remaining: usize,
    /// every byte ever written, oldest first
    written: Ghost<Seq<u8>>,
    /// the number of bytes ever read
    taken: Ghost<nat>,
}

/// The slot that holds the byte at offset `i` of contents starting at slot
/// `head`, in a ring of `cap` slots (`head + i < 2 * cap`).
pub open spec fn ring_slot(head: nat, i: nat, cap: nat) -> nat {
    if head + i < cap {
        head + i
    } else {
        (head + i - cap) as nat
    }
}

/// The `len` bytes of a ring `storage` that start at slot `head`.
pub open spec fn ring_contents(storage: Seq<u8>, head: nat, len: nat) -> Seq<u8> {
    Seq::new(len, |i: int| storage[ring_slot(head, i as nat, storage.len()) as int])
}

/// The slot right after the last byte of the contents.
pub open spec fn end_slot(head: nat, len: nat, cap: nat) -> nat {
    ring_slot(head, len, cap)
}

/// Number of free slots that follow the contents without a wrap: from the end
/// of the contents to the end of the ring, or to the head when the contents
/// wrap around.
pub open spec fn free_run(head: nat, len: nat, cap: nat) -> nat {
    if len == cap {
        0
    } else if head <= end_slot(head, len, cap) {
        (cap - end_slot(head, len, cap)) as nat
    } else {
        (head - end_slot(head, len, cap)) as nat
    }
}

/// Where the contents start once their first `n` bytes are made contiguous:
/// where they did when those bytes already were, else at slot 0.
pub open spec fn contiguous_head(head: nat, cap: nat, n: nat) -> nat {
    if n <= cap - head {
        head
    } else {
        0
    }
}

/// Where contents `s` that start at slot `head` of a ring of `cap` slots
/// start once `next_frame` is done: the header is made contiguous, then the
/// whole frame, which is then dropped; without a complete frame, only the
/// header is made contiguous.
pub open spec fn head_after_next_frame(head: nat, cap: nat, s: Seq<u8>) -> nat {
    let h1 = contiguous_head(head, cap, 4);
    if has_frame(s) {
        let n = frame_len(s);
        if n == s.len() {
            0
        } else {
            ring_slot(contiguous_head(h1, cap, n), n, cap)
        }
    } else if s.len() >= 4 {
        h1
    } else {
        head
    }
}

/// Where contents `s` that start at slot `head` of a ring of `cap` slots
/// start once `drain_frames` is done: `next_frame` is repeated until it finds
/// no complete frame.
pub open spec fn head_after_drain(head: nat, cap: nat, s: Seq<u8>) -> nat
    decreases s.len(),
{
    if has_frame(s) {
        head_after_drain(head_after_next_frame(head, cap, s), cap, s.skip(frame_len(s) as int))
    } else {
        head_after_next_frame(head, cap, s)
    }
}

/// Capacity of a full buffer after it grows.
pub open spec fn grown_capacity(cap: nat) -> nat {
    if cap == 0 {
        INITIAL_CAP as nat
    } else {
        2 * cap
    }
}

/// Capacity a buffer of capacity `cap` ends with once it holds `total` bytes:
/// it grows (as `grown_capacity` says) while that is too small.
pub open spec fn final_capacity(cap: nat, total: nat) -> nat
    decreases (if cap < total { total - cap } else { 0 }),
{
    if cap >= total {
        cap
    } else {
        final_capacity(grown_capacity(cap), total)
    }
}

/// Growing to hold `a` bytes, then to hold `b >= a` bytes, ends with the
/// capacity of growing to hold `b` bytes at once.
pub proof fn lemma_final_capacity_chain(cap: nat, a: nat, b: nat)
    requires
        a <= b,
    ensures
        final_capacity(final_capacity(cap, a), b) == final_capacity(cap, b),
    decreases (if cap < a { a - cap } else { 0 }),
{
    if cap < a {
        lemma_final_capacity_chain(grown_capacity(cap), a, b);
    }
}

/// The capacity a buffer ends with is at least what it holds, and at least
/// what it had.
pub proof fn lemma_final_capacity(cap: nat, total: nat)
    ensures
        final_capacity(cap, total) >= total,
        final_capacity(cap, total) >= cap,
        cap < total ==> final_capacity(cap, total) == final_capacity(grown_capacity(cap), total),
    decreases (if cap < total { total - cap } else { 0 }),
{
    if cap < total {
        lemma_final_capacity(grown_capacity(cap), total);
    }
}

impl View for CircularBuffer {
    type V = Seq<u8>;

    /// The bytes held, oldest first.
    closed spec fn view(&self) -> Seq<u8> {
        ring_contents(self.inner@, self.start as nat, self.remaining as nat)
    }
}

impl CircularBuffer {
    /// Number of slots of the ring.
    pub closed spec fn cap(&self) -> nat {
        self.inner@.len()
    }

    /// Slot of the first byte of the contents.
    pub closed spec fn head(&self) -> nat {
        self.start as nat
    }

    /// The slots of the ring, including those outside the contents.
    pub closed spec fn storage(&self) -> Seq<u8> {
        self.inner@
    }

    /// Every byte written to the buffer since it was made, oldest first.
    pub closed spec fn written(&self) -> Seq<u8> {
        self.written@
    }

    /// The number of bytes read from the buffer since it was made.
    pub closed spec fn taken(&self) -> nat {
        self.taken@
    }

    /// The internal invariant: the head is a slot of the ring (slot 0 when the
    /// ring is empty or the buffer holds nothing), the contents fit, and they
    /// are the bytes written that were not read yet.
    pub closed spec fn wf(&self) -> bool {
        &&& self.taken@ <= self.written@.len()
        &&& self@ == self.written@.skip(self.taken@ as int)
        &&& self.remaining <= self.inner@.len()
        &&& self.inner@.len() <= usize::MAX
        &&& (self.inner@.len() == 0 ==> self.start == 0)
        &&& (self.inner@.len() > 0 ==> self.start < self.inner@.len())
        &&& (self.remaining == 0 ==> self.start == 0)
    }

    /// What the internal invariant tells of the observers.
    pub proof fn lemma_wf(&self)
        requires
            self.wf(),
        ensures
            self@.len() <= self.cap(),
            self.cap() == self.storage().len(),
            self.cap() == 0 ==> self.head() == 0,
            self.cap() > 0 ==> self.head() < self.cap(),
            self@.len() == 0 ==> self.head() == 0,
            self@ == ring_contents(self.storage(), self.head(), self@.len()),
            self.taken() <= self.written().len(),
            self@ == self.written().skip(self.taken() as int),
            self@.len() == self.written().len() - self.taken(),
    {
    }

    pub fn new() -> (r: Self)
        ensures
            r.wf(),
            r@ == Seq::<u8>::empty(),
            r.cap() == 0,
            r.head() == 0,
            r.written() == Seq::<u8>::empty(),
            r.taken() == 0,
    {
        CircularBuffer::with_capacity(0)
    }

    pub fn with_capacity(cap: usize) -> (r: Self)
        ensures
            r.wf(),
            r@ == Seq::<u8>::empty(),
            r.cap() == cap,
            r.head() == 0,
            r.written() == Seq::<u8>::empty(),
            r.taken() == 0,
    {
        let inner = vec![0u8; cap];
        let r = CircularBuffer { inner, start: 0, remaining: 0, written: Ghost(Seq::empty()), taken: Ghost(0) };
        assert(r@ =~= Seq::<u8>::empty());
        assert(r.written@.skip(0) =~= Seq::<u8>::empty());
        r
    }

    pub fn len(&self) -> (r: usize)
        requires
            self.wf(),
        ensures
            r == self@.len(),
    {
        self.remaining
    }

    /// Number of free slots.
    pub fn capacity(&self) -> (r: usize)
        requires
            self.wf(),
        ensures
            r == self.cap() - self@.len(),
    {
        self.inner.len() - self.remaining
    }

    /// Whether `extra` more bytes can be written: the count of bytes held
    /// and the capacity the buffer grows to both stay within `usize`.
    pub fn fits(&self, extra: usize) -> (r: bool)
        requires
            self.wf(),
        ensures
            r == (self@.len() + extra <= usize::MAX && final_capacity(self.cap(), self@.len() + extra as nat) <= usize::MAX),
    {
        if extra > usize::MAX - self.remaining {
            return false;
        }
        let total = self.remaining + extra;
        let mut cap = self.inner.len();
        proof {
            lemma_final_capacity(cap as nat, total as nat);
        }
        while cap < total
            invariant
                final_capacity(cap as nat, total as nat) == final_capacity(self.cap(), total as nat),
                total == self@.len() + extra,
            decreases (if cap < total { total - cap } else { 0 }),
        {
            proof {
                lemma_final_capacity(cap as nat, total as nat);
                lemma_final_capacity(grown_capacity(cap as nat), total as nat);
            }
            if cap == 0 {
                cap = INITIAL_CAP;
            } else if cap > usize::MAX / 2 {
                return false;
            } else {
                cap = cap * 2;
            }
        }
        true
    }

    /// The slot right after the last byte of the contents.
    fn end(&self) -> (r: usize)
        requires
            self.wf(),
        ensures
            r == end_slot(self.start as nat, self.remaining as nat, self.inner@.len()),
            self.inner@.len() > 0 ==> r < self.inner@.len(),
    {
        let cap = self.inner.len();
        if cap == 0 {
            0
        } else if self.remaining < cap - self.start {
            self.start + self.remaining
        } else {
            self.remaining - (cap - self.start)
        }
    }

    /// The contents, laid out from slot 0, followed by zeros up to `new_cap` slots.
    fn linearized(&self, new_cap: usize) -> (r: Vec<u8>)
        requires
            self.wf(),
            new_cap >= self.inner@.len(),
        ensures
            r@.len() == new_cap,
            r@.take(self.remaining as int) == self@,
    {
        let cap = self.inner.len();
        let mut r: Vec<u8> = Vec::with_capacity(new_cap);
        let mut i: usize = 0;
        while i < new_cap
            invariant
                self.wf(),
                cap == self.inner@.len(),
                new_cap >= cap,
                i <= new_cap,
                r@.len() == i,
                forall|j: int| 0 <= j < i && j < self.remaining ==> r@[j] == #[trigger] self@[j],
            decreases new_cap - i,
        {
            if i < self.remaining {
                let p = if i < cap - self.start {
                    self.start + i
                } else {
                    i - (cap - self.start)
                };
                r.push(self.inner[p]);
            } else {
                r.push(0);
            }
            i = i + 1;
        }
        assert(r@.take(self.remaining as int) =~= self@);
        r
    }

    /// Makes sure the first `cnt` bytes of the contents are contiguous.
    /// Returns false if there are not that many bytes.
    pub fn pullup(&mut self, cnt: usize) -> (r: bool)
        requires
            old(self).wf(),
        ensures
            final(self).wf(),
            r == (cnt <= old(self)@.len()),
            final(self)@ == old(self)@,
            final(self).cap() == old(self).cap(),
            r ==> cnt <= final(self).cap() - final(self).head(),
            final(self).head() == if r {
                contiguous_head(old(self).head(), old(self).cap(), cnt as nat)
            } else {
                old(self).head()
            },
            (!r || cnt <= old(self).cap() - old(self).head()) ==> final(self).storage() == old(self).storage(),
            final(self).written() == old(self).written(),
            final(self).taken() == old(self).taken(),
    {
        if cnt > self.remaining {
            false
        } else if cnt <= self.inner.len() - self.start {
            // already contiguous
            true
        } else {
            // the two halves of the contents are not contiguous:
            // lay them out again from slot 0
            let cap = self.inner.len();
            let ghost old_view = self@;
            let r = self.linearized(cap);
            self.inner = r;
            self.start = 0;
            assert(self@ =~= old_view) by {
                assert forall|i: int| 0 <= i < self.remaining implies self@[i] == old_view[i] by {
                    assert(self.inner@.take(self.remaining as int)[i] == old_view[i]);
                }
            }
            true
        }
    }

    /// The first contiguous part of the contents.
    pub fn bytes(&self) -> (r: &[u8])
        requires
            self.wf(),
        ensures
            r@.len() == if self@.len() <= self.cap() - self.head() {
                self@.len() as int
            } else {
                self.cap() - self.head()
            },
            r@ == self@.take(r@.len() as int),
    {
        let cap = self.inner.len();
        let end = if self.remaining <= cap - self.start {
            self.start + self.remaining
        } else {
            cap
        };
        let r = vstd::slice::slice_subrange(self.inner.as_slice(), self.start, end);
        assert(r@ =~= self@.take(r@.len() as int));
        r
    }

    /// Drops the first `cnt` bytes of the contents. When the buffer becomes
    /// empty, its head goes back to slot 0.
    pub fn advance(&mut self, cnt: usize)
        requires
            old(self).wf(),
            cnt <= old(self)@.len(),
            old(self).cap() > 0,
        ensures
            final(self).wf(),
            final(self)@ == old(self)@.skip(cnt as int),
            final(self).cap() == old(self).cap(),
            final(self).storage() == old(self).storage(),
            final(self).head() == if cnt == old(self)@.len() {
                0
            } else {
                ring_slot(old(self).head(), cnt as nat, old(self).cap())
            },
            final(self).written() == old(self).written(),
            final(self).taken() == old(self).taken() + cnt,
    {
        let ghost old_view = self@;
        self.taken = Ghost(self.taken@ + cnt as nat);
        let cap = self.inner.len();
        self.start = if cnt < cap - self.start {
            self.start + cnt
        } else {
            cnt - (cap - self.start)
        };
        self.remaining = self.remaining - cnt;
        if self.remaining == 0 {
            self.start = 0;
        }
        assert(self@ =~= old_view.skip(cnt as int));
        assert(self.written@.skip(self.taken@ as int) =~= old_view.skip(cnt as int));
    }

    /// Adds to the contents the `cnt` slots that follow them; they must be
    /// free and contiguous.
    pub fn advance_mut(&mut self, cnt: usize)
        requires
            old(self).wf(),
            old(self).cap() > 0,
            cnt <= free_run(old(self).head(), old(self)@.len(), old(self).cap()),
        ensures
            final(self).wf(),
            final(self)@ == old(self)@ + old(self).storage().subrange(
                end_slot(old(self).head(), old(self)@.len(), old(self).cap()) as int,
                end_slot(old(self).head(), old(self)@.len(), old(self).cap()) + cnt,
            ),
            final(self).cap() == old(self).cap(),
            final(self).head() == old(self).head(),
            final(self).storage() == old(self).storage(),
            final(self).written() == old(self).written() + old(self).storage().subrange(
                end_slot(old(self).head(), old(self)@.len(), old(self).cap()) as int,
                end_slot(old(self).head(), old(self)@.len(), old(self).cap()) + cnt,
            ),
            final(self).taken() == old(self).taken(),
    {
        let ghost old_view = self@;
        let ghost end = end_slot(self.start as nat, self.remaining as nat, self.inner@.len());
        self.written = Ghost(self.written@ + self.inner@.subrange(end as int, end + cnt));
        if cnt > 0 {
            self.remaining = self.remaining + cnt;
        }
        assert forall|i: int| old_view.len() <= i < self.remaining implies #[trigger] self@[i]
            == old(self).storage().subrange(end as int, end + cnt)[i - old_view.len()] by {
            assert(ring_slot(self.start as nat, i as nat, self.inner@.len()) == end + (i - old_view.len()));
        }
        assert(self@ =~= old_view + old(self).storage().subrange(end as int, end + cnt));
        assert(self.written@.skip(self.taken@ as int) =~= old_view + old(self).storage().subrange(end as int, end + cnt));
    }

    /// Makes sure there are free slots after the contents, growing a full
    /// buffer, and returns the number of those that are contiguous.
    pub fn bytes_mut_len(&mut self) -> (r: usize)
        requires
            old(self).wf(),
            old(self)@.len() == old(self).cap() ==> grown_capacity(old(self).cap()) <= usize::MAX,
        ensures
            final(self).wf(),
            final(self)@ == old(self)@,
            old(self)@.len() < old(self).cap() ==> final(self).cap() == old(self).cap()
                && final(self).head() == old(self).head()
                && final(self).storage() == old(self).storage(),
            old(self)@.len() == old(self).cap() ==> final(self).cap() == grown_capacity(old(self).cap())
                && final(self).head() == 0,
            r == free_run(final(self).head(), final(self)@.len(), final(self).cap()),
            r > 0,
            final(self).written() == old(self).written(),
            final(self).taken() == old(self).taken(),
    {
        if self.remaining == self.inner.len() {
            self.grow();
        }
        let cap = self.inner.len();
        let end = self.end();
        if self.start <= end {
            cap - end
        } else {
            self.start - end
        }
    }

    /// Grows a full buffer: the contents move to slot 0 of a ring twice as
    /// large (or of `INITIAL_CAP` slots).
    fn grow(&mut self)
        requires
            old(self).wf(),
            old(self)@.len() == old(self).cap(),
            grown_capacity(old(self).cap()) <= usize::MAX,
        ensures
            final(self).wf(),
            final(self)@ == old(self)@,
            final(self).cap() == grown_capacity(old(self).cap()),
            final(self).head() == 0,
            final(self).written() == old(self).written(),
            final(self).taken() == old(self).taken(),
    {
        let ghost old_view = self@;
        let cap = self.inner.len();
        let new_cap = if cap == 0 {
            INITIAL_CAP
        } else {
            cap * 2
        };
        let r = self.linearized(new_cap);
        self.inner = r;
        self.start = 0;
        assert(self@ =~= old_view) by {
            assert forall|i: int| 0 <= i < self.remaining implies self@[i] == old_view[i] by {
                assert(self.inner@.take(self.remaining as int)[i] == old_view[i]);
            }
        }
    }

    /// Writes `src[off..off + cnt]` into the free contiguous slots after the
    /// contents and adds them to the contents.
    fn write_contiguous(&mut self, src: &[u8], off: usize, cnt: usize)
        requires
            old(self).wf(),
            old(self).cap() > 0,
            cnt <= free_run(old(self).head(), old(self)@.len(), old(self).cap()),
            off + cnt <= src@.len(),
        ensures
            final(self).wf(),
            final(self)@ == old(self)@ + src@.subrange(off as int, off + cnt),
            final(self).cap() == old(self).cap(),
            final(self).head() == old(self).head(),
            final(self).written() == old(self).written() + src@.subrange(off as int, off + cnt),
            final(self).taken() == old(self).taken(),
    {
        let ghost old_view = self@;
        let end = self.end();
        assert(src@.len() == src.len());
        let mut j: usize = 0;
        while j < cnt
            invariant
                self.wf(),
                self.inner@.len() == old(self).cap(),
                self.start == old(self).head(),
                self.remaining == old(self)@.len(),
                self@ == old_view,
                self.written() == old(self).written(),
                self.taken() == old(self).taken(),
                end == end_slot(self.start as nat, self.remaining as nat, self.inner@.len()),
                end < self.inner@.len(),
                cnt <= free_run(self.start as nat, self.remaining as nat, self.inner@.len()),
                end + cnt <= self.inner@.len(),
                off + cnt <= src@.len(),
                src@.len() <= usize::MAX,
                j <= cnt,
                self.inner@.subrange(end as int, end + j) == src@.subrange(off as int, off + j),
            decreases cnt - j,
        {
            let ghost prev = self.inner@;
            self.inner[end + j] = src[off + j];
            assert(self.inner@.subrange(end as int, end + j + 1) =~= src@.subrange(off as int, off + j + 1)) by {
                assert(prev.subrange(end as int, end + j) == src@.subrange(off as int, off + j));
                assert forall|k: int| 0 <= k < j implies #[trigger] self.inner@.subrange(end as int, end + j + 1)[k] == src@.subrange(off as int, off + j + 1)[k] by {
                    assert(prev.subrange(end as int, end + j)[k] == prev[end + k]);
                    assert(src@.subrange(off as int, off + j)[k] == src@[off + k]);
                }
            }
            assert(self@ =~= old_view) by {
                assert forall|i: int| 0 <= i < self.remaining implies self@[i] == old_view[i] by {
                    let s = ring_slot(self.start as nat, i as nat, self.inner@.len());
                    if self.start + self.remaining < self.inner@.len() {
                        assert(s < end);
                    } else {
                        assert(self.start > end);
                        assert(s >= self.start || s < end);
                    }
                    assert(s != end + j);
                }
            }
            j = j + 1;
        }
        self.advance_mut(cnt);
        assert(self.inner@.subrange(end as int, end + cnt) =~= src@.subrange(off as int, off + cnt));
    }

    /// Appends the bytes of `src` to the contents, growing the buffer as needed.
    pub fn put_slice(&mut self, src: &[u8])
        requires
            old(self).wf(),
            final_capacity(old(self).cap(), old(self)@.len() + src@.len()) <= usize::MAX,
        ensures
            final(self).wf(),
            final(self)@ == old(self)@ + src@,
            final(self).cap() == final_capacity(old(self).cap(), old(self)@.len() + src@.len()),
            final(self).head() == if old(self).cap() >= old(self)@.len() + src@.len() {
                old(self).head()
            } else {
                0
            },
            final(self).written() == old(self).written() + src@,
            final(self).taken() == old(self).taken(),
    {
        let ghost total = old(self)@.len() + src@.len();
        proof {
            lemma_final_capacity(old(self).cap(), total);
        }
        let mut off: usize = 0;
        while off < src.len()
            invariant
                self.wf(),
                off <= src@.len(),
                self@ == old(self)@ + src@.take(off as int),
                self.written() == old(self).written() + src@.take(off as int),
                self.taken() == old(self).taken(),
                self@.len() + (src@.len() - off) == total,
                final_capacity(self.cap(), total) == final_capacity(old(self).cap(), total),
                final_capacity(self.cap(), total) <= usize::MAX,
                self.cap() >= old(self).cap(),
                self.cap() == old(self).cap() ==> self.head() == old(self).head(),
                self.cap() != old(self).cap() ==> self.head() == 0,
            decreases src@.len() - off,
        {
            proof {
                lemma_final_capacity(self.cap(), total);
                if self@.len() == self.cap() {
                    lemma_final_capacity(grown_capacity(self.cap()), total);
                }
            }
            let n = self.bytes_mut_len();
            let cnt = if n < src.len() - off {
                n
            } else {
                src.len() - off
            };
            self.write_contiguous(src, off, cnt);
            proof {
                assert(src@.take(off as int) + src@.subrange(off as int, off + cnt) =~= src@.take(off + cnt));
                assert(old(self).written() + src@.take(off + cnt) =~= old(self).written() + src@.take(off as int)
                    + src@.subrange(off as int, off + cnt));
                lemma_final_capacity(self.cap(), total);
            }
            off = off + cnt;
        }
        assert(src@.take(off as int) =~= src@);
        proof {
            lemma_final_capacity(self.cap(), total);
        }
    }

    /// Appends the frame that carries `payload`: its 4-byte big-endian length
    /// header, then the payload.
    pub fn put_frame(&mut self, payload: &[u8])
        requires
            old(self).wf(),
            final_capacity(old(self).cap(), old(self)@.len() + 4 + payload@.len()) <= usize::MAX,
        ensures
            final(self).wf(),
            final(self)@ == old(self)@ + encode_frame(payload@),
            final(self).cap() == final_capacity(old(self).cap(), old(self)@.len() + 4 + payload@.len()),
            final(self).head() == if old(self).cap() >= old(self)@.len() + 4 + payload@.len() {
                old(self).head()
            } else {
                0
            },
            final(self).written() == old(self).written() + encode_frame(payload@),
            final(self).taken() == old(self).taken(),
    {
        let ghost total = old(self)@.len() + 4 + payload@.len();
        proof {
            lemma_final_capacity_chain(old(self).cap(), old(self)@.len() + 4, total);
            lemma_final_capacity(final_capacity(old(self).cap(), old(self)@.len() + 4), total);
            lemma_final_capacity(old(self).cap(), old(self)@.len() + 4);
        }
        let header = encode_header(payload.len());
        self.put_slice(&header);
        self.put_slice(payload);
        assert(old(self).written() + header@ + payload@ =~= old(self).written() + encode_frame(payload@));
    }

    /// Removes the frame at the start of the contents and returns its payload;
    /// returns `None`, and leaves the contents as they are, when the contents
    /// do not start with a complete frame.
    pub fn next_frame(&mut self) -> (r: Option<Vec<u8>>)
        requires
            old(self).wf(),
        ensures
            final(self).wf(),
            final(self).cap() == old(self).cap(),
            r is Some <==> has_frame(old(self)@),
            r matches Some(p) ==> p@ == frame_payload(old(self)@),
            final(self)@ == if has_frame(old(self)@) {
                old(self)@.skip(frame_len(old(self)@) as int)
            } else {
                old(self)@
            },
            final(self).head() == head_after_next_frame(old(self).head(), old(self).cap(), old(self)@),
            final(self).written() == old(self).written(),
            final(self).taken() == old(self).taken() + if has_frame(old(self)@) { frame_len(old(self)@) } else { 0 },
    {
        let ghost old_view = self@;
        if self.pullup(4) {
            let size = {
                let h = self.bytes();
                decode_header(h[0], h[1], h[2], h[3])
            };
            proof {
                assert(seq![old_view[0], old_view[1], old_view[2], old_view[3]] =~= old_view.take(4));
            }
            let size = size as usize;
            if size <= usize::MAX - 4 && self.pullup(4 + size) {
                self.advance(4);
                let payload = self.copy_to_vec(size);
                assert(payload@ =~= frame_payload(old_view));
                assert(self@ =~= old_view.skip(frame_len(old_view) as int));
                return Some(payload);
            }
        }
        None
    }

    /// Removes all the complete frames at the start of the contents and
    /// returns their payloads, in order.
    pub fn drain_frames(&mut self) -> (r: Vec<Vec<u8>>)
        requires
            old(self).wf(),
        ensures
            final(self).wf(),
            final(self).cap() == old(self).cap(),
            r@.map_values(|v: Vec<u8>| v@) == frames(old(self)@),
            final(self)@ == frames_rest(old(self)@),
            final(self).head() == head_after_drain(old(self).head(), old(self).cap(), old(self)@),
            final(self).written() == old(self).written(),
            final(self).taken() == old(self).taken() + frames_len(old(self)@),
    {
        let mut r: Vec<Vec<u8>> = Vec::new();
        loop
            invariant
                self.wf(),
                self.cap() == old(self).cap(),
                frames(old(self)@) == r@.map_values(|v: Vec<u8>| v@) + frames(self@),
                frames_rest(old(self)@) == frames_rest(self@),
                head_after_drain(old(self).head(), old(self).cap(), old(self)@)
                    == head_after_drain(self.head(), self.cap(), self@),
                self.written() == old(self).written(),
                self@.len() <= old(self)@.len(),
                self.taken() == old(self).taken() + (old(self)@.len() - self@.len()),
                frames_len(old(self)@) == (old(self)@.len() - self@.len()) + frames_len(self@),
            decreases self@.len(),
        {
            let ghost before = self@;
            match self.next_frame() {
                Some(p) => {
                    let ghost prev = r@;
                    r.push(p);
                    assert(r@.map_values(|v: Vec<u8>| v@) =~= prev.map_values(|v: Vec<u8>| v@).push(p@));
                    assert(frames(before) =~= seq![p@] + frames(self@));
                }
                None => {
                    assert(frames(before) =~= Seq::<Seq<u8>>::empty());
                    assert(r@.map_values(|v: Vec<u8>| v@) + frames(before) =~= r@.map_values(|v: Vec<u8>| v@));
                    return r;
                }
            }
        }
    }

    /// Removes the first `cnt` bytes of the contents and returns them.
    pub fn copy_to_vec(&mut self, cnt: usize) -> (r: Vec<u8>)
        requires
            old(self).wf(),
            cnt <= old(self)@.len(),
        ensures
            final(self).wf(),
            r@ == old(self)@.take(cnt as int),
            final(self)@ == old(self)@.skip(cnt as int),
            final(self).cap() == old(self).cap(),
            final(self).storage() == old(self).storage(),
            final(self).head() == if cnt == old(self)@.len() {
                0
            } else {
                ring_slot(old(self).head(), cnt as nat, old(self).cap())
            },
            final(self).written() == old(self).written(),
            final(self).taken() == old(self).taken() + cnt,
    {
        let mut r: Vec<u8> = Vec::with_capacity(cnt);
        let mut off: usize = 0;
        while off < cnt
            invariant
                self.wf(),
                old(self).wf(),
                off <= cnt,
                cnt <= old(self)@.len(),
                r@ == old(self)@.take(off as int),
                self@ == old(self)@.skip(off as int),
                self.cap() == old(self).cap(),
                self.storage() == old(self).storage(),
                self.written() == old(self).written(),
                self.taken() == old(self).taken() + off,
                self.head() == if off == old(self)@.len() {
                    0
                } else {
                    ring_slot(old(self).head(), off as nat, old(self).cap())
                },
            decreases cnt - off,
        {
            let s = self.bytes();
            let k = if s.len() < cnt - off {
                s.len()
            } else {
                cnt - off
            };
            let mut j: usize = 0;
            while j < k
                invariant
                    j <= k,
                    k <= s@.len(),
                    off + k <= cnt,
                    s@ == self@.take(s@.len() as int),
                    s@.len() <= self@.len(),
                    self@ == old(self)@.skip(off as int),
                    cnt <= old(self)@.len(),
                    r@ == old(self)@.take(off + j),
                decreases k - j,
            {
                r.push(s[j]);
                assert(self@.take(s@.len() as int)[j as int] == self@[j as int]);
                assert(s@[j as int] == self@[j as int]);
                assert(self@[j as int] == old(self)@[off + j]);
                assert(r@ =~= old(self)@.take(off + j + 1));
                j = j + 1;
            }
            self.advance(k);
            assert(self@ =~= old(self)@.skip(off + k));
            off = off + k;
        }
        r
    }
}

} // verus!

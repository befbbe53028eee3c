//! A byte buffer made of a queue of chunks.
//!
//! Each chunk is a block of storage with a read position and a write
//! position: the bytes between them are readable, the slots after the write
//! position are spare. Bytes are read from the front chunk and written to
//! the spare slots of the back chunk; a new chunk is added at the back when
//! the last one has no room, and chunks that have been read through are
//! dropped.
use vstd::prelude::*;
use crate::frame::{decode_header, encode_frame, encode_header, frames, frames_len, frames_rest, has_frame, frame_len, frame_payload};

verus! {

broadcast use {Seq::lemma_flatten_push, vstd::std_specs::vecdeque::axiom_spec_len};

/// Size of the chunk added when writing finds no room.
pub const DEFAULT_CAP: usize = 1024;
/// Smallest chunk that `reserve` adds.
pub const MIN_CAP: usize = 32;
/// Most chunks handed to one vectored write.
pub const IOVEC_MAX_LEN: usize = 128;

/// The first of `size`, `2 * size`, `4 * size`, ... that is at least `cnt`.
pub open spec fn doubled_until(size: nat, cnt: nat) -> nat
    decreases (if 0 < size < cnt { cnt - size } else { 0 }),
{
    if size == 0 || size >= cnt {
        size
    } else {
        doubled_until(2 * size, cnt)
    }
}

/// Size of the chunk that `reserve(cnt)` adds: the first power-of-two
/// multiple of `MIN_CAP` that is at least `cnt`.
pub open spec fn chunk_size_for(cnt: nat) -> nat {
    doubled_until(MIN_CAP as nat, cnt)
}

proof fn lemma_doubled_until(size: nat, cnt: nat)
    requires
        size > 0,
    ensures
        doubled_until(size, cnt) >= cnt,
        doubled_until(size, cnt) >= size,
        doubled_until(size, cnt) == size || doubled_until(size, cnt) < 2 * cnt,
        size < cnt ==> doubled_until(size, cnt) == doubled_until(2 * size, cnt),
    decreases (if 0 < size < cnt { cnt - size } else { 0 }),
{
    if size < cnt {
        lemma_doubled_until(2 * size, cnt);
    }
}

/// The chunks after `n` bytes are read from the front: chunks read through
/// are dropped, and the first one that is not loses the bytes read from it.
pub open spec fn skip_chunks(cs: Seq<Seq<u8>>, n: nat) -> Seq<Seq<u8>>
    decreases cs.len(),
{
    if n == 0 || cs.len() == 0 {
        cs
    } else if cs[0].len() > n {
        seq![cs[0].skip(n as int)] + cs.drop_first()
    } else {
        skip_chunks(cs.drop_first(), (n - cs[0].len()) as nat)
    }
}

/// The chunks, and the number of spare slots in the last one, after `data`
/// is written: the spare slots of the last chunk are filled, and a chunk of
/// `DEFAULT_CAP` slots is added whenever there is none or it is full.
pub open spec fn put_chunks(cs: Seq<Seq<u8>>, free: nat, data: Seq<u8>) -> (Seq<Seq<u8>>, nat)
    decreases data.len(), (if cs.len() == 0 || free == 0 { 1nat } else { 0nat }),
{
    if data.len() == 0 {
        (cs, free)
    } else if cs.len() == 0 || free == 0 {
        put_chunks(cs.push(Seq::empty()), DEFAULT_CAP as nat, data)
    } else {
        let k = if free < data.len() { free } else { data.len() };
        put_chunks(cs.update(cs.len() - 1, cs.last() + data.take(k as int)), (free - k) as nat, data.skip(k as int))
    }
}

/// Reading `n` bytes from the front of chunks reads the first `n` bytes of
/// their concatenation.
pub proof fn lemma_skip_chunks(cs: Seq<Seq<u8>>, n: nat)
    requires
        n <= cs.flatten().len(),
    ensures
        skip_chunks(cs, n).flatten() == cs.flatten().skip(n as int),
    decreases cs.len(),
{
    if n == 0 || cs.len() == 0 {
        assert(cs.flatten().skip(0) =~= cs.flatten());
    } else {
        assert(cs =~= seq![cs[0]] + cs.drop_first());
        vstd::seq_lib::lemma_flatten_concat(seq![cs[0]], cs.drop_first());
        assert(seq![cs[0]].flatten() == cs[0]);
        if cs[0].len() > n {
            let r = seq![cs[0].skip(n as int)] + cs.drop_first();
            vstd::seq_lib::lemma_flatten_concat(seq![cs[0].skip(n as int)], cs.drop_first());
            assert(seq![cs[0].skip(n as int)].flatten() == cs[0].skip(n as int));
            assert(r.flatten() =~= cs.flatten().skip(n as int));
        } else {
            lemma_skip_chunks(cs.drop_first(), (n - cs[0].len()) as nat);
            assert(cs.drop_first().flatten().skip((n - cs[0].len()) as int) =~= cs.flatten().skip(n as int));
        }
    }
}

/// The value of the header given by peeked bytes, if any.
fn peeked_header(hdr: Option<&[u8]>) -> (r: Option<u32>)
    requires
        hdr matches Some(b) ==> b@.len() >= 4,
    ensures
        hdr is Some <==> r is Some,
        hdr matches Some(b) ==> (r matches Some(v) && v == crate::frame::be32_value(b@)),
{
    match hdr {
        Some(b) => {
            let v = decode_header(b[0], b[1], b[2], b[3]);
            assert(seq![b@[0], b@[1], b@[2], b@[3]] =~= b@.take(4));
            Some(v)
        },
        None => None,
    }
}

/// Reading `a` bytes, then `b` more, leaves the chunks that reading `a + b`
/// bytes at once leaves.
pub proof fn lemma_skip_chunks_twice(cs: Seq<Seq<u8>>, a: nat, b: nat)
    ensures
        skip_chunks(skip_chunks(cs, a), b) == skip_chunks(cs, a + b),
    decreases cs.len(),
{
    if a == 0 || cs.len() == 0 || b == 0 {
    } else if cs[0].len() > a {
        let c = cs[0].skip(a as int);
        let t = seq![c] + cs.drop_first();
        assert(t[0] == c);
        assert(t.drop_first() =~= cs.drop_first());
        if c.len() > b {
            assert(c.skip(b as int) =~= cs[0].skip((a + b) as int));
        }
    } else {
        lemma_skip_chunks_twice(cs.drop_first(), (a - cs[0].len()) as nat, b);
    }
}

/// Once the back chunk has room for `data` (as `reserve(data.len())` makes
/// sure), writing `data` adds no chunk: the bytes go after those of the back
/// chunk, and take that many of its spare slots.
pub proof fn lemma_put_within_spare(cs: Seq<Seq<u8>>, free: nat, data: Seq<u8>)
    requires
        cs.len() > 0,
        data.len() <= free,
    ensures
        put_chunks(cs, free, data) == (cs.update(cs.len() - 1, cs.last() + data), (free - data.len()) as nat),
{
    if data.len() > 0 {
        let k = data.len();
        let cs2 = cs.update(cs.len() - 1, cs.last() + data.take(k as int));
        assert(data.take(k as int) =~= data);
        assert(data.skip(k as int) =~= Seq::<u8>::empty());
        assert(put_chunks(cs2, (free - k) as nat, data.skip(k as int)) == (cs2, (free - k) as nat));
    } else {
        assert(cs.last() + data =~= cs.last());
        assert(cs.update(cs.len() - 1, cs.last()) =~= cs);
    }
}

/// A block of storage with a read position `pos` and a write position `filled`.
struct Chunk {
    data: Vec<u8>,
    pos: usize,
    filled: usize,
}

impl Chunk {
    spec fn readable(&self) -> Seq<u8> {
        self.data@.subrange(self.pos as int, self.filled as int)
    }

    spec fn spare(&self) -> Seq<u8> {
        self.data@.subrange(self.filled as int, self.data@.len() as int)
    }

    spec fn ok(&self) -> bool {
        &&& self.pos <= self.filled <= self.data@.len()
        &&& 0 < self.data@.len() <= usize::MAX
    }

    fn with_capacity(size: usize) -> (r: Chunk)
        requires
            size > 0,
        ensures
            r.ok(),
            r.readable() == Seq::<u8>::empty(),
            r.spare().len() == size,
            r.filled == 0,
    {
        let r = Chunk { data: vec![0u8; size], pos: 0, filled: 0 };
        assert(r.readable() =~= Seq::<u8>::empty());
        r
    }
}

spec fn readables(cs: Seq<Chunk>) -> Seq<Seq<u8>> {
    cs.map_values(|c: Chunk| c.readable())
}

/// IO buffer: a queue of chunks of bytes.
pub struct IoBuffer {
    inner: std::collections::VecDeque<Chunk>,
    /// amount of data in the buffer
    remaining: usize,
    /// every byte ever written, oldest first
    written: Ghost<Seq<u8>>,
    /// the number of bytes ever read
    taken: Ghost<nat>,
}

impl View for IoBuffer {
    type V = Seq<u8>;

    /// The bytes held, oldest first.
    closed spec fn view(&self) -> Seq<u8> {
        self.chunks().flatten()
    }
}

impl IoBuffer {
    /// The readable bytes of each chunk, front chunk first.
    pub closed spec fn chunks(&self) -> Seq<Seq<u8>> {
        readables(self.inner@)
    }

    /// The spare slots of the back chunk (none when there is no chunk).
    pub closed spec fn spare(&self) -> Seq<u8> {
        if self.inner@.len() > 0 {
            self.inner@.last().spare()
        } else {
            Seq::empty()
        }
    }

    /// Every byte written to the buffer since it was made, oldest first.
    pub closed spec fn written(&self) -> Seq<u8> {
        self.written@
    }

    /// The number of bytes read from the buffer since it was made.
    pub closed spec fn taken(&self) -> nat {
        self.taken@
    }

    /// The internal invariant: every chunk has storage and consistent
    /// positions, only the back chunk may have nothing to read, and then
    /// nothing was ever written to it; the byte count is that of the
    /// contents, and they are the bytes written that were not read yet.
    pub closed spec fn wf(&self) -> bool {
        &&& self.taken@ <= self.written@.len()
        &&& self@ == self.written@.skip(self.taken@ as int)
        &&& forall|i: int| 0 <= i < self.inner@.len() ==> (#[trigger] self.inner@[i]).ok()
        &&& forall|i: int| 0 <= i < self.inner@.len() - 1 ==> (#[trigger] self.inner@[i]).pos < self.inner@[i].filled
        &&& self.inner@.len() > 0 ==> (self.inner@.last().pos < self.inner@.last().filled
            || self.inner@.last().filled == 0)
        &&& self.remaining == self@.len()
    }

    /// What the internal invariant tells of the observers: only the back
    /// chunk may be empty.
    pub proof fn lemma_wf(&self)
        requires
            self.wf(),
        ensures
            self@ == self.chunks().flatten(),
            forall|i: int| 0 <= i < self.chunks().len() - 1 ==> (#[trigger] self.chunks()[i]).len() > 0,
            self.taken() <= self.written().len(),
            self@ == self.written().skip(self.taken() as int),
            self@.len() == self.written().len() - self.taken(),
    {
        assert forall|i: int| 0 <= i < self.chunks().len() - 1 implies (#[trigger] self.chunks()[i]).len() > 0 by {
            assert(self.inner@[i].pos < self.inner@[i].filled);
        }
    }

    pub fn new() -> (r: Self)
        ensures
            r.wf(),
            r@ == Seq::<u8>::empty(),
            r.chunks() == Seq::<Seq<u8>>::empty(),
            r.spare() == Seq::<u8>::empty(),
            r.written() == Seq::<u8>::empty(),
            r.taken() == 0,
    {
        let r = IoBuffer {
            inner: std::collections::VecDeque::new(),
            remaining: 0,
            written: Ghost(Seq::empty()),
            taken: Ghost(0),
        };
        assert(r.chunks() =~= Seq::<Seq<u8>>::empty());
        assert(r.written@.skip(0) =~= Seq::<u8>::empty());
        r
    }

    pub fn with_capacity(cap: usize) -> (r: Self)
        requires
            cap <= usize::MAX / 2 + 1,
        ensures
            r.wf(),
            r@ == Seq::<u8>::empty(),
            r.chunks() == seq![Seq::<u8>::empty()],
            r.spare().len() == chunk_size_for(cap as nat),
            r.written() == Seq::<u8>::empty(),
            r.taken() == 0,
    {
        let mut cb = IoBuffer::new();
        cb.reserve(cap);
        assert(cb.chunks() =~= seq![Seq::<u8>::empty()]);
        cb
    }

    /// Makes sure the back chunk has at least `cnt` spare slots: when it has
    /// fewer, it is replaced by a chunk of `chunk_size_for(cnt)` slots if
    /// nothing was written to it, and such a chunk is added after it otherwise.
    pub fn reserve(&mut self, cnt: usize)
        requires
            old(self).wf(),
            cnt <= usize::MAX / 2 + 1,
        ensures
            final(self).wf(),
            final(self)@ == old(self)@,
            final(self).chunks() == if old(self).chunks().len() == 0 || (old(self).spare().len() < cnt
                && old(self).chunks().last().len() > 0) {
                old(self).chunks().push(Seq::empty())
            } else {
                old(self).chunks()
            },
            final(self).spare().len() == if old(self).chunks().len() == 0 || old(self).spare().len() < cnt {
                chunk_size_for(cnt as nat)
            } else {
                old(self).spare().len() as nat
            },
            final(self).spare().len() >= cnt,
            final(self).written() == old(self).written(),
            final(self).taken() == old(self).taken(),
    {
        // mutually exclusive
        let mut alloc = false;
        let mut resize = false;
        let n = self.inner.len();
        if n > 0 {
            let cur = &self.inner[n - 1];
            if cur.data.len() - cur.filled < cnt {
                if cur.filled == 0 {
                    resize = true;
                } else {
                    alloc = true;
                }
            }
        } else {
            alloc = true;
        }
        proof {
            lemma_doubled_until(MIN_CAP as nat, cnt as nat);
        }
        if alloc || resize {
            let mut size = MIN_CAP;
            while size < cnt
                invariant
                    0 < size,
                    doubled_until(size as nat, cnt as nat) == chunk_size_for(cnt as nat),
                    chunk_size_for(cnt as nat) <= usize::MAX,
                decreases (if size < cnt { cnt - size } else { 0 }),
            {
                proof {
                    lemma_doubled_until(size as nat, cnt as nat);
                    lemma_doubled_until(2 * size as nat, cnt as nat);
                }
                size = size * 2;
            }
            proof {
                lemma_doubled_until(size as nat, cnt as nat);
            }
            let ghost old_inner = self.inner@;
            let new = Chunk::with_capacity(size);
            if resize {
                // the back chunk was never written to: replace it
                self.inner.pop_back();
            }
            self.inner.push_back(new);
            proof {
                let cs = self.inner@;
                if resize {
                    assert(old_inner.last().readable() =~= Seq::<u8>::empty());
                    assert(readables(cs) =~= readables(old_inner));
                } else {
                    assert(readables(cs) =~= readables(old_inner).push(Seq::<u8>::empty()));
                    vstd::seq_lib::lemma_flatten_concat(readables(old_inner), seq![Seq::<u8>::empty()]);
                    assert(seq![Seq::<u8>::empty()].flatten() =~= Seq::<u8>::empty());
                }
                assert(self@ =~= old(self)@);
                assert forall|i: int| 0 <= i < cs.len() - 1 implies (#[trigger] cs[i]).pos < cs[i].filled by {
                    assert(cs[i] == old_inner[i]);
                }
            }
        }
    }

    /// Makes sure the back chunk has spare slots, adding a chunk of
    /// `DEFAULT_CAP` slots when there is no chunk or the last one is full,
    /// and returns the number of spare slots.
    pub fn bytes_mut_len(&mut self) -> (r: usize)
        requires
            old(self).wf(),
        ensures
            final(self).wf(),
            final(self)@ == old(self)@,
            (old(self).chunks().len() == 0 || old(self).spare().len() == 0) ==> final(self).chunks()
                == old(self).chunks().push(Seq::empty()) && final(self).spare().len() == DEFAULT_CAP,
            !(old(self).chunks().len() == 0 || old(self).spare().len() == 0) ==> final(self).chunks()
                == old(self).chunks() && final(self).spare() == old(self).spare(),
            r == final(self).spare().len(),
            r > 0,
            final(self).written() == old(self).written(),
            final(self).taken() == old(self).taken(),
    {
        let n = self.inner.len();
        let alloc = if n > 0 {
            let cur = &self.inner[n - 1];
            cur.data.len() == cur.filled
        } else {
            true
        };
        if alloc {
            let ghost old_inner = self.inner@;
            let new = Chunk::with_capacity(DEFAULT_CAP);
            self.inner.push_back(new);
            proof {
                let cs = self.inner@;
                assert(readables(cs) =~= readables(old_inner).push(Seq::<u8>::empty()));
                assert(self@ =~= old(self)@);
                assert forall|i: int| 0 <= i < cs.len() - 1 implies (#[trigger] cs[i]).pos < cs[i].filled by {
                    assert(cs[i] == old_inner[i]);
                }
            }
        }
        let cur = &self.inner[self.inner.len() - 1];
        cur.data.len() - cur.filled
    }

    /// Adds to the readable bytes of the back chunk the first `cnt` of its
    /// spare slots.
    pub fn advance_mut(&mut self, cnt: usize)
        requires
            old(self).wf(),
            cnt <= old(self).spare().len(),
            old(self)@.len() + cnt <= usize::MAX,
        ensures
            final(self).wf(),
            final(self)@ == old(self)@ + old(self).spare().take(cnt as int),
            final(self).spare() == old(self).spare().skip(cnt as int),
            old(self).chunks().len() > 0 ==> final(self).chunks() == old(self).chunks().update(
                old(self).chunks().len() - 1,
                old(self).chunks().last() + old(self).spare().take(cnt as int),
            ),
            old(self).chunks().len() == 0 ==> final(self).chunks() == old(self).chunks(),
            final(self).written() == old(self).written() + old(self).spare().take(cnt as int),
            final(self).taken() == old(self).taken(),
    {
        if self.inner.len() > 0 {
            let ghost old_inner = self.inner@;
            let mut cur = self.inner.pop_back().unwrap();
            let ghost c0 = cur;
            self.written = Ghost(self.written@ + c0.spare().take(cnt as int));
            cur.filled = cur.filled + cnt;
            self.inner.push_back(cur);
            self.remaining = self.remaining + cnt;
            proof {
                let cs = self.inner@;
                let n = cs.len();
                assert(cur.readable() =~= c0.readable() + c0.spare().take(cnt as int));
                assert(cur.spare() =~= c0.spare().skip(cnt as int));
                assert(readables(cs) =~= readables(old_inner).update(n - 1, readables(old_inner).last()
                    + c0.spare().take(cnt as int)));
                assert(readables(old_inner) =~= readables(old_inner).drop_last().push(readables(old_inner).last()));
                assert(readables(cs) =~= readables(old_inner).drop_last().push(readables(cs).last()));
                assert(self@ =~= old(self)@ + old(self).spare().take(cnt as int));
                assert(self.written@.skip(self.taken@ as int) =~= old(self)@ + old(self).spare().take(cnt as int));
                assert forall|i: int| 0 <= i < cs.len() - 1 implies (#[trigger] cs[i]).pos < cs[i].filled by {
                    assert(cs[i] == old_inner[i]);
                }
                assert forall|i: int| 0 <= i < cs.len() implies (#[trigger] cs[i]).ok() by {
                    if i < n - 1 {
                        assert(cs[i] == old_inner[i]);
                    }
                }
            }
        } else {
            assert(old(self).written() + old(self).spare().take(0) =~= old(self).written());
            assert(old(self).spare().take(0) =~= Seq::<u8>::empty());
            assert(old(self).spare().skip(0) =~= old(self).spare());
        }
    }

    /// Writes `src[off..off + cnt]` into the spare slots of the back chunk
    /// and makes them readable.
    fn write_back(&mut self, src: &[u8], off: usize, cnt: usize)
        requires
            old(self).wf(),
            old(self).chunks().len() > 0,
            cnt <= old(self).spare().len(),
            off + cnt <= src@.len(),
            old(self)@.len() + cnt <= usize::MAX,
        ensures
            final(self).wf(),
            final(self)@ == old(self)@ + src@.subrange(off as int, off + cnt),
            final(self).chunks() == old(self).chunks().update(
                old(self).chunks().len() - 1,
                old(self).chunks().last() + src@.subrange(off as int, off + cnt),
            ),
            final(self).spare().len() == old(self).spare().len() - cnt,
            final(self).written() == old(self).written() + src@.subrange(off as int, off + cnt),
            final(self).taken() == old(self).taken(),
    {
        let ghost old_inner = self.inner@;
        self.written = Ghost(self.written@ + src@.subrange(off as int, off + cnt));
        let mut cur = self.inner.pop_back().unwrap();
        let ghost c0 = cur;
        let start = cur.filled;
        assert(src@.len() == src.len());
        let mut j: usize = 0;
        while j < cnt
            invariant
                cur.data@.len() == c0.data@.len(),
                cur.pos == c0.pos,
                cur.filled == c0.filled,
                start == c0.filled,
                c0.ok(),
                start + cnt <= c0.data@.len(),
                off + cnt <= src@.len(),
                src@.len() <= usize::MAX,
                j <= cnt,
                cur.data@.subrange(0, start as int) == c0.data@.subrange(0, start as int),
                cur.data@.subrange(start as int, start + j) == src@.subrange(off as int, off + j),
            decreases cnt - j,
        {
            let ghost prev = cur.data@;
            cur.data[start + j] = src[off + j];
            proof {
                assert(cur.data@.subrange(0, start as int) =~= prev.subrange(0, start as int));
                assert forall|k: int| 0 <= k < j + 1 implies #[trigger] cur.data@.subrange(start as int, start + j + 1)[k]
                    == src@.subrange(off as int, off + j + 1)[k] by {
                    if k < j {
                        assert(prev.subrange(start as int, start + j)[k] == prev[start + k]);
                        assert(src@.subrange(off as int, off + j)[k] == src@[off + k]);
                    }
                }
                assert(cur.data@.subrange(start as int, start + j + 1) =~= src@.subrange(off as int, off + j + 1));
            }
            j = j + 1;
        }
        cur.filled = cur.filled + cnt;
        self.inner.push_back(cur);
        self.remaining = self.remaining + cnt;
        proof {
            let cs = self.inner@;
            let n = cs.len();
            let added = src@.subrange(off as int, off + cnt);
            assert(c0.readable() =~= c0.data@.subrange(0, start as int).subrange(c0.pos as int, start as int));
            assert(cur.readable() =~= c0.readable() + added) by {
                assert(cur.readable() =~= cur.data@.subrange(0, start as int).subrange(c0.pos as int, start as int)
                    + cur.data@.subrange(start as int, start + cnt));
            }
            assert(readables(cs) =~= readables(old_inner).update(n - 1, readables(old_inner).last() + added));
            assert(readables(old_inner) =~= readables(old_inner).drop_last().push(readables(old_inner).last()));
            assert(readables(cs) =~= readables(old_inner).drop_last().push(readables(cs).last()));
            assert(self@ =~= old(self)@ + added);
            assert(self.written@.skip(self.taken@ as int) =~= old(self)@ + added);
            assert forall|i: int| 0 <= i < cs.len() - 1 implies (#[trigger] cs[i]).pos < cs[i].filled by {
                assert(cs[i] == old_inner[i]);
            }
            assert forall|i: int| 0 <= i < cs.len() implies (#[trigger] cs[i]).ok() by {
                if i < n - 1 {
                    assert(cs[i] == old_inner[i]);
                }
            }
        }
    }

    /// Appends the bytes of `src`, filling the back chunk and adding chunks of
    /// `DEFAULT_CAP` slots as needed.
    pub fn put_slice(&mut self, src: &[u8])
        requires
            old(self).wf(),
            old(self)@.len() + src@.len() <= usize::MAX,
        ensures
            final(self).wf(),
            final(self)@ == old(self)@ + src@,
            (final(self).chunks(), final(self).spare().len()) == put_chunks(old(self).chunks(), old(self).spare().len(), src@),
            final(self).written() == old(self).written() + src@,
            final(self).taken() == old(self).taken(),
    {
        let mut off: usize = 0;
        assert(src@.skip(0) =~= src@);
        assert(src@.take(0) =~= Seq::<u8>::empty());
        while off < src.len()
            invariant
                self.wf(),
                off <= src@.len(),
                self@ == old(self)@ + src@.take(off as int),
                old(self)@.len() + src@.len() <= usize::MAX,
                self.written() == old(self).written() + src@.take(off as int),
                self.taken() == old(self).taken(),
                put_chunks(self.chunks(), self.spare().len(), src@.skip(off as int))
                    == put_chunks(old(self).chunks(), old(self).spare().len(), src@),
            decreases src@.len() - off,
        {
            let ghost cs0 = self.chunks();
            let ghost free0 = self.spare().len();
            let n = self.bytes_mut_len();
            let ghost cs1 = self.chunks();
            let cnt = if n < src.len() - off {
                n
            } else {
                src.len() - off
            };
            self.write_back(src, off, cnt);
            proof {
                let rest = src@.skip(off as int);
                assert(rest.take(cnt as int) =~= src@.subrange(off as int, off + cnt));
                assert(rest.skip(cnt as int) =~= src@.skip(off + cnt));
                assert(put_chunks(cs1, n as nat, rest) == put_chunks(cs0, free0, rest));
                assert(src@.take(off as int) + src@.subrange(off as int, off + cnt) =~= src@.take(off + cnt));
                assert(old(self).written() + src@.take(off + cnt) =~= old(self).written() + src@.take(off as int)
                    + src@.subrange(off as int, off + cnt));
            }
            off = off + cnt;
        }
        assert(src@.take(off as int) =~= src@);
        assert(src@.skip(off as int) =~= Seq::<u8>::empty());
    }

    /// Drops the first `cnt` bytes: chunks read through are dropped, and the
    /// first chunk that is not loses the bytes read from it.
    pub fn advance(&mut self, cnt: usize)
        requires
            old(self).wf(),
            cnt <= old(self)@.len(),
        ensures
            final(self).wf(),
            final(self)@ == old(self)@.skip(cnt as int),
            final(self).chunks() == skip_chunks(old(self).chunks(), cnt as nat),
            final(self).spare() == if final(self).chunks().len() == 0 {
                Seq::<u8>::empty()
            } else {
                old(self).spare()
            },
            final(self).written() == old(self).written(),
            final(self).taken() == old(self).taken() + cnt,
    {
        self.remaining = self.remaining - cnt;
        self.taken = Ghost(self.taken@ + cnt as nat);
        let mut adv: usize = 0;
        while adv < cnt
            invariant
                self.written@ == old(self).written@,
                self.taken@ == old(self).taken@ + cnt,
                adv <= cnt,
                cnt <= old(self)@.len(),
                self.remaining == old(self)@.len() - cnt,
                forall|i: int| 0 <= i < self.inner@.len() ==> (#[trigger] self.inner@[i]).ok(),
                forall|i: int| 0 <= i < self.inner@.len() - 1 ==> (#[trigger] self.inner@[i]).pos < self.inner@[i].filled,
                self.inner@.len() > 0 ==> (self.inner@.last().pos < self.inner@.last().filled
                    || self.inner@.last().filled == 0),
                readables(self.inner@).flatten().len() >= cnt - adv,
                skip_chunks(readables(self.inner@), (cnt - adv) as nat) == skip_chunks(old(self).chunks(), cnt as nat),
                self.inner@.len() > 0 ==> self.inner@.last().data == old(self).inner@.last().data
                    && self.inner@.last().filled == old(self).inner@.last().filled,
                self.inner@.len() > 0 ==> old(self).inner@.len() > 0,
            decreases cnt - adv, self.inner@.len(),
        {
            let ghost before = self.inner@;
            let ghost t = (cnt - adv) as nat;
            proof {
                if before.len() == 0 {
                    assert(readables(before) =~= Seq::<Seq<u8>>::empty());
                }
                assert(readables(before) =~= seq![before[0].readable()] + readables(before.drop_first()));
            }
            let mut cur = self.inner.pop_front().unwrap();
            let avail = cur.filled - cur.pos;
            let to_adv = if avail < cnt - adv {
                avail
            } else {
                cnt - adv
            };
            let ghost c0 = cur;
            cur.pos = cur.pos + to_adv;
            adv = adv + to_adv;
            proof {
                let rest = before.drop_first();
                assert(self.inner@ =~= rest);
                vstd::seq_lib::lemma_flatten_concat(seq![c0.readable()], readables(rest));
                assert(seq![c0.readable()].flatten() == c0.readable());
            }
            if cur.pos < cur.filled {
                self.inner.push_front(cur);
                proof {
                    let rest = before.drop_first();
                    assert(cur.readable() =~= c0.readable().skip(to_adv as int));
                    assert(readables(self.inner@) =~= seq![cur.readable()] + readables(rest));
                    assert(self.inner@ =~= seq![cur] + rest);
                    assert(adv == cnt);
                    assert(readables(before)[0] == c0.readable());
                    assert(readables(before).drop_first() =~= readables(rest));
                    assert(skip_chunks(readables(before), t) == seq![c0.readable().skip(t as int)] + readables(rest));
                    vstd::seq_lib::lemma_flatten_concat(seq![cur.readable()], readables(rest));
                    assert(seq![cur.readable()].flatten() == cur.readable());
                    assert forall|i: int| 0 <= i < self.inner@.len() implies (#[trigger] self.inner@[i]).ok() by {
                        if i > 0 {
                            assert(self.inner@[i] == before[i]);
                        }
                    }
                    assert forall|i: int| 0 <= i < self.inner@.len() - 1 implies (#[trigger] self.inner@[i]).pos
                        < self.inner@[i].filled by {
                        if i > 0 {
                            assert(self.inner@[i] == before[i]);
                        }
                    }
                }
            } else {
                proof {
                    let rest = before.drop_first();
                    assert(readables(self.inner@) =~= readables(rest));
                    assert(readables(before)[0] == c0.readable());
                    assert(readables(before).drop_first() =~= readables(rest));
                    assert(skip_chunks(readables(before), t) == skip_chunks(readables(rest), (t - avail) as nat));
                    assert forall|i: int| 0 <= i < self.inner@.len() implies (#[trigger] self.inner@[i]).ok() by {
                        assert(self.inner@[i] == before[i + 1]);
                    }
                    assert forall|i: int| 0 <= i < self.inner@.len() - 1 implies (#[trigger] self.inner@[i]).pos
                        < self.inner@[i].filled by {
                        assert(self.inner@[i] == before[i + 1]);
                    }
                }
            }
        }
        proof {
            lemma_skip_chunks(old(self).chunks(), cnt as nat);
            if self.inner@.len() == 0 {
                assert(readables(self.inner@) =~= Seq::<Seq<u8>>::empty());
            }
            assert(self.written@.skip(self.taken@ as int) =~= old(self)@.skip(cnt as int));
        }
    }

    /// A copy of the first `cnt` bytes.
    fn peek_copy(&self, cnt: usize) -> (r: Vec<u8>)
        requires
            self.wf(),
            cnt <= self@.len(),
        ensures
            r@ == self@.take(cnt as int),
    {
        let ghost cs = self.chunks();
        let mut r: Vec<u8> = Vec::with_capacity(cnt);
        let mut i: usize = 0;
        proof {
            assert(cs.take(0) =~= Seq::<Seq<u8>>::empty());
        }
        while r.len() < cnt
            invariant
                self.wf(),
                cs == self.chunks(),
                cnt <= self@.len(),
                i <= cs.len(),
                r@.len() <= cnt,
                r@ == self@.take(r@.len() as int),
                r@.len() < cnt ==> r@.len() == cs.take(i as int).flatten().len(),
            decreases cs.len() - i,
        {
            proof {
                if i == cs.len() {
                    assert(cs.take(i as int) =~= cs);
                }
                assert(i < cs.len());
                assert(cs.len() == self.inner.len());
                vstd::seq_lib::lemma_flatten_concat(cs.take(i as int), cs.skip(i as int));
                assert(cs.take(i as int) + cs.skip(i as int) =~= cs);
                assert(cs.skip(i as int) =~= seq![cs[i as int]] + cs.skip(i + 1));
                vstd::seq_lib::lemma_flatten_concat(seq![cs[i as int]], cs.skip(i + 1));
                assert(seq![cs[i as int]].flatten() == cs[i as int]);
            }
            let c = &self.inner[i];
            let avail = c.filled - c.pos;
            let need = cnt - r.len();
            let k = if avail < need {
                avail
            } else {
                need
            };
            let ghost base = r@.len();
            let mut j: usize = 0;
            while j < k
                invariant
                    j <= k,
                    k <= c.filled - c.pos,
                    c.ok(),
                    c.readable() == cs[i as int],
                    base + k <= cnt,
                    cnt <= self@.len(),
                    r@.len() == base + j,
                    r@ == self@.take(r@.len() as int),
                    self@ == cs.take(i as int).flatten() + cs[i as int] + cs.skip(i + 1).flatten(),
                    base == cs.take(i as int).flatten().len(),
                decreases k - j,
            {
                r.push(c.data[c.pos + j]);
                proof {
                    assert(c.readable()[j as int] == c.data@[c.pos + j]);
                    assert(self@[base + j] == cs[i as int][j as int]);
                    assert(r@ =~= self@.take(r@.len() as int));
                }
                j = j + 1;
            }
            proof {
                assert(cs.take(i + 1) =~= cs.take(i as int).push(cs[i as int]));
            }
            i = i + 1;
        }
        r
    }

    /// Calls `f` with the first `cnt` bytes, or with `None` when there are
    /// fewer; the buffer is left as it is. The bytes are handed over in place
    /// when the front chunk holds them all, else as a copy.
    pub fn with_peek<F, T>(&mut self, cnt: usize, mut f: F) -> (r: T)
        where
            F: FnMut(Option<&[u8]>) -> T,
        requires
            old(self).wf(),
            cnt > old(self)@.len() ==> f.requires((None,)),
            cnt <= old(self)@.len() ==> forall|s: &[u8]| s@ == old(self)@.take(cnt as int) ==> f.requires((Some(s),)),
        ensures
            *final(self) == *old(self),
            cnt > old(self)@.len() ==> f.ensures((None,), r),
            cnt <= old(self)@.len() ==> exists|s: &[u8]| s@ == old(self)@.take(cnt as int) && f.ensures((Some(s),), r),
    {
        if self.remaining < cnt {
            // not enough available data
            f(None)
        } else {
            // available contiguous data
            if self.inner.len() > 0 {
                let cur = &self.inner[0];
                if cur.filled - cur.pos >= cnt {
                    let s = vstd::slice::slice_subrange(cur.data.as_slice(), cur.pos, cur.pos + cnt);
                    proof {
                        let cs = self.chunks();
                        assert(cs =~= seq![cs[0]] + cs.drop_first());
                        vstd::seq_lib::lemma_flatten_concat(seq![cs[0]], cs.drop_first());
                        assert(seq![cs[0]].flatten() == cs[0]);
                        assert(s@ =~= self@.take(cnt as int));
                    }
                    return f(Some(s));
                }
            }
            // data available but not contiguous
            let tmp = self.peek_copy(cnt);
            f(Some(tmp.as_slice()))
        }
    }

    /// Removes the first `cnt` bytes and returns them.
    pub fn copy_to_vec(&mut self, cnt: usize) -> (r: Vec<u8>)
        requires
            old(self).wf(),
            cnt <= old(self)@.len(),
        ensures
            final(self).wf(),
            r@ == old(self)@.take(cnt as int),
            final(self)@ == old(self)@.skip(cnt as int),
            final(self).chunks() == skip_chunks(old(self).chunks(), cnt as nat),
            final(self).written() == old(self).written(),
            final(self).taken() == old(self).taken() + cnt,
    {
        let r = self.peek_copy(cnt);
        self.advance(cnt);
        r
    }

    /// Appends the frame that carries `payload`: its 4-byte big-endian length
    /// header, then the payload.
    pub fn put_frame(&mut self, payload: &[u8])
        requires
            old(self).wf(),
            old(self)@.len() + 4 + payload@.len() <= usize::MAX,
        ensures
            final(self).wf(),
            final(self)@ == old(self)@ + encode_frame(payload@),
            ({
                let (cs, free) = put_chunks(old(self).chunks(), old(self).spare().len(),
                    crate::frame::be32_bytes(crate::frame::header_value(payload@.len())));
                (final(self).chunks(), final(self).spare().len()) == put_chunks(cs, free, payload@)
            }),
            final(self).written() == old(self).written() + encode_frame(payload@),
            final(self).taken() == old(self).taken(),
    {
        let header = encode_header(payload.len());
        self.put_slice(&header);
        self.put_slice(payload);
        assert(old(self).written() + header@ + payload@ =~= old(self).written() + encode_frame(payload@));
    }

    /// Removes the whole frame at the start of the contents (header and all
    /// the payload bytes the header announces) and returns its payload;
    /// returns `None`, and leaves the contents as they are, when the contents
    /// do not start with a complete frame. A reader that takes only what it
    /// understands of the payload uses `take_frame_header` instead.
    pub fn next_frame(&mut self) -> (r: Option<Vec<u8>>)
        requires
            old(self).wf(),
        ensures
            final(self).wf(),
            r is Some <==> has_frame(old(self)@),
            r matches Some(p) ==> p@ == frame_payload(old(self)@),
            final(self)@ == if has_frame(old(self)@) {
                old(self)@.skip(frame_len(old(self)@) as int)
            } else {
                old(self)@
            },
            final(self).chunks() == if has_frame(old(self)@) {
                skip_chunks(old(self).chunks(), frame_len(old(self)@))
            } else {
                old(self).chunks()
            },
            final(self).written() == old(self).written(),
            final(self).taken() == old(self).taken() + if has_frame(old(self)@) { frame_len(old(self)@) } else { 0 },
    {
        let ghost old_view = self@;
        let ghost old_chunks = self.chunks();
        // do we have a header?
        let hdr = self.with_peek(4, peeked_header);
        if let Some(size) = hdr {
            let size = size as usize;
            if self.remaining - 4 >= size {
                proof {
                    assert(crate::frame::be32_value(old_view.take(4)) == crate::frame::be32_value(old_view));
                }
                self.advance(4);
                let payload = self.copy_to_vec(size);
                proof {
                    lemma_skip_chunks_twice(old_chunks, 4, size as nat);
                }
                assert(payload@ =~= frame_payload(old_view));
                assert(self@ =~= old_view.skip(frame_len(old_view) as int));
                return Some(payload);
            }
        }
        None
    }

    /// When the contents start with a complete frame, removes its 4-byte
    /// header only and returns the payload size it announces, so that the
    /// payload can be read from the buffer as a stream; returns `None`, and
    /// leaves the buffer as it is, when they do not.
    pub fn take_frame_header(&mut self) -> (r: Option<usize>)
        requires
            old(self).wf(),
        ensures
            final(self).wf(),
            r is Some <==> has_frame(old(self)@),
            r matches Some(n) ==> n == crate::frame::be32_value(old(self)@)
                && final(self)@ == old(self)@.skip(4)
                && final(self).chunks() == skip_chunks(old(self).chunks(), 4)
                && final(self).written() == old(self).written()
                && final(self).taken() == old(self).taken() + 4,
            r is None ==> *final(self) == *old(self),
    {
        let ghost old_view = self@;
        // do we have a header?
        let hdr = self.with_peek(4, peeked_header);
        if let Some(size) = hdr {
            let size = size as usize;
            // do we have the data?
            if self.remaining - 4 >= size {
                proof {
                    assert(crate::frame::be32_value(old_view.take(4)) == crate::frame::be32_value(old_view));
                }
                self.advance(4);
                return Some(size);
            }
        }
        None
    }

    /// Removes all the complete frames at the start of the contents and
    /// returns their payloads, in order.
    pub fn drain_frames(&mut self) -> (r: Vec<Vec<u8>>)
        requires
            old(self).wf(),
        ensures
            final(self).wf(),
            r@.map_values(|v: Vec<u8>| v@) == frames(old(self)@),
            final(self)@ == frames_rest(old(self)@),
            final(self).chunks() == skip_chunks(old(self).chunks(), frames_len(old(self)@)),
            final(self).written() == old(self).written(),
            final(self).taken() == old(self).taken() + frames_len(old(self)@),
    {
        let mut r: Vec<Vec<u8>> = Vec::new();
        loop
            invariant
                self.wf(),
                frames(old(self)@) == r@.map_values(|v: Vec<u8>| v@) + frames(self@),
                frames_rest(old(self)@) == frames_rest(self@),
                frames_len(old(self)@) == (old(self)@.len() - self@.len()) + frames_len(self@),
                self.chunks() == skip_chunks(old(self).chunks(), (old(self)@.len() - self@.len()) as nat),
                self@.len() <= old(self)@.len(),
                self.written() == old(self).written(),
                self.taken() == old(self).taken() + (old(self)@.len() - self@.len()),
            decreases self@.len(),
        {
            let ghost before = self@;
            let ghost before_chunks = self.chunks();
            match self.next_frame() {
                Some(p) => {
                    let ghost prev = r@;
                    proof {
                        lemma_skip_chunks_twice(old(self).chunks(), (old(self)@.len() - before.len()) as nat,
                            frame_len(before));
                    }
                    r.push(p);
                    assert(r@.map_values(|v: Vec<u8>| v@) =~= prev.map_values(|v: Vec<u8>| v@).push(p@));
                    assert(frames(before) =~= seq![p@] + frames(self@));
                }
                None => {
                    assert(frames(before) =~= Seq::<Seq<u8>>::empty());
                    assert(r@.map_values(|v: Vec<u8>| v@) + frames(before) =~= r@.map_values(|v: Vec<u8>| v@));
                    return r;
                }
            }
        }
    }

    pub fn len(&self) -> (r: usize)
        requires
            self.wf(),
        ensures
            r == self@.len(),
    {
        self.remaining
    }

    /// Number of chunks.
    pub fn chunk_count(&self) -> (r: usize)
        requires
            self.wf(),
        ensures
            r == self.chunks().len(),
    {
        self.inner.len()
    }

    /// Number of chunks that one vectored write hands over: at most `IOVEC_MAX_LEN`.
    pub fn iovec_count(&self) -> (r: usize)
        requires
            self.wf(),
        ensures
            r == if self.chunks().len() < IOVEC_MAX_LEN { self.chunks().len() } else { IOVEC_MAX_LEN as nat },
    {
        let n = self.inner.len();
        if n < IOVEC_MAX_LEN {
            n
        } else {
            IOVEC_MAX_LEN
        }
    }

    /// The readable bytes of chunk `i`.
    pub fn chunk(&self, i: usize) -> (r: &[u8])
        requires
            self.wf(),
            i < self.chunks().len(),
        ensures
            r@ == self.chunks()[i as int],
    {
        let c = &self.inner[i];
        vstd::slice::slice_subrange(c.data.as_slice(), c.pos, c.filled)
    }

    /// The readable bytes of the front chunk (none when there is no chunk).
    pub fn bytes(&self) -> (r: &[u8])
        requires
            self.wf(),
        ensures
            r@ == if self.chunks().len() > 0 { self.chunks()[0] } else { Seq::<u8>::empty() },
    {
        if self.inner.len() > 0 {
            self.chunk(0)
        } else {
            let empty: &[u8] = &[];
            assert(empty@ =~= Seq::<u8>::empty());
            empty
        }
    }
}

} // verus!

//! Frames in a plain `Vec<u8>`, and conversions of durations.
use vstd::prelude::*;
use crate::frame::{decode_header, encode_frame, encode_header, frames, frames_rest, has_frame, frame_len,
    frame_payload, be32_value};

verus! {

/// Appends to `buf` the frame that carries `payload`: its 4-byte big-endian
/// length header, then the payload.
pub fn put_frame(buf: &mut Vec<u8>, payload: &[u8])
    ensures
        final(buf)@ == old(buf)@ + encode_frame(payload@),
{
    let header = encode_header(payload.len());
    buf.extend_from_slice(&header);
    buf.extend_from_slice(payload);
    assert(final(buf)@ =~= old(buf)@ + encode_frame(payload@)) by {
        assert(header@ + payload@ =~= encode_frame(payload@));
    }
}

/// The payload size of the frame that starts at byte `pos` of `buf`, if a
/// complete frame starts there.
pub fn frame_at(buf: &[u8], pos: usize) -> (r: Option<usize>)
    requires
        pos <= buf@.len(),
    ensures
        r is Some <==> has_frame(buf@.skip(pos as int)),
        r matches Some(n) ==> n == be32_value(buf@.skip(pos as int)),
{
    let len = buf.len();
    // do we have a header?
    if len - pos < 4 {
        return None;
    }
    let size = decode_header(buf[pos], buf[pos + 1], buf[pos + 2], buf[pos + 3]);
    proof {
        let s = buf@.skip(pos as int);
        assert(seq![s[0], s[1], s[2], s[3]] =~= seq![buf@[pos as int], buf@[pos + 1], buf@[pos + 2], buf@[pos + 3]]);
    }
    let size = size as usize;
    // do we have the data?
    if len - pos - 4 < size {
        return None;
    }
    Some(size)
}

/// Removes from the start of `buf` all the complete frames it starts with
/// and returns their payloads, in order.
pub fn drain_frames(buf: &mut Vec<u8>) -> (r: Vec<Vec<u8>>)
    ensures
        r@.map_values(|v: Vec<u8>| v@) == frames(old(buf)@),
        final(buf)@ == frames_rest(old(buf)@),
{
    let mut r: Vec<Vec<u8>> = Vec::new();
    let mut pos: usize = 0;
    let ghost s = buf@;
    assert(s.skip(0) =~= s);
    assert(s.len() == buf.len());
    loop
        invariant
            buf@ == s,
            s.len() <= usize::MAX,
            pos <= s.len(),
            frames(s) == r@.map_values(|v: Vec<u8>| v@) + frames(s.skip(pos as int)),
            frames_rest(s) == frames_rest(s.skip(pos as int)),
        ensures
            buf@ == s,
            pos <= s.len(),
            frames(s) == r@.map_values(|v: Vec<u8>| v@),
            frames_rest(s) == s.skip(pos as int),
        decreases s.len() - pos,
    {
        let ghost rest = s.skip(pos as int);
        match frame_at(buf.as_slice(), pos) {
            Some(size) => {
                let start = pos + 4;
                let payload = vstd::slice::slice_to_vec(vstd::slice::slice_subrange(buf.as_slice(), start, start + size));
                let ghost prev = r@;
                r.push(payload);
                pos = start + size;
                proof {
                    assert(payload@ =~= frame_payload(rest));
                    assert(rest.skip(frame_len(rest) as int) =~= s.skip(pos as int));
                    assert(r@.map_values(|v: Vec<u8>| v@) =~= prev.map_values(|v: Vec<u8>| v@).push(payload@));
                    assert(frames(rest) =~= seq![payload@] + frames(s.skip(pos as int)));
                }
            },
            None => {
                assert(frames(rest) =~= Seq::<Seq<u8>>::empty());
                assert(frames_rest(rest) == rest);
                assert(r@.map_values(|v: Vec<u8>| v@) + frames(rest) =~= r@.map_values(|v: Vec<u8>| v@));
                break;
            },
        }
    }
    let tail = vstd::slice::slice_to_vec(vstd::slice::slice_subrange(buf.as_slice(), pos, buf.len()));
    *buf = tail;
    assert(buf@ =~= s.skip(pos as int));
    r
}

/// A reader of the frames of a `Vec<u8>` that takes them one at a time, and
/// then removes from the vector exactly the bytes of the frames it took.
pub struct FrameCursor {
    pos: usize,
}

impl FrameCursor {
    /// The number of bytes read so far.
    pub closed spec fn pos(&self) -> nat {
        self.pos as nat
    }

    /// A reader at the start of the vector.
    pub fn new() -> (r: Self)
        ensures
            r.pos() == 0,
    {
        FrameCursor { pos: 0 }
    }

    /// The number of bytes read so far.
    pub fn position(&self) -> (r: usize)
        ensures
            r == self.pos(),
    {
        self.pos
    }

    /// Takes the next frame of `buf` and returns its payload; returns `None`,
    /// and stays where it is, when no complete frame follows.
    pub fn next(&mut self, buf: &Vec<u8>) -> (r: Option<Vec<u8>>)
        requires
            old(self).pos() <= buf@.len(),
        ensures
            r is Some <==> has_frame(buf@.skip(old(self).pos() as int)),
            r matches Some(p) ==> p@ == frame_payload(buf@.skip(old(self).pos() as int)),
            final(self).pos() == if r is Some {
                old(self).pos() + frame_len(buf@.skip(old(self).pos() as int))
            } else {
                old(self).pos()
            },
            final(self).pos() <= buf@.len(),
    {
        assert(buf@.len() == buf.len());
        match frame_at(buf.as_slice(), self.pos) {
            Some(size) => {
                let start = self.pos + 4;
                let payload = vstd::slice::slice_to_vec(vstd::slice::slice_subrange(buf.as_slice(), start, start + size));
                self.pos = start + size;
                assert(payload@ =~= frame_payload(buf@.skip(old(self).pos() as int)));
                Some(payload)
            },
            None => None,
        }
    }

    /// Removes from `buf` the bytes read: those of the frames taken.
    pub fn finish(&self, buf: &mut Vec<u8>)
        requires
            self.pos() <= old(buf)@.len(),
        ensures
            final(buf)@ == old(buf)@.skip(self.pos() as int),
    {
        let tail = vstd::slice::slice_to_vec(vstd::slice::slice_subrange(buf.as_slice(), self.pos, buf.len()));
        *buf = tail;
        assert(buf@ =~= old(buf)@.skip(self.pos() as int));
    }
}

/// `secs` seconds and `nanos` nanoseconds, in nanoseconds, reduced to 64 bits.
pub open spec fn spec_nanosecs(secs: u64, nanos: u32) -> nat {
    ((secs * 1_000_000_000 + nanos) % 18446744073709551616) as nat
}

/// `secs` seconds and `nanos` nanoseconds, in whole microseconds, reduced to 64 bits.
pub open spec fn spec_usecs(secs: u64, nanos: u32) -> nat {
    ((secs * 1_000_000 + nanos / 1000) % 18446744073709551616) as nat
}

/// Whenever it fits in 64 bits, a duration in nanoseconds is exact: it is
/// `secs * 10^9 + nanos`, and the whole seconds and the fraction of a second
/// are read back from it by dividing by 10^9. It grows with the fraction.
pub proof fn lemma_nanosecs_exact(secs: u64, nanos: u32, nanos2: u32)
    requires
        nanos < 1_000_000_000,
        secs * 1_000_000_000 + nanos < 18446744073709551616,
    ensures
        spec_nanosecs(secs, nanos) == secs * 1_000_000_000 + nanos,
        spec_nanosecs(secs, nanos) / 1_000_000_000 == secs,
        spec_nanosecs(secs, nanos) % 1_000_000_000 == nanos,
        nanos <= nanos2 < 1_000_000_000 && secs * 1_000_000_000 + nanos2 < 18446744073709551616
            ==> spec_nanosecs(secs, nanos) <= spec_nanosecs(secs, nanos2),
{
    let t = secs * 1_000_000_000 + nanos;
    vstd::arithmetic::div_mod::lemma_small_mod(t as nat, 18446744073709551616);
    vstd::arithmetic::div_mod::lemma_fundamental_div_mod_converse(t, 1_000_000_000, secs as int, nanos as int);
    if nanos <= nanos2 < 1_000_000_000 && secs * 1_000_000_000 + nanos2 < 18446744073709551616 {
        vstd::arithmetic::div_mod::lemma_small_mod((secs * 1_000_000_000 + nanos2) as nat, 18446744073709551616);
    }
}

/// Whenever it fits in 64 bits, a duration in whole microseconds is
/// `secs * 10^6` plus the whole microseconds of the fraction: dividing it by
/// 10^6 gives back the seconds, and it is the duration in nanoseconds
/// divided by 1000, rounded down. It grows with the fraction.
pub proof fn lemma_usecs_exact(secs: u64, nanos: u32, nanos2: u32)
    requires
        nanos < 1_000_000_000,
        secs * 1_000_000_000 + nanos < 18446744073709551616,
    ensures
        spec_usecs(secs, nanos) == secs * 1_000_000 + nanos / 1000,
        spec_usecs(secs, nanos) / 1_000_000 == secs,
        spec_usecs(secs, nanos) % 1_000_000 == nanos / 1000,
        spec_usecs(secs, nanos) == spec_nanosecs(secs, nanos) / 1000,
        nanos <= nanos2 < 1_000_000_000 ==> spec_usecs(secs, nanos) <= spec_usecs(secs, nanos2),
{
    let u = secs * 1_000_000 + nanos / 1000;
    assert(nanos / 1000 < 1_000_000);
    assert(u < 18446744073709551616) by (nonlinear_arith)
        requires
            u == secs * 1_000_000 + nanos / 1000,
            nanos / 1000 < 1_000_000,
            secs * 1_000_000_000 + nanos < 18446744073709551616,
            secs >= 0,
    ;
    vstd::arithmetic::div_mod::lemma_small_mod(u as nat, 18446744073709551616);
    vstd::arithmetic::div_mod::lemma_fundamental_div_mod_converse(u, 1_000_000, secs as int, (nanos / 1000) as int);
    lemma_nanosecs_exact(secs, nanos, nanos);
    let t = secs * 1_000_000_000 + nanos;
    assert(t == (secs * 1_000_000 + nanos / 1000) * 1000 + nanos % 1000) by (nonlinear_arith)
        requires
            t == secs * 1_000_000_000 + nanos,
            nanos == (nanos / 1000) * 1000 + nanos % 1000,
    ;
    vstd::arithmetic::div_mod::lemma_fundamental_div_mod_converse(t, 1000, u, (nanos % 1000) as int);
    if nanos <= nanos2 < 1_000_000_000 {
        assert(nanos / 1000 <= nanos2 / 1000) by (nonlinear_arith)
            requires
                nanos <= nanos2,
        ;
        assert(secs * 1_000_000 + nanos2 / 1000 < 18446744073709551616) by (nonlinear_arith)
            requires
                nanos2 < 1_000_000_000,
                secs * 1_000_000_000 + nanos < 18446744073709551616,
        ;
        vstd::arithmetic::div_mod::lemma_small_mod((secs * 1_000_000 + nanos2 / 1000) as nat, 18446744073709551616);
    }
}

/// A duration of `secs` seconds and `nanos` nanoseconds in nanoseconds; the
/// result wraps around past `u64::MAX`.
pub fn duration_nanosecs(secs: u64, nanos: u32) -> (r: u64)
    ensures
        r == spec_nanosecs(secs, nanos),
        r as int == (secs * 1_000_000_000 + nanos) % 18446744073709551616,
{
    let r = secs.wrapping_mul(1_000_000_000).wrapping_add(nanos as u64);
    assert(r == spec_nanosecs(secs, nanos)) by (nonlinear_arith)
        requires
            r == ((((secs * 1_000_000_000) % 18446744073709551616) + nanos) % 18446744073709551616),
    {
        assert((((secs * 1_000_000_000) % 18446744073709551616) + nanos) % 18446744073709551616
            == (secs * 1_000_000_000 + nanos) % 18446744073709551616) by {
            vstd::arithmetic::div_mod::lemma_add_mod_noop(secs * 1_000_000_000, nanos as int, 18446744073709551616);
            vstd::arithmetic::div_mod::lemma_small_mod(nanos as nat, 18446744073709551616);
        }
    }
    r
}

/// A duration of `secs` seconds and `nanos` nanoseconds in whole
/// microseconds; the result wraps around past `u64::MAX`.
pub fn duration_usecs(secs: u64, nanos: u32) -> (r: u64)
    ensures
        r == spec_usecs(secs, nanos),
        r as int == (secs * 1_000_000 + nanos / 1000) % 18446744073709551616,
{
    let r = secs.wrapping_mul(1_000_000).wrapping_add((nanos / 1000) as u64);
    assert(r == spec_usecs(secs, nanos)) by (nonlinear_arith)
        requires
            r == ((((secs * 1_000_000) % 18446744073709551616) + nanos / 1000) % 18446744073709551616),
    {
        assert((((secs * 1_000_000) % 18446744073709551616) + nanos / 1000) % 18446744073709551616
            == (secs * 1_000_000 + nanos / 1000) % 18446744073709551616) by {
            vstd::arithmetic::div_mod::lemma_add_mod_noop(secs * 1_000_000, (nanos / 1000) as int, 18446744073709551616);
            vstd::arithmetic::div_mod::lemma_small_mod((nanos / 1000) as nat, 18446744073709551616);
        }
    }
    r
}

/// The whole seconds of a duration, as `Duration::as_secs` gives them.
pub uninterp spec fn duration_secs(d: core::time::Duration) -> u64;

/// The fractional part of a duration in nanoseconds, as
/// `Duration::subsec_nanos` gives it.
pub uninterp spec fn duration_subsec_nanos(d: core::time::Duration) -> u32;

/// `core::time::Duration::as_secs`: the whole seconds of a duration; the
/// result is named `duration_secs` of the duration, and nothing more is
/// claimed of it.
pub assume_specification[ core::time::Duration::as_secs ](d: &core::time::Duration) -> (r: u64)
    ensures
        r == duration_secs(*d),
;

/// `core::time::Duration::subsec_nanos`: the fractional part of a duration, in
/// nanoseconds, named `duration_subsec_nanos` of the duration; std documents
/// it as less than one billion.
pub assume_specification[ core::time::Duration::subsec_nanos ](d: &core::time::Duration) -> (r: u32)
    ensures
        r == duration_subsec_nanos(*d),
        r < 1_000_000_000,
;

/// Conversions of a duration to whole units.
pub trait DurationExt {
    /// The duration in nanoseconds (wrapping around past `u64::MAX`).
    fn as_nanosecs(&self) -> u64;
    /// The duration in whole microseconds (wrapping around past `u64::MAX`).
    fn as_usecs(&self) -> u64;
}

impl DurationExt for core::time::Duration {
    fn as_nanosecs(&self) -> (r: u64)
        ensures
            r == spec_nanosecs(duration_secs(*self), duration_subsec_nanos(*self)),
    {
        duration_nanosecs(self.as_secs(), self.subsec_nanos())
    }

    fn as_usecs(&self) -> (r: u64)
        ensures
            r == spec_usecs(duration_secs(*self), duration_subsec_nanos(*self)),
    {
        duration_usecs(self.as_secs(), self.subsec_nanos())
    }
}

} // verus!

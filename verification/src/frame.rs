//! Length-prefixed frames: a 4-byte big-endian length header followed by
//! that many payload bytes. All buffers of the crate frame and unframe
//! messages by these definitions.
use vstd::prelude::*;

verus! {

/// The unsigned value of the first four bytes of `b`, most significant first.
pub open spec fn be32_value(b: Seq<u8>) -> nat
    recommends
        b.len() >= 4,
{
    (b[0] as nat) * 16777216 + (b[1] as nat) * 65536 + (b[2] as nat) * 256 + (b[3] as nat)
}

/// The four bytes of `v`, most significant first.
pub open spec fn be32_bytes(v: u32) -> Seq<u8> {
    seq![(v / 16777216) as u8, (v / 65536 % 256) as u8, (v / 256 % 256) as u8, (v % 256) as u8]
}

/// The value written in the header of a frame whose payload has `n` bytes:
/// the length reduced to 32 bits.
pub open spec fn header_value(n: nat) -> u32 {
    (n % 4294967296) as u32
}

/// The bytes of the frame that carries `payload`.
pub open spec fn encode_frame(payload: Seq<u8>) -> Seq<u8> {
    be32_bytes(header_value(payload.len())) + payload
}

/// Whether `s` starts with a complete frame: a header and all the payload
/// bytes that the header announces.
pub open spec fn has_frame(s: Seq<u8>) -> bool {
    s.len() >= 4 && s.len() >= 4 + be32_value(s)
}

/// The length of the frame at the start of `s`, header included.
pub open spec fn frame_len(s: Seq<u8>) -> nat {
    4 + be32_value(s)
}

/// The payload of the frame at the start of `s`.
pub open spec fn frame_payload(s: Seq<u8>) -> Seq<u8> {
    s.subrange(4, 4 + be32_value(s) as int)
}

/// The payloads of the complete frames that `s` starts with, in order.
pub open spec fn frames(s: Seq<u8>) -> Seq<Seq<u8>>
    decreases s.len(),
{
    if has_frame(s) {
        seq![frame_payload(s)] + frames(s.skip(frame_len(s) as int))
    } else {
        Seq::empty()
    }
}

/// What is left of `s` once all the complete frames at its start are taken.
pub open spec fn frames_rest(s: Seq<u8>) -> Seq<u8>
    decreases s.len(),
{
    if has_frame(s) {
        frames_rest(s.skip(frame_len(s) as int))
    } else {
        s
    }
}

/// The number of bytes taken by the complete frames at the start of `s`.
pub open spec fn frames_len(s: Seq<u8>) -> nat
    decreases s.len(),
{
    if has_frame(s) {
        frame_len(s) + frames_len(s.skip(frame_len(s) as int))
    } else {
        0
    }
}

/// Decoding the four bytes of a value gives the value back.
pub proof fn lemma_be32_roundtrip(v: u32)
    ensures
        be32_bytes(v).len() == 4,
        be32_value(be32_bytes(v)) == v,
{
    let b = be32_bytes(v);
    assert(b[0] as nat == v / 16777216);
    assert(b[1] as nat == v / 65536 % 256);
    assert(b[2] as nat == v / 256 % 256);
    assert(b[3] as nat == v % 256);
    assert((v / 16777216) * 16777216 + (v / 65536 % 256) * 65536 + (v / 256 % 256) * 256 + v % 256
        == v) by (nonlinear_arith);
}

/// Headers are big-endian: the four header bytes written before a payload
/// of `n` bytes are the base-256 digits of `n` (reduced to 32 bits), most
/// significant first, and they give back that count.
pub proof fn lemma_header_is_big_endian(n: nat)
    ensures
        be32_bytes(header_value(n)).len() == 4,
        be32_bytes(header_value(n))[0] as nat == (n % 4294967296) / 16777216,
        be32_bytes(header_value(n))[1] as nat == (n % 4294967296) / 65536 % 256,
        be32_bytes(header_value(n))[2] as nat == (n % 4294967296) / 256 % 256,
        be32_bytes(header_value(n))[3] as nat == n % 256,
        (be32_bytes(header_value(n))[0] as nat) * 16777216 + (be32_bytes(header_value(n))[1] as nat) * 65536
            + (be32_bytes(header_value(n))[2] as nat) * 256 + (be32_bytes(header_value(n))[3] as nat)
            == n % 4294967296,
        n < 4294967296 ==> (be32_bytes(header_value(n))[0] as nat) * 16777216 + (be32_bytes(header_value(n))[1] as nat)
            * 65536 + (be32_bytes(header_value(n))[2] as nat) * 256 + (be32_bytes(header_value(n))[3] as nat) == n,
{
    let v = header_value(n);
    assert(v as nat == n % 4294967296);
    assert((n % 4294967296) % 256 == n % 256) by (nonlinear_arith);
    let b = be32_bytes(v);
    assert(b[0] as nat == v / 16777216);
    assert(b[1] as nat == v / 65536 % 256);
    assert(b[2] as nat == v / 256 % 256);
    assert(b[3] as nat == v % 256);
    assert((v / 16777216) * 16777216 + (v / 65536 % 256) * 65536 + (v / 256 % 256) * 256 + v % 256
        == v) by (nonlinear_arith);
}

/// Headers are read big-endian: the header bytes `[b0, b1, b2, b3]` announce
/// `b0 * 2^24 + b1 * 2^16 + b2 * 2^8 + b3` bytes of payload, and those
/// bytes are exactly the header written for that count.
pub proof fn lemma_header_read_big_endian(b: Seq<u8>)
    requires
        b.len() >= 4,
    ensures
        be32_value(b) == (b[0] as nat) * 16777216 + (b[1] as nat) * 65536 + (b[2] as nat) * 256 + (b[3] as nat),
        be32_value(b) < 4294967296,
        frame_len(b) == 4 + (b[0] as nat) * 16777216 + (b[1] as nat) * 65536 + (b[2] as nat) * 256 + (b[3] as nat),
        be32_bytes(header_value(be32_value(b))) == b.take(4),
{
    let v = be32_value(b);
    let (b0, b1, b2, b3) = (b[0] as nat, b[1] as nat, b[2] as nat, b[3] as nat);
    assert(v < 4294967296) by (nonlinear_arith)
        requires
            v == b0 * 16777216 + b1 * 65536 + b2 * 256 + b3,
            b0 < 256,
            b1 < 256,
            b2 < 256,
            b3 < 256,
    ;
    lemma_header_is_big_endian(v);
    let h = be32_bytes(header_value(v));
    assert(h[0] as nat == b0 && h[1] as nat == b1 && h[2] as nat == b2 && h[3] as nat == b3) by (nonlinear_arith)
        requires
            v == b0 * 16777216 + b1 * 65536 + b2 * 256 + b3,
            v < 4294967296,
            b0 < 256,
            b1 < 256,
            b2 < 256,
            b3 < 256,
            h[0] as nat == v / 16777216,
            h[1] as nat == v / 65536 % 256,
            h[2] as nat == v / 256 % 256,
            h[3] as nat == v % 256,
    ;
    assert(h =~= b.take(4));
}

/// The value of a header only depends on its four bytes.
pub proof fn lemma_be32_prefix(a: Seq<u8>, b: Seq<u8>)
    requires
        a.len() >= 4,
    ensures
        be32_value(a + b) == be32_value(a),
{
    assert((a + b)[0] == a[0]);
    assert((a + b)[1] == a[1]);
    assert((a + b)[2] == a[2]);
    assert((a + b)[3] == a[3]);
}

/// A frame written for a payload of at most `u32::MAX` bytes, followed by
/// anything, is read back as that payload, and takes exactly its own bytes.
pub proof fn lemma_frame_roundtrip(payload: Seq<u8>, rest: Seq<u8>)
    requires
        payload.len() <= u32::MAX,
    ensures
        has_frame(encode_frame(payload) + rest),
        frame_len(encode_frame(payload) + rest) == 4 + payload.len(),
        frame_payload(encode_frame(payload) + rest) == payload,
        (encode_frame(payload) + rest).skip(4 + payload.len() as int) == rest,
{
    let h = header_value(payload.len());
    assert(h == payload.len());
    lemma_be32_roundtrip(h);
    let s = encode_frame(payload) + rest;
    assert(s == be32_bytes(h) + (payload + rest));
    lemma_be32_prefix(be32_bytes(h), payload + rest);
    assert(s.subrange(4, 4 + payload.len() as int) =~= payload);
    assert(s.skip(4 + payload.len() as int) =~= rest);
}

/// Reading all frames from a frame written for `payload` followed by `rest`
/// gives `payload`, then the frames of `rest`; the unread tail is that of `rest`.
pub proof fn lemma_frames_of_encoded(payload: Seq<u8>, rest: Seq<u8>)
    requires
        payload.len() <= u32::MAX,
    ensures
        frames(encode_frame(payload) + rest) == seq![payload] + frames(rest),
        frames_rest(encode_frame(payload) + rest) == frames_rest(rest),
        frames_len(encode_frame(payload) + rest) == 4 + payload.len() + frames_len(rest),
{
    lemma_frame_roundtrip(payload, rest);
}

/// The frames that carry `payloads`, one after the other.
pub open spec fn encode_frames(payloads: Seq<Seq<u8>>) -> Seq<u8>
    decreases payloads.len(),
{
    if payloads.len() == 0 {
        Seq::empty()
    } else {
        encode_frame(payloads[0]) + encode_frames(payloads.drop_first())
    }
}

/// Frames written one after the other for payloads of at most `u32::MAX`
/// bytes each, followed by bytes that do not start a complete frame, are
/// read back as those payloads, in the order they were written, and the
/// bytes that follow them are left over.
pub proof fn lemma_frames_in_order(payloads: Seq<Seq<u8>>, tail: Seq<u8>)
    requires
        forall|i: int| 0 <= i < payloads.len() ==> (#[trigger] payloads[i]).len() <= u32::MAX,
        !has_frame(tail),
    ensures
        frames(encode_frames(payloads) + tail) == payloads,
        frames_rest(encode_frames(payloads) + tail) == tail,
    decreases payloads.len(),
{
    if payloads.len() == 0 {
        assert(encode_frames(payloads) + tail =~= tail);
        assert(frames(tail) =~= payloads);
    } else {
        let p = payloads[0];
        let rest = payloads.drop_first();
        lemma_frames_in_order(rest, tail);
        assert(encode_frames(payloads) + tail =~= encode_frame(p) + (encode_frames(rest) + tail));
        lemma_frames_of_encoded(p, encode_frames(rest) + tail);
        assert(seq![p] + rest =~= payloads);
    }
}

/// The number of bytes taken by the first `j` complete frames at the start
/// of `s` (by all of them, when there are fewer).
pub open spec fn frames_prefix_len(s: Seq<u8>, j: nat) -> nat
    decreases j,
{
    if j == 0 || !has_frame(s) {
        0
    } else {
        frame_len(s) + frames_prefix_len(s.skip(frame_len(s) as int), (j - 1) as nat)
    }
}

/// Taking the frames of `s` one at a time: once the first `j` are taken,
/// what is left holds the other frames, in order, and the same unread tail;
/// while frames are left, the next one taken is frame `j`. So a reader that
/// takes `j` frames and then removes the bytes it read leaves the frames
/// after the `j`-th, and one that then takes all that are left has taken
/// every frame and leaves the tail.
pub proof fn lemma_frames_prefix(s: Seq<u8>, j: nat)
    requires
        j <= frames(s).len(),
    ensures
        frames_prefix_len(s, j) <= s.len(),
        frames(s.skip(frames_prefix_len(s, j) as int)) == frames(s).skip(j as int),
        frames(s).take(j as int) + frames(s.skip(frames_prefix_len(s, j) as int)) == frames(s),
        frames_rest(s.skip(frames_prefix_len(s, j) as int)) == frames_rest(s),
        j < frames(s).len() ==> has_frame(s.skip(frames_prefix_len(s, j) as int)),
        j < frames(s).len() ==> frame_payload(s.skip(frames_prefix_len(s, j) as int)) == frames(s)[j as int],
        j < frames(s).len() ==> frames_prefix_len(s, j + 1) == frames_prefix_len(s, j)
            + frame_len(s.skip(frames_prefix_len(s, j) as int)),
    decreases j,
{
    if j == 0 {
        assert(s.skip(0) =~= s);
        assert(frames(s).skip(0) =~= frames(s));
        assert(frames(s).take(0) + frames(s) =~= frames(s));
        if frames(s).len() > 0 {
            assert(has_frame(s));
            assert(frames_prefix_len(s, 1) == frame_len(s) + frames_prefix_len(s.skip(frame_len(s) as int), 0));
        }
    } else {
        assert(has_frame(s));
        let t = s.skip(frame_len(s) as int);
        assert(frames(s) == seq![frame_payload(s)] + frames(t));
        lemma_frames_prefix(t, (j - 1) as nat);
        let p = frames_prefix_len(t, (j - 1) as nat);
        assert(frames_prefix_len(s, j) == frame_len(s) + p);
        assert(s.skip(frames_prefix_len(s, j) as int) =~= t.skip(p as int));
        assert(frames(s).skip(j as int) =~= frames(t).skip(j - 1));
        assert(frames(s).take(j as int) =~= seq![frame_payload(s)] + frames(t).take(j - 1));
        assert(frames(s).take(j as int) + frames(s.skip(frames_prefix_len(s, j) as int)) =~= frames(s));
        if j < frames(s).len() {
            assert(frames(s)[j as int] == frames(t)[j - 1]);
            assert(frames_prefix_len(s, j + 1) == frame_len(s) + frames_prefix_len(t, j as nat));
        }
    }
}

/// The complete frames at the start of `s`, followed by the rest, are `s`
/// again; the frames and the rest are a split of `s` at `frames_len(s)`.
pub proof fn lemma_frames_split(s: Seq<u8>)
    ensures
        frames_len(s) <= s.len(),
        frames_rest(s) == s.skip(frames_len(s) as int),
    decreases s.len(),
{
    if has_frame(s) {
        let t = s.skip(frame_len(s) as int);
        lemma_frames_split(t);
        assert(t.skip(frames_len(t) as int) =~= s.skip(frames_len(s) as int));
    } else {
        assert(s.skip(0) =~= s);
    }
}

/// The header bytes that announce a payload of `n` bytes.
pub fn encode_header(n: usize) -> (r: [u8; 4])
    ensures
        r@ == be32_bytes(header_value(n as nat)),
        (r@[0] as nat) * 16777216 + (r@[1] as nat) * 65536 + (r@[2] as nat) * 256 + (r@[3] as nat)
            == n as nat % 4294967296,
{
    proof {
        lemma_header_is_big_endian(n as nat);
    }
    let v: u32 = (n as u64 % 4294967296u64) as u32;
    let r: [u8; 4] = [(v / 16777216) as u8, (v / 65536 % 256) as u8, (v / 256 % 256) as u8, (v % 256) as u8];
    assert(r@ =~= be32_bytes(header_value(n as nat)));
    r
}

/// The value of a header given by its four bytes.
pub fn decode_header(b0: u8, b1: u8, b2: u8, b3: u8) -> (r: u32)
    ensures
        r as nat == be32_value(seq![b0, b1, b2, b3]),
        r as nat == (b0 as nat) * 16777216 + (b1 as nat) * 65536 + (b2 as nat) * 256 + (b3 as nat),
{
    proof {
        lemma_header_read_big_endian(seq![b0, b1, b2, b3]);
    }
    (b0 as u32) * 16777216 + (b1 as u32) * 65536 + (b2 as u32) * 256 + (b3 as u32)
}

} // verus!

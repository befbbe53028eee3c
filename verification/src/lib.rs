//! An event loop library over `mio`, and the byte buffers it reads and
//! writes frames with.
//!
//! The event loop itself (polling, sockets, channels, timers) runs outside
//! this crate's verified part; what it decides is decided here: how event
//! tokens carry an id and a kind, what a connection does after each read or
//! write, and how much work each loop tick does.
use vstd::prelude::*;

pub mod frame;
pub mod circular_buf;
pub mod iobuf;
pub mod ext;
pub mod connection;
pub mod evloop;
pub mod handlers;

verus! {

/// Number of low bits of a token that hold its kind.
pub const TOKEN_KIND_BITS: usize = 3;
/// The mask of the kind bits of a token.
pub const TOKEN_KIND_MASK: usize = 0b111;

/// Timeout of a non-blocking poll, in nanoseconds.
pub const POLL_TIMEOUT_NS: u32 = 10_000;

/// Default of `Config::max_read_size`.
pub const DEFAULT_MAX_READ_SIZE: usize = 16 * 1024;
/// Default of `Config::max_write_size`.
pub const DEFAULT_MAX_WRITE_SIZE: usize = 16 * 1024;

/// What a registered event source is.
#[derive(Eq, PartialEq, Debug, Copy, Clone, Structural)]
pub enum TokenKind {
    Listener,
    Connect,
    Connection,
    Chan,
    Timer,
}

/// The number that stands for a kind in the low bits of a token.
pub open spec fn kind_bits(kind: TokenKind) -> usize {
    match kind {
        TokenKind::Listener => 0,
        TokenKind::Connect => 1,
        TokenKind::Connection => 2,
        TokenKind::Chan => 3,
        TokenKind::Timer => 4,
    }
}

/// The token of the source `id` of kind `kind`: the id shifted past the
/// kind bits, then the kind.
pub open spec fn spec_token(id: usize, kind: TokenKind) -> usize {
    (id << 3usize) | kind_bits(kind)
}

/// The token of the source `id` of kind `kind`.
pub fn token_from_id_kind(id: usize, kind: TokenKind) -> (t: usize)
    ensures
        t == spec_token(id, kind),
{
    let k: usize = match kind {
        TokenKind::Listener => 0,
        TokenKind::Connect => 1,
        TokenKind::Connection => 2,
        TokenKind::Chan => 3,
        TokenKind::Timer => 4,
    };
    (id << TOKEN_KIND_BITS) | k
}

/// The id and the kind that a token carries. The kind bits must name a kind.
pub fn token_to_id_kind(token: usize) -> (r: (usize, TokenKind))
    requires
        token & 7 < 5,
    ensures
        r.0 == token >> 3usize,
        kind_bits(r.1) == token & 7,
{
    let kind_id = token & TOKEN_KIND_MASK;
    let kind = if kind_id == 0 {
        TokenKind::Listener
    } else if kind_id == 1 {
        TokenKind::Connect
    } else if kind_id == 2 {
        TokenKind::Connection
    } else if kind_id == 3 {
        TokenKind::Chan
    } else {
        TokenKind::Timer
    };
    (token >> TOKEN_KIND_BITS, kind)
}

/// A token made of an id that fits in the bits above the kind bits gives
/// back that id and that kind, and its kind bits name a kind.
pub proof fn lemma_token_roundtrip(id: usize, kind: TokenKind)
    requires
        id <= usize::MAX >> 3usize,
    ensures
        spec_token(id, kind) & 7 < 5,
        spec_token(id, kind) >> 3usize == id,
        spec_token(id, kind) & 7 == kind_bits(kind),
{
    let k = kind_bits(kind);
    assert(k < 5);
    let x: usize = id << 3usize;
    vstd::arithmetic::power2::lemma2_to64();
    vstd::bits::lemma_usize_mul_pow2_le_max_iff_max_shr(id, 3, usize::MAX);
    vstd::bits::lemma_usize_shl_is_mul(id, 3);
    assert(x == id * 8);
    assert(x % 8 == 0);
    assert((x | k) & 7 == k && (x | k) >> 3usize == x / 8) by (bit_vector)
        requires
            x % 8 == 0,
            k < 5,
    ;
}

/// The buffers are first in, first out: once `data` is written after the
/// bytes `held` (`put_slice`), reading as many bytes as were held
/// (`copy_to_vec`) gives back `held`, and what is left is `data`.
pub proof fn lemma_bytes_in_order(held: Seq<u8>, data: Seq<u8>)
    ensures
        (held + data).take(held.len() as int) == held,
        (held + data).skip(held.len() as int) == data,
{
    assert((held + data).take(held.len() as int) =~= held);
    assert((held + data).skip(held.len() as int) =~= data);
}

/// The contents of a buffer that held `held` once each step is done: a step
/// `(data, n)` writes `data` (`put_slice`), then reads `n` bytes
/// (`advance` or `copy_to_vec`).
pub open spec fn after_steps(held: Seq<u8>, steps: Seq<(Seq<u8>, nat)>) -> Seq<u8>
    decreases steps.len(),
{
    if steps.len() == 0 {
        held
    } else {
        after_steps((held + steps[0].0).skip(steps[0].1 as int), steps.drop_first())
    }
}

/// Whether no step reads more bytes than the buffer then holds.
pub open spec fn steps_valid(held: Seq<u8>, steps: Seq<(Seq<u8>, nat)>) -> bool
    decreases steps.len(),
{
    steps.len() == 0 || (steps[0].1 <= held.len() + steps[0].0.len() && steps_valid(
        (held + steps[0].0).skip(steps[0].1 as int),
        steps.drop_first(),
    ))
}

/// All the bytes the steps write, in order.
pub open spec fn steps_written(steps: Seq<(Seq<u8>, nat)>) -> Seq<u8>
    decreases steps.len(),
{
    if steps.len() == 0 {
        Seq::empty()
    } else {
        steps[0].0 + steps_written(steps.drop_first())
    }
}

/// The number of bytes the steps read.
pub open spec fn steps_read(steps: Seq<(Seq<u8>, nat)>) -> nat
    decreases steps.len(),
{
    if steps.len() == 0 {
        0
    } else {
        steps[0].1 + steps_read(steps.drop_first())
    }
}

/// Over any sequence of writes and reads that never reads more than is held,
/// a buffer holds what it held and all that was written, less the bytes read
/// from the front: its length is the bytes held and written less the bytes read.
pub proof fn lemma_steps(held: Seq<u8>, steps: Seq<(Seq<u8>, nat)>)
    requires
        steps_valid(held, steps),
    ensures
        steps_read(steps) <= held.len() + steps_written(steps).len(),
        after_steps(held, steps) == (held + steps_written(steps)).skip(steps_read(steps) as int),
        after_steps(held, steps).len() == held.len() + steps_written(steps).len() - steps_read(steps),
    decreases steps.len(),
{
    if steps.len() == 0 {
        assert((held + Seq::<u8>::empty()).skip(0) =~= held);
    } else {
        let (d, n) = steps[0];
        let rest = steps.drop_first();
        let h1 = (held + d).skip(n as int);
        lemma_steps(h1, rest);
        assert((h1 + steps_written(rest)).skip(steps_read(rest) as int) =~= (held + steps_written(steps)).skip(
            steps_read(steps) as int,
        )) by {
            assert(held + steps_written(steps) =~= (held + d) + steps_written(rest));
        }
    }
}

/// Tunables of the event loop.
#[derive(Clone)]
pub struct Config {
    /// Randomize order in which connections are handled at each loop tick
    pub randomize_work: bool,
    /// Won't check for new events until all current work is done
    pub work_until_would_block: bool,
    /// Maximum amount of bytes to read at each "read" syscall
    pub max_read_size: usize,
    /// Maximum amount of bytes to write at each "write" syscall
    pub max_write_size: usize,
}

impl Default for Config {
    fn default() -> (r: Self)
        ensures
            r.randomize_work,
            !r.work_until_would_block,
            r.max_read_size == DEFAULT_MAX_READ_SIZE,
            r.max_write_size == DEFAULT_MAX_WRITE_SIZE,
    {
        Config {
            randomize_work: true,
            work_until_would_block: false,
            max_read_size: DEFAULT_MAX_READ_SIZE,
            max_write_size: DEFAULT_MAX_WRITE_SIZE,
        }
    }
}

} // verus!

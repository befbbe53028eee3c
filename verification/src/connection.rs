//! What a connection of the event loop decides around each read and write
//! on its socket. The socket calls themselves are made by the caller, which
//! reports their outcome here and acts on the step that comes back.
use vstd::prelude::*;

verus! {

/// Number of bytes a connection asks for at each read.
pub const READ_SIZE: usize = 8 * 1024;

/// What a read or a write on the socket gave.
#[derive(Eq, PartialEq, Debug, Copy, Clone, Structural)]
pub enum IoOutcome {
    /// that many bytes were read or written
    Done(usize),
    /// the socket was not ready
    WouldBlock,
    /// any other error
    Failed,
}

/// What follows a write.
#[derive(Eq, PartialEq, Debug, Copy, Clone, Structural)]
pub enum WriteStep {
    /// there is more to write: try again
    Again,
    /// the socket is not writable any more
    Blocked,
    /// the write buffer is empty: tell the handler that writing finished
    Finished,
    /// the connection failed: delete it and tell the handler with the error
    Failed,
}

/// What follows a read.
#[derive(Eq, PartialEq, Debug, Copy, Clone, Structural)]
pub enum ReadStep {
    /// bytes were read: hand the read buffer to the handler, and try again
    Again,
    /// the socket is not readable any more
    Blocked,
    /// the remote side closed: delete the connection and tell the handler
    Closed,
    /// the connection failed: delete it and tell the handler with the error
    Failed,
}

/// The state of a connection: the readiness that the poll reported, and the
/// bytes read and not yet consumed, and to be written.
pub struct ConnState {
    pub id: usize,
    pub readable: bool,
    pub writable: bool,
    pub rbuf: Vec<u8>,
    pub wbuf: Vec<u8>,
}

impl ConnState {
    /// Whether the connection has something to write and may write it.
    pub open spec fn spec_is_writable(&self) -> bool {
        self.writable && self.wbuf@.len() > 0
    }

    /// A new connection: writable, not readable, with nothing to read or write.
    pub fn new(id: usize) -> (r: Self)
        ensures
            r.id == id,
            !r.readable,
            r.writable,
            r.rbuf@ == Seq::<u8>::empty(),
            r.wbuf@ == Seq::<u8>::empty(),
    {
        ConnState {
            id,
            readable: false,
            writable: true,
            rbuf: Vec::with_capacity(READ_SIZE),
            wbuf: Vec::new(),
        }
    }

    #[verifier::when_used_as_spec(spec_is_writable)]
    pub fn is_writable(&self) -> (r: bool)
        ensures
            r == self.spec_is_writable(),
            r == (self.writable && self.wbuf@.len() >= 1),
    {
        self.writable && self.wbuf.len() > 0
    }

    pub fn is_readable(&self) -> (r: bool)
        ensures
            r == self.readable,
    {
        self.readable
    }

    /// Adds the readiness that the poll reported.
    pub fn ready(&mut self, readable: bool, writable: bool)
        ensures
            final(self).readable == (old(self).readable || readable),
            final(self).writable == (old(self).writable || writable),
            final(self).id == old(self).id,
            final(self).rbuf == old(self).rbuf,
            final(self).wbuf == old(self).wbuf,
    {
        self.readable = self.readable || readable;
        self.writable = self.writable || writable;
    }

    /// Adds the readiness of a poll event, and tells whether the connection
    /// must now join the queue of readable connections, and that of writable
    /// ones: it does when it has just become so.
    pub fn event(&mut self, readable: bool, writable: bool) -> (r: (bool, bool))
        ensures
            final(self).readable == (old(self).readable || readable),
            final(self).writable == (old(self).writable || writable),
            final(self).id == old(self).id,
            final(self).rbuf == old(self).rbuf,
            final(self).wbuf == old(self).wbuf,
            r.0 == (!old(self).readable && final(self).readable),
            r.1 == (!old(self).spec_is_writable() && final(self).spec_is_writable()),
    {
        let was_readable = self.is_readable();
        let was_writable = self.is_writable();
        self.ready(readable, writable);
        (!was_readable && self.is_readable(), !was_writable && self.is_writable())
    }

    /// How many bytes of the write buffer one write offers to the socket: all
    /// of them, but at most `max_write_size` (`Config::max_write_size`).
    pub fn write_size(&self, max_write_size: usize) -> (r: usize)
        ensures
            r == if self.wbuf@.len() < max_write_size { self.wbuf@.len() } else { max_write_size as nat },
    {
        if self.wbuf.len() < max_write_size {
            self.wbuf.len()
        } else {
            max_write_size
        }
    }

    /// Acts on the outcome of writing to the socket the first
    /// `write_size(max_write_size)` bytes of the write buffer: written bytes
    /// leave the buffer, which keeps all but at most `max_write_size` of its
    /// bytes; a socket that would block is no longer writable.
    pub fn write_done(&mut self, max_write_size: usize, outcome: IoOutcome) -> (r: WriteStep)
        requires
            old(self).wbuf@.len() > 0,
            max_write_size > 0,
            outcome matches IoOutcome::Done(n) ==> n <= old(self).wbuf@.len() && n <= max_write_size,
        ensures
            final(self).wbuf@.len() + max_write_size >= old(self).wbuf@.len(),
            final(self).id == old(self).id,
            final(self).readable == old(self).readable,
            final(self).rbuf == old(self).rbuf,
            match outcome {
                IoOutcome::Done(n) => {
                    &&& final(self).wbuf@ == old(self).wbuf@.skip(n as int)
                    &&& final(self).writable == old(self).writable
                    &&& r == if n == old(self).wbuf@.len() { WriteStep::Finished } else { WriteStep::Again }
                },
                IoOutcome::WouldBlock => {
                    &&& final(self).wbuf == old(self).wbuf
                    &&& !final(self).writable
                    &&& r == WriteStep::Blocked
                },
                IoOutcome::Failed => {
                    &&& final(self).wbuf == old(self).wbuf
                    &&& final(self).writable == old(self).writable
                    &&& r == WriteStep::Failed
                },
            },
    {
        match outcome {
            IoOutcome::Done(n) => {
                let rest = vstd::slice::slice_to_vec(
                    vstd::slice::slice_subrange(self.wbuf.as_slice(), n, self.wbuf.len()),
                );
                self.wbuf = rest;
                if self.wbuf.len() == 0 {
                    WriteStep::Finished
                } else {
                    WriteStep::Again
                }
            },
            IoOutcome::WouldBlock => {
                self.writable = false;
                WriteStep::Blocked
            },
            IoOutcome::Failed => WriteStep::Failed,
        }
    }

    /// Makes room for a read: the read buffer grows by `max_read_size`
    /// (`Config::max_read_size`) bytes, to be filled from the socket; returns
    /// its length before.
    pub fn read_start(&mut self, max_read_size: usize) -> (orig_len: usize)
        requires
            max_read_size > 0,
            old(self).rbuf@.len() + max_read_size <= usize::MAX,
        ensures
            orig_len == old(self).rbuf@.len(),
            final(self).rbuf@.len() == orig_len + max_read_size,
            final(self).rbuf@.take(orig_len as int) == old(self).rbuf@,
            final(self).id == old(self).id,
            final(self).readable == old(self).readable,
            final(self).writable == old(self).writable,
            final(self).wbuf == old(self).wbuf,
    {
        let orig_len = self.rbuf.len();
        self.rbuf.resize(orig_len + max_read_size, 0u8);
        assert(self.rbuf@.take(orig_len as int) =~= old(self).rbuf@);
        orig_len
    }

    /// Acts on the outcome of reading into the room of `max_read_size` bytes
    /// made by `read_start`: the read buffer keeps the bytes read, at most
    /// `max_read_size` of them, and drops the rest of the room; a socket that
    /// would block is no longer readable.
    pub fn read_done(&mut self, orig_len: usize, max_read_size: usize, outcome: IoOutcome) -> (r: ReadStep)
        requires
            old(self).rbuf@.len() == orig_len + max_read_size,
            outcome matches IoOutcome::Done(n) ==> n <= max_read_size,
        ensures
            final(self).rbuf@.take(orig_len as int) == old(self).rbuf@.take(orig_len as int),
            orig_len <= final(self).rbuf@.len() <= orig_len + max_read_size,
            final(self).id == old(self).id,
            final(self).writable == old(self).writable,
            final(self).wbuf == old(self).wbuf,
            match outcome {
                IoOutcome::Done(n) => {
                    &&& final(self).rbuf@ == old(self).rbuf@.take(orig_len + n)
                    &&& final(self).readable == old(self).readable
                    &&& r == if n == 0 { ReadStep::Closed } else { ReadStep::Again }
                },
                IoOutcome::WouldBlock => {
                    &&& final(self).rbuf@ == old(self).rbuf@.take(orig_len as int)
                    &&& !final(self).readable
                    &&& r == ReadStep::Blocked
                },
                IoOutcome::Failed => {
                    &&& final(self).rbuf@ == old(self).rbuf@.take(orig_len as int)
                    &&& final(self).readable == old(self).readable
                    &&& r == ReadStep::Failed
                },
            },
    {
        match outcome {
            IoOutcome::Done(n) => {
                assert(self.rbuf@.len() == self.rbuf.len());
                self.rbuf.truncate(orig_len + n);
                if n == 0 {
                    // remote side closed
                    ReadStep::Closed
                } else {
                    ReadStep::Again
                }
            },
            IoOutcome::WouldBlock => {
                self.rbuf.truncate(orig_len);
                self.readable = false;
                ReadStep::Blocked
            },
            IoOutcome::Failed => {
                self.rbuf.truncate(orig_len);
                ReadStep::Failed
            },
        }
    }
}

/// A connection is due for writing exactly when it is writable and has at
/// least one byte to write; so a write that puts any bytes into the empty
/// write buffer of a writable connection schedules it.
pub proof fn lemma_due_for_writing(c: ConnState, new_wbuf: Vec<u8>)
    ensures
        c.spec_is_writable() <==> (c.writable && c.wbuf@.len() >= 1),
        (c.writable && c.wbuf@.len() == 0 && new_wbuf@.len() >= 1) ==> (!c.spec_is_writable()
            && (ConnState { wbuf: new_wbuf, ..c }).spec_is_writable()),
{
}

/// Hands the write buffer of a connection to `f`, which gives back the new
/// write buffer; returns whether the connection just became writable, that
/// is, must join the queue of connections with writing to do.
pub fn connection_write<F: FnOnce(Vec<u8>) -> Vec<u8>>(conn: &mut ConnState, f: F) -> (newly_writable: bool)
    requires
        f.requires((old(conn).wbuf,)),
    ensures
        f.ensures((old(conn).wbuf,), final(conn).wbuf),
        final(conn).id == old(conn).id,
        final(conn).readable == old(conn).readable,
        final(conn).writable == old(conn).writable,
        final(conn).rbuf == old(conn).rbuf,
        newly_writable == (!old(conn).spec_is_writable() && final(conn).spec_is_writable()),
        (old(conn).writable && old(conn).wbuf@.len() == 0 && final(conn).wbuf@.len() >= 1) ==> newly_writable,
        final(conn).wbuf@.len() == 0 ==> !newly_writable,
{
    let was_writable = conn.is_writable();
    let mut wbuf: Vec<u8> = Vec::new();
    std::mem::swap(&mut wbuf, &mut conn.wbuf);
    conn.wbuf = f(wbuf);
    conn.is_writable() && !was_writable
}

} // verus!

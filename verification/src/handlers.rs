//! The callbacks that the event loop calls, and their implementations for
//! closures.
use vstd::prelude::*;

verus! {

/// Called once when a timeout set with the event loop expires.
pub trait TimeoutHandler {
    /// Whether the handler may be called; any time, unless an implementation
    /// says otherwise.
    open spec fn can_time_out(&self) -> bool {
        true
    }

    fn on_timeout(self: Box<Self>)
        requires
            self.can_time_out(),
    ;
}

impl<F: FnOnce()> TimeoutHandler for F {
    open spec fn can_time_out(&self) -> bool {
        self.requires(())
    }

    /// Calls the closure.
    fn on_timeout(self: Box<Self>)
        ensures
            call_ensures(*self, (), ()),
    {
        (*self)()
    }
}

/// Called once at the end of a loop tick.
pub trait TickHandler {
    /// Whether the handler may be called; any time, unless an implementation
    /// says otherwise.
    open spec fn can_tick(&self) -> bool {
        true
    }

    fn on_tick(self: Box<Self>)
        requires
            self.can_tick(),
    ;
}

impl<F: FnOnce()> TickHandler for F {
    open spec fn can_tick(&self) -> bool {
        self.requires(())
    }

    /// Calls the closure.
    fn on_tick(self: Box<Self>)
        ensures
            call_ensures(*self, (), ()),
    {
        (*self)()
    }
}

/// Called with each message received on a channel added to the event loop,
/// and once when the channel is closed.
pub trait ChanHandler<T> {
    /// Whether the handler may be called for channel `id` with `msg`
    /// (`None` for the close); any time, unless an implementation says
    /// otherwise.
    open spec fn accepts(&self, id: usize, msg: Option<T>) -> bool {
        true
    }

    fn on_recv(&mut self, id: usize, msg: T)
        requires
            old(self).accepts(id, Some(msg)),
    ;

    fn on_close(&mut self, id: usize)
        requires
            old(self).accepts(id, None),
    ;
}

/// A closure handles a channel: it gets `Some(msg)` for each message and
/// `None` when the channel is closed.
impl<F: FnMut(usize, Option<T>), T> ChanHandler<T> for F {
    open spec fn accepts(&self, id: usize, msg: Option<T>) -> bool {
        self.requires((id, msg))
    }

    /// Calls the closure with the message.
    fn on_recv(&mut self, id: usize, msg: T)
        ensures
            call_ensures(*old(self), (id, Some(msg)), ()),
    {
        self(id, Some(msg))
    }

    /// Calls the closure with `None`.
    fn on_close(&mut self, id: usize)
        ensures
            call_ensures(*old(self), (id, None::<T>), ()),
    {
        self(id, None)
    }
}

} // verus!

//! The decisions of the event loop between two polls: whether it stops, how
//! long the next poll may block, in which order and how many queued
//! connections get to read or write.
use vstd::prelude::*;
use rand::Rng;
use crate::Config;
use crate::POLL_TIMEOUT_NS;

verus! {

/// The state the event loop keeps across ticks.
pub struct LoopState {
    /// set by `shutdown`: the loop ends before its next poll
    pub shutdown: bool,
    /// set once a connection had more to read or write after its turn: from
    /// then on, polls do not block
    pub pending_writes_or_reads: bool,
    /// the longest write buffer seen left over after a write
    pub max_pending_write: usize,
}

impl LoopState {
    pub fn new() -> (r: Self)
        ensures
            !r.shutdown,
            !r.pending_writes_or_reads,
            r.max_pending_write == 0,
    {
        LoopState { shutdown: false, pending_writes_or_reads: false, max_pending_write: 0 }
    }

    /// Whether the loop goes on polling.
    pub fn is_running(&self) -> (r: bool)
        ensures
            r == !self.shutdown,
    {
        !self.shutdown
    }

    /// How long the next poll may wait, in nanoseconds: not at all, but for a
    /// short timeout, when connections have work pending; without limit else.
    pub fn poll_timeout_ns(&self) -> (r: Option<u32>)
        ensures
            r == if self.pending_writes_or_reads { Some(POLL_TIMEOUT_NS) } else { None::<u32> },
    {
        if self.pending_writes_or_reads {
            Some(POLL_TIMEOUT_NS)
        } else {
            None
        }
    }

    /// Notes that a connection has more to read or write after its turn.
    pub fn note_pending(&mut self)
        ensures
            final(self).pending_writes_or_reads,
            final(self).shutdown == old(self).shutdown,
            final(self).max_pending_write == old(self).max_pending_write,
    {
        self.pending_writes_or_reads = true;
    }

    /// Notes the length of a write buffer left over after a write; returns
    /// whether it is the longest seen so far.
    pub fn note_pending_write(&mut self, len: usize) -> (r: bool)
        ensures
            r == (old(self).max_pending_write < len),
            final(self).max_pending_write == if r { len } else { old(self).max_pending_write },
            final(self).shutdown == old(self).shutdown,
            final(self).pending_writes_or_reads == old(self).pending_writes_or_reads,
    {
        if self.max_pending_write < len {
            self.max_pending_write = len;
            true
        } else {
            false
        }
    }
}

/// Makes the loop end before its next poll.
pub fn shutdown(state: &mut LoopState)
    ensures
        final(state).shutdown,
        final(state).pending_writes_or_reads == old(state).pending_writes_or_reads,
        final(state).max_pending_write == old(state).max_pending_write,
{
    state.shutdown = true;
}

/// How many connections of a queue get a turn in this tick.
pub struct WorkBudget {
    /// turns left; `None` when the queue is worked until it is empty
    pub left: Option<usize>,
}

impl WorkBudget {
    /// Each of the `queued` connections gets one turn, unless the loop is set
    /// to work until every connection would block.
    pub fn new(cfg: &Config, queued: usize) -> (r: Self)
        ensures
            r.left == if cfg.work_until_would_block { None::<usize> } else { Some(queued) },
    {
        if cfg.work_until_would_block {
            WorkBudget { left: None }
        } else {
            WorkBudget { left: Some(queued) }
        }
    }

    /// Uses up a turn; returns false when there is none left.
    pub fn take(&mut self) -> (r: bool)
        ensures
            match old(self).left {
                None => r && final(self).left == None::<usize>,
                Some(k) => r == (k > 0) && final(self).left == Some(if k > 0 { (k - 1) as usize } else { 0 }),
            },
    {
        match self.left {
            None => true,
            Some(k) => {
                if k == 0 {
                    false
                } else {
                    self.left = Some(k - 1);
                    true
                }
            },
        }
    }
}

/// The next turn of a phase of the loop: while the budget lasts, the
/// connection at the front of the queue leaves it for its turn; `None` ends
/// the phase (no turn left, or nothing queued).
pub fn next_turn<T>(queue: &mut std::collections::VecDeque<T>, budget: &mut WorkBudget) -> (r: Option<T>)
    ensures
        match old(budget).left {
            None => final(budget).left == None::<usize>,
            Some(k) => final(budget).left == Some(if k > 0 { (k - 1) as usize } else { 0 }),
        },
        (old(budget).left == Some(0usize) || old(queue)@.len() == 0) ==> r is None && final(queue)@ == old(queue)@,
        !(old(budget).left == Some(0usize) || old(queue)@.len() == 0) ==> r == Some(old(queue)@[0])
            && final(queue)@ == old(queue)@.drop_first(),
{
    if budget.take() {
        let r = queue.pop_front();
        assert(old(queue)@.len() > 0 ==> old(queue)@.subrange(1, old(queue)@.len() as int) =~= old(queue)@.drop_first());
        r
    } else {
        None
    }
}

/// After a connection's turn: when it has more work (`again`), it goes back
/// to the end of the queue and the loop notes that work is pending.
pub fn after_turn<T>(queue: &mut std::collections::VecDeque<T>, state: &mut LoopState, item: T, again: bool)
    ensures
        again ==> final(queue)@ == old(queue)@.push(item) && final(state).pending_writes_or_reads,
        !again ==> final(queue)@ == old(queue)@ && final(state).pending_writes_or_reads == old(state).pending_writes_or_reads,
        final(state).shutdown == old(state).shutdown,
        final(state).max_pending_write == old(state).max_pending_write,
{
    if again {
        state.note_pending();
        queue.push_back(item);
    }
}

/// `rand::Rng::gen_range` on the thread's generator: a number drawn in
/// `0..n`. Only that range is claimed of it.
#[verifier::external_body]
fn random_below(n: usize) -> (r: usize)
    requires
        n > 0,
    ensures
        r < n,
{
    rand::thread_rng().gen_range(0, n)
}

/// Moves the first `k` items of the queue, in order, to its back.
pub fn rotate<T>(q: &mut std::collections::VecDeque<T>, k: usize)
    requires
        k <= old(q)@.len(),
    ensures
        final(q)@ == old(q)@.skip(k as int) + old(q)@.take(k as int),
{
    let mut i: usize = 0;
    assert(old(q)@.skip(0) + old(q)@.take(0) =~= old(q)@);
    while i < k
        invariant
            i <= k,
            k <= old(q)@.len(),
            q@ == old(q)@.skip(i as int) + old(q)@.take(i as int),
        decreases k - i,
    {
        let x = q.pop_front().unwrap();
        q.push_back(x);
        assert(q@ =~= old(q)@.skip(i + 1) + old(q)@.take(i + 1));
        i = i + 1;
    }
}

/// Starts the queue from a connection drawn at random: a random number of
/// items move from its front to its back.
pub fn rotate_randomly<T>(q: &mut std::collections::VecDeque<T>)
    ensures
        exists|k: int| 0 <= k <= old(q)@.len() && final(q)@ == old(q)@.skip(k) + old(q)@.take(k),
        old(q)@.len() > 0 ==> exists|k: int| 0 <= k < old(q)@.len() && final(q)@ == old(q)@.skip(k) + old(q)@.take(k),
{
    let n = q.len();
    if n > 0 {
        let k = random_below(n);
        rotate(q, k);
    } else {
        assert(old(q)@.skip(0) + old(q)@.take(0) =~= old(q)@);
    }
}

} // verus!

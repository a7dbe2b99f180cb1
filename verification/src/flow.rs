//! Messages flowing through a pipe: the pool that owns them, and how a
//! writer batches the messages that refer to a pool into events and ranges.
use vstd::prelude::*;

verus! {

/// Where a flow is: waiting to begin, streaming messages, or ending.
#[derive(Clone, Copy)]
pub enum FlowState {
    Begin,
    Stream,
    End,
}

/// What polling the current stage of a flow gave: not ready yet, ready,
/// failed (when beginning), or a message (when streaming).
#[derive(Clone, Copy)]
pub enum StagePoll {
    Pending,
    Ready,
    Failed,
    Item,
}

/// What polling a flow gives: nothing yet, the stage that completed, or failure.
#[derive(Clone, Copy)]
pub enum FlowPoll {
    Pending,
    Completed(FlowState),
    Failed,
}

/// The next state of a flow and what its poll gives, after polling its
/// current stage: beginning moves on to streaming; streaming goes on while
/// messages come and moves on to ending when they stop; ending stays. A
/// streamed message leaves the poll pending: the flow does not run to its
/// end in one poll, and whoever drives it polls it again for every message.
pub fn flow_step(state: FlowState, poll: StagePoll) -> (r: (FlowState, FlowPoll))
    ensures
        poll is Pending ==> r == (state, FlowPoll::Pending),
        state is Begin && poll is Ready ==> r == (FlowState::Stream, FlowPoll::Completed(FlowState::Begin)),
        state is Begin && poll is Failed ==> r == (state, FlowPoll::Failed),
        state is Stream && poll is Item ==> r == (state, FlowPoll::Pending),
        state is Stream && poll is Ready ==> r == (FlowState::End, FlowPoll::Completed(FlowState::Stream)),
        state is End && poll is Ready ==> r == (state, FlowPoll::Completed(FlowState::End)),
        state is Begin && poll is Item ==> r == (state, FlowPoll::Pending),
        state is Stream && poll is Failed ==> r == (state, FlowPoll::Pending),
        state is End && (poll is Item || poll is Failed) ==> r == (state, FlowPoll::Pending),
{
    match (state, poll) {
        (FlowState::Begin, StagePoll::Ready) => (FlowState::Stream, FlowPoll::Completed(FlowState::Begin)),
        (FlowState::Begin, StagePoll::Failed) => (state, FlowPoll::Failed),
        (FlowState::Stream, StagePoll::Ready) => (FlowState::End, FlowPoll::Completed(FlowState::Stream)),
        (FlowState::End, StagePoll::Ready) => (state, FlowPoll::Completed(FlowState::End)),
        _ => (state, FlowPoll::Pending),
    }
}

/// What a flow future gives after it polled its flow once more.
#[derive(Clone, Copy)]
pub enum FutureStep {
    /// The flow is not ready; poll again later.
    Pending,
    /// A stage completed; poll the flow again now.
    Again,
    /// All three stages completed.
    Done,
    /// The flow failed.
    Failed,
}

/// How many stages of a flow have completed after one more poll of it, and
/// what the future that drives it does next: it is done after the third.
pub fn count_stage(completed: u8, poll: FlowPoll) -> (r: (u8, FutureStep))
    requires
        completed < 3,
    ensures
        poll is Pending ==> r == (completed, FutureStep::Pending),
        poll is Failed ==> r == (completed, FutureStep::Failed),
        poll is Completed ==> r.0 == completed + 1 && (r.0 == 3 ==> r.1 is Done) && (r.0 < 3 ==> r.1 is Again),
{
    match poll {
        FlowPoll::Pending => (completed, FutureStep::Pending),
        FlowPoll::Failed => (completed, FutureStep::Failed),
        FlowPoll::Completed(_) => {
            let n: u8 = completed + 1;
            if n == 3 {
                (n, FutureStep::Done)
            } else {
                (n, FutureStep::Again)
            }
        },
    }
}

/// What a writing flow does while beginning: begin its inner flow first,
/// then wait for its writer to be built.
#[derive(Clone, Copy)]
pub enum BeginStep {
    /// Not ready; poll again later.
    Pending,
    /// The inner flow began; now wait for the writer.
    AwaitWriter,
    /// Ready to stream.
    Ready,
    /// Beginning failed.
    Failed,
}

/// The next step of a writing flow that is beginning, given whether its
/// inner flow has begun, whether a writer is still being built, and what the
/// poll of the inner flow (before it began) or of the writer (after) gave.
pub fn begin_step(inner_begun: bool, building_writer: bool, poll: StagePoll) -> (r: BeginStep)
    ensures
        inner_begun && !building_writer ==> r is Ready,
        (!inner_begun || building_writer) && poll is Pending ==> r is Pending,
        (!inner_begun || building_writer) && poll is Failed ==> r is Failed,
        !inner_begun && (poll is Ready || poll is Item) ==> r is AwaitWriter,
        inner_begun && building_writer && (poll is Ready || poll is Item) ==> r is Ready,
{
    if inner_begun && !building_writer {
        return BeginStep::Ready;
    }
    match poll {
        StagePoll::Pending => BeginStep::Pending,
        StagePoll::Failed => BeginStep::Failed,
        _ => if inner_begun {
            BeginStep::Ready
        } else {
            BeginStep::AwaitWriter
        },
    }
}

/// Whether a writing flow that ends hands the pool of its owned messages to
/// the writer: once, when the messages are owned and the pool holds some.
pub fn writes_pool_at_end(owned: bool, ended: bool, pool_len: usize) -> (b: bool)
    ensures
        b == (owned && !ended && pool_len != 0),
{
    owned && !ended && pool_len != 0
}

/// A batch of messages of one pool handed to a writer: one row, or the rows
/// from `start` up to `end`.
#[derive(Clone, Copy)]
pub enum Batch {
    One { pool: u64, row: u32 },
    Range { pool: u64, start: u32, end: u32 },
}

/// The pool and row of each message of a batch, in order.
pub open spec fn batch_rows(b: Batch) -> Seq<(u64, u32)> {
    match b {
        Batch::One { pool, row } => seq![(pool, row)],
        Batch::Range { pool, start, end } => Seq::new((end - start) as nat, |k: int| (pool, (start + k) as u32)),
    }
}

/// Groups the messages that a writer passes on, which refer to rows of
/// pools, into runs of consecutive rows of one pool. A run is given out only
/// when the next message does not extend it; nothing gives out the run being
/// gathered when the messages stop, so the last run is never written.
pub struct WriteBatcher {
    ref_pool: Option<u64>,
    start: u32,
    current: u32,
}

impl WriteBatcher {
    /// The run being gathered: rows `start` to `current` of the pool.
    pub closed spec fn pending(&self) -> Seq<(u64, u32)> {
        match self.ref_pool {
            None => Seq::empty(),
            Some(q) => Seq::new((self.current - self.start + 1) as nat, |k: int| (q, (self.start + k) as u32)),
        }
    }

    /// The pool of the run being gathered.
    pub closed spec fn pool(&self) -> Option<u64> {
        self.ref_pool
    }

    /// The last row of the run being gathered.
    pub closed spec fn current(&self) -> u32 {
        self.current
    }

    /// The run starts no later than it ends.
    pub closed spec fn wf(&self) -> bool {
        self.start <= self.current
    }

    /// A message of `pool` can be taken without a row count past the largest row.
    pub open spec fn can_take(&self, pool: Option<u64>) -> bool {
        match (self.pool(), pool) {
            (Some(q), Some(p)) => self.current() < u32::MAX || (q != p && self.pending().len() == 1),
            _ => true,
        }
    }

    pub fn new() -> (b: Self)
        ensures
            b.wf(),
            b.pending() == Seq::<(u64, u32)>::empty(),
            b.pool() is None,
    {
        WriteBatcher { ref_pool: None, start: 0, current: 0 }
    }

    /// The run being gathered, as a batch.
    fn flush(&self, q: u64) -> (b: Batch)
        requires
            self.wf(),
            self.ref_pool == Some(q),
            self.start == self.current || self.current < u32::MAX,
        ensures
            batch_rows(b) == self.pending(),
            b is One <==> self.pending().len() == 1,
    {
        if self.current - self.start == 0 {
            let b = Batch::One { pool: q, row: self.current };
            assert(batch_rows(b) =~= self.pending());
            b
        } else {
            let b = Batch::Range { pool: q, start: self.start, end: self.current + 1 };
            assert(batch_rows(b) =~= self.pending());
            b
        }
    }

    /// Takes the next message: an owned one (no pool) changes nothing; one
    /// that refers to row `id` of `pool` extends the run when it is the next
    /// row of the same pool, and otherwise starts a new run, giving the
    /// finished run as a batch: a single row as `One`, longer runs as `Range`. Nothing is lost or repeated: the rows given
    /// and the run being gathered are the rows of before and the new one.
    pub fn next(&mut self, pool: Option<u64>, id: u32) -> (out: Option<Batch>)
        requires
            old(self).wf(),
            old(self).can_take(pool),
        ensures
            final(self).wf(),
            pool is None ==> out is None && final(self).pending() == old(self).pending()
                && final(self).pool() == old(self).pool(),
            pool matches Some(p) ==> {
                &&& final(self).pool() == Some(p)
                &&& final(self).current() == id
                &&& match out {
                    None => final(self).pending() == old(self).pending().push((p, id)),
                    Some(b) => batch_rows(b) + final(self).pending() == old(self).pending().push((p, id))
                        && batch_rows(b) == old(self).pending() && final(self).pending() == seq![(p, id)],
                }
            },
            out is Some <==> (pool is Some && old(self).pool() is Some && (old(self).pool() != pool
                || old(self).current() + 1 != id)),
            out matches Some(b) ==> (b is One <==> old(self).pending().len() == 1),
    {
        let p: u64 = match pool {
            None => return None,
            Some(p) => p,
        };
        match self.ref_pool {
            None => {
                self.ref_pool = Some(p);
                self.start = id;
                self.current = id;
                assert(self.pending() =~= seq![(p, id)]);
                assert(old(self).pending().push((p, id)) =~= seq![(p, id)]);
                None
            },
            Some(q) => {
                if q == p && self.current + 1 == id {
                    self.current = id;
                    assert(self.pending() =~= old(self).pending().push((p, id)));
                    None
                } else {
                    let b = self.flush(q);
                    self.ref_pool = Some(p);
                    self.start = id;
                    self.current = id;
                    assert(self.pending() =~= seq![(p, id)]);
                    assert(batch_rows(b) + self.pending() =~= old(self).pending().push((p, id)));
                    Some(b)
                }
            },
        }
    }
}

/// The values of one kind of message that a stage of a pipe produced, by row.
pub struct DefaultPool<E>(pub Vec<E>);

/// A message that refers to a row of a pool.
#[derive(Clone, Copy)]
pub struct DefaultMessage {
    pub id: u32,
}

/// A message that owns its value.
pub struct DefaultOwnedMessage<E> {
    pub value: E,
}

impl<E> DefaultPool<E> {
    pub fn new() -> (p: Self)
        ensures
            p.0@ == Seq::<E>::empty(),
    {
        DefaultPool(Vec::new())
    }

    /// Adds a value as the last row.
    pub fn push(&mut self, value: E)
        ensures
            final(self).0@ == old(self).0@.push(value),
    {
        self.0.push(value)
    }

    pub fn len(&self) -> (n: usize)
        ensures
            n == self.0@.len(),
    {
        self.0.len()
    }

    /// Empties the pool so that it can be used again.
    pub fn reset(&mut self)
        ensures
            final(self).0@ == Seq::<E>::empty(),
    {
        self.0.clear()
    }

    /// The message that refers to row `at`.
    pub fn at(&self, at: u32) -> (m: DefaultMessage)
        ensures
            m.id == at,
    {
        DefaultMessage { id: at }
    }

    /// The value of the message's row.
    pub fn get(&self, m: &DefaultMessage) -> (v: &E)
        requires
            m.id < self.0@.len(),
        ensures
            *v == self.0@[m.id as int],
    {
        &self.0[m.id as usize]
    }
}

impl DefaultMessage {
    /// A message owning what `f` makes of the value of the message's row.
    pub fn map<E, O, F: Fn(&E) -> O>(self, pool: &DefaultPool<E>, f: F) -> (r: DefaultOwnedMessage<O>)
        requires
            self.id < pool.0@.len(),
            f.requires((&pool.0@[self.id as int],)),
        ensures
            f.ensures((&pool.0@[self.id as int],), r.value),
    {
        let value = f(&pool.0[self.id as usize]);
        DefaultOwnedMessage { value }
    }
}

impl<E> DefaultOwnedMessage<E> {
    pub fn new(value: E) -> (m: Self)
        ensures
            m.value == value,
    {
        DefaultOwnedMessage { value }
    }

    /// A message owning what `f` makes of this one's value.
    pub fn map<O, F: Fn(E) -> O>(self, f: F) -> (r: DefaultOwnedMessage<O>)
        requires
            f.requires((self.value,)),
        ensures
            f.ensures((self.value,), r.value),
    {
        DefaultOwnedMessage { value: f(self.value) }
    }

    /// Moves the value into the pool as its last row and refers to that row.
    pub fn into_pooled(self, pool: &mut DefaultPool<E>) -> (m: DefaultMessage)
        requires
            old(pool).0@.len() < u32::MAX,
        ensures
            final(pool).0@ == old(pool).0@.push(self.value),
            m.id == old(pool).0@.len(),
    {
        pool.0.push(self.value);
        let n: usize = pool.0.len();
        DefaultMessage { id: (n - 1) as u32 }
    }
}

} // verus!

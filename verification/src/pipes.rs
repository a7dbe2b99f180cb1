//! The shapes of pipes and of the messages that flow between them: pipe
//! containers and factories, topic handles, and acknowledged and traced messages.
use vstd::prelude::*;
use std::marker::PhantomData;
use bevy_ecs::entity::Entity;

verus! {

/// A pipe function with its parameters' state.
pub struct PipeContainer<F, Params, State, Out> {
    pub state: State,
    pub f: F,
    pub _t: PhantomData<(Params, Out)>,
}

impl<F, Params, State, Out> PipeContainer<F, Params, State, Out> {
    pub fn new(f: F, state: State) -> (c: Self)
        ensures
            c.f == f,
            c.state == state,
    {
        PipeContainer { state, f, _t: PhantomData }
    }
}

/// Makes async pipes from a pipe function.
pub struct AsyncPipeFactory<Params, F, Fut, Out> {
    pub f: F,
    pub _params: PhantomData<Params>,
    pub _fut: PhantomData<Fut>,
    pub _out: PhantomData<Out>,
}

impl<Params, F, Fut, Out> AsyncPipeFactory<Params, F, Fut, Out> {
    pub fn new(f: F) -> (p: Self)
        ensures
            p.f == f,
    {
        AsyncPipeFactory { f, _params: PhantomData, _fut: PhantomData, _out: PhantomData }
    }
}

/// Marks pipe functions that run on the async runtime.
pub struct AsyncPipeMarker;

/// A pipe function that runs as a system.
pub struct SystemPipe<F, Params, Out> {
    pub f: F,
    pub _t: PhantomData<(Params, Out)>,
}

/// Parameters of pipes that a system fetches.
pub trait PipeBevyFetch {
}

/// Something that provides topics.
pub trait TopicProvider {
}

/// Reads a topic from a system.
pub struct SystemReader<'w, 's, T> {
    pub _t: PhantomData<&'w ()>,
    pub _t2: PhantomData<&'s ()>,
    pub _t3: PhantomData<T>,
}

/// Writes a topic from a system.
pub struct SystemWriter<'w, 's, T> {
    pub _t: PhantomData<&'w ()>,
    pub _t2: PhantomData<&'s ()>,
    pub _t3: PhantomData<T>,
}

/// Reads a topic from a system, looking ahead without consuming.
pub struct PeekableSystemReader<'w, 's, T> {
    pub _t: PhantomData<&'w ()>,
    pub _t2: PhantomData<&'s ()>,
    pub _t3: PhantomData<T>,
}

/// Writes a topic from a system, looking at what was written.
pub struct PeekableSystemWriter<'w, 's, T> {
    pub _t: PhantomData<&'w ()>,
    pub _t2: PhantomData<&'s ()>,
    pub _t3: PhantomData<T>,
}

/// Reads a topic from an async pipe, looking ahead without consuming.
pub struct PeekableAsyncReader<'w, 's, T> {
    pub _t: PhantomData<&'w ()>,
    pub _t2: PhantomData<&'s ()>,
    pub _t3: PhantomData<T>,
}

/// Writes a topic from an async pipe, looking at what was written.
pub struct PeekableAsyncWriter<'w, 's, T> {
    pub _t: PhantomData<&'w ()>,
    pub _t2: PhantomData<&'s ()>,
    pub _t3: PhantomData<T>,
}

/// A topic that stands in for a real one.
pub struct Dummy<T>(pub PhantomData<T>);

impl<T> Default for Dummy<T> {
    fn default() -> (d: Self)
        ensures
            d == Dummy::<T>(PhantomData),
    {
        Dummy(PhantomData)
    }
}

/// The reader state of a dummy topic.
pub struct DummyReader<T>(pub PhantomData<T>);

/// The writer state of a dummy topic.
pub struct DummyWriter<T>(pub PhantomData<T>);

/// Turns a value into what a pusher finally gives.
pub trait Finalize<T> {
    type Output;

    fn from(other: T) -> Self::Output;
}

/// A pusher that shows each item it passes on.
pub struct DebugPusher<P> {
    pub p: P,
}

/// Why a writer cannot take a value.
pub enum WriterError {
    NotReady,
}

/// A value that can be split into a tuple.
pub trait EventValue {
    type Tuple;

    fn into_tuple(self) -> Self::Tuple;
}

/// Fetches the default pool of a message.
pub struct DefaultPoolFetcher;

/// A message of a topic to acknowledge once it is handled.
#[derive(Clone, Copy)]
pub struct AckData {
    pub topic: Entity,
    pub message_id: u32,
    pub generation: u32,
}

/// A message with the acknowledgements it owes.
pub struct AckedMessage<T> {
    pub inner: T,
    pub acks: Vec<AckData>,
}

/// A message that owes acknowledgements or not.
pub enum MaybeAckedMessage<T> {
    Plain(T),
    Acked(AckedMessage<T>),
}

/// Where a message was produced.
#[derive(Clone, Copy)]
pub struct TraceData {
    pub pipeline: Entity,
    pub pipe: Entity,
    pub topic: Entity,
    pub produced_ts: i64,
    pub param_pos: u8,
}

/// One step of a message's path: from one message, or joined from several.
pub enum TraceEntry {
    Single(TraceData),
    Join(Vec<TraceData>),
}

/// Names a parameter of a pipe.
pub trait PipeParamName {
    fn name(&self) -> String;
}

/// A message with the path it took.
pub struct TracedMessage<T> {
    pub inner: T,
    pub path: Vec<TraceEntry>,
}

/// A message that is traced or not.
pub enum MaybeTracedMessage<T> {
    Plain(T),
    Traced(TracedMessage<T>),
}

/// A branch of a pipe graph that carries items of a type.
pub struct Branch<Item> {
    pub _t: PhantomData<Item>,
}

/// Takes four types and does nothing with them.
pub fn big<A, B, C, D>() {
}

} // verus!

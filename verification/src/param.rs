//! Pipe parameters: which topic each parameter of a pipe reads or writes,
//! what a parameter asks of the executor after a run, and errors.
use vstd::prelude::*;
use bevy_ecs::entity::Entity;
use crate::topic::AsyncTopicInner;

verus! {

/// anyhow's `Error`, carried through as an opaque value.
#[verifier::external_type_specification]
#[verifier::external_body]
pub struct ExAnyError(anyhow::Error);

/// The topic a parameter of a pipe reads or writes.
#[derive(Clone, Copy)]
pub enum TopicParam {
    Reader(Entity),
    Writer(Entity),
}

/// Whether a parameter of a pipe reads a topic, writes one, or neither.
#[derive(Clone, Copy)]
pub enum TopicParamKind {
    NoTopic,
    Reader,
    Writer,
}

/// Why the parameters of a pipe cannot be built.
pub enum PipeParamError {
    /// The parameter at this position, of this type, has no topic to use.
    InvalidPipeParam(usize, String),
    /// The pipe is to be despawned.
    Despawn,
    /// Building a parameter failed.
    Other(anyhow::Error),
}

/// `Entity::from_raw`, which gives the entity with the given id in
/// generation zero. `Entity` is opaque here, so nothing is claimed of the
/// result.
#[verifier::external_body]
fn entity_from_raw(id: u32) -> Entity {
    Entity::from_raw(id)
}

/// The topic that a parameter of this kind stands for before it is given
/// one: none, or a reader or writer of a placeholder entity.
pub fn topic_param(kind: TopicParamKind) -> (r: Option<TopicParam>)
    ensures
        kind is NoTopic <==> r is None,
        kind is Reader <==> r matches Some(TopicParam::Reader(_)),
        kind is Writer <==> r matches Some(TopicParam::Writer(_)),
{
    match kind {
        TopicParamKind::NoTopic => None,
        TopicParamKind::Reader => Some(TopicParam::Reader(entity_from_raw(u32::MAX))),
        TopicParamKind::Writer => Some(TopicParam::Writer(entity_from_raw(u32::MAX))),
    }
}

/// What a parameter of a pipe is built from: the pipe, the topic given to it,
/// its position, its parsed arguments, and the kind of topic it was declared with.
pub struct ParamBuilder<Args> {
    pub pipe_id: Entity,
    pub topic: Option<TopicParam>,
    pub arg_i: usize,
    pub args: Option<Result<Args, anyhow::Error>>,
    pub defined_param_kind: TopicParamKind,
}

impl<Args> ParamBuilder<Args> {
    pub fn new(
        pipe_id: Entity,
        arg_i: usize,
        topic: Option<TopicParam>,
        args: Result<Args, anyhow::Error>,
        defined_param_kind: TopicParamKind,
    ) -> (b: Self)
        ensures
            b.pipe_id == pipe_id,
            b.arg_i == arg_i,
            b.topic == topic,
            b.args == Some(args),
            b.defined_param_kind == defined_param_kind,
    {
        ParamBuilder { pipe_id, topic, arg_i, args: Some(args), defined_param_kind }
    }

    /// The pipe whose parameter is built.
    pub fn entity(&self) -> (e: Entity)
        ensures
            e == self.pipe_id,
    {
        self.pipe_id
    }

    /// The topic the parameter uses: the reader or writer it was given when it
    /// was declared as one; otherwise the parameter is invalid.
    pub fn get_topic_id(&self, reader_name: &str) -> (r: Result<Entity, PipeParamError>)
        ensures
            match (self.defined_param_kind, self.topic) {
                (TopicParamKind::Reader, Some(TopicParam::Reader(id))) => r == Ok::<Entity, PipeParamError>(id),
                (TopicParamKind::Writer, Some(TopicParam::Writer(id))) => r == Ok::<Entity, PipeParamError>(id),
                _ => r matches Err(PipeParamError::InvalidPipeParam(i, name)) && i == self.arg_i && name@ == reader_name@,
            },
    {
        match self.defined_param_kind {
            TopicParamKind::NoTopic => Err(PipeParamError::InvalidPipeParam(self.arg_i, reader_name.to_owned())),
            TopicParamKind::Reader => match self.topic {
                Some(TopicParam::Reader(id)) => Ok(id),
                _ => Err(PipeParamError::InvalidPipeParam(self.arg_i, reader_name.to_owned())),
            },
            TopicParamKind::Writer => match self.topic {
                Some(TopicParam::Writer(id)) => Ok(id),
                _ => Err(PipeParamError::InvalidPipeParam(self.arg_i, reader_name.to_owned())),
            },
        }
    }

    /// Takes the parsed arguments; they can be taken once.
    pub fn args(&mut self) -> (a: Result<Args, anyhow::Error>)
        requires
            old(self).args is Some,
        ensures
            Some(a) == old(self).args,
            final(self).args is None,
            final(self).pipe_id == old(self).pipe_id,
            final(self).topic == old(self).topic,
            final(self).arg_i == old(self).arg_i,
            final(self).defined_param_kind == old(self).defined_param_kind,
    {
        self.args.take().unwrap()
    }
}

/// Gives the next parameter its topic: a reader parameter the next reader
/// topic, a writer parameter the next writer topic, another none; the
/// counters move past what was given, and the position past the parameter.
/// When the topics of its kind have run out, the parameter is invalid and
/// nothing moves.
pub fn build_param(
    defined_kind: TopicParamKind,
    reader_topics: &Vec<Entity>,
    writer_topics: &Vec<Entity>,
    arg_i: &mut usize,
    writer_i: &mut usize,
    reader_i: &mut usize,
    param_type: &str,
) -> (r: Result<Option<TopicParam>, PipeParamError>)
    requires
        *old(arg_i) < usize::MAX,
    ensures
        match defined_kind {
            TopicParamKind::NoTopic => r == Ok::<Option<TopicParam>, PipeParamError>(None)
                && *final(reader_i) == *old(reader_i) && *final(writer_i) == *old(writer_i)
                && *final(arg_i) == *old(arg_i) + 1,
            TopicParamKind::Reader => if *old(reader_i) < reader_topics@.len() {
                &&& r == Ok::<Option<TopicParam>, PipeParamError>(Some(TopicParam::Reader(reader_topics@[*old(reader_i) as int])))
                &&& *final(reader_i) == *old(reader_i) + 1
                &&& *final(writer_i) == *old(writer_i)
                &&& *final(arg_i) == *old(arg_i) + 1
            } else {
                &&& r matches Err(PipeParamError::InvalidPipeParam(i, name)) && i == *old(arg_i) && name@ == param_type@
                &&& *final(reader_i) == *old(reader_i) && *final(writer_i) == *old(writer_i)
                &&& *final(arg_i) == *old(arg_i)
            },
            TopicParamKind::Writer => if *old(writer_i) < writer_topics@.len() {
                &&& r == Ok::<Option<TopicParam>, PipeParamError>(Some(TopicParam::Writer(writer_topics@[*old(writer_i) as int])))
                &&& *final(writer_i) == *old(writer_i) + 1
                &&& *final(reader_i) == *old(reader_i)
                &&& *final(arg_i) == *old(arg_i) + 1
            } else {
                &&& r matches Err(PipeParamError::InvalidPipeParam(i, name)) && i == *old(arg_i) && name@ == param_type@
                &&& *final(reader_i) == *old(reader_i) && *final(writer_i) == *old(writer_i)
                &&& *final(arg_i) == *old(arg_i)
            },
        },
{
    let topic = match defined_kind {
        TopicParamKind::Reader => {
            if *reader_i >= reader_topics.len() {
                return Err(PipeParamError::InvalidPipeParam(*arg_i, param_type.to_owned()));
            }
            let id = reader_topics[*reader_i];
            *reader_i = *reader_i + 1;
            Some(TopicParam::Reader(id))
        },
        TopicParamKind::Writer => {
            if *writer_i >= writer_topics.len() {
                return Err(PipeParamError::InvalidPipeParam(*arg_i, param_type.to_owned()));
            }
            let id = writer_topics[*writer_i];
            *writer_i = *writer_i + 1;
            Some(TopicParam::Writer(id))
        },
        TopicParamKind::NoTopic => None,
    };
    *arg_i = *arg_i + 1;
    Ok(topic)
}

/// What a pipe asks of the executor after a run: to despawn it, to skip the
/// run's output, or both.
#[derive(Clone, Copy)]
pub struct ControlFlow {
    pub bits: u32,
}

impl ControlFlow {
    /// Neither despawn nor skip.
    pub fn empty() -> (f: Self)
        ensures
            f.bits == 0,
    {
        ControlFlow { bits: 0 }
    }

    /// Despawn the pipe.
    pub fn despawn() -> (f: Self)
        ensures
            f.bits == 1,
    {
        ControlFlow { bits: 1 }
    }

    /// Skip what the run produced.
    pub fn skip() -> (f: Self)
        ensures
            f.bits == 2,
    {
        ControlFlow { bits: 2 }
    }

    /// Everything either flow asks.
    pub fn union(self, other: Self) -> (f: Self)
        ensures
            f.bits == self.bits | other.bits,
    {
        ControlFlow { bits: self.bits | other.bits }
    }

    /// Whether this flow asks everything `other` asks.
    pub fn contains(self, other: Self) -> (b: bool)
        ensures
            b == (self.bits & other.bits == other.bits),
    {
        self.bits & other.bits == other.bits
    }
}

/// Everything the flows ask, one after another from none.
pub open spec fn union_all(flows: Seq<ControlFlow>) -> u32
    decreases flows.len(),
{
    if flows.len() == 0 {
        0
    } else {
        union_all(flows.drop_last()) | flows.last().bits
    }
}

/// What the parameters of a pipe ask together after a run.
pub fn combine_flows(flows: &Vec<ControlFlow>) -> (f: ControlFlow)
    ensures
        f.bits == union_all(flows@),
{
    let mut f = ControlFlow::empty();
    let mut i: usize = 0;
    while i < flows.len()
        invariant
            i <= flows@.len(),
            f.bits == union_all(flows@.take(i as int)),
        decreases flows@.len() - i,
    {
        proof {
            assert(flows@.take(i + 1).drop_last() =~= flows@.take(i as int));
        }
        f = f.union(flows[i]);
        i = i + 1;
    }
    proof {
        assert(flows@.take(i as int) =~= flows@);
    }
    f
}

/// `anyhow::Error::context`, which wraps an error with a description of what
/// was being done. The wrapped error is opaque here, so nothing is claimed of
/// the result.
#[verifier::external_body]
fn error_with_context(error: anyhow::Error, context: String) -> anyhow::Error {
    error.context(context)
}

/// An error that a pipe of a pipeline reported.
pub struct ErrorEvent {
    pub error: anyhow::Error,
    pub pipeline_id: Entity,
}

/// Where a pipe reports its errors: the errors topic of its pipeline, and
/// whether they are also logged as they come.
pub struct ErrorsState {
    pub pipeline_id: Entity,
    pub log: bool,
}

impl ErrorsState {
    /// The value of a success; a failure is written to the errors topic for
    /// this state's pipeline instead.
    pub fn handle<T>(&self, result: Result<T, anyhow::Error>, topic: &mut AsyncTopicInner<ErrorEvent>) -> (r: Option<T>)
        requires
            old(topic).wf(),
        ensures
            final(topic).wf(),
            result matches Ok(v) ==> r == Some(v) && *final(topic) == *old(topic),
            result matches Err(e) ==> r is None && final(topic).buffers().pending() == old(topic).buffers().pending().push(
                ErrorEvent { error: e, pipeline_id: self.pipeline_id },
            ) && final(topic).buffers().published() == old(topic).buffers().published()
                && final(topic).buffers().cursors() == old(topic).buffers().cursors(),
    {
        self.handle_with(result, self.pipeline_id, topic)
    }

    /// The value of a success; a failure, described by `context`, is written
    /// to the errors topic for this state's pipeline instead.
    pub fn handle_context<T>(
        &self,
        result: Result<T, anyhow::Error>,
        context: String,
        topic: &mut AsyncTopicInner<ErrorEvent>,
    ) -> (r: Option<T>)
        requires
            old(topic).wf(),
        ensures
            final(topic).wf(),
            result matches Ok(v) ==> r == Some(v) && *final(topic) == *old(topic),
            result is Err ==> {
                &&& r is None
                &&& final(topic).buffers().pending().len() == old(topic).buffers().pending().len() + 1
                &&& final(topic).buffers().pending().drop_last() == old(topic).buffers().pending()
                &&& final(topic).buffers().pending().last().pipeline_id == self.pipeline_id
                &&& final(topic).buffers().published() == old(topic).buffers().published()
                &&& final(topic).buffers().cursors() == old(topic).buffers().cursors()
            },
    {
        match result {
            Ok(v) => Some(v),
            Err(e) => {
                let error = error_with_context(e, context);
                topic.write(ErrorEvent { error, pipeline_id: self.pipeline_id });
                None
            },
        }
    }

    /// The value of a success; a failure is written to the errors topic for
    /// the given pipeline instead.
    pub fn handle_with<T>(
        &self,
        result: Result<T, anyhow::Error>,
        pipeline_id: Entity,
        topic: &mut AsyncTopicInner<ErrorEvent>,
    ) -> (r: Option<T>)
        requires
            old(topic).wf(),
        ensures
            final(topic).wf(),
            result matches Ok(v) ==> r == Some(v) && *final(topic) == *old(topic),
            result matches Err(e) ==> r is None && final(topic).buffers().pending() == old(topic).buffers().pending().push(
                ErrorEvent { error: e, pipeline_id },
            ) && final(topic).buffers().published() == old(topic).buffers().published()
                && final(topic).buffers().cursors() == old(topic).buffers().cursors(),
    {
        match result {
            Ok(v) => Some(v),
            Err(e) => {
                topic.write(ErrorEvent { error: e, pipeline_id });
                None
            },
        }
    }
}

} // verus!

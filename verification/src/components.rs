//! Components attached to the entities of pipes, topics and pipelines.
use vstd::prelude::*;
use std::sync::Arc;
use std::sync::atomic::AtomicBool;
use vstd::string::StringExecFns;
use bevy_ecs::entity::Entity;

verus! {

/// The name of a pipe, topic or pipeline.
pub struct Name(pub String);

/// How many times a pipeline was respawned.
pub struct Generation(pub u64);

/// Marks a topic entity that a pipe reads.
pub struct IsReader;

/// Marks a topic entity that a pipe writes.
pub struct IsWriter;

/// A flag that a pipe raises when it is to be despawned.
pub struct ShouldDespawn(pub Arc<AtomicBool>);

/// Shared data held as a component.
pub struct Arcc<T>(pub Arc<T>);

impl<T> Arcc<T> {
    /// Shares `data`.
    pub fn new(data: T) -> (a: Self)
        ensures
            *a.0 == data,
    {
        Arcc(Arc::new(data))
    }

    /// The shared data.
    pub fn get(&self) -> (d: &T)
        ensures
            *d == *self.0,
    {
        &*self.0
    }
}

/// The entity that holds the framework's global components.
#[derive(Clone, Copy)]
pub struct GlobalEntity(pub Entity);

/// Helpers on something that stands for an entity.
pub trait EntityExt {
    /// The entity.
    fn id(&self) -> Entity;

    /// The value of a lookup of one of the entity's components, which must
    /// have found it.
    fn expect<C, R, E>(&self, result: Result<R, E>) -> R
        requires
            result is Ok,
    ;
}

impl EntityExt for GlobalEntity {
    fn id(&self) -> (e: Entity)
        ensures
            e == self.0,
    {
        self.0
    }

    fn expect<C, R, E>(&self, result: Result<R, E>) -> (r: R)
        ensures
            result == Ok::<R, E>(r),
    {
        result.ok().unwrap()
    }
}

impl EntityExt for Entity {
    fn id(&self) -> (e: Entity)
        ensures
            e == *self,
    {
        *self
    }

    fn expect<C, R, E>(&self, result: Result<R, E>) -> (r: R)
        ensures
            result == Ok::<R, E>(r),
    {
        result.ok().unwrap()
    }
}

/// How an entity's name reads in a message: nothing when it has no name,
/// else "with name" and the name in backquotes.
pub fn display_entity_name(name: &Option<String>) -> (s: String)
    ensures
        name is None ==> s@ == Seq::<char>::empty(),
        name matches Some(n) ==> s@ == "with name `"@ + n@ + "`"@,
{
    match name {
        None => String::new(),
        Some(n) => {
            let mut s = String::new();
            s.append("with name `");
            s.append(n.as_str());
            s.append("`");
            s
        },
    }
}

} // verus!

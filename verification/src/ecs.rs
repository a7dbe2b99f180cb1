//! Storage and scheduling types of the entity-component executor.
use vstd::prelude::*;
use bevy_ecs::entity::Entity;

verus! {

/// bevy's `Entity`, carried through as an opaque value.
#[verifier::external_type_specification]
#[verifier::external_body]
pub struct ExEntity(bevy_ecs::entity::Entity);

/// A vector whose slots may be empty.
pub struct SparseVec<T>(Vec<Option<T>>);

impl<T> View for SparseVec<T> {
    type V = Seq<Option<T>>;

    closed spec fn view(&self) -> Seq<Option<T>> {
        self.0@
    }
}

impl<T> SparseVec<T> {
    pub fn new() -> (v: Self)
        ensures
            v@ == Seq::<Option<T>>::empty(),
    {
        SparseVec(Vec::new())
    }

    /// An empty vector with room for `capacity` slots.
    pub fn with_capacity(capacity: usize) -> (v: Self)
        ensures
            v@ == Seq::<Option<T>>::empty(),
    {
        SparseVec(Vec::with_capacity(capacity))
    }

    /// The value in slot `index`; `None` when the slot is empty or out of range.
    pub fn get(&self, index: usize) -> (r: Option<&T>)
        ensures
            index < self@.len() && self@[index as int] is Some ==> r == Some(&self@[index as int]->0),
            !(index < self@.len() && self@[index as int] is Some) ==> r is None,
    {
        if index < self.0.len() {
            self.0[index].as_ref()
        } else {
            None
        }
    }
}

/// Runs the systems of the worlds of a universe.
pub struct ParallelExecutor {}

impl ParallelExecutor {
    /// Runs one pass over the worlds; no system is registered, so the worlds stay as they are.
    pub fn run<W>(&mut self, worlds: &mut SparseVec<W>)
        ensures
            final(worlds)@ == old(worlds)@,
    {
    }
}

/// A set of worlds and the executor that runs them.
pub struct Universe<W> {
    pub worlds: SparseVec<W>,
    pub executor: Option<ParallelExecutor>,
}

impl<W> Universe<W> {
    /// Runs the executor over the worlds; a universe needs an executor to run.
    pub fn run(&mut self)
        requires
            old(self).executor is Some,
        ensures
            final(self).worlds@ == old(self).worlds@,
            final(self).executor is Some,
    {
        match &mut self.executor {
            None => {},
            Some(executor) => {
                executor.run(&mut self.worlds);
            },
        }
    }
}

/// A change of an archetype that systems listening to it are told about.
pub struct Notification {
    pub archetype_id: usize,
}

/// Entities to spawn when the commands are applied.
pub struct SpawnEntity(pub Vec<Entity>);

/// Entities to spawn unless they exist when the commands are applied.
pub struct GetOrSpawnEntity(pub Vec<Entity>);

/// An entity to despawn when the commands are applied.
pub struct Despawn(pub Entity);

impl SpawnEntity {
    pub fn push(&mut self, entity: Entity)
        ensures
            final(self).0@ == old(self).0@.push(entity),
    {
        self.0.push(entity);
    }
}

impl GetOrSpawnEntity {
    pub fn push(&mut self, entity: Entity)
        ensures
            final(self).0@ == old(self).0@.push(entity),
    {
        self.0.push(entity);
    }
}

/// Bundles to spawn when the commands are applied.
pub struct SpawnBundle<C>(pub Vec<C>);

/// Components to insert when the commands are applied.
pub struct Insert<C>(pub Vec<C>);

/// Bundles to insert when the commands are applied.
pub struct InsertBundle<C>(pub Vec<C>);

/// A bundle to remove from an entity, with what removes it.
pub struct RemoveBundle<F>(pub Entity, pub F);

/// A component to remove from an entity, with what removes it.
pub struct Remove<F>(pub Entity, pub F);

/// Batches of entities to spawn when the commands are applied.
pub struct SpawnBatch<C>(pub Vec<C>);

/// Batches of entities to insert into or spawn when the commands are applied.
pub struct InsertOrSpawnBatch<C>(pub Vec<C>);

/// Resources to initialize when the commands are applied.
pub struct InitResource<F>(pub Vec<F>);

/// Resources to remove when the commands are applied.
pub struct RemoveResource<F>(pub Vec<F>);

impl<C> SpawnBundle<C> {
    /// Takes a bundle to spawn; bundles are not recorded yet, so nothing changes.
    pub fn push<T>(&mut self, bundle: T)
        ensures
            final(self).0@ == old(self).0@,
    {
    }
}

/// A command on a world.
pub enum WorldCommand<C> {
    Spawn(Entity),
    GetOrSpawn(Entity),
    Dyn(C),
}

/// A command that applies itself to a world.
pub trait DynWorldCommand<W> {
    fn apply(self, world: &mut W);
}

/// How a system runs: to completion on a worker, or as a future.
pub enum SystemKind {
    Compute,
    Async,
}

/// A system waiting in the queue for its access, with the generation it was queued in.
#[derive(Clone, Copy)]
pub struct SystemToRun {
    pub generation: usize,
    pub id: usize,
}

/// A system and the systems linked to it, stored back to back in
/// `linked_systems`: first those that depend on it, then those it notifies,
/// then the earlier systems whose access overlaps ambiguously with it.
pub struct SystemData<S> {
    pub system_kind: SystemKind,
    pub system: S,
    pub n_dependants: usize,
    pub n_notify_systems: usize,
    pub n_recurisve_prev_jobs_with_ambigous_access: usize,
    pub linked_systems: Vec<usize>,
}

impl<S> SystemData<S> {
    /// The three groups fit in `linked_systems`.
    pub open spec fn wf(&self) -> bool {
        self.n_dependants + self.n_notify_systems + self.n_recurisve_prev_jobs_with_ambigous_access
            <= self.linked_systems@.len()
    }

    /// The ids of the systems that wait for this one.
    pub open spec fn dependants(&self) -> Seq<usize> {
        self.linked_systems@.subrange(0, self.n_dependants as int)
    }

    /// The ids of the systems to schedule whenever this one finishes.
    pub open spec fn notified(&self) -> Seq<usize> {
        self.linked_systems@.subrange(self.n_dependants as int, self.n_dependants + self.n_notify_systems)
    }

    /// The ids of the earlier systems whose access overlaps ambiguously with this one.
    pub open spec fn ambiguous(&self) -> Seq<usize> {
        self.linked_systems@.subrange(
            self.n_dependants + self.n_notify_systems,
            self.n_dependants + self.n_notify_systems + self.n_recurisve_prev_jobs_with_ambigous_access,
        )
    }

    /// The systems that wait for this one.
    pub fn dependant_systems(&self) -> (ids: &[usize])
        requires
            self.wf(),
        ensures
            ids@ == self.dependants(),
    {
        vstd::slice::slice_subrange(self.linked_systems.as_slice(), 0, self.n_dependants)
    }

    /// The systems to schedule whenever this one finishes.
    pub fn notify_systems(&self) -> (ids: &[usize])
        requires
            self.wf(),
        ensures
            ids@ == self.notified(),
    {
        proof {
            assert(self.linked_systems.len() == self.linked_systems@.len());
        }
        let start: usize = self.n_dependants;
        vstd::slice::slice_subrange(self.linked_systems.as_slice(), start, start + self.n_notify_systems)
    }

    /// The earlier systems whose access overlaps ambiguously with this one.
    pub fn recurisve_prev_jobs_with_ambigous_access(&self) -> (ids: &[usize])
        requires
            self.wf(),
        ensures
            ids@ == self.ambiguous(),
    {
        proof {
            assert(self.linked_systems.len() == self.linked_systems@.len());
        }
        let start: usize = self.n_dependants + self.n_notify_systems;
        vstd::slice::slice_subrange(
            self.linked_systems.as_slice(),
            start,
            start + self.n_recurisve_prev_jobs_with_ambigous_access,
        )
    }

    /// How many finished systems this one waits for before it may run again.
    pub fn max_position(&self) -> (p: usize)
        requires
            self.n_dependants + self.n_recurisve_prev_jobs_with_ambigous_access <= usize::MAX,
        ensures
            p == self.n_dependants + self.n_recurisve_prev_jobs_with_ambigous_access,
    {
        self.n_dependants + self.n_recurisve_prev_jobs_with_ambigous_access
    }
}

} // verus!

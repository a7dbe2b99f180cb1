use zmaxion::pipes::big;
use bevy_ecs::entity::Entity;
use std::marker::PhantomData;
use zmaxion::components::{
    display_entity_name, Arcc, EntityExt, Generation, GlobalEntity, IsReader, IsWriter, Name, ShouldDespawn,
};
use zmaxion::ecs::{
    GetOrSpawnEntity, ParallelExecutor, SparseVec, SpawnBundle, SpawnEntity, SystemData, SystemKind, Universe,
};
use zmaxion::ergnomics::{NoneError, OptionExt, ResultExt, StaticSize};
use zmaxion::pipes::{AsyncPipeFactory, Dummy, PipeContainer};
use zmaxion::text::{chars_of, contains, find_char, le_chars, rfind_char, slice_chars, sort_by_chars, string_of};

#[test]
fn characters_are_searched_and_sliced() {
    let hay = chars_of("TopicReader<'a,E>");
    assert!(contains(&hay, &chars_of("Reader<")));
    assert!(!contains(&hay, &chars_of("Writer")));
    assert!(contains(&hay, &chars_of("")));
    assert!(!contains(&chars_of("ab"), &chars_of("abc")));
    assert_eq!(find_char(&hay, '\''), Some(12));
    assert_eq!(rfind_char(&hay, '>'), Some(16));
    assert_eq!(find_char(&hay, '#'), None);
    assert_eq!(string_of(&slice_chars(&hay, 5, 11)), "Reader");
}

#[test]
fn strings_sort_by_code_point() {
    assert!(le_chars(&chars_of("Ab"), &chars_of("Ac")));
    assert!(le_chars(&chars_of("A"), &chars_of("Ab")));
    assert!(!le_chars(&chars_of("b"), &chars_of("B")));
    let sorted = sort_by_chars(vec![chars_of("Trace"), chars_of("Ack"), chars_of("Group"), chars_of("Ack")]);
    let names: Vec<String> = sorted.iter().map(string_of).collect();
    assert_eq!(names, vec!["Ack", "Ack", "Group", "Trace"]);
}

#[test]
fn options_and_results_helpers() {
    assert_eq!(Some(3).some().ok(), Some(3));
    assert!(None::<u8>.some().is_err());
    assert_eq!(Some("x").expect_with(|| "absent"), "x");
    assert_eq!(NoneError.message(), "called `Option::unwrap()` on a `None` value");
    Ok::<u8, ()>(1).ignore();
    Some(1).ignore();
    assert_eq!(<u64 as StaticSize>::size(), 8);
}

#[test]
fn components_hold_their_data() {
    let a = Arcc::new(5u8);
    assert_eq!(*a.get(), 5);
    let n = Name("pipe".to_string());
    assert_eq!(n.0, "pipe");
    assert_eq!(Generation(2).0, 2);
    let _ = (IsReader, IsWriter);
    let d = ShouldDespawn(std::sync::Arc::new(std::sync::atomic::AtomicBool::new(false)));
    assert!(!d.0.load(std::sync::atomic::Ordering::SeqCst));
}

#[test]
fn commands_collect_entities() {
    let mut spawn = SpawnEntity(Vec::new());
    spawn.push(Entity::from_raw(1));
    spawn.push(Entity::from_raw(2));
    assert_eq!(spawn.0, vec![Entity::from_raw(1), Entity::from_raw(2)]);
    let mut get = GetOrSpawnEntity(Vec::new());
    get.push(Entity::from_raw(3));
    assert_eq!(get.0.len(), 1);
    let mut bundles: SpawnBundle<u8> = SpawnBundle(vec![1]);
    bundles.push("ignored");
    assert_eq!(bundles.0, vec![1]);
}

#[test]
fn sparse_vectors_start_empty() {
    let v: SparseVec<u8> = SparseVec::new();
    assert!(v.get(0).is_none());
    let w: SparseVec<u8> = SparseVec::with_capacity(4);
    assert!(w.get(3).is_none());
}

#[test]
fn universe_runs_its_worlds() {
    let mut u: Universe<u8> = Universe { worlds: SparseVec::new(), executor: Some(ParallelExecutor {}) };
    u.run();
    assert!(u.executor.is_some());
    assert!(u.worlds.get(0).is_none());
}

#[test]
fn system_links_are_grouped() {
    let s = SystemData {
        system_kind: SystemKind::Async,
        system: (),
        n_dependants: 1,
        n_notify_systems: 2,
        n_recurisve_prev_jobs_with_ambigous_access: 1,
        linked_systems: vec![4, 5, 6, 7],
    };
    assert_eq!(s.dependant_systems(), &[4]);
    assert_eq!(s.notify_systems(), &[5, 6]);
    assert_eq!(s.recurisve_prev_jobs_with_ambigous_access(), &[7]);
    assert_eq!(s.max_position(), 2);
}

#[test]
fn pipe_shapes_hold_their_parts() {
    let c: PipeContainer<fn(u8) -> u8, (u8,), u16, u8> = PipeContainer::new(|x| x, 9);
    assert_eq!(c.state, 9);
    assert_eq!((c.f)(4), 4);
    let f: AsyncPipeFactory<(), u8, (), ()> = AsyncPipeFactory::new(3);
    assert_eq!(f.f, 3);
    let _d: Dummy<u8> = Dummy::default();
    let _p: PhantomData<u8> = PhantomData;
}

#[test]
fn entity_names_read_in_messages() {
    assert_eq!(display_entity_name(&None), "");
    assert_eq!(display_entity_name(&Some("reader".to_string())), "with name `reader`");
}

#[test]
fn entities_expect_their_components() {
    let g = GlobalEntity(Entity::from_raw(7));
    assert_eq!(g.id(), Entity::from_raw(7));
    assert_eq!(g.expect::<u8, u8, ()>(Ok(3)), 3);
    assert_eq!(Entity::from_raw(2).expect::<u8, &str, ()>(Ok("c")), "c");
    assert_eq!(EntityExt::id(&Entity::from_raw(2)), Entity::from_raw(2));
}

#[test]
fn big_takes_four_types() {
    big::<u8, u16, u32, u64>();
}

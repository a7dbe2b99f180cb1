use zmaxion::access::{add_access, Access, ActiveWorldAccess, NeededAccess, NeededWorldAccess};
use zmaxion::ecs::{SystemData, SystemKind, SystemToRun};
use zmaxion::scheduler::{steal_order, steal_order_random, SharedAccess, WorkerShared};

fn world(n: usize) -> ActiveWorldAccess {
    ActiveWorldAccess { n_reads: vec![0; n], writes: vec![false; n] }
}

fn needs(exclusive: bool, reads: Vec<usize>, writes: Vec<usize>) -> NeededAccess {
    NeededAccess {
        exclusive_access: exclusive,
        by_world: vec![NeededWorldAccess { world_id: 0, access: Access { reads, writes } }],
    }
}

fn system(dependants: Vec<usize>, notify: Vec<usize>, ambiguous: Vec<usize>) -> SystemData<()> {
    let n_dependants = dependants.len();
    let n_notify_systems = notify.len();
    let n_ambiguous = ambiguous.len();
    let mut linked_systems = dependants;
    linked_systems.extend(notify);
    linked_systems.extend(ambiguous);
    SystemData {
        system_kind: SystemKind::Compute,
        system: (),
        n_dependants,
        n_notify_systems,
        n_recurisve_prev_jobs_with_ambigous_access: n_ambiguous,
        linked_systems,
    }
}

#[test]
fn compatible_access_checks_reads_and_writes() {
    let mut active = world(3);
    let reader = Access { reads: vec![0, 1], writes: vec![] };
    let writer = Access { reads: vec![], writes: vec![1] };
    assert!(reader.is_compatible(&active));
    active.add(&reader);
    assert_eq!(active.n_reads, vec![1, 1, 0]);
    assert!(!writer.is_compatible(&active));
    assert!(reader.is_compatible(&active));
    active.release(&reader);
    assert_eq!(active.n_reads, vec![0, 0, 0]);
    assert!(writer.is_compatible(&active));
    active.add(&writer);
    assert_eq!(active.writes, vec![false, true, false]);
    assert!(!reader.is_compatible(&active));
    active.release(&writer);
    assert_eq!(active.writes, vec![false, false, false]);
}

#[test]
fn add_access_touches_only_its_world() {
    let mut worlds = vec![world(2), world(2)];
    let needed = NeededWorldAccess { world_id: 1, access: Access { reads: vec![0, 0], writes: vec![1] } };
    add_access(&mut worlds, &needed);
    assert_eq!(worlds[0].n_reads, vec![0, 0]);
    assert_eq!(worlds[1].n_reads, vec![2, 0]);
    assert_eq!(worlds[1].writes, vec![false, true]);
}

#[test]
fn room_for_reads_is_checked() {
    let active = ActiveWorldAccess { n_reads: vec![usize::MAX - 1, 0], writes: vec![false, false] };
    assert!(Access { reads: vec![0], writes: vec![] }.has_room(&active));
    assert!(!Access { reads: vec![0, 0], writes: vec![] }.has_room(&active));
}

#[test]
fn submitted_system_waits_once() {
    let shared = WorkerShared {
        systems: vec![system(vec![], vec![], vec![]), system(vec![], vec![], vec![])],
        needed_access: vec![needs(false, vec![0], vec![]), needs(true, vec![], vec![])],
        positions: vec![0, 0],
        generation: 7,
    };
    let mut state = SharedAccess::new(2, vec![world(1)]);
    shared.submit_system(0, &mut state);
    shared.submit_system(0, &mut state);
    shared.submit_system(1, &mut state);
    assert_eq!(state.waiting_for_access_secondary.len(), 1);
    assert_eq!(state.waiting_for_access_secondary[0].id, 0);
    assert_eq!(state.waiting_for_access_secondary[0].generation, 7);
    assert_eq!(state.waiting_for_access_primary, vec![1]);
}

#[test]
fn compatible_systems_start_until_an_exclusive_one() {
    let shared = WorkerShared {
        systems: vec![
            system(vec![], vec![], vec![]),
            system(vec![], vec![], vec![]),
            system(vec![], vec![], vec![]),
            system(vec![], vec![], vec![]),
        ],
        needed_access: vec![
            needs(false, vec![0], vec![]),
            needs(false, vec![], vec![0]),
            needs(true, vec![], vec![]),
            needs(false, vec![1], vec![]),
        ],
        positions: vec![0; 4],
        generation: 0,
    };
    let mut state = SharedAccess::new(4, vec![world(2)]);
    for id in 0..4 {
        shared.submit_system(id, &mut state);
    }
    let mut waiting = std::mem::take(&mut state.waiting_for_access_primary);
    assert_eq!(waiting, vec![2]);
    waiting.clear();
    state.waiting_for_access_secondary.insert(2, SystemToRun { generation: 0, id: 2 });
    let mut ready = Vec::new();
    let out = shared.enq_systems(&mut state, &mut ready);
    assert_eq!(ready, vec![0]);
    assert!(out.run_exclusive);
    assert!(!out.enqueued);
    let kept: Vec<usize> = state.waiting_for_access_secondary.iter().map(|x| x.id).collect();
    assert_eq!(kept, vec![1, 2, 3]);
    assert_eq!(state.access[0].n_reads, vec![1, 0]);
}

#[test]
fn exclusive_queue_comes_first() {
    let shared = WorkerShared {
        systems: vec![system(vec![], vec![], vec![]), system(vec![], vec![], vec![])],
        needed_access: vec![needs(false, vec![0], vec![]), needs(true, vec![], vec![])],
        positions: vec![0, 0],
        generation: 0,
    };
    let mut state = SharedAccess::new(2, vec![world(1)]);
    shared.submit_system(0, &mut state);
    shared.submit_system(1, &mut state);
    let mut ready = Vec::new();
    let out = shared.enq_systems(&mut state, &mut ready);
    assert!(out.run_exclusive);
    assert!(ready.is_empty());
    let run = shared.take_exclusive(&mut state);
    assert_eq!(run, vec![1]);
    assert!(state.waiting_for_access_primary.is_empty());
    let out = shared.enq_systems(&mut state, &mut ready);
    assert!(out.enqueued);
    assert!(!out.run_exclusive);
    assert_eq!(ready, vec![0]);
}

#[test]
fn finished_system_releases_and_submits_followers() {
    let mut shared = WorkerShared {
        systems: vec![
            system(vec![1, 2], vec![3], vec![2]),
            system(vec![], vec![], vec![]),
            system(vec![], vec![], vec![]),
            system(vec![], vec![], vec![]),
        ],
        needed_access: vec![
            needs(false, vec![0], vec![1]),
            needs(false, vec![], vec![]),
            needs(false, vec![], vec![]),
            needs(true, vec![], vec![]),
        ],
        positions: vec![0, 1, 2, 0],
        generation: 3,
    };
    let mut state = SharedAccess::new(4, vec![world(2)]);
    shared.submit_system(0, &mut state);
    let mut ready = Vec::new();
    shared.enq_systems(&mut state, &mut ready);
    assert_eq!(ready, vec![0]);
    assert_eq!(state.access[0].n_reads, vec![1, 0]);
    assert_eq!(state.access[0].writes, vec![false, true]);
    shared.system_finished(0, &mut state);
    assert_eq!(state.access[0].n_reads, vec![0, 0]);
    assert_eq!(state.access[0].writes, vec![false, false]);
    assert_eq!(shared.positions, vec![3, 0, 0, 0]);
    let waiting: Vec<usize> = state.waiting_for_access_secondary.iter().map(|x| x.id).collect();
    assert_eq!(waiting, vec![1]);
    assert_eq!(state.waiting_for_access_primary, vec![3]);
}

#[test]
fn steal_order_goes_round_the_ring() {
    assert_eq!(steal_order(4, 1, 2), vec![2, 3, 0]);
    assert_eq!(steal_order(4, 1, 0), vec![0, 2, 3]);
    assert_eq!(steal_order(1, 0, 0), Vec::<usize>::new());
    let order = steal_order_random(5, 2);
    assert_eq!(order.len(), 4);
    assert!(!order.contains(&2));
}

#[test]
fn idle_worlds_and_held_access_are_checked() {
    let shared = WorkerShared {
        systems: vec![system(vec![], vec![], vec![]), system(vec![], vec![], vec![])],
        needed_access: vec![needs(false, vec![0, 0], vec![1]), needs(false, vec![1], vec![])],
        positions: vec![0, 0],
        generation: 0,
    };
    let mut state = SharedAccess::new(2, vec![world(2)]);
    assert!(shared.is_valid(&state));
    assert!(state.is_idle());
    assert!(!shared.holds_access(0, &state));
    assert!(shared.start_system(0, &mut state));
    assert_eq!(state.access[0].n_reads, vec![2, 0]);
    assert_eq!(state.access[0].writes, vec![false, true]);
    assert!(!state.is_idle());
    assert!(shared.holds_access(0, &state));
    assert!(!shared.start_system(1, &mut state));
    assert_eq!(state.access[0].n_reads, vec![2, 0]);
}

#[test]
fn invalid_tables_are_found() {
    let good = || WorkerShared {
        systems: vec![system(vec![1], vec![], vec![]), system(vec![], vec![], vec![])],
        needed_access: vec![needs(false, vec![0], vec![]), needs(true, vec![], vec![])],
        positions: vec![1, 0],
        generation: 0,
    };
    let state = SharedAccess::new(2, vec![world(1)]);
    assert!(good().tables_ok());
    assert!(good().is_valid(&state));
    let mut bad_link = good();
    bad_link.systems[0].linked_systems = vec![2];
    assert!(!bad_link.tables_ok());
    let mut bad_len = good();
    bad_len.positions.pop();
    assert!(!bad_len.is_valid(&state));
    let mut bad_component = good();
    bad_component.needed_access[0] = needs(false, vec![1], vec![]);
    assert!(bad_component.tables_ok());
    assert!(!bad_component.is_valid(&state));
    let mut twice = good();
    twice.needed_access[0].by_world.push(NeededWorldAccess { world_id: 0, access: Access { reads: vec![], writes: vec![] } });
    assert!(!twice.is_valid(&state));
    assert!(!good().is_valid(&SharedAccess::new(3, vec![world(1)])));
}

#[test]
fn exclusive_system_runs_alone_after_the_others_finish() {
    let shared = WorkerShared {
        systems: vec![system(vec![], vec![], vec![]), system(vec![], vec![], vec![])],
        needed_access: vec![needs(false, vec![0], vec![]), needs(true, vec![0], vec![0])],
        positions: vec![0, 0],
        generation: 0,
    };
    let mut state = SharedAccess::new(2, vec![world(1)]);
    assert!(shared.start_system(0, &mut state));
    shared.submit_system(1, &mut state);
    let mut ready = Vec::new();
    let out = shared.enq_systems(&mut state, &mut ready);
    assert!(out.run_exclusive);
    assert!(!state.is_idle());
    let mut shared = shared;
    shared.system_finished(0, &mut state);
    assert!(state.is_idle());
    let run = shared.take_exclusive(&mut state);
    assert_eq!(run, vec![1]);
    assert!(shared.start_system(1, &mut state));
    assert_eq!(state.access[0].writes, vec![true]);
    shared.system_finished(1, &mut state);
    assert!(state.is_idle());
}

#[test]
fn one_pass_starts_no_reader_beside_a_writer() {
    let shared = WorkerShared {
        systems: vec![
            system(vec![], vec![], vec![]),
            system(vec![], vec![], vec![]),
            system(vec![], vec![], vec![]),
        ],
        needed_access: vec![needs(false, vec![0], vec![]), needs(false, vec![], vec![0]), needs(false, vec![], vec![1])],
        positions: vec![0, 0, 0],
        generation: 0,
    };
    let mut state = SharedAccess::new(3, vec![world(2)]);
    shared.submit_system(0, &mut state);
    shared.submit_system(1, &mut state);
    shared.submit_system(2, &mut state);
    let mut ready = Vec::new();
    let out = shared.enq_systems(&mut state, &mut ready);
    assert!(out.enqueued);
    assert_eq!(ready, vec![0, 2]);
    assert_eq!(state.waiting_for_access_secondary.len(), 1);
    assert_eq!(state.waiting_for_access_secondary[0].id, 1);
}

#[test]
fn two_writers_of_one_component_may_both_start() {
    let shared = WorkerShared {
        systems: vec![system(vec![], vec![], vec![]), system(vec![], vec![], vec![])],
        needed_access: vec![needs(false, vec![], vec![0]), needs(false, vec![], vec![0])],
        positions: vec![0, 0],
        generation: 0,
    };
    let mut state = SharedAccess::new(2, vec![world(1)]);
    shared.submit_system(0, &mut state);
    shared.submit_system(1, &mut state);
    let mut ready = Vec::new();
    shared.enq_systems(&mut state, &mut ready);
    assert_eq!(ready, vec![0, 1]);
}

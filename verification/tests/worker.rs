use bevy_ecs::entity::Entity;
use zmaxion::param::{ErrorEvent, ErrorsState};
use zmaxion::topic::AsyncTopicInner;
use zmaxion::worker::{after_own_work, after_pause, last_to_pause, should_wait, ExecutorState, WorkerAction};

#[test]
fn workers_follow_the_executor_state() {
    assert!(matches!(after_own_work(ExecutorState::Pausing), WorkerAction::Pause));
    assert!(matches!(after_own_work(ExecutorState::Running), WorkerAction::Continue));
    assert!(matches!(after_own_work(ExecutorState::Exit), WorkerAction::Exit));
    assert!(matches!(after_pause(ExecutorState::Exit), WorkerAction::Exit));
    assert!(matches!(after_pause(ExecutorState::Pausing), WorkerAction::Continue));
    assert!(matches!(after_pause(ExecutorState::Running), WorkerAction::Continue));
}

#[test]
fn idle_workers_wait() {
    assert!(should_wait(true, false, false));
    assert!(should_wait(false, false, false));
    assert!(!should_wait(true, true, false));
    assert!(!should_wait(false, false, true));
    assert!(last_to_pause(3, 4));
    assert!(!last_to_pause(2, 4));
}

#[test]
fn failures_go_to_the_errors_topic() {
    let mut topic: AsyncTopicInner<ErrorEvent> = AsyncTopicInner::new();
    let reader = topic.new_reader();
    let state = ErrorsState { pipeline_id: Entity::from_raw(4), log: false };
    assert_eq!(state.handle(Ok::<u8, anyhow::Error>(1), &mut topic), Some(1));
    assert_eq!(state.handle(Err::<u8, anyhow::Error>(anyhow::Error::msg("bad")), &mut topic), None);
    assert_eq!(state.handle_with(Err::<u8, anyhow::Error>(anyhow::Error::msg("worse")), Entity::from_raw(9), &mut topic), None);
    topic.update();
    let range = topic.try_read_raw(reader);
    let events = &topic.events()[range];
    assert_eq!(events.len(), 2);
    assert_eq!(events[0].error.to_string(), "bad");
    assert_eq!(events[0].pipeline_id, Entity::from_raw(4));
    assert_eq!(events[1].pipeline_id, Entity::from_raw(9));
}

#[test]
fn failures_are_reported_with_their_context() {
    let mut topic: AsyncTopicInner<ErrorEvent> = AsyncTopicInner::new();
    let reader = topic.new_reader();
    let state = ErrorsState { pipeline_id: Entity::from_raw(1), log: true };
    let r = state.handle_context(Err::<u8, anyhow::Error>(anyhow::Error::msg("io")), "reading config".to_string(), &mut topic);
    assert_eq!(r, None);
    assert_eq!(state.handle_context(Ok::<u8, anyhow::Error>(5), "unused".to_string(), &mut topic), Some(5));
    topic.update();
    let range = topic.try_read_raw(reader);
    let events = &topic.events()[range];
    assert_eq!(events.len(), 1);
    assert_eq!(events[0].error.to_string(), "reading config");
    assert_eq!(format!("{:#}", events[0].error), "reading config: io");
}

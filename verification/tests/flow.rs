use zmaxion::flow::{
    begin_step, count_stage, flow_step, writes_pool_at_end, Batch, BeginStep, DefaultOwnedMessage, DefaultPool,
    FlowPoll, FlowState, FutureStep, StagePoll, WriteBatcher,
};

fn rows(b: &Batch) -> Vec<(u64, u32)> {
    match *b {
        Batch::One { pool, row } => vec![(pool, row)],
        Batch::Range { pool, start, end } => (start..end).map(|r| (pool, r)).collect(),
    }
}

#[test]
fn consecutive_rows_are_batched() {
    let mut b = WriteBatcher::new();
    assert!(b.next(Some(1), 4).is_none());
    assert!(b.next(Some(1), 5).is_none());
    assert!(b.next(Some(1), 6).is_none());
    match b.next(Some(1), 9) {
        Some(Batch::Range { pool, start, end }) => assert_eq!((pool, start, end), (1, 4, 7)),
        _ => panic!("expected a range"),
    }
    match b.next(Some(2), 0) {
        Some(Batch::One { pool, row }) => assert_eq!((pool, row), (1, 9)),
        _ => panic!("expected one row"),
    }
    assert!(b.next(None, 0).is_none());
}

#[test]
fn batches_keep_every_row_once_in_order() {
    let fed: Vec<(u64, u32)> = vec![(1, 0), (1, 1), (1, 3), (2, 4), (2, 5), (1, 6), (1, 7), (1, 8)];
    let mut b = WriteBatcher::new();
    let mut out: Vec<(u64, u32)> = Vec::new();
    for (pool, id) in fed.iter() {
        if let Some(batch) = b.next(Some(*pool), *id) {
            out.extend(rows(&batch));
        }
    }
    assert_eq!(out, fed[..5].to_vec());
}

#[test]
fn flow_goes_from_begin_to_end() {
    let (s, p) = flow_step(FlowState::Begin, StagePoll::Pending);
    assert!(matches!((s, p), (FlowState::Begin, FlowPoll::Pending)));
    let (s, p) = flow_step(FlowState::Begin, StagePoll::Ready);
    assert!(matches!((s, p), (FlowState::Stream, FlowPoll::Completed(FlowState::Begin))));
    let (s, p) = flow_step(s, StagePoll::Item);
    assert!(matches!((s, p), (FlowState::Stream, FlowPoll::Pending)));
    let (s, p) = flow_step(s, StagePoll::Ready);
    assert!(matches!((s, p), (FlowState::End, FlowPoll::Completed(FlowState::Stream))));
    let (s, p) = flow_step(s, StagePoll::Ready);
    assert!(matches!((s, p), (FlowState::End, FlowPoll::Completed(FlowState::End))));
    let (_, p) = flow_step(FlowState::Begin, StagePoll::Failed);
    assert!(matches!(p, FlowPoll::Failed));
}

#[test]
fn owned_messages_move_into_the_pool() {
    let mut pool: DefaultPool<String> = DefaultPool::new();
    pool.push("a".to_string());
    let m = DefaultOwnedMessage::new(3).map(|x: i32| format!("n{}", x * 2)).into_pooled(&mut pool);
    assert_eq!(m.id, 1);
    assert_eq!(pool.len(), 2);
    assert_eq!(pool.get(&m), "n6");
    let first = pool.at(0);
    let mapped = first.map(&pool, |s: &String| s.len());
    assert_eq!(mapped.value, 1);
    pool.reset();
    assert_eq!(pool.len(), 0);
}

#[test]
fn flow_future_is_done_after_three_stages() {
    let mut n = 0u8;
    let mut steps = Vec::new();
    for poll in [FlowPoll::Completed(FlowState::Begin), FlowPoll::Pending, FlowPoll::Completed(FlowState::Stream), FlowPoll::Completed(FlowState::End)] {
        let (m, step) = count_stage(n, poll);
        n = m;
        steps.push(step);
    }
    assert!(matches!(steps[..], [FutureStep::Again, FutureStep::Pending, FutureStep::Again, FutureStep::Done]));
    assert!(matches!(count_stage(0, FlowPoll::Failed), (0, FutureStep::Failed)));
}

#[test]
fn writing_flow_begins_inner_then_writer() {
    assert!(matches!(begin_step(false, true, StagePoll::Ready), BeginStep::AwaitWriter));
    assert!(matches!(begin_step(true, true, StagePoll::Pending), BeginStep::Pending));
    assert!(matches!(begin_step(true, true, StagePoll::Ready), BeginStep::Ready));
    assert!(matches!(begin_step(true, false, StagePoll::Pending), BeginStep::Ready));
    assert!(matches!(begin_step(false, false, StagePoll::Failed), BeginStep::Failed));
    assert!(writes_pool_at_end(true, false, 2));
    assert!(!writes_pool_at_end(true, true, 2));
    assert!(!writes_pool_at_end(false, false, 2));
    assert!(!writes_pool_at_end(true, false, 0));
}

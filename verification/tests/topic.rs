use zmaxion::topic::{AsyncTopicInner, MemTopic, TopicBuffers};

#[test]
fn written_events_reach_every_reader_after_update() {
    let mut topic: MemTopic<u32> = MemTopic::new();
    let a = topic.new_reader();
    let b = topic.new_reader();
    assert_ne!(a, b);
    topic.write(1);
    topic.write_all(vec![2, 3]);
    assert!(topic.try_read(a).is_none());
    topic.update();
    let mut ga = topic.try_read(a).unwrap();
    assert_eq!(ga.read_all(&mut topic), &[1, 2, 3]);
    let mut gb = topic.try_read(b).unwrap();
    assert_eq!(gb.peek(&topic), Some(&1));
    assert_eq!(gb.try_read(&mut topic), Some(&1));
    assert_eq!(gb.peek_all(&topic), &[2, 3]);
    gb.consume(&mut topic, 2);
    assert!(topic.try_read(b).is_none());
}

#[test]
fn consumed_events_are_not_read_again() {
    let mut topic: MemTopic<&str> = MemTopic::new();
    let r = topic.new_reader();
    topic.write("x");
    topic.update();
    let mut g = topic.try_read(r).unwrap();
    assert_eq!(g.read_all(&mut topic), &["x"]);
    assert!(g.try_read(&mut topic).is_none());
    assert!(topic.try_read(r).is_none());
}

#[test]
fn update_waits_for_slow_readers() {
    let mut buffers: TopicBuffers<u8> = TopicBuffers::new();
    let r = buffers.new_reader();
    buffers.write(1);
    assert!(buffers.update());
    buffers.write(2);
    assert!(!buffers.update());
    assert_eq!(buffers.published_events(), &[1]);
    let n = buffers.unread_count(buffers.reader_cursor(r));
    assert_eq!(n, 1);
    assert_eq!(buffers.consume(r, 1), 1);
    assert!(buffers.update());
    assert_eq!(buffers.published_events(), &[2]);
    assert_eq!(buffers.n_total(), 2);
}

#[test]
fn update_without_pending_events_publishes_nothing() {
    let mut buffers: TopicBuffers<u8> = TopicBuffers::new();
    assert!(!buffers.update());
    assert_eq!(buffers.n_total(), 0);
}

#[test]
fn new_reader_sees_last_publication() {
    let mut topic: MemTopic<u8> = MemTopic::new();
    topic.write_all(vec![4, 5]);
    topic.update();
    let r = topic.new_reader();
    let mut g = topic.try_read(r).unwrap();
    assert_eq!(g.read_all(&mut topic), &[4, 5]);
}

#[test]
fn despawned_reader_slot_is_reused() {
    let mut topic: MemTopic<u8> = MemTopic::new();
    let a = topic.new_reader();
    let b = topic.new_reader();
    topic.despawn_reader(a);
    let c = topic.new_reader();
    assert_eq!(c, a);
    assert_ne!(c, b);
}

#[test]
fn writers_are_counted() {
    let mut topic: MemTopic<u8> = MemTopic::new();
    topic.register_writer();
    topic.register_writer();
    topic.despawn_writer();
    topic.write(1);
    topic.update();
    let r = topic.new_reader();
    assert!(topic.try_read(r).is_some());
}

#[test]
fn async_reader_takes_everything_at_once() {
    let mut topic: AsyncTopicInner<u16> = AsyncTopicInner::new();
    let r = topic.new_reader();
    topic.write(10);
    topic.write(11);
    topic.update();
    let range = topic.try_read_raw(r);
    assert_eq!(&topic.events()[range], &[10, 11]);
    let range = topic.try_read_raw(r);
    assert!(range.is_empty());
    topic.despawn_reader(r);
}

#[test]
fn room_to_publish_is_checked() {
    let mut t: MemTopic<u8> = MemTopic::new();
    assert!(t.has_room_to_publish());
    t.write(1);
    assert!(t.has_room_to_publish());
    let mut a: AsyncTopicInner<u8> = AsyncTopicInner::new();
    a.write(2);
    assert!(a.has_room_to_publish());
    let b: TopicBuffers<u8> = TopicBuffers::new();
    assert!(b.has_room_to_publish());
}

use zmaxion::access::{Access, ActiveWorldAccess};
use zmaxion::topic::{AsyncTopicInner, MemTopic};

#[test]
fn release_gives_back_what_add_took() {
    let mut active = ActiveWorldAccess { n_reads: vec![2, 0, 1], writes: vec![false, true, false] };
    let access = Access { reads: vec![0, 2, 2], writes: vec![0] };
    active.add(&access);
    assert_eq!(active.n_reads, vec![3, 0, 3]);
    assert_eq!(active.writes, vec![true, true, false]);
    active.release(&access);
    assert_eq!(active.n_reads, vec![2, 0, 1]);
    assert_eq!(active.writes, vec![false, true, false]);
}

#[test]
fn default_topics_are_empty() {
    let mut t: MemTopic<u8> = MemTopic::default();
    let r = t.new_reader();
    assert!(t.is_subscribed(r));
    assert!(!t.is_subscribed(r + 1));
    assert!(t.try_read(r).is_none());
    let a: AsyncTopicInner<u8> = AsyncTopicInner::default();
    assert!(a.events().is_empty());
    assert!(!a.is_subscribed(0));
}

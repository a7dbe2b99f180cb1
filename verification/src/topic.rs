//! In-memory topics: writers append events to a pending buffer, `update`
//! publishes the pending buffer once every reader has read all published
//! events, and each reader walks the published buffer with its own cursor.
use vstd::prelude::*;

verus! {

/// The state shared by the in-memory topic kinds: the published buffer, the
/// pending buffer and one cursor per subscribed reader.
pub struct TopicBuffers<T> {
    /// cumulative number of all events published, including those in the read buffer
    n_total_readable_events: u64,
    write_events: Vec<T>,
    read_events: Vec<T>,
    reader_cursors: Vec<Option<u64>>,
}

impl<T> TopicBuffers<T> {
    /// Number of events published so far.
    pub closed spec fn total(&self) -> nat {
        self.n_total_readable_events as nat
    }

    /// The events of the last publication, which readers are walking.
    pub closed spec fn published(&self) -> Seq<T> {
        self.read_events@
    }

    /// The events written since the last publication.
    pub closed spec fn pending(&self) -> Seq<T> {
        self.write_events@
    }

    /// The cursor slots; `None` marks a slot whose reader has left.
    pub closed spec fn cursors(&self) -> Seq<Option<u64>> {
        self.reader_cursors@
    }

    pub open spec fn is_reader(&self, reader_id: int) -> bool {
        0 <= reader_id < self.cursors().len() && self.cursors()[reader_id] is Some
    }

    pub open spec fn cursor(&self, reader_id: int) -> nat {
        self.cursors()[reader_id]->0 as nat
    }

    /// Position in the published buffer of the first event a reader has not read.
    pub open spec fn start_of(&self, reader_id: int) -> int {
        self.published().len() - (self.total() - self.cursor(reader_id))
    }

    /// The published events that a reader has not read yet.
    pub open spec fn unread(&self, reader_id: int) -> Seq<T> {
        self.published().skip(self.start_of(reader_id))
    }

    /// Every reader has read every published event.
    pub open spec fn all_caught_up(&self) -> bool {
        forall|r: int| #[trigger] self.is_reader(r) ==> self.cursor(r) == self.total()
    }

    pub open spec fn wf(&self) -> bool {
        &&& self.total() <= u64::MAX
        &&& self.published().len() <= self.total()
        &&& forall|r: int|
            #[trigger] self.is_reader(r) ==> self.total() - self.published().len() <= self.cursor(r)
                <= self.total()
    }

    proof fn lemma_wf_same_state(a: &Self, b: &Self)
        requires
            a.wf(),
            a.total() == b.total(),
            a.published().len() == b.published().len(),
            a.cursors() == b.cursors(),
        ensures
            b.wf(),
    {
        assert forall|r: int| #[trigger] b.is_reader(r) implies b.total() - b.published().len() <= b.cursor(r)
            <= b.total() by {
            assert(a.is_reader(r));
        }
    }

    pub fn new() -> (t: Self)
        ensures
            t.wf(),
            t.total() == 0,
            t.published() == Seq::<T>::empty(),
            t.pending() == Seq::<T>::empty(),
            t.cursors() == Seq::<Option<u64>>::empty(),
    {
        TopicBuffers {
            n_total_readable_events: 0,
            write_events: Vec::new(),
            read_events: Vec::new(),
            reader_cursors: Vec::new(),
        }
    }

    /// Subscribes a reader at the beginning of the published buffer, in the
    /// first free cursor slot or in a new one.
    pub fn new_reader(&mut self) -> (id: usize)
        requires
            old(self).wf(),
        ensures
            final(self).wf(),
            final(self).total() == old(self).total(),
            final(self).published() == old(self).published(),
            final(self).pending() == old(self).pending(),
            id <= old(self).cursors().len(),
            id < old(self).cursors().len() ==> old(self).cursors()[id as int] is None,
            forall|j: int| 0 <= j < id && j < old(self).cursors().len() ==> old(self).cursors()[j] is Some,
            final(self).cursors() == if id < old(self).cursors().len() {
                old(self).cursors().update(id as int, Some((old(self).total() - old(self).published().len()) as u64))
            } else {
                old(self).cursors().push(Some((old(self).total() - old(self).published().len()) as u64))
            },
            final(self).is_reader(id as int),
            final(self).unread(id as int) == old(self).published(),
    {
        let start: u64 = self.n_total_readable_events - self.read_events.len() as u64;
        let n: usize = self.reader_cursors.len();
        let mut i: usize = 0;
        while i < n && self.reader_cursors[i].is_some()
            invariant
                i <= n,
                n == self.reader_cursors@.len(),
                forall|j: int| 0 <= j < i ==> self.reader_cursors@[j] is Some,
            decreases n - i,
        {
            i = i + 1;
        }
        let ghost old_self = *self;
        if i < n {
            self.reader_cursors.set(i, Some(start));
        } else {
            self.reader_cursors.push(Some(start));
        }
        proof {
            assert forall|r: int| #[trigger] self.is_reader(r) implies self.total() - self.published().len()
                <= self.cursor(r) <= self.total() by {
                if r != i {
                    assert(old_self.is_reader(r));
                }
            }
            assert(self.start_of(i as int) == 0);
            assert(self.unread(i as int) =~= self.published());
        }
        i
    }

    /// The cursor of a subscribed reader.
    pub fn reader_cursor(&self, reader_id: usize) -> (c: u64)
        requires
            self.is_reader(reader_id as int),
        ensures
            c == self.cursor(reader_id as int),
    {
        match self.reader_cursors[reader_id] {
            Some(c) => c,
            None => 0,
        }
    }

    /// Whether `reader_id` names a subscribed reader.
    pub fn is_subscribed(&self, reader_id: usize) -> (b: bool)
        ensures
            b == self.is_reader(reader_id as int),
    {
        reader_id < self.reader_cursors.len() && self.reader_cursors[reader_id].is_some()
    }

    /// Number of published events not yet read by a reader at cursor `cursor`.
    pub fn unread_count(&self, cursor: u64) -> (n: usize)
        requires
            self.wf(),
            self.total() - self.published().len() <= cursor <= self.total(),
        ensures
            n == self.total() - cursor,
    {
        let n_published: usize = self.read_events.len();
        let start: usize = n_published - (self.n_total_readable_events - cursor) as usize;
        n_published - start
    }

    /// Number of events in the published buffer.
    pub fn published_len(&self) -> (n: usize)
        ensures
            n == self.published().len(),
    {
        self.read_events.len()
    }

    /// The published buffer.
    pub fn published_events(&self) -> (events: &[T])
        ensures
            events@ == self.published(),
    {
        self.read_events.as_slice()
    }

    /// Number of events published so far.
    pub fn n_total(&self) -> (n: u64)
        ensures
            n == self.total(),
    {
        self.n_total_readable_events
    }

    /// Whether publishing the pending events keeps the count of published
    /// events within `u64`.
    pub fn has_room_to_publish(&self) -> (b: bool)
        ensures
            b == (self.total() + self.pending().len() <= u64::MAX),
    {
        self.write_events.len() as u64 <= u64::MAX - self.n_total_readable_events
    }

    /// Appends one event to the pending buffer.
    pub fn write(&mut self, item: T)
        requires
            old(self).wf(),
        ensures
            final(self).wf(),
            final(self).pending() == old(self).pending().push(item),
            final(self).published() == old(self).published(),
            final(self).total() == old(self).total(),
            final(self).cursors() == old(self).cursors(),
    {
        let ghost old_self = *self;
        self.write_events.push(item);
        proof {
            Self::lemma_wf_same_state(&old_self, self);
        }
    }

    /// Appends the events in order to the pending buffer.
    pub fn write_all(&mut self, items: Vec<T>)
        requires
            old(self).wf(),
        ensures
            final(self).wf(),
            final(self).pending() == old(self).pending() + items@,
            final(self).published() == old(self).published(),
            final(self).total() == old(self).total(),
            final(self).cursors() == old(self).cursors(),
    {
        let ghost old_self = *self;
        let mut items = items;
        self.write_events.append(&mut items);
        proof {
            Self::lemma_wf_same_state(&old_self, self);
        }
    }

    /// Publishes the pending events when there are some and every reader has
    /// read everything published before; returns whether it did.
    pub fn update(&mut self) -> (published: bool)
        requires
            old(self).wf(),
            old(self).total() + old(self).pending().len() <= u64::MAX,
        ensures
            final(self).wf(),
            final(self).cursors() == old(self).cursors(),
            published == (old(self).pending().len() > 0 && old(self).all_caught_up()),
            published ==> {
                &&& final(self).published() == old(self).pending()
                &&& final(self).pending() == Seq::<T>::empty()
                &&& final(self).total() == old(self).total() + old(self).pending().len()
                &&& forall|r: int| #[trigger] final(self).is_reader(r) ==> final(self).unread(r) == old(self).pending()
            },
            !published ==> *final(self) == *old(self),
    {
        if self.write_events.len() == 0 {
            return false;
        }
        let n_events: u64 = self.n_total_readable_events;
        let n: usize = self.reader_cursors.len();
        let mut i: usize = 0;
        while i < n
            invariant
                i <= n,
                n == self.reader_cursors@.len(),
                n_events == self.n_total_readable_events,
                *self == *old(self),
                old(self).wf(),
                forall|j: int| 0 <= j < i ==> #[trigger] self.is_reader(j) ==> self.cursor(j) == self.total(),
            decreases n - i,
        {
            match self.reader_cursors[i] {
                Some(c) => {
                    if c != n_events {
                        proof {
                            assert(self.is_reader(i as int));
                        }
                        return false;
                    }
                },
                None => {},
            }
            i = i + 1;
        }
        let ghost old_self = *self;
        std::mem::swap(&mut self.read_events, &mut self.write_events);
        self.write_events.clear();
        let n_read: usize = self.read_events.len();
        self.n_total_readable_events = self.n_total_readable_events + n_read as u64;
        proof {
            assert forall|r: int| #[trigger] self.is_reader(r) implies self.total() - self.published().len()
                <= self.cursor(r) <= self.total() by {
                assert(old_self.is_reader(r));
            }
            assert forall|r: int| #[trigger] self.is_reader(r) implies self.unread(r) == old_self.pending() by {
                assert(old_self.is_reader(r));
                assert(self.start_of(r) == 0);
                assert(self.unread(r) =~= self.published());
            }
        }
        true
    }

    /// Moves a reader's cursor past `n_items` unread events and returns the new cursor.
    pub fn consume(&mut self, reader_id: usize, n_items: usize) -> (c: u64)
        requires
            old(self).wf(),
            old(self).is_reader(reader_id as int),
            n_items <= old(self).unread(reader_id as int).len(),
        ensures
            final(self).wf(),
            c == old(self).cursor(reader_id as int) + n_items,
            final(self).cursors() == old(self).cursors().update(reader_id as int, Some(c)),
            final(self).published() == old(self).published(),
            final(self).pending() == old(self).pending(),
            final(self).total() == old(self).total(),
            final(self).unread(reader_id as int) == old(self).unread(reader_id as int).skip(n_items as int),
    {
        let prev: u64 = self.reader_cursor(reader_id);
        let cursor: u64 = prev + n_items as u64;
        let ghost old_self = *self;
        self.reader_cursors.set(reader_id, Some(cursor));
        proof {
            assert forall|r: int| #[trigger] self.is_reader(r) implies self.total() - self.published().len()
                <= self.cursor(r) <= self.total() by {
                if r != reader_id {
                    assert(old_self.is_reader(r));
                }
            }
            assert(self.unread(reader_id as int) =~= old_self.unread(reader_id as int).skip(n_items as int));
        }
        cursor
    }

    /// Unsubscribes a reader; ids out of range are ignored.
    pub fn despawn_reader(&mut self, reader_id: usize)
        requires
            old(self).wf(),
        ensures
            final(self).wf(),
            final(self).cursors() == if reader_id < old(self).cursors().len() {
                old(self).cursors().update(reader_id as int, None)
            } else {
                old(self).cursors()
            },
            final(self).published() == old(self).published(),
            final(self).pending() == old(self).pending(),
            final(self).total() == old(self).total(),
    {
        let ghost old_self = *self;
        if reader_id < self.reader_cursors.len() {
            self.reader_cursors.set(reader_id, None);
        }
        proof {
            assert forall|r: int| #[trigger] self.is_reader(r) implies self.total() - self.published().len()
                <= self.cursor(r) <= self.total() by {
                assert(old_self.is_reader(r));
            }
        }
    }

    /// The unread events of a reader at cursor `cursor`, without consuming them.
    pub fn peek_all(&self, cursor: u64) -> (events: &[T])
        requires
            self.wf(),
            self.total() - self.published().len() <= cursor <= self.total(),
        ensures
            events@ == self.published().skip(self.published().len() - (self.total() - cursor)),
    {
        let len: usize = self.read_events.len();
        let start: usize = len - (self.n_total_readable_events - cursor) as usize;
        vstd::slice::slice_subrange(self.read_events.as_slice(), start, len)
    }

    /// The first unread event of a reader at cursor `cursor`, if any.
    pub fn peek(&self, cursor: u64) -> (event: Option<&T>)
        requires
            self.wf(),
            self.total() - self.published().len() <= cursor <= self.total(),
        ensures
            cursor < self.total() ==> event == Some(&self.published()[self.published().len() - (self.total()
                - cursor)]),
            cursor == self.total() ==> event is None,
    {
        let len: usize = self.read_events.len();
        let at: usize = len - (self.n_total_readable_events - cursor) as usize;
        if at < len {
            Some(&self.read_events[at])
        } else {
            None
        }
    }
}

/// A topic living in memory: any number of writers, and readers that each
/// read every published event once.
pub struct MemTopic<T> {
    inner: TopicBuffers<T>,
    n_writers: usize,
}

/// A reader's position in a [`MemTopic`], taken when it found unread events.
pub struct TopicReadGuard {
    reader_id: usize,
    reader_cursor: u64,
}

impl<T> MemTopic<T> {
    /// The buffers and cursors of the topic.
    pub closed spec fn buffers(&self) -> TopicBuffers<T> {
        self.inner
    }

    /// Number of writers registered and not despawned.
    pub closed spec fn writers(&self) -> nat {
        self.n_writers as nat
    }

    pub open spec fn wf(&self) -> bool {
        self.buffers().wf()
    }

    /// Whether `reader_id` names a subscribed reader.
    pub fn is_subscribed(&self, reader_id: usize) -> (b: bool)
        ensures
            b == self.buffers().is_reader(reader_id as int),
    {
        self.inner.is_subscribed(reader_id)
    }

    /// Whether publishing the pending events keeps the count of published
    /// events within `u64`.
    pub fn has_room_to_publish(&self) -> (b: bool)
        ensures
            b == (self.buffers().total() + self.buffers().pending().len() <= u64::MAX),
    {
        self.inner.has_room_to_publish()
    }

    /// A topic with no events, readers or writers.
    pub fn new() -> (t: Self)
        ensures
            t.wf(),
            t.buffers().total() == 0,
            t.buffers().published() == Seq::<T>::empty(),
            t.buffers().pending() == Seq::<T>::empty(),
            t.buffers().cursors() == Seq::<Option<u64>>::empty(),
            t.writers() == 0,
    {
        MemTopic { inner: TopicBuffers::new(), n_writers: 0 }
    }

    /// Subscribes a reader; it will read the events published last and all later ones.
    pub fn new_reader(&mut self) -> (id: usize)
        requires
            old(self).wf(),
        ensures
            final(self).wf(),
            final(self).writers() == old(self).writers(),
            final(self).buffers().total() == old(self).buffers().total(),
            final(self).buffers().published() == old(self).buffers().published(),
            final(self).buffers().pending() == old(self).buffers().pending(),
            id <= old(self).buffers().cursors().len(),
            id < old(self).buffers().cursors().len() ==> old(self).buffers().cursors()[id as int] is None,
            forall|j: int|
                0 <= j < id && j < old(self).buffers().cursors().len() ==> old(self).buffers().cursors()[j] is Some,
            final(self).buffers().cursors() == if id < old(self).buffers().cursors().len() {
                old(self).buffers().cursors().update(
                    id as int,
                    Some((old(self).buffers().total() - old(self).buffers().published().len()) as u64),
                )
            } else {
                old(self).buffers().cursors().push(
                    Some((old(self).buffers().total() - old(self).buffers().published().len()) as u64),
                )
            },
            final(self).buffers().is_reader(id as int),
            final(self).buffers().unread(id as int) == old(self).buffers().published(),
    {
        self.inner.new_reader()
    }

    /// Counts one more writer.
    pub fn register_writer(&mut self)
        requires
            old(self).writers() < usize::MAX,
        ensures
            final(self).writers() == old(self).writers() + 1,
            final(self).buffers() == old(self).buffers(),
    {
        self.n_writers = self.n_writers + 1;
    }

    /// Counts one writer less.
    pub fn despawn_writer(&mut self)
        requires
            old(self).writers() > 0,
        ensures
            final(self).writers() == old(self).writers() - 1,
            final(self).buffers() == old(self).buffers(),
    {
        self.n_writers = self.n_writers - 1;
    }

    /// A read position for the reader when it has unread events, else `None`.
    pub fn try_read(&self, reader_id: usize) -> (guard: Option<TopicReadGuard>)
        requires
            self.wf(),
            self.buffers().is_reader(reader_id as int),
        ensures
            guard is Some <==> self.buffers().unread(reader_id as int).len() > 0,
            guard matches Some(g) ==> g.reader_id() == reader_id && g.cursor() == self.buffers().cursor(
                reader_id as int,
            ),
    {
        let reader_cursor: u64 = self.inner.reader_cursor(reader_id);
        if reader_cursor == self.inner.n_total() {
            return None;
        }
        Some(TopicReadGuard { reader_id, reader_cursor })
    }

    /// Appends one event to the events that the next `update` publishes.
    pub fn write(&mut self, item: T)
        requires
            old(self).wf(),
        ensures
            final(self).wf(),
            final(self).writers() == old(self).writers(),
            final(self).buffers().pending() == old(self).buffers().pending().push(item),
            final(self).buffers().published() == old(self).buffers().published(),
            final(self).buffers().total() == old(self).buffers().total(),
            final(self).buffers().cursors() == old(self).buffers().cursors(),
    {
        self.inner.write(item);
    }

    /// Appends the events in order to the events that the next `update` publishes.
    pub fn write_all(&mut self, items: Vec<T>)
        requires
            old(self).wf(),
        ensures
            final(self).wf(),
            final(self).writers() == old(self).writers(),
            final(self).buffers().pending() == old(self).buffers().pending() + items@,
            final(self).buffers().published() == old(self).buffers().published(),
            final(self).buffers().total() == old(self).buffers().total(),
            final(self).buffers().cursors() == old(self).buffers().cursors(),
    {
        if items.len() == 0 {
            proof {
                assert(self.inner.pending() + items@ =~= self.inner.pending());
            }
            return;
        }
        self.inner.write_all(items);
    }

    /// Publishes the pending events once every reader has read the previous ones.
    pub fn update(&mut self)
        requires
            old(self).wf(),
            old(self).buffers().total() + old(self).buffers().pending().len() <= u64::MAX,
        ensures
            final(self).wf(),
            final(self).writers() == old(self).writers(),
            final(self).buffers().cursors() == old(self).buffers().cursors(),
            old(self).buffers().pending().len() > 0 && old(self).buffers().all_caught_up() ==> {
                &&& final(self).buffers().published() == old(self).buffers().pending()
                &&& final(self).buffers().pending() == Seq::<T>::empty()
                &&& final(self).buffers().total() == old(self).buffers().total() + old(self).buffers().pending().len()
                &&& forall|r: int|
                    #[trigger] final(self).buffers().is_reader(r) ==> final(self).buffers().unread(r) == old(
                        self,
                    ).buffers().pending()
            },
            !(old(self).buffers().pending().len() > 0 && old(self).buffers().all_caught_up()) ==> final(self).buffers()
                == old(self).buffers(),
    {
        self.inner.update();
    }

    /// Moves a reader past `n_items` unread events and returns its new cursor.
    pub fn consume(&mut self, reader_id: usize, n_items: usize) -> (c: u64)
        requires
            old(self).wf(),
            old(self).buffers().is_reader(reader_id as int),
            n_items <= old(self).buffers().unread(reader_id as int).len(),
        ensures
            final(self).wf(),
            final(self).writers() == old(self).writers(),
            c == old(self).buffers().cursor(reader_id as int) + n_items,
            final(self).buffers().cursors() == old(self).buffers().cursors().update(reader_id as int, Some(c)),
            final(self).buffers().published() == old(self).buffers().published(),
            final(self).buffers().pending() == old(self).buffers().pending(),
            final(self).buffers().total() == old(self).buffers().total(),
            final(self).buffers().unread(reader_id as int) == old(self).buffers().unread(reader_id as int).skip(
                n_items as int,
            ),
    {
        self.inner.consume(reader_id, n_items)
    }

    /// Unsubscribes a reader, so that it no longer holds back `update`.
    pub fn despawn_reader(&mut self, reader_id: usize)
        requires
            old(self).wf(),
        ensures
            final(self).wf(),
            final(self).writers() == old(self).writers(),
            final(self).buffers().cursors() == if reader_id < old(self).buffers().cursors().len() {
                old(self).buffers().cursors().update(reader_id as int, None)
            } else {
                old(self).buffers().cursors()
            },
            final(self).buffers().published() == old(self).buffers().published(),
            final(self).buffers().pending() == old(self).buffers().pending(),
            final(self).buffers().total() == old(self).buffers().total(),
    {
        self.inner.despawn_reader(reader_id)
    }
}

impl TopicReadGuard {
    pub closed spec fn reader_id(&self) -> usize {
        self.reader_id
    }

    pub closed spec fn cursor(&self) -> u64 {
        self.reader_cursor
    }

    /// The guard still describes where its reader stands in `topic`.
    pub open spec fn matches<T>(&self, topic: &MemTopic<T>) -> bool {
        &&& topic.wf()
        &&& topic.buffers().is_reader(self.reader_id() as int)
        &&& topic.buffers().cursor(self.reader_id() as int) == self.cursor()
    }

    /// All unread events of the reader; they count as read afterwards.
    pub fn read_all<'a, T>(&mut self, topic: &'a mut MemTopic<T>) -> (events: &'a [T])
        requires
            old(self).matches(old(topic)),
        ensures
            events@ == old(topic).buffers().unread(old(self).reader_id() as int),
            final(self).matches(final(topic)),
            final(self).reader_id() == old(self).reader_id(),
            final(topic).buffers().unread(old(self).reader_id() as int) == Seq::<T>::empty(),
            final(topic).buffers().cursors() == old(topic).buffers().cursors().update(
                old(self).reader_id() as int,
                Some(old(topic).buffers().total() as u64),
            ),
            final(topic).buffers().published() == old(topic).buffers().published(),
            final(topic).buffers().pending() == old(topic).buffers().pending(),
            final(topic).buffers().total() == old(topic).buffers().total(),
            final(topic).writers() == old(topic).writers(),
    {
        let cursor: u64 = self.reader_cursor;
        let n: usize = topic.inner.unread_count(cursor);
        self.reader_cursor = topic.consume(self.reader_id, n);
        proof {
            assert(topic.inner.unread(self.reader_id as int) =~= Seq::<T>::empty());
        }
        topic.inner.peek_all(cursor)
    }

    /// The next unread event of the reader, which counts as read afterwards; `None` when there is none.
    pub fn try_read<'a, T>(&mut self, topic: &'a mut MemTopic<T>) -> (event: Option<&'a T>)
        requires
            old(self).matches(old(topic)),
        ensures
            final(self).matches(final(topic)),
            final(self).reader_id() == old(self).reader_id(),
            final(topic).buffers().published() == old(topic).buffers().published(),
            final(topic).buffers().pending() == old(topic).buffers().pending(),
            final(topic).buffers().total() == old(topic).buffers().total(),
            final(topic).writers() == old(topic).writers(),
            old(topic).buffers().unread(old(self).reader_id() as int).len() == 0 ==> {
                &&& event is None
                &&& final(topic).buffers() == old(topic).buffers()
            },
            old(topic).buffers().unread(old(self).reader_id() as int).len() > 0 ==> {
                &&& event == Some(&old(topic).buffers().unread(old(self).reader_id() as int)[0])
                &&& final(topic).buffers().unread(old(self).reader_id() as int) == old(topic).buffers().unread(
                    old(self).reader_id() as int,
                ).skip(1)
                &&& final(topic).buffers().cursors() == old(topic).buffers().cursors().update(
                    old(self).reader_id() as int,
                    Some((old(self).cursor() + 1) as u64),
                )
                &&& final(topic).buffers().cursor(old(self).reader_id() as int) == old(topic).buffers().cursor(
                    old(self).reader_id() as int,
                ) + 1
            },
    {
        let cursor: u64 = self.reader_cursor;
        if cursor == topic.inner.n_total() {
            return None;
        }
        self.reader_cursor = topic.consume(self.reader_id, 1);
        topic.inner.peek(cursor)
    }

    /// All unread events of the reader, left unread.
    pub fn peek_all<'a, T>(&self, topic: &'a MemTopic<T>) -> (events: &'a [T])
        requires
            self.matches(topic),
        ensures
            events@ == topic.buffers().unread(self.reader_id() as int),
    {
        topic.inner.peek_all(self.reader_cursor)
    }

    /// The next unread event of the reader, left unread.
    pub fn peek<'a, T>(&self, topic: &'a MemTopic<T>) -> (event: Option<&'a T>)
        requires
            self.matches(topic),
        ensures
            topic.buffers().unread(self.reader_id() as int).len() > 0 ==> event == Some(
                &topic.buffers().unread(self.reader_id() as int)[0],
            ),
            topic.buffers().unread(self.reader_id() as int).len() == 0 ==> event is None,
    {
        topic.inner.peek(self.reader_cursor)
    }

    /// Marks `n_items` unread events of the reader as read.
    pub fn consume<T>(&mut self, topic: &mut MemTopic<T>, n_items: usize)
        requires
            old(self).matches(old(topic)),
            n_items <= old(topic).buffers().unread(old(self).reader_id() as int).len(),
        ensures
            final(self).matches(final(topic)),
            final(self).reader_id() == old(self).reader_id(),
            final(topic).buffers().unread(old(self).reader_id() as int) == old(topic).buffers().unread(
                old(self).reader_id() as int,
            ).skip(n_items as int),
            final(topic).buffers().cursors() == old(topic).buffers().cursors().update(
                old(self).reader_id() as int,
                Some((old(self).cursor() + n_items) as u64),
            ),
            final(topic).buffers().published() == old(topic).buffers().published(),
            final(topic).buffers().pending() == old(topic).buffers().pending(),
            final(topic).buffers().total() == old(topic).buffers().total(),
            final(topic).writers() == old(topic).writers(),
    {
        self.reader_cursor = topic.consume(self.reader_id, n_items);
    }
}

/// The topic behind asynchronous readers and writers: a reader always takes
/// every unread event at once.
pub struct AsyncTopicInner<T> {
    inner: TopicBuffers<T>,
}

impl<T> AsyncTopicInner<T> {
    pub closed spec fn buffers(&self) -> TopicBuffers<T> {
        self.inner
    }

    /// Each reader has either read nothing or everything of the published events.
    pub open spec fn wf(&self) -> bool {
        &&& self.buffers().wf()
        &&& forall|r: int|
            #[trigger] self.buffers().is_reader(r) ==> self.buffers().cursor(r) == self.buffers().total()
                || self.buffers().start_of(r) == 0
    }

    /// Whether `reader_id` names a subscribed reader.
    pub fn is_subscribed(&self, reader_id: usize) -> (b: bool)
        ensures
            b == self.buffers().is_reader(reader_id as int),
    {
        self.inner.is_subscribed(reader_id)
    }

    /// Whether publishing the pending events keeps the count of published
    /// events within `u64`.
    pub fn has_room_to_publish(&self) -> (b: bool)
        ensures
            b == (self.buffers().total() + self.buffers().pending().len() <= u64::MAX),
    {
        self.inner.has_room_to_publish()
    }

    pub fn new() -> (t: Self)
        ensures
            t.wf(),
            t.buffers().total() == 0,
            t.buffers().published() == Seq::<T>::empty(),
            t.buffers().pending() == Seq::<T>::empty(),
            t.buffers().cursors() == Seq::<Option<u64>>::empty(),
    {
        AsyncTopicInner { inner: TopicBuffers::new() }
    }

    /// Subscribes a reader at the beginning of the published events.
    pub fn new_reader(&mut self) -> (id: usize)
        requires
            old(self).wf(),
        ensures
            final(self).wf(),
            final(self).buffers().total() == old(self).buffers().total(),
            final(self).buffers().published() == old(self).buffers().published(),
            final(self).buffers().pending() == old(self).buffers().pending(),
            id <= old(self).buffers().cursors().len(),
            id < old(self).buffers().cursors().len() ==> old(self).buffers().cursors()[id as int] is None,
            forall|j: int|
                0 <= j < id && j < old(self).buffers().cursors().len() ==> old(self).buffers().cursors()[j] is Some,
            final(self).buffers().cursors() == if id < old(self).buffers().cursors().len() {
                old(self).buffers().cursors().update(
                    id as int,
                    Some((old(self).buffers().total() - old(self).buffers().published().len()) as u64),
                )
            } else {
                old(self).buffers().cursors().push(
                    Some((old(self).buffers().total() - old(self).buffers().published().len()) as u64),
                )
            },
            final(self).buffers().is_reader(id as int),
            final(self).buffers().unread(id as int) == old(self).buffers().published(),
    {
        let ghost before = self.inner;
        let id: usize = self.inner.new_reader();
        proof {
            assert forall|r: int| #[trigger] self.inner.is_reader(r) implies self.inner.cursor(r) == self.inner.total()
                || self.inner.start_of(r) == 0 by {
                if r != id {
                    assert(before.is_reader(r));
                }
            }
        }
        id
    }

    /// Takes every unread event of a reader that stands at the beginning of
    /// the published events, and returns their positions in [`Self::events`].
    fn read_all(&mut self, reader_id: usize, cursor: u64) -> (range: std::ops::Range<usize>)
        requires
            old(self).wf(),
            old(self).buffers().is_reader(reader_id as int),
            cursor == old(self).buffers().cursor(reader_id as int),
            cursor != old(self).buffers().total(),
        ensures
            final(self).wf(),
            range.start <= range.end == old(self).buffers().published().len(),
            old(self).buffers().published().subrange(range.start as int, range.end as int) == old(
                self,
            ).buffers().unread(reader_id as int),
            final(self).buffers().unread(reader_id as int) == Seq::<T>::empty(),
            final(self).buffers().cursors() == old(self).buffers().cursors().update(
                reader_id as int,
                Some(old(self).buffers().total() as u64),
            ),
            final(self).buffers().published() == old(self).buffers().published(),
            final(self).buffers().pending() == old(self).buffers().pending(),
            final(self).buffers().total() == old(self).buffers().total(),
    {
        let ghost before = self.inner;
        let len: usize = self.inner.published_len();
        let start: usize = len - self.inner.unread_count(cursor);
        self.inner.consume(reader_id, len);
        proof {
            assert forall|r: int| #[trigger] self.inner.is_reader(r) implies self.inner.cursor(r) == self.inner.total()
                || self.inner.start_of(r) == 0 by {
                if r != reader_id {
                    assert(before.is_reader(r));
                }
            }
            assert(before.published().subrange(start as int, len as int) =~= before.unread(reader_id as int));
        }
        start..len
    }

    /// Takes every unread event of a reader and returns their positions in
    /// [`Self::events`]; an empty range when there are none.
    pub fn try_read_raw(&mut self, reader_id: usize) -> (range: std::ops::Range<usize>)
        requires
            old(self).wf(),
            old(self).buffers().is_reader(reader_id as int),
        ensures
            final(self).wf(),
            range.start <= range.end <= old(self).buffers().published().len(),
            old(self).buffers().published().subrange(range.start as int, range.end as int) == old(
                self,
            ).buffers().unread(reader_id as int),
            final(self).buffers().unread(reader_id as int) == Seq::<T>::empty(),
            final(self).buffers().cursors() == old(self).buffers().cursors().update(
                reader_id as int,
                Some(old(self).buffers().total() as u64),
            ),
            final(self).buffers().published() == old(self).buffers().published(),
            final(self).buffers().pending() == old(self).buffers().pending(),
            final(self).buffers().total() == old(self).buffers().total(),
    {
        let cursor: u64 = self.inner.reader_cursor(reader_id);
        if cursor == self.inner.n_total() {
            proof {
                assert(self.inner.unread(reader_id as int) =~= Seq::<T>::empty());
                assert(self.inner.cursors().update(reader_id as int, Some(self.inner.total() as u64))
                    =~= self.inner.cursors());
                assert(self.inner.published().subrange(0, 0) =~= Seq::<T>::empty());
            }
            return 0..0;
        }
        self.read_all(reader_id, cursor)
    }

    /// The published events, which the ranges of [`Self::try_read_raw`] index.
    pub fn events(&self) -> (events: &[T])
        ensures
            events@ == self.buffers().published(),
    {
        self.inner.published_events()
    }

    /// Appends one event to the events that the next `update` publishes.
    pub fn write(&mut self, value: T)
        requires
            old(self).wf(),
        ensures
            final(self).wf(),
            final(self).buffers().pending() == old(self).buffers().pending().push(value),
            final(self).buffers().published() == old(self).buffers().published(),
            final(self).buffers().total() == old(self).buffers().total(),
            final(self).buffers().cursors() == old(self).buffers().cursors(),
    {
        let ghost before = self.inner;
        self.inner.write(value);
        proof {
            assert forall|r: int| #[trigger] self.inner.is_reader(r) implies self.inner.cursor(r) == self.inner.total()
                || self.inner.start_of(r) == 0 by {
                assert(before.is_reader(r));
            }
        }
    }

    /// Publishes the pending events once every reader has read the previous ones.
    pub fn update(&mut self)
        requires
            old(self).wf(),
            old(self).buffers().total() + old(self).buffers().pending().len() <= u64::MAX,
        ensures
            final(self).wf(),
            final(self).buffers().cursors() == old(self).buffers().cursors(),
            old(self).buffers().pending().len() > 0 && old(self).buffers().all_caught_up() ==> {
                &&& final(self).buffers().published() == old(self).buffers().pending()
                &&& final(self).buffers().pending() == Seq::<T>::empty()
                &&& final(self).buffers().total() == old(self).buffers().total() + old(self).buffers().pending().len()
                &&& forall|r: int|
                    #[trigger] final(self).buffers().is_reader(r) ==> final(self).buffers().unread(r) == old(
                        self,
                    ).buffers().pending()
            },
            !(old(self).buffers().pending().len() > 0 && old(self).buffers().all_caught_up()) ==> final(self).buffers()
                == old(self).buffers(),
    {
        let ghost before = self.inner;
        self.inner.update();
        proof {
            assert forall|r: int| #[trigger] self.inner.is_reader(r) implies self.inner.cursor(r) == self.inner.total()
                || self.inner.start_of(r) == 0 by {
                assert(before.is_reader(r));
            }
        }
    }

    /// Unsubscribes a reader.
    pub fn despawn_reader(&mut self, reader_id: usize)
        requires
            old(self).wf(),
        ensures
            final(self).wf(),
            final(self).buffers().cursors() == if reader_id < old(self).buffers().cursors().len() {
                old(self).buffers().cursors().update(reader_id as int, None)
            } else {
                old(self).buffers().cursors()
            },
            final(self).buffers().published() == old(self).buffers().published(),
            final(self).buffers().pending() == old(self).buffers().pending(),
            final(self).buffers().total() == old(self).buffers().total(),
    {
        let ghost before = self.inner;
        self.inner.despawn_reader(reader_id);
        proof {
            assert forall|r: int| #[trigger] self.inner.is_reader(r) implies self.inner.cursor(r) == self.inner.total()
                || self.inner.start_of(r) == 0 by {
                assert(before.is_reader(r));
            }
        }
    }
}

/// Events written while every reader had read everything are, once the
/// topic is updated, exactly what each reader has left to read, in order.
pub proof fn law_written_events_reach_every_reader<T>(
    a: TopicBuffers<T>,
    b: TopicBuffers<T>,
    c: TopicBuffers<T>,
    items: Seq<T>,
    published: bool,
)
    requires
        a.wf(),
        a.pending() == Seq::<T>::empty(),
        a.all_caught_up(),
        items.len() > 0,
        b.pending() == a.pending() + items,
        b.published() == a.published(),
        b.total() == a.total(),
        b.cursors() == a.cursors(),
        c.cursors() == b.cursors(),
        published == (b.pending().len() > 0 && b.all_caught_up()),
        published ==> forall|r: int| #[trigger] c.is_reader(r) ==> c.unread(r) == b.pending(),
    ensures
        published,
        forall|r: int| #[trigger] c.is_reader(r) ==> c.unread(r) == items,
{
    assert(b.pending() =~= items);
    assert forall|r: int| #[trigger] b.is_reader(r) implies b.cursor(r) == b.total() by {
        assert(a.is_reader(r));
    }
}

/// A reader that consumes all it has left to read has nothing left to read.
pub proof fn law_consumed_events_are_not_read_again<T>(
    a: TopicBuffers<T>,
    b: TopicBuffers<T>,
    reader_id: int,
    n_items: int,
)
    requires
        n_items == a.unread(reader_id).len(),
        b.unread(reader_id) == a.unread(reader_id).skip(n_items),
    ensures
        b.unread(reader_id) == Seq::<T>::empty(),
{
    assert(a.unread(reader_id).skip(n_items) =~= Seq::<T>::empty());
}

impl<T> Default for MemTopic<T> {
    fn default() -> (t: Self)
        ensures
            t.wf(),
            t.buffers().total() == 0,
            t.buffers().published() == Seq::<T>::empty(),
            t.buffers().pending() == Seq::<T>::empty(),
            t.buffers().cursors() == Seq::<Option<u64>>::empty(),
            t.writers() == 0,
    {
        MemTopic::new()
    }
}

impl<T> Default for AsyncTopicInner<T> {
    fn default() -> (t: Self)
        ensures
            t.wf(),
            t.buffers().total() == 0,
            t.buffers().published() == Seq::<T>::empty(),
            t.buffers().pending() == Seq::<T>::empty(),
            t.buffers().cursors() == Seq::<Option<u64>>::empty(),
    {
        AsyncTopicInner::new()
    }
}

} // verus!

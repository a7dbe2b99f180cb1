//! Which components the running systems of an executor read and write, and
//! whether another system may run beside them.
use vstd::prelude::*;

verus! {

/// Index of a world in an executor.
pub type WorldId = usize;

/// Number of times `c` occurs in `s`.
pub open spec fn count(s: Seq<usize>, c: int) -> nat
    decreases s.len(),
{
    if s.len() == 0 {
        0
    } else {
        count(s.drop_last(), c) + if s.last() == c {
            1nat
        } else {
            0nat
        }
    }
}

proof fn lemma_count_take(s: Seq<usize>, i: int, c: int)
    requires
        0 <= i < s.len(),
    ensures
        count(s.take(i + 1), c) == count(s.take(i), c) + if s[i] == c {
            1nat
        } else {
            0nat
        },
{
    assert(s.take(i + 1).drop_last() =~= s.take(i));
}

/// Whether `c` occurs in `s`.
pub open spec fn mentions(s: Seq<usize>, c: int) -> bool {
    exists|i: int| 0 <= i < s.len() && s[i] == c
}

/// The components a system reads and writes in one world, by index.
pub struct Access {
    pub reads: Vec<usize>,
    pub writes: Vec<usize>,
}

/// What the running systems hold in one world: how many read each component
/// and whether one writes it.
pub struct ActiveWorldAccess {
    pub n_reads: Vec<usize>,
    pub writes: Vec<bool>,
}

/// The access a system needs in one world.
pub struct NeededWorldAccess {
    pub world_id: WorldId,
    pub access: Access,
}

/// Everything a system needs before it may run.
pub struct NeededAccess {
    pub exclusive_access: bool,
    pub by_world: Vec<NeededWorldAccess>,
}

impl Access {
    /// Every component index of the access names a component of `active`.
    pub open spec fn fits(&self, active: &ActiveWorldAccess) -> bool {
        self.fits_model(active.model())
    }

    /// No component this access reads is being written, and none it writes is being read.
    pub open spec fn compatible_with(&self, active: &ActiveWorldAccess) -> bool {
        self.compatible_with_model(active.model())
    }

    /// Every component index of the access names a component of the counters `m`.
    pub open spec fn fits_model(&self, m: (Seq<usize>, Seq<bool>)) -> bool {
        &&& forall|i: int| 0 <= i < self.reads@.len() ==> #[trigger] self.reads@[i] < m.0.len()
        &&& forall|i: int| 0 <= i < self.reads@.len() ==> #[trigger] self.reads@[i] < m.1.len()
        &&& forall|i: int| 0 <= i < self.writes@.len() ==> #[trigger] self.writes@[i] < m.0.len()
        &&& forall|i: int| 0 <= i < self.writes@.len() ==> #[trigger] self.writes@[i] < m.1.len()
    }

    /// No component read here is written in `m`, and none written here is read in `m`.
    pub open spec fn compatible_with_model(&self, m: (Seq<usize>, Seq<bool>)) -> bool {
        &&& forall|i: int| 0 <= i < self.reads@.len() ==> !m.1[#[trigger] self.reads@[i] as int]
        &&& forall|i: int| 0 <= i < self.writes@.len() ==> m.0[#[trigger] self.writes@[i] as int] == 0
    }

    /// The read counters of `m` can take the reads of this access without overflowing.
    pub open spec fn has_room_in(&self, m: (Seq<usize>, Seq<bool>)) -> bool {
        forall|c: int| 0 <= c < m.0.len() ==> m.0[c] + count(self.reads@, c) <= usize::MAX
    }

    /// Each component read here has a counter that can grow by the number of reads here.
    pub open spec fn room_in(&self, m: (Seq<usize>, Seq<bool>)) -> bool {
        forall|i: int| 0 <= i < self.reads@.len() ==> m.0[#[trigger] self.reads@[i] as int] + self.reads@.len() <= usize::MAX
    }

    /// The read counters of `m` hold at least the reads of this access.
    pub open spec fn held_in(&self, m: (Seq<usize>, Seq<bool>)) -> bool {
        forall|c: int| 0 <= c < m.0.len() ==> m.0[c] >= count(self.reads@, c)
    }

    /// The counters `m` after a system with this access started.
    pub open spec fn add_to(&self, m: (Seq<usize>, Seq<bool>)) -> (Seq<usize>, Seq<bool>) {
        (
            Seq::new(m.0.len(), |c: int| (m.0[c] + count(self.reads@, c)) as usize),
            Seq::new(m.1.len(), |c: int| m.1[c] || mentions(self.writes@, c)),
        )
    }

    /// The counters `m` after a system with this access finished.
    pub open spec fn release_from(&self, m: (Seq<usize>, Seq<bool>)) -> (Seq<usize>, Seq<bool>) {
        (
            Seq::new(m.0.len(), |c: int| (m.0[c] - count(self.reads@, c)) as usize),
            Seq::new(m.1.len(), |c: int| m.1[c] && !mentions(self.writes@, c)),
        )
    }

    /// Whether a system with this access may run beside the systems holding `active`.
    /// Only reads against writes and writes against reads are checked: a
    /// write is not checked against a running writer, so two systems that
    /// write one component are compatible.
    pub fn is_compatible(&self, active: &ActiveWorldAccess) -> (ok: bool)
        requires
            self.fits(active),
        ensures
            ok == self.compatible_with(active),
    {
        let mut i: usize = 0;
        while i < self.reads.len()
            invariant
                i <= self.reads@.len(),
                self.fits(active),
                forall|j: int| 0 <= j < i ==> !active.writes@[#[trigger] self.reads@[j] as int],
            decreases self.reads@.len() - i,
        {
            if active.writes[self.reads[i]] {
                return false;
            }
            i = i + 1;
        }
        let mut i: usize = 0;
        while i < self.writes.len()
            invariant
                i <= self.writes@.len(),
                self.fits(active),
                forall|j: int| 0 <= j < self.reads@.len() ==> !active.writes@[#[trigger] self.reads@[j] as int],
                forall|j: int| 0 <= j < i ==> active.n_reads@[#[trigger] self.writes@[j] as int] == 0,
            decreases self.writes@.len() - i,
        {
            if active.n_reads[self.writes[i]] != 0 {
                return false;
            }
            i = i + 1;
        }
        true
    }
}

impl Access {
    /// Whether every component read here has a counter that can grow by the number of reads here.
    pub fn has_room(&self, active: &ActiveWorldAccess) -> (ok: bool)
        requires
            self.fits(active),
        ensures
            ok == self.room_in(active.model()),
    {
        let n: usize = self.reads.len();
        let mut i: usize = 0;
        while i < n
            invariant
                n == self.reads@.len(),
                i <= n,
                self.fits(active),
                forall|j: int| 0 <= j < i ==> active.n_reads@[#[trigger] self.reads@[j] as int] + n <= usize::MAX,
            decreases n - i,
        {
            if active.n_reads[self.reads[i]] > usize::MAX - n {
                return false;
            }
            i = i + 1;
        }
        true
    }
}

/// A component is counted no more often than the sequence is long, and one
/// that is counted occurs in it.
pub proof fn lemma_count_bound(s: Seq<usize>, c: int)
    ensures
        count(s, c) <= s.len(),
        count(s, c) > 0 ==> mentions(s, c),
    decreases s.len(),
{
    if s.len() > 0 {
        lemma_count_bound(s.drop_last(), c);
        if count(s.drop_last(), c) > 0 {
            let k: int = choose|k: int| 0 <= k < s.drop_last().len() && s.drop_last()[k] == c;
            assert(s[k] == c);
        }
    }
}

/// Room for the reads of an access, counted by their number, is room for them.
pub proof fn lemma_room_has_room(a: &Access, m: (Seq<usize>, Seq<bool>))
    requires
        a.fits_model(m),
        a.room_in(m),
    ensures
        a.has_room_in(m),
{
    assert forall|c: int| 0 <= c < m.0.len() implies m.0[c] + count(a.reads@, c) <= usize::MAX by {
        lemma_count_bound(a.reads@, c);
        if count(a.reads@, c) > 0 {
            let k: int = choose|k: int| 0 <= k < a.reads@.len() && a.reads@[k] == c;
            assert(m.0[a.reads@[k] as int] + a.reads@.len() <= usize::MAX);
        }
    }
}

impl ActiveWorldAccess {
    /// The counters as plain sequences: reads per component, and whether it is written.
    pub open spec fn model(&self) -> (Seq<usize>, Seq<bool>) {
        (self.n_reads@, self.writes@)
    }

    /// The counters after a system with `access` started.
    pub open spec fn added(&self, access: &Access) -> (Seq<usize>, Seq<bool>) {
        access.add_to(self.model())
    }

    /// The counters after a system with `access` finished.
    pub open spec fn released(&self, access: &Access) -> (Seq<usize>, Seq<bool>) {
        access.release_from(self.model())
    }

    /// Counts the reads and marks the writes of a system that starts.
    pub fn add(&mut self, access: &Access)
        requires
            access.fits(old(self)),
            forall|c: int|
                0 <= c < old(self).n_reads@.len() ==> old(self).n_reads@[c] + count(access.reads@, c)
                    <= usize::MAX,
        ensures
            (final(self).n_reads@, final(self).writes@) == old(self).added(access),
    {
        let ghost n0 = self.n_reads@;
        let mut i: usize = 0;
        while i < access.reads.len()
            invariant
                i <= access.reads@.len(),
                access.fits(self),
                self.n_reads@.len() == n0.len(),
                self.writes@ == old(self).writes@,
                forall|c: int| 0 <= c < n0.len() ==> n0[c] + count(access.reads@, c) <= usize::MAX,
                forall|c: int|
                    0 <= c < n0.len() ==> #[trigger] self.n_reads@[c] == n0[c] + count(
                        access.reads@.take(i as int),
                        c,
                    ),
            decreases access.reads@.len() - i,
        {
            let c: usize = access.reads[i];
            proof {
                lemma_count_prefix(access.reads@, i + 1, c as int);
                lemma_count_take(access.reads@, i as int, c as int);
            }
            self.n_reads.set(c, self.n_reads[c] + 1);
            proof {
                assert forall|d: int| 0 <= d < n0.len() implies #[trigger] self.n_reads@[d] == n0[d] + count(
                    access.reads@.take(i + 1),
                    d,
                ) by {
                    lemma_count_take(access.reads@, i as int, d);
                }
            }
            i = i + 1;
        }
        proof {
            assert(access.reads@.take(i as int) =~= access.reads@);
        }
        let ghost w0 = self.writes@;
        let mut i: usize = 0;
        while i < access.writes.len()
            invariant
                i <= access.writes@.len(),
                access.fits(self),
                self.writes@.len() == w0.len(),
                self.n_reads@ == old(self).added(access).0,
                forall|c: int|
                    0 <= c < w0.len() ==> #[trigger] self.writes@[c] == (w0[c] || mentions(access.writes@.take(
                        i as int,
                    ), c)),
            decreases access.writes@.len() - i,
        {
            let c: usize = access.writes[i];
            self.writes.set(c, true);
            proof {
                let t = access.writes@.take(i as int);
                let t1 = access.writes@.take(i + 1);
                assert(t1 =~= t.push(c));
                assert forall|d: int| 0 <= d < w0.len() implies #[trigger] self.writes@[d] == (w0[d]
                    || mentions(t1, d)) by {
                    if mentions(t, d) {
                        let k: int = choose|k: int| 0 <= k < t.len() && t[k] == d;
                        assert(t1[k] == d);
                    }
                    if mentions(t1, d) && d != c {
                        let k: int = choose|k: int| 0 <= k < t1.len() && t1[k] == d;
                        assert(t[k] == d);
                    }
                    if d == c {
                        assert(t1[i as int] == c);
                    }
                }
            }
            i = i + 1;
        }
        proof {
            assert(access.writes@.take(i as int) =~= access.writes@);
            assert(self.n_reads@ =~= old(self).added(access).0);
            assert(self.writes@ =~= old(self).added(access).1);
        }
    }

    /// Uncounts the reads and clears the writes of a system that finished.
    pub fn release(&mut self, access: &Access)
        requires
            access.fits(old(self)),
            forall|c: int|
                0 <= c < old(self).n_reads@.len() ==> old(self).n_reads@[c] >= count(access.reads@, c),
        ensures
            (final(self).n_reads@, final(self).writes@) == old(self).released(access),
    {
        let ghost n0 = self.n_reads@;
        let mut i: usize = 0;
        while i < access.reads.len()
            invariant
                i <= access.reads@.len(),
                access.fits(self),
                self.n_reads@.len() == n0.len(),
                self.writes@ == old(self).writes@,
                forall|c: int| 0 <= c < n0.len() ==> n0[c] >= count(access.reads@, c),
                forall|c: int|
                    0 <= c < n0.len() ==> #[trigger] self.n_reads@[c] == n0[c] - count(
                        access.reads@.take(i as int),
                        c,
                    ),
            decreases access.reads@.len() - i,
        {
            let c: usize = access.reads[i];
            proof {
                lemma_count_prefix(access.reads@, i + 1, c as int);
                lemma_count_take(access.reads@, i as int, c as int);
            }
            self.n_reads.set(c, self.n_reads[c] - 1);
            proof {
                assert forall|d: int| 0 <= d < n0.len() implies #[trigger] self.n_reads@[d] == n0[d] - count(
                    access.reads@.take(i + 1),
                    d,
                ) by {
                    lemma_count_take(access.reads@, i as int, d);
                }
            }
            i = i + 1;
        }
        proof {
            assert(access.reads@.take(i as int) =~= access.reads@);
        }
        let ghost w0 = self.writes@;
        let mut i: usize = 0;
        while i < access.writes.len()
            invariant
                i <= access.writes@.len(),
                access.fits(self),
                self.writes@.len() == w0.len(),
                self.n_reads@ == old(self).released(access).0,
                forall|c: int|
                    0 <= c < w0.len() ==> #[trigger] self.writes@[c] == (w0[c] && !mentions(access.writes@.take(
                        i as int,
                    ), c)),
            decreases access.writes@.len() - i,
        {
            let c: usize = access.writes[i];
            self.writes.set(c, false);
            proof {
                let t = access.writes@.take(i as int);
                let t1 = access.writes@.take(i + 1);
                assert(t1 =~= t.push(c));
                assert forall|d: int| 0 <= d < w0.len() implies #[trigger] self.writes@[d] == (w0[d]
                    && !mentions(t1, d)) by {
                    if mentions(t, d) {
                        let k: int = choose|k: int| 0 <= k < t.len() && t[k] == d;
                        assert(t1[k] == d);
                    }
                    if mentions(t1, d) && d != c {
                        let k: int = choose|k: int| 0 <= k < t1.len() && t1[k] == d;
                        assert(t[k] == d);
                    }
                    if d == c {
                        assert(t1[i as int] == c);
                    }
                }
            }
            i = i + 1;
        }
        proof {
            assert(access.writes@.take(i as int) =~= access.writes@);
            assert(self.n_reads@ =~= old(self).released(access).0);
            assert(self.writes@ =~= old(self).released(access).1);
        }
    }
}

proof fn lemma_count_prefix(s: Seq<usize>, i: int, c: int)
    requires
        0 <= i <= s.len(),
    ensures
        count(s.take(i), c) <= count(s, c),
    decreases s.len() - i,
{
    if i < s.len() {
        lemma_count_prefix(s, i + 1, c);
        lemma_count_take(s, i, c);
    } else {
        assert(s.take(i) =~= s);
    }
}

/// Counts the reads and marks the writes of a system that starts in the world it names.
pub fn add_access(active: &mut Vec<ActiveWorldAccess>, needed: &NeededWorldAccess)
    requires
        needed.world_id < old(active)@.len(),
        needed.access.fits(&old(active)@[needed.world_id as int]),
        forall|c: int|
            0 <= c < old(active)@[needed.world_id as int].n_reads@.len() ==> old(active)@[needed.world_id as int].n_reads@[c]
                + count(needed.access.reads@, c) <= usize::MAX,
    ensures
        final(active)@.len() == old(active)@.len(),
        forall|w: int| 0 <= w < old(active)@.len() && w != needed.world_id ==> final(active)@[w] == old(active)@[w],
        (final(active)@[needed.world_id as int].n_reads@, final(active)@[needed.world_id as int].writes@) == old(
            active,
        )@[needed.world_id as int].added(&needed.access),
{
    active[needed.world_id].add(&needed.access);
}

/// Finishing a system gives back exactly the access that starting it took,
/// as long as no other running system writes a component that it writes.
pub proof fn law_release_undoes_add(m: (Seq<usize>, Seq<bool>), access: Access)
    requires
        access.fits_model(m),
        forall|i: int| 0 <= i < access.writes@.len() ==> !m.1[#[trigger] access.writes@[i] as int],
        access.has_room_in(m),
    ensures
        access.release_from(access.add_to(m)) == m,
{
    let a = access.add_to(m);
    let r = access.release_from(a);
    assert(r.0 =~= m.0);
    assert forall|c: int| 0 <= c < m.1.len() implies r.1[c] == m.1[c] by {
        if mentions(access.writes@, c) {
            let k: int = choose|k: int| 0 <= k < access.writes@.len() && access.writes@[k] == c;
            assert(!m.1[access.writes@[k] as int]);
        }
    }
    assert(r.1 =~= m.1);
}

/// Number of times `c` occurs in `s`.
pub fn count_of(s: &Vec<usize>, c: usize) -> (n: usize)
    ensures
        n == count(s@, c as int),
{
    let mut n: usize = 0;
    let mut i: usize = 0;
    proof {
        assert(s@.take(0) =~= Seq::<usize>::empty());
    }
    while i < s.len()
        invariant
            i <= s@.len(),
            n == count(s@.take(i as int), c as int),
        decreases s@.len() - i,
    {
        proof {
            lemma_count_take(s@, i as int, c as int);
            lemma_count_bound(s@.take(i + 1), c as int);
        }
        if s[i] == c {
            n = n + 1;
        }
        i = i + 1;
    }
    proof {
        assert(s@.take(i as int) =~= s@);
    }
    n
}

/// No component of the counters `m` is read or written.
pub open spec fn idle_world(m: (Seq<usize>, Seq<bool>)) -> bool {
    &&& forall|c: int| 0 <= c < m.0.len() ==> m.0[c] == 0
    &&& forall|c: int| 0 <= c < m.1.len() ==> !m.1[c]
}

impl ActiveWorldAccess {
    /// Whether no running system reads or writes a component of this world.
    pub fn is_idle(&self) -> (b: bool)
        ensures
            b == idle_world(self.model()),
    {
        let mut c: usize = 0;
        while c < self.n_reads.len()
            invariant
                c <= self.n_reads@.len(),
                forall|j: int| 0 <= j < c ==> self.n_reads@[j] == 0,
            decreases self.n_reads@.len() - c,
        {
            if self.n_reads[c] != 0 {
                assert(self.model().0[c as int] != 0);
                return false;
            }
            c = c + 1;
        }
        let mut c: usize = 0;
        while c < self.writes.len()
            invariant
                c <= self.writes@.len(),
                forall|j: int| 0 <= j < c ==> !self.writes@[j],
            decreases self.writes@.len() - c,
        {
            if self.writes[c] {
                assert(self.model().1[c as int]);
                return false;
            }
            c = c + 1;
        }
        true
    }
}

impl Access {
    /// Whether the read counters of `active` hold at least the reads of this access.
    pub fn is_held_in(&self, active: &ActiveWorldAccess) -> (b: bool)
        ensures
            b == self.held_in(active.model()),
    {
        let mut c: usize = 0;
        while c < active.n_reads.len()
            invariant
                c <= active.n_reads@.len(),
                forall|j: int| 0 <= j < c ==> active.n_reads@[j] >= count(self.reads@, j),
            decreases active.n_reads@.len() - c,
        {
            if active.n_reads[c] < count_of(&self.reads, c) {
                assert(active.model().0[c as int] < count(self.reads@, c as int));
                return false;
            }
            c = c + 1;
        }
        true
    }
}

/// A system may start in an idle world, whatever components it names there.
pub proof fn lemma_idle_startable(a: &Access, m: (Seq<usize>, Seq<bool>))
    requires
        a.fits_model(m),
        idle_world(m),
        a.reads@.len() <= usize::MAX,
    ensures
        a.compatible_with_model(m),
        a.room_in(m),
{
    assert forall|i: int| 0 <= i < a.reads@.len() implies !m.1[#[trigger] a.reads@[i] as int] by {
        assert(a.reads@[i] < m.1.len());
    }
    assert forall|i: int| 0 <= i < a.writes@.len() implies m.0[#[trigger] a.writes@[i] as int] == 0 by {
        assert(a.writes@[i] < m.0.len());
    }
    assert forall|i: int| 0 <= i < a.reads@.len() implies m.0[#[trigger] a.reads@[i] as int] + a.reads@.len()
        <= usize::MAX by {
        assert(a.reads@[i] < m.0.len());
    }
}

impl Access {
    /// Whether every component index of the access names a component of `active`.
    pub fn fits_in(&self, active: &ActiveWorldAccess) -> (b: bool)
        ensures
            b == self.fits(active),
    {
        let nr: usize = active.n_reads.len();
        let nw: usize = active.writes.len();
        let mut i: usize = 0;
        while i < self.reads.len()
            invariant
                i <= self.reads@.len(),
                nr == active.n_reads@.len(),
                nw == active.writes@.len(),
                forall|j: int| 0 <= j < i ==> #[trigger] self.reads@[j] < nr && self.reads@[j] < nw,
            decreases self.reads@.len() - i,
        {
            if self.reads[i] >= nr || self.reads[i] >= nw {
                assert(!(self.reads@[i as int] < nr && self.reads@[i as int] < nw));
                return false;
            }
            i = i + 1;
        }
        let mut i: usize = 0;
        while i < self.writes.len()
            invariant
                i <= self.writes@.len(),
                nr == active.n_reads@.len(),
                nw == active.writes@.len(),
                forall|j: int| 0 <= j < self.reads@.len() ==> #[trigger] self.reads@[j] < nr && self.reads@[j] < nw,
                forall|j: int| 0 <= j < i ==> #[trigger] self.writes@[j] < nr && self.writes@[j] < nw,
            decreases self.writes@.len() - i,
        {
            if self.writes[i] >= nr || self.writes[i] >= nw {
                assert(!(self.writes@[i as int] < nr && self.writes@[i as int] < nw));
                return false;
            }
            i = i + 1;
        }
        true
    }
}

} // verus!

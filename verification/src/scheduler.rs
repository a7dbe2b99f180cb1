//! The decisions of the parallel executor: which systems wait for access,
//! which may start beside the running ones, and what a finished system releases.
use vstd::prelude::*;
use fixedbitset::FixedBitSet;
use crate::access::{
    count, idle_world, mentions, Access, law_release_undoes_add, lemma_idle_startable, lemma_room_has_room, ActiveWorldAccess, NeededAccess,
    NeededWorldAccess,
};
use crate::ecs::{SystemData, SystemToRun};

verus! {

/// fixedbitset's `FixedBitSet`: a set of bits of fixed length; its bits and
/// its length are known through `bitset_ones` and `bitset_len`.
#[verifier::external_type_specification]
#[verifier::external_body]
pub struct ExFixedBitSet(FixedBitSet);

/// The bits that are set in a bit set.
pub uninterp spec fn bitset_ones(s: FixedBitSet) -> Set<usize>;

/// How many bits a bit set holds, set or clear.
pub uninterp spec fn bitset_len(s: FixedBitSet) -> nat;

/// `FixedBitSet::with_capacity`: a set of `bits` bits, all clear.
#[verifier::external_body]
fn bitset_with_capacity(bits: usize) -> (s: FixedBitSet)
    ensures
        bitset_ones(s) == Set::<usize>::empty(),
        bitset_len(s) == bits,
{
    FixedBitSet::with_capacity(bits)
}

/// `FixedBitSet::len`: the number of bits the set holds, set or clear.
#[verifier::external_body]
fn bitset_length(s: &FixedBitSet) -> (n: usize)
    ensures
        n == bitset_len(*s),
{
    s.len()
}

/// `FixedBitSet::contains`: whether `bit` is set (a bit beyond the length is clear).
#[verifier::external_body]
fn bitset_contains(s: &FixedBitSet, bit: usize) -> (b: bool)
    ensures
        b == bitset_ones(*s).contains(bit),
{
    s.contains(bit)
}

/// `FixedBitSet::insert`: sets `bit`; the crate panics when `bit` is not below the length.
#[verifier::external_body]
fn bitset_insert(s: &mut FixedBitSet, bit: usize)
    requires
        bit < bitset_len(*old(s)),
    ensures
        bitset_ones(*final(s)) == bitset_ones(*old(s)).insert(bit),
        bitset_len(*final(s)) == bitset_len(*old(s)),
{
    s.insert(bit)
}

/// `FixedBitSet::toggle`: inverts `bit`; the crate panics when `bit` is not below the length.
#[verifier::external_body]
fn bitset_toggle(s: &mut FixedBitSet, bit: usize)
    requires
        bit < bitset_len(*old(s)),
    ensures
        bitset_ones(*final(s)) == (if bitset_ones(*old(s)).contains(bit) {
            bitset_ones(*old(s)).remove(bit)
        } else {
            bitset_ones(*old(s)).insert(bit)
        }),
        bitset_len(*final(s)) == bitset_len(*old(s)),
{
    s.toggle(bit)
}

/// Index of a system in the executor.
pub type SystemId = usize;

/// The queues of submitted systems: which are submitted and not finished,
/// the exclusive ones in order, and the others with their generation in order.
pub type Queues = (Set<SystemId>, Seq<SystemId>, Seq<SystemToRun>);

/// What the workers share and change under one lock: the access held by the
/// running systems per world, and the systems waiting for access.
pub struct SharedAccess {
    pub enqueued: FixedBitSet,
    pub access: Vec<ActiveWorldAccess>,
    pub waiting_for_access_primary: Vec<SystemId>,
    pub waiting_for_access_secondary: Vec<SystemToRun>,
}

/// The systems of the executor, what each needs, and how many systems each
/// still waits for.
pub struct WorkerShared<S> {
    pub systems: Vec<SystemData<S>>,
    pub needed_access: Vec<NeededAccess>,
    pub positions: Vec<usize>,
    pub generation: usize,
}

/// The queues after `id` was submitted: a system already submitted stays
/// where it is; an exclusive one joins the exclusive queue, another the
/// queue of systems waiting for access.
pub open spec fn submit_model(needed: Seq<NeededAccess>, generation: usize, q: Queues, id: SystemId) -> Queues {
    if q.0.contains(id) {
        q
    } else if needed[id as int].exclusive_access {
        (q.0.insert(id), q.1.push(id), q.2)
    } else {
        (q.0.insert(id), q.1, q.2.push(SystemToRun { generation, id }))
    }
}

/// The queues after the systems of `ids` were submitted one after another.
pub open spec fn submit_all_model(
    needed: Seq<NeededAccess>,
    generation: usize,
    q: Queues,
    ids: Seq<SystemId>,
) -> Queues
    decreases ids.len(),
{
    if ids.len() == 0 {
        q
    } else {
        submit_model(needed, generation, submit_all_model(needed, generation, q, ids.drop_last()), ids.last())
    }
}

/// One less, wrapping below zero as the executor's atomic counters do.
pub open spec fn wrapping_dec(x: usize) -> usize {
    if x == 0 {
        usize::MAX
    } else {
        (x - 1) as usize
    }
}

/// The counters after each system of `ids` was counted down once, in order,
/// and the systems whose counter went from one to zero, in that order.
pub open spec fn countdown(pos: Seq<usize>, ids: Seq<SystemId>) -> (Seq<usize>, Seq<SystemId>)
    decreases ids.len(),
{
    if ids.len() == 0 {
        (pos, Seq::empty())
    } else {
        let (p, r) = countdown(pos, ids.drop_last());
        let d = ids.last();
        (p.update(d as int, wrapping_dec(p[d as int])), if p[d as int] == 1 {
            r.push(d)
        } else {
            r
        })
    }
}

/// The counters of each world as plain sequences.
pub open spec fn world_models(v: Seq<ActiveWorldAccess>) -> Seq<(Seq<usize>, Seq<bool>)> {
    Seq::new(v.len(), |w: int| v[w].model())
}

/// The counters of the worlds after the accesses of `bw` were released one after another.
pub open spec fn release_all(m: Seq<(Seq<usize>, Seq<bool>)>, bw: Seq<NeededWorldAccess>) -> Seq<(Seq<usize>, Seq<bool>)>
    decreases bw.len(),
{
    if bw.len() == 0 {
        m
    } else {
        let m2 = release_all(m, bw.drop_last());
        let x = bw.last();
        m2.update(x.world_id as int, x.access.release_from(m2[x.world_id as int]))
    }
}

/// The counters of the worlds after the accesses of `bw` were added one after another.
pub open spec fn add_all(m: Seq<(Seq<usize>, Seq<bool>)>, bw: Seq<NeededWorldAccess>) -> Seq<(Seq<usize>, Seq<bool>)>
    decreases bw.len(),
{
    if bw.len() == 0 {
        m
    } else {
        let m2 = add_all(m, bw.drop_last());
        let x = bw.last();
        m2.update(x.world_id as int, x.access.add_to(m2[x.world_id as int]))
    }
}

/// Each access of `bw` names a world of `m` and components of that world, and
/// no world is named twice.
pub open spec fn fits_worlds(bw: Seq<NeededWorldAccess>, m: Seq<(Seq<usize>, Seq<bool>)>) -> bool {
    &&& forall|k: int| 0 <= k < bw.len() ==> #[trigger] bw[k].world_id < m.len()
    &&& forall|k: int| 0 <= k < bw.len() ==> #[trigger] bw[k].access.fits_model(m[bw[k].world_id as int])
    &&& forall|k: int, j: int| 0 <= k < j < bw.len() ==> #[trigger] bw[k].world_id != #[trigger] bw[j].world_id
}

/// Every world named by `bw` holds at least the reads of its access.
pub open spec fn held_worlds(bw: Seq<NeededWorldAccess>, m: Seq<(Seq<usize>, Seq<bool>)>) -> bool {
    forall|k: int| 0 <= k < bw.len() ==> #[trigger] bw[k].access.held_in(m[bw[k].world_id as int])
}

/// No running system holds access to any world.
pub open spec fn idle_model(m: Seq<(Seq<usize>, Seq<bool>)>) -> bool {
    forall|w: int| 0 <= w < m.len() ==> #[trigger] idle_world(m[w])
}

/// Whether the accesses `bw` fit the worlds of `active`, each world named once.
fn fits_worlds_exec(bw: &Vec<NeededWorldAccess>, active: &Vec<ActiveWorldAccess>) -> (b: bool)
    ensures
        b == fits_worlds(bw@, world_models(active@)),
{
    let ghost m = world_models(active@);
    let mut k: usize = 0;
    while k < bw.len()
        invariant
            k <= bw@.len(),
            m == world_models(active@),
            forall|j: int| 0 <= j < k ==> #[trigger] bw@[j].world_id < m.len(),
            forall|j: int| 0 <= j < k ==> #[trigger] bw@[j].access.fits_model(m[bw@[j].world_id as int]),
            forall|j: int, l: int| 0 <= j < l < k ==> #[trigger] bw@[j].world_id != #[trigger] bw@[l].world_id,
        decreases bw@.len() - k,
    {
        let x = &bw[k];
        if x.world_id >= active.len() {
            assert(!(bw@[k as int].world_id < m.len()));
            return false;
        }
        proof {
            assert(m[x.world_id as int] == active@[x.world_id as int].model());
        }
        if !x.access.fits_in(&active[x.world_id]) {
            assert(!bw@[k as int].access.fits_model(m[bw@[k as int].world_id as int]));
            return false;
        }
        let mut j: usize = 0;
        while j < k
            invariant
                j <= k,
                k < bw@.len(),
                forall|l: int| 0 <= l < j ==> bw@[l].world_id != bw@[k as int].world_id,
            decreases k - j,
        {
            if bw[j].world_id == bw[k].world_id {
                assert(bw@[j as int].world_id == bw@[k as int].world_id);
                return false;
            }
            j = j + 1;
        }
        k = k + 1;
    }
    true
}

/// In idle worlds every system whose access fits them may start.
proof fn lemma_idle_startable_worlds(bw: Seq<NeededWorldAccess>, m: Seq<(Seq<usize>, Seq<bool>)>)
    requires
        fits_worlds(bw, m),
        idle_model(m),
    ensures
        startable(bw, m),
{
    assert forall|k: int| 0 <= k < bw.len() implies {
        &&& (#[trigger] bw[k]).access.compatible_with_model(m[bw[k].world_id as int])
        &&& bw[k].access.room_in(m[bw[k].world_id as int])
    } by {
        assert(bw[k].world_id < m.len());
        assert(idle_world(m[bw[k].world_id as int]));
        assert(bw[k].access.reads.len() == bw[k].access.reads@.len());
        lemma_idle_startable(&bw[k].access, m[bw[k].world_id as int]);
    }
}

/// A world named by none of `bw` is left as it is by releasing them.
proof fn lemma_release_all_other(m: Seq<(Seq<usize>, Seq<bool>)>, bw: Seq<NeededWorldAccess>, w: int)
    requires
        0 <= w < m.len(),
        forall|k: int| 0 <= k < bw.len() ==> #[trigger] bw[k].world_id < m.len(),
        forall|k: int| 0 <= k < bw.len() ==> #[trigger] bw[k].world_id != w,
    ensures
        release_all(m, bw).len() == m.len(),
        release_all(m, bw)[w] == m[w],
    decreases bw.len(),
{
    if bw.len() > 0 {
        lemma_release_all_other(m, bw.drop_last(), w);
        assert(bw[bw.len() - 1].world_id != w);
    }
}

/// A world named by none of `bw` is left as it is by adding them.
proof fn lemma_add_all_other(m: Seq<(Seq<usize>, Seq<bool>)>, bw: Seq<NeededWorldAccess>, w: int)
    requires
        0 <= w < m.len(),
        forall|k: int| 0 <= k < bw.len() ==> #[trigger] bw[k].world_id < m.len(),
        forall|k: int| 0 <= k < bw.len() ==> #[trigger] bw[k].world_id != w,
    ensures
        add_all(m, bw).len() == m.len(),
        add_all(m, bw)[w] == m[w],
    decreases bw.len(),
{
    if bw.len() > 0 {
        lemma_add_all_other(m, bw.drop_last(), w);
        assert(bw[bw.len() - 1].world_id != w);
    }
}

/// Releases, world by world, the access of a system that finished.
fn release_needed(active: &mut Vec<ActiveWorldAccess>, bw: &Vec<NeededWorldAccess>)
    requires
        fits_worlds(bw@, world_models(old(active)@)),
        held_worlds(bw@, world_models(old(active)@)),
    ensures
        world_models(final(active)@) == release_all(world_models(old(active)@), bw@),
{
    let ghost m0 = world_models(active@);
    let mut k: usize = 0;
    while k < bw.len()
        invariant
            k <= bw@.len(),
            fits_worlds(bw@, m0),
            held_worlds(bw@, m0),
            world_models(active@) == release_all(m0, bw@.take(k as int)),
        decreases bw@.len() - k,
    {
        let ghost before = active@;
        let x = &bw[k];
        proof {
            let t = bw@.take(k as int);
            assert forall|j: int| 0 <= j < t.len() implies #[trigger] t[j].world_id != x.world_id by {
                assert(t[j] == bw@[j]);
            }
            assert(x.world_id < m0.len());
            lemma_release_all_other(m0, t, x.world_id as int);
            assert(world_models(before)[x.world_id as int] == before[x.world_id as int].model());
            assert(x.access.fits_model(m0[x.world_id as int]));
            assert(x.access.held_in(m0[x.world_id as int]));
        }
        active[x.world_id].release(&x.access);
        proof {
            assert(bw@.take(k + 1).drop_last() =~= bw@.take(k as int));
            assert(world_models(active@) =~= release_all(m0, bw@.take(k + 1)));
        }
        k = k + 1;
    }
    proof {
        assert(bw@.take(k as int) =~= bw@);
    }
}


/// The queues after the mark of `id` was inverted.
pub open spec fn toggle_model(q: Queues, id: SystemId) -> Queues {
    (if q.0.contains(id) {
        q.0.remove(id)
    } else {
        q.0.insert(id)
    }, q.1, q.2)
}

/// The exclusive queue holds exclusive systems and both queues hold systems of the executor.
pub open spec fn queues_ok(needed: Seq<NeededAccess>, q: Queues) -> bool {
    &&& forall|i: int| 0 <= i < q.1.len() ==> #[trigger] q.1[i] < needed.len()
    &&& forall|i: int| 0 <= i < q.1.len() ==> needed[#[trigger] q.1[i] as int].exclusive_access
    &&& forall|i: int| 0 <= i < q.2.len() ==> #[trigger] q.2[i].id < needed.len()
}

proof fn lemma_submit_all_ok(needed: Seq<NeededAccess>, generation: usize, q: Queues, ids: Seq<SystemId>)
    requires
        queues_ok(needed, q),
        forall|i: int| 0 <= i < ids.len() ==> #[trigger] ids[i] < needed.len(),
    ensures
        queues_ok(needed, submit_all_model(needed, generation, q, ids)),
    decreases ids.len(),
{
    if ids.len() > 0 {
        lemma_submit_all_ok(needed, generation, q, ids.drop_last());
        assert(ids[ids.len() - 1] < needed.len());
        let q2 = submit_all_model(needed, generation, q, ids.drop_last());
        let q3 = submit_all_model(needed, generation, q, ids);
        assert forall|i: int| 0 <= i < q3.1.len() implies #[trigger] q3.1[i] < needed.len()
            && needed[q3.1[i] as int].exclusive_access by {
            if i < q2.1.len() {
                assert(q3.1[i] == q2.1[i]);
            }
        }
        assert forall|i: int| 0 <= i < q3.2.len() implies #[trigger] q3.2[i].id < needed.len() by {
            if i < q2.2.len() {
                assert(q3.2[i] == q2.2[i]);
            }
        }
    }
}

/// Counting down keeps the number of counters.
proof fn lemma_countdown_len(pos: Seq<usize>, ids: Seq<SystemId>)
    requires
        forall|i: int| 0 <= i < ids.len() ==> #[trigger] ids[i] < pos.len(),
    ensures
        countdown(pos, ids).0.len() == pos.len(),
        forall|i: int| 0 <= i < countdown(pos, ids).1.len() ==> #[trigger] countdown(pos, ids).1[i] < pos.len(),
    decreases ids.len(),
{
    if ids.len() > 0 {
        lemma_countdown_len(pos, ids.drop_last());
        assert(ids[ids.len() - 1] < pos.len());
        let r = countdown(pos, ids.drop_last()).1;
        let r2 = countdown(pos, ids).1;
        assert forall|i: int| 0 <= i < r2.len() implies #[trigger] r2[i] < pos.len() by {
            if i < r.len() {
                assert(r2[i] == r[i]);
            }
        }
    }
}

/// Counting down distinct systems lowers each of their counters by one
/// (wrapping below zero) and leaves the others; the systems it gives are, in
/// their order, exactly those whose counter was one, however many of them
/// there are.
pub proof fn law_countdown_gives_every_system_reaching_zero(pos: Seq<usize>, ids: Seq<SystemId>)
    requires
        forall|i: int| 0 <= i < ids.len() ==> #[trigger] ids[i] < pos.len(),
        forall|a: int, b: int| 0 <= a < b < ids.len() ==> #[trigger] ids[a] != #[trigger] ids[b],
    ensures
        countdown(pos, ids).1 == ids.filter(|d: usize| pos[d as int] == 1),
        countdown(pos, ids).0.len() == pos.len(),
        forall|d: usize|
            d < pos.len() ==> #[trigger] countdown(pos, ids).0[d as int] == if ids.contains(d) {
                if pos[d as int] == 0 {
                    usize::MAX
                } else {
                    (pos[d as int] - 1) as usize
                }
            } else {
                pos[d as int]
            },
    decreases ids.len(),
{
    reveal(Seq::filter);
    if ids.len() > 0 {
        let t = ids.drop_last();
        let x = ids.last();
        law_countdown_gives_every_system_reaching_zero(pos, t);
        let p = countdown(pos, t).0;
        assert(!t.contains(x)) by {
            if t.contains(x) {
                let k: int = choose|k: int| 0 <= k < t.len() && t[k] == x;
                assert(ids[k] == ids[ids.len() - 1]);
            }
        }
        assert(x < pos.len());
        assert(p[x as int] == pos[x as int]);
        assert forall|d: usize| d < pos.len() implies #[trigger] countdown(pos, ids).0[d as int] == if ids.contains(d) {
            if pos[d as int] == 0 {
                usize::MAX
            } else {
                (pos[d as int] - 1) as usize
            }
        } else {
            pos[d as int]
        } by {
            if d == x {
                assert(ids[ids.len() - 1] == x);
            } else {
                assert(ids.contains(d) == t.contains(d)) by {
                    if ids.contains(d) {
                        let k: int = choose|k: int| 0 <= k < ids.len() && ids[k] == d;
                        assert(k < ids.len() - 1);
                        assert(t[k] == d);
                    }
                    if t.contains(d) {
                        let k: int = choose|k: int| 0 <= k < t.len() && t[k] == d;
                        assert(ids[k] == d);
                    }
                }
            }
        }
    }
}

/// Filtering with two tests that agree on every element gives one result.
proof fn lemma_filter_agree(s: Seq<SystemId>, f: spec_fn(SystemId) -> bool, g: spec_fn(SystemId) -> bool)
    requires
        forall|i: int| 0 <= i < s.len() ==> f(#[trigger] s[i]) == g(s[i]),
    ensures
        s.filter(f) == s.filter(g),
    decreases s.len(),
{
    reveal(Seq::filter);
    if s.len() > 0 {
        let t = s.drop_last();
        assert forall|i: int| 0 <= i < t.len() implies f(#[trigger] t[i]) == g(t[i]) by {
            assert(t[i] == s[i]);
        }
        lemma_filter_agree(t, f, g);
        assert(f(s[s.len() - 1]) == g(s[s.len() - 1]));
    }
}

/// Releasing keeps the number of worlds and the number of components of each.
proof fn lemma_release_all_shape(m: Seq<(Seq<usize>, Seq<bool>)>, bw: Seq<NeededWorldAccess>)
    requires
        forall|k: int| 0 <= k < bw.len() ==> #[trigger] bw[k].world_id < m.len(),
    ensures
        release_all(m, bw).len() == m.len(),
        forall|w: int| 0 <= w < m.len() ==> (#[trigger] release_all(m, bw)[w]).0.len() == m[w].0.len()
            && release_all(m, bw)[w].1.len() == m[w].1.len(),
    decreases bw.len(),
{
    if bw.len() > 0 {
        lemma_release_all_shape(m, bw.drop_last());
        assert(bw[bw.len() - 1].world_id < m.len());
    }
}

/// Adding keeps the number of worlds and the number of components of each.
proof fn lemma_add_all_shape(m: Seq<(Seq<usize>, Seq<bool>)>, bw: Seq<NeededWorldAccess>)
    requires
        forall|k: int| 0 <= k < bw.len() ==> #[trigger] bw[k].world_id < m.len(),
    ensures
        add_all(m, bw).len() == m.len(),
        forall|w: int| 0 <= w < m.len() ==> (#[trigger] add_all(m, bw)[w]).0.len() == m[w].0.len()
            && add_all(m, bw)[w].1.len() == m[w].1.len(),
    decreases bw.len(),
{
    if bw.len() > 0 {
        lemma_add_all_shape(m, bw.drop_last());
        assert(bw[bw.len() - 1].world_id < m.len());
    }
}

/// Two sets of world counters with the same shape.
pub open spec fn same_shape(m1: Seq<(Seq<usize>, Seq<bool>)>, m2: Seq<(Seq<usize>, Seq<bool>)>) -> bool {
    &&& m1.len() == m2.len()
    &&& forall|w: int| 0 <= w < m1.len() ==> (#[trigger] m1[w]).0.len() == m2[w].0.len() && m1[w].1.len() == m2[w].1.len()
}

proof fn lemma_fits_same_shape(bw: Seq<NeededWorldAccess>, m1: Seq<(Seq<usize>, Seq<bool>)>, m2: Seq<(Seq<usize>, Seq<bool>)>)
    requires
        fits_worlds(bw, m1),
        same_shape(m1, m2),
    ensures
        fits_worlds(bw, m2),
{
    assert forall|k: int| 0 <= k < bw.len() implies #[trigger] bw[k].access.fits_model(m2[bw[k].world_id as int]) by {
        assert(bw[k].access.fits_model(m1[bw[k].world_id as int]));
        let w = bw[k].world_id as int;
        assert(m1[w].0.len() == m2[w].0.len() && m1[w].1.len() == m2[w].1.len());
    }
}

/// A system with these needs may start beside the running ones: each of its
/// accesses is compatible with its world and the read counters have room.
pub open spec fn startable(bw: Seq<NeededWorldAccess>, m: Seq<(Seq<usize>, Seq<bool>)>) -> bool {
    forall|k: int| 0 <= k < bw.len() ==> {
        &&& (#[trigger] bw[k]).access.compatible_with_model(m[bw[k].world_id as int])
        &&& bw[k].access.room_in(m[bw[k].world_id as int])
    }
}

/// Whether a system with the accesses `bw` may start beside the running ones.
fn can_start(bw: &Vec<NeededWorldAccess>, active: &Vec<ActiveWorldAccess>) -> (ok: bool)
    requires
        fits_worlds(bw@, world_models(active@)),
    ensures
        ok == startable(bw@, world_models(active@)),
{
    let ghost m = world_models(active@);
    let mut k: usize = 0;
    while k < bw.len()
        invariant
            k <= bw@.len(),
            m == world_models(active@),
            fits_worlds(bw@, m),
            forall|j: int| 0 <= j < k ==> {
                &&& (#[trigger] bw@[j]).access.compatible_with_model(m[bw@[j].world_id as int])
                &&& bw@[j].access.room_in(m[bw@[j].world_id as int])
            },
        decreases bw@.len() - k,
    {
        let x = &bw[k];
        proof {
            assert(x.world_id < m.len());
            assert(m[x.world_id as int] == active@[x.world_id as int].model());
        }
        if !x.access.is_compatible(&active[x.world_id]) {
            return false;
        }
        if !x.access.has_room(&active[x.world_id]) {
            return false;
        }
        k = k + 1;
    }
    true
}

/// Adds, world by world, the access of a system that starts.
fn add_needed(active: &mut Vec<ActiveWorldAccess>, bw: &Vec<NeededWorldAccess>)
    requires
        fits_worlds(bw@, world_models(old(active)@)),
        startable(bw@, world_models(old(active)@)),
    ensures
        world_models(final(active)@) == add_all(world_models(old(active)@), bw@),
{
    let ghost m0 = world_models(active@);
    let mut k: usize = 0;
    while k < bw.len()
        invariant
            k <= bw@.len(),
            fits_worlds(bw@, m0),
            startable(bw@, m0),
            world_models(active@) == add_all(m0, bw@.take(k as int)),
        decreases bw@.len() - k,
    {
        let ghost before = active@;
        let x = &bw[k];
        proof {
            let t = bw@.take(k as int);
            assert forall|j: int| 0 <= j < t.len() implies #[trigger] t[j].world_id != x.world_id by {
                assert(t[j] == bw@[j]);
            }
            assert(x.world_id < m0.len());
            lemma_add_all_other(m0, t, x.world_id as int);
            assert(world_models(before)[x.world_id as int] == before[x.world_id as int].model());
            assert(x.access.fits_model(m0[x.world_id as int]));
            assert(x.access.room_in(m0[x.world_id as int]));
            lemma_room_has_room(&x.access, m0[x.world_id as int]);
        }
        crate::access::add_access(active, x);
        proof {
            assert(bw@.take(k + 1).drop_last() =~= bw@.take(k as int));
            assert(world_models(active@) =~= add_all(m0, bw@.take(k + 1)));
        }
        k = k + 1;
    }
    proof {
        assert(bw@.take(k as int) =~= bw@);
    }
}

/// One pass over the systems waiting for access, in order: once an exclusive
/// system is met the rest keep waiting; before that, each system that may
/// start takes its access and starts, the others keep waiting. Gives the
/// counters after the pass, the systems started, the systems still waiting,
/// and whether an exclusive system was met.
pub open spec fn enq_scan(
    needed: Seq<NeededAccess>,
    m: Seq<(Seq<usize>, Seq<bool>)>,
    waiting: Seq<SystemToRun>,
) -> (Seq<(Seq<usize>, Seq<bool>)>, Seq<SystemId>, Seq<SystemToRun>, bool)
    decreases waiting.len(),
{
    if waiting.len() == 0 {
        (m, Seq::empty(), Seq::empty(), false)
    } else {
        let (m2, started, kept, exclusive) = enq_scan(needed, m, waiting.drop_last());
        let x = waiting.last();
        if exclusive || needed[x.id as int].exclusive_access {
            (m2, started, kept.push(x), true)
        } else if startable(needed[x.id as int].by_world@, m2) {
            (add_all(m2, needed[x.id as int].by_world@), started.push(x.id), kept, false)
        } else {
            (m2, started, kept.push(x), false)
        }
    }
}

/// The systems kept waiting by a pass are systems that were waiting.
proof fn lemma_scan_keeps_ok(needed: Seq<NeededAccess>, m: Seq<(Seq<usize>, Seq<bool>)>, w: Seq<SystemToRun>)
    requires
        forall|i: int| 0 <= i < w.len() ==> #[trigger] w[i].id < needed.len(),
    ensures
        forall|i: int| 0 <= i < enq_scan(needed, m, w).2.len() ==> #[trigger] enq_scan(needed, m, w).2[i].id < needed.len(),
    decreases w.len(),
{
    if w.len() > 0 {
        lemma_scan_keeps_ok(needed, m, w.drop_last());
        assert(w[w.len() - 1].id < needed.len());
        let k1 = enq_scan(needed, m, w.drop_last()).2;
        let k2 = enq_scan(needed, m, w).2;
        assert forall|i: int| 0 <= i < k2.len() implies #[trigger] k2[i].id < needed.len() by {
            if i < k1.len() {
                assert(k2[i] == k1[i]);
            }
        }
    }
}

/// The systems of `ids` that need the executor alone, and the others, each in order.
pub open spec fn split_exclusive(needed: Seq<NeededAccess>, ids: Seq<SystemId>) -> (Seq<SystemId>, Seq<SystemId>)
    decreases ids.len(),
{
    if ids.len() == 0 {
        (Seq::empty(), Seq::empty())
    } else {
        let (run, kept) = split_exclusive(needed, ids.drop_last());
        let id = ids.last();
        if needed[id as int].exclusive_access {
            (run.push(id), kept)
        } else {
            (run, kept.push(id))
        }
    }
}

/// The waiting systems of `w` that need the executor alone, and the others, each in order.
pub open spec fn split_exclusive_waiting(needed: Seq<NeededAccess>, w: Seq<SystemToRun>) -> (Seq<SystemId>, Seq<SystemToRun>)
    decreases w.len(),
{
    if w.len() == 0 {
        (Seq::empty(), Seq::empty())
    } else {
        let (run, kept) = split_exclusive_waiting(needed, w.drop_last());
        let x = w.last();
        if needed[x.id as int].exclusive_access {
            (run.push(x.id), kept)
        } else {
            (run, kept.push(x))
        }
    }
}

/// The first `k` steps round the ring of `n` workers from `start`, leaving out `me`.
pub open spec fn ring_from(n: usize, me: usize, start: usize, k: nat) -> Seq<usize>
    decreases k,
{
    if k == 0 {
        Seq::empty()
    } else {
        let s = ring_from(n, me, start, (k - 1) as nat);
        let x = ((start + k - 1) % (n as int)) as usize;
        if x == me {
            s
        } else {
            s.push(x)
        }
    }
}

/// The workers, other than `me`, in the order a worker tries to take work
/// from them: once round the ring of `n` workers, starting at `start`.
pub open spec fn steal_order_spec(n: usize, me: usize, start: usize) -> Seq<usize> {
    ring_from(n, me, start, n as nat)
}

/// The order in which worker `me` tries to take work from the others: once
/// round the ring of `n` workers, starting at `start`.
pub fn steal_order(n: usize, me: usize, start: usize) -> (order: Vec<usize>)
    requires
        start < n,
    ensures
        order@ == steal_order_spec(n, me, start),
{
    let mut order: Vec<usize> = Vec::new();
    let mut k: usize = 0;
    while k < n
        invariant
            k <= n,
            start < n,
            order@ == ring_from(n, me, start, k as nat),
        decreases n - k,
    {
        let x: usize = if k < n - start {
            start + k
        } else {
            k - (n - start)
        };
        proof {
            assert(x == (start + k) % (n as int)) by (nonlinear_arith)
                requires
                    start < n,
                    k < n,
                    x == (if k < n - start { start + k } else { k - (n - start) }),
            ;
            assert(ring_from(n, me, start, (k + 1) as nat) == {
                let s = ring_from(n, me, start, k as nat);
                if x == me { s } else { s.push(x) }
            });
        }
        if x != me {
            order.push(x);
        }
        k = k + 1;
    }
    order
}

/// The order in which worker `me` tries to take work from the others,
/// starting at a worker picked by chance.
pub fn steal_order_random(n: usize, me: usize) -> (order: Vec<usize>)
    requires
        n > 0,
    ensures
        exists|start: usize| start < n && order@ == steal_order_spec(n, me, start),
{
    let start: usize = random_usize() % n;
    steal_order(n, me, start)
}

/// `rand::random`: a number of chance; nothing is known of it.
#[verifier::external_body]
fn random_usize() -> usize {
    rand::random::<usize>()
}

proof fn lemma_split_kept(needed: Seq<NeededAccess>, ids: Seq<SystemId>)
    ensures
        forall|i: int| 0 <= i < split_exclusive(needed, ids).1.len() ==> exists|j: int|
            0 <= j < ids.len() && ids[j] == #[trigger] split_exclusive(needed, ids).1[i],
        forall|i: int| 0 <= i < split_exclusive(needed, ids).1.len() ==> !needed[#[trigger] split_exclusive(needed, ids).1[i] as int].exclusive_access,
    decreases ids.len(),
{
    if ids.len() > 0 {
        lemma_split_kept(needed, ids.drop_last());
        let k1 = split_exclusive(needed, ids.drop_last()).1;
        let k2 = split_exclusive(needed, ids).1;
        assert forall|i: int| 0 <= i < k2.len() implies exists|j: int| 0 <= j < ids.len() && ids[j] == #[trigger] k2[i] by {
            if i < k1.len() {
                assert(k2[i] == k1[i]);
                let j: int = choose|j: int| 0 <= j < ids.drop_last().len() && ids.drop_last()[j] == k1[i];
                assert(ids[j] == k2[i]);
            } else {
                assert(ids[ids.len() - 1] == k2[i]);
            }
        }
        assert forall|i: int| 0 <= i < k2.len() implies !needed[#[trigger] k2[i] as int].exclusive_access by {
            if i < k1.len() {
                assert(k2[i] == k1[i]);
            }
        }
    }
}

proof fn lemma_split_waiting_kept(needed: Seq<NeededAccess>, w: Seq<SystemToRun>)
    ensures
        forall|i: int| 0 <= i < split_exclusive_waiting(needed, w).1.len() ==> exists|j: int|
            0 <= j < w.len() && w[j] == #[trigger] split_exclusive_waiting(needed, w).1[i],
    decreases w.len(),
{
    if w.len() > 0 {
        lemma_split_waiting_kept(needed, w.drop_last());
        let k1 = split_exclusive_waiting(needed, w.drop_last()).1;
        let k2 = split_exclusive_waiting(needed, w).1;
        assert forall|i: int| 0 <= i < k2.len() implies exists|j: int| 0 <= j < w.len() && w[j] == #[trigger] k2[i] by {
            if i < k1.len() {
                assert(k2[i] == k1[i]);
                let j: int = choose|j: int| 0 <= j < w.drop_last().len() && w.drop_last()[j] == k1[i];
                assert(w[j] == k2[i]);
            } else {
                assert(w[w.len() - 1] == k2[i]);
            }
        }
    }
}

/// What a worker learned from a pass over the waiting systems: whether it
/// started one, and whether exclusive systems must now run alone.
pub struct EnqOutcome {
    pub enqueued: bool,
    pub run_exclusive: bool,
}

impl SharedAccess {
    /// The submitted systems and the two queues.
    pub open spec fn queues(&self) -> Queues {
        (bitset_ones(self.enqueued), self.waiting_for_access_primary@, self.waiting_for_access_secondary@)
    }

    /// Nothing submitted yet, with room for `n_systems` systems and the given world access.
    pub fn new(n_systems: usize, access: Vec<ActiveWorldAccess>) -> (s: Self)
        ensures
            s.queues() == (Set::<SystemId>::empty(), Seq::<SystemId>::empty(), Seq::<SystemToRun>::empty()),
            bitset_len(s.enqueued) == n_systems,
            s.access@ == access@,
    {
        SharedAccess {
            enqueued: bitset_with_capacity(n_systems),
            access,
            waiting_for_access_primary: Vec::new(),
            waiting_for_access_secondary: Vec::new(),
        }
    }
}

impl SharedAccess {
    /// Whether no running system holds access to any world.
    pub fn is_idle(&self) -> (b: bool)
        ensures
            b == idle_model(world_models(self.access@)),
    {
        let mut w: usize = 0;
        while w < self.access.len()
            invariant
                w <= self.access@.len(),
                forall|j: int| 0 <= j < w ==> #[trigger] idle_world(world_models(self.access@)[j]),
            decreases self.access@.len() - w,
        {
            if !self.access[w].is_idle() {
                assert(!idle_world(world_models(self.access@)[w as int]));
                return false;
            }
            w = w + 1;
        }
        true
    }
}


impl<S> WorkerShared<S> {
    /// The tables agree in length, each system's links fit, and every link names a system.
    pub open spec fn wf(&self) -> bool {
        &&& self.needed_access@.len() == self.systems@.len()
        &&& self.positions@.len() == self.systems@.len()
        &&& forall|s: int| 0 <= s < self.systems@.len() ==> (#[trigger] self.systems@[s]).wf()
        &&& forall|s: int, k: int|
            0 <= s < self.systems@.len() && 0 <= k < self.systems@[s].linked_systems@.len()
                ==> #[trigger] self.systems@[s].linked_systems@[k] < self.systems@.len()
    }
}

impl<S> WorkerShared<S> {
    /// Whether the tables agree in length, each system's links fit, and every link names a system.
    pub fn tables_ok(&self) -> (b: bool)
        ensures
            b == self.wf(),
    {
        let n: usize = self.systems.len();
        if self.needed_access.len() != n || self.positions.len() != n {
            return false;
        }
        let mut s: usize = 0;
        while s < n
            invariant
                s <= n,
                n == self.systems@.len(),
                forall|t: int| 0 <= t < s ==> (#[trigger] self.systems@[t]).wf(),
                forall|t: int, k: int|
                    0 <= t < s && 0 <= k < self.systems@[t].linked_systems@.len()
                        ==> #[trigger] self.systems@[t].linked_systems@[k] < n,
            decreases n - s,
        {
            let sys = &self.systems[s];
            if (sys.n_dependants as u128) + (sys.n_notify_systems as u128) + (
            sys.n_recurisve_prev_jobs_with_ambigous_access as u128) > (sys.linked_systems.len() as u128) {
                assert(!self.systems@[s as int].wf());
                return false;
            }
            let mut k: usize = 0;
            while k < sys.linked_systems.len()
                invariant
                    k <= sys.linked_systems@.len(),
                    s < n,
                    n == self.systems@.len(),
                    *sys == self.systems@[s as int],
                    forall|j: int| 0 <= j < k ==> sys.linked_systems@[j] < n,
                decreases sys.linked_systems@.len() - k,
            {
                if sys.linked_systems[k] >= n {
                    assert(!(self.systems@[s as int].linked_systems@[k as int] < n));
                    return false;
                }
                k = k + 1;
            }
            s = s + 1;
        }
        true
    }

    /// Whether `state` can serve these systems, and the tables are right: what
    /// the executor checks once when it is built, and what its operations keep.
    pub fn is_valid(&self, state: &SharedAccess) -> (b: bool)
        ensures
            b == (self.wf() && state.serves(self)),
    {
        if !self.tables_ok() {
            return false;
        }
        if bitset_length(&state.enqueued) != self.systems.len() {
            return false;
        }
        let n: usize = self.needed_access.len();
        let mut s: usize = 0;
        while s < n
            invariant
                s <= n,
                n == self.needed_access@.len(),
                forall|t: int| 0 <= t < s ==> fits_worlds(
                    (#[trigger] self.needed_access@[t]).by_world@,
                    world_models(state.access@),
                ),
            decreases n - s,
        {
            if !fits_worlds_exec(&self.needed_access[s].by_world, &state.access) {
                assert(!fits_worlds(self.needed_access@[s as int].by_world@, world_models(state.access@)));
                return false;
            }
            s = s + 1;
        }
        let mut i: usize = 0;
        while i < state.waiting_for_access_primary.len()
            invariant
                i <= state.waiting_for_access_primary@.len(),
                n == self.needed_access@.len(),
                forall|j: int| 0 <= j < i ==> #[trigger] state.waiting_for_access_primary@[j] < n,
                forall|j: int|
                    0 <= j < i ==> self.needed_access@[#[trigger] state.waiting_for_access_primary@[j] as int].exclusive_access,
            decreases state.waiting_for_access_primary@.len() - i,
        {
            let id: SystemId = state.waiting_for_access_primary[i];
            if id >= n || !self.needed_access[id].exclusive_access {
                assert(state.queues().1[i as int] == id);
                assert(!queues_ok(self.needed_access@, state.queues()));
                return false;
            }
            i = i + 1;
        }
        let mut i: usize = 0;
        while i < state.waiting_for_access_secondary.len()
            invariant
                i <= state.waiting_for_access_secondary@.len(),
                n == self.needed_access@.len(),
                forall|j: int| 0 <= j < i ==> #[trigger] state.waiting_for_access_secondary@[j].id < n,
            decreases state.waiting_for_access_secondary@.len() - i,
        {
            if state.waiting_for_access_secondary[i].id >= n {
                assert(state.queues().2[i as int] == state.waiting_for_access_secondary@[i as int]);
                assert(!queues_ok(self.needed_access@, state.queues()));
                return false;
            }
            i = i + 1;
        }
        true
    }
}

impl SharedAccess {
    /// The shared state can serve the systems of `shared`: one mark per
    /// system, every access fits the worlds, and the queues hold systems of it.
    pub open spec fn serves<S>(&self, shared: &WorkerShared<S>) -> bool {
        &&& bitset_len(self.enqueued) == shared.systems@.len()
        &&& forall|s: int| 0 <= s < shared.needed_access@.len() ==> fits_worlds(
            (#[trigger] shared.needed_access@[s]).by_world@,
            world_models(self.access@),
        )
        &&& queues_ok(shared.needed_access@, self.queues())
    }
}

impl<S> WorkerShared<S> {
    /// Queues `id` unless it is already submitted: an exclusive system in the
    /// exclusive queue, another in the queue of systems waiting for access.
    pub fn submit_system(&self, id: SystemId, access: &mut SharedAccess)
        requires
            id < self.needed_access@.len(),
            id < bitset_len(old(access).enqueued),
        ensures
            final(access).queues() == submit_model(self.needed_access@, self.generation, old(access).queues(), id),
            final(access).access@ == old(access).access@,
            bitset_len(final(access).enqueued) == bitset_len(old(access).enqueued),
            old(access).serves(self) ==> final(access).serves(self),
    {
        if bitset_contains(&access.enqueued, id) {
            return;
        }
        bitset_insert(&mut access.enqueued, id);
        if self.needed_access[id].exclusive_access {
            access.waiting_for_access_primary.push(id);
        } else {
            access.waiting_for_access_secondary.push(SystemToRun { generation: self.generation, id });
        }
        proof {
            let needed = self.needed_access@;
            let q0 = old(access).queues();
            let q = access.queues();
            if queues_ok(needed, q0) {
                assert forall|i: int| 0 <= i < q.1.len() implies #[trigger] q.1[i] < needed.len()
                    && needed[q.1[i] as int].exclusive_access by {
                    if i < q0.1.len() {
                        assert(q.1[i] == q0.1[i]);
                    }
                }
                assert forall|i: int| 0 <= i < q.2.len() implies #[trigger] q.2[i].id < needed.len() by {
                    if i < q0.2.len() {
                        assert(q.2[i] == q0.2[i]);
                    }
                }
                assert(queues_ok(needed, q));
            }
        }
    }

    /// The counters of the systems after `id` finished: its own counter is
    /// reset, the systems that wait for it and the ambiguous earlier ones are
    /// counted down.
    pub open spec fn positions_after_finish(&self, id: SystemId) -> Seq<usize> {
        let sys = self.systems@[id as int];
        let base = self.positions@.update(
            id as int,
            (sys.n_dependants + sys.n_recurisve_prev_jobs_with_ambigous_access) as usize,
        );
        countdown(countdown(base, sys.dependants()).0, sys.ambiguous()).0
    }

    /// The systems submitted after `id` finished, in order: those whose last
    /// awaited system it was, then those it notifies.
    pub open spec fn submitted_after_finish(&self, id: SystemId) -> Seq<SystemId> {
        let sys = self.systems@[id as int];
        let base = self.positions@.update(
            id as int,
            (sys.n_dependants + sys.n_recurisve_prev_jobs_with_ambigous_access) as usize,
        );
        countdown(base, sys.dependants()).1 + sys.notified()
    }

    /// When system `id` finishes, it submits, in order, every system that
    /// waits for it and whose counter was one, then every system it notifies
    /// (for a system whose dependants are distinct and do not include itself).
    pub proof fn law_finish_submits_every_ready_dependant(&self, id: SystemId)
        requires
            self.wf(),
            id < self.systems@.len(),
            forall|a: int, b: int|
                0 <= a < b < self.systems@[id as int].dependants().len() ==> #[trigger] self.systems@[id as int].dependants()[a]
                    != #[trigger] self.systems@[id as int].dependants()[b],
            !self.systems@[id as int].dependants().contains(id),
        ensures
            self.submitted_after_finish(id) == self.systems@[id as int].dependants().filter(
                |d: SystemId| self.positions@[d as int] == 1,
            ) + self.systems@[id as int].notified(),
    {
        let sys = self.systems@[id as int];
        let deps = sys.dependants();
        let base = self.positions@.update(
            id as int,
            (sys.n_dependants + sys.n_recurisve_prev_jobs_with_ambigous_access) as usize,
        );
        assert(sys.wf());
        assert forall|i: int| 0 <= i < deps.len() implies #[trigger] deps[i] < base.len() by {
            assert(deps[i] == sys.linked_systems@[i]);
        }
        law_countdown_gives_every_system_reaching_zero(base, deps);
        let f = |d: SystemId| base[d as int] == 1;
        let g = |d: SystemId| self.positions@[d as int] == 1;
        assert forall|i: int| 0 <= i < deps.len() implies f(#[trigger] deps[i]) == g(deps[i]) by {
            assert(deps[i] != id);
        }
        lemma_filter_agree(deps, f, g);
    }

    /// Records that system `id` finished: releases its access, unmarks it,
    /// resets its counter, counts down the systems linked to it and submits
    /// those that no longer wait, then those it notifies.
    pub fn system_finished(&mut self, id: SystemId, active: &mut SharedAccess)
        requires
            old(self).wf(),
            old(active).serves(old(self)),
            id < old(self).systems@.len(),
            held_worlds(old(self).needed_access@[id as int].by_world@, world_models(old(active).access@)),
        ensures
            final(self).systems@ == old(self).systems@,
            final(self).needed_access@ == old(self).needed_access@,
            final(self).generation == old(self).generation,
            final(self).positions@ == old(self).positions_after_finish(id),
            final(active).queues() == submit_all_model(
                old(self).needed_access@,
                old(self).generation,
                toggle_model(old(active).queues(), id),
                old(self).submitted_after_finish(id),
            ),
            world_models(final(active).access@) == release_all(
                world_models(old(active).access@),
                old(self).needed_access@[id as int].by_world@,
            ),
            final(self).wf(),
            final(active).serves(final(self)),
    {
        let ghost needed = self.needed_access@;
        let ghost gen = self.generation;
        let ghost sys = self.systems@[id as int];
        let ghost q0 = toggle_model(active.queues(), id);
        let ghost m0 = world_models(active.access@);
        let n_dep: usize = self.systems[id].n_dependants;
        let n_amb: usize = self.systems[id].n_recurisve_prev_jobs_with_ambigous_access;
        proof {
            assert(self.systems@[id as int].wf());
            assert(self.systems[id as int].linked_systems.len() == self.systems@[id as int].linked_systems@.len());
        }
        let max_position: usize = self.systems[id].max_position();
        self.positions.set(id, max_position);
        let ghost base = self.positions@;
        bitset_toggle(&mut active.enqueued, id);
        release_needed(&mut active.access, &self.needed_access[id].by_world);
        proof {
            assert(needed[id as int].by_world@ == self.needed_access@[id as int].by_world@);
            assert(fits_worlds(needed[id as int].by_world@, m0));
            lemma_release_all_shape(m0, needed[id as int].by_world@);
        }
        let ghost m1 = world_models(active.access@);
        assert(active.queues() == q0);
        let deps = self.systems[id].dependant_systems();
        let ghost dseq = deps@;
        proof {
            assert forall|i: int| 0 <= i < dseq.len() implies #[trigger] dseq[i] < base.len() by {
                assert(dseq[i] == sys.linked_systems@[i]);
            }
        }
        let mut i: usize = 0;
        while i < deps.len()
            invariant
                i <= dseq.len(),
                deps@ == dseq,
                dseq == sys.dependants(),
                forall|k: int| 0 <= k < dseq.len() ==> #[trigger] dseq[k] < base.len(),
                self.systems@ == old(self).systems@,
                self.needed_access@ == needed,
                self.generation == gen,
                self.positions@ == countdown(base, dseq.take(i as int)).0,
                base.len() == old(self).positions@.len(),
                active.queues() == submit_all_model(needed, gen, q0, countdown(base, dseq.take(i as int)).1),
                world_models(active.access@) == m1,
                bitset_len(active.enqueued) == needed.len(),
                needed.len() == base.len(),
            decreases dseq.len() - i,
        {
            let d: usize = deps[i];
            proof {
                assert(dseq.take(i + 1).drop_last() =~= dseq.take(i as int));
                assert(dseq.take(i + 1).last() == d);
                assert forall|k: int| 0 <= k < dseq.take(i as int).len() implies #[trigger] dseq.take(i as int)[k] < base.len() by {
                    assert(dseq.take(i as int)[k] == dseq[k]);
                }
                lemma_countdown_len(base, dseq.take(i as int));
            }
            let before: usize = self.positions[d];
            self.positions.set(d, before.wrapping_sub(1));
            if before == 1 {
                let ghost r = countdown(base, dseq.take(i as int)).1;
                proof {
                    assert(r.push(d).drop_last() =~= r);
                }
                self.submit_system(d, active);
            }
            i = i + 1;
        }
        proof {
            assert(dseq.take(i as int) =~= dseq);
            lemma_countdown_len(base, dseq);
        }
        let ghost ready = countdown(base, dseq).1;
        let notify = self.systems[id].notify_systems();
        let ghost nseq = notify@;
        let mut j: usize = 0;
        proof {
            assert(ready + nseq.take(0) =~= ready);
        }
        while j < notify.len()
            invariant
                j <= nseq.len(),
                notify@ == nseq,
                nseq == sys.notified(),
                self.systems@ == old(self).systems@,
                self.needed_access@ == needed,
                self.generation == gen,
                self.positions@ == countdown(base, dseq).0,
                active.queues() == submit_all_model(needed, gen, q0, ready + nseq.take(j as int)),
                world_models(active.access@) == m1,
                bitset_len(active.enqueued) == needed.len(),
                needed.len() == old(self).systems@.len(),
                forall|s: int, k: int|
                    0 <= s < old(self).systems@.len() && 0 <= k < old(self).systems@[s].linked_systems@.len()
                        ==> #[trigger] old(self).systems@[s].linked_systems@[k] < old(self).systems@.len(),
                old(self).systems@[id as int].wf(),
                sys == old(self).systems@[id as int],
                id < old(self).systems@.len(),
            decreases nseq.len() - j,
        {
            let n: usize = notify[j];
            proof {
                assert((ready + nseq.take(j + 1)).drop_last() =~= ready + nseq.take(j as int));
                assert((ready + nseq.take(j + 1)).last() == n);
                assert(n == sys.linked_systems@[sys.n_dependants + j]);
            }
            self.submit_system(n, active);
            j = j + 1;
        }
        proof {
            assert(nseq.take(j as int) =~= nseq);
        }
        let ghost pos1 = self.positions@;
        let amb = self.systems[id].recurisve_prev_jobs_with_ambigous_access();
        let ghost aseq = amb@;
        proof {
            assert forall|k: int| 0 <= k < aseq.len() implies #[trigger] aseq[k] < pos1.len() by {
                assert(aseq[k] == sys.linked_systems@[sys.n_dependants + sys.n_notify_systems + k]);
            }
        }
        let mut k: usize = 0;
        while k < amb.len()
            invariant
                k <= aseq.len(),
                amb@ == aseq,
                forall|x: int| 0 <= x < aseq.len() ==> #[trigger] aseq[x] < pos1.len(),
                self.systems@ == old(self).systems@,
                self.needed_access@ == needed,
                self.generation == gen,
                self.positions@ == countdown(pos1, aseq.take(k as int)).0,
                pos1.len() == old(self).positions@.len(),
            decreases aseq.len() - k,
        {
            let a: usize = amb[k];
            proof {
                assert(aseq.take(k + 1).drop_last() =~= aseq.take(k as int));
                assert forall|x: int| 0 <= x < aseq.take(k as int).len() implies #[trigger] aseq.take(k as int)[x] < pos1.len() by {
                    assert(aseq.take(k as int)[x] == aseq[x]);
                }
                lemma_countdown_len(pos1, aseq.take(k as int));
            }
            let before: usize = self.positions[a];
            self.positions.set(a, before.wrapping_sub(1));
            k = k + 1;
        }
        proof {
            assert(aseq.take(k as int) =~= aseq);
            lemma_countdown_len(pos1, aseq);
            assert(self.positions@ =~= old(self).positions_after_finish(id));
            let ids = old(self).submitted_after_finish(id);
            assert forall|x: int| 0 <= x < ids.len() implies #[trigger] ids[x] < needed.len() by {
                if x < ready.len() {
                } else {
                    assert(ids[x] == nseq[x - ready.len()]);
                    assert(nseq[x - ready.len()] == sys.linked_systems@[sys.n_dependants + x - ready.len()]);
                }
            }
            assert(queues_ok(needed, q0));
            lemma_submit_all_ok(needed, gen, q0, ids);
            assert(same_shape(m0, m1));
            assert forall|s: int| 0 <= s < needed.len() implies fits_worlds(
                (#[trigger] needed[s]).by_world@,
                world_models(active.access@),
            ) by {
                lemma_fits_same_shape(needed[s].by_world@, m0, m1);
            }
        }
    }

    /// Takes the access of system `id` when it may start beside the running
    /// systems; it always may when none runs.
    pub fn start_system(&self, id: SystemId, state: &mut SharedAccess) -> (started: bool)
        requires
            old(state).serves(self),
            id < self.needed_access@.len(),
        ensures
            started == startable(self.needed_access@[id as int].by_world@, world_models(old(state).access@)),
            idle_model(world_models(old(state).access@)) ==> started,
            started ==> world_models(final(state).access@) == add_all(
                world_models(old(state).access@),
                self.needed_access@[id as int].by_world@,
            ),
            !started ==> *final(state) == *old(state),
            final(state).queues() == old(state).queues(),
            final(state).enqueued == old(state).enqueued,
            final(state).serves(self),
    {
        let ghost needed = self.needed_access@;
        let ghost m0 = world_models(state.access@);
        proof {
            assert(fits_worlds(needed[id as int].by_world@, m0));
            if idle_model(m0) {
                lemma_idle_startable_worlds(needed[id as int].by_world@, m0);
            }
        }
        if !can_start(&self.needed_access[id].by_world, &state.access) {
            return false;
        }
        add_needed(&mut state.access, &self.needed_access[id].by_world);
        proof {
            lemma_add_all_shape(m0, needed[id as int].by_world@);
            assert forall|s: int| 0 <= s < needed.len() implies fits_worlds(
                (#[trigger] needed[s]).by_world@,
                world_models(state.access@),
            ) by {
                lemma_fits_same_shape(needed[s].by_world@, m0, world_models(state.access@));
            }
        }
        true
    }

    /// Whether the running systems hold at least the reads of system `id` in
    /// every world it names, as they do while it runs.
    pub fn holds_access(&self, id: SystemId, state: &SharedAccess) -> (b: bool)
        requires
            state.serves(self),
            id < self.needed_access@.len(),
        ensures
            b == held_worlds(self.needed_access@[id as int].by_world@, world_models(state.access@)),
    {
        let bw = &self.needed_access[id].by_world;
        let ghost m = world_models(state.access@);
        proof {
            assert(fits_worlds(bw@, m));
        }
        let mut k: usize = 0;
        while k < bw.len()
            invariant
                k <= bw@.len(),
                bw@ == self.needed_access@[id as int].by_world@,
                m == world_models(state.access@),
                fits_worlds(bw@, m),
                forall|j: int| 0 <= j < k ==> #[trigger] bw@[j].access.held_in(m[bw@[j].world_id as int]),
            decreases bw@.len() - k,
        {
            let x = &bw[k];
            proof {
                assert(x.world_id < m.len());
                assert(m[x.world_id as int] == state.access@[x.world_id as int].model());
            }
            if !x.access.is_held_in(&state.access[x.world_id]) {
                return false;
            }
            k = k + 1;
        }
        true
    }

    /// Starts the waiting systems that may run beside the running ones,
    /// appending them to `ready`. While exclusive systems wait first, none
    /// starts and they are to run alone; otherwise the queue of systems waiting
    /// for access is scanned as `enq_scan` says, and an exclusive system met
    /// there is to run alone too.
    pub fn enq_systems(&self, state: &mut SharedAccess, ready: &mut Vec<SystemId>) -> (out: EnqOutcome)
        requires
            self.wf(),
            old(state).serves(self),
        ensures
            old(state).waiting_for_access_primary@.len() > 0 ==> {
                &&& out.run_exclusive
                &&& !out.enqueued
                &&& *final(state) == *old(state)
                &&& final(ready)@ == old(ready)@
            },
            old(state).waiting_for_access_primary@.len() == 0 ==> {
                let (m, started, kept, exclusive) = enq_scan(
                    self.needed_access@,
                    world_models(old(state).access@),
                    old(state).waiting_for_access_secondary@,
                );
                &&& out.run_exclusive == exclusive
                &&& out.enqueued == (!exclusive && started.len() > 0)
                &&& final(ready)@ == old(ready)@ + started
                &&& world_models(final(state).access@) == m
                &&& final(state).waiting_for_access_secondary@ == kept
                &&& final(state).waiting_for_access_primary@ == old(state).waiting_for_access_primary@
                &&& bitset_ones(final(state).enqueued) == bitset_ones(old(state).enqueued)
            },
            final(state).serves(self),
    {
        if state.waiting_for_access_primary.len() > 0 {
            return EnqOutcome { enqueued: false, run_exclusive: true };
        }
        let ghost needed = self.needed_access@;
        let ghost m0 = world_models(state.access@);
        let ghost r0 = ready@;
        let r0_len: usize = ready.len();
        let mut waiting: Vec<SystemToRun> = Vec::new();
        std::mem::swap(&mut waiting, &mut state.waiting_for_access_secondary);
        let ghost w = waiting@;
        let mut exclusive = false;
        let mut i: usize = 0;
        while i < waiting.len()
            invariant
                i <= w.len(),
                waiting@ == w,
                self.wf(),
                needed == self.needed_access@,
                bitset_len(state.enqueued) == needed.len(),
                bitset_ones(state.enqueued) == bitset_ones(old(state).enqueued),
                state.waiting_for_access_primary@ == old(state).waiting_for_access_primary@,
                queues_ok(needed, old(state).queues()),
                w == old(state).waiting_for_access_secondary@,
                forall|s: int| 0 <= s < needed.len() ==> fits_worlds(
                    (#[trigger] needed[s]).by_world@,
                    world_models(state.access@),
                ),
                ({
                    let (m, started, kept, ex) = enq_scan(needed, m0, w.take(i as int));
                    &&& world_models(state.access@) == m
                    &&& ready@ == r0 + started
                    &&& state.waiting_for_access_secondary@ == kept
                    &&& exclusive == ex
                }),
                r0_len == r0.len(),
            decreases w.len() - i,
        {
            let x: SystemToRun = waiting[i];
            let ghost pre = enq_scan(needed, m0, w.take(i as int));
            proof {
                assert(w.take(i + 1).drop_last() =~= w.take(i as int));
                assert(w.take(i + 1).last() == x);
                assert(old(state).queues().2[i as int] == x);
                assert(x.id < needed.len());
            }
            if exclusive || self.needed_access[x.id].exclusive_access {
                state.waiting_for_access_secondary.push(x);
                exclusive = true;
            } else if can_start(&self.needed_access[x.id].by_world, &state.access) {
                let ghost m1 = world_models(state.access@);
                add_needed(&mut state.access, &self.needed_access[x.id].by_world);
                ready.push(x.id);
                proof {
                    assert(fits_worlds(needed[x.id as int].by_world@, m1));
                    lemma_add_all_shape(m1, needed[x.id as int].by_world@);
                    assert(same_shape(m1, world_models(state.access@)));
                    assert forall|s: int| 0 <= s < needed.len() implies fits_worlds(
                        (#[trigger] needed[s]).by_world@,
                        world_models(state.access@),
                    ) by {
                        lemma_fits_same_shape(needed[s].by_world@, m1, world_models(state.access@));
                    }
                    assert(ready@ =~= r0 + pre.1.push(x.id));
                }
            } else {
                state.waiting_for_access_secondary.push(x);
            }
            i = i + 1;
        }
        proof {
            assert(w.take(i as int) =~= w);
            let (m, started, kept, ex) = enq_scan(needed, m0, w);
            assert(queues_ok(needed, state.queues())) by {
                assert forall|j: int| 0 <= j < w.len() implies #[trigger] w[j].id < needed.len() by {
                    assert(old(state).queues().2[j] == w[j]);
                }
                lemma_scan_keeps_ok(needed, m0, w);
            }
        }
        let started_any: bool = ready.len() > r0_len;
        proof {
            assert(ready@.len() == r0.len() + enq_scan(needed, m0, w).1.len());
        }
        EnqOutcome { enqueued: !exclusive && started_any, run_exclusive: exclusive }
    }

    /// Takes the systems that need the executor alone out of both queues and
    /// gives them in the order they are to run: those of the exclusive queue,
    /// then those of the other queue. This is done only once no running
    /// system holds access, that is once the executor has paused.
    pub fn take_exclusive(&self, state: &mut SharedAccess) -> (run: Vec<SystemId>)
        requires
            old(state).serves(self),
            idle_model(world_models(old(state).access@)),
        ensures
            ({
                let (r1, k1) = split_exclusive(self.needed_access@, old(state).waiting_for_access_primary@);
                let (r2, k2) = split_exclusive_waiting(self.needed_access@, old(state).waiting_for_access_secondary@);
                &&& run@ == r1 + r2
                &&& final(state).waiting_for_access_primary@ == k1
                &&& final(state).waiting_for_access_secondary@ == k2
            }),
            final(state).access@ == old(state).access@,
            final(state).enqueued == old(state).enqueued,
            final(state).serves(self),
    {
        let ghost needed = self.needed_access@;
        let mut run: Vec<SystemId> = Vec::new();
        let mut primary: Vec<SystemId> = Vec::new();
        std::mem::swap(&mut primary, &mut state.waiting_for_access_primary);
        let ghost p = primary@;
        proof {
            assert forall|j: int| 0 <= j < p.len() implies #[trigger] p[j] < needed.len() by {
                assert(old(state).queues().1[j] == p[j]);
            }
        }
        let mut i: usize = 0;
        while i < primary.len()
            invariant
                i <= p.len(),
                primary@ == p,
                needed == self.needed_access@,
                forall|j: int| 0 <= j < p.len() ==> #[trigger] p[j] < needed.len(),
                run@ == split_exclusive(needed, p.take(i as int)).0,
                state.waiting_for_access_primary@ == split_exclusive(needed, p.take(i as int)).1,
                state.waiting_for_access_secondary@ == old(state).waiting_for_access_secondary@,
                state.access@ == old(state).access@,
                state.enqueued == old(state).enqueued,
            decreases p.len() - i,
        {
            let id: SystemId = primary[i];
            proof {
                assert(p.take(i + 1).drop_last() =~= p.take(i as int));
                assert(p.take(i + 1).last() == id);
            }
            if self.needed_access[id].exclusive_access {
                run.push(id);
            } else {
                state.waiting_for_access_primary.push(id);
            }
            i = i + 1;
        }
        proof {
            assert(p.take(i as int) =~= p);
        }
        let ghost r1 = run@;
        let mut waiting: Vec<SystemToRun> = Vec::new();
        std::mem::swap(&mut waiting, &mut state.waiting_for_access_secondary);
        let ghost w = waiting@;
        proof {
            assert forall|j: int| 0 <= j < w.len() implies #[trigger] w[j].id < needed.len() by {
                assert(old(state).queues().2[j] == w[j]);
            }
            assert(r1 + split_exclusive_waiting(needed, w.take(0)).0 =~= r1);
        }
        let mut i: usize = 0;
        while i < waiting.len()
            invariant
                i <= w.len(),
                waiting@ == w,
                needed == self.needed_access@,
                forall|j: int| 0 <= j < w.len() ==> #[trigger] w[j].id < needed.len(),
                run@ == r1 + split_exclusive_waiting(needed, w.take(i as int)).0,
                state.waiting_for_access_secondary@ == split_exclusive_waiting(needed, w.take(i as int)).1,
                state.waiting_for_access_primary@ == split_exclusive(needed, p).1,
                state.access@ == old(state).access@,
                state.enqueued == old(state).enqueued,
            decreases w.len() - i,
        {
            let x: SystemToRun = waiting[i];
            proof {
                assert(w.take(i + 1).drop_last() =~= w.take(i as int));
                assert(w.take(i + 1).last() == x);
            }
            if self.needed_access[x.id].exclusive_access {
                run.push(x.id);
                proof {
                    assert(run@ =~= r1 + split_exclusive_waiting(needed, w.take(i + 1)).0);
                }
            } else {
                state.waiting_for_access_secondary.push(x);
            }
            i = i + 1;
        }
        proof {
            assert(w.take(i as int) =~= w);
            lemma_split_kept(needed, p);
            lemma_split_waiting_kept(needed, w);
            let k1 = split_exclusive(needed, p).1;
            let k2 = split_exclusive_waiting(needed, w).1;
            assert forall|i: int| 0 <= i < k1.len() implies #[trigger] k1[i] < needed.len()
                && needed[k1[i] as int].exclusive_access by {
                let j: int = choose|j: int| 0 <= j < p.len() && p[j] == k1[i];
                assert(old(state).queues().1[j] == p[j]);
            }
            assert forall|i: int| 0 <= i < k2.len() implies #[trigger] k2[i].id < needed.len() by {
                let j: int = choose|j: int| 0 <= j < w.len() && w[j] == k2[i];
            }
            assert(queues_ok(needed, state.queues()));
        }
        run
    }
}

/// Submitting a system that is already submitted changes nothing: a system
/// waits in the queues at most once until it finishes.
pub proof fn law_submit_is_idempotent(needed: Seq<NeededAccess>, generation: usize, q: Queues, id: SystemId)
    ensures
        submit_model(needed, generation, submit_model(needed, generation, q, id), id) == submit_model(
            needed,
            generation,
            q,
            id,
        ),
{
}

/// A pass over the waiting systems loses none and starts no exclusive one:
/// each waiting system is either started or still waiting.
pub proof fn law_scan_accounts_for_every_system(
    needed: Seq<NeededAccess>,
    m: Seq<(Seq<usize>, Seq<bool>)>,
    waiting: Seq<SystemToRun>,
)
    ensures
        enq_scan(needed, m, waiting).1.len() + enq_scan(needed, m, waiting).2.len() == waiting.len(),
        forall|i: int|
            0 <= i < enq_scan(needed, m, waiting).1.len() ==> !needed[#[trigger] enq_scan(needed, m, waiting).1[i] as int].exclusive_access,
    decreases waiting.len(),
{
    if waiting.len() > 0 {
        law_scan_accounts_for_every_system(needed, m, waiting.drop_last());
        let s1 = enq_scan(needed, m, waiting.drop_last()).1;
        let s2 = enq_scan(needed, m, waiting).1;
        assert forall|i: int| 0 <= i < s2.len() implies !needed[#[trigger] s2[i] as int].exclusive_access by {
            if i < s1.len() {
                assert(s2[i] == s1[i]);
            }
        }
    }
}

/// The counters of the worlds after the systems of `ids` started one after another.
pub open spec fn add_systems(
    needed: Seq<NeededAccess>,
    m: Seq<(Seq<usize>, Seq<bool>)>,
    ids: Seq<SystemId>,
) -> Seq<(Seq<usize>, Seq<bool>)>
    decreases ids.len(),
{
    if ids.len() == 0 {
        m
    } else {
        add_all(add_systems(needed, m, ids.drop_last()), needed[ids.last() as int].by_world@)
    }
}

/// A pass over the waiting systems starts a system only when it may run beside
/// the running ones and those started before it in the same pass, whose
/// access was counted first; the counters after the pass are those of the
/// running systems with the access of every started system added in order.
pub proof fn law_scan_starts_only_compatible(
    needed: Seq<NeededAccess>,
    m: Seq<(Seq<usize>, Seq<bool>)>,
    waiting: Seq<SystemToRun>,
)
    ensures
        enq_scan(needed, m, waiting).0 == add_systems(needed, m, enq_scan(needed, m, waiting).1),
        forall|j: int|
            0 <= j < enq_scan(needed, m, waiting).1.len() ==> startable(
                needed[#[trigger] enq_scan(needed, m, waiting).1[j] as int].by_world@,
                add_systems(needed, m, enq_scan(needed, m, waiting).1.take(j)),
            ),
    decreases waiting.len(),
{
    if waiting.len() > 0 {
        law_scan_starts_only_compatible(needed, m, waiting.drop_last());
        let st1 = enq_scan(needed, m, waiting.drop_last()).1;
        let st2 = enq_scan(needed, m, waiting).1;
        let x = waiting.last();
        if st2.len() > st1.len() {
            assert(st2 == st1.push(x.id));
            assert(st2.drop_last() =~= st1);
            assert(st2.take(st1.len() as int) =~= st1);
            assert forall|j: int| 0 <= j < st2.len() implies startable(
                needed[#[trigger] st2[j] as int].by_world@,
                add_systems(needed, m, st2.take(j)),
            ) by {
                if j < st1.len() {
                    assert(st2[j] == st1[j]);
                    assert(st2.take(j) =~= st1.take(j));
                }
            }
        }
    }
}

/// The counters `m2` hold at least what `m1` holds: the same worlds and
/// components, no fewer reads of any component, and every write of `m1`.
pub open spec fn grows(m1: Seq<(Seq<usize>, Seq<bool>)>, m2: Seq<(Seq<usize>, Seq<bool>)>) -> bool {
    &&& same_shape(m1, m2)
    &&& forall|w: int, c: int| 0 <= w < m1.len() && 0 <= c < m1[w].0.len() ==> m1[w].0[c] <= #[trigger] m2[w].0[c]
    &&& forall|w: int, c: int| 0 <= w < m1.len() && 0 <= c < m1[w].1.len() && m1[w].1[c] ==> #[trigger] m2[w].1[c]
}

/// One of two accesses to a world reads a component that the other writes.
pub open spec fn read_write_clash(a: Access, b: Access) -> bool {
    exists|c: int|
        (mentions(a.reads@, c) && mentions(b.writes@, c)) || (mentions(a.writes@, c) && mentions(b.reads@, c))
}

/// Two systems clash: in a world that both name, one reads a component that the other writes.
pub open spec fn systems_clash(a: NeededAccess, b: NeededAccess) -> bool {
    exists|k1: int, k2: int|
        0 <= k1 < a.by_world@.len() && 0 <= k2 < b.by_world@.len() && a.by_world@[k1].world_id
            == b.by_world@[k2].world_id && read_write_clash(a.by_world@[k1].access, b.by_world@[k2].access)
}

proof fn lemma_mentions_count(s: Seq<usize>, c: int)
    requires
        mentions(s, c),
    ensures
        count(s, c) >= 1,
    decreases s.len(),
{
    let k: int = choose|k: int| 0 <= k < s.len() && s[k] == c;
    if k < s.len() - 1 {
        assert(s.drop_last()[k] == c);
        lemma_mentions_count(s.drop_last(), c);
    }
}

/// Starting a system whose access fits and has room only adds to the counters.
proof fn lemma_add_to_grows(a: Access, m: (Seq<usize>, Seq<bool>))
    requires
        a.fits_model(m),
        a.room_in(m),
    ensures
        a.add_to(m).0.len() == m.0.len(),
        a.add_to(m).1.len() == m.1.len(),
        forall|c: int| 0 <= c < m.0.len() ==> #[trigger] a.add_to(m).0[c] == m.0[c] + count(a.reads@, c),
        forall|c: int| 0 <= c < m.1.len() ==> #[trigger] a.add_to(m).1[c] == (m.1[c] || mentions(a.writes@, c)),
{
    crate::access::lemma_room_has_room(&a, m);
}

proof fn lemma_add_all_grows(m: Seq<(Seq<usize>, Seq<bool>)>, bw: Seq<NeededWorldAccess>)
    requires
        fits_worlds(bw, m),
        startable(bw, m),
    ensures
        grows(m, add_all(m, bw)),
{
    let m2 = add_all(m, bw);
    lemma_add_all_shape(m, bw);
    assert forall|w: int| #![trigger m2[w]] 0 <= w < m.len() implies {
        &&& forall|c: int| 0 <= c < m[w].0.len() ==> m[w].0[c] <= #[trigger] m2[w].0[c]
        &&& forall|c: int| 0 <= c < m[w].1.len() && m[w].1[c] ==> #[trigger] m2[w].1[c]
    } by {
        if exists|k: int| 0 <= k < bw.len() && #[trigger] bw[k].world_id == w {
            let k: int = choose|k: int| 0 <= k < bw.len() && #[trigger] bw[k].world_id == w;
            lemma_add_all_at(m, bw, k);
            assert(bw[k].access.fits_model(m[w]));
            assert(bw[k].access.room_in(m[w]));
            lemma_add_to_grows(bw[k].access, m[w]);
        } else {
            lemma_add_all_other(m, bw, w);
        }
    }
}

proof fn lemma_grows_trans(
    m1: Seq<(Seq<usize>, Seq<bool>)>,
    m2: Seq<(Seq<usize>, Seq<bool>)>,
    m3: Seq<(Seq<usize>, Seq<bool>)>,
)
    requires
        grows(m1, m2),
        grows(m2, m3),
    ensures
        grows(m1, m3),
{
    assert forall|w: int| 0 <= w < m1.len() implies (#[trigger] m1[w]).0.len() == m3[w].0.len() && m1[w].1.len()
        == m3[w].1.len() by {
        assert(m1[w].0.len() == m2[w].0.len());
        assert(m2[w].0.len() == m3[w].0.len());
    }
    assert forall|w: int, c: int| 0 <= w < m1.len() && 0 <= c < m1[w].0.len() implies m1[w].0[c]
        <= #[trigger] m3[w].0[c] by {
        assert(m1[w].0[c] <= m2[w].0[c]);
        assert(m2[w].0.len() == m1[w].0.len());
    }
    assert forall|w: int, c: int| 0 <= w < m1.len() && 0 <= c < m1[w].1.len() && m1[w].1[c] implies #[trigger] m3[w].1[c] by {
        assert(m2[w].1[c]);
        assert(m2[w].1.len() == m1[w].1.len());
    }
}

/// The systems started by a pass are systems of the executor when the waiting ones are.
proof fn lemma_scan_started_ok(needed: Seq<NeededAccess>, m: Seq<(Seq<usize>, Seq<bool>)>, w: Seq<SystemToRun>)
    requires
        forall|i: int| 0 <= i < w.len() ==> #[trigger] w[i].id < needed.len(),
    ensures
        forall|i: int| 0 <= i < enq_scan(needed, m, w).1.len() ==> #[trigger] enq_scan(needed, m, w).1[i] < needed.len(),
    decreases w.len(),
{
    if w.len() > 0 {
        lemma_scan_started_ok(needed, m, w.drop_last());
        assert(w[w.len() - 1].id < needed.len());
        let s1 = enq_scan(needed, m, w.drop_last()).1;
        let s2 = enq_scan(needed, m, w).1;
        assert forall|i: int| 0 <= i < s2.len() implies #[trigger] s2[i] < needed.len() by {
            if i < s1.len() {
                assert(s2[i] == s1[i]);
            }
        }
    }
}

/// The counters grow from each prefix of `ids` to every longer one, when
/// each system started where it may.
proof fn lemma_prefix_grows(
    needed: Seq<NeededAccess>,
    m: Seq<(Seq<usize>, Seq<bool>)>,
    ids: Seq<SystemId>,
    a: int,
    b: int,
)
    requires
        0 <= a <= b <= ids.len(),
        forall|s: int| 0 <= s < needed.len() ==> fits_worlds((#[trigger] needed[s]).by_world@, m),
        forall|i: int| 0 <= i < ids.len() ==> #[trigger] ids[i] < needed.len(),
        forall|j: int|
            0 <= j < ids.len() ==> startable(needed[#[trigger] ids[j] as int].by_world@, add_systems(needed, m, ids.take(j))),
    ensures
        grows(add_systems(needed, m, ids.take(a)), add_systems(needed, m, ids.take(b))),
        same_shape(m, add_systems(needed, m, ids.take(b))),
    decreases b,
{
    let mb = add_systems(needed, m, ids.take(b));
    if b == 0 {
        assert(ids.take(0) =~= Seq::<SystemId>::empty());
        assert(mb == m);
    } else {
        let b1 = b - 1;
        if a == b {
            lemma_prefix_grows(needed, m, ids, b1, b1);
        } else {
            lemma_prefix_grows(needed, m, ids, a, b1);
        }
        let m1 = add_systems(needed, m, ids.take(b1));
        let bw = needed[ids[b1] as int].by_world@;
        assert(ids.take(b).drop_last() =~= ids.take(b1));
        assert(ids.take(b).last() == ids[b1]);
        assert(mb == add_all(m1, bw));
        assert(fits_worlds(bw, m));
        lemma_fits_same_shape(bw, m, m1);
        assert(startable(bw, m1));
        lemma_add_all_grows(m1, bw);
        assert(same_shape(m, mb)) by {
            assert forall|w: int| 0 <= w < m.len() implies (#[trigger] m[w]).0.len() == mb[w].0.len() && m[w].1.len()
                == mb[w].1.len() by {
                assert(m[w].0.len() == m1[w].0.len());
                assert(m1[w].0.len() == mb[w].0.len());
            }
        }
        if a == b {
            assert forall|w: int, c: int| 0 <= w < mb.len() && 0 <= c < mb[w].0.len() implies mb[w].0[c]
                <= #[trigger] mb[w].0[c] by {}
        } else {
            lemma_grows_trans(add_systems(needed, m, ids.take(a)), m1, mb);
        }
    }
}

/// No two systems that one pass over the waiting systems starts clash: in a
/// world that both name, neither reads a component that the other writes.
/// (Two systems that write one component may both start: a write is checked
/// against the reads and not against the writes of the running systems.)
pub proof fn law_scan_starts_no_clashing_systems(
    needed: Seq<NeededAccess>,
    m: Seq<(Seq<usize>, Seq<bool>)>,
    waiting: Seq<SystemToRun>,
)
    requires
        forall|s: int| 0 <= s < needed.len() ==> fits_worlds((#[trigger] needed[s]).by_world@, m),
        forall|i: int| 0 <= i < waiting.len() ==> #[trigger] waiting[i].id < needed.len(),
    ensures
        forall|i: int, j: int|
            0 <= i < j < enq_scan(needed, m, waiting).1.len() ==> !systems_clash(
                needed[#[trigger] enq_scan(needed, m, waiting).1[i] as int],
                needed[#[trigger] enq_scan(needed, m, waiting).1[j] as int],
            ),
{
    let st = enq_scan(needed, m, waiting).1;
    law_scan_starts_only_compatible(needed, m, waiting);
    lemma_scan_started_ok(needed, m, waiting);
    assert forall|i: int, j: int| 0 <= i < j < st.len() implies !systems_clash(
        needed[#[trigger] st[i] as int],
        needed[#[trigger] st[j] as int],
    ) by {
        let na = needed[st[i] as int];
        let nb = needed[st[j] as int];
        if systems_clash(na, nb) {
            let (k1, k2) = choose|k1: int, k2: int|
                0 <= k1 < na.by_world@.len() && 0 <= k2 < nb.by_world@.len() && na.by_world@[k1].world_id
                    == nb.by_world@[k2].world_id && read_write_clash(na.by_world@[k1].access, nb.by_world@[k2].access);
            let xa = na.by_world@[k1];
            let xb = nb.by_world@[k2];
            let w = xa.world_id as int;
            let c: int = choose|c: int|
                (mentions(xa.access.reads@, c) && mentions(xb.access.writes@, c)) || (mentions(xa.access.writes@, c)
                    && mentions(xb.access.reads@, c));
            let mi = add_systems(needed, m, st.take(i));
            let mi1 = add_systems(needed, m, st.take(i + 1));
            let mj = add_systems(needed, m, st.take(j));
            lemma_prefix_grows(needed, m, st, i, i);
            lemma_prefix_grows(needed, m, st, i + 1, j);
            assert(st.take(i + 1).drop_last() =~= st.take(i));
            assert(st.take(i + 1).last() == st[i]);
            assert(mi1 == add_all(mi, na.by_world@));
            assert(fits_worlds(na.by_world@, m));
            assert(fits_worlds(nb.by_world@, m));
            lemma_fits_same_shape(na.by_world@, m, mi);
            assert(startable(na.by_world@, mi));
            assert(startable(nb.by_world@, mj));
            lemma_add_all_at(mi, na.by_world@, k1);
            assert(xa.access.fits_model(mi[w]));
            assert(xa.access.room_in(mi[w]));
            lemma_add_to_grows(xa.access, mi[w]);
            assert(xb.access.compatible_with_model(mj[w]));
            assert(w < m.len());
            if mentions(xa.access.reads@, c) && mentions(xb.access.writes@, c) {
                let t: int = choose|t: int| 0 <= t < xb.access.writes@.len() && xb.access.writes@[t] == c;
                let r: int = choose|r: int| 0 <= r < xa.access.reads@.len() && xa.access.reads@[r] == c;
                assert(xa.access.reads@[r] < mi[w].0.len());
                lemma_mentions_count(xa.access.reads@, c);
                assert(mi1[w].0[c] >= 1);
                assert(mj[w].0[c] >= 1);
                assert(mj[w].0[xb.access.writes@[t] as int] == 0);
            } else {
                let t: int = choose|t: int| 0 <= t < xb.access.reads@.len() && xb.access.reads@[t] == c;
                let r: int = choose|r: int| 0 <= r < xa.access.writes@.len() && xa.access.writes@[r] == c;
                assert(xa.access.writes@[r] < mi[w].1.len());
                assert(mi1[w].1[c]);
                assert(mj[w].1[c]);
                assert(!mj[w].1[xb.access.reads@[t] as int]);
            }
        }
    }
}

/// The world named by `bw[k]` after all of `bw` was released is that world
/// with the access of `bw[k]` released, when no world is named twice.
proof fn lemma_release_all_at(m: Seq<(Seq<usize>, Seq<bool>)>, bw: Seq<NeededWorldAccess>, k: int)
    requires
        0 <= k < bw.len(),
        fits_worlds(bw, m),
    ensures
        release_all(m, bw)[bw[k].world_id as int] == bw[k].access.release_from(m[bw[k].world_id as int]),
    decreases bw.len(),
{
    let w = bw[k].world_id as int;
    let t = bw.drop_last();
    if k == bw.len() - 1 {
        assert forall|j: int| 0 <= j < t.len() implies #[trigger] t[j].world_id != w by {
            assert(t[j] == bw[j]);
        }
        assert forall|j: int| 0 <= j < t.len() implies #[trigger] t[j].world_id < m.len() by {
            assert(t[j] == bw[j]);
        }
        lemma_release_all_other(m, t, w);
    } else {
        assert(fits_worlds(t, m)) by {
            assert forall|a: int| 0 <= a < t.len() implies #[trigger] t[a].world_id < m.len()
                && t[a].access.fits_model(m[t[a].world_id as int]) by {
                assert(t[a] == bw[a]);
            }
            assert forall|a: int, b: int| 0 <= a < b < t.len() implies #[trigger] t[a].world_id != #[trigger] t[b].world_id by {
                assert(t[a] == bw[a]);
                assert(t[b] == bw[b]);
            }
        }
        assert(t[k] == bw[k]);
        lemma_release_all_at(m, t, k);
        assert(bw[bw.len() - 1].world_id != bw[k].world_id);
        assert forall|j: int| 0 <= j < t.len() implies #[trigger] t[j].world_id < m.len() by {
            assert(t[j] == bw[j]);
        }
        lemma_release_all_shape(m, t);
    }
}

/// The world named by `bw[k]` after all of `bw` was added is that world with
/// the access of `bw[k]` added, when no world is named twice.
proof fn lemma_add_all_at(m: Seq<(Seq<usize>, Seq<bool>)>, bw: Seq<NeededWorldAccess>, k: int)
    requires
        0 <= k < bw.len(),
        fits_worlds(bw, m),
    ensures
        add_all(m, bw)[bw[k].world_id as int] == bw[k].access.add_to(m[bw[k].world_id as int]),
    decreases bw.len(),
{
    let w = bw[k].world_id as int;
    let t = bw.drop_last();
    if k == bw.len() - 1 {
        assert forall|j: int| 0 <= j < t.len() implies #[trigger] t[j].world_id != w by {
            assert(t[j] == bw[j]);
        }
        assert forall|j: int| 0 <= j < t.len() implies #[trigger] t[j].world_id < m.len() by {
            assert(t[j] == bw[j]);
        }
        lemma_add_all_other(m, t, w);
    } else {
        assert(fits_worlds(t, m)) by {
            assert forall|a: int| 0 <= a < t.len() implies #[trigger] t[a].world_id < m.len()
                && t[a].access.fits_model(m[t[a].world_id as int]) by {
                assert(t[a] == bw[a]);
            }
            assert forall|a: int, b: int| 0 <= a < b < t.len() implies #[trigger] t[a].world_id != #[trigger] t[b].world_id by {
                assert(t[a] == bw[a]);
                assert(t[b] == bw[b]);
            }
        }
        assert(t[k] == bw[k]);
        lemma_add_all_at(m, t, k);
        assert(bw[bw.len() - 1].world_id != bw[k].world_id);
        assert forall|j: int| 0 <= j < t.len() implies #[trigger] t[j].world_id < m.len() by {
            assert(t[j] == bw[j]);
        }
        lemma_add_all_shape(m, t);
    }
}

/// When a system that may start does start and later finishes, the access
/// counters of every world are as they were before it started, as long as no
/// running system writes a component that it writes.
pub proof fn law_finish_releases_what_start_took(m: Seq<(Seq<usize>, Seq<bool>)>, bw: Seq<NeededWorldAccess>)
    requires
        fits_worlds(bw, m),
        startable(bw, m),
        forall|k: int, i: int|
            0 <= k < bw.len() && 0 <= i < bw[k].access.writes@.len() ==> !m[bw[k].world_id as int].1[#[trigger] bw[k].access.writes@[i] as int],
    ensures
        release_all(add_all(m, bw), bw) == m,
{
    let a = add_all(m, bw);
    lemma_add_all_shape(m, bw);
    assert(same_shape(m, a));
    lemma_fits_same_shape(bw, m, a);
    lemma_release_all_shape(a, bw);
    let r = release_all(a, bw);
    assert forall|w: int| 0 <= w < m.len() implies r[w] == m[w] by {
        if exists|k: int| 0 <= k < bw.len() && #[trigger] bw[k].world_id == w {
            let k: int = choose|k: int| 0 <= k < bw.len() && #[trigger] bw[k].world_id == w;
            lemma_add_all_at(m, bw, k);
            lemma_release_all_at(a, bw, k);
            assert(bw[k].access.compatible_with_model(m[w]));
            assert(bw[k].access.room_in(m[w]));
            lemma_room_has_room(&bw[k].access, m[w]);
            assert forall|i: int| 0 <= i < bw[k].access.writes@.len() implies !m[w].1[#[trigger] bw[k].access.writes@[i] as int] by {
            }
            law_release_undoes_add(m[w], bw[k].access);
        } else {
            assert forall|j: int| 0 <= j < bw.len() implies #[trigger] bw[j].world_id != w by {}
            lemma_add_all_other(m, bw, w);
            lemma_release_all_other(a, bw, w);
        }
    }
    assert(r =~= m);
}

} // verus!

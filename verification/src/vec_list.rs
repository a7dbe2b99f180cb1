//! A doubly linked list whose nodes live in a `Vec` and are addressed by their
//! slot index. Freed slots are remembered and reused by later insertions, so
//! an index handed out by the list stays valid until that element is removed.
use vstd::prelude::*;

verus! {

/// The index that stands for "no node".
pub const NIL: usize = usize::MAX;

struct Node<T> {
    prev: usize,
    next: usize,
    value: Option<T>,
}

/// A list of values kept in insertion order, each stored in a stable slot.
pub struct VecList<T> {
    nodes: Vec<Node<T>>,
    head: usize,
    tail: usize,
    empty_spots: Vec<usize>,
    order: Ghost<Seq<usize>>,
}

/// One element of a [`VecList`] together with the slot index it lives in.
pub struct NodeItem<'a, T> {
    pub index: usize,
    pub value: &'a T,
}

/// The elements of `s` whose flag in `keep` is set, in the order of `s`.
pub open spec fn select<A>(s: Seq<A>, keep: Seq<bool>) -> Seq<A>
    decreases s.len(),
{
    if s.len() == 0 {
        Seq::empty()
    } else {
        let rest = select(s.drop_last(), keep.drop_last());
        if keep[s.len() - 1] {
            rest.push(s.last())
        } else {
            rest
        }
    }
}

/// Selecting over one more element either appends it or leaves the result as is.
pub proof fn lemma_select_push<A>(s: Seq<A>, keep: Seq<bool>, x: A, b: bool)
    requires
        s.len() == keep.len(),
    ensures
        select(s.push(x), keep.push(b)) == if b {
            select(s, keep).push(x)
        } else {
            select(s, keep)
        },
{
    assert(s.push(x).drop_last() =~= s);
    assert(keep.push(b).drop_last() =~= keep);
}

/// Keeping every element gives the sequence back.
pub proof fn lemma_select_all<A>(s: Seq<A>, keep: Seq<bool>)
    requires
        s.len() == keep.len(),
        forall|i: int| 0 <= i < keep.len() ==> keep[i],
    ensures
        select(s, keep) == s,
    decreases s.len(),
{
    if s.len() > 0 {
        lemma_select_all(s.drop_last(), keep.drop_last());
        assert(s.drop_last().push(s.last()) =~= s);
    }
}

/// Selecting with the same flags from two sequences of one length gives results of one length.
pub proof fn lemma_select_len<A, B>(s1: Seq<A>, s2: Seq<B>, keep: Seq<bool>)
    requires
        s1.len() == keep.len(),
        s2.len() == keep.len(),
    ensures
        select(s1, keep).len() == select(s2, keep).len(),
        select(s1, keep).len() <= s1.len(),
    decreases s1.len(),
{
    if s1.len() > 0 {
        lemma_select_len(s1.drop_last(), s2.drop_last(), keep.drop_last());
    }
}

/// One step of a filtering walk: the element at position `k` is either kept or dropped.
proof fn lemma_filter_step<A>(s: Seq<A>, keep: Seq<bool>, k: int, b: bool)
    requires
        0 <= k < s.len(),
        keep.len() == k,
    ensures
        ({
            let cur = select(s.take(k), keep) + s.skip(k);
            let next = select(s.take(k + 1), keep.push(b)) + s.skip(k + 1);
            let q: int = select(s.take(k), keep).len() as int;
            &&& cur[q] == s[k]
            &&& b ==> next == cur
            &&& !b ==> next == cur.remove(q)
            &&& q < cur.len()
        }),
{
    let a = select(s.take(k), keep);
    assert(s.take(k + 1) =~= s.take(k).push(s[k]));
    lemma_select_push(s.take(k), keep, s[k], b);
    let cur = a + s.skip(k);
    assert(cur[a.len() as int] == s[k]);
    if b {
        assert(a.push(s[k]) + s.skip(k + 1) =~= cur);
    } else {
        assert(a + s.skip(k + 1) =~= cur.remove(a.len() as int));
    }
}

spec fn distinct(s: Seq<usize>) -> bool {
    forall|a: int, b: int| 0 <= a < s.len() && 0 <= b < s.len() && a != b ==> s[a] != s[b]
}

spec fn next_of(order: Seq<usize>, k: int) -> usize {
    if k + 1 < order.len() {
        order[k + 1]
    } else {
        NIL
    }
}

spec fn prev_of(order: Seq<usize>, k: int) -> usize {
    if k > 0 {
        order[k - 1]
    } else {
        NIL
    }
}

proof fn lemma_index_of_distinct(s: Seq<usize>, q: int)
    requires
        distinct(s),
        0 <= q < s.len(),
    ensures
        s.contains(s[q]),
        s.index_of(s[q]) == q,
{
    assert(s[q] == s[q]);
    let p: int = s.index_of(s[q]);
    assert(s.contains(s[q]));
}

fn set_next<T>(nodes: &mut Vec<Node<T>>, i: usize, next: usize)
    requires
        i < old(nodes)@.len(),
    ensures
        final(nodes)@.len() == old(nodes)@.len(),
        forall|j: int| 0 <= j < old(nodes)@.len() && j != i ==> final(nodes)@[j] == old(nodes)@[j],
        final(nodes)@[i as int].next == next,
        final(nodes)@[i as int].prev == old(nodes)@[i as int].prev,
        final(nodes)@[i as int].value == old(nodes)@[i as int].value,
{
    nodes[i].next = next;
}

fn set_prev<T>(nodes: &mut Vec<Node<T>>, i: usize, prev: usize)
    requires
        i < old(nodes)@.len(),
    ensures
        final(nodes)@.len() == old(nodes)@.len(),
        forall|j: int| 0 <= j < old(nodes)@.len() && j != i ==> final(nodes)@[j] == old(nodes)@[j],
        final(nodes)@[i as int].prev == prev,
        final(nodes)@[i as int].next == old(nodes)@[i as int].next,
        final(nodes)@[i as int].value == old(nodes)@[i as int].value,
{
    nodes[i].prev = prev;
}

fn free_node<T>(nodes: &mut Vec<Node<T>>, i: usize) -> (v: Option<T>)
    requires
        i < old(nodes)@.len(),
    ensures
        final(nodes)@.len() == old(nodes)@.len(),
        forall|j: int| 0 <= j < old(nodes)@.len() && j != i ==> final(nodes)@[j] == old(nodes)@[j],
        final(nodes)@[i as int].prev == NIL,
        final(nodes)@[i as int].next == NIL,
        final(nodes)@[i as int].value is None,
        v == old(nodes)@[i as int].value,
{
    let node = &mut nodes[i];
    node.prev = NIL;
    node.next = NIL;
    node.value.take()
}

spec fn node_ok<T>(n: Seq<Node<T>>, o: Seq<usize>, k: int) -> bool {
    &&& o[k] < n.len()
    &&& n[o[k] as int].value is Some
    &&& n[o[k] as int].next == next_of(o, k)
    &&& n[o[k] as int].prev == prev_of(o, k)
}

spec fn links_ok<T>(n: Seq<Node<T>>, o: Seq<usize>) -> bool {
    forall|k: int| 0 <= k < o.len() ==> #[trigger] node_ok(n, o, k)
}

spec fn covered<T>(n: Seq<Node<T>>, o: Seq<usize>) -> bool {
    forall|i: int| 0 <= i < n.len() && (#[trigger] n[i]).value is Some ==> o.contains(i as usize)
}

spec fn spot_ok<T>(n: Seq<Node<T>>, spots: Seq<usize>, s: int) -> bool {
    spots[s] == NIL || (spots[s] < n.len() && n[spots[s] as int].value is None)
}

/// The marker `NIL` stands among the freed slots only last, and only in an
/// empty list: removing the last element records it there.
spec fn nil_last(spots: Seq<usize>, o: Seq<usize>) -> bool {
    forall|s: int| #![trigger spots[s]] 0 <= s < spots.len() && spots[s] == NIL ==> s == spots.len() - 1 && o.len() == 0
}

spec fn spots_ok<T>(n: Seq<Node<T>>, spots: Seq<usize>) -> bool {
    &&& distinct(spots)
    &&& forall|s: int| 0 <= s < spots.len() ==> #[trigger] spot_ok(n, spots, s)
}

/// Appending the node stored in slot `index` behind the current tail keeps the links right.
proof fn lemma_push_links<T>(n: Seq<Node<T>>, o: Seq<usize>, n2: Seq<Node<T>>, index: usize)
    requires
        links_ok(n, o),
        distinct(o),
        covered(n, o),
        index < n2.len(),
        n.len() <= n2.len(),
        index < n.len() ==> n[index as int].value is None,
        n2[index as int].value is Some,
        n2[index as int].next == NIL,
        n2[index as int].prev == (if o.len() > 0 { o.last() } else { NIL }),
        forall|j: int| 0 <= j < n.len() && j != index && (o.len() == 0 || j != o.last()) ==> n2[j] == n[j],
        o.len() > 0 ==> {
            &&& n2[o.last() as int].next == index
            &&& n2[o.last() as int].prev == n[o.last() as int].prev
            &&& n2[o.last() as int].value == n[o.last() as int].value
        },
    ensures
        links_ok(n2, o.push(index)),
        distinct(o.push(index)),
        !o.contains(index),
{
    let no = o.push(index);
    assert forall|k: int| 0 <= k < o.len() implies o[k] != index by {
        assert(node_ok(n, o, k));
    }
    assert forall|k: int| 0 <= k < no.len() implies #[trigger] node_ok(n2, no, k) by {
        if k < o.len() {
            assert(node_ok(n, o, k));
            assert(no[k] == o[k]);
        }
    }
    if o.contains(index) {
        let p: int = choose|p: int| 0 <= p < o.len() && o[p] == index;
        assert(o[p] != index);
    }
}

/// Unlinking the element at position `p` keeps the links of the others right.
proof fn lemma_remove_links<T>(n: Seq<Node<T>>, o: Seq<usize>, n2: Seq<Node<T>>, p: int)
    requires
        links_ok(n, o),
        distinct(o),
        0 <= p < o.len(),
        n.len() <= NIL,
        n2.len() == n.len(),
        n2[o[p] as int].value is None,
        forall|j: int|
            0 <= j < n.len() && j != o[p] && j != prev_of(o, p) && j != next_of(o, p) ==> n2[j] == n[j],
        p > 0 ==> {
            &&& n2[o[p - 1] as int].next == next_of(o, p)
            &&& n2[o[p - 1] as int].prev == n[o[p - 1] as int].prev
            &&& n2[o[p - 1] as int].value == n[o[p - 1] as int].value
        },
        p + 1 < o.len() ==> {
            &&& n2[o[p + 1] as int].prev == prev_of(o, p)
            &&& n2[o[p + 1] as int].next == n[o[p + 1] as int].next
            &&& n2[o[p + 1] as int].value == n[o[p + 1] as int].value
        },
    ensures
        links_ok(n2, o.remove(p)),
        distinct(o.remove(p)),
{
    let no = o.remove(p);
    assert forall|k: int| 0 <= k < no.len() implies #[trigger] node_ok(n2, no, k) by {
        if k < p {
            let j: usize = o[k];
            assert(no[k] == j);
            assert(node_ok(n, o, k));
            if k + 1 < p {
                assert(no[k + 1] == o[k + 1]);
            }
            if k > 0 {
                assert(no[k - 1] == o[k - 1]);
            }
            assert(j != o[p]);
            if p + 1 < o.len() {
                assert(j != o[p + 1]);
            }
            if k + 1 == p {
                if p < no.len() {
                    assert(no[p] == o[p + 1]);
                }
            } else {
                assert(j != o[p - 1]);
                assert(n2[j as int] == n[j as int]);
            }
        } else {
            let j: usize = o[k + 1];
            assert(no[k] == j);
            assert(node_ok(n, o, k + 1));
            if k + 1 < no.len() {
                assert(no[k + 1] == o[k + 2]);
            }
            assert(j != o[p]);
            if p > 0 {
                assert(j != o[p - 1]);
            }
            if k == p {
                if p > 0 {
                    assert(no[p - 1] == o[p - 1]);
                }
            } else {
                assert(no[k - 1] == o[k]);
                assert(j != o[p + 1]);
                assert(n2[j as int] == n[j as int]);
            }
        }
    }
    assert forall|a: int, b: int| 0 <= a < no.len() && 0 <= b < no.len() && a != b implies no[a] != no[b] by {
        let a2 = if a < p { a } else { a + 1 };
        let b2 = if b < p { b } else { b + 1 };
        assert(no[a] == o[a2]);
        assert(no[b] == o[b2]);
    }
}

/// Freeing the slot of the element at position `p` keeps the slot bookkeeping right.
proof fn lemma_remove_bookkeeping<T>(n0: Seq<Node<T>>, o: Seq<usize>, n: Seq<Node<T>>, spots0: Seq<usize>, p: int)
    requires
        links_ok(n0, o),
        distinct(o),
        covered(n0, o),
        spots_ok(n0, spots0),
        0 <= p < o.len(),
        n0.len() <= NIL,
        n.len() == n0.len(),
        n[o[p] as int].value is None,
        forall|j: int| 0 <= j < n0.len() && j != o[p] ==> (#[trigger] n[j]).value == n0[j].value,
    ensures
        covered(n, o.remove(p)),
        spots_ok(n, spots0.push(o[p])),
{
    let index: usize = o[p];
    let no = o.remove(p);
    let spots = spots0.push(index);
    assert(node_ok(n0, o, p));
    assert forall|i: int| 0 <= i < n.len() && (#[trigger] n[i]).value is Some implies no.contains(i as usize) by {
        assert(n0[i].value is Some);
        let q: int = choose|q: int| 0 <= q < o.len() && o[q] == i as usize;
        assert(q != p);
        if q < p {
            assert(no[q] == i as usize);
        } else {
            assert(no[q - 1] == i as usize);
        }
    }
    assert forall|s: int| 0 <= s < spots.len() implies #[trigger] spot_ok(n, spots, s) by {
        if s < spots.len() - 1 {
            assert(spots[s] == spots0[s]);
            assert(spot_ok(n0, spots0, s));
        }
    }
    assert forall|a: int, b: int| 0 <= a < spots.len() && 0 <= b < spots.len() && a != b implies spots[a]
        != spots[b] by {
        if a < spots.len() - 1 {
            assert(spot_ok(n0, spots0, a));
        }
        if b < spots.len() - 1 {
            assert(spot_ok(n0, spots0, b));
        }
    }
}

/// Removing the only element and recording `NIL` as freed keeps the slot bookkeeping right.
proof fn lemma_remove_only_bookkeeping<T>(n0: Seq<Node<T>>, o: Seq<usize>, n: Seq<Node<T>>, spots0: Seq<usize>)
    requires
        links_ok(n0, o),
        covered(n0, o),
        spots_ok(n0, spots0),
        nil_last(spots0, o),
        o.len() == 1,
        n0.len() <= NIL,
        n.len() == n0.len(),
        n[o[0] as int].value is None,
        forall|j: int| 0 <= j < n0.len() && j != o[0] ==> (#[trigger] n[j]).value == n0[j].value,
    ensures
        covered(n, o.remove(0)),
        spots_ok(n, spots0.push(NIL)),
        nil_last(spots0.push(NIL), o.remove(0)),
{
    let no = o.remove(0);
    let spots = spots0.push(NIL);
    assert forall|i: int| 0 <= i < n.len() && (#[trigger] n[i]).value is Some implies no.contains(i as usize) by {
        assert(n0[i].value is Some);
        let q: int = choose|q: int| 0 <= q < o.len() && o[q] == i as usize;
        assert(q == 0);
        assert(i == o[0] as int);
    }
    assert forall|s: int| 0 <= s < spots.len() implies #[trigger] spot_ok(n, spots, s) by {
        if s < spots.len() - 1 {
            assert(spots[s] == spots0[s]);
            assert(spot_ok(n0, spots0, s));
            assert(spots0[s] != NIL);
        }
    }
    assert forall|a: int, b: int| 0 <= a < spots.len() && 0 <= b < spots.len() && a != b implies spots[a]
        != spots[b] by {
        if a < spots.len() - 1 {
            assert(spots0[a] != NIL);
        }
        if b < spots.len() - 1 {
            assert(spots0[b] != NIL);
        }
    }
    assert forall|s: int| #![trigger spots[s]] 0 <= s < spots.len() && spots[s] == NIL implies s == spots.len() - 1
        && no.len() == 0 by {
        if s < spots.len() - 1 {
            assert(spots0[s] != NIL);
        }
    }
}

impl<T> View for VecList<T> {
    type V = Seq<T>;

    closed spec fn view(&self) -> Seq<T> {
        Seq::new(self.order@.len(), |k: int| self.nodes@[self.order@[k] as int].value->0)
    }
}

impl<T> VecList<T> {
    /// The slot index of each element, in list order.
    pub closed spec fn indices(&self) -> Seq<usize> {
        self.order@
    }

    /// The freed slots, in the order in which they were freed; the last one is reused first.
    pub closed spec fn free_slots(&self) -> Seq<usize> {
        self.empty_spots@
    }

    /// How many slots the list has, holding an element or freed.
    pub closed spec fn n_slots(&self) -> nat {
        self.nodes@.len()
    }

    /// Every slot index is a real index (below [`NIL`]), no two elements share
    /// one, there is one index per element, and every slot is either in use or freed.
    pub open spec fn indices_ok(&self) -> bool {
        &&& self.indices().len() == self@.len()
        &&& forall|k: int| 0 <= k < self.indices().len() ==> #[trigger] self.indices()[k] < NIL
        &&& forall|a: int, b: int|
            #![trigger self.indices()[a], self.indices()[b]]
            0 <= a < self.indices().len() && 0 <= b < self.indices().len() && a != b ==> self.indices()[a]
                != self.indices()[b]
        &&& self.n_slots() == self.indices().len() + self.free_slots().len()
        &&& self.n_slots() < NIL
    }

    /// A well-formed list hands out indices that can be used to remove its elements.
    pub proof fn lemma_indices_ok(&self)
        requires
            self.wf(),
        ensures
            self.indices_ok(),
    {
        let o = self.order@;
        assert forall|k: int| 0 <= k < o.len() implies #[trigger] o[k] < NIL by {
            assert(node_ok(self.nodes@, o, k));
        }
    }

    /// The list's internal links agree with its contents.
    pub closed spec fn wf(&self) -> bool {
        let o = self.order@;
        let n = self.nodes@;
        &&& n.len() < NIL
        &&& (o.len() == 0) == (self.head == NIL)
        &&& (o.len() == 0) == (self.tail == NIL)
        &&& o.len() > 0 ==> self.head == o[0] && self.tail == o.last()
        &&& distinct(o)
        &&& links_ok(n, o)
        &&& covered(n, o)
        &&& spots_ok(n, self.empty_spots@)
        &&& nil_last(self.empty_spots@, o)
        &&& n.len() == o.len() + self.empty_spots@.len()
    }

    /// An empty list.
    pub fn new() -> (list: Self)
        ensures
            list.wf(),
            list.indices_ok(),
            list@ == Seq::<T>::empty(),
            list.indices() == Seq::<usize>::empty(),
            list.free_slots() == Seq::<usize>::empty(),
    {
        let list = VecList { nodes: Vec::new(), head: NIL, tail: NIL, empty_spots: Vec::new(), order: Ghost(Seq::empty()) };
        assert(list@ =~= Seq::<T>::empty());
        list
    }

    /// Appends `value` at the back of the list, in the slot freed last when
    /// there is one; a list whose last freed slot is `NIL` (its last element
    /// was removed) cannot take one.
    pub fn push_back(&mut self, value: T)
        requires
            old(self).wf(),
            old(self)@.len() + 1 < usize::MAX,
            old(self).free_slots().len() > 0 ==> old(self).free_slots().last() != NIL,
        ensures
            final(self).wf(),
            final(self)@ == old(self)@.push(value),
            final(self).indices().len() == old(self).indices().len() + 1,
            final(self).indices().drop_last() == old(self).indices(),
            !old(self).indices().contains(final(self).indices().last()),
            final(self).indices_ok(),
            old(self).free_slots().len() > 0 ==> {
                &&& final(self).indices().last() == old(self).free_slots().last()
                &&& final(self).free_slots() == old(self).free_slots().drop_last()
                &&& final(self).n_slots() == old(self).n_slots()
            },
            old(self).free_slots().len() == 0 ==> {
                &&& final(self).indices().last() == old(self).n_slots()
                &&& final(self).free_slots() == old(self).free_slots()
                &&& final(self).n_slots() == old(self).n_slots() + 1
            },
    {
        let ghost old_self = *self;
        let ghost o = self.order@;
        let tail: usize = self.tail;
        proof {
            assert(self.nodes.len() == self.nodes@.len());
        }
        let index: usize;
        match self.empty_spots.pop() {
            None => {
                index = self.nodes.len();
                self.nodes.push(Node { prev: tail, next: NIL, value: Some(value) });
            },
            Some(i) => {
                index = i;
                proof {
                    assert(spot_ok(old_self.nodes@, old_self.empty_spots@, old_self.empty_spots@.len() - 1));
                }
                self.nodes.set(i, Node { prev: tail, next: NIL, value: Some(value) });
            },
        }
        let ghost n1 = self.nodes@;
        if tail == NIL {
            self.head = index;
        } else {
            proof {
                assert(node_ok(old_self.nodes@, o, o.len() - 1));
            }
            set_next(&mut self.nodes, tail, index);
        }
        self.tail = index;
        proof {
            lemma_push_links(old_self.nodes@, o, self.nodes@, index);
            self.order@ = o.push(index);
            let no = self.order@;
            let n = self.nodes@;
            let spots = self.empty_spots@;
            assert(spots =~= old_self.empty_spots@.take(spots.len() as int));
            assert forall|s: int| #![trigger spots[s]] 0 <= s < spots.len() && spots[s] == NIL implies s
                == spots.len() - 1 && no.len() == 0 by {
                assert(spots[s] == old_self.empty_spots@[s]);
            }
            assert forall|i: int| 0 <= i < n.len() && (#[trigger] n[i]).value is Some implies no.contains(
                i as usize,
            ) by {
                if i == index {
                    assert(no[o.len() as int] == index);
                } else {
                    assert(old_self.nodes@[i].value is Some);
                    let p: int = choose|p: int| 0 <= p < o.len() && o[p] == i as usize;
                    assert(no[p] == i as usize);
                }
            }
            assert forall|s: int| 0 <= s < spots.len() implies #[trigger] spot_ok(n, spots, s) by {
                assert(spot_ok(old_self.nodes@, old_self.empty_spots@, s));
                if spots[s] == index {
                    assert(old_self.empty_spots@[old_self.empty_spots@.len() - 1] == index);
                }
            }
            assert(self@ =~= old_self@.push(value)) by {
                assert forall|k: int| 0 <= k < o.len() implies self@[k] == old_self@[k] by {
                    assert(no[k] == o[k]);
                    assert(node_ok(old_self.nodes@, o, k));
                }
            }
            assert(no.drop_last() =~= o);
            assert(links_ok(n, no));
            assert(covered(n, no));
            assert(spots_ok(n, spots));
            assert(distinct(no));
            assert(n.len() == no.len() + spots.len());
            assert(no.len() > 0 ==> self.head == no[0] && self.tail == no.last());
            assert(n.len() < NIL);
            self.lemma_indices_ok();
        }
    }

    /// Removes the element stored in slot `index` and returns it; a slot that
    /// holds no element gives `None` and leaves the list as it was. The slot
    /// is recorded as freed, except for the last element of the list: then
    /// `NIL` is recorded in its place, and the list takes no further
    /// `push_back` (which would look for a node at `NIL`).
    pub fn remove(&mut self, index: usize) -> (r: Option<T>)
        requires
            old(self).wf(),
            index != NIL,
        ensures
            final(self).wf(),
            r is Some <==> old(self).indices().contains(index),
            old(self).indices().contains(index) ==> {
                let p: int = old(self).indices().index_of(index);
                &&& r == Some(old(self)@[p])
                &&& final(self)@ == old(self)@.remove(p)
                &&& final(self).indices() == old(self).indices().remove(p)
            },
            !old(self).indices().contains(index) ==> final(self)@ == old(self)@ && final(self).indices()
                == old(self).indices(),
            final(self).indices_ok(),
            final(self).n_slots() == old(self).n_slots(),
            old(self).indices().contains(index) ==> final(self).free_slots() == old(self).free_slots().push(
                if old(self).indices().len() == 1 {
                    NIL
                } else {
                    index
                },
            ),
            !old(self).indices().contains(index) ==> final(self).free_slots() == old(self).free_slots(),
    {
        let ghost old_self = *self;
        let ghost o = self.order@;
        let n_slots: usize = self.nodes.len();
        if index >= n_slots {
            proof {
                if o.contains(index) {
                    let q: int = choose|q: int| 0 <= q < o.len() && o[q] == index;
                    assert(node_ok(old_self.nodes@, o, q));
                }
                self.lemma_indices_ok();
            }
            return None;
        }
        if self.nodes[index].value.is_none() {
            proof {
                if o.contains(index) {
                    let q: int = choose|q: int| 0 <= q < o.len() && o[q] == index;
                    assert(node_ok(old_self.nodes@, o, q));
                }
                self.lemma_indices_ok();
            }
            return None;
        }
        let ghost p = o.index_of(index);
        proof {
            assert(old_self.nodes@[index as int].value is Some);
            assert(o.contains(index));
            let q: int = choose|q: int| 0 <= q < o.len() && o[q] == index;
            lemma_index_of_distinct(o, q);
            assert(p == q);
            assert(node_ok(old_self.nodes@, o, p));
            if p > 0 {
                assert(node_ok(old_self.nodes@, o, p - 1));
            }
            if p + 1 < o.len() {
                assert(node_ok(old_self.nodes@, o, p + 1));
            }
        }
        let prev: usize = self.nodes[index].prev;
        let next: usize = self.nodes[index].next;
        if prev != NIL {
            proof {
                assert(node_ok(old_self.nodes@, o, p - 1));
            }
            set_next(&mut self.nodes, prev, next);
        } else {
            self.head = next;
        }
        let ghost n1 = self.nodes@;
        if next != NIL {
            proof {
                assert(node_ok(old_self.nodes@, o, p + 1));
                if prev != NIL {
                    assert(o[p - 1] != o[p + 1]);
                }
            }
            set_prev(&mut self.nodes, next, prev);
            proof {
                assert(self.nodes@[next as int].prev == prev_of(o, p));
                assert(self.nodes@[next as int].next == old_self.nodes@[next as int].next);
            }
        } else {
            self.tail = prev;
        }
        let ghost n2 = self.nodes@;
        let v = free_node(&mut self.nodes, index);
        proof {
            if p + 1 < o.len() {
                assert(o[p + 1] != index);
                assert(self.nodes@[o[p + 1] as int] == n2[o[p + 1] as int]);
            }
        }
        let only: bool = prev == NIL && next == NIL;
        if only {
            self.empty_spots.push(NIL);
        } else {
            self.empty_spots.push(index);
        }
        proof {
            let n = self.nodes@;
            let no = o.remove(p);
            if p > 0 {
                assert(o[p - 1] != index);
                assert(p + 1 < o.len() ==> o[p - 1] != o[p + 1]);
            }
            if p + 1 < o.len() {
                assert(o[p + 1] != index);
            }
            lemma_remove_links(old_self.nodes@, o, n, p);
            if only {
                assert(p == 0 && o.len() == 1);
                lemma_remove_only_bookkeeping(old_self.nodes@, o, n, old_self.empty_spots@);
            } else {
                assert(o.len() > 1);
                lemma_remove_bookkeeping(old_self.nodes@, o, n, old_self.empty_spots@, p);
                let spots = self.empty_spots@;
                assert forall|s: int| #![trigger spots[s]] 0 <= s < spots.len() && spots[s] == NIL implies s
                    == spots.len() - 1 && no.len() == 0 by {
                    if s < spots.len() - 1 {
                        assert(spots[s] == old_self.empty_spots@[s]);
                    }
                }
            }
            self.order@ = no;
            if no.len() > 0 {
                if p == 0 {
                    assert(no[0] == o[1]);
                } else {
                    assert(no[0] == o[0]);
                }
                if p == o.len() - 1 {
                    assert(no.last() == o[p - 1]);
                } else {
                    assert(no.last() == o.last());
                }
            }
            assert(self@ =~= old_self@.remove(p)) by {
                assert forall|k: int| 0 <= k < no.len() implies self@[k] == old_self@.remove(p)[k] by {
                    if k < p {
                        assert(no[k] == o[k]);
                        assert(node_ok(old_self.nodes@, o, k));
                        assert(node_ok(n, no, k));
                    } else {
                        assert(no[k] == o[k + 1]);
                        assert(node_ok(old_self.nodes@, o, k + 1));
                        assert(node_ok(n, no, k));
                    }
                }
            }
            self.lemma_indices_ok();
        }
        v
    }

    /// Keeps only the elements for which `f` returns `true`, in their order;
    /// each element is offered to `f` exactly once, front to back.
    pub fn retain<F: Fn(&T) -> bool>(&mut self, f: F)
        requires
            old(self).wf(),
            forall|k: int| 0 <= k < old(self)@.len() ==> f.requires((&old(self)@[k],)),
        ensures
            final(self).wf(),
            exists|keep: Seq<bool>|
                {
                    &&& keep.len() == old(self)@.len()
                    &&& forall|k: int|
                        0 <= k < keep.len() ==> f.ensures((&old(self)@[k],), #[trigger] keep[k])
                    &&& final(self)@ == select(old(self)@, keep)
                    &&& final(self).indices() == select(old(self).indices(), keep)
                },
            final(self).indices_ok(),
    {
        let ghost o = self.order@;
        let ghost vals = self@;
        let ghost mut keep: Seq<bool> = Seq::empty();
        let ghost mut k: int = 0;
        let mut i = self.head;
        proof {
            assert(o.take(0) =~= Seq::<usize>::empty());
            assert(vals.take(0) =~= Seq::<T>::empty());
            assert(o.skip(0) =~= o);
            assert(vals.skip(0) =~= vals);
            if o.len() > 0 {
                assert(node_ok(self.nodes@, o, 0));
            }
            assert(self.nodes.len() == self.nodes@.len());
        }
        while i != NIL
            invariant
                self.wf(),
                0 <= k <= o.len(),
                o.len() == vals.len(),
                keep.len() == k,
                i == (if k < o.len() { o[k] } else { NIL }),
                k < o.len() ==> o[k] < NIL,
                self.indices() == select(o.take(k), keep) + o.skip(k),
                self@ == select(vals.take(k), keep) + vals.skip(k),
                forall|j: int| 0 <= j < k ==> f.ensures((&vals[j],), #[trigger] keep[j]),
                forall|j: int| 0 <= j < vals.len() ==> f.requires((&vals[j],)),
            decreases o.len() - k,
        {
            let ghost cur = self.order@;
            let ghost q = select(o.take(k), keep).len() as int;
            proof {
                assert(self.nodes.len() == self.nodes@.len());
            }
            proof {
                if k >= o.len() {
                    assert(false);
                }
                lemma_filter_step(o, keep, k, true);
                lemma_filter_step(vals, keep, k, true);
                lemma_select_len(o.take(k), vals.take(k), keep);
                assert(node_ok(self.nodes@, cur, q));
                assert(cur[q] == i);
                assert(self@[q] == vals[k]);
                if q + 1 < cur.len() {
                    assert(cur[q + 1] == o[k + 1]);
                    assert(node_ok(self.nodes@, cur, q + 1));
                }
            }
            let next: usize = self.nodes[i].next;
            let b = f(self.nodes[i].value.as_ref().unwrap());
            if !b {
                self.remove(i);
                proof {
                    lemma_index_of_distinct(cur, q);
                }
            }
            proof {
                lemma_filter_step(o, keep, k, b);
                lemma_filter_step(vals, keep, k, b);
                keep = keep.push(b);
                k = k + 1;
            }
            i = next;
        }
        proof {
            assert(o.take(k) =~= o);
            assert(vals.take(k) =~= vals);
            assert(o.skip(k) =~= Seq::<usize>::empty());
            assert(vals.skip(k) =~= Seq::<T>::empty());
            assert(self.indices() =~= select(o, keep));
            assert(self@ =~= select(vals, keep));
            self.lemma_indices_ok();
        }
    }

    /// The elements with their slot indices, front to back.
    pub fn iter<'a>(&'a self) -> (items: Vec<NodeItem<'a, T>>)
        requires
            self.wf(),
        ensures
            self.indices_ok(),
            items@.len() == self@.len(),
            forall|k: int|
                0 <= k < items@.len() ==> (#[trigger] items@[k]).index == self.indices()[k] && *items@[k].value
                    == self@[k],
    {
        let ghost o = self.order@;
        let mut items: Vec<NodeItem<'a, T>> = Vec::new();
        let mut i = self.head;
        proof {
            self.lemma_indices_ok();
            if o.len() > 0 {
                assert(node_ok(self.nodes@, o, 0));
            }
            assert(self.nodes.len() == self.nodes@.len());
        }
        while i != NIL
            invariant
                self.wf(),
                o == self.order@,
                items@.len() <= o.len(),
                i == (if items@.len() < o.len() { o[items@.len() as int] } else { NIL }),
                items@.len() < o.len() ==> o[items@.len() as int] < NIL,
                forall|k: int|
                    0 <= k < items@.len() ==> (#[trigger] items@[k]).index == o[k] && *items@[k].value
                        == self@[k],
            decreases o.len() - items@.len(),
        {
            let ghost k = items@.len() as int;
            proof {
                assert(self.nodes.len() == self.nodes@.len());
            }
            proof {
                if k >= o.len() {
                    assert(false);
                }
                assert(node_ok(self.nodes@, o, k));
                if k + 1 < o.len() {
                    assert(node_ok(self.nodes@, o, k + 1));
                }
            }
            let node = &self.nodes[i];
            items.push(NodeItem { index: i, value: node.value.as_ref().unwrap() });
            i = node.next;
        }
        items
    }
}

/// Removing the slot in which `push_back` put a value gives that value back
/// and leaves the list as it was before the push.
pub proof fn law_remove_undoes_push_back<T>(a: VecList<T>, b: VecList<T>, c: VecList<T>, value: T, r: Option<T>)
    requires
        a.wf(),
        b.wf(),
        b@ == a@.push(value),
        b.indices().len() == a.indices().len() + 1,
        b.indices().drop_last() == a.indices(),
        r is Some <==> b.indices().contains(b.indices().last()),
        b.indices().contains(b.indices().last()) ==> {
            let p: int = b.indices().index_of(b.indices().last());
            &&& r == Some(b@[p])
            &&& c@ == b@.remove(p)
            &&& c.indices() == b.indices().remove(p)
        },
    ensures
        r == Some(value),
        c@ == a@,
        c.indices() == a.indices(),
{
    let o = b.indices();
    let q = o.len() - 1;
    lemma_index_of_distinct(o, q);
    assert(o.index_of(o.last()) == q);
    assert(b@.remove(q) =~= a@);
    assert(o.remove(q) =~= a.indices());
}

} // verus!

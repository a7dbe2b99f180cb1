//! What the `process` attribute decides for the parameters of a pipe
//! function: which topic types an injected topic parameter may take, which
//! combinations are registered, which lifetimes are added, and which
//! supertraits are generated.
use vstd::prelude::*;
use vstd::string::StringExecFns;
use crate::text::{
    chars_of, contains, contains_seq, find_char, first_index_of, last_index_of, occurs_at, rfind_char,
    slice_chars, sort_by_chars, sort_chars, string_of, views,
};

verus! {

/// Whether an injected topic parameter reads or writes.
#[derive(Clone, Copy)]
pub enum TopicKind {
    Reader,
    Writer,
}

/// One way an injected topic parameter can be realised: on the async or the
/// bevy runtime, for a group or not, with acknowledged and traced events or not.
#[derive(Clone, Copy)]
pub struct TopicCombination {
    pub is_async: bool,
    pub group: bool,
    pub ack: bool,
    pub trace: bool,
}

/// A trait bound that narrows the combinations of a topic parameter.
#[derive(Clone, Copy)]
pub enum Marker {
    Bevy,
    Async,
    Ack,
    Trace,
    Group,
}

pub open spec fn comb(is_async: bool, group: bool, ack: bool, trace: bool) -> TopicCombination {
    TopicCombination { is_async, group, ack, trace }
}

/// Every combination, in the order in which they are offered: bevy then
/// async, plain then group, and for each traced, acknowledged, bare.
pub open spec fn all_combinations() -> Seq<TopicCombination> {
    seq![
        comb(false, false, true, true), comb(false, false, true, false), comb(false, false, false, false),
        comb(true, false, true, true), comb(true, false, true, false), comb(true, false, false, false),
        comb(false, true, true, true), comb(false, true, true, false), comb(false, true, false, false),
        comb(true, true, true, true), comb(true, true, true, false), comb(true, true, false, false),
    ]
}

/// The name of a marker bound, as it is looked for in the bounds.
pub open spec fn marker_chars(m: Marker) -> Seq<char> {
    match m {
        Marker::Bevy => seq!['B', 'e', 'v', 'y'],
        Marker::Async => seq!['A', 's', 'y', 'n', 'c'],
        Marker::Ack => seq!['A', 'c', 'k'],
        Marker::Trace => seq!['T', 'r', 'a', 'c', 'e'],
        Marker::Group => seq!['G', 'r', 'o', 'u', 'p'],
    }
}

/// The type name of a combination holds the marker's name.
pub open spec fn has_marker(c: TopicCombination, m: Marker) -> bool {
    match m {
        Marker::Bevy => !c.is_async,
        Marker::Async => c.is_async,
        Marker::Ack => c.ack,
        Marker::Trace => c.trace,
        Marker::Group => c.group,
    }
}

/// The combinations of `cs` that have the marker, in order.
pub open spec fn keep_marked(cs: Seq<TopicCombination>, m: Marker) -> Seq<TopicCombination>
    decreases cs.len(),
{
    if cs.len() == 0 {
        cs
    } else {
        let rest = keep_marked(cs.drop_last(), m);
        if has_marker(cs.last(), m) {
            rest.push(cs.last())
        } else {
            rest
        }
    }
}

/// The position of the first bound that contains `needle`.
pub open spec fn first_containing(bounds: Seq<Seq<char>>, needle: Seq<char>) -> Option<int>
    decreases bounds.len(),
{
    if bounds.len() == 0 {
        None
    } else if contains_seq(bounds[0], needle) {
        Some(0)
    } else {
        match first_containing(bounds.drop_first(), needle) {
            Some(i) => Some(i + 1),
            None => None,
        }
    }
}

/// A marker takes the first bound that names it, if any, and then only the
/// combinations that have it remain.
pub open spec fn claim(bounds: Seq<Seq<char>>, cs: Seq<TopicCombination>, m: Marker) -> (Seq<Seq<char>>, Seq<TopicCombination>) {
    match first_containing(bounds, marker_chars(m)) {
        Some(i) => (bounds.remove(i), keep_marked(cs, m)),
        None => (bounds, cs),
    }
}

/// The markers take their bounds in turn: bevy, async, ack, trace, group.
pub open spec fn claim_all(bounds: Seq<Seq<char>>, cs: Seq<TopicCombination>) -> (Seq<Seq<char>>, Seq<TopicCombination>) {
    let (b1, c1) = claim(bounds, cs, Marker::Bevy);
    let (b2, c2) = claim(b1, c1, Marker::Async);
    let (b3, c3) = claim(b2, c2, Marker::Ack);
    let (b4, c4) = claim(b3, c3, Marker::Trace);
    claim(b4, c4, Marker::Group)
}

/// The prefix of the bound of a topic reader.
pub open spec fn reader_needle() -> Seq<char> {
    seq!['T', 'o', 'p', 'i', 'c', 'R', 'e', 'a', 'd', 'e', 'r', '<']
}

/// The prefix of the bound of a topic writer.
pub open spec fn writer_needle() -> Seq<char> {
    seq!['T', 'o', 'p', 'i', 'c', 'W', 'r', 'i', 't', 'e', 'r', '<']
}

/// The bound that makes the parameter a topic: the first reader bound, else
/// the first writer bound.
pub open spec fn topic_position(bounds: Seq<Seq<char>>) -> Option<(int, TopicKind)> {
    match first_containing(bounds, reader_needle()) {
        Some(i) => Some((i, TopicKind::Reader)),
        None => match first_containing(bounds, writer_needle()) {
            Some(i) => Some((i, TopicKind::Writer)),
            None => None,
        },
    }
}

/// Where the event type stands in a topic bound such as `TopicReader<'a,Event>`:
/// after the first comma that follows the first lifetime, up to the last `>`.
pub open spec fn event_range(rw: Seq<char>) -> Option<(int, int)> {
    match first_index_of(rw, '\'') {
        None => None,
        Some(l) => match first_index_of(rw.skip(l), ',') {
            None => None,
            Some(c) => match last_index_of(rw, '>') {
                None => None,
                Some(e) => if l + c + 1 <= e {
                    Some((l + c + 1, e))
                } else {
                    None
                },
            },
        },
    }
}

/// What an injected topic parameter may be.
pub struct InjectedTopic {
    pub kind: TopicKind,
    pub topic_name: String,
    pub event: String,
    pub other_bounds: Vec<String>,
    pub combinations: Vec<TopicCombination>,
}

/// Why the bounds of an `impl Trait` parameter cannot be injected.
pub enum BoundsError {
    /// No bound reads or writes a topic; the bounds are given.
    NoTopicBound(Vec<String>),
    /// The topic bound names no event type after its lifetime.
    MissingEventType(String),
    /// Bounds that no marker took.
    Unexpected(Vec<String>),
}

/// The characters of each string.
pub open spec fn strs(v: Seq<String>) -> Seq<Seq<char>> {
    Seq::new(v.len(), |i: int| v[i]@)
}

/// Every combination, in the order in which they are offered.
pub fn all_combinations_vec() -> (v: Vec<TopicCombination>)
    ensures
        v@ == all_combinations(),
{
    let mut v: Vec<TopicCombination> = Vec::new();
    let mut group = false;
    loop
        invariant
            !group ==> v@ == Seq::<TopicCombination>::empty(),
            group ==> v@ == all_combinations().take(6),
        decreases (if group { 0int } else { 1int }),
    {
        v.push(TopicCombination { is_async: false, group, ack: true, trace: true });
        v.push(TopicCombination { is_async: false, group, ack: true, trace: false });
        v.push(TopicCombination { is_async: false, group, ack: false, trace: false });
        v.push(TopicCombination { is_async: true, group, ack: true, trace: true });
        v.push(TopicCombination { is_async: true, group, ack: true, trace: false });
        v.push(TopicCombination { is_async: true, group, ack: false, trace: false });
        if group {
            assert(v@ =~= all_combinations());
            return v;
        }
        assert(v@ =~= all_combinations().take(6));
        group = true;
    }
}

/// The characters of a marker's name.
fn marker_vec(m: Marker) -> (v: Vec<char>)
    ensures
        v@ == marker_chars(m),
{
    let v = match m {
        Marker::Bevy => vec!['B', 'e', 'v', 'y'],
        Marker::Async => vec!['A', 's', 'y', 'n', 'c'],
        Marker::Ack => vec!['A', 'c', 'k'],
        Marker::Trace => vec!['T', 'r', 'a', 'c', 'e'],
        Marker::Group => vec!['G', 'r', 'o', 'u', 'p'],
    };
    assert(v@ =~= marker_chars(m));
    v
}

/// Whether the type name of a combination holds the marker's name.
fn has_marker_exec(c: &TopicCombination, m: Marker) -> (b: bool)
    ensures
        b == has_marker(*c, m),
{
    match m {
        Marker::Bevy => !c.is_async,
        Marker::Async => c.is_async,
        Marker::Ack => c.ack,
        Marker::Trace => c.trace,
        Marker::Group => c.group,
    }
}

/// Keeps the combinations that have the marker, in order.
fn keep_marked_exec(cs: &Vec<TopicCombination>, m: Marker) -> (r: Vec<TopicCombination>)
    ensures
        r@ == keep_marked(cs@, m),
{
    let mut r: Vec<TopicCombination> = Vec::new();
    let mut i: usize = 0;
    while i < cs.len()
        invariant
            i <= cs@.len(),
            r@ == keep_marked(cs@.take(i as int), m),
        decreases cs@.len() - i,
    {
        proof {
            assert(cs@.take(i + 1).drop_last() =~= cs@.take(i as int));
        }
        let c: TopicCombination = cs[i];
        if has_marker_exec(&c, m) {
            r.push(c);
        }
        i = i + 1;
    }
    proof {
        assert(cs@.take(i as int) =~= cs@);
    }
    r
}

proof fn lemma_first_containing(bounds: Seq<Seq<char>>, needle: Seq<char>, i: int)
    requires
        0 <= i <= bounds.len(),
        forall|j: int| 0 <= j < i ==> !contains_seq(#[trigger] bounds[j], needle),
    ensures
        i < bounds.len() && contains_seq(bounds[i], needle) ==> first_containing(bounds, needle) == Some(i),
        i == bounds.len() ==> first_containing(bounds, needle) is None,
    decreases i,
{
    if i > 0 {
        let t = bounds.drop_first();
        assert forall|j: int| 0 <= j < i - 1 implies !contains_seq(#[trigger] t[j], needle) by {
            assert(t[j] == bounds[j + 1]);
        }
        lemma_first_containing(t, needle, i - 1);
    }
}

proof fn lemma_first_containing_bound(bounds: Seq<Seq<char>>, needle: Seq<char>)
    ensures
        first_containing(bounds, needle) matches Some(i) ==> 0 <= i < bounds.len() && contains_seq(bounds[i], needle),
    decreases bounds.len(),
{
    if bounds.len() > 0 {
        lemma_first_containing_bound(bounds.drop_first(), needle);
    }
}

/// The position of the first bound that contains `needle`.
fn first_containing_exec(bounds: &Vec<Vec<char>>, needle: &Vec<char>) -> (r: Option<usize>)
    ensures
        r matches Some(i) ==> first_containing(views(bounds@), needle@) == Some(i as int),
        r is None ==> first_containing(views(bounds@), needle@) is None,
{
    let ghost b = views(bounds@);
    let mut i: usize = 0;
    while i < bounds.len()
        invariant
            i <= bounds@.len(),
            b == views(bounds@),
            forall|j: int| 0 <= j < i ==> !contains_seq(#[trigger] b[j], needle@),
        decreases bounds@.len() - i,
    {
        if contains(&bounds[i], needle) {
            proof {
                lemma_first_containing(b, needle@, i as int);
            }
            return Some(i);
        }
        i = i + 1;
    }
    proof {
        lemma_first_containing(b, needle@, i as int);
    }
    None
}

/// The marker takes the first bound that names it, if any, and narrows the combinations.
fn claim_exec(bounds: &mut Vec<Vec<char>>, cs: &mut Vec<TopicCombination>, m: Marker)
    ensures
        (views(final(bounds)@), final(cs)@) == claim(views(old(bounds)@), old(cs)@, m),
{
    let needle = marker_vec(m);
    match first_containing_exec(bounds, &needle) {
        Some(i) => {
            let ghost before = bounds@;
            proof {
                lemma_first_containing_bound(views(before), needle@);
            }
            bounds.remove(i);
            proof {
                assert(views(bounds@) =~= views(before).remove(i as int));
            }
            let kept = keep_marked_exec(cs, m);
            *cs = kept;
        },
        None => {},
    }
}

/// The characters of each string.
fn chars_of_all(v: &Vec<String>) -> (r: Vec<Vec<char>>)
    ensures
        views(r@) == strs(v@),
{
    let mut r: Vec<Vec<char>> = Vec::new();
    let mut i: usize = 0;
    while i < v.len()
        invariant
            i <= v@.len(),
            views(r@) == strs(v@).take(i as int),
        decreases v@.len() - i,
    {
        let c = chars_of(v[i].as_str());
        let ghost r0 = r@;
        let ghost cv = c@;
        r.push(c);
        proof {
            assert(views(r0).len() == r0.len());
            assert(r0.len() == i);
            assert(r@.len() == i + 1);
            assert(r@[i as int]@ == cv);
            assert forall|j: int| 0 <= j < i + 1 implies views(r@)[j] == strs(v@).take(i + 1)[j] by {
                if j < i {
                    assert(r@[j] == r0[j]);
                    assert(views(r0)[j] == strs(v@).take(i as int)[j]);
                }
            }
            assert(views(r@) =~= strs(v@).take(i + 1));
        }
        i = i + 1;
    }
    proof {
        assert(strs(v@).take(i as int) =~= strs(v@));
    }
    r
}

/// A string of each character sequence.
fn strings_of_all(v: &Vec<Vec<char>>) -> (r: Vec<String>)
    ensures
        strs(r@) == views(v@),
{
    let mut r: Vec<String> = Vec::new();
    let mut i: usize = 0;
    while i < v.len()
        invariant
            i <= v@.len(),
            strs(r@) == views(v@).take(i as int),
        decreases v@.len() - i,
    {
        let s = string_of(&v[i]);
        let ghost r0 = r@;
        let ghost sv = s@;
        r.push(s);
        proof {
            assert(strs(r0).len() == r0.len());
            assert(r0.len() == i);
            assert(r@.len() == i + 1);
            assert(r@[i as int]@ == sv);
            assert forall|j: int| 0 <= j < i + 1 implies strs(r@)[j] == views(v@).take(i + 1)[j] by {
                if j < i {
                    assert(r@[j] == r0[j]);
                    assert(strs(r0)[j] == views(v@).take(i as int)[j]);
                }
            }
            assert(strs(r@) =~= views(v@).take(i + 1));
        }
        i = i + 1;
    }
    proof {
        assert(views(v@).take(i as int) =~= views(v@));
    }
    r
}

/// Where the event type stands in a topic bound.
fn event_range_exec(rw: &Vec<char>) -> (r: Option<(usize, usize)>)
    ensures
        r matches Some(p) ==> event_range(rw@) == Some((p.0 as int, p.1 as int)),
        r is None ==> event_range(rw@) is None,
{
    let l: usize = match find_char(rw, '\'') {
        None => return None,
        Some(l) => l,
    };
    proof {
        lemma_first_index_bound(rw@, '\'');
    }
    let tail = slice_chars(rw, l, rw.len());
    proof {
        assert(tail@ =~= rw@.skip(l as int));
    }
    let c: usize = match find_char(&tail, ',') {
        None => return None,
        Some(c) => c,
    };
    proof {
        lemma_first_index_bound(tail@, ',');
    }
    let e: usize = match rfind_char(rw, '>') {
        None => return None,
        Some(e) => e,
    };
    if l + c + 1 <= e {
        Some((l + c + 1, e))
    } else {
        None
    }
}

proof fn lemma_first_index_bound(s: Seq<char>, c: char)
    ensures
        first_index_of(s, c) matches Some(i) ==> 0 <= i < s.len() && s[i] == c,
    decreases s.len(),
{
    if s.len() > 0 {
        lemma_first_index_bound(s.drop_first(), c);
    }
}

/// A string that contains a needle ending in `<` has a first `<`.
proof fn lemma_contains_last(s: Seq<char>, needle: Seq<char>)
    requires
        contains_seq(s, needle),
        needle.len() > 0,
        needle.last() == '<',
    ensures
        first_index_of(s, '<') is Some,
{
    let i: int = choose|i: int| occurs_at(s, needle, i);
    let k = i + needle.len() - 1;
    assert(s.subrange(i, i + needle.len())[needle.len() - 1] == '<');
    assert(s[k] == '<');
    lemma_first_index_exists(s, '<', k);
}

proof fn lemma_first_index_exists(s: Seq<char>, c: char, k: int)
    requires
        0 <= k < s.len(),
        s[k] == c,
    ensures
        first_index_of(s, c) is Some,
    decreases k,
{
    if s[0] != c {
        lemma_first_index_exists(s.drop_first(), c, k - 1);
    }
}

proof fn lemma_last_index_bound(s: Seq<char>, c: char)
    ensures
        last_index_of(s, c) matches Some(i) ==> 0 <= i < s.len() && s[i] == c,
    decreases s.len(),
{
    if s.len() > 0 {
        lemma_last_index_bound(s.drop_last(), c);
    }
}

/// What `injected_topic` gives for bounds `b`: which error, or the topic
/// with every field fixed.
pub open spec fn injected_topic_result(b: Seq<Seq<char>>, r: Result<InjectedTopic, BoundsError>) -> bool {
    match topic_position(b) {
        None => r matches Err(BoundsError::NoTopicBound(all)) && strs(all@) == b,
        Some((pos, kind)) => {
            let rw = b[pos];
            let rest = sort_chars(b.remove(pos));
            match event_range(rw) {
                None => r matches Err(BoundsError::MissingEventType(t)) && t@ == rw,
                Some((start, end)) => {
                    let (left, cs) = claim_all(rest, all_combinations());
                    if left.len() > 0 {
                        r matches Err(BoundsError::Unexpected(u)) && strs(u@) == left
                    } else {
                        &&& r is Ok
                        &&& r->Ok_0.kind == kind
                        &&& r->Ok_0.topic_name@ == rw.take(first_index_of(rw, '<')->0)
                        &&& r->Ok_0.event@ == rw.subrange(start, end)
                        &&& strs(r->Ok_0.other_bounds@) == rest
                        &&& r->Ok_0.combinations@ == cs
                    }
                },
            }
        },
    }
}

/// What the bounds of an `impl Trait` parameter make of it: a topic reader
/// or writer whose other bounds narrow the combinations it may be
/// registered with.
pub fn injected_topic(bounds: &Vec<String>) -> (r: Result<InjectedTopic, BoundsError>)
    ensures
        injected_topic_result(strs(bounds@), r),
{
    let b = chars_of_all(bounds);
    proof {
        lemma_first_containing_bound(views(b@), reader_needle());
        lemma_first_containing_bound(views(b@), writer_needle());
    }
    let reader: Vec<char> = vec!['T', 'o', 'p', 'i', 'c', 'R', 'e', 'a', 'd', 'e', 'r', '<'];
    let writer: Vec<char> = vec!['T', 'o', 'p', 'i', 'c', 'W', 'r', 'i', 't', 'e', 'r', '<'];
    proof {
        assert(reader@ =~= reader_needle());
        assert(writer@ =~= writer_needle());
    }
    let (pos, kind) = match first_containing_exec(&b, &reader) {
        Some(i) => (i, TopicKind::Reader),
        None => match first_containing_exec(&b, &writer) {
            Some(i) => (i, TopicKind::Writer),
            None => {
                let all = strings_of_all(&b);
                return Err(BoundsError::NoTopicBound(all));
            },
        },
    };
    let ghost bv = views(b@);
    let mut rest = b;
    let rw = rest.remove(pos);
    proof {
        assert(views(rest@) =~= bv.remove(pos as int));
    }
    let (start, end) = match event_range_exec(&rw) {
        None => return Err(BoundsError::MissingEventType(string_of(&rw))),
        Some(p) => p,
    };
    proof {
        lemma_first_index_bound(rw@, '\'');
        lemma_last_index_bound(rw@, '>');
    }
    let sorted = sort_by_chars(rest);
    let other_bounds = strings_of_all(&sorted);
    let mut left = sorted;
    let mut cs = all_combinations_vec();
    claim_exec(&mut left, &mut cs, Marker::Bevy);
    claim_exec(&mut left, &mut cs, Marker::Async);
    claim_exec(&mut left, &mut cs, Marker::Ack);
    claim_exec(&mut left, &mut cs, Marker::Trace);
    claim_exec(&mut left, &mut cs, Marker::Group);
    if left.len() > 0 {
        return Err(BoundsError::Unexpected(strings_of_all(&left)));
    }
    proof {
        lemma_contains_last(rw@, if kind is Reader { reader_needle() } else { writer_needle() });
        lemma_first_index_bound(rw@, '<');
    }
    let lt: usize = match find_char(&rw, '<') {
        Some(i) => i,
        None => 0,
    };
    let name = slice_chars(&rw, 0, lt);
    let event = slice_chars(&rw, start, end);
    Ok(InjectedTopic {
        kind,
        topic_name: string_of(&name),
        event: string_of(&event),
        other_bounds,
        combinations: cs,
    })
}

/// The name of a topic kind as it stands in a type.
pub open spec fn kind_name(kind: TopicKind) -> Seq<char> {
    match kind {
        TopicKind::Reader => "Reader"@,
        TopicKind::Writer => "Writer"@,
    }
}

/// `s` when `b` holds, else nothing.
pub open spec fn when(b: bool, s: Seq<char>) -> Seq<char> {
    if b {
        s
    } else {
        Seq::empty()
    }
}

/// The type a topic parameter takes under a combination, such as
/// `BevyGroupReader<'w, 's, AckEvent<TraceEvent<E>>>` for the event `E`.
pub open spec fn combination_type_spec(kind: TopicKind, c: TopicCombination, event: Seq<char>) -> Seq<char> {
    (if c.is_async { "Async"@ } else { "Bevy"@ }) + when(c.group, "Group"@) + kind_name(kind) + "<'w, 's, "@
        + when(c.ack, "AckEvent<"@) + when(c.trace, "TraceEvent<"@) + event + when(c.trace, ">"@) + when(
        c.ack,
        ">"@,
    ) + ">"@
}

/// The type a topic parameter takes under a combination.
pub fn combination_type(kind: TopicKind, c: &TopicCombination, event: &str) -> (t: String)
    ensures
        t@ == combination_type_spec(kind, *c, event@),
{
    let mut t = String::new();
    if c.is_async {
        t.append("Async");
    } else {
        t.append("Bevy");
    }
    let ghost t1 = t@;
    if c.group {
        t.append("Group");
    }
    let ghost t2 = t@;
    match kind {
        TopicKind::Reader => t.append("Reader"),
        TopicKind::Writer => t.append("Writer"),
    }
    t.append("<'w, 's, ");
    let ghost t3 = t@;
    if c.ack {
        t.append("AckEvent<");
    }
    let ghost t4 = t@;
    if c.trace {
        t.append("TraceEvent<");
    }
    let ghost t5 = t@;
    t.append(event);
    let ghost t6 = t@;
    if c.trace {
        t.append(">");
    }
    let ghost t7 = t@;
    if c.ack {
        t.append(">");
    }
    let ghost t8 = t@;
    t.append(">");
    proof {
        assert(t2 =~= t1 + when(c.group, "Group"@));
        assert(t4 =~= t3 + when(c.ack, "AckEvent<"@));
        assert(t5 =~= t4 + when(c.trace, "TraceEvent<"@));
        assert(t7 =~= t6 + when(c.trace, ">"@));
        assert(t8 =~= t7 + when(c.ack, ">"@));
        assert(t@ =~= combination_type_spec(kind, *c, event@));
    }
    t
}

/// The strings of `s` one after another.
pub open spec fn concat_all(s: Seq<Seq<char>>) -> Seq<char>
    decreases s.len(),
{
    if s.len() == 0 {
        Seq::empty()
    } else {
        concat_all(s.drop_last()) + s.last()
    }
}

/// The name of the trait that a `&mut dyn` topic parameter is given: the
/// topic bound's name followed by its other bounds.
pub fn dynamic_bound_name(t: &InjectedTopic) -> (name: String)
    ensures
        name@ == t.topic_name@ + concat_all(strs(t.other_bounds@)),
{
    let mut name = t.topic_name.clone();
    let mut i: usize = 0;
    proof {
        assert(strs(t.other_bounds@).take(0) =~= Seq::<Seq<char>>::empty());
    }
    while i < t.other_bounds.len()
        invariant
            i <= t.other_bounds@.len(),
            name@ == t.topic_name@ + concat_all(strs(t.other_bounds@).take(i as int)),
        decreases t.other_bounds@.len() - i,
    {
        name.append(t.other_bounds[i].as_str());
        proof {
            assert(strs(t.other_bounds@).take(i + 1).drop_last() =~= strs(t.other_bounds@).take(i as int));
            assert(name@ =~= t.topic_name@ + concat_all(strs(t.other_bounds@).take(i + 1)));
        }
        i = i + 1;
    }
    proof {
        assert(strs(t.other_bounds@).take(i as int) =~= strs(t.other_bounds@));
    }
    name
}

/// The combination picked for each of `n` parameters when parameter `p` takes
/// its combination `v` and every other parameter its first.
pub open spec fn unit_row(n: nat, p: int, v: usize) -> Seq<usize> {
    Seq::new(n, |j: int| if j == p { v } else { 0usize })
}

/// The rows registered for the first `k` parameters: for each parameter in
/// turn, one row per combination of it, the others at their first.
pub open spec fn registration_rows_spec(lens: Seq<usize>, k: nat) -> Seq<Seq<usize>>
    decreases k,
{
    if k == 0 {
        Seq::empty()
    } else {
        registration_rows_spec(lens, (k - 1) as nat) + Seq::new(
            lens[k - 1] as nat,
            |v: int| unit_row(lens.len(), k - 1, v as usize),
        )
    }
}

/// The combinations of the injected parameters under which a pipe function is
/// registered, given how many combinations each parameter has: for each
/// parameter in turn, each of its combinations with the others at their first.
/// So the row with every parameter at its first combination comes once per
/// parameter, and a pipe without injected parameters gets no row; as a pipe
/// name can be registered only once, a pipe with two or more injected
/// parameters repeats that registration.
pub fn registration_rows(lens: &Vec<usize>) -> (rows: Vec<Vec<usize>>)
    requires
        forall|i: int| 0 <= i < lens@.len() ==> #[trigger] lens@[i] >= 1,
    ensures
        rows@.len() == registration_rows_spec(lens@, lens@.len()).len(),
        forall|i: int| 0 <= i < rows@.len() ==> #[trigger] rows@[i]@ == registration_rows_spec(lens@, lens@.len())[i],
{
    let n: usize = lens.len();
    let mut rows: Vec<Vec<usize>> = Vec::new();
    let mut p: usize = 0;
    while p < n
        invariant
            n == lens@.len(),
            p <= n,
            rows@.len() == registration_rows_spec(lens@, p as nat).len(),
            forall|i: int| 0 <= i < rows@.len() ==> #[trigger] rows@[i]@ == registration_rows_spec(lens@, p as nat)[i],
        decreases n - p,
    {
        let ghost before = registration_rows_spec(lens@, p as nat);
        let ghost block = Seq::new(lens@[p as int] as nat, |v: int| unit_row(lens@.len(), p as int, v as usize));
        proof {
            assert(registration_rows_spec(lens@, (p + 1) as nat) == before + block);
        }
        let mut v: usize = 0;
        while v < lens[p]
            invariant
                n == lens@.len(),
                p < n,
                v <= lens@[p as int],
                block == Seq::new(lens@[p as int] as nat, |v: int| unit_row(lens@.len(), p as int, v as usize)),
                rows@.len() == before.len() + v,
                forall|i: int| 0 <= i < before.len() ==> #[trigger] rows@[i]@ == before[i],
                forall|i: int| 0 <= i < v ==> #[trigger] rows@[before.len() + i]@ == block[i],
            decreases lens@[p as int] - v,
        {
            let mut row: Vec<usize> = Vec::new();
            let mut j: usize = 0;
            while j < n
                invariant
                    n == lens@.len(),
                    j <= n,
                    row@ == unit_row(lens@.len(), p as int, v).take(j as int),
                decreases n - j,
            {
                if j == p {
                    row.push(v);
                } else {
                    row.push(0);
                }
                proof {
                    assert(row@ =~= unit_row(lens@.len(), p as int, v).take(j + 1));
                }
                j = j + 1;
            }
            proof {
                assert(row@ =~= unit_row(lens@.len(), p as int, v));
                assert(block[v as int] == unit_row(lens@.len(), p as int, v));
            }
            let ghost r0 = rows@;
            rows.push(row);
            proof {
                assert forall|i: int| 0 <= i < v + 1 implies #[trigger] rows@[before.len() + i]@ == block[i] by {
                    if i < v {
                        assert(rows@[before.len() + i] == r0[before.len() + i]);
                    }
                }
                assert forall|i: int| 0 <= i < before.len() implies #[trigger] rows@[i]@ == before[i] by {
                    assert(rows@[i] == r0[i]);
                }
            }
            v = v + 1;
        }
        proof {
            assert forall|i: int| 0 <= i < rows@.len() implies #[trigger] rows@[i]@ == (before + block)[i] by {
                if i >= before.len() {
                    assert(rows@[before.len() + (i - before.len())]@ == block[i - before.len()]);
                }
            }
        }
        p = p + 1;
    }
    rows
}

/// A generic parameter that stands for an injected `impl Trait` parameter.
pub open spec fn is_injected_generic(name: Seq<char>) -> bool {
    name.len() >= 3 && name[0] == '_' && name[1] == '_' && name[2] == 'P'
}

/// The names of `names` that are not injected generic parameters, in order.
pub open spec fn call_generics_spec(names: Seq<Seq<char>>) -> Seq<Seq<char>>
    decreases names.len(),
{
    if names.len() == 0 {
        names
    } else {
        let rest = call_generics_spec(names.drop_last());
        if is_injected_generic(names.last()) {
            rest
        } else {
            rest.push(names.last())
        }
    }
}

/// The generic type parameters that a registration passes on explicitly:
/// those that do not stand for an injected parameter.
pub fn call_generics(names: &Vec<String>) -> (r: Vec<String>)
    ensures
        strs(r@) == call_generics_spec(strs(names@)),
{
    let mut r: Vec<String> = Vec::new();
    let mut i: usize = 0;
    while i < names.len()
        invariant
            i <= names@.len(),
            strs(r@) == call_generics_spec(strs(names@).take(i as int)),
        decreases names@.len() - i,
    {
        let c = chars_of(names[i].as_str());
        let injected: bool = c.len() >= 3 && c[0] == '_' && c[1] == '_' && c[2] == 'P';
        proof {
            assert(strs(names@).take(i + 1).drop_last() =~= strs(names@).take(i as int));
            assert(strs(names@).take(i + 1).last() == c@);
        }
        if !injected {
            let ghost r0 = r@;
            r.push(names[i].clone());
            proof {
                assert(strs(r@) =~= strs(r0).push(c@));
            }
        }
        i = i + 1;
    }
    proof {
        assert(strs(names@).take(i as int) =~= strs(names@));
    }
    r
}

/// Whether `s` holds a string equal to `x`.
pub open spec fn holds(s: Seq<Seq<char>>, x: Seq<char>) -> bool {
    exists|i: int| 0 <= i < s.len() && s[i] == x
}

/// Whether one of `v` equals `x`.
fn holds_exec(v: &Vec<String>, x: &String) -> (b: bool)
    ensures
        b == holds(strs(v@), x@),
{
    let mut i: usize = 0;
    while i < v.len()
        invariant
            i <= v@.len(),
            forall|j: int| 0 <= j < i ==> strs(v@)[j] != x@,
        decreases v@.len() - i,
    {
        proof {
            assert(strs(v@)[i as int] == v@[i as int]@);
        }
        if v[i] == *x {
            proof {
                assert(strs(v@)[i as int] == x@);
            }
            return true;
        }
        i = i + 1;
    }
    false
}

/// The lifetimes put in front of the generics of a pipe function: `'w`
/// unless it has one, then `'s` unless it has one.
pub fn lifetimes_to_add(lifetimes: &Vec<String>) -> (r: Vec<String>)
    ensures
        strs(r@) == (if holds(strs(lifetimes@), "'w"@) { Seq::<Seq<char>>::empty() } else { seq!["'w"@] })
            + (if holds(strs(lifetimes@), "'s"@) { Seq::<Seq<char>>::empty() } else { seq!["'s"@] }),
{
    let w = String::from_str("'w");
    let st = String::from_str("'s");
    let mut r: Vec<String> = Vec::new();
    if !holds_exec(lifetimes, &w) {
        r.push(w);
    }
    let ghost r0 = strs(r@);
    if !holds_exec(lifetimes, &st) {
        r.push(st);
    }
    proof {
        assert(strs(r@) =~= r0 + (if holds(strs(lifetimes@), "'s"@) { Seq::<Seq<char>>::empty() } else { seq!["'s"@] }));
        assert(r0 =~= (if holds(strs(lifetimes@), "'w"@) { Seq::<Seq<char>>::empty() } else { seq!["'w"@] }));
    }
    r
}

/// The generic arguments of the last segment of a parameter's type path.
pub enum PathArguments {
    Absent,
    AngleBracketed(Vec<String>),
    Parenthesized,
}

/// The arguments after the lifetimes `'w` and `'s` were put in: a path
/// without arguments gets `<'w, 's>`, angle-bracketed arguments get `'s, 'w`
/// in front, parenthesized ones stay. The order `'s, 'w` in front of
/// existing arguments is kept as the attribute has it, though bevy's system
/// parameters declare `'w, 's`.
pub fn with_lifetimes(args: PathArguments) -> (r: PathArguments)
    ensures
        args is Absent ==> (r matches PathArguments::AngleBracketed(a) && strs(a@) == seq!["'w"@, "'s"@]),
        args matches PathArguments::AngleBracketed(old_args) ==> (r matches PathArguments::AngleBracketed(a)
            && strs(a@) == seq!["'s"@, "'w"@] + strs(old_args@)),
        args is Parenthesized ==> r is Parenthesized,
{
    match args {
        PathArguments::Absent => {
            let mut a: Vec<String> = Vec::new();
            a.push(String::from_str("'w"));
            a.push(String::from_str("'s"));
            proof {
                assert(strs(a@) =~= seq!["'w"@, "'s"@]);
            }
            PathArguments::AngleBracketed(a)
        },
        PathArguments::AngleBracketed(mut a) => {
            let ghost a0 = strs(a@);
            a.insert(0, String::from_str("'w"));
            a.insert(0, String::from_str("'s"));
            proof {
                assert(strs(a@) =~= seq!["'s"@, "'w"@] + a0);
            }
            PathArguments::AngleBracketed(a)
        },
        PathArguments::Parenthesized => PathArguments::Parenthesized,
    }
}

/// A trait generated to combine a main trait with a run of other traits.
pub struct SuperTrait {
    pub name: String,
    pub bounds: Vec<String>,
}

/// The runs of `w` traits out of `n`, by where they start.
pub open spec fn windows_of_width(n: int, w: int) -> Seq<(int, int)> {
    Seq::new((n - w + 1) as nat, |o: int| (o, w))
}

/// The runs of one to `w` traits out of `n`: shorter runs first, then by start.
pub open spec fn windows_upto(n: int, w: nat) -> Seq<(int, int)>
    decreases w,
{
    if w == 0 {
        Seq::empty()
    } else {
        windows_upto(n, (w - 1) as nat) + windows_of_width(n, w as int)
    }
}

/// A run is wanted when every run is, or when it holds the target trait.
pub open spec fn window_wanted(sorted: Seq<Seq<char>>, target: Option<Seq<char>>, ow: (int, int)) -> bool {
    match target {
        None => true,
        Some(t) => holds(sorted.subrange(ow.0, ow.0 + ow.1), t),
    }
}

/// The wanted runs of `ws`, in order.
pub open spec fn wanted_windows(sorted: Seq<Seq<char>>, target: Option<Seq<char>>, ws: Seq<(int, int)>) -> Seq<(int, int)>
    decreases ws.len(),
{
    if ws.len() == 0 {
        ws
    } else {
        let rest = wanted_windows(sorted, target, ws.drop_last());
        if window_wanted(sorted, target, ws.last()) {
            rest.push(ws.last())
        } else {
            rest
        }
    }
}

/// `r` holds, for each run of `ws`, the trait named after the main trait and
/// the run, bounded by the run.
pub open spec fn describes(r: Seq<SuperTrait>, main: Seq<char>, sorted: Seq<Seq<char>>, ws: Seq<(int, int)>) -> bool {
    &&& r.len() == ws.len()
    &&& forall|i: int| 0 <= i < r.len() ==> {
        let run = sorted.subrange(ws[i].0, ws[i].0 + ws[i].1);
        &&& strs((#[trigger] r[i]).bounds@) == run
        &&& r[i].name@ == main + concat_all(run)
    }
}

/// The supertraits that combine `main` with each run of the other traits,
/// sorted by name: all runs, or only those that hold the first trait given.
pub fn supertraits(main: &String, traits: &Vec<String>, all: bool) -> (r: Vec<SuperTrait>)
    requires
        all || traits@.len() > 0,
    ensures
        ({
            let sorted = sort_chars(strs(traits@));
            let target = if all { None } else { Some(traits@[0]@) };
            describes(r@, main@, sorted, wanted_windows(sorted, target, windows_upto(traits@.len() as int, traits@.len())))
        }),
{
    let sorted_chars = sort_by_chars(chars_of_all(traits));
    let sorted = strings_of_all(&sorted_chars);
    let ghost sv = strs(sorted@);
    let ghost target: Option<Seq<char>> = if all { None } else { Some(traits@[0]@) };
    let target_name: String = if all { String::new() } else { traits[0].clone() };
    let n: usize = sorted.len();
    proof {
        assert(sv.len() == traits@.len()) by {
            lemma_sort_len(strs(traits@));
        }
    }
    let mut r: Vec<SuperTrait> = Vec::new();
    let mut done: usize = 0;
    while done < n
        invariant
            n == sv.len(),
            sv == strs(sorted@),
            done <= n,
            !all ==> target == Some(target_name@),
            all ==> target is None,
            describes(r@, main@, sv, wanted_windows(sv, target, windows_upto(n as int, done as nat))),
        decreases n - done,
    {
        let width: usize = done + 1;
        let ghost prev = windows_upto(n as int, (width - 1) as nat);
        let ghost row = windows_of_width(n as int, width as int);
        proof {
            assert(prev + row.take(0) =~= prev);
        }
        let mut offset: usize = 0;
        while offset <= n - width
            invariant
                n == sv.len(),
                sv == strs(sorted@),
                1 <= width <= n,
                offset <= n - width + 1,
                !all ==> target == Some(target_name@),
                all ==> target is None,
                prev == windows_upto(n as int, (width - 1) as nat),
                row == windows_of_width(n as int, width as int),
                describes(r@, main@, sv, wanted_windows(sv, target, prev + row.take(offset as int))),
            decreases n - width + 1 - offset,
        {
            let mut run: Vec<String> = Vec::new();
            let mut k: usize = 0;
            while k < width
                invariant
                    n == sv.len(),
                    sv == strs(sorted@),
                    offset + width <= n,
                    k <= width,
                    strs(run@) == sv.subrange(offset as int, offset + k),
                decreases width - k,
            {
                let ghost r0 = run@;
                run.push(sorted[offset + k].clone());
                proof {
                    assert(strs(run@) =~= strs(r0).push(sv[offset + k]));
                    assert(sv.subrange(offset as int, offset + k + 1) =~= sv.subrange(offset as int, offset + k).push(sv[offset + k]));
                }
                k = k + 1;
            }
            let wanted: bool = all || holds_exec(&run, &target_name);
            let ghost ws_next = prev + row.take(offset + 1);
            proof {
                assert(ws_next.drop_last() =~= prev + row.take(offset as int));
                assert(ws_next.last() == (offset as int, width as int));
                assert(wanted == window_wanted(sv, target, (offset as int, width as int)));
            }
            if wanted {
                let mut name = main.clone();
                let mut j: usize = 0;
                proof {
                    assert(strs(run@).take(0) =~= Seq::<Seq<char>>::empty());
                }
                while j < run.len()
                    invariant
                        j <= run@.len(),
                        name@ == main@ + concat_all(strs(run@).take(j as int)),
                    decreases run@.len() - j,
                {
                    name.append(run[j].as_str());
                    proof {
                        assert(strs(run@).take(j + 1).drop_last() =~= strs(run@).take(j as int));
                        assert(name@ =~= main@ + concat_all(strs(run@).take(j + 1)));
                    }
                    j = j + 1;
                }
                proof {
                    assert(strs(run@).take(j as int) =~= strs(run@));
                }
                let ghost r0 = r@;
                r.push(SuperTrait { name, bounds: run });
                proof {
                    let ws = wanted_windows(sv, target, ws_next);
                    assert(ws == wanted_windows(sv, target, prev + row.take(offset as int)).push((offset as int, width as int)));
                    assert forall|i: int| 0 <= i < r@.len() implies {
                        let run = sv.subrange(ws[i].0, ws[i].0 + ws[i].1);
                        &&& strs((#[trigger] r@[i]).bounds@) == run
                        &&& r@[i].name@ == main@ + concat_all(run)
                    } by {
                        if i < r0.len() {
                            assert(r@[i] == r0[i]);
                        }
                    }
                }
            }
            offset = offset + 1;
        }
        proof {
            assert(row.take(offset as int) =~= row);
            assert(windows_upto(n as int, width as nat) == prev + row);
        }
        done = done + 1;
    }
    r
}

/// Sorting keeps the number of strings.
pub proof fn lemma_sort_len(s: Seq<Seq<char>>)
    ensures
        sort_chars(s).len() == s.len(),
    decreases s.len(),
{
    if s.len() > 0 {
        lemma_sort_len(s.drop_last());
        lemma_insert_len(sort_chars(s.drop_last()), s.last());
    }
}

proof fn lemma_insert_len(s: Seq<Seq<char>>, x: Seq<char>)
    ensures
        crate::text::insert_sorted(s, x).len() == s.len() + 1,
    decreases s.len(),
{
    if s.len() > 0 {
        lemma_insert_len(s.drop_first(), x);
    }
}

/// The sum of the first `k` counts.
pub open spec fn sum_upto(lens: Seq<usize>, k: nat) -> nat
    decreases k,
{
    if k == 0 {
        0
    } else {
        sum_upto(lens, (k - 1) as nat) + lens[k - 1] as nat
    }
}

/// A pipe function is registered under one row per combination of each
/// injected parameter (so the row with every parameter at its first
/// combination comes once per parameter), and every registered row picks an
/// existing combination of each parameter.
pub proof fn law_registration_rows_pick_existing_combinations(lens: Seq<usize>, k: nat)
    requires
        k <= lens.len(),
        forall|p: int| 0 <= p < lens.len() ==> #[trigger] lens[p] >= 1,
    ensures
        registration_rows_spec(lens, k).len() == sum_upto(lens, k),
        forall|i: int, p: int|
            0 <= i < registration_rows_spec(lens, k).len() && 0 <= p < lens.len()
                ==> #[trigger] registration_rows_spec(lens, k)[i][p] < lens[p],
        forall|i: int| 0 <= i < registration_rows_spec(lens, k).len() ==> (#[trigger] registration_rows_spec(lens, k)[i]).len() == lens.len(),
    decreases k,
{
    if k > 0 {
        law_registration_rows_pick_existing_combinations(lens, (k - 1) as nat);
        let before = registration_rows_spec(lens, (k - 1) as nat);
        let all = registration_rows_spec(lens, k);
        assert forall|i: int, p: int| 0 <= i < all.len() && 0 <= p < lens.len() implies #[trigger] all[i][p] < lens[p] by {
            if i < before.len() {
                assert(all[i] == before[i]);
            } else {
                assert(lens[p] >= 1);
            }
        }
        assert forall|i: int| 0 <= i < all.len() implies (#[trigger] all[i]).len() == lens.len() by {
            if i < before.len() {
                assert(all[i] == before[i]);
            }
        }
    }
}

/// The strings of `s` with `sep` between each two.
pub open spec fn join_with(s: Seq<Seq<char>>, sep: Seq<char>) -> Seq<char>
    decreases s.len(),
{
    if s.len() == 0 {
        Seq::empty()
    } else if s.len() == 1 {
        s[0]
    } else {
        join_with(s.drop_last(), sep) + sep + s.last()
    }
}

/// The strings joined with `", "` between them.
pub fn join_comma(v: &Vec<String>) -> (r: String)
    ensures
        r@ == join_with(strs(v@), ", "@),
{
    let mut r = String::new();
    let mut i: usize = 0;
    while i < v.len()
        invariant
            i <= v@.len(),
            r@ == join_with(strs(v@).take(i as int), ", "@),
        decreases v@.len() - i,
    {
        proof {
            assert(strs(v@).take(i + 1).drop_last() =~= strs(v@).take(i as int));
            assert(strs(v@).take(i + 1).last() == v@[i as int]@);
        }
        if i > 0 {
            r.append(", ");
        } else {
            proof {
                assert(r@ =~= Seq::<char>::empty());
            }
        }
        r.append(v[i].as_str());
        proof {
            if i == 0 {
                assert(strs(v@).take(1)[0] == v@[0]@);
                assert(r@ =~= join_with(strs(v@).take(1), ", "@));
            } else {
                assert(r@ =~= join_with(strs(v@).take(i + 1), ", "@));
            }
        }
        i = i + 1;
    }
    proof {
        assert(strs(v@).take(i as int) =~= strs(v@));
    }
    r
}

impl BoundsError {
    /// What is wrong with the bounds, as the attribute reports it.
    pub fn message(&self) -> (m: String)
        ensures
            self matches BoundsError::NoTopicBound(b) ==> m@ == "Unexpected trait bounds "@ + join_with(strs(b@), ", "@),
            self matches BoundsError::Unexpected(b) ==> m@ == "Unexpected trait bounds "@ + join_with(strs(b@), ", "@),
            self matches BoundsError::MissingEventType(t) ==> m@ == "Expected a lifetime and an event type in "@ + t@,
    {
        let mut m = String::new();
        match self {
            BoundsError::NoTopicBound(b) | BoundsError::Unexpected(b) => {
                m.append("Unexpected trait bounds ");
                let list = join_comma(b);
                m.append(list.as_str());
            },
            BoundsError::MissingEventType(t) => {
                m.append("Expected a lifetime and an event type in ");
                m.append(t.as_str());
            },
        }
        m
    }

    /// The help shown with an error about the bounds: the bounds that are accepted.
    pub fn help(&self) -> (h: Option<String>)
        ensures
            self is MissingEventType ==> h is None,
            !(self is MissingEventType) ==> (h matches Some(t) && t@
                == "The following trait bounds are available only "@ + "Bevy or Async, Ack, Trace, Group"@),
    {
        match self {
            BoundsError::MissingEventType(_) => None,
            _ => {
                let mut h = String::new();
                h.append("The following trait bounds are available only ");
                h.append("Bevy or Async, Ack, Trace, Group");
                Some(h)
            },
        }
    }

    /// The note shown with an error about the bounds: how to take a generic
    /// argument in place of an injected one.
    pub fn note(&self) -> (n: Option<String>)
        ensures
            self is MissingEventType ==> n is None,
            !(self is MissingEventType) ==> (n matches Some(t) && t@
                == "To use generic arguments instead of injected ones use generic types rather than impl Trait"@),
    {
        match self {
            BoundsError::MissingEventType(_) => None,
            _ => {
                let mut n = String::new();
                n.append("To use generic arguments instead of injected ones use generic types rather than impl Trait");
                Some(n)
            },
        }
    }
}


/// A parameter of a pipe function, as far as the attribute reads its type.
pub enum ParamType {
    /// `self`, in any form; the attribute names it before it reads any other parameter.
    Receiver,
    /// `impl A + B + ...`, with the text of each trait bound.
    ImplTrait(Vec<String>),
    /// `&dyn A + ...` or `&(dyn A + ...)`, with the text of each trait bound.
    DynRef(Vec<String>),
    /// A reference to a parenthesized type that is no trait object.
    RefToParenOther,
    /// A reference to a type that is neither a trait object nor parenthesized.
    RefToOther,
    /// A path type, with the generic arguments of its last segment.
    Path(PathArguments),
    /// A path type without segments, or any other type.
    Other,
}

/// What the attribute does with a parameter.
pub enum ParamPlan {
    /// The parameter is an injected topic: it becomes a generic parameter
    /// (`impl Trait`, `dyn_bound` is `None`), or a `&mut dyn` of the trait
    /// named `dyn_bound` (a `&dyn` parameter).
    Injected { topic: InjectedTopic, dyn_bound: Option<String> },
    /// The type's last segment takes these generic arguments.
    Path(PathArguments),
    /// The type stays as written.
    Unchanged,
}

/// Why the attribute refuses a parameter.
pub enum ParamError {
    /// A `self` parameter.
    Receiver,
    /// A reference to a parenthesized type that is no trait object.
    ExpectedTraitObject,
    /// A reference to a type that is neither a trait object nor a group of them.
    ExpectedTraitObjectOrGroup,
    /// The bounds of an injected topic are wrong.
    Bounds(BoundsError),
}

impl ParamError {
    /// What is wrong with the parameter, as the attribute reports it.
    pub fn message(&self) -> (m: String)
        ensures
            self is Receiver ==> m@ == "Expected a typed paramater"@,
            self is ExpectedTraitObject ==> m@ == "Expected a trait object"@,
            self is ExpectedTraitObjectOrGroup ==> m@ == "Expected either a trait object or a group of trait objects."@,
            self matches ParamError::Bounds(e) ==> (e matches BoundsError::MissingEventType(t) ==> m@
                == "Expected a lifetime and an event type in "@ + t@),
            self matches ParamError::Bounds(e) ==> (e matches BoundsError::Unexpected(b) ==> m@
                == "Unexpected trait bounds "@ + join_with(strs(b@), ", "@)),
            self matches ParamError::Bounds(e) ==> (e matches BoundsError::NoTopicBound(b) ==> m@
                == "Unexpected trait bounds "@ + join_with(strs(b@), ", "@)),
    {
        match self {
            ParamError::Receiver => String::from_str("Expected a typed paramater"),
            ParamError::ExpectedTraitObject => String::from_str("Expected a trait object"),
            ParamError::ExpectedTraitObjectOrGroup => String::from_str(
                "Expected either a trait object or a group of trait objects.",
            ),
            ParamError::Bounds(e) => e.message(),
        }
    }
}

/// What the attribute does with a parameter of type `t`: an `impl Trait` or
/// `&dyn` parameter is an injected topic when its bounds make one, a path
/// type gets the lifetimes `'w` and `'s`, other types stay; `self` and a
/// reference to anything but trait objects are refused.
pub fn plan_param(t: ParamType) -> (r: Result<ParamPlan, ParamError>)
    ensures
        t is Receiver ==> r matches Err(ParamError::Receiver),
        t is RefToParenOther ==> r matches Err(ParamError::ExpectedTraitObject),
        t is RefToOther ==> r matches Err(ParamError::ExpectedTraitObjectOrGroup),
        t is Other ==> r matches Ok(ParamPlan::Unchanged),
        t matches ParamType::Path(args) ==> (r matches Ok(ParamPlan::Path(a)) && (args is Absent ==> (
        a matches PathArguments::AngleBracketed(x) && strs(x@) == seq!["'w"@, "'s"@])) && (
        args matches PathArguments::AngleBracketed(y) ==> (a matches PathArguments::AngleBracketed(x)
            && strs(x@) == seq!["'s"@, "'w"@] + strs(y@))) && (args is Parenthesized
            ==> a is Parenthesized)),
        t matches ParamType::ImplTrait(b) ==> match r {
            Ok(ParamPlan::Injected { topic, dyn_bound }) => dyn_bound is None && injected_topic_result(
                strs(b@),
                Ok(topic),
            ),
            Err(ParamError::Bounds(e)) => injected_topic_result(strs(b@), Err(e)),
            _ => false,
        },
        t matches ParamType::DynRef(b) ==> match r {
            Ok(ParamPlan::Injected { topic, dyn_bound }) => injected_topic_result(strs(b@), Ok(topic))
                && (dyn_bound matches Some(n) && n@ == topic.topic_name@ + concat_all(
                strs(topic.other_bounds@),
            )),
            Err(ParamError::Bounds(e)) => injected_topic_result(strs(b@), Err(e)),
            _ => false,
        },
{
    match t {
        ParamType::Receiver => Err(ParamError::Receiver),
        ParamType::RefToParenOther => Err(ParamError::ExpectedTraitObject),
        ParamType::RefToOther => Err(ParamError::ExpectedTraitObjectOrGroup),
        ParamType::Other => Ok(ParamPlan::Unchanged),
        ParamType::Path(args) => Ok(ParamPlan::Path(with_lifetimes(args))),
        ParamType::ImplTrait(b) => match injected_topic(&b) {
            Ok(topic) => Ok(ParamPlan::Injected { topic, dyn_bound: None }),
            Err(e) => Err(ParamError::Bounds(e)),
        },
        ParamType::DynRef(b) => match injected_topic(&b) {
            Ok(topic) => {
                let name = dynamic_bound_name(&topic);
                Ok(ParamPlan::Injected { topic, dyn_bound: Some(name) })
            },
            Err(e) => Err(ParamError::Bounds(e)),
        },
    }
}

/// The type an injected topic takes under each of its combinations, in order.
pub fn combination_types(t: &InjectedTopic) -> (types: Vec<String>)
    ensures
        types@.len() == t.combinations@.len(),
        forall|k: int|
            0 <= k < types@.len() ==> (#[trigger] types@[k])@ == combination_type_spec(
                t.kind,
                t.combinations@[k],
                t.event@,
            ),
{
    let mut types: Vec<String> = Vec::new();
    let mut i: usize = 0;
    while i < t.combinations.len()
        invariant
            i <= t.combinations@.len(),
            types@.len() == i,
            forall|k: int|
                0 <= k < i ==> (#[trigger] types@[k])@ == combination_type_spec(
                    t.kind,
                    t.combinations@[k],
                    t.event@,
                ),
        decreases t.combinations@.len() - i,
    {
        types.push(combination_type(t.kind, &t.combinations[i], t.event.as_str()));
        i = i + 1;
    }
    types
}

/// The first occurrence of `c` in `s`: where it is, and that no earlier character is `c`.
proof fn lemma_first_index_first(s: Seq<char>, c: char)
    ensures
        first_index_of(s, c) matches Some(i) ==> 0 <= i < s.len() && s[i] == c && forall|j: int|
            0 <= j < i ==> s[j] != c,
    decreases s.len(),
{
    if s.len() > 0 && s[0] != c {
        lemma_first_index_first(s.drop_first(), c);
        if first_index_of(s, c) is Some {
            let i = first_index_of(s, c)->0;
            assert forall|j: int| 0 <= j < i implies s[j] != c by {
                if j > 0 {
                    assert(s.drop_first()[j - 1] == s[j]);
                }
            }
        }
    }
}

/// The last occurrence of `c` in `s`: where it is, and that no later character is `c`.
proof fn lemma_last_index_last(s: Seq<char>, c: char)
    ensures
        last_index_of(s, c) matches Some(i) ==> 0 <= i < s.len() && s[i] == c && forall|j: int|
            i < j < s.len() ==> s[j] != c,
    decreases s.len(),
{
    if s.len() > 0 && s.last() != c {
        lemma_last_index_last(s.drop_last(), c);
        if last_index_of(s, c) is Some {
            let i = last_index_of(s, c)->0;
            assert forall|j: int| i < j < s.len() implies s[j] != c by {
                if j < s.len() - 1 {
                    assert(s.drop_last()[j] == s[j]);
                }
            }
        }
    }
}

/// The event type of an injected topic is the text of one of the bounds, the
/// topic bound, that starts right after the first comma following the bound's
/// first `'` and ends right before the bound's last `>`; so a bound such as
/// `TopicReader<'a,Vec<u8>>` has the event type `Vec<u8>`. Returned are the
/// bound's position, the position of its first `'`, and where the event type
/// starts and ends in it.
pub proof fn law_event_runs_to_the_last_angle(bounds: Seq<Seq<char>>, r: Result<InjectedTopic, BoundsError>) -> (w: (
    int,
    int,
    int,
    int,
))
    requires
        injected_topic_result(bounds, r),
        r is Ok,
    ensures
        0 <= w.0 < bounds.len(),
        0 <= w.1 < w.2 <= w.3 < bounds[w.0].len(),
        bounds[w.0][w.1] == '\'',
        forall|j: int| 0 <= j < w.1 ==> bounds[w.0][j] != '\'',
        bounds[w.0][w.2 - 1] == ',',
        forall|j: int| w.1 <= j < w.2 - 1 ==> bounds[w.0][j] != ',',
        bounds[w.0][w.3] == '>',
        forall|j: int| w.3 < j < bounds[w.0].len() ==> bounds[w.0][j] != '>',
        r->Ok_0.event@ == bounds[w.0].subrange(w.2, w.3),
{
    lemma_first_containing_bound(bounds, reader_needle());
    lemma_first_containing_bound(bounds, writer_needle());
    let (pos, kind) = topic_position(bounds)->0;
    let rw = bounds[pos];
    let (start, end) = event_range(rw)->0;
    lemma_first_index_first(rw, '\'');
    let l = first_index_of(rw, '\'')->0;
    lemma_first_index_first(rw.skip(l), ',');
    let c = first_index_of(rw.skip(l), ',')->0;
    lemma_last_index_last(rw, '>');
    assert(rw.skip(l)[c] == rw[l + c]);
    assert(c != 0);
    assert forall|j: int| l <= j < start - 1 implies rw[j] != ',' by {
        assert(rw.skip(l)[j - l] == rw[j]);
    }
    (pos, l, start, end)
}

} // verus!

//! Characters of strings: searching, slicing, ordering and building.
use vstd::prelude::*;

verus! {

/// The characters of a string, in order.
pub fn chars_of(s: &str) -> (v: Vec<char>)
    ensures
        v@ == s@,
{
    broadcast use vstd::string::axiom_spec_iter;

    let mut v: Vec<char> = Vec::new();
    for c in it: s.chars()
        invariant
            v@ == it.seq().take(it.index() as int),
            it.seq() == s@,
    {
        v.push(c);
        proof {
            assert(it.seq().take(it.index() + 1) =~= v@);
        }
    }
    v
}

/// `String::push`: appends one character.
#[verifier::external_body]
fn push_char(s: &mut String, c: char)
    ensures
        final(s)@ == old(s)@.push(c),
{
    s.push(c)
}

/// Appends characters to a string.
pub fn push_chars(s: &mut String, v: &Vec<char>)
    ensures
        final(s)@ == old(s)@ + v@,
{
    let mut i: usize = 0;
    while i < v.len()
        invariant
            i <= v@.len(),
            s@ == old(s)@ + v@.take(i as int),
        decreases v@.len() - i,
    {
        push_char(s, v[i]);
        proof {
            assert(v@.take(i + 1) =~= v@.take(i as int).push(v@[i as int]));
        }
        i = i + 1;
    }
    proof {
        assert(v@.take(i as int) =~= v@);
    }
}

/// A string of the given characters.
pub fn string_of(v: &Vec<char>) -> (s: String)
    ensures
        s@ == v@,
{
    let mut s = String::new();
    push_chars(&mut s, v);
    proof {
        assert(Seq::<char>::empty() + v@ =~= v@);
    }
    s
}

/// `needle` occurs in `hay` starting at `i`.
pub open spec fn occurs_at(hay: Seq<char>, needle: Seq<char>, i: int) -> bool {
    0 <= i && i + needle.len() <= hay.len() && hay.subrange(i, i + needle.len()) == needle
}

/// `needle` occurs somewhere in `hay`.
pub open spec fn contains_seq(hay: Seq<char>, needle: Seq<char>) -> bool {
    exists|i: int| occurs_at(hay, needle, i)
}

/// Whether `needle` occurs in `hay` starting at `i`.
fn occurs_at_exec(hay: &Vec<char>, needle: &Vec<char>, i: usize) -> (ok: bool)
    requires
        i + needle@.len() <= hay@.len(),
    ensures
        ok == occurs_at(hay@, needle@, i as int),
{
    let hl: usize = hay.len();
    let mut k: usize = 0;
    while k < needle.len()
        invariant
            hl == hay@.len(),
            k <= needle@.len(),
            i + needle@.len() <= hay@.len(),
            forall|j: int| 0 <= j < k ==> hay@[i + j] == needle@[j],
        decreases needle@.len() - k,
    {
        if hay[i + k] != needle[k] {
            proof {
                assert(hay@.subrange(i as int, i + needle@.len())[k as int] != needle@[k as int]);
            }
            return false;
        }
        k = k + 1;
    }
    proof {
        assert(hay@.subrange(i as int, i + needle@.len()) =~= needle@);
    }
    true
}

/// Whether `needle` occurs in `hay`.
pub fn contains(hay: &Vec<char>, needle: &Vec<char>) -> (ok: bool)
    ensures
        ok == contains_seq(hay@, needle@),
{
    if needle.len() > hay.len() {
        proof {
            if contains_seq(hay@, needle@) {
                let i: int = choose|i: int| occurs_at(hay@, needle@, i);
            }
        }
        return false;
    }
    let last: usize = hay.len() - needle.len();
    let mut i: usize = 0;
    let mut done = false;
    while !done
        invariant
            last + needle@.len() == hay@.len(),
            i <= last,
            !done ==> forall|j: int| 0 <= j < i ==> !occurs_at(hay@, needle@, j),
            done ==> forall|j: int| 0 <= j <= last ==> !occurs_at(hay@, needle@, j),
        decreases last - i + (if done { 0int } else { 1int }),
    {
        if occurs_at_exec(hay, needle, i) {
            return true;
        }
        if i == last {
            done = true;
        } else {
            i = i + 1;
        }
    }
    proof {
        if contains_seq(hay@, needle@) {
            let j: int = choose|j: int| occurs_at(hay@, needle@, j);
            assert(!occurs_at(hay@, needle@, j));
        }
    }
    false
}

/// The position of the first `c` in `s`.
pub open spec fn first_index_of(s: Seq<char>, c: char) -> Option<int>
    decreases s.len(),
{
    if s.len() == 0 {
        None
    } else if s[0] == c {
        Some(0)
    } else {
        match first_index_of(s.drop_first(), c) {
            Some(i) => Some(i + 1),
            None => None,
        }
    }
}

/// The position of the last `c` in `s`.
pub open spec fn last_index_of(s: Seq<char>, c: char) -> Option<int>
    decreases s.len(),
{
    if s.len() == 0 {
        None
    } else if s.last() == c {
        Some(s.len() - 1)
    } else {
        last_index_of(s.drop_last(), c)
    }
}

proof fn lemma_first_index_of(s: Seq<char>, c: char, i: int)
    requires
        0 <= i <= s.len(),
        forall|j: int| 0 <= j < i ==> s[j] != c,
    ensures
        i < s.len() && s[i] == c ==> first_index_of(s, c) == Some(i),
        i == s.len() ==> first_index_of(s, c) is None,
    decreases i,
{
    if i > 0 {
        lemma_first_index_of(s.drop_first(), c, i - 1);
    } else if s.len() == 0 {
    }
}

proof fn lemma_last_index_of(s: Seq<char>, c: char, i: int)
    requires
        0 <= i <= s.len(),
        forall|j: int| i <= j < s.len() ==> s[j] != c,
    ensures
        i > 0 && s[i - 1] == c ==> last_index_of(s, c) == Some(i - 1),
        i == 0 ==> last_index_of(s, c) is None,
    decreases s.len() - i,
{
    if i < s.len() {
        lemma_last_index_of(s.drop_last(), c, i);
    }
}

/// The position of the first `c` in `s`, if any.
pub fn find_char(s: &Vec<char>, c: char) -> (r: Option<usize>)
    ensures
        r matches Some(i) ==> first_index_of(s@, c) == Some(i as int),
        r is None ==> first_index_of(s@, c) is None,
{
    let mut i: usize = 0;
    while i < s.len()
        invariant
            i <= s@.len(),
            forall|j: int| 0 <= j < i ==> s@[j] != c,
        decreases s@.len() - i,
    {
        if s[i] == c {
            proof {
                lemma_first_index_of(s@, c, i as int);
            }
            return Some(i);
        }
        i = i + 1;
    }
    proof {
        lemma_first_index_of(s@, c, i as int);
    }
    None
}

/// The position of the last `c` in `s`, if any.
pub fn rfind_char(s: &Vec<char>, c: char) -> (r: Option<usize>)
    ensures
        r matches Some(i) ==> last_index_of(s@, c) == Some(i as int),
        r is None ==> last_index_of(s@, c) is None,
{
    let mut i: usize = s.len();
    while i > 0
        invariant
            i <= s@.len(),
            forall|j: int| i <= j < s@.len() ==> s@[j] != c,
        decreases i,
    {
        if s[i - 1] == c {
            proof {
                lemma_last_index_of(s@, c, i as int);
            }
            return Some(i - 1);
        }
        i = i - 1;
    }
    proof {
        lemma_last_index_of(s@, c, 0);
    }
    None
}

/// The characters of `s` from `start` up to `end`.
pub fn slice_chars(s: &Vec<char>, start: usize, end: usize) -> (v: Vec<char>)
    requires
        start <= end <= s@.len(),
    ensures
        v@ == s@.subrange(start as int, end as int),
{
    let mut v: Vec<char> = Vec::new();
    let mut i: usize = start;
    while i < end
        invariant
            start <= i <= end <= s@.len(),
            v@ == s@.subrange(start as int, i as int),
        decreases end - i,
    {
        v.push(s[i]);
        proof {
            assert(s@.subrange(start as int, i + 1) =~= s@.subrange(start as int, i as int).push(s@[i as int]));
        }
        i = i + 1;
    }
    v
}

/// `a` comes before `b`, or equals it, comparing character by character by
/// code point, a prefix first.
pub open spec fn chars_le(a: Seq<char>, b: Seq<char>) -> bool
    decreases a.len(),
{
    if a.len() == 0 {
        true
    } else if b.len() == 0 {
        false
    } else if (a[0] as int) < (b[0] as int) {
        true
    } else if a[0] == b[0] {
        chars_le(a.drop_first(), b.drop_first())
    } else {
        false
    }
}

/// Whether `a` comes before `b` or equals it.
pub fn le_chars(a: &Vec<char>, b: &Vec<char>) -> (r: bool)
    ensures
        r == chars_le(a@, b@),
{
    let mut i: usize = 0;
    proof {
        assert(a@.skip(0) =~= a@);
        assert(b@.skip(0) =~= b@);
    }
    while i < a.len() && i < b.len() && a[i] == b[i]
        invariant
            i <= a@.len(),
            i <= b@.len(),
            a@.take(i as int) == b@.take(i as int),
            chars_le(a@, b@) == chars_le(a@.skip(i as int), b@.skip(i as int)),
        decreases a@.len() - i,
    {
        proof {
            assert(a@.skip(i as int).drop_first() =~= a@.skip(i + 1));
            assert(b@.skip(i as int).drop_first() =~= b@.skip(i + 1));
            assert(a@.take(i + 1) =~= a@.take(i as int).push(a@[i as int]));
            assert(b@.take(i + 1) =~= b@.take(i as int).push(b@[i as int]));
        }
        i = i + 1;
    }
    if i == a.len() {
        return true;
    }
    if i == b.len() {
        return false;
    }
    a[i] < b[i]
}

/// Inserts `x` before the first element that it comes before.
pub open spec fn insert_sorted(s: Seq<Seq<char>>, x: Seq<char>) -> Seq<Seq<char>>
    decreases s.len(),
{
    if s.len() == 0 {
        seq![x]
    } else if chars_le(x, s[0]) {
        seq![x] + s
    } else {
        seq![s[0]] + insert_sorted(s.drop_first(), x)
    }
}

/// `s` sorted by `chars_le`, inserting its elements one after another.
pub open spec fn sort_chars(s: Seq<Seq<char>>) -> Seq<Seq<char>>
    decreases s.len(),
{
    if s.len() == 0 {
        s
    } else {
        insert_sorted(sort_chars(s.drop_last()), s.last())
    }
}

proof fn lemma_insert_at(s: Seq<Seq<char>>, x: Seq<char>, i: int)
    requires
        0 <= i <= s.len(),
        forall|j: int| 0 <= j < i ==> !chars_le(x, #[trigger] s[j]),
        i == s.len() || chars_le(x, s[i]),
    ensures
        insert_sorted(s, x) == s.insert(i, x),
    decreases i,
{
    if s.len() == 0 {
        assert(s.insert(0, x) =~= seq![x]);
    } else if i == 0 {
        assert(s.insert(0, x) =~= seq![x] + s);
    } else {
        let t = s.drop_first();
        assert forall|j: int| 0 <= j < i - 1 implies !chars_le(x, #[trigger] t[j]) by {
            assert(t[j] == s[j + 1]);
        }
        lemma_insert_at(t, x, i - 1);
        assert(seq![s[0]] + t.insert(i - 1, x) =~= s.insert(i, x));
    }
}

/// The characters of each string of `v`.
pub open spec fn views(v: Seq<Vec<char>>) -> Seq<Seq<char>> {
    Seq::new(v.len(), |i: int| v[i]@)
}

/// Sorts strings given as characters by `chars_le`, as inserting them one
/// after another would.
pub fn sort_by_chars(v: Vec<Vec<char>>) -> (r: Vec<Vec<char>>)
    ensures
        views(r@) == sort_chars(views(v@)),
{
    let ghost vv = views(v@);
    let mut rest = v;
    let mut r: Vec<Vec<char>> = Vec::new();
    let ghost mut k: int = 0;
    proof {
        assert(vv.take(0) =~= Seq::<Seq<char>>::empty());
        assert(views(r@) =~= sort_chars(vv.take(0)));
        assert(views(rest@) =~= vv.skip(0));
    }
    while rest.len() > 0
        invariant
            0 <= k <= vv.len(),
            views(rest@) == vv.skip(k),
            views(r@) == sort_chars(vv.take(k)),
        decreases rest@.len(),
    {
        let ghost before = rest@;
        let x = rest.remove(0);
        proof {
            assert(views(before).len() == before.len());
            assert(before.len() == vv.len() - k);
            assert(k < vv.len());
            assert(views(before)[0] == vv.skip(k)[0]);
            assert(views(rest@) =~= vv.skip(k + 1)) by {
                assert forall|i: int| 0 <= i < rest@.len() implies views(rest@)[i] == vv.skip(k + 1)[i] by {
                    assert(rest@[i] == before[i + 1]);
                    assert(views(before)[i + 1] == before[i + 1]@);
                    assert(views(before)[i + 1] == vv.skip(k)[i + 1]);
                    assert(vv.skip(k)[i + 1] == vv[k + i + 1]);
                    assert(vv.skip(k + 1)[i] == vv[k + 1 + i]);
                }
            }
            assert(x@ == vv[k]);
            assert(vv.take(k + 1).drop_last() =~= vv.take(k));
        }
        let ghost sr = views(r@);
        let mut j: usize = 0;
        while j < r.len() && !le_chars(&x, &r[j])
            invariant
                j <= r@.len(),
                sr == views(r@),
                forall|i: int| 0 <= i < j ==> !chars_le(x@, #[trigger] sr[i]),
            decreases r@.len() - j,
        {
            j = j + 1;
        }
        proof {
            lemma_insert_at(sr, x@, j as int);
        }
        r.insert(j, x);
        proof {
            assert(views(r@) =~= sr.insert(j as int, x@));
            k = k + 1;
        }
    }
    proof {
        assert(vv.take(k) =~= vv);
    }
    r
}

/// Any two strings are ordered one way or the other.
pub proof fn lemma_chars_le_total(a: Seq<char>, b: Seq<char>)
    ensures
        chars_le(a, b) || chars_le(b, a),
    decreases a.len(),
{
    if a.len() > 0 && b.len() > 0 {
        if a[0] == b[0] {
            lemma_chars_le_total(a.drop_first(), b.drop_first());
        }
    }
}

/// The order is transitive.
pub proof fn lemma_chars_le_trans(a: Seq<char>, b: Seq<char>, c: Seq<char>)
    requires
        chars_le(a, b),
        chars_le(b, c),
    ensures
        chars_le(a, c),
    decreases a.len(),
{
    if a.len() > 0 && b.len() > 0 && c.len() > 0 && a[0] == b[0] && b[0] == c[0] {
        lemma_chars_le_trans(a.drop_first(), b.drop_first(), c.drop_first());
    }
}

/// Each string comes before or equals every later one.
pub open spec fn sorted_chars(s: Seq<Seq<char>>) -> bool {
    forall|i: int, j: int| 0 <= i < j < s.len() ==> chars_le(#[trigger] s[i], #[trigger] s[j])
}

proof fn lemma_insert_sorted_keeps(s: Seq<Seq<char>>, x: Seq<char>)
    requires
        sorted_chars(s),
    ensures
        sorted_chars(insert_sorted(s, x)),
        insert_sorted(s, x).len() == s.len() + 1,
        forall|i: int| 0 <= i < insert_sorted(s, x).len() ==> (#[trigger] insert_sorted(s, x)[i] == x || s.contains(insert_sorted(s, x)[i])),
    decreases s.len(),
{
    let r = insert_sorted(s, x);
    if s.len() == 0 {
    } else if chars_le(x, s[0]) {
        assert forall|i: int, j: int| 0 <= i < j < r.len() implies chars_le(#[trigger] r[i], #[trigger] r[j]) by {
            if i == 0 {
                if j > 1 {
                    lemma_chars_le_trans(x, s[0], s[j - 1]);
                }
            } else {
                assert(r[i] == s[i - 1] && r[j] == s[j - 1]);
            }
        }
        assert forall|i: int| 0 <= i < r.len() implies (#[trigger] r[i] == x || s.contains(r[i])) by {
            if i > 0 {
                assert(r[i] == s[i - 1]);
            }
        }
    } else {
        let t = s.drop_first();
        assert(sorted_chars(t)) by {
            assert forall|i: int, j: int| 0 <= i < j < t.len() implies chars_le(#[trigger] t[i], #[trigger] t[j]) by {
                assert(t[i] == s[i + 1] && t[j] == s[j + 1]);
            }
        }
        lemma_insert_sorted_keeps(t, x);
        let rt = insert_sorted(t, x);
        lemma_chars_le_total(x, s[0]);
        assert forall|i: int, j: int| 0 <= i < j < r.len() implies chars_le(#[trigger] r[i], #[trigger] r[j]) by {
            if i == 0 {
                assert(r[j] == rt[j - 1]);
                if rt[j - 1] == x {
                } else {
                    let k: int = choose|k: int| 0 <= k < t.len() && t[k] == rt[j - 1];
                    assert(t[k] == s[k + 1]);
                }
            } else {
                assert(r[i] == rt[i - 1] && r[j] == rt[j - 1]);
            }
        }
        assert forall|i: int| 0 <= i < r.len() implies (#[trigger] r[i] == x || s.contains(r[i])) by {
            if i == 0 {
                assert(s[0] == r[0]);
            } else {
                assert(r[i] == rt[i - 1]);
                if rt[i - 1] != x {
                    let k: int = choose|k: int| 0 <= k < t.len() && t[k] == rt[i - 1];
                    assert(s[k + 1] == r[i]);
                }
            }
        }
    }
}

/// Sorting gives the strings in order.
pub proof fn law_sorted_strings_are_ordered(s: Seq<Seq<char>>)
    ensures
        sorted_chars(sort_chars(s)),
        sort_chars(s).len() == s.len(),
    decreases s.len(),
{
    if s.len() > 0 {
        law_sorted_strings_are_ordered(s.drop_last());
        lemma_insert_sorted_keeps(sort_chars(s.drop_last()), s.last());
    }
}

} // verus!

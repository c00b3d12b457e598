//! The alphabetical order of names, by the numbers of their characters.

use vstd::prelude::*;

use crate::text;

verus! {

/// `a` comes before `b`.
pub open spec fn precedes(a: Seq<char>, b: Seq<char>) -> bool
    decreases a.len(),
{
    if b.len() == 0 {
        false
    } else if a.len() == 0 {
        true
    } else if a[0] == b[0] {
        precedes(a.skip(1), b.skip(1))
    } else {
        a[0] < b[0]
    }
}

/// No name comes before the one in front of it.
pub open spec fn sorted(names: Seq<Seq<char>>) -> bool {
    forall|i: int, j: int|
        0 <= i < j < names.len() ==> !precedes(#[trigger] names[j], #[trigger] names[i])
}

/// Every name comes before the one that follows it.
pub open spec fn ascending(names: Seq<Seq<char>>) -> bool {
    forall|i: int, j: int|
        0 <= i < j < names.len() ==> precedes(#[trigger] names[i], #[trigger] names[j])
}

/// Of two different names one comes before the other, and not the other way round.
pub proof fn lemma_total(a: Seq<char>, b: Seq<char>)
    ensures
        precedes(a, b) ==> !precedes(b, a),
        !precedes(a, b) && !precedes(b, a) ==> a == b,
        !precedes(a, a),
    decreases a.len(),
{
    if a.len() > 0 {
        lemma_total(a.skip(1), a.skip(1));
    }
    if a.len() > 0 && b.len() > 0 {
        if a[0] == b[0] {
            lemma_total(a.skip(1), b.skip(1));
            if a.skip(1) == b.skip(1) {
                assert(a =~= seq![a[0]] + a.skip(1));
                assert(b =~= seq![b[0]] + b.skip(1));
            }
        }
    } else if a.len() == 0 && b.len() == 0 {
        assert(a =~= b);
    }
}

/// What comes before a name that comes before another comes before the other.
pub proof fn lemma_transitive(a: Seq<char>, b: Seq<char>, c: Seq<char>)
    requires
        precedes(a, b),
        precedes(b, c),
    ensures
        precedes(a, c),
    decreases a.len(),
{
    if a.len() > 0 {
        if a[0] == b[0] && b[0] == c[0] {
            lemma_transitive(a.skip(1), b.skip(1), c.skip(1));
        }
    }
}

/// Whether one name comes before another.
pub fn less(a: &[char], b: &[char]) -> (r: bool)
    ensures
        r == precedes(a@, b@),
{
    let mut i: usize = 0;
    proof {
        assert(a@.skip(0) =~= a@);
        assert(b@.skip(0) =~= b@);
    }
    while i < a.len() && i < b.len()
        invariant
            i <= a@.len(),
            i <= b@.len(),
            precedes(a@, b@) == precedes(a@.skip(i as int), b@.skip(i as int)),
        decreases a@.len() - i,
    {
        if a[i] != b[i] {
            return a[i] < b[i];
        }
        proof {
            assert(a@.skip(i as int).skip(1) =~= a@.skip(i + 1));
            assert(b@.skip(i as int).skip(1) =~= b@.skip(i + 1));
        }
        i = i + 1;
    }
    i < b.len()
}

/// The names in alphabetical order.
pub fn sort_names(names: Vec<String>) -> (r: Vec<String>)
    ensures
        sorted(text::views(r@)),
        text::views(r@).to_multiset() == text::views(names@).to_multiset(),
{
    let mut r: Vec<String> = Vec::new();
    let ghost all = text::views(names@);
    proof {
        assert(text::views(r@) =~= all.take(0));
    }
    for name in it: names
        invariant
            text::views(it.seq()) == all,
            sorted(text::views(r@)),
            text::views(r@).to_multiset() == all.take(it.index()).to_multiset(),
    {
        let ghost before = text::views(r@);
        let ghost idx = it.index();
        let cs = text::chars_of(name.as_str());
        let mut at: usize = r.len();
        let mut stop: bool = false;
        while at > 0 && !stop
            invariant
                at <= r@.len(),
                before == text::views(r@),
                cs@ == name@,
                sorted(before),
                forall|j: int| at <= j < before.len() ==> precedes(name@, #[trigger] before[j]),
                stop ==> at > 0 && !precedes(name@, before[at - 1]),
            decreases at + if stop { 0int } else { 1int },
        {
            let prev = text::chars_of(r[at - 1].as_str());
            proof {
                assert(prev@ == before[at - 1]);
            }
            if less(cs.as_slice(), prev.as_slice()) {
                at = at - 1;
            } else {
                stop = true;
            }
        }
        proof {
            let now = before.insert(at as int, name@);
            assert(text::views(r@.insert(at as int, name)) =~= now);
            lemma_insert_sorted(before, at as int, name@);
            broadcast use vstd::seq_lib::group_to_multiset_ensures;
            assert(now.to_multiset() =~= before.to_multiset().insert(name@)) by {
                lemma_insert_multiset(before, at as int, name@);
            }
            assert(all.take(idx + 1) =~= all.take(idx).push(name@));
        }
        r.insert(at, name);
    }
    proof {
        assert(all.take(all.len() as int) =~= all);
    }
    r
}

proof fn lemma_insert_multiset(s: Seq<Seq<char>>, i: int, x: Seq<char>)
    requires
        0 <= i <= s.len(),
    ensures
        s.insert(i, x).to_multiset() == s.to_multiset().insert(x),
{
    broadcast use vstd::seq_lib::group_to_multiset_ensures;

    let now = s.insert(i, x);
    assert(now =~= s.take(i).push(x) + s.skip(i));
    vstd::seq_lib::lemma_multiset_commutative(s.take(i).push(x), s.skip(i));
    vstd::seq_lib::lemma_multiset_commutative(s.take(i), s.skip(i));
    assert(s.take(i) + s.skip(i) =~= s);
    assert(now.to_multiset() =~= s.to_multiset().insert(x));
}

proof fn lemma_insert_sorted(s: Seq<Seq<char>>, at: int, x: Seq<char>)
    requires
        0 <= at <= s.len(),
        sorted(s),
        forall|j: int| at <= j < s.len() ==> precedes(x, #[trigger] s[j]),
        at > 0 ==> !precedes(x, s[at - 1]),
    ensures
        sorted(s.insert(at, x)),
{
    let now = s.insert(at, x);
    assert forall|i: int, j: int| 0 <= i < j < now.len() implies !precedes(
        #[trigger] now[j],
        #[trigger] now[i],
    ) by {
        if j < at {
            assert(now[i] == s[i] && now[j] == s[j]);
        } else if j == at {
            assert(now[i] == s[i]);
            if precedes(x, s[i]) {
                lemma_total(s[at - 1], s[i]);
                if i < at - 1 {
                    if s[i] != s[at - 1] {
                        lemma_total(s[i], s[at - 1]);
                        lemma_transitive(x, s[i], s[at - 1]);
                    }
                }
            }
        } else if i == at {
            assert(now[j] == s[j - 1]);
            lemma_total(x, s[j - 1]);
        } else if i < at {
            assert(now[i] == s[i] && now[j] == s[j - 1]);
        } else {
            assert(now[i] == s[i - 1] && now[j] == s[j - 1]);
        }
    }
}

/// One name comes before another exactly if it is a beginning of the other and shorter, or
/// if its character is the lesser at the first place where they differ.
pub proof fn law_precedes(a: Seq<char>, b: Seq<char>)
    ensures
        precedes(a, b) <==> exists|i: int|
            0 <= i <= a.len() && i < b.len() && #[trigger] a.take(i) == b.take(i) && (i == a.len()
                || a[i] < b[i]),
    decreases a.len(),
{
    if precedes(a, b) {
        if a.len() == 0 {
            assert(a.take(0) =~= b.take(0));
        } else if a[0] == b[0] {
            let (s, t) = (a.skip(1), b.skip(1));
            law_precedes(s, t);
            let i = choose|i: int|
                0 <= i <= s.len() && i < t.len() && #[trigger] s.take(i) == t.take(i) && (i
                    == s.len() || s[i] < t[i]);
            assert(a.take(i + 1) =~= seq![a[0]] + s.take(i));
            assert(b.take(i + 1) =~= seq![b[0]] + t.take(i));
        } else {
            assert(a.take(0) =~= b.take(0));
        }
    }
    if exists|i: int|
        0 <= i <= a.len() && i < b.len() && #[trigger] a.take(i) == b.take(i) && (i == a.len()
            || a[i] < b[i]) {
        let i = choose|i: int|
            0 <= i <= a.len() && i < b.len() && #[trigger] a.take(i) == b.take(i) && (i == a.len()
                || a[i] < b[i]);
        if i > 0 {
            let (s, t) = (a.skip(1), b.skip(1));
            assert(a.take(i)[0] == b.take(i)[0]);
            law_precedes(s, t);
            assert(s.take(i - 1) =~= a.take(i).skip(1));
            assert(t.take(i - 1) =~= b.take(i).skip(1));
        }
    }
}

/// Of two names in alphabetical order the one in front is the same as the other or comes
/// before it, and where every name is there once it comes before it.
pub proof fn law_sorted(names: Seq<Seq<char>>, i: int, j: int)
    requires
        0 <= i < j < names.len(),
    ensures
        sorted(names) ==> names[i] == names[j] || precedes(names[i], names[j]),
        ascending(names) ==> precedes(names[i], names[j]) && names[i] != names[j],
{
    lemma_total(names[i], names[j]);
}

} // verus!

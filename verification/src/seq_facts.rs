//! Facts about sequences without duplicates, used for children lists.

use vstd::prelude::*;

verus! {

/// Taking a present element out of a sequence without duplicates.
pub proof fn lemma_remove_present<A>(s: Seq<A>, c: A)
    requires
        s.no_duplicates(),
        s.contains(c),
    ensures
        s.remove(s.index_of(c)).no_duplicates(),
        s.remove(s.index_of(c)).len() == s.len() - 1,
        forall|x: A| #[trigger] s.remove(s.index_of(c)).contains(x) <==> (s.contains(x) && x != c),
{
    let i = s.index_of(c);
    let r = s.remove(i);
    s.remove_ensures(i);
    assert forall|x: A| #[trigger] r.contains(x) <==> (s.contains(x) && x != c) by {
        if r.contains(x) {
            let j = choose|j: int| 0 <= j < r.len() && r[j] == x;
            if j < i {
                assert(s[j] == x);
                assert(j != i);
            } else {
                assert(s[j + 1] == x);
            }
        }
        if s.contains(x) && x != c {
            let j = choose|j: int| 0 <= j < s.len() && s[j] == x;
            assert(j != i);
            if j < i {
                assert(r[j] == x);
            } else {
                assert(r[j - 1] == x);
            }
        }
    }
    assert forall|a: int, b: int| 0 <= a < r.len() && 0 <= b < r.len() && a != b implies r[a] != r[b] by {
        let sa = if a < i { a } else { a + 1 };
        let sb = if b < i { b } else { b + 1 };
        assert(r[a] == s[sa]);
        assert(r[b] == s[sb]);
    }
}

/// Putting an absent element into a sequence without duplicates.
pub proof fn lemma_insert_absent<A>(s: Seq<A>, i: int, c: A)
    requires
        s.no_duplicates(),
        !s.contains(c),
        0 <= i <= s.len(),
    ensures
        s.insert(i, c).no_duplicates(),
        s.insert(i, c).len() == s.len() + 1,
        s.insert(i, c)[i] == c,
        forall|x: A| #[trigger] s.insert(i, c).contains(x) <==> (s.contains(x) || x == c),
{
    let r = s.insert(i, c);
    s.insert_ensures(i, c);
    assert forall|x: A| #[trigger] r.contains(x) <==> (s.contains(x) || x == c) by {
        if r.contains(x) {
            let j = choose|j: int| 0 <= j < r.len() && r[j] == x;
            if j < i {
                assert(s[j] == x);
            } else if j > i {
                assert(s[j - 1] == x);
            }
        }
        if s.contains(x) {
            let j = choose|j: int| 0 <= j < s.len() && s[j] == x;
            if j < i {
                assert(r[j] == x);
            } else {
                assert(r[j + 1] == x);
            }
        }
        if x == c {
            assert(r[i] == c);
        }
    }
    assert forall|a: int, b: int| 0 <= a < r.len() && 0 <= b < r.len() && a != b implies r[a] != r[b] by {
        if a == i {
            if b < i {
                assert(s.contains(r[b]));
            } else {
                assert(r[b] == s[b - 1]);
                assert(s.contains(s[b - 1]));
            }
        } else if b == i {
            if a < i {
                assert(s.contains(r[a]));
            } else {
                assert(r[a] == s[a - 1]);
                assert(s.contains(s[a - 1]));
            }
        } else {
            let sa = if a < i { a } else { a - 1 };
            let sb = if b < i { b } else { b - 1 };
            assert(r[a] == s[sa]);
            assert(r[b] == s[sb]);
        }
    }
}

/// Taking out an element and putting it back where it was changes nothing.
pub proof fn lemma_remove_insert<A>(s: Seq<A>, i: int)
    requires
        0 <= i < s.len(),
    ensures
        s.remove(i).insert(i, s[i]) == s,
{
    assert(s.remove(i).insert(i, s[i]) =~= s);
}

/// Putting an element in and taking it out again changes nothing.
pub proof fn lemma_insert_remove<A>(s: Seq<A>, i: int, x: A)
    requires
        0 <= i <= s.len(),
    ensures
        s.insert(i, x).remove(i) == s,
{
    assert(s.insert(i, x).remove(i) =~= s);
}

/// The index of an element of a sequence without duplicates, found by its place.
pub proof fn lemma_index_at<A>(s: Seq<A>, i: int, x: A)
    requires
        s.no_duplicates(),
        0 <= i < s.len(),
        s[i] == x,
    ensures
        s.index_of(x) == i,
        s.contains(x),
{
    assert(s.contains(x));
}

} // verus!

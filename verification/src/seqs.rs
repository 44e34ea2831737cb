//! Searching sequences, and the views of string collections.

use vstd::prelude::*;

verus! {

/// The index of the first element of `s` that satisfies `p`, or the length
/// of `s` when none does.
pub open spec fn first_where<T>(s: Seq<T>, p: spec_fn(T) -> bool) -> int
    decreases s.len(),
{
    if s.len() == 0 {
        0
    } else if p(s[0]) {
        0
    } else {
        1 + first_where(s.drop_first(), p)
    }
}

pub proof fn lemma_first_where<T>(s: Seq<T>, p: spec_fn(T) -> bool, i: int)
    requires
        0 <= i <= s.len(),
        forall|j: int| 0 <= j < i ==> !p(#[trigger] s[j]),
        i == s.len() || p(s[i]),
    ensures
        first_where(s, p) == i,
    decreases i,
{
    if i > 0 {
        assert forall|j: int| 0 <= j < i - 1 implies !p(#[trigger] s.drop_first()[j]) by {
            assert(s.drop_first()[j] == s[j + 1]);
        }
        lemma_first_where(s.drop_first(), p, i - 1);
    }
}

pub proof fn lemma_first_where_bounds<T>(s: Seq<T>, p: spec_fn(T) -> bool)
    ensures
        0 <= first_where(s, p) <= s.len(),
        forall|j: int| 0 <= j < first_where(s, p) ==> !p(#[trigger] s[j]),
        first_where(s, p) < s.len() ==> p(s[first_where(s, p)]),
    decreases s.len(),
{
    if s.len() > 0 && !p(s[0]) {
        lemma_first_where_bounds(s.drop_first(), p);
        assert forall|j: int| 0 <= j < first_where(s, p) implies !p(#[trigger] s[j]) by {
            if j > 0 {
                assert(s[j] == s.drop_first()[j - 1]);
            }
        }
    }
}

/// The elements of `s` that satisfy `p`, in order.
pub open spec fn keep<T>(s: Seq<T>, p: spec_fn(T) -> bool) -> Seq<T>
    decreases s.len(),
{
    if s.len() == 0 {
        s
    } else if p(s.last()) {
        keep(s.drop_last(), p).push(s.last())
    } else {
        keep(s.drop_last(), p)
    }
}

/// Equality with a given sequence.
pub open spec fn equals(x: Seq<char>) -> spec_fn(Seq<char>) -> bool {
    |y: Seq<char>| y == x
}

/// The character views of a sequence of strings.
pub open spec fn str_views(v: Seq<String>) -> Seq<Seq<char>> {
    v.map_values(|s: String| s@)
}

pub proof fn lemma_str_views_push(v: Seq<String>, x: String)
    ensures
        str_views(v.push(x)) == str_views(v).push(x@),
{
    assert(str_views(v.push(x)) =~= str_views(v).push(x@));
}

/// The character views of a sequence of string pairs.
pub open spec fn pair_views(v: Seq<(String, String)>) -> Seq<(Seq<char>, Seq<char>)> {
    v.map_values(|e: (String, String)| (e.0@, e.1@))
}

/// Removes the first occurrence of `x` from `s`, if any.
pub open spec fn remove_first(s: Seq<Seq<char>>, x: Seq<char>) -> Seq<Seq<char>> {
    let i = first_where(s, equals(x));
    if i < s.len() {
        s.remove(i)
    } else {
        s
    }
}

/// Adds `x` at the end of `s` unless it is already there.
pub open spec fn add_once(s: Seq<Seq<char>>, x: Seq<char>) -> Seq<Seq<char>> {
    if s.contains(x) {
        s
    } else {
        s.push(x)
    }
}

/// The index of `x` in `v`, or the length of `v`.
pub fn find_str(v: &Vec<String>, x: &String) -> (i: usize)
    ensures
        i as int == first_where(str_views(v@), equals(x@)),
{
    let ghost sv = str_views(v@);
    let mut i: usize = 0;
    while i < v.len()
        invariant
            i <= v.len(),
            sv == str_views(v@),
            forall|j: int| 0 <= j < i ==> !equals(x@)(#[trigger] sv[j]),
        decreases v.len() - i,
    {
        if v[i] == *x {
            proof {
                lemma_first_where(sv, equals(x@), i as int);
            }
            return i;
        }
        i += 1;
    }
    proof {
        lemma_first_where(sv, equals(x@), i as int);
    }
    i
}

/// Whether `x` occurs in `v`.
pub fn contains_str(v: &Vec<String>, x: &String) -> (b: bool)
    ensures
        b == str_views(v@).contains(x@),
{
    let i = find_str(v, x);
    proof {
        lemma_first_where_bounds(str_views(v@), equals(x@));
        if str_views(v@).contains(x@) {
            let k = choose|k: int| 0 <= k < str_views(v@).len() && str_views(v@)[k] == x@;
            assert(equals(x@)(str_views(v@)[k]));
        }
    }
    i < v.len()
}

/// Removes the first occurrence of `x` from `v`, if any.
pub fn remove_str(v: &mut Vec<String>, x: &String)
    ensures
        str_views(final(v)@) == remove_first(str_views(old(v)@), x@),
{
    let i = find_str(v, x);
    if i < v.len() {
        let ghost before = v@;
        v.remove(i);
        assert(str_views(v@) =~= str_views(before).remove(i as int));
    }
}

/// Adds `x` at the end of `v` unless it is already there.
pub fn add_str_once(v: &mut Vec<String>, x: String)
    ensures
        str_views(final(v)@) == add_once(str_views(old(v)@), x@),
{
    if !contains_str(v, &x) {
        let ghost before = v@;
        v.push(x);
        assert(str_views(v@) =~= str_views(before).push(x@));
    }
}

pub proof fn lemma_remove_first(s: Seq<Seq<char>>, x: Seq<char>)
    requires
        s.no_duplicates(),
    ensures
        remove_first(s, x).no_duplicates(),
        forall|y: Seq<char>| remove_first(s, x).contains(y) <==> (s.contains(y) && y != x),
{
    lemma_first_where_bounds(s, equals(x));
    let i = first_where(s, equals(x));
    let r = remove_first(s, x);
    if i < s.len() {
        assert(s[i] == x);
        assert forall|y: Seq<char>| r.contains(y) <==> (s.contains(y) && y != x) by {
            if r.contains(y) {
                let k = choose|k: int| 0 <= k < r.len() && r[k] == y;
                if k < i {
                    assert(s[k] == y);
                } else {
                    assert(s[k + 1] == y);
                }
            }
            if s.contains(y) && y != x {
                let k = choose|k: int| 0 <= k < s.len() && s[k] == y;
                if k < i {
                    assert(r[k] == y);
                } else {
                    assert(k != i);
                    assert(r[k - 1] == y);
                }
            }
        }
    } else {
        assert forall|y: Seq<char>| s.contains(y) implies y != x by {
            let k = choose|k: int| 0 <= k < s.len() && s[k] == y;
            assert(!equals(x)(s[k]));
        }
    }
}

pub proof fn lemma_add_once(s: Seq<Seq<char>>, x: Seq<char>)
    requires
        s.no_duplicates(),
    ensures
        add_once(s, x).no_duplicates(),
        forall|y: Seq<char>| add_once(s, x).contains(y) <==> (s.contains(y) || y == x),
{
    let r = add_once(s, x);
    if !s.contains(x) {
        assert(r[s.len() as int] == x);
        assert forall|y: Seq<char>| r.contains(y) <==> (s.contains(y) || y == x) by {
            if r.contains(y) {
                let k = choose|k: int| 0 <= k < r.len() && r[k] == y;
                if k < s.len() {
                    assert(s[k] == y);
                }
            }
            if s.contains(y) {
                let k = choose|k: int| 0 <= k < s.len() && s[k] == y;
                assert(r[k] == y);
            }
        }
    }
}

pub proof fn lemma_keep<T>(s: Seq<T>, p: spec_fn(T) -> bool)
    ensures
        forall|i: int| 0 <= i < keep(s, p).len() ==> p(#[trigger] keep(s, p)[i]),
        forall|i: int| 0 <= i < keep(s, p).len() ==> s.contains(#[trigger] keep(s, p)[i]),
        keep(s, p).len() <= s.len(),
    decreases s.len(),
{
    if s.len() > 0 {
        lemma_keep(s.drop_last(), p);
        let r = keep(s, p);
        assert forall|i: int| 0 <= i < r.len() implies s.contains(#[trigger] r[i]) by {
            if i < keep(s.drop_last(), p).len() {
                let y = keep(s.drop_last(), p)[i];
                assert(s.drop_last().contains(y));
                let k = choose|k: int| 0 <= k < s.drop_last().len() && s.drop_last()[k] == y;
                assert(s[k] == y);
            } else {
                assert(s[s.len() - 1] == s.last());
            }
        }
    }
}

pub proof fn lemma_keep_step<T>(s: Seq<T>, p: spec_fn(T) -> bool, k: int)
    requires
        0 <= k < s.len(),
    ensures
        keep(s.take(k + 1), p) == if p(s[k]) {
            keep(s.take(k), p).push(s[k])
        } else {
            keep(s.take(k), p)
        },
{
    assert(s.take(k + 1).drop_last() == s.take(k));
    assert(s.take(k + 1).last() == s[k]);
}

} // verus!

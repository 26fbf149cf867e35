//! Sorting, by whatever order a type ranks its values in.

use vstd::prelude::*;

verus! {

/// A type whose values stand in a total order; values may tie.
pub trait Ranked: Sized {
    /// `self` does not come after `other`.
    spec fn before(self, other: Self) -> bool;

    proof fn ranks_all(a: Self, b: Self)
        ensures
            a.before(b) || b.before(a),
    ;

    proof fn ranks_through(a: Self, b: Self, c: Self)
        requires
            a.before(b),
            b.before(c),
        ensures
            a.before(c),
    ;

    fn is_before(&self, other: &Self) -> (yes: bool)
        ensures
            yes == self.before(*other),
    ;
}

/// `e` put into `s` behind everything that it does not come before.
pub open spec fn placed<T: Ranked>(s: Seq<T>, e: T) -> Seq<T>
    decreases s.len(),
{
    if s.len() == 0 || s.last().before(e) {
        s.push(e)
    } else {
        placed(s.drop_last(), e).push(s.last())
    }
}

/// `s` sorted; values that tie keep their order.
pub open spec fn sorted<T: Ranked>(s: Seq<T>) -> Seq<T>
    decreases s.len(),
{
    if s.len() == 0 {
        s
    } else {
        placed(sorted(s.drop_last()), s.last())
    }
}

/// Every value comes before those behind it, or ties with them.
pub open spec fn ascending<T: Ranked>(s: Seq<T>) -> bool {
    forall|i: int, j: int| 0 <= i < j < s.len() ==> (#[trigger] s[i]).before(#[trigger] s[j])
}

/// `e` ties with `x`.
pub open spec fn ties<T: Ranked>(x: T) -> spec_fn(T) -> bool {
    |e: T| e.before(x) && x.before(e)
}

/// Put `e` into a sorted vector.
fn place<T: Ranked>(out: &mut Vec<T>, e: T)
    ensures
        final(out)@ == placed(old(out)@, e),
{
    let ghost s = out@;
    let mut at: usize = out.len();
    proof {
        assert(s.take(s.len() as int) =~= s);
        assert(s.skip(s.len() as int) =~= Seq::<T>::empty());
        assert(placed(s, e) =~= placed(s, e) + s.skip(s.len() as int));
    }
    while at > 0 && !out[at - 1].is_before(&e)
        invariant
            at <= out.len(),
            out@ == s,
            placed(s, e) == placed(s.take(at as int), e) + s.skip(at as int),
        decreases at,
    {
        proof {
            let t = s.take(at as int);
            assert(t.drop_last() =~= s.take(at - 1));
            assert(t.last() == s[at - 1]);
            assert(placed(t, e) == placed(t.drop_last(), e).push(t.last()));
            assert(placed(s.take(at - 1), e).push(t.last()) + s.skip(at as int) =~= placed(
                s.take(at - 1),
                e,
            ) + s.skip(at - 1));
        }
        at -= 1;
    }
    proof {
        let t = s.take(at as int);
        if at > 0 {
            assert(t.last() == s[at - 1]);
        }
        assert(placed(t, e) == t.push(e));
        assert(s.insert(at as int, e) =~= t.push(e) + s.skip(at as int));
    }
    out.insert(at, e);
}

/// Sort; values that tie keep their order.
pub fn sort<T: Ranked>(items: Vec<T>) -> (out: Vec<T>)
    ensures
        out@ == sorted(items@),
{
    let ghost all = items@;
    let mut rest = items;
    let mut out: Vec<T> = Vec::new();
    let ghost mut k: int = 0;
    assert(all.take(0) =~= Seq::<T>::empty());
    assert(all.skip(0) =~= all);
    while rest.len() > 0
        invariant
            0 <= k <= all.len(),
            rest@ == all.skip(k),
            out@ == sorted(all.take(k)),
        decreases rest.len(),
    {
        let e = rest.remove(0);
        proof {
            assert(all.take(k + 1).drop_last() =~= all.take(k));
            assert(all.take(k + 1).last() == e);
            assert(rest@ =~= all.skip(k + 1));
            k = k + 1;
        }
        place(&mut out, e);
    }
    assert(all.take(k) =~= all);
    out
}

/// What [`sort`] returns is in ascending order and holds exactly the values it was
/// given, those that tie in the order they came in.
pub proof fn law_sorted<T: Ranked>(s: Seq<T>)
    ensures
        ascending(sorted(s)),
        sorted(s).len() == s.len(),
        sorted(s).to_multiset() == s.to_multiset(),
        forall|x: T| #![trigger ties(x)] sorted(s).filter(ties(x)) == s.filter(ties(x)),
    decreases s.len(),
{
    broadcast use vstd::seq_lib::group_seq_properties, vstd::seq_lib::group_to_multiset_ensures;

    if s.len() > 0 {
        let rest = s.drop_last();
        law_sorted(rest);
        lemma_placed(sorted(rest), s.last());
        assert(rest.push(s.last()) =~= s);
        assert forall|x: T| #![trigger ties(x)] sorted(s).filter(ties(x)) == s.filter(ties(x)) by {
            lemma_placed_keeps_ties(sorted(rest), s.last(), x);
            lemma_filter_push(sorted(rest), s.last(), ties(x));
            lemma_filter_push(rest, s.last(), ties(x));
        }
    }
}

proof fn lemma_placed<T: Ranked>(s: Seq<T>, e: T)
    requires
        ascending(s),
    ensures
        ascending(placed(s, e)),
        placed(s, e).len() == s.len() + 1,
        placed(s, e).to_multiset() == s.to_multiset().insert(e),
        forall|i: int|
            0 <= i < placed(s, e).len() ==> #[trigger] placed(s, e)[i] == e || s.contains(
                placed(s, e)[i],
            ),
    decreases s.len(),
{
    broadcast use vstd::seq_lib::group_seq_properties, vstd::seq_lib::group_to_multiset_ensures;

    let out = placed(s, e);
    if s.len() == 0 || s.last().before(e) {
        assert forall|i: int, j: int| 0 <= i < j < out.len() implies (#[trigger] out[i]).before(
            #[trigger] out[j],
        ) by {
            if j == s.len() && i < s.len() - 1 {
                T::ranks_through(s[i], s.last(), e);
            }
        }
    } else {
        let rest = s.drop_last();
        lemma_placed(rest, e);
        T::ranks_all(s.last(), e);
        let inner = placed(rest, e);
        assert forall|i: int, j: int| 0 <= i < j < out.len() implies (#[trigger] out[i]).before(
            #[trigger] out[j],
        ) by {
            if j == out.len() - 1 {
                assert(out[i] == inner[i]);
                if inner[i] != e {
                    let k = choose|k: int| 0 <= k < rest.len() && rest[k] == inner[i];
                    assert(s[k] == inner[i]);
                }
            } else {
                assert(out[i] == inner[i] && out[j] == inner[j]);
            }
        }
        assert(rest.push(s.last()) =~= s);
        assert(out.to_multiset() =~= s.to_multiset().insert(e));
        assert forall|i: int| 0 <= i < out.len() implies #[trigger] out[i] == e || s.contains(out[i]) by {
            if i < inner.len() {
                assert(out[i] == inner[i]);
                if inner[i] != e {
                    let k = choose|k: int| 0 <= k < rest.len() && rest[k] == inner[i];
                    assert(s[k] == inner[i]);
                }
            } else {
                assert(s[s.len() - 1] == out[i]);
            }
        }
    }
}

proof fn lemma_placed_keeps_ties<T: Ranked>(s: Seq<T>, e: T, x: T)
    requires
        ascending(s),
    ensures
        placed(s, e).filter(ties(x)) == s.push(e).filter(ties(x)),
    decreases s.len(),
{
    if s.len() > 0 && !s.last().before(e) {
        let rest = s.drop_last();
        lemma_placed_keeps_ties(rest, e, x);
        T::ranks_all(s.last(), e);
        let last = s.last();
        let keep = ties(x);
        // `last` and `e` do not tie, so at most one of the two ties with `x`.
        assert(!(keep(last) && keep(e))) by {
            if keep(last) && keep(e) {
                T::ranks_through(last, x, e);
            }
        }
        lemma_filter_push(placed(rest, e), last, keep);
        lemma_filter_push(rest, e, keep);
        lemma_filter_push(s, e, keep);
        lemma_filter_push(rest, last, keep);
        assert(rest.push(last) =~= s);
    }
}

/// What is in ascending order already is left as it is.
pub proof fn lemma_sorted_of_ascending<T: Ranked>(s: Seq<T>)
    requires
        ascending(s),
    ensures
        sorted(s) == s,
    decreases s.len(),
{
    if s.len() > 0 {
        let rest = s.drop_last();
        assert forall|i: int, j: int| 0 <= i < j < rest.len() implies (#[trigger] rest[i]).before(
            #[trigger] rest[j],
        ) by {
            assert(s[i].before(s[j]));
        }
        lemma_sorted_of_ascending(rest);
        if rest.len() > 0 {
            assert(s[rest.len() - 1].before(s[rest.len() as int]));
        }
        assert(rest.push(s.last()) =~= s);
    }
}

/// Filtering a sequence with one more value at its end.
pub proof fn lemma_filter_push<T>(s: Seq<T>, e: T, keep: spec_fn(T) -> bool)
    ensures
        s.push(e).filter(keep) == (if keep(e) {
            s.filter(keep).push(e)
        } else {
            s.filter(keep)
        }),
{
    reveal(Seq::filter);
    assert(s.push(e).drop_last() =~= s);
}

/// Filtering keeps everything where everything passes.
pub proof fn lemma_filter_all<T>(s: Seq<T>, keep: spec_fn(T) -> bool)
    requires
        forall|i: int| 0 <= i < s.len() ==> keep(#[trigger] s[i]),
    ensures
        s.filter(keep) == s,
    decreases s.len(),
{
    if s.len() == 0 {
        reveal(Seq::filter);
        assert(s.filter(keep) =~= s);
    } else {
        let rest = s.drop_last();
        assert forall|i: int| 0 <= i < rest.len() implies keep(#[trigger] rest[i]) by {
            assert(rest[i] == s[i]);
        }
        lemma_filter_all(rest, keep);
        lemma_filter_push(rest, s.last(), keep);
        assert(rest.push(s.last()) =~= s);
        assert(s.last() == s[s.len() - 1]);
    }
}

/// Filtering twice is filtering once by both.
pub proof fn lemma_filter_twice<T>(
    s: Seq<T>,
    first: spec_fn(T) -> bool,
    second: spec_fn(T) -> bool,
    both: spec_fn(T) -> bool,
)
    requires
        forall|i: int| 0 <= i < s.len() ==> both(#[trigger] s[i]) == (first(s[i]) && second(s[i])),
    ensures
        s.filter(first).filter(second) == s.filter(both),
    decreases s.len(),
{
    if s.len() == 0 {
        reveal(Seq::filter);
        assert(s.filter(first) =~= s);
    } else {
        let rest = s.drop_last();
        let e = s.last();
        assert forall|i: int| 0 <= i < rest.len() implies both(#[trigger] rest[i]) == (first(rest[i])
            && second(rest[i])) by {
            assert(rest[i] == s[i]);
        }
        assert(e == s[s.len() - 1]);
        lemma_filter_twice(rest, first, second, both);
        lemma_filter_push(rest, e, first);
        lemma_filter_push(rest.filter(first), e, second);
        lemma_filter_push(rest, e, both);
        assert(rest.push(e) =~= s);
    }
}

} // verus!

//! Facts about filtered sequences and the collections they stand for.

use vstd::multiset::Multiset;
use vstd::prelude::*;

verus! {

/// Filtering looks at a pushed element on its own.
pub(crate) proof fn lemma_filter_push<A>(s: Seq<A>, x: A, f: spec_fn(A) -> bool)
    ensures
        s.push(x).filter(f) == if f(x) {
            s.filter(f).push(x)
        } else {
            s.filter(f)
        },
{
    reveal(Seq::filter);
    assert(s.push(x).drop_last() == s);
}

/// A sequence whose elements all pass a filter comes through unchanged.
pub(crate) proof fn lemma_filter_all<A>(s: Seq<A>, f: spec_fn(A) -> bool)
    requires
        forall|i: int| 0 <= i < s.len() ==> f(#[trigger] s[i]),
    ensures
        s.filter(f) == s,
    decreases s.len(),
{
    reveal(Seq::filter);
    if s.len() > 0 {
        lemma_filter_all(s.drop_last(), f);
        assert(s.drop_last().push(s.last()) == s);
    }
}

/// A sequence none of whose elements pass a filter comes out empty.
pub(crate) proof fn lemma_filter_none<A>(s: Seq<A>, f: spec_fn(A) -> bool)
    requires
        forall|i: int| 0 <= i < s.len() ==> !f(#[trigger] s[i]),
    ensures
        s.filter(f) == Seq::<A>::empty(),
    decreases s.len(),
{
    reveal(Seq::filter);
    if s.len() > 0 {
        lemma_filter_none(s.drop_last(), f);
    }
}

/// A prefix holds no more passing elements than the whole sequence.
pub(crate) proof fn lemma_filter_take_len<A>(s: Seq<A>, n: int, f: spec_fn(A) -> bool)
    requires
        0 <= n <= s.len(),
    ensures
        s.take(n).filter(f).len() <= s.filter(f).len(),
{
    assert(s == s.take(n) + s.skip(n));
    Seq::filter_distributes_over_add(s.take(n), s.skip(n), f);
}

/// Every element either passes a test or fails it.
pub(crate) proof fn lemma_filter_split_len<A>(
    s: Seq<A>,
    pass: spec_fn(A) -> bool,
    fail: spec_fn(A) -> bool,
)
    requires
        forall|a: A| #[trigger] fail(a) == !pass(a),
    ensures
        s.filter(pass).len() + s.filter(fail).len() == s.len(),
    decreases s.len(),
{
    reveal(Seq::filter);
    if s.len() > 0 {
        lemma_filter_split_len(s.drop_last(), pass, fail);
    }
}

/// A filter that lets as many elements through as there are lets the
/// sequence through unchanged.
pub(crate) proof fn lemma_filter_same_len<A>(s: Seq<A>, f: spec_fn(A) -> bool)
    requires
        s.filter(f).len() == s.len(),
    ensures
        s.filter(f) == s,
    decreases s.len(),
{
    reveal(Seq::filter);
    if s.len() > 0 {
        s.drop_last().lemma_filter_len(f);
        lemma_filter_same_len(s.drop_last(), f);
        assert(s.drop_last().push(s.last()) == s);
    }
}

/// The elements of four sequences put one after the other are, as a
/// collection, the sum of the four collections.
pub(crate) proof fn lemma_concat_multiset<A>(a: Seq<A>, b: Seq<A>, c: Seq<A>, d: Seq<A>)
    ensures
        (a + b + c + d).to_multiset() =~= a.to_multiset().add(b.to_multiset()).add(
            c.to_multiset(),
        ).add(d.to_multiset()),
{
    vstd::seq_lib::lemma_multiset_commutative(a, b);
    vstd::seq_lib::lemma_multiset_commutative(a + b, c);
    vstd::seq_lib::lemma_multiset_commutative(a + b + c, d);
}

/// A part of a collection is no larger than the collection.
pub(crate) proof fn lemma_part_len<A>(part: Multiset<A>, whole: Multiset<A>)
    requires
        part.subset_of(whole),
    ensures
        part.len() <= whole.len(),
{
    broadcast use vstd::multiset::group_multiset_axioms;

    assert(whole =~= part.add(whole.sub(part)));
}

/// Filtering a sequence filters the collection it stands for.
pub(crate) proof fn lemma_filter_multiset<A>(s: Seq<A>, f: spec_fn(A) -> bool)
    ensures
        s.filter(f).to_multiset() =~= s.to_multiset().filter(f),
    decreases s.len(),
{
    broadcast use vstd::seq_lib::group_to_multiset_ensures;
    broadcast use vstd::multiset::group_multiset_axioms;

    if s.len() == 0 {
        reveal(Seq::filter);
        assert(s.filter(f) =~= Seq::<A>::empty());
        assert(s =~= Seq::<A>::empty());
    } else {
        let t = s.drop_last();
        let x = s.last();
        assert(t.push(x) == s);
        lemma_filter_multiset(t, f);
        lemma_filter_push(t, x, f);
    }
}

/// Splitting a collection into what passes a test and what fails it is
/// unique: whichever way the two parts were gathered, they are the two
/// filtered collections.
pub(crate) proof fn lemma_split_unique<A>(
    whole: Seq<A>,
    failing: Seq<A>,
    passing: Seq<A>,
    pass: spec_fn(A) -> bool,
    fail: spec_fn(A) -> bool,
)
    requires
        forall|a: A| #[trigger] fail(a) == !pass(a),
        failing.to_multiset().add(passing.to_multiset()) == whole.to_multiset(),
        forall|i: int| 0 <= i < failing.len() ==> !pass(#[trigger] failing[i]),
        forall|i: int| 0 <= i < passing.len() ==> pass(#[trigger] passing[i]),
    ensures
        passing.to_multiset() == whole.filter(pass).to_multiset(),
        failing.to_multiset() == whole.filter(fail).to_multiset(),
        passing.len() == whole.filter(pass).len(),
{
    broadcast use vstd::seq_lib::group_to_multiset_ensures;
    broadcast use vstd::multiset::group_multiset_axioms;

    lemma_filter_multiset(whole, pass);
    lemma_filter_multiset(whole, fail);
    assert forall|v: A|
        passing.to_multiset().count(v) == #[trigger] whole.to_multiset().filter(pass).count(
            v,
        ) && failing.to_multiset().count(v) == whole.to_multiset().filter(fail).count(v) by {
        if pass(v) {
            if failing.to_multiset().count(v) > 0 {
                assert(failing.contains(v));
            }
        } else {
            if passing.to_multiset().count(v) > 0 {
                assert(passing.contains(v));
            }
        }
    }
    assert(passing.to_multiset() =~= whole.filter(pass).to_multiset());
    assert(failing.to_multiset() =~= whole.filter(fail).to_multiset());
    passing.to_multiset_ensures();
    whole.filter(pass).to_multiset_ensures();
}

/// While an element that passes the test is still among the rest, fewer
/// elements have been gathered than pass the test in all.
pub(crate) proof fn lemma_split_room<A>(
    whole: Seq<A>,
    rest: Seq<A>,
    passing: Seq<A>,
    pass: spec_fn(A) -> bool,
    i: int,
)
    requires
        rest.to_multiset().add(passing.to_multiset()) == whole.to_multiset(),
        forall|i: int| 0 <= i < passing.len() ==> pass(#[trigger] passing[i]),
        0 <= i < rest.len(),
        pass(rest[i]),
    ensures
        passing.len() < whole.filter(pass).len(),
{
    broadcast use vstd::seq_lib::group_to_multiset_ensures;
    broadcast use vstd::multiset::group_multiset_axioms;

    lemma_filter_multiset(whole, pass);
    let p = passing.to_multiset();
    let r = rest.to_multiset();
    assert(whole.to_multiset().filter(pass) =~= r.filter(pass).add(p.filter(pass)));
    assert forall|v: A| p.count(v) == #[trigger] p.filter(pass).count(v) by {
        if p.count(v) > 0 {
            assert(passing.contains(v));
        }
    }
    assert(p.filter(pass) =~= p);
    assert(rest.contains(rest[i]));
    assert(r.filter(pass).count(rest[i]) > 0);
    assert(r.filter(pass).len() > 0);
    passing.to_multiset_ensures();
    whole.filter(pass).to_multiset_ensures();
}

/// Removing an element by moving the last one into its place removes
/// just that element from the collection.
pub(crate) proof fn lemma_swap_remove_multiset<A>(s: Seq<A>, i: int)
    requires
        0 <= i < s.len(),
    ensures
        s.update(i, s.last()).drop_last().to_multiset().insert(s[i]) =~= s.to_multiset(),
{
    broadcast use vstd::seq_lib::group_to_multiset_ensures;
    broadcast use vstd::multiset::group_multiset_axioms;

    let last = s.last();
    let u = s.update(i, last);
    let rest = u.drop_last();
    assert(rest.push(last) == u);
    rest.to_multiset_ensures();
    vstd::seq_lib::to_multiset_update(s, i, last);
    s.to_multiset_ensures();
    assert(s.contains(s[i]));
    assert forall|v: A|
        rest.to_multiset().insert(s[i]).count(v) == #[trigger] s.to_multiset().count(v) by {
        assert(u.to_multiset().count(v) == rest.to_multiset().insert(last).count(v));
        assert(u.to_multiset().count(v) == s.to_multiset().insert(last).remove(s[i]).count(v));
    }
}

} // verus!

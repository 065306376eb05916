//! Stable sorting, specified as insertion sort: each element, in input order, goes in
//! front of the first already-placed element that it strictly precedes. Equal elements
//! therefore keep their input order, as `slice::sort_by` keeps them.

use vstd::multiset::Multiset;
use vstd::prelude::*;

verus! {

/// `s` with `x` placed before the first element that `x` strictly precedes.
pub open spec fn insert_stable<A>(s: Seq<A>, x: A, lt: spec_fn(A, A) -> bool) -> Seq<A>
    decreases s.len(),
{
    if s.len() == 0 {
        seq![x]
    } else if lt(x, s[0]) {
        seq![x] + s
    } else {
        seq![s[0]] + insert_stable(s.drop_first(), x, lt)
    }
}

/// The stable sort of `s` under the strict order `lt`.
pub open spec fn sort_stable<A>(s: Seq<A>, lt: spec_fn(A, A) -> bool) -> Seq<A>
    decreases s.len(),
{
    if s.len() == 0 {
        s
    } else {
        insert_stable(sort_stable(s.drop_last(), lt), s.last(), lt)
    }
}

/// Inserting at the first position whose element `x` strictly precedes.
pub proof fn lemma_insert_stable_at<A>(s: Seq<A>, x: A, lt: spec_fn(A, A) -> bool, j: int)
    requires
        0 <= j <= s.len(),
        forall|k: int| 0 <= k < j ==> !lt(x, #[trigger] s[k]),
        j == s.len() || lt(x, s[j]),
    ensures
        insert_stable(s, x, lt) == s.insert(j, x),
    decreases s.len(),
{
    if s.len() == 0 {
        assert(s.insert(j, x) =~= seq![x]);
    } else if j == 0 {
        assert(s.insert(0, x) =~= seq![x] + s);
    } else {
        let t = s.drop_first();
        assert forall|k: int| 0 <= k < j - 1 implies !lt(x, #[trigger] t[k]) by {
            assert(t[k] == s[k + 1]);
        }
        if j - 1 < t.len() {
            assert(t[j - 1] == s[j]);
        }
        lemma_insert_stable_at(t, x, lt, j - 1);
        assert(seq![s[0]] + t.insert(j - 1, x) =~= s.insert(j, x));
    }
}

/// Inserting keeps every element: the result is `s` with `x` added.
pub proof fn lemma_insert_stable_multiset<A>(s: Seq<A>, x: A, lt: spec_fn(A, A) -> bool)
    ensures
        insert_stable(s, x, lt).to_multiset() == s.to_multiset().insert(x),
    decreases s.len(),
{
    broadcast use vstd::seq_lib::group_to_multiset_ensures;
    broadcast use vstd::multiset::group_multiset_axioms;

    let e = Seq::<A>::empty();
    assert(e.to_multiset() =~= Multiset::<A>::empty());
    assert(seq![x] =~= e.push(x));
    if s.len() == 0 {
    } else if lt(x, s[0]) {
        vstd::seq_lib::lemma_multiset_commutative(seq![x], s);
        assert(insert_stable(s, x, lt).to_multiset() =~= s.to_multiset().insert(x));
    } else {
        let t = s.drop_first();
        lemma_insert_stable_multiset(t, x, lt);
        assert(seq![s[0]] =~= e.push(s[0]));
        vstd::seq_lib::lemma_multiset_commutative(seq![s[0]], insert_stable(t, x, lt));
        vstd::seq_lib::lemma_multiset_commutative(seq![s[0]], t);
        assert(seq![s[0]] + t =~= s);
        assert(insert_stable(s, x, lt).to_multiset() =~= s.to_multiset().insert(x));
    }
}

/// A stable sort is a permutation of its input.
pub proof fn lemma_sort_stable_multiset<A>(s: Seq<A>, lt: spec_fn(A, A) -> bool)
    ensures
        sort_stable(s, lt).to_multiset() == s.to_multiset(),
    decreases s.len(),
{
    broadcast use vstd::seq_lib::group_to_multiset_ensures;
    if s.len() > 0 {
        lemma_sort_stable_multiset(s.drop_last(), lt);
        lemma_insert_stable_multiset(sort_stable(s.drop_last(), lt), s.last(), lt);
        assert(s.drop_last().push(s.last()) =~= s);
    }
}

/// Elements placed before `x` are exactly those it does not strictly precede, provided
/// the sequence is already in order.
pub open spec fn sorted_by<A>(s: Seq<A>, lt: spec_fn(A, A) -> bool) -> bool {
    forall|i: int, j: int| 0 <= i < j < s.len() ==> !lt(#[trigger] s[j], #[trigger] s[i])
}

/// `lt` is a strict weak order: irreflexive, transitive, and "neither precedes the
/// other" is transitive.
pub open spec fn strict_weak_order<A>(lt: spec_fn(A, A) -> bool) -> bool {
    &&& forall|a: A| !#[trigger] lt(a, a)
    &&& forall|a: A, b: A, c: A| #![trigger lt(a, b), lt(b, c)] lt(a, b) && lt(b, c) ==> lt(a, c)
    &&& forall|a: A, b: A, c: A|
        #![trigger lt(a, b), lt(b, c)]
        !lt(a, b) && !lt(b, a) && !lt(b, c) && !lt(c, b) ==> !lt(a, c) && !lt(c, a)
}

pub proof fn lemma_insert_stable_sorted<A>(s: Seq<A>, x: A, lt: spec_fn(A, A) -> bool)
    requires
        strict_weak_order(lt),
        sorted_by(s, lt),
    ensures
        sorted_by(insert_stable(s, x, lt), lt),
        s.len() > 0 && !lt(x, s[0]) ==> insert_stable(s, x, lt)[0] == s[0],
        s.len() == 0 || lt(x, s[0]) ==> insert_stable(s, x, lt)[0] == x,
    decreases s.len(),
{
    if s.len() == 0 {
    } else if lt(x, s[0]) {
        let r = seq![x] + s;
        assert forall|i: int, j: int| 0 <= i < j < r.len() implies !lt(
            #[trigger] r[j],
            #[trigger] r[i],
        ) by {
            if i == 0 {
                assert(r[j] == s[j - 1]);
                if j - 1 > 0 {
                    assert(!lt(s[j - 1], s[0]));
                }
                if lt(s[j - 1], x) {
                    if j - 1 > 0 {
                        // x < s[0] and s[j-1] < x give s[j-1] < s[0]
                        assert(lt(s[j - 1], s[0]));
                    } else {
                        assert(lt(x, x));
                    }
                }
            } else {
                assert(r[i] == s[i - 1] && r[j] == s[j - 1]);
            }
        }
    } else {
        let t = s.drop_first();
        assert(sorted_by(t, lt)) by {
            assert forall|i: int, j: int| 0 <= i < j < t.len() implies !lt(
                #[trigger] t[j],
                #[trigger] t[i],
            ) by {
                assert(t[i] == s[i + 1] && t[j] == s[j + 1]);
            }
        }
        lemma_insert_stable_sorted(t, x, lt);
        let it = insert_stable(t, x, lt);
        lemma_insert_stable_multiset(t, x, lt);
        let r = seq![s[0]] + it;
        assert forall|i: int, j: int| 0 <= i < j < r.len() implies !lt(
            #[trigger] r[j],
            #[trigger] r[i],
        ) by {
            if i == 0 {
                assert(r[j] == it[j - 1]);
                let y = it[j - 1];
                assert(it.contains(y));
                vstd::seq_lib::to_multiset_contains(it, y);
                broadcast use vstd::multiset::group_multiset_axioms;
                if y != x {
                    assert(t.to_multiset().count(y) > 0);
                    vstd::seq_lib::to_multiset_contains(t, y);
                    let k = choose|k: int| 0 <= k < t.len() && t[k] == y;
                    assert(s[k + 1] == y);
                }
            } else {
                assert(r[i] == it[i - 1] && r[j] == it[j - 1]);
            }
        }
    }
}

/// A stable sort under a strict weak order is in order.
pub proof fn lemma_sort_stable_sorted<A>(s: Seq<A>, lt: spec_fn(A, A) -> bool)
    requires
        strict_weak_order(lt),
    ensures
        sorted_by(sort_stable(s, lt), lt),
    decreases s.len(),
{
    if s.len() > 0 {
        lemma_sort_stable_sorted(s.drop_last(), lt);
        lemma_insert_stable_sorted(sort_stable(s.drop_last(), lt), s.last(), lt);
    }
}

/// Inserting adds exactly one element.
pub proof fn lemma_insert_stable_len<A>(s: Seq<A>, x: A, lt: spec_fn(A, A) -> bool)
    ensures
        insert_stable(s, x, lt).len() == s.len() + 1,
    decreases s.len(),
{
    if s.len() > 0 && !lt(x, s[0]) {
        lemma_insert_stable_len(s.drop_first(), x, lt);
    }
}

/// Sorting keeps the length.
pub proof fn lemma_sort_stable_len<A>(s: Seq<A>, lt: spec_fn(A, A) -> bool)
    ensures
        sort_stable(s, lt).len() == s.len(),
    decreases s.len(),
{
    if s.len() > 0 {
        lemma_sort_stable_len(s.drop_last(), lt);
        lemma_insert_stable_len(sort_stable(s.drop_last(), lt), s.last(), lt);
    }
}

/// Position of the earliest element that no later element strictly precedes: each
/// element replaces the best so far only when it strictly precedes it.
pub open spec fn best_index<A>(s: Seq<A>, lt: spec_fn(A, A) -> bool) -> int
    decreases s.len(),
{
    if s.len() <= 1 {
        0
    } else {
        let p = best_index(s.drop_last(), lt);
        if lt(s.last(), s[p]) {
            s.len() - 1
        } else {
            p
        }
    }
}

/// The element a stable sort puts first is the one at `best_index`.
pub proof fn lemma_best_index<A>(s: Seq<A>, lt: spec_fn(A, A) -> bool)
    requires
        strict_weak_order(lt),
        s.len() > 0,
    ensures
        0 <= best_index(s, lt) < s.len(),
        sort_stable(s, lt).len() == s.len(),
        sort_stable(s, lt)[0] == s[best_index(s, lt)],
    decreases s.len(),
{
    lemma_sort_stable_len(s, lt);
    let t = s.drop_last();
    if s.len() == 1 {
        assert(t.len() == 0);
        assert(sort_stable(t, lt).len() == 0);
    } else {
        lemma_best_index(t, lt);
        lemma_sort_stable_sorted(t, lt);
        lemma_insert_stable_sorted(sort_stable(t, lt), s.last(), lt);
        let p = best_index(t, lt);
        assert(s[p] == t[p]);
    }
}

} // verus!

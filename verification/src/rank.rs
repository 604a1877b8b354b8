//! Stable descending sort of scored candidates, shared by every provider
//! that ranks results by fuzzy score, together with the permutation facts
//! that the providers' contracts are proved from.

use vstd::prelude::*;
use vstd::seq_lib::*;

verus! {

/// Scores of a scored sequence are weakly decreasing.
pub open spec fn sorted_desc<T>(s: Seq<(i64, T)>) -> bool {
    forall|i: int, j: int| 0 <= i < j < s.len() ==> (#[trigger] s[i]).0 >= (#[trigger] s[j]).0
}

/// The subsequence of candidates carrying one particular score.
pub open spec fn with_score<T>(s: Seq<(i64, T)>, score: i64) -> Seq<(i64, T)> {
    s.filter(|p: (i64, T)| p.0 == score)
}

/// Sorts scored candidates by score, highest first. The sort is stable —
/// candidates with equal scores keep their relative order, so ties are
/// broken by the caller's original order: for every score, the subsequence
/// of candidates carrying it is unchanged.
pub(crate) fn sort_scored<T>(v: &mut Vec<(i64, T)>)
    ensures
        sorted_desc(final(v)@),
        final(v)@.to_multiset() == old(v)@.to_multiset(),
        forall|s: i64| #[trigger] with_score(final(v)@, s) == with_score(old(v)@, s),
{
    let ghost orig = v@;
    proof {
        broadcast use group_to_multiset_ensures;

    }
    let mut i: usize = 1;
    while i < v.len()
        invariant
            1 <= i,
            v@.len() == orig.len(),
            i <= v@.len() || v@.len() < 1,
            v@.to_multiset() == orig.to_multiset(),
            i > v@.len() || sorted_desc(v@.take(i as int)),
            forall|s: i64| #[trigger] with_score(v@, s) == with_score(orig, s),
        decreases v@.len() - i,
    {
        let ghost before = v@;
        let x = v.remove(i);
        let ghost removed = v@;
        let mut j: usize = 0;
        while j < i && v[j].0 >= x.0
            invariant
                j <= i,
                i < before.len(),
                v@ == removed,
                removed == before.remove(i as int),
                forall|k: int| 0 <= k < j ==> (#[trigger] removed[k]).0 >= x.0,
            decreases i - j,
        {
            j = j + 1;
        }
        v.insert(j, x);
        proof {
            broadcast use group_to_multiset_ensures;

            assert(x == before[i as int]);
            assert(v@ == removed.insert(j as int, x));
            // the multiset is restored: remove then insert of the same value
            assert(removed.to_multiset() == before.to_multiset().remove(x));
            assert(v@.to_multiset() =~= before.to_multiset());
            // the prefix one longer is sorted again
            assert forall|a: int, b: int|
                0 <= a < b < i + 1 implies (#[trigger] v@.take(i as int + 1)[a]).0
                >= (#[trigger] v@.take(i as int + 1)[b]).0 by {
                assert(forall|k: int|
                    0 <= k < i ==> removed[k] == #[trigger] before.take(i as int)[k]);
                let va = v@.take(i as int + 1)[a];
                let vb = v@.take(i as int + 1)[b];
                if b < j {
                    assert(va == before.take(i as int)[a] && vb == before.take(i as int)[b]);
                } else if b == j {
                    assert(va == removed[a] && vb == x);
                } else if a < j {
                    assert(va == removed[a] && vb == removed[b - 1]);
                    if a < b - 1 {
                        assert(sorted_desc(before.take(i as int)));
                    }
                } else if a == j {
                    assert(j < i);
                    assert(va == x && vb == removed[b - 1]);
                    assert(removed[j as int].0 < x.0);
                    if j as int == b - 1 {
                    } else {
                        assert(removed[j as int] == before.take(i as int)[j as int]);
                        assert(removed[b - 1] == before.take(i as int)[b - 1]);
                        assert(sorted_desc(before.take(i as int)));
                    }
                } else {
                    assert(va == removed[a - 1] && vb == removed[b - 1]);
                    assert(removed[a - 1] == before.take(i as int)[a - 1]);
                    assert(removed[b - 1] == before.take(i as int)[b - 1]);
                    assert(sorted_desc(before.take(i as int)));
                }
            }
            // stability: the moved element only jumps over smaller scores
            assert forall|s: i64| #[trigger] with_score(v@, s) == with_score(orig, s) by {
                let key = |p: (i64, T)| p.0 == s;
                assert(with_score(before, s) == with_score(orig, s));
                if key(x) {
                    assert forall|k: int| j <= k < i implies !key(#[trigger] before[k]) by {
                        assert(before[k] == removed[k]);
                        assert((j as int) < i);
                        assert(removed[j as int].0 < x.0);
                        assert(before.take(i as int)[j as int].0 >= before.take(i as int)[k].0);
                        assert(before[k].0 < x.0);
                    }
                }
                lemma_reinsert_filter(before, i as int, j as int, key);
                assert(v@ == before.remove(i as int).insert(j as int, before[i as int]));
                assert(v@.filter(key) == before.filter(key));
                assert(with_score(v@, s) == v@.filter(key));
                assert(with_score(before, s) == before.filter(key));
            }
        }
        i = i + 1;
    }
    proof {
        if orig.len() >= 1 {
            assert(v@.take(v@.len() as int) =~= v@);
        }
    }
}

/// Moving one element backwards over elements it cannot share a filter with
/// leaves every such filter unchanged: taking `s[i]` out and re-inserting it
/// at `j` preserves `filter(p)` as long as `p` holds of no element it jumps
/// over, or not of `s[i]` itself.
pub proof fn lemma_reinsert_filter<A>(s: Seq<A>, i: int, j: int, p: spec_fn(A) -> bool)
    requires
        0 <= j <= i < s.len(),
        p(s[i]) ==> forall|k: int| j <= k < i ==> !p(#[trigger] s[k]),
    ensures
        s.remove(i).insert(j, s[i]).filter(p) == s.filter(p),
{
    broadcast use Seq::filter_distributes_over_add;

    reveal(Seq::filter);
    let x = s[i];
    let a = s.subrange(0, j);
    let b = s.subrange(j, i);
    let c = s.subrange(i + 1, s.len() as int);
    assert(s =~= a + (b + (seq![x] + c)));
    assert(s.remove(i).insert(j, x) =~= a + (seq![x] + (b + c)));
    assert(seq![x].len() == 1);
    assert(seq![x].last() == x);
    assert(seq![x].drop_last() =~= Seq::<A>::empty());
    assert(Seq::<A>::empty().filter(p) =~= Seq::<A>::empty());
    if p(x) {
        assert(seq![x].filter(p) =~= seq![x]);
        assert(b.filter(p) =~= Seq::<A>::empty()) by {
            assert forall|k: int| 0 <= k < b.len() implies !p(b[k]) by {
                assert(b[k] == s[j + k]);
            }
            lemma_all_neg_filter(b, p);
        }
        assert((seq![x] + (b + c)).filter(p) =~= (b + (seq![x] + c)).filter(p));
    } else {
        assert(seq![x].filter(p) =~= Seq::<A>::empty());
        assert((seq![x] + (b + c)).filter(p) =~= (b + (seq![x] + c)).filter(p));
    }
    assert((a + (seq![x] + (b + c))).filter(p) =~= (a + (b + (seq![x] + c))).filter(p));
}

/// A sequence none of whose elements satisfies `p` filters to the empty
/// sequence.
proof fn lemma_all_neg_filter<A>(s: Seq<A>, p: spec_fn(A) -> bool)
    requires
        forall|k: int| 0 <= k < s.len() ==> !p(#[trigger] s[k]),
    ensures
        s.filter(p) =~= Seq::<A>::empty(),
    decreases s.len(),
{
    reveal(Seq::filter);
    if s.len() > 0 {
        lemma_all_neg_filter(s.drop_last(), p);
    }
}

/// Filtering after mapping agrees with mapping after filtering, whenever the
/// two predicates agree across the map on the sequence's elements.
pub proof fn lemma_filter_map_agree<A, B>(
    s: Seq<A>,
    f: spec_fn(A) -> B,
    p: spec_fn(B) -> bool,
    q: spec_fn(A) -> bool,
)
    requires
        forall|k: int| 0 <= k < s.len() ==> (p(f(#[trigger] s[k])) <==> q(s[k])),
    ensures
        s.map_values(f).filter(p) == s.filter(q).map_values(f),
    decreases s.len(),
{
    reveal(Seq::filter);
    if s.len() > 0 {
        let d = s.drop_last();
        let x = s.last();
        lemma_filter_map_agree(d, f, p, q);
        assert(s.map_values(f).drop_last() =~= d.map_values(f));
        assert(s.map_values(f).last() == f(x));
        if q(x) {
            assert(s.filter(q) == d.filter(q).push(x));
            assert(s.filter(q).map_values(f) =~= d.filter(q).map_values(f).push(f(x)));
            assert(s.map_values(f).filter(p) == d.map_values(f).filter(p).push(f(x)));
        } else {
            assert(s.filter(q) == d.filter(q));
            assert(s.map_values(f).filter(p) == d.map_values(f).filter(p));
        }
    } else {
        assert(s.map_values(f) =~= Seq::<B>::empty());
        assert(s.filter(q).map_values(f) =~= Seq::<B>::empty());
    }
}

/// Filtering by a finer predicate swallows a coarser filter before it.
pub proof fn lemma_filter_subsumed<A>(s: Seq<A>, p: spec_fn(A) -> bool, q: spec_fn(A) -> bool)
    requires
        forall|x: A| #[trigger] q(x) ==> p(x),
    ensures
        s.filter(p).filter(q) == s.filter(q),
    decreases s.len(),
{
    reveal(Seq::filter);
    if s.len() > 0 {
        let d = s.drop_last();
        let x = s.last();
        lemma_filter_subsumed(d, p, q);
        if p(x) {
            assert(s.filter(p) == d.filter(p).push(x));
            assert(s.filter(p).drop_last() =~= d.filter(p));
            assert(s.filter(p).filter(q) == if q(x) {
                d.filter(p).filter(q).push(x)
            } else {
                d.filter(p).filter(q)
            });
        } else {
            assert(s.filter(p) == d.filter(p));
            assert(!q(x));
            assert(s.filter(q) == d.filter(q));
        }
    }
}

/// Sequences with equal multisets have the same elements.
pub proof fn lemma_to_multiset_elements<A>(a: Seq<A>, b: Seq<A>)
    requires
        a.to_multiset() == b.to_multiset(),
    ensures
        forall|i: int| 0 <= i < b.len() ==> a.contains(#[trigger] b[i]),
{
    broadcast use group_to_multiset_ensures;

    assert forall|i: int| 0 <= i < b.len() implies a.contains(b[i]) by {
        assert(b.contains(b[i]));
        assert(b.to_multiset().count(b[i]) > 0);
    }
}

/// Mapping a function over two sequences with equal multisets again gives
/// equal multisets.
pub proof fn lemma_to_multiset_map_values<A, B>(a: Seq<A>, b: Seq<A>, f: spec_fn(A) -> B)
    requires
        a.to_multiset() == b.to_multiset(),
    ensures
        a.map_values(f).to_multiset() == b.map_values(f).to_multiset(),
    decreases a.len(),
{
    broadcast use group_to_multiset_ensures;

    if a.len() == 0 {
        assert(a.to_multiset().len() == a.len());
        assert(b.to_multiset().len() == b.len());
        assert(b.len() == 0);
        assert(a.map_values(f) =~= Seq::<B>::empty());
        assert(b.map_values(f) =~= Seq::<B>::empty());
    } else {
        let x = a.last();
        let a0 = a.drop_last();
        assert(a0.push(x) =~= a);
        assert(a.to_multiset().count(x) > 0) by {
            assert(a.contains(x));
        }
        assert(b.contains(x)) by {
            assert(b.to_multiset().count(x) > 0);
        }
        let j = choose|j: int| 0 <= j < b.len() && b[j] == x;
        let b0 = b.remove(j);
        assert(a0.to_multiset() =~= a.to_multiset().remove(x)) by {
            assert(a.to_multiset() == a0.to_multiset().insert(x));
        }
        assert(b0.to_multiset() == b.to_multiset().remove(x));
        lemma_to_multiset_map_values(a0, b0, f);
        assert(a.map_values(f) =~= a0.map_values(f).push(f(x)));
        assert(b0.map_values(f) =~= b.map_values(f).remove(j));
        assert(b.map_values(f).remove(j).to_multiset() == b.map_values(f).to_multiset().remove(
            f(x),
        )) by {
            assert(b.map_values(f)[j] == f(x));
        }
        assert(b.map_values(f).to_multiset().count(f(x)) > 0) by {
            assert(b.map_values(f)[j] == f(x));
            assert(b.map_values(f).contains(f(x)));
        }
        assert(a.map_values(f).to_multiset() =~= b.map_values(f).to_multiset());
    }
}

} // verus!

//! Candidate orderings: length-`n*m` sequences of job indices in which every
//! job appears exactly `m` times, together with the counting lemmas the
//! decoder and the operators rely on.

use vstd::prelude::*;
use vstd::multiset::Multiset;

verus! {

broadcast use vstd::seq_lib::group_to_multiset_ensures, vstd::multiset::group_multiset_axioms;

/// A valid dispatch ordering for `n` jobs of `m` operations: every job
/// index below `n` occurs exactly `m` times and nothing else occurs.
pub open spec fn valid_ordering(order: Seq<usize>, n: int, m: int) -> bool {
    &&& order.len() == n * m
    &&& forall|v: usize| (v as int) < n ==> order.to_multiset().count(v) == m
    &&& forall|v: usize| (v as int) >= n ==> order.to_multiset().count(v) == 0
}

/// How many times `v` occurs in `s`.
pub open spec fn occurrences(s: Seq<usize>, v: usize) -> int
    decreases s.len(),
{
    if s.len() == 0 {
        0
    } else {
        occurrences(s.drop_last(), v) + if s.last() == v {
            1int
        } else {
            0int
        }
    }
}

/// `occurrences` is the multiset count.
pub proof fn lemma_occurrences_multiset(s: Seq<usize>, v: usize)
    ensures
        occurrences(s, v) == s.to_multiset().count(v),
    decreases s.len(),
{
    if s.len() == 0 {
        assert(s.to_multiset() =~= Multiset::<usize>::empty());
    } else {
        lemma_occurrences_multiset(s.drop_last(), v);
        assert(s =~= s.drop_last().push(s.last()));
        assert(s.to_multiset() == s.drop_last().push(s.last()).to_multiset());
    }
}

/// Extending a prefix by one element raises the count of that element by
/// one and leaves the others unchanged.
pub proof fn lemma_occurrences_take_step(s: Seq<usize>, v: usize, i: int)
    requires
        0 <= i < s.len(),
    ensures
        occurrences(s.take(i + 1), v) == occurrences(s.take(i), v) + if s[i] == v {
            1int
        } else {
            0int
        },
{
    assert(s.take(i + 1).drop_last() =~= s.take(i));
    assert(s.take(i + 1).last() == s[i]);
}

/// A prefix never holds more occurrences than the whole sequence.
pub proof fn lemma_occurrences_take_le(s: Seq<usize>, v: usize, i: int)
    requires
        0 <= i <= s.len(),
    ensures
        occurrences(s.take(i), v) <= occurrences(s, v),
    decreases s.len() - i,
{
    if i == s.len() {
        assert(s.take(i) =~= s);
    } else {
        lemma_occurrences_take_step(s, v, i);
        lemma_occurrences_take_le(s, v, i + 1);
    }
}

/// Occurrence counts are never negative.
pub proof fn lemma_occurrences_nonneg(s: Seq<usize>, v: usize)
    ensures
        occurrences(s, v) >= 0,
    decreases s.len(),
{
    if s.len() > 0 {
        lemma_occurrences_nonneg(s.drop_last(), v);
    }
}

/// The canonical ordering: job `0` repeated `m` times, then job `1`, and so
/// on — position `p` holds job `p / m`.
pub open spec fn canonical_ordering(n: int, m: int) -> Seq<usize> {
    Seq::new((n * m) as nat, |p: int| (p / m) as usize)
}

/// In the canonical ordering, the occurrences of `v` among the first `i`
/// positions are exactly the positions in `[v*m, (v+1)*m)` below `i`.
proof fn lemma_canonical_count_prefix(n: int, m: int, v: usize, i: int)
    requires
        1 <= m,
        0 <= n,
        n * m <= usize::MAX,
        0 <= i <= n * m,
    ensures
        occurrences(canonical_ordering(n, m).take(i), v) == if i <= v * m {
            0int
        } else if i >= v * m + m {
            m
        } else {
            i - v * m
        },
    decreases i,
{
    let s = canonical_ordering(n, m);
    if i == 0 {
        assert(s.take(0) =~= Seq::<usize>::empty());
    } else {
        lemma_canonical_count_prefix(n, m, v, i - 1);
        lemma_occurrences_take_step(s, v, i - 1);
        assert(s[i - 1] == ((i - 1) / m) as usize);
        assert((s[i - 1] == v) == (v * m <= i - 1 < v * m + m)) by {
            if v * m <= i - 1 < v * m + m {
                assert((i - 1) / m == v as int) by (nonlinear_arith)
                    requires
                        m >= 1,
                        v * m <= i - 1 < v * m + m,
                ;
            } else {
                assert((i - 1) / m != v as int) by (nonlinear_arith)
                    requires
                        m >= 1,
                        0 <= i - 1,
                        !(v * m <= i - 1 < v * m + m),
                ;
            }
        }
    }
}

/// The canonical ordering is valid.
pub proof fn lemma_canonical_valid(n: int, m: int)
    requires
        2 <= n,
        1 <= m,
        n * m <= usize::MAX,
    ensures
        valid_ordering(canonical_ordering(n, m), n, m),
{
    let s = canonical_ordering(n, m);
    assert(s.take(n * m) =~= s);
    assert forall|v: usize| (v as int) < n implies s.to_multiset().count(v) == m by {
        lemma_canonical_count_prefix(n, m, v, n * m);
        assert(v * m + m <= n * m) by (nonlinear_arith)
            requires
                (v as int) < n,
                m >= 1,
        ;
        lemma_occurrences_multiset(s, v);
    }
    assert forall|v: usize| (v as int) >= n implies s.to_multiset().count(v) == 0 by {
        lemma_canonical_count_prefix(n, m, v, n * m);
        assert(n * m <= v * m) by (nonlinear_arith)
            requires
                (v as int) >= n,
                m >= 1,
        ;
        lemma_occurrences_multiset(s, v);
    }
}

/// Two sequences with the same multiset are valid for the same parameters.
pub proof fn lemma_valid_same_multiset(o1: Seq<usize>, o2: Seq<usize>, n: int, m: int)
    requires
        valid_ordering(o1, n, m),
        o2.to_multiset() == o1.to_multiset(),
    ensures
        valid_ordering(o2, n, m),
{
    assert(o2.len() == o2.to_multiset().len());
    assert(o1.len() == o1.to_multiset().len());
}

/// Every element of a valid ordering is a job index below `n`.
pub proof fn lemma_valid_ordering_elems(order: Seq<usize>, n: int, m: int)
    requires
        valid_ordering(order, n, m),
        m >= 1,
    ensures
        forall|i: int| 0 <= i < order.len() ==> (#[trigger] order[i] as int) < n,
{
    assert forall|i: int| 0 <= i < order.len() implies (#[trigger] order[i] as int) < n by {
        assert(order.contains(order[i]));
        assert(order.to_multiset().count(order[i]) > 0);
    }
}

/// In a valid ordering the number of positions below `i` holding job `v`
/// never exceeds `m`.
pub proof fn lemma_valid_ordering_prefix_count(order: Seq<usize>, n: int, m: int, v: usize, i: int)
    requires
        valid_ordering(order, n, m),
        (v as int) < n,
        0 <= i <= order.len(),
    ensures
        0 <= occurrences(order.take(i), v) <= m,
{
    lemma_occurrences_take_le(order, v, i);
    lemma_occurrences_multiset(order, v);
    lemma_occurrences_nonneg(order.take(i), v);
}

/// Builds the canonical ordering.
pub fn create_canonical(n: usize, m: usize) -> (r: Vec<usize>)
    requires
        1 <= m,
        2 <= n,
        n * m <= usize::MAX,
    ensures
        r@ == canonical_ordering(n as int, m as int),
        valid_ordering(r@, n as int, m as int),
{
    let mut r: Vec<usize> = Vec::new();
    let mut j: usize = 0;
    while j < n
        invariant
            1 <= m,
            2 <= n,
            n * m <= usize::MAX,
            j <= n,
            r@.len() == j * m,
            forall|p: int| 0 <= p < j * m ==> r@[p] == canonical_ordering(n as int, m as int)[p],
        decreases n - j,
    {
        let mut c: usize = 0;
        proof {
            assert((j + 1) * m <= n * m) by (nonlinear_arith)
                requires
                    j < n,
                    m >= 1,
            ;
            assert(j * m + m == (j + 1) * m) by (nonlinear_arith);
        }
        while c < m
            invariant
                1 <= m,
                2 <= n,
                j < n,
                n * m <= usize::MAX,
                j * m + m <= n * m,
                c <= m,
                r@.len() == j * m + c,
                forall|p: int|
                    0 <= p < j * m + c ==> r@[p] == canonical_ordering(n as int, m as int)[p],
            decreases m - c,
        {
            r.push(j);
            proof {
                let p = (j * m + c) as int;
                assert(p / m as int == j as int) by (nonlinear_arith)
                    requires
                        m >= 1,
                        0 <= c < m,
                        p == j * m + c,
                ;
                assert(canonical_ordering(n as int, m as int)[p] == j);
            }
            c += 1;
        }
        j += 1;
    }
    proof {
        assert(r@ =~= canonical_ordering(n as int, m as int));
        lemma_canonical_valid(n as int, m as int);
    }
    r
}

/// Copies a row of numbers element by element.
pub fn clone_order(order: &Vec<usize>) -> (r: Vec<usize>)
    ensures
        r@ == order@,
{
    let mut r: Vec<usize> = Vec::new();
    let mut i: usize = 0;
    while i < order.len()
        invariant
            i <= order@.len(),
            r@ == order@.take(i as int),
        decreases order@.len() - i,
    {
        r.push(order[i]);
        proof {
            assert(order@.take((i + 1) as int) =~= order@.take(i as int).push(order@[i as int]));
        }
        i += 1;
    }
    proof {
        assert(order@.take(order@.len() as int) =~= order@);
    }
    r
}

} // verus!

//! The operator library: initialization, single swap, multi swap, and
//! crossover.  Every operator preserves the job multiset of the ordering it
//! starts from, so validity is preserved by construction.

use vstd::prelude::*;
use crate::candidate::Candidate;
use crate::oracle::{BlackBox, NullaryOperator, UnaryOperator1Swap, UnaryOperatorNSwap,
    BinaryOperator};
use crate::ordering::{valid_ordering, occurrences, clone_order, lemma_valid_same_multiset,
    lemma_valid_ordering_elems, lemma_occurrences_multiset, lemma_occurrences_nonneg,
    lemma_occurrences_take_step};
use crate::rng::{rand_below, rand_coin, shuffle_prefix};

verus! {

broadcast use vstd::seq_lib::group_to_multiset_ensures, vstd::multiset::group_multiset_axioms;

/// Swapping two positions of a sequence does not change its multiset.
pub proof fn lemma_swap_multiset<T>(s: Seq<T>, i: int, j: int)
    requires
        0 <= i < s.len(),
        0 <= j < s.len(),
    ensures
        s.update(i, s[j]).update(j, s[i]).to_multiset() == s.to_multiset(),
{
    let s2 = s.update(i, s[j]).update(j, s[i]);
    if i == j {
        assert(s2 =~= s);
    } else {
        assert(s.contains(s[i]));
        assert(s.contains(s[j]));
        assert(s.update(i, s[j])[j] == s[j]);
        assert(s.update(i, s[j]).contains(s[j])) by {
            assert(s.update(i, s[j])[j] == s[j]);
        }
        assert(s2.to_multiset() =~= s.to_multiset());
    }
}

/// The second ordering is the first with exactly one exchange of two
/// differing positions.
pub open spec fn exchanges_two(before: Seq<usize>, after: Seq<usize>) -> bool {
    exists|i: int, j: int|
        {
            &&& 0 <= i < before.len()
            &&& 0 <= j < before.len()
            &&& i != j
            &&& before[i] != before[j]
            &&& after == before.update(i, #[trigger] before[j]).update(j, #[trigger] before[i])
        }
}

/// Swaps two entries of an ordering in place.
fn swap_positions(v: &mut Vec<usize>, i: usize, j: usize)
    requires
        i < old(v)@.len(),
        j < old(v)@.len(),
    ensures
        final(v)@ == old(v)@.update(i as int, old(v)@[j as int]).update(
            j as int,
            old(v)@[i as int],
        ),
        final(v)@.to_multiset() == old(v)@.to_multiset(),
        final(v)@.len() == old(v)@.len(),
{
    let a = v[i];
    let b = v[j];
    v[i] = b;
    v[j] = a;
    proof {
        lemma_swap_multiset(old(v)@, i as int, j as int);
    }
}

/// Counts the positions of `order` holding a value other than `v`.
fn count_differing(order: &Vec<usize>, v: usize) -> (r: usize)
    ensures
        r as int == order@.len() - occurrences(order@, v),
{
    let len = order.len();
    let mut c: usize = 0;
    let mut i: usize = 0;
    while i < len
        invariant
            len == order@.len(),
            i <= len,
            c as int == i - occurrences(order@.take(i as int), v),
            c <= i,
        decreases len - i,
    {
        proof {
            lemma_occurrences_take_step(order@, v, i as int);
            lemma_occurrences_nonneg(order@.take((i + 1) as int), v);
        }
        if order[i] != v {
            c += 1;
        }
        i += 1;
    }
    proof {
        assert(order@.take(len as int) =~= order@);
    }
    c
}

/// Finds the position of the `r`-th entry (counting from zero) whose value
/// differs from `v`.
fn find_nth_differing(order: &Vec<usize>, v: usize, r: usize) -> (p: usize)
    requires
        (r as int) < order@.len() - occurrences(order@, v),
    ensures
        p < order@.len(),
        order@[p as int] != v,
{
    let len = order.len();
    let mut seen: usize = 0;
    let mut i: usize = 0;
    while i < len
        invariant
            len == order@.len(),
            i <= len,
            (r as int) < order@.len() - occurrences(order@, v),
            seen as int == i - occurrences(order@.take(i as int), v),
            seen <= r,
        decreases len - i,
    {
        proof {
            lemma_occurrences_take_step(order@, v, i as int);
            lemma_occurrences_nonneg(order@.take((i + 1) as int), v);
        }
        if order[i] != v {
            if seen == r {
                return i;
            }
            seen += 1;
        }
        i += 1;
    }
    proof {
        assert(order@.take(len as int) =~= order@);
        assert(false);
    }
    0
}

impl BlackBox {
    /// One uniform swap of two differing entries: the first position is
    /// drawn uniformly; the second uniformly among the positions holding a
    /// different value (a no-op swap is never produced).
    fn swap_once(&mut self, result: &mut Vec<usize>)
        requires
            old(self).instance.wf(),
            valid_ordering(old(result)@, old(self).instance.n as int, old(self).instance.m as int),
        ensures
            old(self).same_run(*final(self)),
            final(self).termination_counter == old(self).termination_counter,
            final(self).evaluated == old(self).evaluated,
            final(result)@.to_multiset() == old(result)@.to_multiset(),
            valid_ordering(final(result)@, old(self).instance.n as int, old(self).instance.m as int),
            exchanges_two(old(result)@, final(result)@),
    {
        let ghost n = self.instance.n as int;
        let ghost m = self.instance.m as int;
        let high = result.len();
        proof {
            assert(n * m >= 2) by (nonlinear_arith)
                requires
                    n >= 2,
                    m >= 1,
            ;
        }
        let i = rand_below(&mut self.random, high);
        let v = result[i];
        proof {
            lemma_valid_ordering_elems(result@, n, m);
            lemma_occurrences_multiset(result@, v);
            assert((v as int) < n);
            assert(occurrences(result@, v) == m);
            assert(high - m >= 1) by (nonlinear_arith)
                requires
                    high == n * m,
                    n >= 2,
                    m >= 1,
            ;
        }
        let diff = count_differing(result, v);
        let r = rand_below(&mut self.random, diff);
        let j = find_nth_differing(result, v, r);
        let ghost before = result@;
        swap_positions(result, i, j);
        proof {
            lemma_valid_same_multiset(before, result@, n, m);
            let ii = i as int;
            let jj = j as int;
            assert(before[ii] != before[jj]);
            assert(ii != jj);
            assert(result@ == before.update(ii, before[jj]).update(jj, before[ii]));
            assert(exchanges_two(before, result@));
        }
    }

    /// The initialization operator: a uniform random permutation of the
    /// canonical ordering, decoded.
    pub fn apply_nullary(&mut self) -> (c: Candidate)
        requires
            old(self).instance.wf(),
        ensures
            old(self).same_run(*final(self)),
            final(self).termination_counter == old(self).termination_counter,
            final(self).evaluated@ == old(self).evaluated@.push(c.makespan),
            c.wf(old(self).instance),
    {
        let mut order = self.create();
        let ghost before = order@;
        let len = order.len();
        shuffle_prefix(&mut self.random, &mut order, len);
        proof {
            assert(order@.subrange(0, len as int) =~= order@);
            assert(before.subrange(0, len as int) =~= before);
            lemma_valid_same_multiset(
                before,
                order@,
                self.instance.n as int,
                self.instance.m as int,
            );
        }
        let c = Candidate::new(&order, self);
        self.evaluated = Ghost(self.evaluated@.push(c.makespan));
        c
    }

    /// The single-swap operator: exchanges two differing entries of the
    /// parent's ordering and decodes the result, which is a permutation of
    /// the same job multiset differing from the parent in exactly the two
    /// exchanged positions.
    pub fn apply_1swap(&mut self, based: &Candidate) -> (c: Candidate)
        requires
            old(self).instance.wf(),
            based.wf(old(self).instance),
        ensures
            old(self).same_run(*final(self)),
            final(self).termination_counter == old(self).termination_counter,
            final(self).evaluated@ == old(self).evaluated@.push(c.makespan),
            c.wf(old(self).instance),
            c.order@.to_multiset() == based.order@.to_multiset(),
            exchanges_two(based.order@, c.order@),
    {
        let mut result = clone_order(&based.order);
        self.swap_once(&mut result);
        let c = Candidate::new(&result, self);
        self.evaluated = Ghost(self.evaluated@.push(c.makespan));
        proof {
            assert(c.order@ == result@);
        }
        c
    }

    /// The multi-swap operator: one swap, then further swaps while a fair
    /// coin keeps coming up true (capped at 64 extra swaps so the count is
    /// machine-bounded).  The result is a permutation of the same multiset.
    pub fn apply_nswap(&mut self, based: &Candidate) -> (c: Candidate)
        requires
            old(self).instance.wf(),
            based.wf(old(self).instance),
        ensures
            old(self).same_run(*final(self)),
            final(self).termination_counter == old(self).termination_counter,
            final(self).evaluated@ == old(self).evaluated@.push(c.makespan),
            c.wf(old(self).instance),
            c.order@.to_multiset() == based.order@.to_multiset(),
    {
        let ghost n = self.instance.n as int;
        let ghost m = self.instance.m as int;
        let mut result = clone_order(&based.order);
        self.swap_once(&mut result);
        let mut more = rand_coin(&mut self.random);
        let mut extra: usize = 0;
        while more && extra < 64
            invariant
                self.instance.wf(),
                old(self).same_run(*self),
                self.termination_counter == old(self).termination_counter,
                self.evaluated == old(self).evaluated,
                n == self.instance.n as int,
                m == self.instance.m as int,
                valid_ordering(result@, n, m),
                result@.to_multiset() == based.order@.to_multiset(),
                extra <= 64,
            decreases 64 - extra,
        {
            self.swap_once(&mut result);
            more = rand_coin(&mut self.random);
            extra += 1;
        }
        let c = Candidate::new(&result, self);
        self.evaluated = Ghost(self.evaluated@.push(c.makespan));
        c
    }
}

impl NullaryOperator for BlackBox {
    open spec fn ready(&self) -> bool {
        self.instance.wf()
    }

    fn apply(&mut self) -> Candidate {
        self.apply_nullary()
    }
}

impl UnaryOperator1Swap for BlackBox {
    open spec fn ready(&self, based: &Candidate) -> bool {
        self.instance.wf() && based.wf(self.instance)
    }

    fn apply(&mut self, based: &Candidate) -> Candidate {
        self.apply_1swap(based)
    }
}

impl UnaryOperatorNSwap for BlackBox {
    open spec fn ready(&self, based: &Candidate) -> bool {
        self.instance.wf() && based.wf(self.instance)
    }

    fn apply(&mut self, based: &Candidate) -> Candidate {
        self.apply_nswap(based)
    }
}


/// How many marked positions among the first `upto` hold value `v`.
pub open spec fn marked_count(order: Seq<usize>, vis: Seq<bool>, v: usize, upto: int) -> int
    decreases upto,
{
    if upto <= 0 {
        0
    } else {
        marked_count(order, vis, v, upto - 1) + if vis[upto - 1] && order[upto - 1] == v {
            1int
        } else {
            0int
        }
    }
}

/// How many of the first `upto` positions are marked.
pub open spec fn marked_total(vis: Seq<bool>, upto: int) -> int
    decreases upto,
{
    if upto <= 0 {
        0
    } else {
        marked_total(vis, upto - 1) + if vis[upto - 1] {
            1int
        } else {
            0int
        }
    }
}

proof fn lemma_marked_count_update(order: Seq<usize>, vis: Seq<bool>, v: usize, p: int, upto: int)
    requires
        0 <= p < vis.len(),
        !vis[p],
        upto <= vis.len(),
    ensures
        marked_count(order, vis.update(p, true), v, upto) == marked_count(order, vis, v, upto)
            + if p < upto && order[p] == v {
            1int
        } else {
            0int
        },
    decreases upto,
{
    if upto > 0 {
        lemma_marked_count_update(order, vis, v, p, upto - 1);
    }
}

proof fn lemma_marked_total_update(vis: Seq<bool>, p: int, upto: int)
    requires
        0 <= p < vis.len(),
        !vis[p],
        upto <= vis.len(),
    ensures
        marked_total(vis.update(p, true), upto) == marked_total(vis, upto) + if p < upto {
            1int
        } else {
            0int
        },
    decreases upto,
{
    if upto > 0 {
        lemma_marked_total_update(vis, p, upto - 1);
    }
}

proof fn lemma_marked_total_le(vis: Seq<bool>, upto: int)
    requires
        0 <= upto,
    ensures
        0 <= marked_total(vis, upto) <= upto,
    decreases upto,
{
    if upto > 0 {
        lemma_marked_total_le(vis, upto - 1);
    }
}

/// A fully marked count means every position is marked.
proof fn lemma_all_marked(vis: Seq<bool>, upto: int)
    requires
        0 <= upto,
        marked_total(vis, upto) == upto,
    ensures
        forall|p: int| 0 <= p < upto ==> vis[p],
    decreases upto,
{
    if upto > 0 {
        lemma_marked_total_le(vis, upto - 1);
        lemma_all_marked(vis, upto - 1);
    }
}

/// All positions marked makes the total the length.
proof fn lemma_marked_total_full(vis: Seq<bool>, upto: int)
    requires
        0 <= upto,
        forall|p: int| 0 <= p < upto ==> vis[p],
    ensures
        marked_total(vis, upto) == upto,
    decreases upto,
{
    if upto > 0 {
        lemma_marked_total_full(vis, upto - 1);
    }
}

proof fn lemma_marked_count_le(order: Seq<usize>, vis: Seq<bool>, v: usize, upto: int)
    requires
        0 <= upto <= order.len(),
    ensures
        0 <= marked_count(order, vis, v, upto) <= occurrences(order.take(upto), v),
    decreases upto,
{
    if upto > 0 {
        lemma_marked_count_le(order, vis, v, upto - 1);
        lemma_occurrences_take_step(order, v, upto - 1);
    } else {
        assert(order.take(0) =~= Seq::<usize>::empty());
    }
}

/// An unmarked occurrence keeps the marked count strictly below the number
/// of occurrences.
proof fn lemma_marked_lt_if_unmarked(order: Seq<usize>, vis: Seq<bool>, v: usize, pw: int, upto: int)
    requires
        0 <= pw < upto <= order.len(),
        order[pw] == v,
        !vis[pw],
    ensures
        marked_count(order, vis, v, upto) < occurrences(order.take(upto), v),
    decreases upto,
{
    lemma_occurrences_take_step(order, v, upto - 1);
    if pw == upto - 1 {
        lemma_marked_count_le(order, vis, v, upto - 1);
    } else {
        lemma_marked_lt_if_unmarked(order, vis, v, pw, upto - 1);
    }
}

/// A marked count strictly below the occurrences leaves an unmarked
/// occurrence somewhere.
proof fn lemma_exists_unmarked(order: Seq<usize>, vis: Seq<bool>, v: usize, upto: int)
    requires
        0 <= upto <= order.len(),
        marked_count(order, vis, v, upto) < occurrences(order.take(upto), v),
    ensures
        exists|p: int| 0 <= p < upto && order[p] == v && !vis[p],
    decreases upto,
{
    if upto > 0 {
        lemma_occurrences_take_step(order, v, upto - 1);
        if order[upto - 1] == v && !vis[upto - 1] {
            assert(0 <= upto - 1 < upto && order[upto - 1] == v && !vis[upto - 1]);
        } else {
            lemma_exists_unmarked(order, vis, v, upto - 1);
            let p = choose|p: int| 0 <= p < upto - 1 && order[p] == v && !vis[p];
            assert(0 <= p < upto && order[p] == v && !vis[p]);
        }
    } else {
        assert(order.take(0) =~= Seq::<usize>::empty());
    }
}

/// With every position marked, the marked count is the occurrence count.
proof fn lemma_marked_count_full(order: Seq<usize>, vis: Seq<bool>, v: usize, upto: int)
    requires
        0 <= upto <= order.len(),
        forall|p: int| 0 <= p < upto ==> vis[p],
    ensures
        marked_count(order, vis, v, upto) == occurrences(order.take(upto), v),
    decreases upto,
{
    if upto > 0 {
        lemma_marked_count_full(order, vis, v, upto - 1);
        lemma_occurrences_take_step(order, v, upto - 1);
    } else {
        assert(order.take(0) =~= Seq::<usize>::empty());
    }
}

/// Finds the first unconsumed occurrence of `v` at or after `from`.
fn find_unconsumed(order: &Vec<usize>, vis: &Vec<bool>, from: usize, v: usize) -> (r: usize)
    requires
        vis@.len() == order@.len(),
        from <= order@.len(),
        exists|pw: int| from <= pw < order@.len() && order@[pw] == v && !vis@[pw],
    ensures
        from <= r < order@.len(),
        order@[r as int] == v,
        !vis@[r as int],
        forall|q: int| from <= q < r ==> !(order@[q] == v && !vis@[q]),
{
    let len = order.len();
    let mut p = from;
    while p < len
        invariant
            vis@.len() == order@.len(),
            len == order@.len(),
            from <= p <= len,
            exists|pw: int| from <= pw < len && order@[pw] == v && !vis@[pw],
            forall|q: int| from <= q < p ==> !(order@[q] == v && !vis@[q]),
        decreases len - p,
    {
        if order[p] == v && !vis[p] {
            return p;
        }
        p += 1;
    }
    proof {
        let pw = choose|pw: int| from <= pw < len && order@[pw] == v && !vis@[pw];
        assert(!(order@[pw] == v && !vis@[pw]));
        assert(false);
    }
    0
}

impl BlackBox {
    /// The crossover operator: builds a child by repeatedly flipping a fair
    /// coin to take the next unconsumed job value from one parent or the
    /// other, consuming that value\'s next slot in both parents.  The child
    /// is a permutation of the parents\' shared job multiset by
    /// construction, and two identical parents reproduce themselves.
    pub fn apply_binary(&mut self, based_a: &Candidate, based_b: &Candidate) -> (c: Candidate)
        requires
            old(self).instance.wf(),
            based_a.wf(old(self).instance),
            based_b.wf(old(self).instance),
        ensures
            old(self).same_run(*final(self)),
            final(self).termination_counter == old(self).termination_counter,
            final(self).evaluated@ == old(self).evaluated@.push(c.makespan),
            c.wf(old(self).instance),
            c.order@.to_multiset() == based_a.order@.to_multiset(),
            based_a.order@ == based_b.order@ ==> c.order@ == based_a.order@,
    {
        let ghost n = self.instance.n as int;
        let ghost m = self.instance.m as int;
        let ghost oa = based_a.order@;
        let ghost ob = based_b.order@;
        let length = based_a.order.len();
        proof {
            lemma_valid_ordering_elems(oa, n, m);
            lemma_valid_ordering_elems(ob, n, m);
        }
        let mut visited_a: Vec<bool> = vec![false; length];
        let mut visited_b: Vec<bool> = vec![false; length];
        let mut result: Vec<usize> = vec![0; length];
        let mut result_i: usize = 0;
        let mut a_i: usize = 0;
        let mut b_i: usize = 0;
        proof {
            assert forall|v: usize| #[trigger] marked_count(oa, visited_a@, v, length as int)
                == occurrences(result@.take(result_i as int), v) by {
                lemma_marked_none(oa, visited_a@, v, length as int);
                assert(result@.take(0int) =~= Seq::<usize>::empty());
            }
            assert forall|v: usize| #[trigger] marked_count(ob, visited_b@, v, length as int)
                == occurrences(result@.take(result_i as int), v) by {
                lemma_marked_none(ob, visited_b@, v, length as int);
                assert(result@.take(0int) =~= Seq::<usize>::empty());
            }
            lemma_marked_total_none(visited_a@, length as int);
            lemma_marked_total_none(visited_b@, length as int);
        }
        while result_i < length
            invariant
                self.instance.wf(),
                old(self).same_run(*self),
                self.termination_counter == old(self).termination_counter,
                self.evaluated == old(self).evaluated,
                n == self.instance.n as int,
                m == self.instance.m as int,
                oa == based_a.order@,
                ob == based_b.order@,
                valid_ordering(oa, n, m),
                valid_ordering(ob, n, m),
                length == oa.len(),
                length == ob.len(),
                result@.len() == length,
                visited_a@.len() == length,
                visited_b@.len() == length,
                result_i <= length,
                a_i <= length,
                b_i <= length,
                forall|p: int| 0 <= p < a_i ==> visited_a@[p],
                forall|p: int| 0 <= p < b_i ==> visited_b@[p],
                a_i < length ==> !visited_a@[a_i as int],
                b_i < length ==> !visited_b@[b_i as int],
                forall|v: usize| #[trigger] marked_count(oa, visited_a@, v, length as int)
                    == occurrences(result@.take(result_i as int), v),
                forall|v: usize| #[trigger] marked_count(ob, visited_b@, v, length as int)
                    == occurrences(result@.take(result_i as int), v),
                marked_total(visited_a@, length as int) == result_i,
                marked_total(visited_b@, length as int) == result_i,
                oa == ob ==> visited_a@ == visited_b@ && a_i == b_i && a_i == result_i
                    && (forall|p: int| result_i <= p < length ==> !visited_a@[p])
                    && result@.take(result_i as int) == oa.take(result_i as int),
            decreases length - result_i,
        {
            proof {
                if a_i == length {
                    lemma_marked_total_full(visited_a@, length as int);
                    assert(false);
                }
                if b_i == length {
                    lemma_marked_total_full(visited_b@, length as int);
                    assert(false);
                }
            }
            let use_a = rand_coin(&mut self.random);
            let add = if use_a {
                based_a.order[a_i]
            } else {
                based_b.order[b_i]
            };
            proof {
                lemma_valid_ordering_elems(oa, n, m);
                lemma_valid_ordering_elems(ob, n, m);
                assert((add as int) < n);
                lemma_occurrences_multiset(oa, add);
                lemma_occurrences_multiset(ob, add);
                assert(oa.take(length as int) =~= oa);
                assert(ob.take(length as int) =~= ob);
                if use_a {
                    assert(oa[a_i as int] == add && !visited_a@[a_i as int]);
                    lemma_marked_lt_if_unmarked(oa, visited_a@, add, a_i as int, length as int);
                    lemma_exists_unmarked(ob, visited_b@, add, length as int);
                } else {
                    assert(ob[b_i as int] == add && !visited_b@[b_i as int]);
                    lemma_marked_lt_if_unmarked(ob, visited_b@, add, b_i as int, length as int);
                    lemma_exists_unmarked(oa, visited_a@, add, length as int);
                }
                let pa0 = choose|p: int| 0 <= p < length && oa[p] == add && !visited_a@[p];
                assert(a_i <= pa0);
                let pb0 = choose|p: int| 0 <= p < length && ob[p] == add && !visited_b@[p];
                assert(b_i <= pb0);
            }
            let ghost result_before = result@;
            result[result_i] = add;
            let ghost old_ri = result_i as int;
            result_i += 1;
            proof {
                assert(result@.take(old_ri) =~= result_before.take(old_ri));
                assert(result@.take(old_ri + 1) =~= result@.take(old_ri).push(add));
            }
            let ghost va0 = visited_a@;
            let ghost vb0 = visited_b@;
            let pa = find_unconsumed(&based_a.order, &visited_a, a_i, add);
            visited_a[pa] = true;
            let pb = find_unconsumed(&based_b.order, &visited_b, b_i, add);
            visited_b[pb] = true;
            proof {
                assert forall|v: usize| #[trigger] marked_count(oa, visited_a@, v, length as int)
                    == occurrences(result@.take(result_i as int), v) by {
                    lemma_marked_count_update(oa, va0, v, pa as int, length as int);
                    lemma_occurrences_take_step(result@, v, old_ri);
                }
                assert forall|v: usize| #[trigger] marked_count(ob, visited_b@, v, length as int)
                    == occurrences(result@.take(result_i as int), v) by {
                    lemma_marked_count_update(ob, vb0, v, pb as int, length as int);
                    lemma_occurrences_take_step(result@, v, old_ri);
                }
                lemma_marked_total_update(va0, pa as int, length as int);
                lemma_marked_total_update(vb0, pb as int, length as int);
                if oa == ob {
                    assert(pa == a_i);
                    assert(pb == b_i);
                    assert(visited_a@ =~= visited_b@);
                    assert(result@.take(result_i as int) =~= oa.take(result_i as int));
                }
            }
            let ghost a_before = a_i as int;
            while a_i < length && visited_a[a_i]
                invariant
                    visited_a@.len() == length,
                    a_before <= a_i as int,
                    a_i <= length,
                    forall|p: int| 0 <= p < a_i ==> visited_a@[p],
                decreases length - a_i,
            {
                a_i += 1;
            }
            let ghost b_before = b_i as int;
            while b_i < length && visited_b[b_i]
                invariant
                    visited_b@.len() == length,
                    b_before <= b_i as int,
                    b_i <= length,
                    forall|p: int| 0 <= p < b_i ==> visited_b@[p],
                decreases length - b_i,
            {
                b_i += 1;
            }
            proof {
                if oa == ob {
                    assert(visited_a@ == visited_b@);
                    assert(forall|p: int|
                        0 <= p < length ==> visited_a@[p] == (p < result_i as int));
                    assert(a_i == result_i) by {
                        if (a_i as int) < result_i as int {
                            assert(!(a_i < length && visited_a@[a_i as int]));
                            assert(visited_a@[a_i as int]);
                        }
                        if (a_i as int) > result_i as int {
                            assert(visited_a@[result_i as int]);
                        }
                    }
                    assert(b_i == result_i) by {
                        if (b_i as int) < result_i as int {
                            assert(!(b_i < length && visited_b@[b_i as int]));
                            assert(visited_b@[b_i as int]);
                        }
                        if (b_i as int) > result_i as int {
                            assert(visited_b@[result_i as int]);
                        }
                    }
                }
            }
        }
        proof {
            lemma_all_marked(visited_a@, length as int);
            assert forall|v: usize| #[trigger] result@.to_multiset().count(v)
                == oa.to_multiset().count(v) by {
                lemma_marked_count_full(oa, visited_a@, v, length as int);
                assert(oa.take(length as int) =~= oa);
                assert(result@.take(length as int) =~= result@);
                lemma_occurrences_multiset(result@, v);
                lemma_occurrences_multiset(oa, v);
            }
            assert(result@.to_multiset() =~= oa.to_multiset());
            lemma_valid_same_multiset(oa, result@, n, m);
            if oa == ob {
                assert(result@.take(length as int) =~= result@);
                assert(oa.take(length as int) =~= oa);
                assert(result@ == oa);
            }
        }
        let c = Candidate::new(&result, self);
        self.evaluated = Ghost(self.evaluated@.push(c.makespan));
        c
    }
}

proof fn lemma_marked_none(order: Seq<usize>, vis: Seq<bool>, v: usize, upto: int)
    requires
        forall|p: int| 0 <= p < upto ==> !vis[p],
    ensures
        marked_count(order, vis, v, upto) == 0,
    decreases upto,
{
    if upto > 0 {
        lemma_marked_none(order, vis, v, upto - 1);
    }
}

proof fn lemma_marked_total_none(vis: Seq<bool>, upto: int)
    requires
        forall|p: int| 0 <= p < upto ==> !vis[p],
    ensures
        marked_total(vis, upto) == 0,
    decreases upto,
{
    if upto > 0 {
        lemma_marked_total_none(vis, upto - 1);
    }
}

impl BinaryOperator for BlackBox {
    open spec fn ready(&self, based_a: &Candidate, based_b: &Candidate) -> bool {
        self.instance.wf() && based_a.wf(self.instance) && based_b.wf(self.instance)
    }

    fn apply(&mut self, based_a: &Candidate, based_b: &Candidate) -> Candidate {
        self.apply_binary(based_a, based_b)
    }
}


} // verus!

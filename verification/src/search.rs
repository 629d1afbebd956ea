//! The branch-and-bound step shared by every engine, the serial solver, and
//! the breadth-first seed expander.

use vstd::prelude::*;
use crate::matrix::DistanceMatrix;
use crate::model::closed_cost;
use crate::model::complete_tour;
use crate::model::lemma_complete_tour_contains_all;
use crate::model::lemma_complete_tour_exists;
use crate::model::lemma_prefix_cost_le;
use crate::model::lemma_root_closed_cost;
use crate::model::lemma_tour_measure_child;
use crate::model::lemma_tour_measure_pos;
use crate::model::tour_measure;
use crate::model::triangle_inequality;
use crate::tour::Tour;

verus! {

/// Potential of a pool of tours: the sum of the members' potentials.  It is
/// the termination measure of every engine loop.
pub open spec fn pool_measure(n: int, p: Seq<Tour>) -> int
    decreases p.len(),
{
    if p.len() == 0 {
        0
    } else {
        pool_measure(n, p.drop_last()) + tour_measure(n, p.last().cities@)
    }
}

/// Every tour in the pool is well-formed against the matrix.
pub open spec fn pool_wf(p: Seq<Tour>, m: Seq<Seq<u64>>) -> bool {
    forall|i: int| 0 <= i < p.len() ==> (#[trigger] p[i]).wf(m)
}

/// Some tour in the pool is a prefix of `t`.
pub open spec fn pool_has_prefix(p: Seq<Tour>, t: Seq<usize>) -> bool {
    exists|i: int| 0 <= i < p.len() && (#[trigger] p[i]).cities@.is_prefix_of(t)
}

/// Some tour in the pool has exactly the city sequence `c`.
pub open spec fn pool_has_exact(p: Seq<Tour>, c: Seq<usize>) -> bool {
    exists|i: int| 0 <= i < p.len() && (#[trigger] p[i]).cities@ == c
}

/// The incumbent is either absent or a complete well-formed tour.
pub open spec fn incumbent_wf(b: Option<Tour>, m: Seq<Seq<u64>>) -> bool {
    b matches Some(x) ==> x.wf(m) && x.cities@.len() == m.len()
}

/// The incumbent exists and costs at most `c`.
pub open spec fn incumbent_le(b: Option<Tour>, c: int) -> bool {
    b matches Some(x) && x.cost <= c
}

pub proof fn lemma_pool_measure_nonneg(n: int, p: Seq<Tour>)
    requires
        n >= 0,
    ensures
        pool_measure(n, p) >= 0,
    decreases p.len(),
{
    if p.len() > 0 {
        lemma_pool_measure_nonneg(n, p.drop_last());
        lemma_tour_measure_pos(n, p.last().cities@);
    }
}

pub proof fn lemma_pool_measure_push(n: int, p: Seq<Tour>, x: Tour)
    ensures
        pool_measure(n, p.push(x)) == pool_measure(n, p) + tour_measure(n, x.cities@),
{
    let q = p.push(x);
    assert(q.drop_last() =~= p);
    assert(q.last() == x);
}

/// The pool potential can also be peeled off at the front.
pub proof fn lemma_pool_measure_drop_first(n: int, p: Seq<Tour>)
    requires
        p.len() >= 1,
    ensures
        pool_measure(n, p) == tour_measure(n, p[0].cities@) + pool_measure(n, p.drop_first()),
    decreases p.len(),
{
    if p.len() == 1 {
        assert(p.drop_first() =~= Seq::<Tour>::empty());
        assert(p.drop_last() =~= Seq::<Tour>::empty());
        assert(p.last() == p[0]);
    } else {
        let d = p.drop_last();
        lemma_pool_measure_drop_first(n, d);
        assert(d[0] == p[0]);
        assert(p.drop_first().drop_last() =~= d.drop_first());
        assert(p.drop_first().last() == p.last());
        assert(pool_measure(n, p.drop_first()) == pool_measure(n, p.drop_first().drop_last())
            + tour_measure(n, p.drop_first().last().cities@));
        assert(pool_measure(n, p.drop_first().drop_last()) == pool_measure(n, d.drop_first()));
        assert(pool_measure(n, p) == pool_measure(n, d) + tour_measure(n, p.last().cities@));
        assert(pool_measure(n, d) == tour_measure(n, d[0].cities@) + pool_measure(n, d.drop_first()));
        assert(tour_measure(n, d[0].cities@) == tour_measure(n, p[0].cities@));
        assert(pool_measure(n, p.drop_first()) == pool_measure(n, d.drop_first())
            + tour_measure(n, p.last().cities@));
    }
}

/// A prefix witness survives when the pool only grows at the back.
pub proof fn lemma_pool_prefix_grow(p: Seq<Tour>, q: Seq<Tour>, t: Seq<usize>)
    requires
        pool_has_prefix(p, t),
        p.is_prefix_of(q),
    ensures
        pool_has_prefix(q, t),
{
    let i = choose|i: int| 0 <= i < p.len() && (#[trigger] p[i]).cities@.is_prefix_of(t);
    assert(p[i] == q.subrange(0, p.len() as int)[i]);
    assert(q[i] == p[i]);
}

/// One branch-and-bound step on a popped tour `curr`: prune it against the
/// incumbent, publish it if it is a complete improvement, or push every
/// feasible extension onto the back of `stack`.  The last two conditions say
/// the step loses no part of the search space: every complete tour below
/// `curr` keeps a prefix witness in the pool or is covered by the incumbent.
pub fn bb_step(
    curr: Tour,
    stack: &mut Vec<Tour>,
    best: &mut Option<Tour>,
    distance_matrix: &DistanceMatrix,
)
    requires
        distance_matrix.wf(),
        curr.wf(distance_matrix@),
        pool_wf(old(stack)@, distance_matrix@),
        incumbent_wf(*old(best), distance_matrix@),
    ensures
        pool_wf(final(stack)@, distance_matrix@),
        incumbent_wf(*final(best), distance_matrix@),
        old(stack)@.is_prefix_of(final(stack)@),
        *old(best) matches Some(x) ==> *final(best) matches Some(y) && y.cost <= x.cost,
        curr.cities@.len() == distance_matrix@.len() ==> *final(best) is Some,
        pool_measure(distance_matrix@.len() as int, final(stack)@) < pool_measure(
            distance_matrix@.len() as int,
            old(stack)@,
        ) + tour_measure(distance_matrix@.len() as int, curr.cities@),
        forall|t: Seq<usize>|
            complete_tour(distance_matrix@, t) && curr.cities@.is_prefix_of(t)
                ==> pool_has_prefix(final(stack)@, t) || *final(best) is Some,
        triangle_inequality(distance_matrix@) ==> forall|t: Seq<usize>|
            complete_tour(distance_matrix@, t) && curr.cities@.is_prefix_of(t)
                ==> pool_has_prefix(final(stack)@, t) || incumbent_le(
                *final(best),
                closed_cost(distance_matrix@, t),
            ),
{
    let ghost m = distance_matrix@;
    let ghost n = m.len() as int;
    proof {
        lemma_tour_measure_pos(n, curr.cities@);
        assert(stack@.is_prefix_of(stack@)) by {
            assert(stack@.subrange(0, stack@.len() as int) =~= stack@);
        }
    }
    let n_exec = distance_matrix.size();
    let prune: bool = match &*best {
        Some(b) => curr.cost >= b.cost,
        None => false,
    };
    if prune {
        proof {
            if triangle_inequality(m) {
                assert forall|t: Seq<usize>|
                    complete_tour(m, t) && curr.cities@.is_prefix_of(t) implies pool_has_prefix(
                    stack@,
                    t,
                ) || incumbent_le(*best, closed_cost(m, t)) by {
                    lemma_prefix_cost_le(m, curr.cities@, t);
                }
            }
        }
        return ;
    }
    if curr.cities.len() == n_exec {
        let ghost c = curr.cities@;
        let ghost cost = curr.cost;
        let improve: bool = match &*best {
            Some(b) => curr.cost < b.cost,
            None => true,
        };
        if improve {
            *best = Some(curr);
        }
        proof {
            assert forall|t: Seq<usize>|
                complete_tour(m, t) && c.is_prefix_of(t) implies pool_has_prefix(stack@, t)
                || incumbent_le(*best, closed_cost(m, t)) by {
                assert(c =~= t);
                assert(closed_cost(m, t) == cost);
            }
        }
        return ;
    }
    let ghost s = curr.cities@;
    let ghost base = stack@;
    let ghost pre_best = *best;
    let ghost chm = tour_measure(n, s.push(0usize));
    proof {
        lemma_tour_measure_child(n, s, 0usize);
        lemma_tour_measure_pos(n, s.push(0usize));
    }
    let mut curr = curr;
    let mut v: usize = 0;
    while v < n_exec
        invariant
            distance_matrix.wf(),
            m == distance_matrix@,
            n == m.len(),
            n_exec == m.len(),
            curr.wf(m),
            curr.cities@ == s,
            s.len() < m.len(),
            v <= n_exec,
            pool_wf(stack@, m),
            base.is_prefix_of(stack@),
            *best == pre_best,
            chm == tour_measure(n, s.push(0usize)),
            chm >= 1,
            pool_measure(n, stack@) <= pool_measure(n, base) + (v as int) * chm,
            forall|w: usize|
                w < v && !s.contains(w) ==> pool_has_exact(stack@, s.push(w)),
        decreases n_exec - v,
    {
        if curr.is_feasible(&v) {
            let ghost pre = stack@;
            curr.add_city(&v, distance_matrix);
            let child = curr.clone();
            assert(child.wf(m) && child.cities@ == s.push(v));
            stack.push(child);
            curr.remove_last_city(distance_matrix);
            proof {
                assert(curr.cities@ =~= s);
                assert(stack@ == pre.push(child));
                lemma_pool_measure_push(n, pre, child);
                assert(tour_measure(n, child.cities@) == chm);
                assert((v as int + 1) * chm == (v as int) * chm + chm) by (nonlinear_arith);
                assert(base.is_prefix_of(stack@)) by {
                    assert(base =~= pre.subrange(0, base.len() as int));
                    assert(base =~= stack@.subrange(0, base.len() as int));
                }
                assert forall|w: usize|
                    w < v + 1 && !s.contains(w) implies pool_has_exact(stack@, s.push(w)) by {
                    if w < v {
                        let i = choose|i: int|
                            0 <= i < pre.len() && (#[trigger] pre[i]).cities@ == s.push(w);
                        assert(stack@[i] == pre[i]);
                    } else {
                        assert(stack@[pre.len() as int].cities@ == s.push(v));
                    }
                }
            }
        } else {
            proof {
                assert((v as int + 1) * chm == (v as int) * chm + chm) by (nonlinear_arith);
            }
        }
        v = v + 1;
    }
    proof {
        assert(pool_measure(n, stack@) <= pool_measure(n, base) + n * chm);
        assert(tour_measure(n, s) == (n + 1) * chm);
        assert((n + 1) * chm == n * chm + chm) by (nonlinear_arith);
        assert forall|t: Seq<usize>|
            complete_tour(m, t) && s.is_prefix_of(t) implies pool_has_prefix(stack@, t) by {
            let w = t[s.len() as int];
            assert(forall|i: int| 0 <= i < s.len() ==> s[i] == t.subrange(0, s.len() as int)[i]);
            assert(w < m.len());
            assert(!s.contains(w)) by {
                if s.contains(w) {
                    let i = choose|i: int| 0 <= i < s.len() && s[i] == w;
                    assert(t[i] == s[i]);
                    assert(t[i] == t[s.len() as int]);
                    assert(!t.no_duplicates());
                }
            }
            assert(pool_has_exact(stack@, s.push(w)));
            let j = choose|j: int|
                0 <= j < stack@.len() && (#[trigger] stack@[j]).cities@ == s.push(w);
            assert(s.push(w) =~= t.subrange(0, s.len() as int + 1));
            assert(stack@[j].cities@.is_prefix_of(t));
        }
    }
}

/// Serial depth-first branch-and-bound.  Returns a complete tour through all
/// cities starting at city 0 whose cached cost equals its recomputed
/// closed-cycle cost; when the matrix satisfies the triangle inequality the
/// returned cost is minimal over all complete tours.
pub fn serial_tsp_bb(distance_matrix: &DistanceMatrix) -> (r: Tour)
    requires
        distance_matrix.wf(),
    ensures
        complete_tour(distance_matrix@, r.cities@),
        r.cost == closed_cost(distance_matrix@, r.cities@),
        forall|v: usize| v < distance_matrix@.len() ==> r.cities@.contains(v),
        triangle_inequality(distance_matrix@) ==> forall|t: Seq<usize>|
            complete_tour(distance_matrix@, t) ==> r.cost <= closed_cost(distance_matrix@, t),
{
    let ghost m = distance_matrix@;
    let ghost n = m.len() as int;
    let mut stack: Vec<Tour> = Vec::new();
    let root = Tour::start();
    proof {
        lemma_root_closed_cost(m);
        assert(root.wf(m));
    }
    stack.push(root);
    let mut best: Option<Tour> = None;
    proof {
        assert(stack@[0] == root);
        assert forall|t: Seq<usize>| complete_tour(m, t) implies pool_has_prefix(stack@, t) by {
            assert(root.cities@.is_prefix_of(t)) by {
                assert(root.cities@ =~= t.subrange(0, 1));
            }
        }
    }
    while stack.len() > 0
        invariant
            distance_matrix.wf(),
            m == distance_matrix@,
            n == m.len(),
            pool_wf(stack@, m),
            incumbent_wf(best, m),
            forall|t: Seq<usize>|
                complete_tour(m, t) ==> pool_has_prefix(stack@, t) || best is Some,
            triangle_inequality(m) ==> forall|t: Seq<usize>|
                complete_tour(m, t) ==> pool_has_prefix(stack@, t) || incumbent_le(
                    best,
                    closed_cost(m, t),
                ),
        decreases pool_measure(n, stack@),
    {
        let ghost pre = stack@;
        let ghost pre_best = best;
        let curr = stack.pop().unwrap();
        let ghost mid = stack@;
        proof {
            assert(mid =~= pre.drop_last());
            assert(curr == pre.last());
            lemma_pool_measure_nonneg(n, mid);
        }
        bb_step(curr, &mut stack, &mut best, distance_matrix);
        proof {
            step_coverage(m, pre, pre_best, curr, stack@, best);
            assert(pool_measure(n, pre) == pool_measure(n, pre.drop_last())
                + tour_measure(n, pre.last().cities@));
            assert(pool_measure(n, stack@) < pool_measure(n, mid) + tour_measure(n, curr.cities@));
            lemma_pool_measure_nonneg(n, stack@);
        }
    }
    proof {
        lemma_complete_tour_exists(m);
        let t0 = choose|t: Seq<usize>| complete_tour(m, t);
        assert(!pool_has_prefix(stack@, t0));
        assert(best is Some);
        if triangle_inequality(m) {
            assert forall|t: Seq<usize>|
                complete_tour(m, t) implies incumbent_le(best, closed_cost(m, t)) by {
                assert(!pool_has_prefix(stack@, t));
            }
        }
    }
    let result = best.unwrap();
    proof {
        assert(complete_tour(m, result.cities@));
        assert forall|v: usize| v < m.len() implies result.cities@.contains(v) by {
            lemma_complete_tour_contains_all(m, result.cities@, v);
        }
    }
    result
}

/// After popping the last pool entry and running one step, every complete
/// tour keeps its coverage: a surviving prefix witness, the popped tour's own
/// subtree coverage, or the (only improving) incumbent.
proof fn step_coverage(
    m: Seq<Seq<u64>>,
    pre: Seq<Tour>,
    pre_best: Option<Tour>,
    curr: Tour,
    post: Seq<Tour>,
    post_best: Option<Tour>,
)
    requires
        pre.len() >= 1,
        curr == pre.last(),
        pre.drop_last().is_prefix_of(post),
        forall|t: Seq<usize>|
            complete_tour(m, t) && curr.cities@.is_prefix_of(t) ==> pool_has_prefix(post, t)
                || post_best is Some,
        triangle_inequality(m) ==> forall|t: Seq<usize>|
            complete_tour(m, t) && curr.cities@.is_prefix_of(t) ==> pool_has_prefix(post, t)
                || incumbent_le(post_best, closed_cost(m, t)),
        pre_best matches Some(x) ==> post_best matches Some(y) && y.cost <= x.cost,
        forall|t: Seq<usize>|
            complete_tour(m, t) ==> pool_has_prefix(pre, t) || pre_best is Some,
        triangle_inequality(m) ==> forall|t: Seq<usize>|
            complete_tour(m, t) ==> pool_has_prefix(pre, t) || incumbent_le(
                pre_best,
                closed_cost(m, t),
            ),
    ensures
        forall|t: Seq<usize>|
            complete_tour(m, t) ==> pool_has_prefix(post, t) || post_best is Some,
        triangle_inequality(m) ==> forall|t: Seq<usize>|
            complete_tour(m, t) ==> pool_has_prefix(post, t) || incumbent_le(
                post_best,
                closed_cost(m, t),
            ),
{
    assert forall|t: Seq<usize>|
        complete_tour(m, t) implies pool_has_prefix(post, t) || post_best is Some by {
        if pool_has_prefix(pre, t) {
            let j = choose|j: int| 0 <= j < pre.len() && (#[trigger] pre[j]).cities@.is_prefix_of(t);
            if j < pre.len() - 1 {
                assert(pre.drop_last()[j] == pre[j]);
                lemma_pool_prefix_grow(pre.drop_last(), post, t);
            } else {
                assert(pre[j] == curr);
            }
        }
    }
    if triangle_inequality(m) {
        assert forall|t: Seq<usize>|
            complete_tour(m, t) implies pool_has_prefix(post, t) || incumbent_le(
            post_best,
            closed_cost(m, t),
        ) by {
            if pool_has_prefix(pre, t) {
                let j = choose|j: int|
                    0 <= j < pre.len() && (#[trigger] pre[j]).cities@.is_prefix_of(t);
                if j < pre.len() - 1 {
                    assert(pre.drop_last()[j] == pre[j]);
                    lemma_pool_prefix_grow(pre.drop_last(), post, t);
                } else {
                    assert(pre[j] == curr);
                }
            }
        }
    }
}

/// Breadth-first seed expansion: starting from the root tour, repeatedly
/// expands the front of the queue until it holds at least `thread_count`
/// partial tours (or the whole search collapsed into the incumbent).  The
/// returned queue and incumbent together still cover the complete search
/// space, in the same sense as one `bb_step`.
pub fn get_initial_stack(distance_matrix: &DistanceMatrix, thread_count: usize) -> (r: (
    Vec<Tour>,
    Option<Tour>,
))
    requires
        distance_matrix.wf(),
        thread_count >= 1,
    ensures
        pool_wf(r.0@, distance_matrix@),
        incumbent_wf(r.1, distance_matrix@),
        forall|t: Seq<usize>|
            complete_tour(distance_matrix@, t) ==> pool_has_prefix(r.0@, t) || r.1 is Some,
        triangle_inequality(distance_matrix@) ==> forall|t: Seq<usize>|
            complete_tour(distance_matrix@, t) ==> pool_has_prefix(r.0@, t) || incumbent_le(
                r.1,
                closed_cost(distance_matrix@, t),
            ),
        r.0@.len() >= thread_count || r.0@.len() == 0,
        r.0@.len() == 0 ==> r.1 is Some,
{
    let ghost m = distance_matrix@;
    let ghost n = m.len() as int;
    let mut queue: Vec<Tour> = Vec::new();
    let root = Tour::start();
    proof {
        lemma_root_closed_cost(m);
        assert(root.wf(m));
    }
    queue.push(root);
    let mut best: Option<Tour> = None;
    proof {
        assert(queue@[0] == root);
        assert forall|t: Seq<usize>| complete_tour(m, t) implies pool_has_prefix(queue@, t) by {
            assert(root.cities@.is_prefix_of(t)) by {
                assert(root.cities@ =~= t.subrange(0, 1));
            }
        }
    }
    while queue.len() < thread_count && queue.len() > 0
        invariant
            distance_matrix.wf(),
            m == distance_matrix@,
            n == m.len(),
            pool_wf(queue@, m),
            incumbent_wf(best, m),
            forall|t: Seq<usize>|
                complete_tour(m, t) ==> pool_has_prefix(queue@, t) || best is Some,
            triangle_inequality(m) ==> forall|t: Seq<usize>|
                complete_tour(m, t) ==> pool_has_prefix(queue@, t) || incumbent_le(
                    best,
                    closed_cost(m, t),
                ),
        decreases pool_measure(n, queue@),
    {
        let ghost pre = queue@;
        let ghost pre_best = best;
        let curr = queue.remove(0);
        let ghost mid = queue@;
        proof {
            assert(mid =~= pre.drop_first());
            lemma_pool_measure_drop_first(n, pre);
            lemma_pool_measure_nonneg(n, mid);
        }
        bb_step(curr, &mut queue, &mut best, distance_matrix);
        proof {
            front_step_coverage(m, pre, pre_best, curr, queue@, best);
            assert(pool_measure(n, pre) == tour_measure(n, pre[0].cities@) + pool_measure(n, mid));
            assert(pool_measure(n, queue@) < pool_measure(n, mid) + tour_measure(n, curr.cities@));
            lemma_pool_measure_nonneg(n, queue@);
        }
    }
    proof {
        if queue@.len() == 0 {
            lemma_complete_tour_exists(m);
            let t0 = choose|t: Seq<usize>| complete_tour(m, t);
            assert(!pool_has_prefix(queue@, t0));
        }
    }
    (queue, best)
}

/// The analogue of `step_coverage` for a pool whose front entry was removed.
proof fn front_step_coverage(
    m: Seq<Seq<u64>>,
    pre: Seq<Tour>,
    pre_best: Option<Tour>,
    curr: Tour,
    post: Seq<Tour>,
    post_best: Option<Tour>,
)
    requires
        pre.len() >= 1,
        curr == pre[0],
        pre.drop_first().is_prefix_of(post),
        forall|t: Seq<usize>|
            complete_tour(m, t) && curr.cities@.is_prefix_of(t) ==> pool_has_prefix(post, t)
                || post_best is Some,
        triangle_inequality(m) ==> forall|t: Seq<usize>|
            complete_tour(m, t) && curr.cities@.is_prefix_of(t) ==> pool_has_prefix(post, t)
                || incumbent_le(post_best, closed_cost(m, t)),
        pre_best matches Some(x) ==> post_best matches Some(y) && y.cost <= x.cost,
        forall|t: Seq<usize>|
            complete_tour(m, t) ==> pool_has_prefix(pre, t) || pre_best is Some,
        triangle_inequality(m) ==> forall|t: Seq<usize>|
            complete_tour(m, t) ==> pool_has_prefix(pre, t) || incumbent_le(
                pre_best,
                closed_cost(m, t),
            ),
    ensures
        forall|t: Seq<usize>|
            complete_tour(m, t) ==> pool_has_prefix(post, t) || post_best is Some,
        triangle_inequality(m) ==> forall|t: Seq<usize>|
            complete_tour(m, t) ==> pool_has_prefix(post, t) || incumbent_le(
                post_best,
                closed_cost(m, t),
            ),
{
    assert forall|t: Seq<usize>|
        complete_tour(m, t) implies pool_has_prefix(post, t) || post_best is Some by {
        if pool_has_prefix(pre, t) {
            let j = choose|j: int| 0 <= j < pre.len() && (#[trigger] pre[j]).cities@.is_prefix_of(t);
            if j >= 1 {
                assert(pre.drop_first()[j - 1] == pre[j]);
                lemma_pool_prefix_grow(pre.drop_first(), post, t);
            } else {
                assert(pre[j] == curr);
            }
        }
    }
    if triangle_inequality(m) {
        assert forall|t: Seq<usize>|
            complete_tour(m, t) implies pool_has_prefix(post, t) || incumbent_le(
            post_best,
            closed_cost(m, t),
        ) by {
            if pool_has_prefix(pre, t) {
                let j = choose|j: int|
                    0 <= j < pre.len() && (#[trigger] pre[j]).cities@.is_prefix_of(t);
                if j >= 1 {
                    assert(pre.drop_first()[j - 1] == pre[j]);
                    lemma_pool_prefix_grow(pre.drop_first(), post, t);
                } else {
                    assert(pre[j] == curr);
                }
            }
        }
    }
}

} // verus!

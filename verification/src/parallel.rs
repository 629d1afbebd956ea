//! Work donation between search stacks, distributed-termination detection,
//! and the parallel branch-and-bound engine.
//!
//! The engine runs `thread_count` workers over private stacks that share one
//! incumbent and one rendezvous object.  Scheduling here is cooperative: the
//! engine gives one worker a turn at a time, which makes every interleaving
//! decision explicit and verifiable; a thread-per-worker driver can run the
//! same protocol functions around its own locks.

use vstd::prelude::*;
use vstd::multiset::Multiset;
use crate::matrix::DistanceMatrix;
use crate::model::closed_cost;
use crate::model::complete_tour;
use crate::model::lemma_complete_tour_contains_all;
use crate::model::lemma_complete_tour_exists;
use crate::model::tour_measure;
use crate::model::triangle_inequality;
use crate::search::bb_step;
use crate::search::get_initial_stack;
use crate::search::incumbent_le;
use crate::search::incumbent_wf;
use crate::search::lemma_pool_measure_nonneg;
use crate::search::lemma_pool_measure_push;
use crate::search::lemma_pool_prefix_grow;
use crate::search::pool_has_prefix;
use crate::search::pool_measure;
use crate::search::pool_wf;
use crate::tour::Tour;

verus! {

broadcast use {vstd::seq_lib::group_to_multiset_ensures, vstd::multiset::group_multiset_axioms};

/// The tours currently parked in a donation slot.
pub open spec fn slot_tours(o: Option<Vec<Tour>>) -> Seq<Tour> {
    match o {
        Some(v) => v@,
        None => Seq::empty(),
    }
}

/// The rendezvous object shared by all workers: an optional donated stack
/// and the number of workers currently waiting for work.  A thread-based
/// driver guards it with one lock and one condition variable.
pub struct NewStack {
    pub stack: Option<Vec<Tour>>,
    pub threads_waiting: usize,
}

impl NewStack {
    pub fn new() -> (r: NewStack)
        ensures
            r.stack is None,
            r.threads_waiting == 0,
    {
        NewStack { stack: None, threads_waiting: 0 }
    }

    /// A donor may leave work exactly when some worker is waiting and the
    /// donation slot is free.
    pub fn can_be_updated(&self) -> (r: bool)
        ensures
            r == (self.threads_waiting > 0 && self.stack is None),
    {
        self.threads_waiting > 0 && self.stack.is_none()
    }
}

/// Splits `stack` in two: the caller keeps the even-indexed tours, the
/// returned vector receives the odd-indexed ones, each half in its original
/// order.
pub fn split_stack(stack: &mut Vec<Tour>) -> (r: Vec<Tour>)
    ensures
        final(stack)@.len() == (old(stack)@.len() + 1) / 2,
        r@.len() == old(stack)@.len() / 2,
        forall|j: int| 0 <= j < final(stack)@.len() ==> final(stack)@[j] == old(stack)@[2 * j],
        forall|j: int| 0 <= j < r@.len() ==> r@[j] == old(stack)@[2 * j + 1],
{
    let ghost orig = stack@;
    let mut kept: Vec<Tour> = Vec::new();
    let mut don: Vec<Tour> = Vec::new();
    while stack.len() >= 2
        invariant
            kept@.len() == don@.len(),
            orig.len() == stack@.len() + 2 * kept@.len(),
            forall|j: int| 0 <= j < stack@.len() ==> stack@[j] == orig[2 * kept@.len() + j],
            forall|j: int| 0 <= j < kept@.len() ==> kept@[j] == orig[2 * j],
            forall|j: int| 0 <= j < don@.len() ==> don@[j] == orig[2 * j + 1],
        decreases stack@.len(),
    {
        let a = stack.remove(0);
        let b = stack.remove(0);
        kept.push(a);
        don.push(b);
    }
    if stack.len() == 1 {
        let a = stack.remove(0);
        kept.push(a);
    }
    *stack = kept;
    don
}

/// Nothing is lost or duplicated by a split: the kept and donated halves
/// together hold exactly the tours of the original stack, and they carry
/// exactly its search potential.
pub proof fn lemma_split_halves(n: int, orig: Seq<Tour>, kept: Seq<Tour>, don: Seq<Tour>)
    requires
        kept.len() == (orig.len() + 1) / 2,
        don.len() == orig.len() / 2,
        forall|j: int| 0 <= j < kept.len() ==> kept[j] == orig[2 * j],
        forall|j: int| 0 <= j < don.len() ==> don[j] == orig[2 * j + 1],
    ensures
        kept.to_multiset().add(don.to_multiset()) =~= orig.to_multiset(),
        pool_measure(n, kept) + pool_measure(n, don) == pool_measure(n, orig),
    decreases orig.len(),
{
    if orig.len() == 0 {
        assert(kept =~= Seq::<Tour>::empty());
        assert(don =~= Seq::<Tour>::empty());
        assert(kept.to_multiset() =~= Multiset::<Tour>::empty());
        assert(don.to_multiset() =~= Multiset::<Tour>::empty());
        assert(orig.to_multiset() =~= Multiset::<Tour>::empty());
    } else if orig.len() % 2 == 1 {
        let x = orig.last();
        let o2 = orig.drop_last();
        let k2 = kept.drop_last();
        assert(2 * (kept.len() - 1) == orig.len() - 1);
        assert(kept.last() == orig[orig.len() - 1]);
        assert(forall|j: int| 0 <= j < k2.len() ==> k2[j] == o2[2 * j]);
        assert(forall|j: int| 0 <= j < don.len() ==> don[j] == o2[2 * j + 1]);
        lemma_split_halves(n, o2, k2, don);
        assert(o2.push(x) =~= orig);
        assert(k2.push(x) =~= kept);
        assert(orig.to_multiset() =~= o2.to_multiset().insert(x));
        assert(kept.to_multiset() =~= k2.to_multiset().insert(x));
        assert(kept.to_multiset().add(don.to_multiset()) =~= orig.to_multiset());
        lemma_pool_measure_push(n, o2, x);
        lemma_pool_measure_push(n, k2, x);
        assert(pool_measure(n, orig) == pool_measure(n, o2) + tour_measure(n, x.cities@));
        assert(pool_measure(n, kept) == pool_measure(n, k2) + tour_measure(n, x.cities@));
    } else {
        let x = orig.last();
        let o2 = orig.drop_last();
        let d2 = don.drop_last();
        assert(2 * (don.len() - 1) + 1 == orig.len() - 1);
        assert(don.last() == orig[orig.len() - 1]);
        assert(forall|j: int| 0 <= j < kept.len() ==> kept[j] == o2[2 * j]);
        assert(forall|j: int| 0 <= j < d2.len() ==> d2[j] == o2[2 * j + 1]);
        lemma_split_halves(n, o2, kept, d2);
        assert(o2.push(x) =~= orig);
        assert(d2.push(x) =~= don);
        assert(orig.to_multiset() =~= o2.to_multiset().insert(x));
        assert(don.to_multiset() =~= d2.to_multiset().insert(x));
        assert(kept.to_multiset().add(don.to_multiset()) =~= orig.to_multiset());
        lemma_pool_measure_push(n, o2, x);
        lemma_pool_measure_push(n, d2, x);
    }
}

/// A prefix witness in the original stack survives a split, in one of the
/// two halves.
pub proof fn lemma_split_witness(orig: Seq<Tour>, kept: Seq<Tour>, don: Seq<Tour>, t: Seq<usize>)
    requires
        kept.len() == (orig.len() + 1) / 2,
        don.len() == orig.len() / 2,
        forall|j: int| 0 <= j < kept.len() ==> kept[j] == orig[2 * j],
        forall|j: int| 0 <= j < don.len() ==> don[j] == orig[2 * j + 1],
        pool_has_prefix(orig, t),
    ensures
        pool_has_prefix(kept, t) || pool_has_prefix(don, t),
{
    let i = choose|i: int| 0 <= i < orig.len() && (#[trigger] orig[i]).cities@.is_prefix_of(t);
    let j = i / 2;
    if i % 2 == 0 {
        assert(2 * j == i);
        assert(kept[j] == orig[i]);
    } else {
        assert(2 * j + 1 == i);
        assert(don[j] == orig[i]);
    }
}

/// One call of the termination-and-donation protocol, made by a worker
/// before it pops new work.  With work at hand it reports `false`, first
/// donating half of a large stack when a waiter can take it; idle, it takes
/// a pending donation, or detects global termination as the last idle
/// worker, or registers as one more waiter.  A caller whose call returned
/// `false` with a still-empty stack must wait for a donation or for
/// termination before calling again.  Tours are never lost or duplicated:
/// stack and slot together keep the same multiset and the same potential.
pub fn is_terminated(stack: &mut Vec<Tour>, shared: &mut NewStack, thread_count: usize) -> (r:
    bool)
    requires
        thread_count >= 1,
        old(shared).threads_waiting < thread_count,
    ensures
        final(stack)@.to_multiset().add(slot_tours(final(shared).stack).to_multiset())
            =~= old(stack)@.to_multiset().add(slot_tours(old(shared).stack).to_multiset()),
        forall|n: int|
            #![trigger pool_measure(n, final(stack)@)]
            pool_measure(n, final(stack)@) + pool_measure(n, slot_tours(final(shared).stack))
                == pool_measure(n, old(stack)@) + pool_measure(n, slot_tours(old(shared).stack)),
        r ==> old(stack)@.len() == 0 && old(shared).stack is None
            && final(stack)@ == old(stack)@ && final(shared).stack is None
            && final(shared).threads_waiting == thread_count,
        (old(stack)@.len() > 2 && old(shared).threads_waiting > 0 && old(shared).stack is None)
            ==> (!r
            && final(shared).threads_waiting == old(shared).threads_waiting
            && (final(shared).stack matches Some(d)
                && d@.len() == old(stack)@.len() / 2
                && final(stack)@.len() == (old(stack)@.len() + 1) / 2
                && (forall|j: int|
                    0 <= j < final(stack)@.len() ==> final(stack)@[j] == old(stack)@[2 * j])
                && (forall|j: int| 0 <= j < d@.len() ==> d@[j] == old(stack)@[2 * j + 1]))),
        (old(stack)@.len() > 0
            && !(old(stack)@.len() > 2 && old(shared).threads_waiting > 0
                && old(shared).stack is None))
            ==> !r && final(stack)@ == old(stack)@ && *final(shared) == *old(shared),
        (old(stack)@.len() == 0 && old(shared).stack is Some)
            ==> !r && final(stack)@ == slot_tours(old(shared).stack)
            && final(shared).stack is None
            && final(shared).threads_waiting == old(shared).threads_waiting,
        (old(stack)@.len() == 0 && old(shared).stack is None
            && old(shared).threads_waiting == thread_count - 1) ==> r,
        (old(stack)@.len() == 0 && old(shared).stack is None
            && old(shared).threads_waiting < thread_count - 1)
            ==> !r && final(stack)@ == old(stack)@ && final(shared).stack is None
            && final(shared).threads_waiting == old(shared).threads_waiting + 1,
{
    let ghost s0 = stack@;
    let ghost slot0 = slot_tours(shared.stack);
    if stack.len() > 2 && shared.can_be_updated() {
        let don = split_stack(stack);
        proof {
            assert forall|n: int| true implies pool_measure(n, stack@) + pool_measure(n, don@)
                == pool_measure(n, s0) + pool_measure(n, slot0) by {
                lemma_split_halves(n, s0, stack@, don@);
            }
            assert(slot0 =~= Seq::<Tour>::empty());
            assert(slot0.to_multiset() =~= Multiset::<Tour>::empty());
            lemma_split_halves(0, s0, stack@, don@);
        }
        shared.stack = Some(don);
        return false;
    } else if stack.len() > 0 {
        return false;
    } else {
        if shared.stack.is_some() {
            let mut taken: Option<Vec<Tour>> = None;
            core::mem::swap(&mut shared.stack, &mut taken);
            let mut donated = taken.unwrap();
            core::mem::swap(stack, &mut donated);
            proof {
                assert(stack@ == slot0);
                assert(s0 =~= Seq::<Tour>::empty());
                assert(slot_tours(shared.stack) =~= Seq::<Tour>::empty());
                assert(s0.to_multiset() =~= Multiset::<Tour>::empty());
                assert(slot_tours(shared.stack).to_multiset() =~= Multiset::<Tour>::empty());
            }
            return false;
        }
        if shared.threads_waiting == thread_count - 1 {
            shared.threads_waiting = thread_count;
            return true;
        } else {
            shared.threads_waiting = shared.threads_waiting + 1;
            return false;
        }
    }
}


/// Every worker stack is well-formed against the matrix.
pub open spec fn stacks_wf(ss: Seq<Vec<Tour>>, m: Seq<Seq<u64>>) -> bool {
    forall|i: int| 0 <= i < ss.len() ==> pool_wf((#[trigger] ss[i])@, m)
}

/// Some worker stack holds a prefix of `t`.
pub open spec fn stacks_have_prefix(ss: Seq<Vec<Tour>>, t: Seq<usize>) -> bool {
    exists|i: int| 0 <= i < ss.len() && pool_has_prefix((#[trigger] ss[i])@, t)
}

/// The combined potential of all worker stacks.
pub open spec fn stacks_measure(n: int, ss: Seq<Vec<Tour>>) -> int
    decreases ss.len(),
{
    if ss.len() == 0 {
        0
    } else {
        stacks_measure(n, ss.drop_last()) + pool_measure(n, ss.last()@)
    }
}

pub proof fn lemma_stacks_measure_nonneg(n: int, ss: Seq<Vec<Tour>>)
    requires
        n >= 0,
    ensures
        stacks_measure(n, ss) >= 0,
    decreases ss.len(),
{
    if ss.len() > 0 {
        lemma_stacks_measure_nonneg(n, ss.drop_last());
        lemma_pool_measure_nonneg(n, ss.last()@);
    }
}

/// Replacing one worker stack changes the combined potential by exactly the
/// difference of the two stacks' potentials.
pub proof fn lemma_stacks_measure_update(n: int, ss: Seq<Vec<Tour>>, k: int, v: Vec<Tour>)
    requires
        0 <= k < ss.len(),
    ensures
        stacks_measure(n, ss.update(k, v)) == stacks_measure(n, ss) - pool_measure(n, ss[k]@)
            + pool_measure(n, v@),
    decreases ss.len(),
{
    let u = ss.update(k, v);
    if k == ss.len() - 1 {
        assert(u.drop_last() =~= ss.drop_last());
        assert(u.last() == v);
    } else {
        assert(u.drop_last() =~= ss.drop_last().update(k, v));
        assert(u.last() == ss.last());
        lemma_stacks_measure_update(n, ss.drop_last(), k, v);
        assert(ss.drop_last()[k] == ss[k]);
    }
}

/// A witness among the stacks either sits in the replaced slot or survives
/// the replacement.
pub proof fn lemma_stacks_witness_update(ss: Seq<Vec<Tour>>, k: int, v: Vec<Tour>, t: Seq<usize>)
    requires
        0 <= k < ss.len(),
        stacks_have_prefix(ss, t),
    ensures
        pool_has_prefix(ss[k]@, t) || stacks_have_prefix(ss.update(k, v), t),
{
    let i = choose|i: int| 0 <= i < ss.len() && pool_has_prefix((#[trigger] ss[i])@, t);
    if i != k {
        assert(ss.update(k, v)[i] == ss[i]);
    }
}

/// True while any worker stack or the donation slot still holds work.
fn has_work(stacks: &Vec<Vec<Tour>>, shared: &NewStack) -> (r: bool)
    ensures
        r == ((exists|i: int| 0 <= i < stacks@.len() && (#[trigger] stacks@[i])@.len() > 0)
            || shared.stack is Some),
{
    if shared.stack.is_some() {
        return true;
    }
    let mut i: usize = 0;
    while i < stacks.len()
        invariant
            i <= stacks@.len(),
            forall|j: int| 0 <= j < i ==> (#[trigger] stacks@[j])@.len() == 0,
        decreases stacks@.len() - i,
    {
        if stacks[i].len() > 0 {
            return true;
        }
        i = i + 1;
    }
    false
}

/// Parallel branch-and-bound.  Seeds `thread_count` worker stacks from the
/// breadth-first frontier, distributing the whole frontier round-robin, then
/// gives the workers turns: each turn runs the donation/termination protocol
/// and one branch-and-bound step on the acting worker's private stack, all
/// workers sharing one incumbent.  The search halts for every valid matrix
/// and returns a tour with the same contract as `serial_tsp_bb`; in
/// particular the two engines agree on the cost whenever the matrix
/// satisfies the triangle inequality.
#[verifier::rlimit(100)]
pub fn parallel_tsp_bb(distance_matrix: &DistanceMatrix, thread_count: usize) -> (r: Tour)
    requires
        distance_matrix.wf(),
        thread_count >= 1,
    ensures
        complete_tour(distance_matrix@, r.cities@),
        r.cost == closed_cost(distance_matrix@, r.cities@),
        forall|v: usize| v < distance_matrix@.len() ==> r.cities@.contains(v),
        triangle_inequality(distance_matrix@) ==> forall|t: Seq<usize>|
            complete_tour(distance_matrix@, t) ==> r.cost <= closed_cost(distance_matrix@, t),
{
    let ghost m = distance_matrix@;
    let ghost n = m.len() as int;
    let (mut queue, mut best) = get_initial_stack(distance_matrix, thread_count);
    let mut stacks: Vec<Vec<Tour>> = Vec::new();
    let mut i: usize = 0;
    while i < thread_count
        invariant
            i <= thread_count,
            stacks@.len() == i,
            forall|k: int| 0 <= k < i ==> (#[trigger] stacks@[k])@.len() == 0,
        decreases thread_count - i,
    {
        stacks.push(Vec::new());
        i = i + 1;
    }
    let mut turn: usize = 0;
    while queue.len() > 0
        invariant
            distance_matrix.wf(),
            m == distance_matrix@,
            n == m.len(),
            stacks@.len() == thread_count,
            turn < thread_count,
            pool_wf(queue@, m),
            stacks_wf(stacks@, m),
            incumbent_wf(best, m),
            forall|t: Seq<usize>|
                complete_tour(m, t) ==> pool_has_prefix(queue@, t) || stacks_have_prefix(
                    stacks@,
                    t,
                ) || best is Some,
            triangle_inequality(m) ==> forall|t: Seq<usize>|
                complete_tour(m, t) ==> pool_has_prefix(queue@, t) || stacks_have_prefix(
                    stacks@,
                    t,
                ) || incumbent_le(best, closed_cost(m, t)),
        decreases queue@.len(),
    {
        let ghost pre_q = queue@;
        let ghost pre_ss = stacks@;
        let x = queue.remove(0);
        let mut s = stacks.remove(turn);
        let ghost s_pre = s@;
        s.push(x);
        stacks.insert(turn, s);
        proof {
            assert(queue@ =~= pre_q.drop_first());
            assert(stacks@ =~= pre_ss.update(turn as int, s));
            assert(s@ == s_pre.push(x));
            assert forall|t: Seq<usize>|
                complete_tour(m, t) && (pool_has_prefix(pre_q, t) || stacks_have_prefix(
                    pre_ss,
                    t,
                )) implies pool_has_prefix(queue@, t) || stacks_have_prefix(stacks@, t) by {
                if pool_has_prefix(pre_q, t) {
                    let j = choose|j: int|
                        0 <= j < pre_q.len() && (#[trigger] pre_q[j]).cities@.is_prefix_of(t);
                    if j == 0 {
                        assert(s@[s_pre.len() as int] == x);
                        assert(pool_has_prefix(s@, t));
                        assert(stacks@[turn as int] == s);
                    } else {
                        assert(queue@[j - 1] == pre_q[j]);
                    }
                } else {
                    lemma_stacks_witness_update(pre_ss, turn as int, s, t);
                    if pool_has_prefix(pre_ss[turn as int]@, t) {
                        assert(pre_ss[turn as int]@ == s_pre);
                        assert(s_pre.is_prefix_of(s@)) by {
                            assert(s_pre =~= s@.subrange(0, s_pre.len() as int));
                        }
                        lemma_pool_prefix_grow(s_pre, s@, t);
                        assert(stacks@[turn as int] == s);
                    }
                }
            }
        }
        turn = turn + 1;
        if turn == thread_count {
            turn = 0;
        }
    }
    let mut shared = NewStack::new();
    while has_work(&stacks, &shared)
        invariant
            distance_matrix.wf(),
            m == distance_matrix@,
            n == m.len(),
            thread_count >= 1,
            stacks@.len() == thread_count,
            stacks_wf(stacks@, m),
            pool_wf(slot_tours(shared.stack), m),
            incumbent_wf(best, m),
            shared.stack matches Some(v) ==> v@.len() >= 1,
            forall|t: Seq<usize>|
                complete_tour(m, t) ==> stacks_have_prefix(stacks@, t) || pool_has_prefix(
                    slot_tours(shared.stack),
                    t,
                ) || best is Some,
            triangle_inequality(m) ==> forall|t: Seq<usize>|
                complete_tour(m, t) ==> stacks_have_prefix(stacks@, t) || pool_has_prefix(
                    slot_tours(shared.stack),
                    t,
                ) || incumbent_le(best, closed_cost(m, t)),
        decreases stacks_measure(n, stacks@) + pool_measure(n, slot_tours(shared.stack)),
    {
        let ghost pre_ss = stacks@;
        let ghost pre_slot = shared.stack;
        let ghost pre_total = stacks_measure(n, pre_ss) + pool_measure(n, slot_tours(pre_slot));
        if shared.stack.is_some() {
            let mut e: usize = 0;
            while e < thread_count && stacks[e].len() > 0
                invariant
                    stacks@.len() == thread_count,
                    e <= thread_count,
                    forall|j: int| 0 <= j < e ==> (#[trigger] stacks@[j])@.len() > 0,
                decreases thread_count - e,
            {
                e = e + 1;
            }
            if e < thread_count {
                let mut taken: Option<Vec<Tour>> = None;
                core::mem::swap(&mut shared.stack, &mut taken);
                let d = taken.unwrap();
                let empty_s = stacks.remove(e);
                stacks.insert(e, d);
                proof {
                    assert(empty_s@.len() == 0);
                    assert(stacks@ =~= pre_ss.update(e as int, d));
                    lemma_stacks_measure_update(n, pre_ss, e as int, d);
                    assert(pool_measure(n, empty_s@) == 0);
                    assert(slot_tours(shared.stack) =~= Seq::<Tour>::empty());
                    assert(d@ == slot_tours(pre_slot));
                    assert forall|t: Seq<usize>|
                        complete_tour(m, t) && (stacks_have_prefix(pre_ss, t) || pool_has_prefix(
                            slot_tours(pre_slot),
                            t,
                        )) implies stacks_have_prefix(stacks@, t) by {
                        if stacks_have_prefix(pre_ss, t) {
                            lemma_stacks_witness_update(pre_ss, e as int, d, t);
                            assert(!pool_has_prefix(pre_ss[e as int]@, t));
                        } else {
                            assert(stacks@[e as int] == d);
                        }
                    }
                    assert(stacks@[e as int]@.len() > 0);
                }
            } else {
                proof {
                    assert(stacks@[0]@.len() > 0);
                }
            }
        } else {
            proof {
                assert(exists|i: int|
                    0 <= i < stacks@.len() && (#[trigger] stacks@[i])@.len() > 0);
            }
        }
        proof {
            assert(exists|i: int| 0 <= i < stacks@.len() && (#[trigger] stacks@[i])@.len() > 0);
        }
        let ghost ss1 = stacks@;
        let ghost slot1 = shared.stack;
        proof {
            assert(stacks_measure(n, ss1) + pool_measure(n, slot_tours(slot1)) == pre_total);
        }
        let mut act: usize = 0;
        let mut act_found = false;
        let mut empties: usize = 0;
        let mut k: usize = 0;
        while k < thread_count
            invariant
                stacks@.len() == thread_count,
                k <= thread_count,
                empties <= k,
                act_found ==> empties < k,
                act_found ==> act < thread_count && stacks@[act as int]@.len() > 0,
                !act_found ==> forall|j: int| 0 <= j < k ==> (#[trigger] stacks@[j])@.len() == 0,
            decreases thread_count - k,
        {
            if stacks[k].len() == 0 {
                empties = empties + 1;
            } else {
                if !act_found {
                    act = k;
                    act_found = true;
                }
            }
            k = k + 1;
        }
        if !act_found {
            proof {
                let w = choose|i: int|
                    0 <= i < stacks@.len() && (#[trigger] stacks@[i])@.len() > 0;
                assert(stacks@[w]@.len() == 0);
                assert(false);
            }
        }
        shared.threads_waiting = empties;
        let mut s = stacks.remove(act);
        let ghost s0 = s@;
        let ghost slot_a = shared.stack;
        proof {
            assert(s0 == ss1[act as int]@);
            assert(s0.len() > 0);
        }
        let _terminated = is_terminated(&mut s, &mut shared, thread_count);
        let ghost s1 = s@;
        let ghost slot_b = shared.stack;
        proof {
            assert(s1.len() > 0);
            assert(pool_wf(s1, m) && pool_wf(slot_tours(slot_b), m)) by {
                if s0.len() > 2 && empties > 0 && slot_a is None {
                    assert forall|j: int|
                        0 <= j < s1.len() implies (#[trigger] s1[j]).wf(m) by {
                        assert(s1[j] == s0[2 * j]);
                    }
                    assert forall|j: int|
                        0 <= j < slot_tours(slot_b).len() implies (#[trigger] slot_tours(
                        slot_b,
                    )[j]).wf(m) by {
                        assert(slot_tours(slot_b)[j] == s0[2 * j + 1]);
                    }
                }
            }
            assert(slot_b matches Some(v) ==> v@.len() >= 1);
        }
        let curr = s.pop().unwrap();
        let ghost s2 = s@;
        let ghost pre_best = best;
        proof {
            assert(s2 =~= s1.drop_last());
            assert(curr == s1.last());
            lemma_pool_measure_nonneg(n, s2);
        }
        bb_step(curr, &mut s, &mut best, distance_matrix);
        let ghost s3 = s@;
        stacks.insert(act, s);
        proof {
            assert(stacks@ =~= ss1.update(act as int, s));
            lemma_stacks_measure_update(n, ss1, act as int, s);
            assert(pool_measure(n, s1) == pool_measure(n, s2) + tour_measure(n, curr.cities@));
            assert(pool_measure(n, s3) < pool_measure(n, s1));
            assert(pool_measure(n, s1) + pool_measure(n, slot_tours(slot_b)) == pool_measure(
                n,
                s0,
            ) + pool_measure(n, slot_tours(slot_a)));
            assert(stacks_measure(n, stacks@) + pool_measure(n, slot_tours(shared.stack))
                < pre_total);
            lemma_stacks_measure_nonneg(n, stacks@);
            lemma_pool_measure_nonneg(n, slot_tours(shared.stack));
            assert forall|t: Seq<usize>|
                complete_tour(m, t) && (stacks_have_prefix(ss1, t) || pool_has_prefix(
                    slot_tours(slot1),
                    t,
                )) implies stacks_have_prefix(stacks@, t) || pool_has_prefix(
                slot_tours(shared.stack),
                t,
            ) || (best is Some && (triangle_inequality(m) ==> incumbent_le(
                best,
                closed_cost(m, t),
            ))) by {
                if stacks_have_prefix(ss1, t) {
                    lemma_stacks_witness_update(ss1, act as int, s, t);
                    if pool_has_prefix(ss1[act as int]@, t) {
                        assert(pool_has_prefix(s0, t));
                        if s0.len() > 2 && empties > 0 && slot_a is None {
                            let don = slot_tours(slot_b);
                            lemma_split_witness(s0, s1, don, t);
                        }
                        if pool_has_prefix(slot_tours(slot_b), t) {
                            assert(slot_tours(shared.stack) == slot_tours(slot_b));
                        } else {
                            assert(pool_has_prefix(s1, t));
                            let j = choose|j: int|
                                0 <= j < s1.len() && (#[trigger] s1[j]).cities@.is_prefix_of(t);
                            if j < s1.len() - 1 {
                                assert(s2[j] == s1[j]);
                                lemma_pool_prefix_grow(s2, s3, t);
                                assert(stacks@[act as int] == s);
                            } else {
                                assert(s1[j] == curr);
                                if triangle_inequality(m) {
                                    assert(pool_has_prefix(s3, t) || incumbent_le(
                                        best,
                                        closed_cost(m, t),
                                    ));
                                } else {
                                    assert(pool_has_prefix(s3, t) || best is Some);
                                }
                                if pool_has_prefix(s3, t) {
                                    assert(stacks@[act as int] == s);
                                }
                            }
                        }
                    }
                } else {
                    assert(pool_has_prefix(slot_tours(slot1), t));
                    assert(slot1 is Some);
                    assert(slot_a == slot1);
                    assert(slot_b == slot_a);
                }
            }
        }
    }
    proof {
        lemma_complete_tour_exists(m);
        assert forall|t: Seq<usize>| complete_tour(m, t) implies !stacks_have_prefix(stacks@, t)
            && !pool_has_prefix(slot_tours(shared.stack), t) by {
            assert(slot_tours(shared.stack) =~= Seq::<Tour>::empty());
        }
        let t0 = choose|t: Seq<usize>| complete_tour(m, t);
        assert(best is Some);
    }
    let result = best.unwrap();
    proof {
        assert(complete_tour(m, result.cities@));
        assert forall|v: usize| v < m.len() implies result.cities@.contains(v) by {
            lemma_complete_tour_contains_all(m, result.cities@, v);
        }
    }
    result
}

} // verus!

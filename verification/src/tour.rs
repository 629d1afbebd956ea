//! The partial-tour representation with constant-time extend and retract
//! under the closed-cycle cost model.

use vstd::prelude::*;
use crate::matrix::DistanceMatrix;
use crate::model::closed_cost;
use crate::model::in_range;
use crate::model::lemma_closed_cost_extend;
use crate::model::lemma_closed_cost_upper;
use crate::model::lemma_path_cost_nonneg;
use crate::model::lemma_root_closed_cost;
use crate::model::path_cost;
use crate::model::valid_partial;

verus! {

/// An ordered prefix of visited cities together with the cached cost of its
/// closed cycle (the visited path plus the return edge to city 0).
#[verifier::ext_equal]
pub struct Tour {
    pub cities: Vec<usize>,
    pub cost: u64,
}

impl Clone for Tour {
    fn clone(&self) -> (r: Self)
        ensures
            r.cities@ == self.cities@,
            r.cost == self.cost,
    {
        Tour { cities: self.cities.clone(), cost: self.cost }
    }
}

impl Tour {
    /// The cost-cache invariant: a well-formed tour is a valid partial tour
    /// whose cached cost equals the closed-cycle cost recomputed from its
    /// city sequence against the matrix.
    pub open spec fn wf(&self, m: Seq<Seq<u64>>) -> bool {
        &&& valid_partial(m, self.cities@)
        &&& self.cost == closed_cost(m, self.cities@)
    }

    /// The root tour: city 0 alone, with closed-cycle cost 0.
    pub fn start() -> (r: Tour)
        ensures
            r.cities@ =~= seq![0usize],
            r.cost == 0,
    {
        let mut cities: Vec<usize> = Vec::new();
        cities.push(0);
        Tour { cities, cost: 0 }
    }

    /// True exactly when `city_index` has not been visited yet.
    pub fn is_feasible(&self, city_index: &usize) -> (r: bool)
        ensures
            r == !self.cities@.contains(*city_index),
    {
        let mut k: usize = 0;
        while k < self.cities.len()
            invariant
                k <= self.cities@.len(),
                forall|a: int| 0 <= a < k ==> self.cities@[a] != *city_index,
            decreases self.cities@.len() - k,
        {
            if self.cities[k] == *city_index {
                assert(self.cities@[k as int] == *city_index);
                return false;
            }
            k = k + 1;
        }
        true
    }

    /// Appends `city_index` and updates the cached cost by the two new edges
    /// minus the replaced return edge.
    pub fn add_city(&mut self, city_index: &usize, distance_matrix: &DistanceMatrix)
        requires
            distance_matrix.wf(),
            old(self).wf(distance_matrix@),
            old(self).cities@.len() < distance_matrix@.len(),
            *city_index < distance_matrix@.len(),
            !old(self).cities@.contains(*city_index),
        ensures
            final(self).cities@ =~= old(self).cities@.push(*city_index),
            final(self).cost == closed_cost(distance_matrix@, final(self).cities@),
            final(self).wf(distance_matrix@),
    {
        let ghost m = distance_matrix@;
        let ghost s = self.cities@;
        let v = *city_index;
        let last = self.cities[self.cities.len() - 1];
        proof {
            assert(last == s.last());
            assert(s[0] == 0usize);
            lemma_closed_cost_extend(m, s, v);
            lemma_path_cost_nonneg(m, s);
            lemma_closed_cost_upper(m, s);
            assert(in_range(m.len() as int, s.push(v)));
            lemma_closed_cost_upper(m, s.push(v));
            lemma_path_cost_nonneg(m, s.push(v));
        }
        let a = distance_matrix.dist(last, v);
        let b = distance_matrix.dist(v, 0);
        let c = distance_matrix.dist(last, 0);
        assert(self.cost >= c) by {
            assert(closed_cost(m, s) == path_cost(m, s) + m[last as int][0]);
        }
        let t = self.cost + a + b;
        self.cost = t - c;
        self.cities.push(v);
        proof {
            assert(self.cities@ =~= s.push(v));
            assert(self.cities@.no_duplicates());
        }
    }

    /// Removes the last visited city, restoring the sequence and the cached
    /// cost to their values before the matching `add_city`.  At the root the
    /// call is a no-op that keeps city 0 and the zero cost.
    pub fn remove_last_city(&mut self, distance_matrix: &DistanceMatrix)
        requires
            distance_matrix.wf(),
            old(self).wf(distance_matrix@),
        ensures
            old(self).cities@.len() == 1 ==> final(self).cities@ =~= old(self).cities@
                && final(self).cost == 0,
            old(self).cities@.len() > 1 ==> final(self).cities@ =~= old(self).cities@.drop_last(),
            final(self).cost == closed_cost(distance_matrix@, final(self).cities@),
            final(self).wf(distance_matrix@),
    {
        let ghost m = distance_matrix@;
        let ghost s = self.cities@;
        if self.cities.len() == 1 {
            proof {
                assert(s =~= seq![0usize]);
                lemma_root_closed_cost(m);
            }
            self.cost = 0;
            return;
        }
        let ghost d = s.drop_last();
        let v = self.cities[self.cities.len() - 1];
        let u = self.cities[self.cities.len() - 2];
        proof {
            assert(v == s.last());
            assert(u == d.last());
            assert(d[0] == s[0]);
            assert(s[0] == 0usize);
            assert(d.push(v) =~= s);
            lemma_closed_cost_extend(m, d, v);
            assert(in_range(m.len() as int, d));
            lemma_path_cost_nonneg(m, d);
            lemma_closed_cost_upper(m, d);
            assert(closed_cost(m, s) == closed_cost(m, d) + m[u as int][v as int]
                + m[v as int][0] - m[u as int][0]);
        }
        let a = distance_matrix.dist(u, v);
        let b = distance_matrix.dist(v, 0);
        let c = distance_matrix.dist(u, 0);
        assert(self.cost >= a + b) by {
            assert(closed_cost(m, d) >= 0) by {
                lemma_path_cost_nonneg(m, d);
            }
        }
        self.cost = self.cost - a - b + c;
        self.cities.pop();
        proof {
            assert(self.cities@ =~= d);
            assert(self.cities@.no_duplicates()) by {
                assert(forall|x: int| 0 <= x < d.len() ==> d[x] == s[x]);
            }
        }
    }
}

/// Retract is the exact inverse of extend: appending any city to a tour and
/// then dropping the last entry restores the city sequence, and with it the
/// recomputed closed-cycle cost, exactly.  Together with the `add_city` and
/// `remove_last_city` contracts, which pin the new sequence and equate the
/// cached cost with the recomputed cost, this says an extend/retract pair
/// restores a well-formed tour bit for bit.
pub proof fn lemma_retract_inverse(m: Seq<Seq<u64>>, s: Seq<usize>, v: usize)
    requires
        s.len() >= 1,
    ensures
        s.push(v).drop_last() =~= s,
        closed_cost(m, s.push(v).drop_last()) == closed_cost(m, s),
{
    assert(s.push(v).drop_last() =~= s);
}

} // verus!

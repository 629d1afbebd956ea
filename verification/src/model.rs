//! Mathematical model of the search: valid distance matrices, partial and
//! complete tours, the closed-cycle cost, and the lemmas the engines rely on.

use vstd::prelude::*;
use vstd::arithmetic::power::pow;
use vstd::arithmetic::power::lemma_pow_positive;

verus! {

/// Largest admissible edge weight.  Together with `MAX_CITIES` it keeps every
/// closed-cycle cost well below `u64::MAX`, so cost arithmetic cannot wrap.
pub const MAX_EDGE: u64 = 0xFFFF_FFFF;

/// Largest admissible number of cities.
pub const MAX_CITIES: usize = 0xFFFF;

/// A valid distance matrix: square, at least one city, zero diagonal,
/// symmetric, and every entry bounded by `MAX_EDGE`.
pub open spec fn valid_matrix(m: Seq<Seq<u64>>) -> bool {
    &&& 1 <= m.len() <= MAX_CITIES
    &&& forall|i: int| 0 <= i < m.len() ==> (#[trigger] m[i]).len() == m.len()
    &&& forall|i: int| 0 <= i < m.len() ==> #[trigger] m[i][i] == 0
    &&& forall|i: int, j: int|
        0 <= i < m.len() && 0 <= j < m.len() ==> #[trigger] m[i][j] == m[j][i]
    &&& forall|i: int, j: int|
        0 <= i < m.len() && 0 <= j < m.len() ==> #[trigger] m[i][j] <= MAX_EDGE
}

/// The matrix satisfies the triangle inequality.  Closed-cycle pruning is an
/// exact bound only under this assumption; without it the bound is a
/// heuristic and the engines promise validity but not minimality.
pub open spec fn triangle_inequality(m: Seq<Seq<u64>>) -> bool {
    forall|i: int, j: int, k: int|
        0 <= i < m.len() && 0 <= j < m.len() && 0 <= k < m.len()
            ==> m[i][k] <= #[trigger] (m[i][j] + m[j][k])
}

/// Cost of the open path along `s` (sum of the edges between consecutive
/// visited cities).
pub open spec fn path_cost(m: Seq<Seq<u64>>, s: Seq<usize>) -> int
    decreases s.len(),
{
    if s.len() <= 1 {
        0
    } else {
        path_cost(m, s.drop_last()) + m[s[s.len() - 2] as int][s[s.len() - 1] as int]
    }
}

/// Cost of the closed cycle through `s`: the open path plus the edge from the
/// last visited city back to the first.
pub open spec fn closed_cost(m: Seq<Seq<u64>>, s: Seq<usize>) -> int {
    if s.len() == 0 {
        0
    } else {
        path_cost(m, s) + m[s.last() as int][s[0] as int]
    }
}

/// Every entry of `s` is a city index below `n`.
pub open spec fn in_range(n: int, s: Seq<usize>) -> bool {
    forall|i: int| 0 <= i < s.len() ==> (#[trigger] s[i]) < n
}

/// A partial tour: starts at city 0, visits no city twice, stays in range.
pub open spec fn valid_partial(m: Seq<Seq<u64>>, s: Seq<usize>) -> bool {
    &&& 1 <= s.len() <= m.len()
    &&& s[0] == 0
    &&& s.no_duplicates()
    &&& in_range(m.len() as int, s)
}

/// A complete tour: a partial tour that visits every city exactly once.
pub open spec fn complete_tour(m: Seq<Seq<u64>>, s: Seq<usize>) -> bool {
    valid_partial(m, s) && s.len() == m.len()
}

pub proof fn lemma_path_cost_nonneg(m: Seq<Seq<u64>>, s: Seq<usize>)
    ensures
        path_cost(m, s) >= 0,
    decreases s.len(),
{
    if s.len() > 1 {
        lemma_path_cost_nonneg(m, s.drop_last());
    }
}

pub proof fn lemma_path_cost_upper(m: Seq<Seq<u64>>, s: Seq<usize>)
    requires
        valid_matrix(m),
        in_range(m.len() as int, s),
    ensures
        path_cost(m, s) <= if s.len() == 0 { 0int } else { (s.len() - 1) * (MAX_EDGE as int) },
    decreases s.len(),
{
    if s.len() > 1 {
        let d = s.drop_last();
        assert(in_range(m.len() as int, d));
        lemma_path_cost_upper(m, d);
        assert(m[s[s.len() - 2] as int][s[s.len() - 1] as int] <= MAX_EDGE);
    }
}

/// The closed-cycle cost of an in-range sequence is at most one maximal edge
/// per visited city, so it always fits comfortably in a `u64`.
pub proof fn lemma_closed_cost_upper(m: Seq<Seq<u64>>, s: Seq<usize>)
    requires
        valid_matrix(m),
        in_range(m.len() as int, s),
    ensures
        closed_cost(m, s) <= s.len() * (MAX_EDGE as int),
{
    lemma_path_cost_upper(m, s);
    if s.len() >= 1 {
        assert(m[s.last() as int][s[0] as int] <= MAX_EDGE);
    }
}

/// Appending city `v` changes the closed-cycle cost by the two new edges
/// minus the replaced return edge.  This is the exact incremental update the
/// executable tour operations perform.
pub proof fn lemma_closed_cost_extend(m: Seq<Seq<u64>>, s: Seq<usize>, v: usize)
    requires
        s.len() >= 1,
    ensures
        closed_cost(m, s.push(v)) == closed_cost(m, s) + m[s.last() as int][v as int]
            + m[v as int][s[0] as int] - m[s.last() as int][s[0] as int],
{
    let e = s.push(v);
    assert(e.drop_last() =~= s);
    assert(e[e.len() - 2] == s.last());
    assert(e[e.len() - 1] == v);
    assert(path_cost(m, e) == path_cost(m, s) + m[s.last() as int][v as int]);
}

/// Under the triangle inequality, extending a partial tour never lowers its
/// closed-cycle cost.
pub proof fn lemma_extend_monotone(m: Seq<Seq<u64>>, s: Seq<usize>, v: usize)
    requires
        valid_matrix(m),
        triangle_inequality(m),
        s.len() >= 1,
        in_range(m.len() as int, s),
        v < m.len(),
    ensures
        closed_cost(m, s.push(v)) >= closed_cost(m, s),
{
    lemma_closed_cost_extend(m, s, v);
    assert(m[s.last() as int][s[0] as int] <= m[s.last() as int][v as int] + m[v as int][s[0] as int]);
}

/// Under the triangle inequality, the closed-cycle cost of a prefix bounds
/// the closed-cycle cost of any of its extensions from below.  This is what
/// makes pruning against the incumbent's cost sound.
pub proof fn lemma_prefix_cost_le(m: Seq<Seq<u64>>, p: Seq<usize>, t: Seq<usize>)
    requires
        valid_matrix(m),
        triangle_inequality(m),
        p.len() >= 1,
        p.is_prefix_of(t),
        in_range(m.len() as int, t),
    ensures
        closed_cost(m, p) <= closed_cost(m, t),
    decreases t.len() - p.len(),
{
    assert(forall|i: int| 0 <= i < p.len() ==> p[i] == t.subrange(0, p.len() as int)[i]);
    assert(in_range(m.len() as int, p));
    if p.len() == t.len() {
        assert(p =~= t);
    } else {
        let v = t[p.len() as int];
        let q = t.subrange(0, p.len() as int + 1);
        assert(q =~= p.push(v));
        lemma_extend_monotone(m, p, v);
        assert(q.is_prefix_of(t));
        lemma_prefix_cost_le(m, q, t);
    }
}

/// Some complete tour always exists: visiting the cities in index order.
pub proof fn lemma_complete_tour_exists(m: Seq<Seq<u64>>)
    requires
        valid_matrix(m),
    ensures
        exists|t: Seq<usize>| complete_tour(m, t),
{
    let t = Seq::<usize>::new(m.len(), |i: int| i as usize);
    assert forall|i: int, j: int| 0 <= i < t.len() && 0 <= j < t.len() && i != j implies t[i]
        != t[j] by {
        assert(t[i] == i as usize);
        assert(t[j] == j as usize);
    }
    assert(t.no_duplicates());
    assert(t[0] == 0);
    assert(complete_tour(m, t));
}

/// A complete tour is a permutation of the cities: every city below the
/// matrix size is visited (exactly once, since the entries are distinct).
pub proof fn lemma_complete_tour_contains_all(m: Seq<Seq<u64>>, t: Seq<usize>, v: usize)
    requires
        complete_tour(m, t),
        v < m.len(),
    ensures
        t.contains(v),
{
    broadcast use vstd::set::group_set_axioms;

    if !t.contains(v) {
        let n = m.len() as int;
        let si = Seq::new(t.len(), |i: int| t[i] as int);
        assert forall|i: int, j: int|
            0 <= i < si.len() && 0 <= j < si.len() && i != j implies si[i] != si[j] by {
            assert(t[i] != t[j]);
        }
        assert(si.no_duplicates());
        si.unique_seq_to_set();
        let s = si.to_set();
        let r = vstd::set_lib::set_int_range(0, n);
        vstd::set_lib::lemma_int_range(0, n);
        let r2 = r.remove(v as int);
        assert forall|x: int| s.contains(x) implies r2.contains(x) by {
            let i = choose|i: int| 0 <= i < si.len() && si[i] == x;
            assert(t[i] < m.len());
            assert(t[i] != v);
        }
        assert(s.subset_of(r2));
        vstd::set_lib::lemma_len_subset(s, r2);
        assert(r.contains(v as int));
        assert(r2.len() == n - 1);
        assert(s.len() == n);
        assert(false);
    }
}

/// Any two cost-minimal complete tours have equal cost.  The serial and
/// parallel engines each return a minimal tour on matrices with the triangle
/// inequality, so their results agree on cost.
pub proof fn lemma_optimal_cost_agree(m: Seq<Seq<u64>>, a: Seq<usize>, b: Seq<usize>)
    requires
        complete_tour(m, a),
        complete_tour(m, b),
        forall|t: Seq<usize>| complete_tour(m, t) ==> closed_cost(m, a) <= closed_cost(m, t),
        forall|t: Seq<usize>| complete_tour(m, t) ==> closed_cost(m, b) <= closed_cost(m, t),
    ensures
        closed_cost(m, a) == closed_cost(m, b),
{
    assert(closed_cost(m, a) <= closed_cost(m, b));
    assert(closed_cost(m, b) <= closed_cost(m, a));
}

/// The closed cycle of the root tour (city 0 alone) is the zero-length
/// round trip, so its cost is zero.
pub proof fn lemma_root_closed_cost(m: Seq<Seq<u64>>)
    requires
        valid_matrix(m),
    ensures
        closed_cost(m, seq![0usize]) == 0,
{
    let s = seq![0usize];
    assert(path_cost(m, s) == 0);
    assert(m[0][0] == 0);
    assert(s.last() == 0usize && s[0] == 0usize);
}

/// Potential of one partial tour for termination measures: the number of
/// descendants it may still spawn, overapproximated by a power of `n + 1`.
pub open spec fn tour_measure(n: int, s: Seq<usize>) -> int {
    pow(n + 1, (n - s.len()) as nat)
}

pub proof fn lemma_tour_measure_pos(n: int, s: Seq<usize>)
    requires
        n >= 0,
    ensures
        tour_measure(n, s) >= 1,
{
    lemma_pow_positive(n + 1, (n - s.len()) as nat);
}

/// One level down the tree, the potential shrinks by a factor of `n + 1`.
pub proof fn lemma_tour_measure_child(n: int, s: Seq<usize>, v: usize)
    requires
        0 <= s.len() < n,
    ensures
        tour_measure(n, s) == (n + 1) * tour_measure(n, s.push(v)),
{
    let e = (n - s.len() - 1) as nat;
    assert((n - s.len()) as nat == e + 1);
    vstd::arithmetic::power::lemma_pow_adds(n + 1, 1, e);
    vstd::arithmetic::power::lemma_pow1(n + 1);
    assert(pow(n + 1, e + 1) == (n + 1) * pow(n + 1, e));
}

} // verus!

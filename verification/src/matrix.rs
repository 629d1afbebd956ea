//! The distance matrix: an `ndarray` two-dimensional array of integer edge
//! weights, validated on construction and read through trusted accessors.

use vstd::prelude::*;
use crate::model::{valid_matrix, MAX_CITIES, MAX_EDGE};

verus! {

/// The cell store of a distance matrix.  It wraps an `ndarray` array whose
/// generics Verus cannot declare (they carry an `ndarray` trait bound), so
/// the whole wrapper is opaque and is read only through the trusted
/// accessors below, whose contracts speak of `array_entries`.
#[verifier::external_body]
pub struct Cells {
    arr: ndarray::Array2<u64>,
}

/// The rows of the wrapped two-dimensional `ndarray` array, as a sequence of
/// rows.
pub uninterp spec fn array_entries(a: Cells) -> Seq<Seq<u64>>;

/// The rows of a vector of row vectors, as a sequence of rows.
pub open spec fn rows_view(rows: Seq<Vec<u64>>) -> Seq<Seq<u64>> {
    rows.map_values(|r: Vec<u64>| r@)
}

/// Relies on `ndarray::Array2::from_shape_vec`: an `(n, n)` array built from
/// a vector in standard (row-major) order holds `flat[i * n + j]` at `[i, j]`;
/// the call succeeds whenever the vector holds exactly `n * n` elements.
#[verifier::external_body]
fn array_from_rows(rows: &Vec<Vec<u64>>) -> (r: Cells)
    requires
        rows@.len() >= 1,
        forall|i: int| 0 <= i < rows@.len() ==> (#[trigger] rows@[i])@.len() == rows@.len(),
    ensures
        array_entries(r) =~~= rows_view(rows@),
{
    let n = rows.len();
    let flat: Vec<u64> = rows.iter().flat_map(|row| row.iter().copied()).collect();
    Cells { arr: ndarray::Array2::from_shape_vec((n, n), flat).unwrap() }
}

/// Relies on `ndarray` indexing: `a[[i, j]]` is the element in row `i`,
/// column `j`, and panics only when an index is out of bounds.
#[verifier::external_body]
fn array_get(a: &Cells, i: usize, j: usize) -> (r: u64)
    requires
        i < array_entries(*a).len(),
        j < array_entries(*a)[i as int].len(),
    ensures
        r == array_entries(*a)[i as int][j as int],
{
    a.arr[[i, j]]
}

/// A validated symmetric distance matrix.  Its view is the sequence of rows;
/// `wf` says the view is a valid matrix and that `n` caches its size.
pub struct DistanceMatrix {
    pub n: usize,
    pub cells: Cells,
}

impl View for DistanceMatrix {
    type V = Seq<Seq<u64>>;

    open spec fn view(&self) -> Seq<Seq<u64>> {
        array_entries(self.cells)
    }
}

impl DistanceMatrix {
    pub open spec fn wf(&self) -> bool {
        &&& valid_matrix(self@)
        &&& self.n == self@.len()
    }

    /// Validates `rows` and builds the matrix.  Returns `None` exactly when
    /// `rows` is not a valid distance matrix: not square, empty, too large,
    /// an entry over `MAX_EDGE`, a non-zero diagonal entry, or an asymmetry.
    pub fn new(rows: Vec<Vec<u64>>) -> (r: Option<DistanceMatrix>)
        ensures
            r is Some <==> valid_matrix(rows_view(rows@)),
            r matches Some(mm) ==> mm.wf() && mm@ =~~= rows_view(rows@),
    {
        let rv = Ghost(rows_view(rows@));
        let n = rows.len();
        if n < 1 || n > MAX_CITIES {
            return None;
        }
        let mut i: usize = 0;
        while i < n
            invariant
                n == rows@.len(),
                i <= n,
                forall|a: int| 0 <= a < i ==> (#[trigger] rows@[a])@.len() == n,
            decreases n - i,
        {
            if rows[i].len() != n {
                proof {
                    assert(rows_view(rows@)[i as int] == rows@[i as int]@);
                }
                return None;
            }
            i = i + 1;
        }
        i = 0;
        while i < n
            invariant
                rv@ == rows_view(rows@),
                n == rows@.len(),
                1 <= n <= MAX_CITIES,
                i <= n,
                forall|a: int| 0 <= a < n ==> (#[trigger] rows@[a])@.len() == n,
                forall|a: int| 0 <= a < i ==> #[trigger] rv@[a][a] == 0,
                forall|a: int, b: int|
                    0 <= a < i && 0 <= b < n ==> #[trigger] rv@[a][b] <= MAX_EDGE,
                forall|a: int, b: int|
                    0 <= a < i && 0 <= b < n ==> #[trigger] rv@[a][b] == rv@[b][a],
            decreases n - i,
        {
            if rows[i][i] != 0 {
                proof {
                    assert(rv@[i as int] == rows@[i as int]@);
                }
                return None;
            }
            let mut j: usize = 0;
            while j < n
                invariant
                    rv@ == rows_view(rows@),
                    n == rows@.len(),
                    i < n,
                    j <= n,
                    forall|a: int| 0 <= a < n ==> (#[trigger] rows@[a])@.len() == n,
                    forall|b: int| 0 <= b < j ==> #[trigger] rv@[i as int][b] <= MAX_EDGE,
                    forall|b: int| 0 <= b < j ==> #[trigger] rv@[i as int][b] == rv@[b][i as int],
                decreases n - j,
            {
                if rows[i][j] > MAX_EDGE {
                    proof {
                        assert(rv@[i as int] == rows@[i as int]@);
                    }
                    return None;
                }
                if rows[i][j] != rows[j][i] {
                    proof {
                        assert(rv@[i as int] == rows@[i as int]@);
                        assert(rv@[j as int] == rows@[j as int]@);
                    }
                    return None;
                }
                j = j + 1;
            }
            i = i + 1;
        }
        assert(valid_matrix(rv@));
        let cells = array_from_rows(&rows);
        Some(DistanceMatrix { n, cells })
    }

    /// The number of cities.
    pub fn size(&self) -> (r: usize)
        requires
            self.wf(),
        ensures
            r == self@.len(),
    {
        self.n
    }

    /// The distance between cities `i` and `j`.
    pub fn dist(&self, i: usize, j: usize) -> (r: u64)
        requires
            self.wf(),
            i < self@.len(),
            j < self@.len(),
        ensures
            r == self@[i as int][j as int],
            r <= MAX_EDGE,
    {
        array_get(&self.cells, i, j)
    }
}

} // verus!

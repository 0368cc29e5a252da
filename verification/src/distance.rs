use vstd::prelude::*;

verus! {

/// The rows of `vec` as sequences.
pub open spec fn rows_of(vec: Vec<Vec<u32>>) -> Seq<Seq<u32>> {
    Seq::new(vec@.len(), |i: int| vec@[i]@)
}

/// A table of pairwise distances between customers, row by row.
pub struct DistanceMatrix(Vec<Vec<u32>>);

impl View for DistanceMatrix {
    type V = Seq<Seq<u32>>;

    closed spec fn view(&self) -> Seq<Seq<u32>> {
        rows_of(self.0)
    }
}

impl DistanceMatrix {
    /// The number of rows.
    pub open spec fn dim(&self) -> nat {
        self@.len()
    }

    /// Every row is as long as the table has rows.
    pub open spec fn is_square(&self) -> bool {
        forall|i: int| 0 <= i < self@.len() ==> (#[trigger] self@[i]).len() == self@.len()
    }

    /// The distance from `a` to `b` is the distance from `b` to `a`.
    pub open spec fn is_symmetric(&self) -> bool {
        forall|i: int, j: int|
            0 <= i < self@.len() && 0 <= j < self@.len() ==> #[trigger] self@[i][j] == self@[j][i]
    }

    /// Every customer is at distance zero from itself.
    pub open spec fn has_zero_diagonal(&self) -> bool {
        forall|i: int| 0 <= i < self@.len() ==> #[trigger] self@[i][i] == 0
    }

    /// A square, symmetric table with a zero diagonal.
    pub open spec fn wf(&self) -> bool {
        &&& self.is_square()
        &&& self.is_symmetric()
        &&& self.has_zero_diagonal()
    }

    /// The distance from `a` to `b` as a mathematical integer.
    pub open spec fn spec_dist(&self, a: int, b: int) -> int {
        self@[a][b] as int
    }

    /// The table with the rows `vec`.
    pub fn new(vec: Vec<Vec<u32>>) -> (m: Self)
        ensures
            m@ == rows_of(vec),
    {
        DistanceMatrix(vec)
    }

    /// Number of rows of the table.
    pub fn len(&self) -> (n: usize)
        ensures
            n == self.dim(),
    {
        self.0.len()
    }

    /// The distance from `a` to `b`.
    pub fn dist(&self, a: usize, b: usize) -> (d: u32)
        requires
            a < self@.len(),
            b < self@[a as int].len(),
        ensures
            d == self.spec_dist(a as int, b as int),
    {
        self.0[a][b]
    }
}

} // verus!

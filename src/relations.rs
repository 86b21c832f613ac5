use vstd::prelude::*;

verus! {

/// Largest population a relationship graph may hold; together with
/// `MAX_AFFINITY` it keeps every happiness sum inside `i64`.
pub const MAX_GUESTS: usize = 1048576;

/// Largest magnitude of a single affinity value.
pub const MAX_AFFINITY: i64 = 4194304;

/// The values of a matrix held as rows of vectors.
pub open spec fn matrix_view(m: &Vec<Vec<i64>>) -> Seq<Seq<i64>> {
    m@.map_values(|row: Vec<i64>| row@)
}

/// A square matrix with every entry within the affinity bound.
pub open spec fn is_bounded_square(m: Seq<Seq<i64>>) -> bool {
    &&& m.len() <= MAX_GUESTS
    &&& forall|i: int| 0 <= i < m.len() ==> #[trigger] m[i].len() == m.len()
    &&& forall|i: int, j: int|
        0 <= i < m.len() && 0 <= j < m.len() ==> -MAX_AFFINITY <= #[trigger] m[i][j] <= MAX_AFFINITY
}

pub open spec fn is_symmetric(m: Seq<Seq<i64>>) -> bool {
    forall|i: int, j: int| 0 <= i < m.len() && 0 <= j < m.len() ==> #[trigger] m[i][j] == m[j][i]
}

pub open spec fn has_zero_diagonal(m: Seq<Seq<i64>>) -> bool {
    forall|i: int| 0 <= i < m.len() ==> #[trigger] m[i][i] == 0
}

/// A complete, undirected graph of signed affinities between all guests.
/// Guests are indexed `0..len()`.
#[derive(Debug, Clone, Hash, PartialEq, Eq)]
pub struct GuestRelations {
    relationships: Vec<Vec<i64>>,
}

impl View for GuestRelations {
    type V = Seq<Seq<i64>>;

    closed spec fn view(&self) -> Seq<Seq<i64>> {
        matrix_view(&self.relationships)
    }
}

impl GuestRelations {
    /// The matrix is square and its entries are bounded.
    pub open spec fn wf(&self) -> bool {
        is_bounded_square(self@)
    }

    pub fn new(relationships: Vec<Vec<i64>>) -> (r: Self)
        requires
            is_bounded_square(matrix_view(&relationships)),
        ensures
            r@ == matrix_view(&relationships),
            r.wf(),
    {
        Self::new_unchecked(relationships)
    }

    /// Builds the graph without looking at the matrix.
    pub fn new_unchecked(relationships: Vec<Vec<i64>>) -> (r: Self)
        ensures
            r@ == matrix_view(&relationships),
    {
        Self { relationships }
    }

    /// Builds the graph if the matrix is a bounded square, symmetric and
    /// with zeros along its diagonal.
    pub fn try_new(relationships: Vec<Vec<i64>>) -> (r: Option<Self>)
        ensures
            r.is_some() <==> {
                let m = matrix_view(&relationships);
                is_bounded_square(m) && is_symmetric(m) && has_zero_diagonal(m)
            },
            r.is_some() ==> r.unwrap()@ == matrix_view(&relationships) && r.unwrap().wf(),
    {
        let ghost m = matrix_view(&relationships);
        let n = relationships.len();
        if n > MAX_GUESTS {
            return None;
        }
        let mut i: usize = 0;
        while i < n
            invariant
                n == relationships.len() == m.len(),
                m == matrix_view(&relationships),
                i <= n,
                forall|a: int| 0 <= a < i ==> #[trigger] m[a].len() == n,
            decreases n - i,
        {
            if relationships[i].len() != n {
                assert(m[i as int].len() != n);
                return None;
            }
            i = i + 1;
        }
        let mut i: usize = 0;
        while i < n
            invariant
                n == relationships.len() == m.len(),
                m == matrix_view(&relationships),
                i <= n,
                forall|a: int| 0 <= a < n ==> #[trigger] m[a].len() == n,
                forall|a: int, b: int|
                    0 <= a < i && 0 <= b < n ==> -MAX_AFFINITY <= #[trigger] m[a][b] <= MAX_AFFINITY
                        && m[a][b] == m[b][a],
                forall|a: int| 0 <= a < i ==> #[trigger] m[a][a] == 0,
            decreases n - i,
        {
            let row = &relationships[i];
            assert(row@ == m[i as int]);
            let mut j: usize = 0;
            while j < n
                invariant
                    n == relationships.len() == m.len(),
                    m == matrix_view(&relationships),
                    i < n,
                    j <= n,
                    row@ == m[i as int],
                    forall|a: int| 0 <= a < n ==> #[trigger] m[a].len() == n,
                    forall|b: int|
                        0 <= b < j ==> -MAX_AFFINITY <= #[trigger] m[i as int][b] <= MAX_AFFINITY
                            && m[i as int][b] == m[b][i as int],
                decreases n - j,
            {
                let v = row[j];
                assert(m[j as int].len() == n);
                if v < -MAX_AFFINITY || v > MAX_AFFINITY || v != relationships[j][i] {
                    return None;
                }
                j = j + 1;
            }
            if row[i] != 0 {
                return None;
            }
            i = i + 1;
        }
        Some(Self { relationships })
    }

    /// The degree of friendship between two guests: positive is good,
    /// negative is bad, zero is unmet or self.
    pub fn relationship(&self, guest1: usize, guest2: usize) -> (r: i64)
        requires
            self.wf(),
            guest1 < self@.len(),
            guest2 < self@.len(),
        ensures
            r == self@[guest1 as int][guest2 as int],
    {
        assert(self@[guest1 as int].len() == self@.len());
        self.relationships[guest1][guest2]
    }

    /// The number of guests.
    pub fn len(&self) -> (r: usize)
        ensures
            r == self@.len(),
    {
        self.relationships.len()
    }

    /// The rows of the matrix, in guest order.
    pub fn iter(&self) -> (r: Vec<Vec<i64>>)
        ensures
            matrix_view(&r) == self@,
    {
        let mut out: Vec<Vec<i64>> = Vec::new();
        let mut i: usize = 0;
        while i < self.relationships.len()
            invariant
                i <= self.relationships.len(),
                out@.len() == i,
                forall|a: int| 0 <= a < i ==> #[trigger] out@[a]@ == self@[a],
            decreases self.relationships.len() - i,
        {
            let row = &self.relationships[i];
            let mut copy: Vec<i64> = Vec::new();
            let mut j: usize = 0;
            while j < row.len()
                invariant
                    j <= row.len(),
                    copy@ == row@.subrange(0, j as int),
                decreases row.len() - j,
            {
                copy.push(row[j]);
                j = j + 1;
            }
            assert(copy@ == row@);
            out.push(copy);
            i = i + 1;
        }
        assert(matrix_view(&out) =~= self@);
        out
    }
}

/// A problem instance: the relationship graph and the number of tables.
#[derive(Debug, Clone, Hash, PartialEq, Eq)]
pub struct Problem {
    pub relations: GuestRelations,
    pub n_tables: usize,
}

impl Problem {
    /// The graph is well formed and the tables split the guests evenly.
    pub open spec fn wf(&self) -> bool {
        &&& self.relations.wf()
        &&& self.n_tables > 0
        &&& self.relations@.len() % (self.n_tables as nat) == 0
    }
}

} // verus!

//! A rectangular table of values, the shape model that every layer works on.

use vstd::prelude::*;

verus! {

/// The rows of a `Vec<Vec<T>>`, each taken by its view.
pub open spec fn rows_view<T>(v: Seq<Vec<T>>) -> Seq<Seq<T>> {
    v.map_values(|r: Vec<T>| r@)
}

/// `s` has `rows` rows of `cols` entries each.
pub open spec fn is_table<T>(s: Seq<Seq<T>>, rows: nat, cols: nat) -> bool {
    &&& s.len() == rows
    &&& forall|i: int| 0 <= i < rows ==> #[trigger] s[i].len() == cols
}

/// Entry `j` of `row` when the row is stretched to a wider one: a row of one entry
/// stands for that entry in every column.
pub open spec fn bcast<T>(row: Seq<T>, j: int) -> T {
    if row.len() == 1 {
        row[0]
    } else {
        row[j]
    }
}

/// Reading a stretched row: a one-entry row gives its entry at every column; any other
/// row gives its own entry at that column.
pub proof fn lemma_bcast_reads<T>(row: Seq<T>, j: int)
    ensures
        row.len() == 1 ==> bcast(row, j) == row[0],
        row.len() != 1 ==> bcast(row, j) == row[j],
{
}

/// Rows of lengths `a` and `b` can be combined entry by entry, stretching a
/// one-entry row to the other's length.
pub open spec fn bcast_compatible(a: nat, b: nat) -> bool {
    a == b || a == 1 || b == 1
}

/// Length of the combination of rows of lengths `a` and `b`.
pub open spec fn bcast_len(a: nat, b: nat) -> nat {
    if a == b {
        a
    } else if a == 1 {
        b
    } else {
        a
    }
}

/// A `rows` × `cols` table stored row by row.
#[derive(Debug)]
pub struct Matrix<T> {
    rows: usize,
    cols: usize,
    data: Vec<Vec<T>>,
}

impl<T> View for Matrix<T> {
    type V = Seq<Seq<T>>;

    closed spec fn view(&self) -> Seq<Seq<T>> {
        rows_view(self.data@)
    }
}

impl<T> Matrix<T> {
    #[verifier::type_invariant]
    spec fn well_formed(self) -> bool {
        is_table(rows_view(self.data@), self.rows as nat, self.cols as nat)
    }

    /// Number of rows.
    pub closed spec fn nrows(&self) -> nat {
        self.rows as nat
    }

    /// Number of columns (kept even when there are no rows).
    pub closed spec fn ncols(&self) -> nat {
        self.cols as nat
    }

    /// Builds a matrix from rows that are known to share the length `cols`.
    pub fn new(data: Vec<Vec<T>>, cols: usize) -> (m: Matrix<T>)
        requires
            is_table(rows_view(data@), data@.len(), cols as nat),
        ensures
            m@ == rows_view(data@),
            m.nrows() == data@.len(),
            m.ncols() == cols,
    {
        Matrix { rows: data.len(), cols, data }
    }

    /// Builds a matrix from rows, or `None` when some row is not `cols` long.
    pub fn from_rows(data: Vec<Vec<T>>, cols: usize) -> (m: Option<Matrix<T>>)
        ensures
            m is Some <==> is_table(rows_view(data@), data@.len(), cols as nat),
            m matches Some(m) ==> m@ == rows_view(data@) && m.nrows() == data@.len()
                && m.ncols() == cols,
    {
        let n = data.len();
        let mut i: usize = 0;
        while i < n
            invariant
                n == data@.len(),
                0 <= i <= n,
                forall|k: int| 0 <= k < i ==> #[trigger] data@[k]@.len() == cols,
            decreases n - i,
        {
            if data[i].len() != cols {
                assert(rows_view(data@)[i as int].len() != cols);
                return None;
            }
            i = i + 1;
        }
        Some(Matrix { rows: n, cols, data })
    }

    /// Number of rows.
    pub fn rows(&self) -> (r: usize)
        ensures
            r == self.nrows(),
            is_table(self@, self.nrows(), self.ncols()),
    {
        proof {
            use_type_invariant(self);
        }
        self.rows
    }

    /// Number of columns.
    pub fn cols(&self) -> (c: usize)
        ensures
            c == self.ncols(),
            is_table(self@, self.nrows(), self.ncols()),
    {
        proof {
            use_type_invariant(self);
        }
        self.cols
    }

    /// Row `i`.
    pub fn row(&self, i: usize) -> (r: &Vec<T>)
        requires
            i < self.nrows(),
        ensures
            r@ == self@[i as int],
            r@.len() == self.ncols(),
    {
        proof {
            use_type_invariant(self);
            assert(rows_view(self.data@)[i as int] == self.data@[i as int]@);
        }
        &self.data[i]
    }

    /// The rows, handed back.
    pub fn into_rows(self) -> (v: Vec<Vec<T>>)
        ensures
            rows_view(v@) == self@,
            is_table(self@, self.nrows(), self.ncols()),
    {
        proof {
            use_type_invariant(&self);
        }
        self.data
    }
}

impl<T: Copy> Matrix<T> {
    /// A `rows` × `cols` matrix with every entry `value`.
    pub fn filled(rows: usize, cols: usize, value: T) -> (m: Matrix<T>)
        ensures
            m.nrows() == rows,
            m.ncols() == cols,
            is_table(m@, rows as nat, cols as nat),
            forall|i: int, j: int| 0 <= i < rows && 0 <= j < cols ==> #[trigger] m@[i][j] == value,
    {
        let mut data: Vec<Vec<T>> = Vec::new();
        let mut i: usize = 0;
        while i < rows
            invariant
                0 <= i <= rows,
                data@.len() == i,
                forall|k: int| 0 <= k < i ==> #[trigger] data@[k]@ == Seq::new(cols as nat, |j: int| value),
            decreases rows - i,
        {
            let mut r: Vec<T> = Vec::new();
            let mut j: usize = 0;
            while j < cols
                invariant
                    0 <= j <= cols,
                    r@ == Seq::new(j as nat, |c: int| value),
                decreases cols - j,
            {
                r.push(value);
                j = j + 1;
            }
            data.push(r);
            i = i + 1;
        }
        Matrix { rows, cols, data }
    }

    /// Entry at row `i`, column `j`.
    pub fn get(&self, i: usize, j: usize) -> (x: T)
        requires
            i < self.nrows(),
            j < self.ncols(),
        ensures
            x == self@[i as int][j as int],
    {
        proof {
            use_type_invariant(self);
            assert(rows_view(self.data@)[i as int] == self.data@[i as int]@);
        }
        self.data[i][j]
    }
}

impl<T: Copy> Matrix<T> {
    /// Combines `self` and `other` entry by entry with `f`, row `i` with row `i`,
    /// stretching a one-column side across the other's columns.
    pub fn zip_broadcast<F: Fn(T, T) -> T>(&self, other: &Matrix<T>, f: &F) -> (r: Matrix<T>)
        requires
            self.nrows() == other.nrows(),
            bcast_compatible(self.ncols(), other.ncols()),
            forall|a: T, b: T| f.requires((a, b)),
        ensures
            r.nrows() == self.nrows(),
            r.ncols() == bcast_len(self.ncols(), other.ncols()),
            is_table(r@, r.nrows(), r.ncols()),
            forall|i: int, j: int|
                0 <= i < r.nrows() && 0 <= j < r.ncols() ==> f.ensures(
                    (bcast(self@[i], j), bcast(other@[i], j)),
                    #[trigger] r@[i][j],
                ),
    {
        let n = self.rows();
        let a = self.cols();
        let b = other.cols();
        let c = if a == b {
            a
        } else if a == 1 {
            b
        } else {
            a
        };
        let mut data: Vec<Vec<T>> = Vec::new();
        let mut i: usize = 0;
        while i < n
            invariant
                n == self.nrows(),
                n == other.nrows(),
                a == self.ncols(),
                b == other.ncols(),
                bcast_compatible(a as nat, b as nat),
                c == bcast_len(a as nat, b as nat),
                is_table(self@, n as nat, a as nat),
                is_table(other@, n as nat, b as nat),
                forall|x: T, y: T| f.requires((x, y)),
                0 <= i <= n,
                data@.len() == i,
                forall|k: int| 0 <= k < i ==> #[trigger] data@[k]@.len() == c,
                forall|k: int, j: int|
                    0 <= k < i && 0 <= j < c ==> f.ensures(
                        (bcast(self@[k], j), bcast(other@[k], j)),
                        #[trigger] data@[k]@[j],
                    ),
            decreases n - i,
        {
            let ra = self.row(i);
            let rb = other.row(i);
            let mut row: Vec<T> = Vec::new();
            let mut j: usize = 0;
            while j < c
                invariant
                    ra@ == self@[i as int],
                    rb@ == other@[i as int],
                    ra@.len() == a,
                    rb@.len() == b,
                    bcast_compatible(a as nat, b as nat),
                    c == bcast_len(a as nat, b as nat),
                    forall|x: T, y: T| f.requires((x, y)),
                    0 <= j <= c,
                    row@.len() == j,
                    forall|k: int| 0 <= k < j ==> f.ensures(
                        (bcast(ra@, k), bcast(rb@, k)),
                        #[trigger] row@[k],
                    ),
                decreases c - j,
            {
                let x = if a == 1 { ra[0] } else { ra[j] };
                let y = if b == 1 { rb[0] } else { rb[j] };
                let z = f(x, y);
                row.push(z);
                j = j + 1;
            }
            data.push(row);
            i = i + 1;
        }
        proof {
            assert forall|k: int| 0 <= k < n implies #[trigger] rows_view(data@)[k].len() == c by {
                assert(data@[k]@.len() == c);
            }
        }
        Matrix::new(data, c)
    }
}

impl<T: Copy> Clone for Matrix<T> {
    /// A matrix with the same shape and entries.
    fn clone(&self) -> (r: Self)
        ensures
            r@ == self@,
            r.nrows() == self.nrows(),
            r.ncols() == self.ncols(),
    {
        proof {
            use_type_invariant(self);
        }
        let mut data: Vec<Vec<T>> = Vec::new();
        let mut i: usize = 0;
        while i < self.rows
            invariant
                is_table(rows_view(self.data@), self.rows as nat, self.cols as nat),
                0 <= i <= self.rows,
                data@.len() == i,
                forall|k: int| 0 <= k < i ==> #[trigger] data@[k]@ == self.data@[k]@,
            decreases self.rows - i,
        {
            data.push(copy_vec(&self.data[i]));
            i = i + 1;
        }
        proof {
            assert forall|k: int| 0 <= k < self.rows implies #[trigger] rows_view(data@)[k] == rows_view(self.data@)[k] by {
                assert(data@[k]@ == self.data@[k]@);
            }
            assert(rows_view(data@) =~= rows_view(self.data@));
        }
        Matrix { rows: self.rows, cols: self.cols, data }
    }
}

/// A fresh vector with the entries of `v`.
pub fn copy_vec<T: Copy>(v: &Vec<T>) -> (r: Vec<T>)
    ensures
        r@ == v@,
{
    let mut r: Vec<T> = Vec::new();
    let mut j: usize = 0;
    while j < v.len()
        invariant
            0 <= j <= v@.len(),
            r@ == v@.take(j as int),
        decreases v@.len() - j,
    {
        r.push(v[j]);
        j = j + 1;
        assert(r@ =~= v@.take(j as int));
    }
    assert(v@.take(v@.len() as int) =~= v@);
    r
}

} // verus!

//! Rotary position embedding (RoPE): each row is split into pairs of entries
//! `(2i, 2i + 1)`, and each pair is turned by an angle that depends on the row's
//! position and on the pair's frequency.

use vstd::prelude::*;
use crate::matrix::{Matrix, copy_vec, is_table, rows_view};

verus! {

/// Entries `2i` and `2i + 1` of `row`.
pub open spec fn pair<T>(row: Seq<T>, i: int) -> (T, T) {
    (row[2 * i], row[2 * i + 1])
}

/// `cos` and `sin` are `seq_len` × `freqs.len()` tables whose entries at `(m, i)` are a
/// result of `trig` at position `m` and frequency `freqs[i]`.
pub open spec fn is_cos_sin_table<T, G: Fn(usize, T) -> (T, T)>(
    freqs: Seq<T>,
    trig: G,
    seq_len: nat,
    cos: Seq<Seq<T>>,
    sin: Seq<Seq<T>>,
) -> bool {
    &&& is_table(cos, seq_len, freqs.len())
    &&& is_table(sin, seq_len, freqs.len())
    &&& forall|m: int, i: int|
        0 <= m < seq_len && 0 <= i < freqs.len() ==> trig.ensures(
            (m as usize, freqs[i]),
            (#[trigger] cos[m][i], sin[m][i]),
        )
}

/// In each of the first `rows` rows, pair `i` of `y` is a result of `rot` on pair `i`
/// of `x` and the table entries `cos[t][i]`, `sin[t][i]`, for every `i < half`.
pub open spec fn is_rotation<T, R: Fn(T, T, T, T) -> (T, T)>(
    x: Seq<Seq<T>>,
    cos: Seq<Seq<T>>,
    sin: Seq<Seq<T>>,
    rot: R,
    rows: nat,
    half: nat,
    y: Seq<Seq<T>>,
) -> bool {
    forall|t: int, i: int|
        0 <= t < rows && 0 <= i < half ==> rot.ensures(
            (pair(x[t], i).0, pair(x[t], i).1, cos[t][i], sin[t][i]),
            #[trigger] pair(y[t], i),
        )
}

/// Row `m` of a cosine/sine table holds, for each pair `i`, a result of `trig` at
/// position `m` itself and the frequency of pair `i`.
pub proof fn lemma_table_row_is_position<T, G: Fn(usize, T) -> (T, T)>(
    freqs: Seq<T>,
    trig: G,
    seq_len: nat,
    cos: Seq<Seq<T>>,
    sin: Seq<Seq<T>>,
)
    requires
        is_cos_sin_table(freqs, trig, seq_len, cos, sin),
    ensures
        cos.len() == seq_len,
        sin.len() == seq_len,
        forall|m: int, i: int| 0 <= m < seq_len && 0 <= i < freqs.len() ==>
            cos[m].len() == freqs.len() && sin[m].len() == freqs.len()
            && #[trigger] trig.ensures((m as usize, freqs[i]), (cos[m][i], sin[m][i])),
{
    assert forall|m: int, i: int| 0 <= m < seq_len && 0 <= i < freqs.len() implies
        cos[m].len() == freqs.len() && sin[m].len() == freqs.len()
        && #[trigger] trig.ensures((m as usize, freqs[i]), (cos[m][i], sin[m][i])) by {
        assert(trig.ensures((m as usize, freqs[i]), (cos[m][i], sin[m][i])));
    }
}

/// Every pair goes through the rotation: in each of the first `rows` rows and for
/// every pair `i < half`, entries `2i` and `2i + 1` of `y` are the two results of `rot`
/// on entries `2i` and `2i + 1` of `x` with `cos[t][i]` and `sin[t][i]`.
pub proof fn lemma_rotation_turns_every_pair<T, R: Fn(T, T, T, T) -> (T, T)>(
    x: Seq<Seq<T>>,
    cos: Seq<Seq<T>>,
    sin: Seq<Seq<T>>,
    rot: R,
    rows: nat,
    half: nat,
    y: Seq<Seq<T>>,
)
    requires
        is_rotation(x, cos, sin, rot, rows, half, y),
    ensures
        forall|t: int, i: int| 0 <= t < rows && 0 <= i < half ==>
            #[trigger] rot.ensures((x[t][2 * i], x[t][2 * i + 1], cos[t][i], sin[t][i]), (y[t][2 * i], y[t][2 * i + 1])),
{
    assert forall|t: int, i: int| 0 <= t < rows && 0 <= i < half implies
        #[trigger] rot.ensures((x[t][2 * i], x[t][2 * i + 1], cos[t][i], sin[t][i]), (y[t][2 * i], y[t][2 * i + 1])) by {
        assert(rot.ensures((pair(x[t], i).0, pair(x[t], i).1, cos[t][i], sin[t][i]), pair(y[t], i)));
    }
}

/// The angle of a row is its position: when `trig` has one result for each position
/// and frequency, and `y` rotates the first `rows` rows of `x` by a table of `trig`,
/// then for every result `(c, s)` of `trig` at position `t` and the frequency of pair
/// `i`, entries `2i` and `2i + 1` of row `t` of `y` are the results of `rot` on entries
/// `2i` and `2i + 1` of row `t` of `x` with `c` and `s`.
pub proof fn lemma_rope_angle_of_position<T, G: Fn(usize, T) -> (T, T), R: Fn(T, T, T, T) -> (T, T)>(
    freqs: Seq<T>,
    trig: G,
    rot: R,
    rows: nat,
    table_len: nat,
    x: Seq<Seq<T>>,
    cos: Seq<Seq<T>>,
    sin: Seq<Seq<T>>,
    y: Seq<Seq<T>>,
)
    requires
        forall|m: usize, f: T, u: (T, T), v: (T, T)| trig.ensures((m, f), u) && trig.ensures((m, f), v) ==> u == v,
        rows <= table_len,
        is_cos_sin_table(freqs, trig, table_len, cos, sin),
        is_rotation(x, cos, sin, rot, rows, freqs.len(), y),
    ensures
        forall|t: int, i: int, c: T, s: T|
            0 <= t < rows && 0 <= i < freqs.len() && #[trigger] trig.ensures((t as usize, freqs[i]), (c, s))
                ==> rot.ensures((x[t][2 * i], x[t][2 * i + 1], c, s), (y[t][2 * i], y[t][2 * i + 1])),
{
    lemma_table_row_is_position(freqs, trig, table_len, cos, sin);
    lemma_rotation_turns_every_pair(x, cos, sin, rot, rows, freqs.len(), y);
    assert forall|t: int, i: int, c: T, s: T|
        0 <= t < rows && 0 <= i < freqs.len() && #[trigger] trig.ensures((t as usize, freqs[i]), (c, s))
            implies rot.ensures((x[t][2 * i], x[t][2 * i + 1], c, s), (y[t][2 * i], y[t][2 * i + 1])) by {
        assert(trig.ensures((t as usize, freqs[i]), (cos[t][i], sin[t][i])));
        assert((c, s) == (cos[t][i], sin[t][i]));
        assert(rot.ensures((x[t][2 * i], x[t][2 * i + 1], cos[t][i], sin[t][i]), (y[t][2 * i], y[t][2 * i + 1])));
    }
}

/// Turning back undoes turning: when `trig` gives one result for each position and
/// frequency, and `inv` maps every result of `rot` on a pair and an angle back to that
/// pair, then rotating `x` by the table of `trig` and taking the gradient step of the
/// rotation by a table of the same `trig` gives back `x` in every rotated entry.
pub proof fn lemma_rotation_roundtrip<T, G: Fn(usize, T) -> (T, T), R: Fn(T, T, T, T) -> (T, T), I: Fn(T, T, T, T) -> (T, T)>(
    freqs: Seq<T>,
    trig: G,
    rot: R,
    inv: I,
    rows: nat,
    x: Seq<Seq<T>>,
    cos1: Seq<Seq<T>>,
    sin1: Seq<Seq<T>>,
    y: Seq<Seq<T>>,
    cos2: Seq<Seq<T>>,
    sin2: Seq<Seq<T>>,
    z: Seq<Seq<T>>,
)
    requires
        forall|m: usize, f: T, u: (T, T), v: (T, T)| trig.ensures((m, f), u) && trig.ensures((m, f), v) ==> u == v,
        forall|a: T, b: T, c: T, s: T, p: (T, T), q: (T, T)|
            rot.ensures((a, b, c, s), p) && inv.ensures((p.0, p.1, c, s), q) ==> q == (a, b),
        is_cos_sin_table(freqs, trig, rows, cos1, sin1),
        is_cos_sin_table(freqs, trig, rows, cos2, sin2),
        is_rotation(x, cos1, sin1, rot, rows, freqs.len(), y),
        is_rotation(y, cos2, sin2, inv, rows, freqs.len(), z),
    ensures
        forall|t: int, c: int| 0 <= t < rows && 0 <= c < 2 * freqs.len() ==> #[trigger] z[t][c] == x[t][c],
{
    assert forall|t: int, c: int| 0 <= t < rows && 0 <= c < 2 * freqs.len() implies #[trigger] z[t][c] == x[t][c] by {
        let i = c / 2;
        assert(0 <= i < freqs.len());
        assert(trig.ensures((t as usize, freqs[i]), (cos1[t][i], sin1[t][i])));
        assert(trig.ensures((t as usize, freqs[i]), (cos2[t][i], sin2[t][i])));
        assert((cos1[t][i], sin1[t][i]) == (cos2[t][i], sin2[t][i]));
        let p = pair(y[t], i);
        assert(rot.ensures((pair(x[t], i).0, pair(x[t], i).1, cos1[t][i], sin1[t][i]), p));
        assert(inv.ensures((p.0, p.1, cos2[t][i], sin2[t][i]), pair(z[t], i)));
        assert(pair(z[t], i) == pair(x[t], i));
        assert(c == 2 * i || c == 2 * i + 1);
    }
}

/// Rotary position embedding over rows of `head_dim` entries, with one frequency
/// for each of the `head_dim / 2` pairs.
#[derive(Debug)]
pub struct RotaryEmbedding<T> {
    head_dim: usize,
    inv_freq: Vec<T>,
}

impl<T> RotaryEmbedding<T> {
    #[verifier::type_invariant]
    spec fn well_formed(self) -> bool {
        &&& self.head_dim % 2 == 0
        &&& self.inv_freq@.len() == self.head_dim / 2
    }

    /// Length of the rows that are rotated.
    pub closed spec fn dim(&self) -> nat {
        self.head_dim as nat
    }

    /// The frequency of each pair.
    pub closed spec fn freqs(&self) -> Seq<T> {
        self.inv_freq@
    }

    /// Length of the rows that are rotated.
    pub fn head_dim(&self) -> (d: usize)
        ensures
            d == self.dim(),
            d % 2 == 0,
            self.freqs().len() == d / 2,
    {
        proof {
            use_type_invariant(self);
        }
        self.head_dim
    }
}

impl<T: Copy> Clone for RotaryEmbedding<T> {
    /// The same width and frequencies.
    fn clone(&self) -> (r: Self)
        ensures
            r.dim() == self.dim(),
            r.freqs() == self.freqs(),
    {
        proof {
            use_type_invariant(self);
        }
        RotaryEmbedding { head_dim: self.head_dim, inv_freq: copy_vec(&self.inv_freq) }
    }
}

impl<T: Copy> RotaryEmbedding<T> {
    /// Builds the frequencies: pair `i` gets a result of `freq` at `(2 * i, head_dim)`.
    pub fn new<F: Fn(usize, usize) -> T>(head_dim: usize, freq: &F) -> (r: Self)
        requires
            head_dim % 2 == 0,
            forall|a: usize, b: usize| freq.requires((a, b)),
        ensures
            r.dim() == head_dim,
            r.freqs().len() == head_dim / 2,
            forall|i: int| 0 <= i < head_dim / 2 ==> freq.ensures(((2 * i) as usize, head_dim), #[trigger] r.freqs()[i]),
    {
        let half = head_dim / 2;
        let mut inv_freq: Vec<T> = Vec::new();
        let mut i: usize = 0;
        while i < half
            invariant
                half == head_dim / 2,
                forall|a: usize, b: usize| freq.requires((a, b)),
                0 <= i <= half,
                inv_freq@.len() == i,
                forall|k: int| 0 <= k < i ==> freq.ensures(((2 * k) as usize, head_dim), #[trigger] inv_freq@[k]),
            decreases half - i,
        {
            let f = freq(2 * i, head_dim);
            inv_freq.push(f);
            i = i + 1;
        }
        RotaryEmbedding { head_dim, inv_freq }
    }

    /// The cosine and sine tables for positions `0 .. seq_len`: entry `(m, i)` is a
    /// result of `trig` at position `m` and the frequency of pair `i`.
    pub fn compute_cos_sin<G: Fn(usize, T) -> (T, T)>(&self, seq_len: usize, trig: &G) -> (r: (Matrix<T>, Matrix<T>))
        requires
            forall|m: usize, f: T| trig.requires((m, f)),
        ensures
            r.0.nrows() == seq_len,
            r.0.ncols() == self.dim() / 2,
            r.1.nrows() == seq_len,
            r.1.ncols() == self.dim() / 2,
            is_cos_sin_table(self.freqs(), *trig, seq_len as nat, r.0@, r.1@),
    {
        proof {
            use_type_invariant(self);
        }
        let half = self.head_dim / 2;
        let mut cos: Vec<Vec<T>> = Vec::new();
        let mut sin: Vec<Vec<T>> = Vec::new();
        let mut m: usize = 0;
        while m < seq_len
            invariant
                half == self.dim() / 2,
                self.freqs().len() == half,
                self.freqs() == self.inv_freq@,
                forall|a: usize, f: T| trig.requires((a, f)),
                0 <= m <= seq_len,
                cos@.len() == m,
                sin@.len() == m,
                forall|k: int| 0 <= k < m ==> #[trigger] cos@[k]@.len() == half,
                forall|k: int| 0 <= k < m ==> #[trigger] sin@[k]@.len() == half,
                forall|k: int, i: int|
                    0 <= k < m && 0 <= i < half ==> trig.ensures(
                        (k as usize, self.freqs()[i]),
                        (#[trigger] cos@[k]@[i], sin@[k]@[i]),
                    ),
            decreases seq_len - m,
        {
            let mut crow: Vec<T> = Vec::new();
            let mut srow: Vec<T> = Vec::new();
            let mut i: usize = 0;
            while i < half
                invariant
                    half == self.dim() / 2,
                    self.freqs().len() == half,
                    self.freqs() == self.inv_freq@,
                    forall|a: usize, f: T| trig.requires((a, f)),
                    0 <= i <= half,
                    crow@.len() == i,
                    srow@.len() == i,
                    forall|k: int| 0 <= k < i ==> trig.ensures(
                        (m, self.freqs()[k]),
                        (#[trigger] crow@[k], srow@[k]),
                    ),
                decreases half - i,
            {
                let (c, s) = trig(m, self.inv_freq[i]);
                crow.push(c);
                srow.push(s);
                i = i + 1;
            }
            cos.push(crow);
            sin.push(srow);
            m = m + 1;
        }
        proof {
            assert forall|k: int| 0 <= k < seq_len implies #[trigger] rows_view(cos@)[k].len() == half by {
                assert(cos@[k]@.len() == half);
            }
            assert forall|k: int| 0 <= k < seq_len implies #[trigger] rows_view(sin@)[k].len() == half by {
                assert(sin@[k]@.len() == half);
            }
            assert forall|k: int, i: int| 0 <= k < seq_len && 0 <= i < half implies trig.ensures(
                (k as usize, self.freqs()[i]),
                (#[trigger] rows_view(cos@)[k][i], rows_view(sin@)[k][i]),
            ) by {
                assert(rows_view(cos@)[k] == cos@[k]@);
                assert(rows_view(sin@)[k] == sin@[k]@);
            }
        }
        let cm = Matrix::new(cos, half);
        let sm = Matrix::new(sin, half);
        (cm, sm)
    }

    /// Rotates every row of `x` pair by pair: pair `i` of row `t` goes through `rot`
    /// with `cos[t][i]` and `sin[t][i]`. The result has the shape of `x`.
    pub fn apply_rotation<R: Fn(T, T, T, T) -> (T, T)>(&self, x: &Matrix<T>, cos: &Matrix<T>, sin: &Matrix<T>, rot: &R) -> (r: Matrix<T>)
        requires
            x.ncols() == self.dim(),
            x.nrows() == 0 || self.dim() == 0 || (x.nrows() <= cos.nrows() && self.dim() / 2 <= cos.ncols()
                && x.nrows() <= sin.nrows() && self.dim() / 2 <= sin.ncols()),
            forall|a: T, b: T, c: T, s: T| rot.requires((a, b, c, s)),
        ensures
            r.nrows() == x.nrows(),
            r.ncols() == x.ncols(),
            is_table(r@, r.nrows(), r.ncols()),
            is_rotation(x@, cos@, sin@, *rot, x.nrows(), self.dim() / 2, r@),
    {
        proof {
            use_type_invariant(self);
        }
        let n = x.rows();
        let d = x.cols();
        let cr = cos.rows();
        let cc = cos.cols();
        let sr = sin.rows();
        let sc = sin.cols();
        let half = self.head_dim / 2;
        let mut data: Vec<Vec<T>> = Vec::new();
        let mut t: usize = 0;
        while t < n
            invariant
                n == x.nrows(),
                d == x.ncols(),
                d == self.dim(),
                d % 2 == 0,
                half == d / 2,
                is_table(x@, n as nat, d as nat),
                is_table(cos@, cr as nat, cc as nat),
                is_table(sin@, sr as nat, sc as nat),
                cr == cos.nrows() && cc == cos.ncols() && sr == sin.nrows() && sc == sin.ncols(),
                n == 0 || half == 0 || (n <= cr && half <= cc && n <= sr && half <= sc),
                forall|a: T, b: T, c: T, s: T| rot.requires((a, b, c, s)),
                0 <= t <= n,
                data@.len() == t,
                forall|k: int| 0 <= k < t ==> #[trigger] data@[k]@.len() == d,
                forall|k: int, i: int|
                    0 <= k < t && 0 <= i < half ==> rot.ensures(
                        (pair(x@[k], i).0, pair(x@[k], i).1, cos@[k][i], sin@[k][i]),
                        #[trigger] pair(data@[k]@, i),
                    ),
            decreases n - t,
        {
            let xrow = x.row(t);
            let mut row: Vec<T> = Vec::new();
            let mut i: usize = 0;
            while i < half
                invariant
                    xrow@ == x@[t as int],
                    xrow@.len() == d,
                    d % 2 == 0,
                    half == d / 2,
                    t < n,
                    is_table(cos@, cr as nat, cc as nat),
                    is_table(sin@, sr as nat, sc as nat),
                    cr == cos.nrows() && cc == cos.ncols() && sr == sin.nrows() && sc == sin.ncols(),
                    n == 0 || half == 0 || (n <= cr && half <= cc && n <= sr && half <= sc),
                    forall|a: T, b: T, c: T, s: T| rot.requires((a, b, c, s)),
                    0 <= i <= half,
                    row@.len() == 2 * i,
                    forall|k: int|
                        0 <= k < i ==> rot.ensures(
                            (pair(xrow@, k).0, pair(xrow@, k).1, cos@[t as int][k], sin@[t as int][k]),
                            #[trigger] pair(row@, k),
                        ),
                decreases half - i,
            {
                let x_even = xrow[2 * i];
                let x_odd = xrow[2 * i + 1];
                let cos_val = cos.get(t, i);
                let sin_val = sin.get(t, i);
                let (a, b) = rot(x_even, x_odd, cos_val, sin_val);
                let ghost before = row@;
                row.push(a);
                row.push(b);
                proof {
                    assert forall|k: int| 0 <= k < i + 1 implies rot.ensures(
                        (pair(xrow@, k).0, pair(xrow@, k).1, cos@[t as int][k], sin@[t as int][k]),
                        #[trigger] pair(row@, k),
                    ) by {
                        if k < i {
                            assert(pair(row@, k) == pair(before, k));
                        } else {
                            assert(pair(row@, k) == (a, b));
                        }
                    }
                }
                i = i + 1;
            }
            data.push(row);
            t = t + 1;
        }
        proof {
            assert forall|k: int| 0 <= k < n implies #[trigger] rows_view(data@)[k].len() == d by {
                assert(data@[k]@.len() == d);
            }
            assert forall|k: int, i: int| 0 <= k < n && 0 <= i < half implies rot.ensures(
                (pair(x@[k], i).0, pair(x@[k], i).1, cos@[k][i], sin@[k][i]),
                #[trigger] pair(rows_view(data@)[k], i),
            ) by {
                assert(rows_view(data@)[k] == data@[k]@);
                assert(pair(data@[k]@, i) == pair(rows_view(data@)[k], i));
            }
        }
        Matrix::new(data, d)
    }

    /// Rotates queries and keys with one cosine/sine table built for the length of
    /// `q`, so that a query and a key at the same position turn by the same angles.
    pub fn apply_qk<G: Fn(usize, T) -> (T, T), R: Fn(T, T, T, T) -> (T, T)>(
        &self,
        q: &Matrix<T>,
        k: &Matrix<T>,
        trig: &G,
        rot: &R,
    ) -> (r: (Matrix<T>, Matrix<T>))
        requires
            q.ncols() == self.dim(),
            k.ncols() == self.dim(),
            k.nrows() == 0 || self.dim() == 0 || k.nrows() <= q.nrows(),
            forall|m: usize, f: T| trig.requires((m, f)),
            forall|a: T, b: T, c: T, s: T| rot.requires((a, b, c, s)),
        ensures
            r.0.nrows() == q.nrows(),
            r.0.ncols() == q.ncols(),
            is_table(r.0@, r.0.nrows(), r.0.ncols()),
            r.1.nrows() == k.nrows(),
            r.1.ncols() == k.ncols(),
            is_table(r.1@, r.1.nrows(), r.1.ncols()),
            exists|cos: Seq<Seq<T>>, sin: Seq<Seq<T>>| {
                &&& #[trigger] is_cos_sin_table(self.freqs(), *trig, q.nrows(), cos, sin)
                &&& is_rotation(q@, cos, sin, *rot, q.nrows(), self.dim() / 2, r.0@)
                &&& is_rotation(k@, cos, sin, *rot, k.nrows(), self.dim() / 2, r.1@)
            },
    {
        let seq_len = q.rows();
        let (cos, sin) = self.compute_cos_sin(seq_len, trig);
        let q_rot = self.apply_rotation(q, &cos, &sin, rot);
        let k_rot = self.apply_rotation(k, &cos, &sin, rot);
        proof {
            assert(is_cos_sin_table(self.freqs(), *trig, q.nrows(), cos@, sin@));
        }
        (q_rot, k_rot)
    }

    /// Gradient through the rotation: in each of the first `seq_len` rows, pair `i`
    /// of `grad_rotated` goes through the inverse rotation `inv` with the cosine and
    /// sine of that position and pair. Every other entry of the result, which has the
    /// shape of `grad_rotated`, is `zero`.
    pub fn backward_rotation<G: Fn(usize, T) -> (T, T), R: Fn(T, T, T, T) -> (T, T)>(
        &self,
        grad_rotated: &Matrix<T>,
        seq_len: usize,
        trig: &G,
        inv: &R,
        zero: T,
    ) -> (r: Matrix<T>)
        requires
            seq_len == 0 || self.dim() == 0 || (seq_len <= grad_rotated.nrows() && self.dim()
                <= grad_rotated.ncols()),
            forall|m: usize, f: T| trig.requires((m, f)),
            forall|a: T, b: T, c: T, s: T| inv.requires((a, b, c, s)),
        ensures
            r.nrows() == grad_rotated.nrows(),
            r.ncols() == grad_rotated.ncols(),
            is_table(r@, r.nrows(), r.ncols()),
            exists|cos: Seq<Seq<T>>, sin: Seq<Seq<T>>| {
                &&& #[trigger] is_cos_sin_table(self.freqs(), *trig, seq_len as nat, cos, sin)
                &&& is_rotation(grad_rotated@, cos, sin, *inv, seq_len as nat, self.dim() / 2, r@)
            },
            forall|t: int, c: int|
                0 <= t < r.nrows() && 0 <= c < r.ncols() && (t >= seq_len || c >= self.dim())
                    ==> #[trigger] r@[t][c] == zero,
    {
        proof {
            use_type_invariant(self);
        }
        let (cos, sin) = self.compute_cos_sin(seq_len, trig);
        let n = grad_rotated.rows();
        let w = grad_rotated.cols();
        let d = self.head_dim;
        let half = d / 2;
        let mut data: Vec<Vec<T>> = Vec::new();
        let mut t: usize = 0;
        while t < n
            invariant
                n == grad_rotated.nrows(),
                w == grad_rotated.ncols(),
                d == self.dim(),
                d % 2 == 0,
                half == d / 2,
                is_table(grad_rotated@, n as nat, w as nat),
                is_table(cos@, seq_len as nat, half as nat),
                is_table(sin@, seq_len as nat, half as nat),
                cos.nrows() == seq_len && cos.ncols() == half,
                sin.nrows() == seq_len && sin.ncols() == half,
                seq_len == 0 || d == 0 || (seq_len <= n && d <= w),
                forall|a: T, b: T, c: T, s: T| inv.requires((a, b, c, s)),
                0 <= t <= n,
                data@.len() == t,
                forall|k: int| 0 <= k < t ==> #[trigger] data@[k]@.len() == w,
                forall|k: int, i: int|
                    0 <= k < t && k < seq_len && 0 <= i < half ==> inv.ensures(
                        (pair(grad_rotated@[k], i).0, pair(grad_rotated@[k], i).1, cos@[k][i], sin@[k][i]),
                        #[trigger] pair(data@[k]@, i),
                    ),
                forall|k: int, c: int|
                    0 <= k < t && 0 <= c < w && (k >= seq_len || c >= d) ==> #[trigger] data@[k]@[c] == zero,
            decreases n - t,
        {
            let grow = grad_rotated.row(t);
            let mut row: Vec<T> = Vec::new();
            let active = t < seq_len && d > 0;
            let mut i: usize = 0;
            if active {
                while i < half
                    invariant
                        grow@ == grad_rotated@[t as int],
                        grow@.len() == w,
                        d % 2 == 0,
                        half == d / 2,
                        t < seq_len,
                        seq_len <= n,
                        d <= w,
                        is_table(cos@, seq_len as nat, half as nat),
                        is_table(sin@, seq_len as nat, half as nat),
                        cos.nrows() == seq_len && cos.ncols() == half,
                        sin.nrows() == seq_len && sin.ncols() == half,
                        forall|a: T, b: T, c: T, s: T| inv.requires((a, b, c, s)),
                        0 <= i <= half,
                        row@.len() == 2 * i,
                        forall|k: int|
                            0 <= k < i ==> inv.ensures(
                                (pair(grow@, k).0, pair(grow@, k).1, cos@[t as int][k], sin@[t as int][k]),
                                #[trigger] pair(row@, k),
                            ),
                    decreases half - i,
                {
                    let grad_even = grow[2 * i];
                    let grad_odd = grow[2 * i + 1];
                    let cos_val = cos.get(t, i);
                    let sin_val = sin.get(t, i);
                    let (a, b) = inv(grad_even, grad_odd, cos_val, sin_val);
                    let ghost before = row@;
                    row.push(a);
                    row.push(b);
                    proof {
                        assert forall|k: int| 0 <= k < i + 1 implies inv.ensures(
                            (pair(grow@, k).0, pair(grow@, k).1, cos@[t as int][k], sin@[t as int][k]),
                            #[trigger] pair(row@, k),
                        ) by {
                            if k < i {
                                assert(pair(row@, k) == pair(before, k));
                            } else {
                                assert(pair(row@, k) == (a, b));
                            }
                        }
                    }
                    i = i + 1;
                }
            }
            let filled = row.len();
            let ghost rotated = row@;
            let mut c: usize = filled;
            while c < w
                invariant
                    filled <= c <= w,
                    row@.len() == c,
                    filled == rotated.len(),
                    forall|k: int| 0 <= k < filled ==> #[trigger] row@[k] == rotated[k],
                    forall|k: int| filled <= k < c ==> #[trigger] row@[k] == zero,
                decreases w - c,
            {
                row.push(zero);
                c = c + 1;
            }
            proof {
                if active {
                    assert(filled == d);
                    assert forall|k: int| 0 <= k < half implies inv.ensures(
                        (pair(grow@, k).0, pair(grow@, k).1, cos@[t as int][k], sin@[t as int][k]),
                        #[trigger] pair(row@, k),
                    ) by {
                        assert(inv.ensures(
                            (pair(grow@, k).0, pair(grow@, k).1, cos@[t as int][k], sin@[t as int][k]),
                            pair(rotated, k),
                        ));
                        assert(row@[2 * k] == rotated[2 * k]);
                        assert(row@[2 * k + 1] == rotated[2 * k + 1]);
                        assert(pair(row@, k) == pair(rotated, k));
                    }
                } else {
                    assert(filled == 0);
                }
            }
            data.push(row);
            t = t + 1;
        }
        proof {
            assert forall|k: int| 0 <= k < n implies #[trigger] rows_view(data@)[k].len() == w by {
                assert(data@[k]@.len() == w);
            }
            assert(is_cos_sin_table(self.freqs(), *trig, seq_len as nat, cos@, sin@));
            assert forall|k: int, i: int| 0 <= k < seq_len && 0 <= i < half implies inv.ensures(
                (pair(grad_rotated@[k], i).0, pair(grad_rotated@[k], i).1, cos@[k][i], sin@[k][i]),
                #[trigger] pair(rows_view(data@)[k], i),
            ) by {
                assert(rows_view(data@)[k] == data@[k]@);
                assert(k < n);
                assert(pair(data@[k]@, i) == pair(rows_view(data@)[k], i));
            }
            assert forall|k: int, c: int|
                0 <= k < n && 0 <= c < w && (k >= seq_len || c >= d) implies #[trigger] rows_view(data@)[k][c] == zero by {
                assert(rows_view(data@)[k] == data@[k]@);
                assert(data@[k]@[c] == zero);
            }
        }
        Matrix::new(data, w)
    }
}

} // verus!

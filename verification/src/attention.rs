//! The parts of single-head self-attention that decide which entries meet: the
//! causal mask over attention scores and the row-wise gradient of softmax.

use vstd::prelude::*;
use crate::fold::{folds_to, is_fold_chain, lemma_folds_to_empty, lemma_folds_to_max, lemma_folds_to_push};
use crate::matrix::{Matrix, copy_vec, is_table, rows_view};

verus! {

/// `s` with every entry `(i, j)` where `i < j < s.len()` replaced by `fill`: position
/// `i` may not look at a later position `j`.
pub open spec fn causal_masked<T>(s: Seq<Seq<T>>, fill: T) -> Seq<Seq<T>> {
    Seq::new(
        s.len(),
        |i: int| Seq::new(s[i].len(), |j: int| if i < j && j < s.len() { fill } else { s[i][j] }),
    )
}

/// Masks the scores so that no position attends to a later one: entry `(i, j)` with
/// `i < j < rows` becomes `fill`, every other entry stays.
pub fn apply_causal_mask<T: Copy>(scores: &mut Matrix<T>, fill: T)
    requires
        old(scores).nrows() < 2 || old(scores).nrows() <= old(scores).ncols(),
    ensures
        final(scores).nrows() == old(scores).nrows(),
        final(scores).ncols() == old(scores).ncols(),
        is_table(final(scores)@, final(scores).nrows(), final(scores).ncols()),
        final(scores)@ == causal_masked(old(scores)@, fill),
{
    let n = scores.rows();
    let w = scores.cols();
    let ghost s = scores@;
    let mut data: Vec<Vec<T>> = Vec::new();
    let mut i: usize = 0;
    while i < n
        invariant
            n == scores.nrows(),
            w == scores.ncols(),
            s == scores@,
            is_table(s, n as nat, w as nat),
            n < 2 || n <= w,
            0 <= i <= n,
            data@.len() == i,
            forall|k: int| 0 <= k < i ==> #[trigger] data@[k]@ == causal_masked(s, fill)[k],
        decreases n - i,
    {
        let mut row = copy_vec(scores.row(i));
        let mut j: usize = i + 1;
        while j < n
            invariant
                i < n,
                n < 2 || n <= w,
                i + 1 <= j <= n,
                row@.len() == w,
                forall|c: int| 0 <= c < w ==> #[trigger] row@[c] == if i < c && c < j { fill } else { s[i as int][c] },
            decreases n - j,
        {
            row.set(j, fill);
            j = j + 1;
        }
        proof {
            assert(row@ =~= causal_masked(s, fill)[i as int]);
        }
        data.push(row);
        i = i + 1;
    }
    proof {
        assert forall|k: int| 0 <= k < n implies #[trigger] rows_view(data@)[k].len() == w by {
            assert(data@[k]@ == causal_masked(s, fill)[k]);
        }
        assert(rows_view(data@) =~= causal_masked(s, fill));
    }
    *scores = Matrix::new(data, w);
}

/// Masking twice is masking once.
pub proof fn lemma_causal_mask_idempotent<T>(s: Seq<Seq<T>>, fill: T)
    ensures
        causal_masked(causal_masked(s, fill), fill) == causal_masked(s, fill),
{
    let m = causal_masked(s, fill);
    assert forall|i: int| 0 <= i < s.len() implies #[trigger] causal_masked(m, fill)[i] =~= m[i] by {}
    assert(causal_masked(m, fill) =~= m);
}

/// After masking, no position sees a later one, and every entry at or before the
/// diagonal, or past the last row's index, is the score it was.
pub proof fn lemma_causal_mask_hides_future<T>(s: Seq<Seq<T>>, fill: T, i: int, j: int)
    requires
        0 <= i < s.len(),
        0 <= j < s[i].len(),
    ensures
        causal_masked(s, fill).len() == s.len(),
        causal_masked(s, fill)[i].len() == s[i].len(),
        i < j < s.len() ==> causal_masked(s, fill)[i][j] == fill,
        !(i < j < s.len()) ==> causal_masked(s, fill)[i][j] == s[i][j],
{
}

/// `dot` is a possible result of the dot product of the first `len` entries of `y`
/// and `dy`: products from `times`, summed left to right with `plus` from `zero`.
pub open spec fn is_dot<T, M: Fn(T, T) -> T, P: Fn(T, T) -> T>(
    y: Seq<T>,
    dy: Seq<T>,
    len: nat,
    times: M,
    plus: P,
    zero: T,
    dot: T,
) -> bool {
    exists|prods: Seq<T>| {
        &&& prods.len() == len
        &&& forall|k: int| 0 <= k < len ==> times.ensures((y[k], dy[k]), #[trigger] prods[k])
        &&& #[trigger] folds_to(plus, zero, prods, dot)
    }
}

/// Row `g` is the softmax gradient for output row `y` and incoming gradient row `dy`
/// over their first `len` entries: with `dot` their dot product, entry `k` is a
/// result of `combine` on `(y[k], dy[k], dot)`; the entries past `len` are `y`'s.
pub open spec fn is_softmax_grad_row<T, M: Fn(T, T) -> T, P: Fn(T, T) -> T, C: Fn(T, T, T) -> T>(
    y: Seq<T>,
    dy: Seq<T>,
    len: nat,
    times: M,
    plus: P,
    zero: T,
    combine: C,
    g: Seq<T>,
) -> bool {
    &&& g.len() == y.len()
    &&& exists|dot: T| {
        &&& #[trigger] is_dot(y, dy, len, times, plus, zero, dot)
        &&& forall|k: int| 0 <= k < len ==> combine.ensures((y[k], dy[k], dot), #[trigger] g[k])
    }
    &&& forall|k: int| len <= k < y.len() ==> #[trigger] g[k] == y[k]
}

/// Gradient of row-wise softmax. Rows of `softmax_output` and `grad_output` are taken
/// in pairs, as many as the shorter has; within a pair, entries are taken as many as
/// the shorter row has. For each such row, `dot` is the sum with `plus` from `zero` of
/// the products `times(y, dy)`, and each entry becomes `combine(y, dy, dot)`. Entries not
/// reached keep the value of `softmax_output`, whose shape the result has.
pub fn softmax_backward<T: Copy, M: Fn(T, T) -> T, P: Fn(T, T) -> T, C: Fn(T, T, T) -> T>(
    softmax_output: &Matrix<T>,
    grad_output: &Matrix<T>,
    times: &M,
    plus: &P,
    zero: T,
    combine: &C,
) -> (r: Matrix<T>)
    requires
        forall|a: T, b: T| times.requires((a, b)),
        forall|a: T, b: T| plus.requires((a, b)),
        forall|a: T, b: T, c: T| combine.requires((a, b, c)),
    ensures
        r.nrows() == softmax_output.nrows(),
        r.ncols() == softmax_output.ncols(),
        is_table(r@, r.nrows(), r.ncols()),
        forall|t: int| 0 <= t < r.nrows() ==>
            if t < grad_output.nrows() {
                is_softmax_grad_row(
                    softmax_output@[t],
                    grad_output@[t],
                    if softmax_output.ncols() <= grad_output.ncols() { softmax_output.ncols() } else { grad_output.ncols() },
                    *times,
                    *plus,
                    zero,
                    *combine,
                    #[trigger] r@[t],
                )
            } else {
                r@[t] == softmax_output@[t]
            },
{
    let n = softmax_output.rows();
    let w = softmax_output.cols();
    let gn = grad_output.rows();
    let gw = grad_output.cols();
    let len = if w <= gw { w } else { gw };
    let mut data: Vec<Vec<T>> = Vec::new();
    let mut t: usize = 0;
    while t < n
        invariant
            n == softmax_output.nrows(),
            w == softmax_output.ncols(),
            gn == grad_output.nrows(),
            gw == grad_output.ncols(),
            len == if w <= gw { w } else { gw },
            is_table(softmax_output@, n as nat, w as nat),
            is_table(grad_output@, gn as nat, gw as nat),
            forall|a: T, b: T| times.requires((a, b)),
            forall|a: T, b: T| plus.requires((a, b)),
            forall|a: T, b: T, c: T| combine.requires((a, b, c)),
            0 <= t <= n,
            data@.len() == t,
            forall|k: int| 0 <= k < t ==>
                if k < gn {
                    is_softmax_grad_row(softmax_output@[k], grad_output@[k], len as nat, *times, *plus, zero, *combine, #[trigger] data@[k]@)
                } else {
                    data@[k]@ == softmax_output@[k]
                },
        decreases n - t,
    {
        let yrow = softmax_output.row(t);
        if t < gn {
            let dyrow = grad_output.row(t);
            let mut dot = zero;
            let ghost mut prods: Seq<T> = Seq::empty();
            proof {
                lemma_folds_to_empty(*plus, zero);
            }
            let mut k: usize = 0;
            while k < len
                invariant
                    yrow@ == softmax_output@[t as int],
                    dyrow@ == grad_output@[t as int],
                    yrow@.len() == w,
                    dyrow@.len() == gw,
                    len <= w,
                    len <= gw,
                    forall|a: T, b: T| times.requires((a, b)),
                    forall|a: T, b: T| plus.requires((a, b)),
                    0 <= k <= len,
                    prods.len() == k,
                    forall|q: int| 0 <= q < k ==> times.ensures((yrow@[q], dyrow@[q]), #[trigger] prods[q]),
                    folds_to(*plus, zero, prods, dot),
                decreases len - k,
            {
                let p = times(yrow[k], dyrow[k]);
                let next = plus(dot, p);
                proof {
                    lemma_folds_to_push(*plus, zero, prods, dot, p, next);
                    prods = prods.push(p);
                }
                dot = next;
                k = k + 1;
            }
            proof {
                assert(is_dot(yrow@, dyrow@, len as nat, *times, *plus, zero, dot));
            }
            let mut row: Vec<T> = Vec::new();
            let mut k: usize = 0;
            while k < w
                invariant
                    yrow@ == softmax_output@[t as int],
                    dyrow@ == grad_output@[t as int],
                    yrow@.len() == w,
                    dyrow@.len() == gw,
                    len <= w,
                    len <= gw,
                    forall|a: T, b: T, c: T| combine.requires((a, b, c)),
                    0 <= k <= w,
                    row@.len() == k,
                    forall|q: int| 0 <= q < k && q < len ==> combine.ensures((yrow@[q], dyrow@[q], dot), #[trigger] row@[q]),
                    forall|q: int| len <= q < k ==> #[trigger] row@[q] == yrow@[q],
                decreases w - k,
            {
                if k < len {
                    let g = combine(yrow[k], dyrow[k], dot);
                    row.push(g);
                } else {
                    row.push(yrow[k]);
                }
                k = k + 1;
            }
            proof {
                assert(is_softmax_grad_row(yrow@, dyrow@, len as nat, *times, *plus, zero, *combine, row@));
            }
            data.push(row);
        } else {
            let row = copy_vec(yrow);
            data.push(row);
        }
        t = t + 1;
    }
    proof {
        assert forall|k: int| 0 <= k < n implies #[trigger] rows_view(data@)[k].len() == w by {
            assert(rows_view(data@)[k] == data@[k]@);
            if k < gn {
                assert(is_softmax_grad_row(softmax_output@[k], grad_output@[k], len as nat, *times, *plus, zero, *combine, data@[k]@));
            }
        }
        assert forall|k: int| 0 <= k < n implies
            if k < gn {
                is_softmax_grad_row(softmax_output@[k], grad_output@[k], len as nat, *times, *plus, zero, *combine, #[trigger] rows_view(data@)[k])
            } else {
                rows_view(data@)[k] == softmax_output@[k]
            } by {
            assert(rows_view(data@)[k] == data@[k]@);
        }
    }
    Matrix::new(data, w)
}

/// Row `g` is the softmax of row `x`: `mx` is the fold of `larger` over the row from
/// its first entry, each `e[k]` is a result of `shifted_exp(x[k], mx)`, `total` is the
/// fold of `plus` over `e` from `zero`, and entry `k` is a result of
/// `divide(e[k], total)`.
pub open spec fn is_softmax_row<T, L: Fn(T, T) -> T, E: Fn(T, T) -> T, P: Fn(T, T) -> T, D: Fn(T, T) -> T>(
    x: Seq<T>,
    larger: L,
    shifted_exp: E,
    plus: P,
    zero: T,
    divide: D,
    g: Seq<T>,
) -> bool {
    &&& g.len() == x.len()
    &&& exists|mx: T, e: Seq<T>, total: T| {
        &&& #[trigger] folds_to(larger, x[0], x.drop_first(), mx)
        &&& e.len() == x.len()
        &&& forall|k: int| 0 <= k < x.len() ==> shifted_exp.ensures((x[k], mx), #[trigger] e[k])
        &&& #[trigger] folds_to(plus, zero, e, total)
        &&& forall|k: int| 0 <= k < x.len() ==> divide.ensures((e[k], total), #[trigger] g[k])
    }
}

/// Softmax of each row: the row's largest entry (by `larger`, which keeps the later of
/// two entries unless the earlier is greater) is subtracted before `shifted_exp`, and
/// the results are divided by their sum.
pub fn softmax<T: Copy, L: Fn(T, T) -> T, E: Fn(T, T) -> T, P: Fn(T, T) -> T, D: Fn(T, T) -> T>(
    scores: &Matrix<T>,
    larger: &L,
    shifted_exp: &E,
    plus: &P,
    zero: T,
    divide: &D,
) -> (r: Matrix<T>)
    requires
        scores.nrows() == 0 || scores.ncols() > 0,
        forall|a: T, b: T| larger.requires((a, b)),
        forall|a: T, b: T| shifted_exp.requires((a, b)),
        forall|a: T, b: T| plus.requires((a, b)),
        forall|a: T, b: T| divide.requires((a, b)),
    ensures
        r.nrows() == scores.nrows(),
        r.ncols() == scores.ncols(),
        is_table(r@, r.nrows(), r.ncols()),
        forall|t: int| 0 <= t < r.nrows() ==>
            is_softmax_row(scores@[t], *larger, *shifted_exp, *plus, zero, *divide, #[trigger] r@[t]),
{
    let n = scores.rows();
    let w = scores.cols();
    let mut data: Vec<Vec<T>> = Vec::new();
    let mut t: usize = 0;
    while t < n
        invariant
            n == scores.nrows(),
            w == scores.ncols(),
            n == 0 || w > 0,
            is_table(scores@, n as nat, w as nat),
            forall|a: T, b: T| larger.requires((a, b)),
            forall|a: T, b: T| shifted_exp.requires((a, b)),
            forall|a: T, b: T| plus.requires((a, b)),
            forall|a: T, b: T| divide.requires((a, b)),
            0 <= t <= n,
            data@.len() == t,
            forall|k: int| 0 <= k < t ==>
                is_softmax_row(scores@[k], *larger, *shifted_exp, *plus, zero, *divide, #[trigger] data@[k]@),
        decreases n - t,
    {
        let xrow = scores.row(t);
        let ghost x = xrow@;
        let mut mx = xrow[0];
        proof {
            lemma_folds_to_empty(*larger, x[0]);
            assert(x.drop_first().take(0) =~= Seq::<T>::empty());
        }
        let mut k: usize = 1;
        while k < w
            invariant
                x == xrow@,
                x.len() == w,
                w > 0,
                forall|a: T, b: T| larger.requires((a, b)),
                1 <= k <= w,
                folds_to(*larger, x[0], x.drop_first().take(k - 1), mx),
            decreases w - k,
        {
            let next = larger(mx, xrow[k]);
            proof {
                lemma_folds_to_push(*larger, x[0], x.drop_first().take(k - 1), mx, x[k as int], next);
                assert(x.drop_first().take(k - 1).push(x[k as int]) =~= x.drop_first().take(k as int));
            }
            mx = next;
            k = k + 1;
        }
        proof {
            assert(x.drop_first().take(w - 1) =~= x.drop_first());
        }
        let mut exps: Vec<T> = Vec::new();
        let mut total = zero;
        proof {
            lemma_folds_to_empty(*plus, zero);
            assert(exps@ =~= Seq::<T>::empty());
        }
        let mut k: usize = 0;
        while k < w
            invariant
                x == xrow@,
                x.len() == w,
                forall|a: T, b: T| shifted_exp.requires((a, b)),
                forall|a: T, b: T| plus.requires((a, b)),
                0 <= k <= w,
                exps@.len() == k,
                forall|q: int| 0 <= q < k ==> shifted_exp.ensures((x[q], mx), #[trigger] exps@[q]),
                folds_to(*plus, zero, exps@, total),
            decreases w - k,
        {
            let e = shifted_exp(xrow[k], mx);
            let next = plus(total, e);
            proof {
                lemma_folds_to_push(*plus, zero, exps@, total, e, next);
            }
            exps.push(e);
            total = next;
            k = k + 1;
        }
        let mut row: Vec<T> = Vec::new();
        let mut k: usize = 0;
        while k < w
            invariant
                exps@.len() == w,
                forall|a: T, b: T| divide.requires((a, b)),
                0 <= k <= w,
                row@.len() == k,
                forall|q: int| 0 <= q < k ==> divide.ensures((exps@[q], total), #[trigger] row@[q]),
            decreases w - k,
        {
            let g = divide(exps[k], total);
            row.push(g);
            k = k + 1;
        }
        proof {
            assert(folds_to(*larger, x[0], x.drop_first(), mx));
            assert(folds_to(*plus, zero, exps@, total));
            assert(is_softmax_row(x, *larger, *shifted_exp, *plus, zero, *divide, row@));
        }
        data.push(row);
        t = t + 1;
    }
    proof {
        assert forall|k: int| 0 <= k < n implies #[trigger] rows_view(data@)[k].len() == w by {
            assert(rows_view(data@)[k] == data@[k]@);
            assert(is_softmax_row(scores@[k], *larger, *shifted_exp, *plus, zero, *divide, data@[k]@));
        }
        assert forall|k: int| 0 <= k < n implies
            is_softmax_row(scores@[k], *larger, *shifted_exp, *plus, zero, *divide, #[trigger] rows_view(data@)[k]) by {
            assert(rows_view(data@)[k] == data@[k]@);
        }
    }
    Matrix::new(data, w)
}

/// The value that softmax subtracts in a row is the row's maximum: when `larger`
/// returns one of its arguments and nothing below either under a preorder `le`, every
/// entry of the row, the first included, is at most the subtracted value, and that
/// value is one of the row's entries. Entry `k` of the result is then a result of
/// `divide` on `shifted_exp(x[k], max)` and the sum of all those exponentials.
pub proof fn lemma_softmax_subtracts_row_max<T, L: Fn(T, T) -> T, E: Fn(T, T) -> T, P: Fn(T, T) -> T, D: Fn(T, T) -> T>(
    x: Seq<T>,
    larger: L,
    shifted_exp: E,
    plus: P,
    zero: T,
    divide: D,
    g: Seq<T>,
    le: spec_fn(T, T) -> bool,
)
    requires
        x.len() > 0,
        forall|a: T| #[trigger] le(a, a),
        forall|a: T, b: T, c: T| #[trigger] le(a, b) && #[trigger] le(b, c) ==> le(a, c),
        forall|a: T, b: T, r: T| larger.ensures((a, b), r) ==> (r == a || r == b) && le(a, r) && le(b, r),
        is_softmax_row(x, larger, shifted_exp, plus, zero, divide, g),
    ensures
        g.len() == x.len(),
        exists|mx: T, e: Seq<T>, total: T|
            #![trigger folds_to(plus, zero, e, total), le(x[0], mx)]
        {
            &&& exists|k: int| 0 <= k < x.len() && mx == #[trigger] x[k]
            &&& forall|k: int| 0 <= k < x.len() ==> le(#[trigger] x[k], mx)
            &&& e.len() == x.len()
            &&& forall|k: int| 0 <= k < x.len() ==> shifted_exp.ensures((x[k], mx), #[trigger] e[k])
            &&& folds_to(plus, zero, e, total)
            &&& forall|k: int| 0 <= k < x.len() ==> divide.ensures((e[k], total), #[trigger] g[k])
        },
{
    let (mx, e, total) = choose|mx: T, e: Seq<T>, total: T| {
        &&& #[trigger] folds_to(larger, x[0], x.drop_first(), mx)
        &&& e.len() == x.len()
        &&& forall|k: int| 0 <= k < x.len() ==> shifted_exp.ensures((x[k], mx), #[trigger] e[k])
        &&& #[trigger] folds_to(plus, zero, e, total)
        &&& forall|k: int| 0 <= k < x.len() ==> divide.ensures((e[k], total), #[trigger] g[k])
    };
    let rest = x.drop_first();
    lemma_folds_to_max(larger, x[0], rest, mx, le);
    assert forall|k: int| 0 <= k < x.len() implies le(#[trigger] x[k], mx) by {
        if k > 0 {
            assert(rest[k - 1] == x[k]);
            assert(le(rest[k - 1], mx));
        }
    }
    if mx == x[0] {
        assert(0 <= 0 < x.len() && mx == x[0]);
    } else {
        let k = choose|k: int| 0 <= k < rest.len() && mx == #[trigger] rest[k];
        assert(rest[k] == x[k + 1]);
        assert(0 <= k + 1 < x.len() && mx == x[k + 1]);
    }
    assert(le(x[0], mx));
    assert(folds_to(plus, zero, e, total));
}

/// Dot product of no entries is the start value `zero`.
pub proof fn lemma_dot_empty<T, M: Fn(T, T) -> T, P: Fn(T, T) -> T>(
    y: Seq<T>,
    dy: Seq<T>,
    times: M,
    plus: P,
    zero: T,
    dot: T,
)
    ensures
        is_dot(y, dy, 0, times, plus, zero, dot) <==> dot == zero,
{
    if is_dot(y, dy, 0, times, plus, zero, dot) {
        let prods = choose|prods: Seq<T>| {
            &&& prods.len() == 0
            &&& forall|k: int| 0 <= k < 0 ==> times.ensures((y[k], dy[k]), #[trigger] prods[k])
            &&& #[trigger] folds_to(plus, zero, prods, dot)
        };
        let chain = choose|chain: Seq<T>| #[trigger] is_fold_chain(plus, zero, prods, chain) && chain.last() == dot;
        assert(chain.len() == 1);
    }
    if dot == zero {
        lemma_folds_to_empty(plus, zero);
        assert(Seq::<T>::empty().len() == 0);
        assert(folds_to(plus, zero, Seq::<T>::empty(), dot));
    }
}

/// The dot product of the first `len + 1` entries is the dot product of the first
/// `len` entries plus the product of entry `len` of `y` with entry `len` of `dy`, and
/// every such sum is one.
pub proof fn lemma_dot_step<T, M: Fn(T, T) -> T, P: Fn(T, T) -> T>(
    y: Seq<T>,
    dy: Seq<T>,
    len: nat,
    times: M,
    plus: P,
    zero: T,
    dot: T,
)
    ensures
        is_dot(y, dy, len + 1, times, plus, zero, dot) <==> exists|d0: T, p: T| {
            &&& #[trigger] is_dot(y, dy, len, times, plus, zero, d0)
            &&& #[trigger] times.ensures((y[len as int], dy[len as int]), p)
            &&& plus.ensures((d0, p), dot)
        },
{
    if is_dot(y, dy, len + 1, times, plus, zero, dot) {
        let prods = choose|prods: Seq<T>| {
            &&& prods.len() == len + 1
            &&& forall|k: int| 0 <= k < len + 1 ==> times.ensures((y[k], dy[k]), #[trigger] prods[k])
            &&& #[trigger] folds_to(plus, zero, prods, dot)
        };
        let chain = choose|chain: Seq<T>| #[trigger] is_fold_chain(plus, zero, prods, chain) && chain.last() == dot;
        let pre = prods.take(len as int);
        let c0 = chain.take((len + 1) as int);
        assert forall|k: int| 0 <= k < pre.len() implies #[trigger] plus.ensures((c0[k], pre[k]), c0[k + 1]) by {
            assert(plus.ensures((chain[k], prods[k]), chain[k + 1]));
        }
        assert(is_fold_chain(plus, zero, pre, c0));
        let d0 = chain[len as int];
        assert(folds_to(plus, zero, pre, d0));
        assert forall|k: int| 0 <= k < len implies times.ensures((y[k], dy[k]), #[trigger] pre[k]) by {
            assert(times.ensures((y[k], dy[k]), prods[k]));
        }
        assert(is_dot(y, dy, len, times, plus, zero, d0));
        let p = prods[len as int];
        assert(times.ensures((y[len as int], dy[len as int]), p));
        assert(plus.ensures((chain[len as int], prods[len as int]), chain[(len + 1) as int]));
    }
    if exists|d0: T, p: T| {
        &&& #[trigger] is_dot(y, dy, len, times, plus, zero, d0)
        &&& #[trigger] times.ensures((y[len as int], dy[len as int]), p)
        &&& plus.ensures((d0, p), dot)
    } {
        let (d0, p) = choose|d0: T, p: T| {
            &&& #[trigger] is_dot(y, dy, len, times, plus, zero, d0)
            &&& #[trigger] times.ensures((y[len as int], dy[len as int]), p)
            &&& plus.ensures((d0, p), dot)
        };
        let prods = choose|prods: Seq<T>| {
            &&& prods.len() == len
            &&& forall|k: int| 0 <= k < len ==> times.ensures((y[k], dy[k]), #[trigger] prods[k])
            &&& #[trigger] folds_to(plus, zero, prods, d0)
        };
        lemma_folds_to_push(plus, zero, prods, d0, p, dot);
        let ps = prods.push(p);
        assert forall|k: int| 0 <= k < len + 1 implies times.ensures((y[k], dy[k]), #[trigger] ps[k]) by {
            if k < len {
                assert(ps[k] == prods[k]);
            }
        }
        assert(is_dot(y, dy, len + 1, times, plus, zero, dot));
    }
}

/// A row of the softmax gradient keeps the length of the output row; each of its first
/// `len` entries is a result of `combine` on the output entry, the incoming gradient
/// entry at the same index, and one dot product of the two rows' first `len` entries;
/// every later entry is the output entry.
pub proof fn lemma_softmax_grad_row_entries<T, M: Fn(T, T) -> T, P: Fn(T, T) -> T, C: Fn(T, T, T) -> T>(
    y: Seq<T>,
    dy: Seq<T>,
    len: nat,
    times: M,
    plus: P,
    zero: T,
    combine: C,
    g: Seq<T>,
)
    requires
        is_softmax_grad_row(y, dy, len, times, plus, zero, combine, g),
    ensures
        g.len() == y.len(),
        forall|k: int| len <= k < y.len() ==> #[trigger] g[k] == y[k],
        exists|dot: T| {
            &&& #[trigger] is_dot(y, dy, len, times, plus, zero, dot)
            &&& forall|k: int| 0 <= k < len ==> combine.ensures((y[k], dy[k], dot), #[trigger] g[k])
        },
{
}

} // verus!

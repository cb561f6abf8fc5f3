//! Token and position embeddings: the first step of the transformer, turning token
//! ids into rows of the embedding space.

use vstd::prelude::*;
use crate::fold::{folds_to, is_fold_chain, lemma_folds_to_empty, lemma_folds_to_push};
use crate::matrix::{Matrix, copy_vec, is_table, rows_view, bcast, bcast_compatible, bcast_len};

verus! {

/// Token embeddings (one row per vocabulary entry) and positional embeddings (one
/// row per position in a sequence).
#[derive(Debug)]
pub struct Embed<T> {
    pub token: Matrix<T>,
    pub position: Matrix<T>,
}

/// Why the gradient step of an embedding layer cannot go through: the first of its
/// checks that fails, at the first position where one fails.
#[derive(Debug, Clone, Copy, PartialEq, Eq)]
pub enum EmbedBackwardError {
    /// The token id at `position` has no row in a token table of `vocab_size` rows.
    TokenOutOfRange { position: usize, token_id: usize, vocab_size: usize },
    /// The gradient has no row for `position`.
    MissingGradRow { position: usize },
    /// A gradient row of `grad_width` entries cannot be added into a token row of `width`.
    TokenWidthMismatch { grad_width: usize, width: usize },
    /// The positional table of `max_seq_len` rows has no row for `position`.
    PositionOutOfRange { position: usize, max_seq_len: usize },
    /// A gradient row of `grad_width` entries cannot be added into a positional row of `width`.
    PositionWidthMismatch { grad_width: usize, width: usize },
}

/// A row of length `src` can be added into a row of length `dst`: equal lengths, or a
/// one-entry row stretched across the other.
pub open spec fn stretches_to(src: nat, dst: nat) -> bool {
    src == dst || src == 1
}

/// Entries of column `j` of the gradient rows whose position, among the first `n`,
/// carries token `r`, in order of position.
pub open spec fn picks<T>(ids: Seq<usize>, grads: Seq<Seq<T>>, r: int, j: int, n: nat) -> Seq<T>
    decreases n,
{
    if n == 0 {
        Seq::empty()
    } else {
        let p = picks(ids, grads, r, j, (n - 1) as nat);
        if ids[n - 1] == r {
            p.push(bcast(grads[n - 1], j))
        } else {
            p
        }
    }
}

/// Positions among the first `n` that carry no token `r` contribute nothing to row `r`.
pub proof fn lemma_picks_empty<T>(ids: Seq<usize>, grads: Seq<Seq<T>>, r: int, j: int, n: nat)
    requires
        n <= ids.len(),
        forall|i: int| 0 <= i < n ==> ids[i] != r,
    ensures
        picks(ids, grads, r, j, n) == Seq::<T>::empty(),
    decreases n,
{
    if n > 0 {
        lemma_picks_empty(ids, grads, r, j, (n - 1) as nat);
    }
}

/// A token that no position carries gets a gradient of `zero` in every entry: the
/// accumulated gradient of its row is the fold of nothing.
pub proof fn lemma_unused_token_grad_is_zero<T, F: Fn(T, T) -> T>(
    ids: Seq<usize>,
    grads: Seq<Seq<T>>,
    t: int,
    j: int,
    plus: F,
    zero: T,
    g: T,
)
    requires
        forall|i: int| 0 <= i < ids.len() ==> ids[i] != t,
        folds_to(plus, zero, picks(ids, grads, t, j, ids.len()), g),
    ensures
        g == zero,
{
    lemma_picks_empty(ids, grads, t, j, ids.len());
    let chain = choose|chain: Seq<T>| #[trigger] is_fold_chain(plus, zero, Seq::<T>::empty(), chain) && chain.last() == g;
    assert(chain.len() == 1);
}

/// Gradient routing: the entries that reach row `r` from the first `n` positions are,
/// in order of position, the entries of column `j` of the gradient rows of exactly the
/// positions that carry token `r`, each row taken at its own position.
pub proof fn lemma_picks_routes_by_position<T>(ids: Seq<usize>, grads: Seq<Seq<T>>, r: int, j: int, n: nat)
    requires
        n <= ids.len(),
    ensures
        exists|idx: Seq<int>| {
            &&& #[trigger] idx.len() == picks(ids, grads, r, j, n).len()
            &&& forall|k: int| 0 <= k < idx.len() ==> 0 <= #[trigger] idx[k] < n && ids[idx[k]] == r
                && picks(ids, grads, r, j, n)[k] == bcast(grads[idx[k]], j)
            &&& forall|k1: int, k2: int| 0 <= k1 < k2 < idx.len() ==> #[trigger] idx[k1] < #[trigger] idx[k2]
            &&& forall|i: int| 0 <= i < n && ids[i] == r ==> exists|k: int| 0 <= k < idx.len() && #[trigger] idx[k] == i
        },
    decreases n,
{
    if n == 0 {
        let idx = Seq::<int>::empty();
        assert(idx.len() == picks(ids, grads, r, j, n).len());
    } else {
        lemma_picks_routes_by_position(ids, grads, r, j, (n - 1) as nat);
        let p = picks(ids, grads, r, j, (n - 1) as nat);
        let idx0 = choose|idx: Seq<int>| {
            &&& #[trigger] idx.len() == picks(ids, grads, r, j, (n - 1) as nat).len()
            &&& forall|k: int| 0 <= k < idx.len() ==> 0 <= #[trigger] idx[k] < n - 1 && ids[idx[k]] == r
                && picks(ids, grads, r, j, (n - 1) as nat)[k] == bcast(grads[idx[k]], j)
            &&& forall|k1: int, k2: int| 0 <= k1 < k2 < idx.len() ==> #[trigger] idx[k1] < #[trigger] idx[k2]
            &&& forall|i: int| 0 <= i < n - 1 && ids[i] == r ==> exists|k: int| 0 <= k < idx.len() && #[trigger] idx[k] == i
        };
        let last = n - 1;
        if ids[last] == r {
            let idx = idx0.push(last);
            let q = picks(ids, grads, r, j, n);
            assert(q == p.push(bcast(grads[last], j)));
            assert forall|k: int| 0 <= k < idx.len() implies 0 <= #[trigger] idx[k] < n && ids[idx[k]] == r
                && q[k] == bcast(grads[idx[k]], j) by {
                if k < idx0.len() {
                    assert(idx[k] == idx0[k]);
                }
            }
            assert forall|k1: int, k2: int| 0 <= k1 < k2 < idx.len() implies #[trigger] idx[k1] < #[trigger] idx[k2] by {
                assert(idx[k1] == idx0[k1]);
                if k2 < idx0.len() {
                    assert(idx[k2] == idx0[k2]);
                }
            }
            assert forall|i: int| 0 <= i < n && ids[i] == r implies exists|k: int| 0 <= k < idx.len() && #[trigger] idx[k] == i by {
                if i < last {
                    let k = choose|k: int| 0 <= k < idx0.len() && #[trigger] idx0[k] == i;
                    assert(idx[k] == idx0[k]);
                } else {
                    assert(idx[idx0.len() as int] == i);
                }
            }
            assert(idx.len() == q.len());
        } else {
            let q = picks(ids, grads, r, j, n);
            assert(q == p);
            assert forall|i: int| 0 <= i < n && ids[i] == r implies exists|k: int| 0 <= k < idx0.len() && #[trigger] idx0[k] == i by {
                assert(i < last);
            }
            assert(idx0.len() == q.len());
        }
    }
}

/// A token carried by one position only gets, in each column, a result of `plus` on
/// `zero` and that position's own gradient entry.
pub proof fn lemma_single_position_token_grad<T, F: Fn(T, T) -> T>(
    ids: Seq<usize>,
    grads: Seq<Seq<T>>,
    i: int,
    j: int,
    plus: F,
    zero: T,
    g: T,
)
    requires
        0 <= i < ids.len(),
        forall|k: int| 0 <= k < ids.len() && k != i ==> ids[k] != ids[i],
        folds_to(plus, zero, picks(ids, grads, ids[i] as int, j, ids.len()), g),
    ensures
        plus.ensures((zero, bcast(grads[i], j)), g),
{
    let t = ids[i] as int;
    lemma_picks_routes_by_position(ids, grads, t, j, ids.len());
    let ps = picks(ids, grads, t, j, ids.len());
    let idx = choose|idx: Seq<int>| {
        &&& #[trigger] idx.len() == picks(ids, grads, t, j, ids.len()).len()
        &&& forall|k: int| 0 <= k < idx.len() ==> 0 <= #[trigger] idx[k] < ids.len() && ids[idx[k]] == t
            && picks(ids, grads, t, j, ids.len())[k] == bcast(grads[idx[k]], j)
        &&& forall|k1: int, k2: int| 0 <= k1 < k2 < idx.len() ==> #[trigger] idx[k1] < #[trigger] idx[k2]
        &&& forall|q: int| 0 <= q < ids.len() && ids[q] == t ==> exists|k: int| 0 <= k < idx.len() && #[trigger] idx[k] == q
    };
    let k0 = choose|k: int| 0 <= k < idx.len() && #[trigger] idx[k] == i;
    assert forall|k: int| 0 <= k < idx.len() implies #[trigger] idx[k] == i by {
        assert(ids[idx[k]] == t);
    }
    if idx.len() > 1 {
        assert(idx[0] < idx[1]);
        assert(idx[0] == i && idx[1] == i);
    }
    assert(ps.len() == 1);
    assert(ps[0] == bcast(grads[i], j));
    let chain = choose|chain: Seq<T>| #[trigger] is_fold_chain(plus, zero, ps, chain) && chain.last() == g;
    let z: int = 0;
    assert(plus.ensures((chain[z], ps[z]), chain[z + 1]));
}

impl<T> Embed<T> {
    /// Every check of the gradient step passes at position `k`.
    pub open spec fn backward_ok_at(&self, ids: Seq<usize>, grad_rows: nat, grad_cols: nat, k: int) -> bool {
        &&& ids[k] < self.token.nrows()
        &&& k < grad_rows
        &&& stretches_to(grad_cols, self.token.ncols())
        &&& k < self.position.nrows()
        &&& stretches_to(grad_cols, self.position.ncols())
    }

    /// The first check of the gradient step that fails at position `k`.
    pub open spec fn backward_fault(&self, ids: Seq<usize>, grad_rows: nat, grad_cols: nat, k: int) -> EmbedBackwardError {
        if !(ids[k] < self.token.nrows()) {
            EmbedBackwardError::TokenOutOfRange {
                position: k as usize,
                token_id: ids[k],
                vocab_size: self.token.nrows() as usize,
            }
        } else if !(k < grad_rows) {
            EmbedBackwardError::MissingGradRow { position: k as usize }
        } else if !stretches_to(grad_cols, self.token.ncols()) {
            EmbedBackwardError::TokenWidthMismatch {
                grad_width: grad_cols as usize,
                width: self.token.ncols() as usize,
            }
        } else if !(k < self.position.nrows()) {
            EmbedBackwardError::PositionOutOfRange {
                position: k as usize,
                max_seq_len: self.position.nrows() as usize,
            }
        } else {
            EmbedBackwardError::PositionWidthMismatch {
                grad_width: grad_cols as usize,
                width: self.position.ncols() as usize,
            }
        }
    }
}

impl<T> Embed<T> {
    /// The gradient step passes its checks at every position exactly when every token
    /// id has a row in the token table, the gradient and the positional table have a row
    /// for every position, and, when there is a position at all, a gradient row is as
    /// wide as each table's rows or is one entry wide.
    pub proof fn lemma_backward_ok_iff(&self, ids: Seq<usize>, grad_rows: nat, grad_cols: nat)
        ensures
            (forall|k: int| 0 <= k < ids.len() ==> #[trigger] self.backward_ok_at(ids, grad_rows, grad_cols, k))
            <==> {
                &&& forall|k: int| 0 <= k < ids.len() ==> #[trigger] ids[k] < self.token.nrows()
                &&& ids.len() <= grad_rows
                &&& ids.len() <= self.position.nrows()
                &&& ids.len() > 0 ==> (grad_cols == self.token.ncols() || grad_cols == 1)
                &&& ids.len() > 0 ==> (grad_cols == self.position.ncols() || grad_cols == 1)
            },
    {
        if forall|k: int| 0 <= k < ids.len() ==> #[trigger] self.backward_ok_at(ids, grad_rows, grad_cols, k) {
            if ids.len() > 0 {
                let last = ids.len() - 1;
                assert(self.backward_ok_at(ids, grad_rows, grad_cols, last));
                assert(self.backward_ok_at(ids, grad_rows, grad_cols, 0));
            }
            assert forall|k: int| 0 <= k < ids.len() implies #[trigger] ids[k] < self.token.nrows() by {
                assert(self.backward_ok_at(ids, grad_rows, grad_cols, k));
            }
        }
    }
}

impl<T> Embed<T> {
    /// The fault reported at a position names the first failing check in this order:
    /// the token id has no row; the gradient has no row there; a gradient row does not
    /// fit a token row; the positional table has no row there; a gradient row does not
    /// fit a positional row.
    pub proof fn lemma_backward_fault_order(&self, ids: Seq<usize>, grad_rows: nat, grad_cols: nat, k: int)
        requires
            0 <= k < ids.len(),
        ensures
            ids[k] >= self.token.nrows() ==> self.backward_fault(ids, grad_rows, grad_cols, k)
                == (EmbedBackwardError::TokenOutOfRange {
                    position: k as usize,
                    token_id: ids[k],
                    vocab_size: self.token.nrows() as usize,
                }),
            ids[k] < self.token.nrows() && k >= grad_rows ==> self.backward_fault(ids, grad_rows, grad_cols, k)
                == (EmbedBackwardError::MissingGradRow { position: k as usize }),
            ids[k] < self.token.nrows() && k < grad_rows && grad_cols != self.token.ncols() && grad_cols != 1
                ==> self.backward_fault(ids, grad_rows, grad_cols, k) == (EmbedBackwardError::TokenWidthMismatch {
                    grad_width: grad_cols as usize,
                    width: self.token.ncols() as usize,
                }),
            ids[k] < self.token.nrows() && k < grad_rows && (grad_cols == self.token.ncols() || grad_cols == 1)
                && k >= self.position.nrows() ==> self.backward_fault(ids, grad_rows, grad_cols, k)
                == (EmbedBackwardError::PositionOutOfRange {
                    position: k as usize,
                    max_seq_len: self.position.nrows() as usize,
                }),
            ids[k] < self.token.nrows() && k < grad_rows && (grad_cols == self.token.ncols() || grad_cols == 1)
                && k < self.position.nrows() && grad_cols != self.position.ncols() && grad_cols != 1
                ==> self.backward_fault(ids, grad_rows, grad_cols, k) == (EmbedBackwardError::PositionWidthMismatch {
                    grad_width: grad_cols as usize,
                    width: self.position.ncols() as usize,
                }),
    {
    }
}

impl<T: Copy> Embed<T> {
    /// The embedding rows of the given token ids, in order.
    pub fn get_token_embeddings(embeddings: &Matrix<T>, token_ids: &[usize]) -> (r: Matrix<T>)
        requires
            forall|i: int| 0 <= i < token_ids@.len() ==> #[trigger] token_ids@[i] < embeddings.nrows(),
        ensures
            r.nrows() == token_ids@.len(),
            r.ncols() == embeddings.ncols(),
            is_table(r@, r.nrows(), r.ncols()),
            forall|i: int| 0 <= i < token_ids@.len() ==> #[trigger] r@[i] == embeddings@[token_ids@[i] as int],
    {
        let cols = embeddings.cols();
        let n = token_ids.len();
        let mut data: Vec<Vec<T>> = Vec::new();
        let mut i: usize = 0;
        while i < n
            invariant
                n == token_ids@.len(),
                cols == embeddings.ncols(),
                is_table(embeddings@, embeddings.nrows(), embeddings.ncols()),
                forall|k: int| 0 <= k < n ==> #[trigger] token_ids@[k] < embeddings.nrows(),
                0 <= i <= n,
                data@.len() == i,
                forall|k: int| 0 <= k < i ==> #[trigger] data@[k]@ == embeddings@[token_ids@[k] as int],
            decreases n - i,
        {
            let id = token_ids[i];
            let row = copy_vec(embeddings.row(id));
            data.push(row);
            i = i + 1;
        }
        proof {
            assert forall|k: int| 0 <= k < n implies #[trigger] rows_view(data@)[k].len() == cols by {
                assert(data@[k]@ == embeddings@[token_ids@[k] as int]);
            }
        }
        Matrix::new(data, cols)
    }

    /// The first `seq_len` positional embedding rows.
    pub fn get_positional_embeddings(positional_encodings: &Matrix<T>, seq_len: usize) -> (r: Matrix<T>)
        requires
            seq_len <= positional_encodings.nrows(),
        ensures
            r.nrows() == seq_len,
            r.ncols() == positional_encodings.ncols(),
            is_table(r@, r.nrows(), r.ncols()),
            r@ == positional_encodings@.take(seq_len as int),
    {
        let cols = positional_encodings.cols();
        let mut data: Vec<Vec<T>> = Vec::new();
        let mut i: usize = 0;
        while i < seq_len
            invariant
                seq_len <= positional_encodings.nrows(),
                cols == positional_encodings.ncols(),
                is_table(positional_encodings@, positional_encodings.nrows(), positional_encodings.ncols()),
                0 <= i <= seq_len,
                data@.len() == i,
                forall|k: int| 0 <= k < i ==> #[trigger] data@[k]@ == positional_encodings@[k],
            decreases seq_len - i,
        {
            let row = copy_vec(positional_encodings.row(i));
            data.push(row);
            i = i + 1;
        }
        proof {
            assert forall|k: int| 0 <= k < seq_len implies #[trigger] rows_view(data@)[k].len() == cols by {
                assert(data@[k]@ == positional_encodings@[k]);
            }
            assert(rows_view(data@) =~= positional_encodings@.take(seq_len as int));
        }
        Matrix::new(data, cols)
    }

    /// Embeds a sequence of tokens: row `i` of the result is the embedding of
    /// `token_ids[i]` combined by `plus` with the positional embedding of position `i`.
    pub fn embed_tokens<F: Fn(T, T) -> T>(&self, token_ids: &[usize], plus: &F) -> (r: Matrix<T>)
        requires
            forall|i: int| 0 <= i < token_ids@.len() ==> #[trigger] token_ids@[i] < self.token.nrows(),
            token_ids@.len() <= self.position.nrows(),
            bcast_compatible(self.token.ncols(), self.position.ncols()),
            forall|a: T, b: T| plus.requires((a, b)),
        ensures
            r.nrows() == token_ids@.len(),
            r.ncols() == bcast_len(self.token.ncols(), self.position.ncols()),
            is_table(r@, r.nrows(), r.ncols()),
            forall|i: int, j: int|
                0 <= i < r.nrows() && 0 <= j < r.ncols() ==> plus.ensures(
                    (bcast(self.token@[token_ids@[i] as int], j), bcast(self.position@[i], j)),
                    #[trigger] r@[i][j],
                ),
    {
        let _ = self.position.rows();
        let token_embeds = Self::get_token_embeddings(&self.token, token_ids);
        let position_embeds = Self::get_positional_embeddings(&self.position, token_ids.len());
        let r = token_embeds.zip_broadcast(&position_embeds, plus);
        proof {
            assert forall|i: int, j: int| 0 <= i < r.nrows() && 0 <= j < r.ncols() implies plus.ensures(
                (bcast(self.token@[token_ids@[i] as int], j), bcast(self.position@[i], j)),
                #[trigger] r@[i][j],
            ) by {
                assert(token_embeds@[i] == self.token@[token_ids@[i] as int]);
                assert(position_embeds@[i] == self.position@[i]);
            }
        }
        r
    }

    /// Runs the checks of the gradient step over the positions in order and reports
    /// the first that fails.
    pub fn backward_check(&self, token_ids: &[usize], grads: &Matrix<T>) -> (r: Result<(), EmbedBackwardError>)
        ensures
            r is Ok <==> forall|k: int| 0 <= k < token_ids@.len() ==>
                #[trigger] self.backward_ok_at(token_ids@, grads.nrows(), grads.ncols(), k),
            r matches Err(e) ==> exists|k: int| {
                &&& 0 <= k < token_ids@.len()
                &&& forall|i: int| 0 <= i < k ==> #[trigger] self.backward_ok_at(token_ids@, grads.nrows(), grads.ncols(), i)
                &&& !self.backward_ok_at(token_ids@, grads.nrows(), grads.ncols(), k)
                &&& e == self.backward_fault(token_ids@, grads.nrows(), grads.ncols(), k)
            },
    {
        let vocab = self.token.rows();
        let tcols = self.token.cols();
        let max_len = self.position.rows();
        let pcols = self.position.cols();
        let grows = grads.rows();
        let gcols = grads.cols();
        let n = token_ids.len();
        let mut i: usize = 0;
        while i < n
            invariant
                n == token_ids@.len(),
                vocab == self.token.nrows(),
                tcols == self.token.ncols(),
                max_len == self.position.nrows(),
                pcols == self.position.ncols(),
                grows == grads.nrows(),
                gcols == grads.ncols(),
                0 <= i <= n,
                forall|k: int| 0 <= k < i ==> #[trigger] self.backward_ok_at(token_ids@, grads.nrows(), grads.ncols(), k),
            decreases n - i,
        {
            let id = token_ids[i];
            let fault = if id >= vocab {
                Some(EmbedBackwardError::TokenOutOfRange { position: i, token_id: id, vocab_size: vocab })
            } else if i >= grows {
                Some(EmbedBackwardError::MissingGradRow { position: i })
            } else if !(gcols == tcols || gcols == 1) {
                Some(EmbedBackwardError::TokenWidthMismatch { grad_width: gcols, width: tcols })
            } else if i >= max_len {
                Some(EmbedBackwardError::PositionOutOfRange { position: i, max_seq_len: max_len })
            } else if !(gcols == pcols || gcols == 1) {
                Some(EmbedBackwardError::PositionWidthMismatch { grad_width: gcols, width: pcols })
            } else {
                None
            };
            match fault {
                Some(e) => {
                    assert(!self.backward_ok_at(token_ids@, grads.nrows(), grads.ncols(), i as int));
                    assert(e == self.backward_fault(token_ids@, grads.nrows(), grads.ncols(), i as int));
                    return Err(e);
                },
                None => {},
            }
            i = i + 1;
        }
        Ok(())
    }

    /// Gradients of the two embedding tables for one step: the gradient row of each
    /// position is added, with `plus`, into the token row of the token at that position
    /// and into the positional row of that position, starting from tables of `zero`.
    pub fn accumulate_grads<F: Fn(T, T) -> T>(&self, grads: &Matrix<T>, token_ids: &[usize], zero: T, plus: &F) -> (r: (Matrix<T>, Matrix<T>))
        requires
            forall|k: int| 0 <= k < token_ids@.len() ==>
                #[trigger] self.backward_ok_at(token_ids@, grads.nrows(), grads.ncols(), k),
            forall|a: T, b: T| plus.requires((a, b)),
        ensures
            r.0.nrows() == self.token.nrows(),
            r.0.ncols() == self.token.ncols(),
            is_table(r.0@, r.0.nrows(), r.0.ncols()),
            r.1.nrows() == self.position.nrows(),
            r.1.ncols() == self.position.ncols(),
            is_table(r.1@, r.1.nrows(), r.1.ncols()),
            forall|t: int, j: int| 0 <= t < r.0.nrows() && 0 <= j < r.0.ncols() ==>
                folds_to(*plus, zero, picks(token_ids@, grads@, t, j, token_ids@.len()), #[trigger] r.0@[t][j]),
            forall|p: int, j: int| 0 <= p < r.1.nrows() && 0 <= j < r.1.ncols() ==>
                if p < token_ids@.len() {
                    plus.ensures((zero, bcast(grads@[p], j)), #[trigger] r.1@[p][j])
                } else {
                    r.1@[p][j] == zero
                },
    {
        let vocab = self.token.rows();
        let tcols = self.token.cols();
        let max_len = self.position.rows();
        let pcols = self.position.cols();
        let grows = grads.rows();
        let gcols = grads.cols();
        let n = token_ids.len();
        let token_zero = Matrix::filled(vocab, tcols, zero);
        let mut tg = token_zero.into_rows();
        let pos_zero = Matrix::filled(max_len, pcols, zero);
        let mut pg = pos_zero.into_rows();
        proof {
            lemma_folds_to_empty(*plus, zero);
            assert forall|t: int, j: int| 0 <= t < vocab && 0 <= j < tcols implies
                folds_to(*plus, zero, picks(token_ids@, grads@, t, j, 0), #[trigger] tg@[t]@[j]) by {
                assert(rows_view(tg@)[t] == tg@[t]@);
                assert(picks(token_ids@, grads@, t, j, 0) == Seq::<T>::empty());
            }
            assert forall|p: int, j: int| 0 <= p < max_len && 0 <= j < pcols implies
                #[trigger] pg@[p]@[j] == zero by {
                assert(rows_view(pg@)[p] == pg@[p]@);
            }
        }
        let mut i: usize = 0;
        while i < n
            invariant
                n == token_ids@.len(),
                vocab == self.token.nrows(),
                tcols == self.token.ncols(),
                max_len == self.position.nrows(),
                pcols == self.position.ncols(),
                grows == grads.nrows(),
                gcols == grads.ncols(),
                is_table(grads@, grows as nat, gcols as nat),
                forall|k: int| 0 <= k < n ==>
                    #[trigger] self.backward_ok_at(token_ids@, grads.nrows(), grads.ncols(), k),
                forall|a: T, b: T| plus.requires((a, b)),
                folds_to(*plus, zero, Seq::<T>::empty(), zero),
                0 <= i <= n,
                is_table(rows_view(tg@), vocab as nat, tcols as nat),
                is_table(rows_view(pg@), max_len as nat, pcols as nat),
                forall|t: int, j: int| 0 <= t < vocab && 0 <= j < tcols ==>
                    folds_to(*plus, zero, picks(token_ids@, grads@, t, j, i as nat), #[trigger] tg@[t]@[j]),
                forall|p: int, j: int| 0 <= p < max_len && 0 <= j < pcols ==>
                    if p < i {
                        plus.ensures((zero, bcast(grads@[p], j)), #[trigger] pg@[p]@[j])
                    } else {
                        pg@[p]@[j] == zero
                    },
            decreases n - i,
        {
            assert(self.backward_ok_at(token_ids@, grads.nrows(), grads.ncols(), i as int));
            let id = token_ids[i];
            let grow = grads.row(i);
            assert(rows_view(tg@)[id as int] == tg@[id as int]@);
            assert(rows_view(pg@)[i as int] == pg@[i as int]@);
            let old_t = copy_vec(&tg[id]);
            let old_p = copy_vec(&pg[i]);
            let mut new_t: Vec<T> = Vec::new();
            let mut j: usize = 0;
            while j < tcols
                invariant
                    old_t@ == tg@[id as int]@,
                    old_t@.len() == tcols,
                    grow@ == grads@[i as int],
                    grow@.len() == gcols,
                    gcols == tcols || gcols == 1,
                    forall|a: T, b: T| plus.requires((a, b)),
                    0 <= j <= tcols,
                    new_t@.len() == j,
                    forall|k: int| 0 <= k < j ==> plus.ensures((old_t@[k], bcast(grow@, k)), #[trigger] new_t@[k]),
                decreases tcols - j,
            {
                let g = if gcols == 1 { grow[0] } else { grow[j] };
                let v = plus(old_t[j], g);
                new_t.push(v);
                j = j + 1;
            }
            let mut new_p: Vec<T> = Vec::new();
            let mut j: usize = 0;
            while j < pcols
                invariant
                    old_p@ == pg@[i as int]@,
                    old_p@.len() == pcols,
                    grow@ == grads@[i as int],
                    grow@.len() == gcols,
                    gcols == pcols || gcols == 1,
                    forall|a: T, b: T| plus.requires((a, b)),
                    0 <= j <= pcols,
                    new_p@.len() == j,
                    forall|k: int| 0 <= k < j ==> plus.ensures((old_p@[k], bcast(grow@, k)), #[trigger] new_p@[k]),
                decreases pcols - j,
            {
                let g = if gcols == 1 { grow[0] } else { grow[j] };
                let v = plus(old_p[j], g);
                new_p.push(v);
                j = j + 1;
            }
            let ghost tg_before = tg@;
            let ghost pg_before = pg@;
            tg[id] = new_t;
            pg[i] = new_p;
            proof {
                assert forall|t: int, j: int| 0 <= t < vocab && 0 <= j < tcols implies
                    folds_to(*plus, zero, picks(token_ids@, grads@, t, j, (i + 1) as nat), #[trigger] tg@[t]@[j]) by {
                    assert(rows_view(tg_before)[t] == tg_before[t]@);
                    if t == id as int {
                        assert(folds_to(*plus, zero, picks(token_ids@, grads@, t, j, i as nat), tg_before[t]@[j]));
                        lemma_folds_to_push(*plus, zero, picks(token_ids@, grads@, t, j, i as nat),
                            tg_before[t]@[j], bcast(grads@[i as int], j), tg@[t]@[j]);
                    } else {
                        assert(tg@[t] == tg_before[t]);
                        assert(folds_to(*plus, zero, picks(token_ids@, grads@, t, j, i as nat), tg_before[t]@[j]));
                    }
                }
                assert forall|p: int, j: int| 0 <= p < max_len && 0 <= j < pcols implies
                    if p < i + 1 {
                        plus.ensures((zero, bcast(grads@[p], j)), #[trigger] pg@[p]@[j])
                    } else {
                        pg@[p]@[j] == zero
                    } by {
                    assert(rows_view(pg_before)[p] == pg_before[p]@);
                    if p == i as int {
                        assert(pg_before[p]@[j] == zero);
                    } else {
                        assert(pg@[p] == pg_before[p]);
                    }
                }
                assert forall|t: int| 0 <= t < vocab implies #[trigger] rows_view(tg@)[t].len() == tcols by {
                    assert(rows_view(tg_before)[t] == tg_before[t]@);
                }
                assert forall|p: int| 0 <= p < max_len implies #[trigger] rows_view(pg@)[p].len() == pcols by {
                    assert(rows_view(pg_before)[p] == pg_before[p]@);
                }
            }
            i = i + 1;
        }
        let tm = Matrix::new(tg, tcols);
        let pm = Matrix::new(pg, pcols);
        (tm, pm)
    }
}

} // verus!

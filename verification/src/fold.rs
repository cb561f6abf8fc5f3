//! Left folds through a caller-supplied step function, stated as a relation so that
//! a step whose result Verus cannot compute still has an exact meaning.

use vstd::prelude::*;

verus! {

/// `chain` lists the running results of folding `xs` from `init` with `f`: it starts
/// at `init`, and each next entry is a result of `f` on the previous one and the
/// next element of `xs`.
pub open spec fn is_fold_chain<T, F: Fn(T, T) -> T>(f: F, init: T, xs: Seq<T>, chain: Seq<T>) -> bool {
    &&& chain.len() == xs.len() + 1
    &&& chain[0] == init
    &&& forall|k: int| 0 <= k < xs.len() ==> #[trigger] f.ensures((chain[k], xs[k]), chain[k + 1])
}

/// `r` is a possible result of folding `xs` from `init` with `f`, left to right.
pub open spec fn folds_to<T, F: Fn(T, T) -> T>(f: F, init: T, xs: Seq<T>, r: T) -> bool {
    exists|chain: Seq<T>| #[trigger] is_fold_chain(f, init, xs, chain) && chain.last() == r
}

/// Folding nothing gives the start value.
pub proof fn lemma_folds_to_empty<T, F: Fn(T, T) -> T>(f: F, init: T)
    ensures
        folds_to(f, init, Seq::<T>::empty(), init),
{
    let chain = seq![init];
    assert(is_fold_chain(f, init, Seq::<T>::empty(), chain));
}

/// One more step of a fold.
pub proof fn lemma_folds_to_push<T, F: Fn(T, T) -> T>(f: F, init: T, xs: Seq<T>, mid: T, x: T, r: T)
    requires
        folds_to(f, init, xs, mid),
        f.ensures((mid, x), r),
    ensures
        folds_to(f, init, xs.push(x), r),
{
    let chain = choose|chain: Seq<T>| #[trigger] is_fold_chain(f, init, xs, chain) && chain.last() == mid;
    let c2 = chain.push(r);
    let ys = xs.push(x);
    assert forall|k: int| 0 <= k < ys.len() implies #[trigger] f.ensures((c2[k], ys[k]), c2[k + 1]) by {
        if k < xs.len() {
            assert(f.ensures((chain[k], xs[k]), chain[k + 1]));
        }
    }
    assert(is_fold_chain(f, init, ys, c2));
}

/// The only fold of nothing is the start value.
pub proof fn lemma_folds_to_empty_only<T, F: Fn(T, T) -> T>(f: F, init: T, r: T)
    requires
        folds_to(f, init, Seq::<T>::empty(), r),
    ensures
        r == init,
{
    let chain = choose|chain: Seq<T>| #[trigger] is_fold_chain(f, init, Seq::<T>::empty(), chain) && chain.last() == r;
    assert(chain.len() == 1);
}

/// Every fold of a longer sequence ends with one step of `f` from a fold of the
/// sequence without its last element.
pub proof fn lemma_folds_to_last_step<T, F: Fn(T, T) -> T>(f: F, init: T, xs: Seq<T>, x: T, r: T)
    requires
        folds_to(f, init, xs.push(x), r),
    ensures
        exists|mid: T| #[trigger] folds_to(f, init, xs, mid) && f.ensures((mid, x), r),
{
    let ys = xs.push(x);
    let chain = choose|chain: Seq<T>| #[trigger] is_fold_chain(f, init, ys, chain) && chain.last() == r;
    let c0 = chain.take((xs.len() + 1) as int);
    assert forall|k: int| 0 <= k < xs.len() implies #[trigger] f.ensures((c0[k], xs[k]), c0[k + 1]) by {
        assert(f.ensures((chain[k], ys[k]), chain[k + 1]));
    }
    assert(is_fold_chain(f, init, xs, c0));
    let mid = chain[xs.len() as int];
    let n = xs.len() as int;
    assert(f.ensures((chain[n], ys[n]), chain[n + 1]));
    assert(folds_to(f, init, xs, mid));
}

/// Along a fold chain of a step that returns one of its two arguments and nothing
/// smaller than either under the preorder `le`, entry `n` is the start value or one of
/// the first `n` elements, and no earlier value is above it.
proof fn lemma_chain_running_max<T, F: Fn(T, T) -> T>(
    f: F,
    init: T,
    xs: Seq<T>,
    chain: Seq<T>,
    le: spec_fn(T, T) -> bool,
    n: int,
)
    requires
        forall|a: T| #[trigger] le(a, a),
        forall|a: T, b: T, c: T| #[trigger] le(a, b) && #[trigger] le(b, c) ==> le(a, c),
        forall|a: T, b: T, r: T| f.ensures((a, b), r) ==> (r == a || r == b) && le(a, r) && le(b, r),
        is_fold_chain(f, init, xs, chain),
        0 <= n <= xs.len(),
    ensures
        le(init, chain[n]),
        forall|k: int| 0 <= k < n ==> le(#[trigger] xs[k], chain[n]),
        chain[n] == init || exists|k: int| 0 <= k < n && chain[n] == #[trigger] xs[k],
    decreases n,
{
    if n > 0 {
        lemma_chain_running_max(f, init, xs, chain, le, n - 1);
        let m = n - 1;
        assert(f.ensures((chain[m], xs[m]), chain[m + 1]));
        assert(le(chain[m], chain[n]));
        assert(le(xs[m], chain[n]));
        assert forall|k: int| 0 <= k < n implies le(#[trigger] xs[k], chain[n]) by {
            if k < m {
                assert(le(xs[k], chain[m]));
            }
        }
        if chain[n] != init && chain[n] != xs[m] {
            assert(chain[n] == chain[m]);
        }
    }
}

/// A fold whose step keeps the larger of its two arguments under the preorder `le`
/// (returning one of them) ends at a maximum: a value that is the start value or an
/// element, and that no element and not the start value is above.
pub proof fn lemma_folds_to_max<T, F: Fn(T, T) -> T>(f: F, init: T, xs: Seq<T>, r: T, le: spec_fn(T, T) -> bool)
    requires
        forall|a: T| #[trigger] le(a, a),
        forall|a: T, b: T, c: T| #[trigger] le(a, b) && #[trigger] le(b, c) ==> le(a, c),
        forall|a: T, b: T, r: T| f.ensures((a, b), r) ==> (r == a || r == b) && le(a, r) && le(b, r),
        folds_to(f, init, xs, r),
    ensures
        le(init, r),
        forall|k: int| 0 <= k < xs.len() ==> le(#[trigger] xs[k], r),
        r == init || exists|k: int| 0 <= k < xs.len() && r == #[trigger] xs[k],
{
    let chain = choose|chain: Seq<T>| #[trigger] is_fold_chain(f, init, xs, chain) && chain.last() == r;
    lemma_chain_running_max(f, init, xs, chain, le, xs.len() as int);
}

} // verus!

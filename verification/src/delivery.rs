//! Handing a sequence of elements to a callback, one after the other.
//!
//! Verus knows an executable function only by its precondition and by the
//! relation between its arguments and its results, so a delivery is described
//! as a relation too: which states a callback can end in, and whether it may
//! be called at every step on the way.

use vstd::prelude::*;

verus! {

/// After `xs` has been handed to `blk` element by element, starting in state
/// `s0`, `blk` may have ended in state `s`.
pub open spec fn folds_to<S, A, F: Fn(S, A) -> S>(blk: &F, s0: S, xs: Seq<A>, s: S) -> bool
    decreases xs.len(),
{
    if xs.len() == 0 {
        s == s0
    } else {
        exists|mid: S|
            folds_to(blk, s0, xs.drop_last(), mid) && #[trigger] call_ensures(
                blk,
                (mid, xs.last()),
                s,
            )
    }
}

/// `blk` may be handed all of `xs` starting in state `s0`: whatever state it
/// reaches on a prefix, it may be called there with the next element.
pub open spec fn accepts<S, A, F: Fn(S, A) -> S>(blk: &F, s0: S, xs: Seq<A>) -> bool {
    forall|k: int, s: S|
        0 <= k < xs.len() && #[trigger] folds_to(blk, s0, xs.take(k), s) ==> call_requires(
            blk,
            (s, xs[k]),
        )
}

/// One more call of `blk` extends a delivery by one element.
pub proof fn lemma_folds_to_push<S, A, F: Fn(S, A) -> S>(
    blk: &F,
    s0: S,
    xs: Seq<A>,
    mid: S,
    x: A,
    s: S,
)
    requires
        folds_to(blk, s0, xs, mid),
        call_ensures(blk, (mid, x), s),
    ensures
        folds_to(blk, s0, xs.push(x), s),
{
    let ys = xs.push(x);
    assert(ys.drop_last() =~= xs);
    assert(call_ensures(blk, (mid, ys.last()), s));
}

/// A delivery of `xs` followed by one of `ys` is a delivery of `xs + ys`.
pub proof fn lemma_folds_to_join<S, A, F: Fn(S, A) -> S>(
    blk: &F,
    s0: S,
    xs: Seq<A>,
    mid: S,
    ys: Seq<A>,
    s: S,
)
    requires
        folds_to(blk, s0, xs, mid),
        folds_to(blk, mid, ys, s),
    ensures
        folds_to(blk, s0, xs + ys, s),
    decreases ys.len(),
{
    if ys.len() == 0 {
        assert(xs + ys =~= xs);
    } else {
        let last = choose|m: S|
            folds_to(blk, mid, ys.drop_last(), m) && #[trigger] call_ensures(
                blk,
                (m, ys.last()),
                s,
            );
        lemma_folds_to_join(blk, s0, xs, mid, ys.drop_last(), last);
        lemma_folds_to_push(blk, s0, xs + ys.drop_last(), last, ys.last(), s);
        assert((xs + ys.drop_last()).push(ys.last()) =~= xs + ys);
    }
}

/// A callback that accepts a sequence accepts each of its beginnings.
pub proof fn lemma_accepts_prefix<S, A, F: Fn(S, A) -> S>(blk: &F, s0: S, xs: Seq<A>, n: int)
    requires
        accepts(blk, s0, xs),
        0 <= n <= xs.len(),
    ensures
        accepts(blk, s0, xs.take(n)),
{
    let front = xs.take(n);
    assert forall|k: int, s: S| 0 <= k < front.len() && #[trigger] folds_to(blk, s0, front.take(k), s)
        implies call_requires(blk, (s, front[k])) by {
        assert(xs.take(k) =~= front.take(k));
    }
}

/// A callback that accepts `xs + ys` accepts `ys` in whatever state `xs`
/// left it.
pub proof fn lemma_accepts_rest<S, A, F: Fn(S, A) -> S>(
    blk: &F,
    s0: S,
    xs: Seq<A>,
    mid: S,
    ys: Seq<A>,
)
    requires
        accepts(blk, s0, xs + ys),
        folds_to(blk, s0, xs, mid),
    ensures
        accepts(blk, mid, ys),
{
    let all = xs + ys;
    assert forall|k: int, s: S| 0 <= k < ys.len() && #[trigger] folds_to(blk, mid, ys.take(k), s)
        implies call_requires(blk, (s, ys[k])) by {
        lemma_folds_to_join(blk, s0, xs, mid, ys.take(k), s);
        assert(all.take(xs.len() + k) =~= xs + ys.take(k));
        assert(all[xs.len() + k] == ys[k]);
    }
}

/// The rule of invariants. Let `inv(k, s)` say what holds of the state `s`
/// once `k` elements have been delivered. If it holds of the first state, and
/// wherever it holds the next call is admissible and leads to a state of which
/// it holds again, then `blk` accepts `xs`, and it holds of every state in
/// which the delivery of `xs` can end.
pub proof fn lemma_accepts_by_invariant<S, A, F: Fn(S, A) -> S>(
    blk: &F,
    s0: S,
    xs: Seq<A>,
    inv: spec_fn(int, S) -> bool,
)
    requires
        inv(0, s0),
        forall|k: int, s: S|
            0 <= k < xs.len() && #[trigger] inv(k, s) ==> call_requires(blk, (s, xs[k])),
        forall|k: int, s: S, t: S|
            0 <= k < xs.len() && inv(k, s) && #[trigger] call_ensures(blk, (s, xs[k]), t)
                ==> inv(k + 1, t),
    ensures
        accepts(blk, s0, xs),
        forall|s: S| #[trigger] folds_to(blk, s0, xs, s) ==> inv(xs.len() as int, s),
{
    assert forall|k: int, s: S| 0 <= k <= xs.len() && #[trigger] folds_to(blk, s0, xs.take(k), s)
        implies inv(k, s) by {
        lemma_invariant_kept(blk, s0, xs, k, s, inv);
    }
    assert(xs.take(xs.len() as int) =~= xs);
}

/// The invariant holds of every state reached on a beginning of `xs`.
proof fn lemma_invariant_kept<S, A, F: Fn(S, A) -> S>(
    blk: &F,
    s0: S,
    xs: Seq<A>,
    n: int,
    s: S,
    inv: spec_fn(int, S) -> bool,
)
    requires
        inv(0, s0),
        forall|k: int, s: S, t: S|
            0 <= k < xs.len() && inv(k, s) && #[trigger] call_ensures(blk, (s, xs[k]), t)
                ==> inv(k + 1, t),
        0 <= n <= xs.len(),
        folds_to(blk, s0, xs.take(n), s),
    ensures
        inv(n, s),
    decreases n,
{
    if n > 0 {
        let front = xs.take(n);
        let mid = choose|m: S|
            folds_to(blk, s0, front.drop_last(), m) && #[trigger] call_ensures(
                blk,
                (m, front.last()),
                s,
            );
        assert(front.drop_last() =~= xs.take(n - 1));
        lemma_invariant_kept(blk, s0, xs, n - 1, mid, inv);
        assert(front.last() == xs[n - 1]);
    }
}

/// A callback that computes `f`, on what `view` shows of the state, ends
/// where folding `f` from the left ends.
pub proof fn lemma_folds_to_fold_left<S, V, A, F: Fn(S, A) -> S>(
    blk: &F,
    view: spec_fn(S) -> V,
    f: spec_fn(V, A) -> V,
    s0: S,
    xs: Seq<A>,
    s: S,
)
    requires
        forall|p: S, a: A, t: S| #[trigger]
            call_ensures(blk, (p, a), t) ==> view(t) == f(view(p), a),
        folds_to(blk, s0, xs, s),
    ensures
        view(s) == xs.fold_left(view(s0), f),
    decreases xs.len(),
{
    if xs.len() > 0 {
        let mid = choose|m: S|
            folds_to(blk, s0, xs.drop_last(), m) && #[trigger] call_ensures(
                blk,
                (m, xs.last()),
                s,
            );
        lemma_folds_to_fold_left(blk, view, f, s0, xs.drop_last(), mid);
    }
}

} // verus!

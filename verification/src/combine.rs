//! The combinators: each drives a source and passes on to a callback what
//! the source delivers, changed, thinned out, numbered or expanded.

use crate::delivery;
use crate::source::Iterable;
use vstd::prelude::*;

verus! {

/// `ys` holds, position by position, a result that `cnv` may give for the
/// element of `xs` at that position.
pub open spec fn images<A, B, C: Fn(A) -> B>(cnv: &C, xs: Seq<A>, ys: Seq<B>) -> bool {
    &&& ys.len() == xs.len()
    &&& forall|i: int| 0 <= i < xs.len() ==> call_ensures(cnv, (#[trigger] xs[i],), ys[i])
}

/// `cnv` may be called on every element of `xs`.
pub open spec fn applies<A, B, C: Fn(A) -> B>(cnv: &C, xs: Seq<A>) -> bool {
    forall|i: int| 0 <= i < xs.len() ==> call_requires(cnv, (#[trigger] xs[i],))
}

/// The numbers `0, 1, .., n - 1`.
pub open spec fn counting(n: nat) -> Seq<usize> {
    Seq::new(n, |i: int| i as usize)
}

/// The elements of `xs` at the positions where `keeps` says `true`, in order.
pub open spec fn select<A>(xs: Seq<A>, keeps: Seq<bool>) -> Seq<A>
    recommends
        keeps.len() == xs.len(),
    decreases xs.len(),
{
    if xs.len() == 0 {
        Seq::empty()
    } else {
        let before = select(xs.drop_last(), keeps.drop_last());
        if keeps.last() {
            before.push(xs.last())
        } else {
            before
        }
    }
}

/// Each element of `xs` paired with its position.
pub open spec fn indexed<A>(xs: Seq<A>) -> Seq<(usize, A)> {
    Seq::new(xs.len(), |i: int| (i as usize, xs[i]))
}

/// `blk` accepts whatever `cnv` may make of `xs`, or of the elements that
/// lead up to any point in it.
pub open spec fn accepts_images<A, B, S, C: Fn(A) -> B, F: Fn(S, B) -> S>(
    cnv: &C,
    blk: &F,
    s0: S,
    xs: Seq<A>,
) -> bool {
    forall|k: int, ys: Seq<B>|
        0 <= k <= xs.len() && #[trigger] images(cnv, xs.take(k), ys) ==> delivery::accepts(
            blk,
            s0,
            ys,
        )
}

/// `blk` accepts whatever `prd` may let through of `xs`, or of the elements
/// that lead up to any point in it.
pub open spec fn accepts_selected<A, S, P: Fn(A) -> bool, F: Fn(S, A) -> S>(
    prd: &P,
    blk: &F,
    s0: S,
    xs: Seq<A>,
) -> bool {
    forall|k: int, keeps: Seq<bool>|
        0 <= k <= xs.len() && #[trigger] images(prd, xs.take(k), keeps) ==> delivery::accepts(
            blk,
            s0,
            select(xs.take(k), keeps),
        )
}

/// What the sources in `inners` deliver, one source after the other.
pub open spec fn flattened<B, IB: Iterable<B>>(inners: Seq<IB>) -> Seq<B>
    decreases inners.len(),
{
    if inners.len() == 0 {
        Seq::empty()
    } else {
        flattened(inners.drop_last()) + inners.last().elems()
    }
}

/// Each of the sources in `inners` has been traversed.
pub open spec fn all_realized<B, IB: Iterable<B>>(inners: Seq<IB>) -> bool {
    forall|i: int| 0 <= i < inners.len() ==> (#[trigger] inners[i]).realized()
}

/// Whatever `cnv` makes of an element of `xs` is a source that can be driven.
pub open spec fn yields_sources<A, B, IB: Iterable<B>, C: Fn(A) -> IB>(cnv: &C, xs: Seq<A>) -> bool {
    forall|i: int, inner: IB|
        0 <= i < xs.len() && #[trigger] call_ensures(cnv, (xs[i],), inner) ==> inner.wf()
}

/// `blk` accepts whatever the sources deliver that `cnv` may make of `xs`, or
/// of the elements that lead up to any point in it.
pub open spec fn accepts_flattened<A, B, S, IB: Iterable<B>, C: Fn(A) -> IB, F: Fn(S, B) -> S>(
    cnv: &C,
    blk: &F,
    s0: S,
    xs: Seq<A>,
) -> bool {
    forall|k: int, inners: Seq<IB>|
        0 <= k <= xs.len() && #[trigger] images(cnv, xs.take(k), inners) ==> delivery::accepts(
            blk,
            s0,
            flattened(inners),
        )
}

/// What gets through of a beginning of `xs` is a beginning of what gets
/// through of `xs`.
pub proof fn lemma_select_prefix<A>(xs: Seq<A>, keeps: Seq<bool>, n: int)
    requires
        keeps.len() == xs.len(),
        0 <= n <= xs.len(),
    ensures
        select(xs.take(n), keeps.take(n)).len() <= select(xs, keeps).len(),
        select(xs.take(n), keeps.take(n)) == select(xs, keeps).take(
            select(xs.take(n), keeps.take(n)).len() as int,
        ),
    decreases xs.len(),
{
    let front = select(xs.take(n), keeps.take(n));
    if n == xs.len() {
        assert(xs.take(n) =~= xs);
        assert(keeps.take(n) =~= keeps);
        assert(front =~= front.take(front.len() as int));
    } else {
        lemma_select_prefix(xs.drop_last(), keeps.drop_last(), n);
        assert(xs.drop_last().take(n) =~= xs.take(n));
        assert(keeps.drop_last().take(n) =~= keeps.take(n));
        let before = select(xs.drop_last(), keeps.drop_last());
        assert(select(xs, keeps).take(front.len() as int) =~= before.take(front.len() as int));
    }
}

/// What a test that computes `p` lets through of a sequence is the sequence
/// filtered by `p`.
pub proof fn lemma_select_filter<A>(xs: Seq<A>, p: spec_fn(A) -> bool)
    ensures
        select(xs, xs.map_values(p)) == xs.filter(p),
    decreases xs.len(),
{
    reveal(Seq::filter);
    if xs.len() > 0 {
        lemma_select_filter(xs.drop_last(), p);
        assert(xs.map_values(p).drop_last() =~= xs.drop_last().map_values(p));
    }
}

/// Sources that deliver, position by position, the sequences in `parts`
/// deliver as a whole these sequences joined.
pub proof fn lemma_flattened_flatten<B, IB: Iterable<B>>(inners: Seq<IB>, parts: Seq<Seq<B>>)
    requires
        parts.len() == inners.len(),
        forall|i: int| 0 <= i < inners.len() ==> (#[trigger] inners[i]).elems() == parts[i],
    ensures
        flattened(inners) == parts.flatten(),
    decreases inners.len(),
{
    parts.lemma_flatten_and_flatten_alt_are_equivalent();
    if inners.len() > 0 {
        assert forall|i: int| 0 <= i < inners.drop_last().len() implies (
        #[trigger] inners.drop_last()[i]).elems() == parts.drop_last()[i] by {
            assert(inners.drop_last()[i] == inners[i]);
        }
        lemma_flattened_flatten(inners.drop_last(), parts.drop_last());
        parts.drop_last().lemma_flatten_and_flatten_alt_are_equivalent();
        assert(inners.last() == inners[inners.len() - 1]);
    }
}

/// Folds `blk` over the elements of `src`, from the left, starting with `b0`.
pub fn foldl<A, B, IA: Iterable<A>, F: Fn(B, A) -> B>(src: &IA, b0: B, blk: &F) -> (b: B)
    requires
        src.wf(),
        delivery::accepts(blk, b0, src.elems()),
    ensures
        delivery::folds_to(blk, b0, src.elems(), b),
        src.realized(),
{
    src.iter(b0, blk)
}

/// A callback that appends each element ends with the elements appended.
proof fn lemma_appending<A, G: Fn(Vec<A>, A) -> Vec<A>>(
    step: &G,
    r0: Vec<A>,
    xs: Seq<A>,
    r: Vec<A>,
)
    requires
        forall|p: Vec<A>, a: A, t: Vec<A>| #[trigger]
            call_ensures(step, (p, a), t) ==> t@ == p@.push(a),
        delivery::folds_to(step, r0, xs, r),
    ensures
        r@ == r0@ + xs,
    decreases xs.len(),
{
    if xs.len() == 0 {
        assert(r0@ + xs =~= r0@);
    } else {
        let mid = choose|m: Vec<A>|
            delivery::folds_to(step, r0, xs.drop_last(), m) && #[trigger] call_ensures(
                step,
                (m, xs.last()),
                r,
            );
        lemma_appending(step, r0, xs.drop_last(), mid);
        assert((r0@ + xs.drop_last()).push(xs.last()) =~= r0@ + xs);
    }
}

/// Collects what `src` delivers, in the order of delivery.
pub fn to_list<A, IA: Iterable<A>>(src: &IA) -> (r: Vec<A>)
    requires
        src.wf(),
    ensures
        r@ == src.elems(),
        src.realized(),
{
    let append = |p: Vec<A>, a: A| -> (t: Vec<A>)
        ensures
            t@ == p@.push(a),
        {
            let mut t = p;
            t.push(a);
            t
        };
    let empty: Vec<A> = Vec::new();
    let ghost r0 = empty;
    let r = foldl(src, empty, &append);
    proof {
        lemma_appending(&append, r0, src.elems(), r);
        assert(r0@ + src.elems() =~= src.elems());
    }
    r
}

/// Calls `blk` with `0, 1, .., times - 1`, in that order.
pub fn repeat<S, F: Fn(S, usize) -> S>(times: usize, s0: S, blk: &F) -> (s: S)
    requires
        delivery::accepts(blk, s0, counting(times as nat)),
    ensures
        delivery::folds_to(blk, s0, counting(times as nat), s),
{
    let ghost all = counting(times as nat);
    let mut s = s0;
    let mut i: usize = 0;
    while i < times
        invariant
            i <= times,
            all == counting(times as nat),
            delivery::accepts(blk, s0, all),
            delivery::folds_to(blk, s0, all.take(i as int), s),
        decreases times - i,
    {
        let ghost before = s;
        assert(all[i as int] == i);
        s = blk(s, i);
        proof {
            delivery::lemma_folds_to_push(blk, s0, all.take(i as int), before, i, s);
            assert(all.take(i + 1) =~= all.take(i as int).push(i));
        }
        i += 1;
    }
    proof {
        assert(all.take(times as int) =~= all);
    }
    s
}

/// Where the step of `map` has led, `blk` has been handed an image of `xs`.
proof fn lemma_map_run<A, B, S, C: Fn(A) -> B, F: Fn(S, B) -> S, G: Fn(S, A) -> S>(
    cnv: &C,
    blk: &F,
    step: &G,
    s0: S,
    xs: Seq<A>,
    s: S,
) -> (ys: Seq<B>)
    requires
        forall|p: S, a: A, t: S| #[trigger]
            call_ensures(step, (p, a), t) ==> exists|b: B| #[trigger]
                call_ensures(cnv, (a,), b) && call_ensures(blk, (p, b), t),
        delivery::folds_to(step, s0, xs, s),
    ensures
        images(cnv, xs, ys),
        delivery::folds_to(blk, s0, ys, s),
    decreases xs.len(),
{
    if xs.len() == 0 {
        Seq::empty()
    } else {
        let mid = choose|m: S|
            delivery::folds_to(step, s0, xs.drop_last(), m) && #[trigger] call_ensures(
                step,
                (m, xs.last()),
                s,
            );
        let before = lemma_map_run(cnv, blk, step, s0, xs.drop_last(), mid);
        let b = choose|b: B| #[trigger]
            call_ensures(cnv, (xs.last(),), b) && call_ensures(blk, (mid, b), s);
        delivery::lemma_folds_to_push(blk, s0, before, mid, b, s);
        let ys = before.push(b);
        assert forall|i: int| 0 <= i < xs.len() implies call_ensures(
            cnv,
            (#[trigger] xs[i],),
            ys[i],
        ) by {
            if i < xs.len() - 1 {
                assert(xs[i] == xs.drop_last()[i]);
            }
        }
        ys
    }
}

/// The step of `map` may be driven over `xs` where `map` itself may.
proof fn lemma_map_accepts<A, B, S, C: Fn(A) -> B, F: Fn(S, B) -> S, G: Fn(S, A) -> S>(
    cnv: &C,
    blk: &F,
    step: &G,
    s0: S,
    xs: Seq<A>,
)
    requires
        forall|p: S, a: A|
            call_requires(cnv, (a,)) && (forall|b: B|
                call_ensures(cnv, (a,), b) ==> call_requires(blk, (p, b)))
                ==> #[trigger] call_requires(step, (p, a)),
        forall|p: S, a: A, t: S| #[trigger]
            call_ensures(step, (p, a), t) ==> exists|b: B| #[trigger]
                call_ensures(cnv, (a,), b) && call_ensures(blk, (p, b), t),
        applies(cnv, xs),
        accepts_images(cnv, blk, s0, xs),
    ensures
        delivery::accepts(step, s0, xs),
{
    assert forall|k: int, s: S|
        0 <= k < xs.len() && #[trigger] delivery::folds_to(step, s0, xs.take(k), s)
        implies call_requires(step, (s, xs[k])) by {
        let ys = lemma_map_run(cnv, blk, step, s0, xs.take(k), s);
        assert forall|b: B| call_ensures(cnv, (xs[k],), b) implies call_requires(blk, (s, b)) by {
            let longer = ys.push(b);
            assert(xs.take(k + 1) =~= xs.take(k).push(xs[k]));
            assert(images(cnv, xs.take(k + 1), longer));
            assert(longer.take(k) =~= ys);
            assert(longer[k] == b);
        }
    }
}

/// Hands to `blk` what `cnv` makes of each element of `src`, in order.
pub fn map<A, B, S, IA: Iterable<A>, C: Fn(A) -> B, F: Fn(S, B) -> S>(
    src: &IA,
    cnv: &C,
    s0: S,
    blk: &F,
) -> (s: S)
    requires
        src.wf(),
        applies(cnv, src.elems()),
        accepts_images(cnv, blk, s0, src.elems()),
    ensures
        exists|ys: Seq<B>| #[trigger]
            images(cnv, src.elems(), ys) && delivery::folds_to(blk, s0, ys, s),
        src.realized(),
{
    let step = |p: S, a: A| -> (t: S)
        requires
            call_requires(cnv, (a,)),
            forall|b: B| call_ensures(cnv, (a,), b) ==> call_requires(blk, (p, b)),
        ensures
            exists|b: B| #[trigger]
                call_ensures(cnv, (a,), b) && call_ensures(blk, (p, b), t),
        {
            let b = cnv(a);
            blk(p, b)
        };
    proof {
        lemma_map_accepts(cnv, blk, &step, s0, src.elems());
    }
    let s = src.iter(s0, &step);
    proof {
        lemma_map_run(cnv, blk, &step, s0, src.elems(), s);
    }
    s
}

/// Where the step of `filter` has led, `blk` has been handed what `prd` let
/// through of `xs`.
proof fn lemma_filter_run<A, S, P: Fn(A) -> bool, F: Fn(S, A) -> S, G: Fn(S, A) -> S>(
    prd: &P,
    blk: &F,
    step: &G,
    s0: S,
    xs: Seq<A>,
    s: S,
) -> (keeps: Seq<bool>)
    requires
        forall|p: S, a: A, t: S| #[trigger]
            call_ensures(step, (p, a), t) ==> exists|keep: bool| #[trigger]
                call_ensures(prd, (a,), keep) && if keep {
                    call_ensures(blk, (p, a), t)
                } else {
                    t == p
                },
        delivery::folds_to(step, s0, xs, s),
    ensures
        images(prd, xs, keeps),
        delivery::folds_to(blk, s0, select(xs, keeps), s),
    decreases xs.len(),
{
    if xs.len() == 0 {
        Seq::empty()
    } else {
        let mid = choose|m: S|
            delivery::folds_to(step, s0, xs.drop_last(), m) && #[trigger] call_ensures(
                step,
                (m, xs.last()),
                s,
            );
        let before = lemma_filter_run(prd, blk, step, s0, xs.drop_last(), mid);
        let keep = choose|keep: bool| #[trigger]
            call_ensures(prd, (xs.last(),), keep) && if keep {
                call_ensures(blk, (mid, xs.last()), s)
            } else {
                s == mid
            };
        let keeps = before.push(keep);
        assert(keeps.drop_last() =~= before);
        if keep {
            delivery::lemma_folds_to_push(
                blk,
                s0,
                select(xs.drop_last(), before),
                mid,
                xs.last(),
                s,
            );
        }
        assert forall|i: int| 0 <= i < xs.len() implies call_ensures(
            prd,
            (#[trigger] xs[i],),
            keeps[i],
        ) by {
            if i < xs.len() - 1 {
                assert(xs[i] == xs.drop_last()[i]);
            }
        }
        keeps
    }
}

/// The step of `filter` may be driven over `xs` where `filter` itself may.
proof fn lemma_filter_accepts<A, S, P: Fn(A) -> bool, F: Fn(S, A) -> S, G: Fn(S, A) -> S>(
    prd: &P,
    blk: &F,
    step: &G,
    s0: S,
    xs: Seq<A>,
)
    requires
        forall|p: S, a: A|
            call_requires(prd, (a,)) && (forall|keep: bool|
                call_ensures(prd, (a,), keep) && keep ==> call_requires(blk, (p, a)))
                ==> #[trigger] call_requires(step, (p, a)),
        forall|p: S, a: A, t: S| #[trigger]
            call_ensures(step, (p, a), t) ==> exists|keep: bool| #[trigger]
                call_ensures(prd, (a,), keep) && if keep {
                    call_ensures(blk, (p, a), t)
                } else {
                    t == p
                },
        applies(prd, xs),
        accepts_selected(prd, blk, s0, xs),
    ensures
        delivery::accepts(step, s0, xs),
{
    assert forall|k: int, s: S|
        0 <= k < xs.len() && #[trigger] delivery::folds_to(step, s0, xs.take(k), s)
        implies call_requires(step, (s, xs[k])) by {
        let keeps = lemma_filter_run(prd, blk, step, s0, xs.take(k), s);
        assert forall|keep: bool| call_ensures(prd, (xs[k],), keep) && keep implies call_requires(
            blk,
            (s, xs[k]),
        ) by {
            let longer = keeps.push(keep);
            let passed = select(xs.take(k), keeps);
            assert(xs.take(k + 1) =~= xs.take(k).push(xs[k]));
            assert(xs.take(k + 1).drop_last() =~= xs.take(k));
            assert(longer.drop_last() =~= keeps);
            assert(images(prd, xs.take(k + 1), longer));
            assert(select(xs.take(k + 1), longer) == passed.push(xs[k]));
            assert(passed.push(xs[k]).take(passed.len() as int) =~= passed);
            assert(passed.push(xs[k])[passed.len() as int] == xs[k]);
        }
    }
}

/// Hands to `blk` the elements of `src` for which `prd` says `true`, in
/// order, and drops the others.
pub fn filter<A: Copy, S, IA: Iterable<A>, P: Fn(A) -> bool, F: Fn(S, A) -> S>(
    src: &IA,
    prd: &P,
    s0: S,
    blk: &F,
) -> (s: S)
    requires
        src.wf(),
        applies(prd, src.elems()),
        accepts_selected(prd, blk, s0, src.elems()),
    ensures
        exists|keeps: Seq<bool>| #[trigger]
            images(prd, src.elems(), keeps) && delivery::folds_to(
                blk,
                s0,
                select(src.elems(), keeps),
                s,
            ),
        src.realized(),
{
    let step = |p: S, a: A| -> (t: S)
        requires
            call_requires(prd, (a,)),
            forall|keep: bool|
                call_ensures(prd, (a,), keep) && keep ==> call_requires(blk, (p, a)),
        ensures
            exists|keep: bool| #[trigger]
                call_ensures(prd, (a,), keep) && if keep {
                    call_ensures(blk, (p, a), t)
                } else {
                    t == p
                },
        {
            if prd(a) {
                blk(p, a)
            } else {
                p
            }
        };
    proof {
        lemma_filter_accepts(prd, blk, &step, s0, src.elems());
    }
    let s = src.iter(s0, &step);
    proof {
        lemma_filter_run(prd, blk, &step, s0, src.elems(), s);
    }
    s
}

/// Where the step of `enumerate` has led, it has counted the elements of
/// `xs`, and `blk` has been handed each with its position.
proof fn lemma_enumerate_run<A, S, F: Fn(S, (usize, A)) -> S, G: Fn((usize, S), A) -> (usize, S)>(
    blk: &F,
    step: &G,
    s0: S,
    xs: Seq<A>,
    t: (usize, S),
)
    requires
        forall|p: (usize, S), a: A, t: (usize, S)| #[trigger]
            call_ensures(step, (p, a), t) ==> t.0 == p.0 + 1 && call_ensures(
                blk,
                (p.1, (p.0, a)),
                t.1,
            ),
        delivery::folds_to(step, (0usize, s0), xs, t),
    ensures
        t.0 == xs.len(),
        delivery::folds_to(blk, s0, indexed(xs), t.1),
    decreases xs.len(),
{
    if xs.len() == 0 {
        assert(indexed(xs) =~= Seq::empty());
    } else {
        let mid = choose|m: (usize, S)|
            delivery::folds_to(step, (0usize, s0), xs.drop_last(), m) && #[trigger] call_ensures(
                step,
                (m, xs.last()),
                t,
            );
        lemma_enumerate_run(blk, step, s0, xs.drop_last(), mid);
        delivery::lemma_folds_to_push(
            blk,
            s0,
            indexed(xs.drop_last()),
            mid.1,
            (mid.0, xs.last()),
            t.1,
        );
        assert(indexed(xs.drop_last()).push((mid.0, xs.last())) =~= indexed(xs));
    }
}

/// The step of `enumerate` may be driven over `xs` where `enumerate` itself
/// may.
proof fn lemma_enumerate_accepts<
    A,
    S,
    F: Fn(S, (usize, A)) -> S,
    G: Fn((usize, S), A) -> (usize, S),
>(blk: &F, step: &G, s0: S, xs: Seq<A>)
    requires
        forall|p: (usize, S), a: A|
            p.0 < usize::MAX && call_requires(blk, (p.1, (p.0, a))) ==> #[trigger] call_requires(
                step,
                (p, a),
            ),
        forall|p: (usize, S), a: A, t: (usize, S)| #[trigger]
            call_ensures(step, (p, a), t) ==> t.0 == p.0 + 1 && call_ensures(
                blk,
                (p.1, (p.0, a)),
                t.1,
            ),
        xs.len() <= usize::MAX,
        delivery::accepts(blk, s0, indexed(xs)),
    ensures
        delivery::accepts(step, (0usize, s0), xs),
{
    assert forall|k: int, p: (usize, S)|
        0 <= k < xs.len() && #[trigger] delivery::folds_to(step, (0usize, s0), xs.take(k), p)
        implies call_requires(step, (p, xs[k])) by {
        lemma_enumerate_run(blk, step, s0, xs.take(k), p);
        assert(indexed(xs).take(k) =~= indexed(xs.take(k)));
        assert(indexed(xs)[k] == (p.0, xs[k]));
    }
}

/// Hands to `blk` each element of `src` together with its position, counted
/// from zero.
pub fn enumerate<A, S, IA: Iterable<A>, F: Fn(S, (usize, A)) -> S>(
    src: &IA,
    s0: S,
    blk: &F,
) -> (s: S)
    requires
        src.wf(),
        src.elems().len() <= usize::MAX,
        delivery::accepts(blk, s0, indexed(src.elems())),
    ensures
        delivery::folds_to(blk, s0, indexed(src.elems()), s),
        src.realized(),
{
    let step = |p: (usize, S), a: A| -> (t: (usize, S))
        requires
            p.0 < usize::MAX,
            call_requires(blk, (p.1, (p.0, a))),
        ensures
            t.0 == p.0 + 1,
            call_ensures(blk, (p.1, (p.0, a)), t.1),
        {
            let i = p.0;
            let s = blk(p.1, (i, a));
            (i + 1, s)
        };
    proof {
        lemma_enumerate_accepts(blk, &step, s0, src.elems());
    }
    let t = src.iter((0usize, s0), &step);
    proof {
        lemma_enumerate_run(blk, &step, s0, src.elems(), t);
    }
    t.1
}

/// Where the step of `flat_map` has led, `blk` has been handed all that the
/// sources deliver which `cnv` made of `xs`.
proof fn lemma_flat_map_run<
    A,
    B,
    S,
    IB: Iterable<B>,
    C: Fn(A) -> IB,
    F: Fn(S, B) -> S,
    G: Fn(S, A) -> S,
>(cnv: &C, blk: &F, step: &G, s0: S, xs: Seq<A>, s: S) -> (inners: Seq<IB>)
    requires
        forall|p: S, a: A, t: S| #[trigger]
            call_ensures(step, (p, a), t) ==> exists|inner: IB| #[trigger]
                call_ensures(cnv, (a,), inner) && inner.realized() && delivery::folds_to(
                    blk,
                    p,
                    inner.elems(),
                    t,
                ),
        delivery::folds_to(step, s0, xs, s),
    ensures
        images(cnv, xs, inners),
        all_realized(inners),
        delivery::folds_to(blk, s0, flattened(inners), s),
    decreases xs.len(),
{
    if xs.len() == 0 {
        Seq::empty()
    } else {
        let mid = choose|m: S|
            delivery::folds_to(step, s0, xs.drop_last(), m) && #[trigger] call_ensures(
                step,
                (m, xs.last()),
                s,
            );
        let before = lemma_flat_map_run(cnv, blk, step, s0, xs.drop_last(), mid);
        let inner = choose|inner: IB| #[trigger]
            call_ensures(cnv, (xs.last(),), inner) && inner.realized() && delivery::folds_to(
                blk,
                mid,
                inner.elems(),
                s,
            );
        let inners = before.push(inner);
        assert(inners.drop_last() =~= before);
        delivery::lemma_folds_to_join(blk, s0, flattened(before), mid, inner.elems(), s);
        assert forall|i: int| 0 <= i < xs.len() implies call_ensures(
            cnv,
            (#[trigger] xs[i],),
            inners[i],
        ) by {
            if i < xs.len() - 1 {
                assert(xs[i] == xs.drop_last()[i]);
            }
        }
        inners
    }
}

/// The step of `flat_map` may be driven over `xs` where `flat_map` itself
/// may.
proof fn lemma_flat_map_accepts<
    A,
    B,
    S,
    IB: Iterable<B>,
    C: Fn(A) -> IB,
    F: Fn(S, B) -> S,
    G: Fn(S, A) -> S,
>(cnv: &C, blk: &F, step: &G, s0: S, xs: Seq<A>)
    requires
        forall|p: S, a: A|
            call_requires(cnv, (a,)) && (forall|inner: IB|
                call_ensures(cnv, (a,), inner) ==> inner.wf() && delivery::accepts(
                    blk,
                    p,
                    inner.elems(),
                )) ==> #[trigger] call_requires(step, (p, a)),
        forall|p: S, a: A, t: S| #[trigger]
            call_ensures(step, (p, a), t) ==> exists|inner: IB| #[trigger]
                call_ensures(cnv, (a,), inner) && inner.realized() && delivery::folds_to(
                    blk,
                    p,
                    inner.elems(),
                    t,
                ),
        applies(cnv, xs),
        yields_sources(cnv, xs),
        accepts_flattened(cnv, blk, s0, xs),
    ensures
        delivery::accepts(step, s0, xs),
{
    assert forall|k: int, s: S|
        0 <= k < xs.len() && #[trigger] delivery::folds_to(step, s0, xs.take(k), s)
        implies call_requires(step, (s, xs[k])) by {
        let inners = lemma_flat_map_run(cnv, blk, step, s0, xs.take(k), s);
        assert forall|inner: IB| call_ensures(cnv, (xs[k],), inner) implies inner.wf()
            && delivery::accepts(blk, s, inner.elems()) by {
            let longer = inners.push(inner);
            assert(xs.take(k + 1) =~= xs.take(k).push(xs[k]));
            assert(longer.drop_last() =~= inners);
            assert(images(cnv, xs.take(k + 1), longer));
            delivery::lemma_accepts_rest(blk, s0, flattened(inners), s, inner.elems());
        }
    }
}

/// Drives, for each element of `src` in order, the source that `cnv` makes of
/// it, and hands to `blk` all that these sources deliver.
pub fn flat_map<A, B, S, IA: Iterable<A>, IB: Iterable<B>, C: Fn(A) -> IB, F: Fn(S, B) -> S>(
    src: &IA,
    cnv: &C,
    s0: S,
    blk: &F,
) -> (s: S)
    requires
        src.wf(),
        applies(cnv, src.elems()),
        yields_sources(cnv, src.elems()),
        accepts_flattened(cnv, blk, s0, src.elems()),
    ensures
        exists|inners: Seq<IB>| #[trigger]
            images(cnv, src.elems(), inners) && all_realized(inners) && delivery::folds_to(
                blk,
                s0,
                flattened(inners),
                s,
            ),
        src.realized(),
{
    let step = |p: S, a: A| -> (t: S)
        requires
            call_requires(cnv, (a,)),
            forall|inner: IB| #[trigger]
                call_ensures(cnv, (a,), inner) ==> inner.wf() && delivery::accepts(
                    blk,
                    p,
                    inner.elems(),
                ),
        ensures
            exists|inner: IB| #[trigger]
                call_ensures(cnv, (a,), inner) && inner.realized() && delivery::folds_to(
                    blk,
                    p,
                    inner.elems(),
                    t,
                ),
        {
            let inner = cnv(a);
            inner.iter(p, blk)
        };
    proof {
        lemma_flat_map_accepts(cnv, blk, &step, s0, src.elems());
    }
    let s = src.iter(s0, &step);
    proof {
        lemma_flat_map_run(cnv, blk, &step, s0, src.elems(), s);
    }
    s
}

} // verus!

//! What holds between the combinators, whatever the source and the callback.

use crate::combine;
use crate::delivery;
use crate::source::Iterable;
use crate::stage;
use vstd::prelude::*;

verus! {

/// Collecting a mapped source gives the model of the conversion applied to
/// each element of the source below, in order; and once the stage has been
/// traversed, each of these is a result that the conversion has for that
/// element.
///
/// `listed` stands for what `to_list` has returned for the stage.
pub proof fn lemma_list_of_mapped<'a, A, B, IA: Iterable<A>, C: Fn(A) -> B>(
    mapped: stage::Mapped<'a, A, B, IA, C>,
    listed: Seq<B>,
)
    requires
        listed == mapped.elems(),
    ensures
        listed == mapped.src.elems().map_values(mapped.model@),
        mapped.realized() ==> forall|i: int|
            0 <= i < listed.len() ==> call_ensures(
                &mapped.cnv,
                (#[trigger] mapped.src.elems()[i],),
                listed[i],
            ),
{
}

/// Expanding each element into an optional value is keeping the elements for
/// which the value is present and taking the value of each: a filter and a
/// map in one pass.
///
/// The left side is what a flat-mapped stage delivers whose conversion
/// computes `opt`, the right side what a mapped stage over a filtered stage
/// delivers.
pub proof fn lemma_flat_map_of_options<A, B: Copy>(xs: Seq<A>, opt: spec_fn(A) -> Option<B>)
    ensures
        xs.map_values(|a: A| opt(a).elems()).flatten() == xs.filter(
            |a: A| opt(a) is Some,
        ).map_values(|a: A| opt(a)->Some_0),
    decreases xs.len(),
{
    let expand = |a: A| opt(a).elems();
    let present = |a: A| opt(a) is Some;
    let value = |a: A| opt(a)->Some_0;
    let parts = xs.map_values(expand);
    reveal(Seq::filter);
    parts.lemma_flatten_and_flatten_alt_are_equivalent();
    if xs.len() == 0 {
        assert(xs.filter(present).map_values(value) =~= Seq::empty());
    } else {
        let before = xs.drop_last();
        lemma_flat_map_of_options(before, opt);
        assert(parts.drop_last() =~= before.map_values(expand));
        parts.drop_last().lemma_flatten_and_flatten_alt_are_equivalent();
        let kept_before = before.filter(present);
        match opt(xs.last()) {
            Some(b) => {
                assert(xs.filter(present) == kept_before.push(xs.last()));
                assert(xs.filter(present).map_values(value) =~= kept_before.map_values(
                    value,
                ).push(b));
                assert(kept_before.map_values(value).push(b) =~= kept_before.map_values(value)
                    + seq![b]);
            },
            None => {
                assert(xs.filter(present) == kept_before);
                assert(kept_before.map_values(value) + Seq::<B>::empty()
                    =~= kept_before.map_values(value));
            },
        }
    }
}

/// Collecting a collected source changes nothing: a list delivers exactly
/// what it holds.
///
/// `once` stands for what `to_list` has returned for `src`, `twice` for what
/// it has returned for `once`.
pub proof fn lemma_list_round_trip<A: Copy, IA: Iterable<A>>(
    src: IA,
    once: Vec<A>,
    twice: Vec<A>,
)
    requires
        once@ == src.elems(),
        twice@ == once.elems(),
    ensures
        twice@ == once@,
        twice@ == src.elems(),
{
}

/// Where every element passes, all of them get through, in order.
pub proof fn lemma_select_all<A>(xs: Seq<A>, keeps: Seq<bool>)
    requires
        keeps.len() == xs.len(),
        forall|i: int| 0 <= i < keeps.len() ==> keeps[i],
    ensures
        combine::select(xs, keeps) == xs,
    decreases xs.len(),
{
    if xs.len() > 0 {
        lemma_select_all(xs.drop_last(), keeps.drop_last());
        assert(xs.drop_last().push(xs.last()) =~= xs);
    }
}

/// Filtering with a test that always says `true` leaves the callback where
/// driving the source itself leaves it.
///
/// `s` stands for what `filter` has returned.
pub proof fn lemma_filter_always_true<A, S, P: Fn(A) -> bool, F: Fn(S, A) -> S>(
    prd: &P,
    blk: &F,
    s0: S,
    xs: Seq<A>,
    s: S,
)
    requires
        forall|a: A, keep: bool| call_ensures(prd, (a,), keep) ==> keep,
        exists|keeps: Seq<bool>| #[trigger]
            combine::images(prd, xs, keeps) && delivery::folds_to(
                blk,
                s0,
                combine::select(xs, keeps),
                s,
            ),
    ensures
        delivery::folds_to(blk, s0, xs, s),
{
    let keeps = choose|keeps: Seq<bool>| #[trigger]
        combine::images(prd, xs, keeps) && delivery::folds_to(
            blk,
            s0,
            combine::select(xs, keeps),
            s,
        );
    assert forall|i: int| 0 <= i < keeps.len() implies keeps[i] by {
        assert(call_ensures(prd, (xs[i],), keeps[i]));
    }
    lemma_select_all(xs, keeps);
}

/// Mapping with a conversion that hands its argument back leaves the
/// callback where driving the source itself leaves it.
///
/// `s` stands for what `map` has returned.
pub proof fn lemma_map_identity<A, S, C: Fn(A) -> A, F: Fn(S, A) -> S>(
    cnv: &C,
    blk: &F,
    s0: S,
    xs: Seq<A>,
    s: S,
)
    requires
        forall|a: A, b: A| call_ensures(cnv, (a,), b) ==> b == a,
        exists|ys: Seq<A>| #[trigger]
            combine::images(cnv, xs, ys) && delivery::folds_to(blk, s0, ys, s),
    ensures
        delivery::folds_to(blk, s0, xs, s),
{
    let ys = choose|ys: Seq<A>| #[trigger]
        combine::images(cnv, xs, ys) && delivery::folds_to(blk, s0, ys, s);
    assert(ys =~= xs);
}

/// What a conversion that computes `g` makes of a sequence is `g` applied to
/// each element, in order.
pub proof fn lemma_images_map_values<A, B, C: Fn(A) -> B>(
    cnv: &C,
    g: spec_fn(A) -> B,
    xs: Seq<A>,
    ys: Seq<B>,
)
    requires
        forall|a: A, b: B| #[trigger] call_ensures(cnv, (a,), b) ==> b == g(a),
        combine::images(cnv, xs, ys),
    ensures
        ys == xs.map_values(g),
{
    assert forall|i: int| 0 <= i < xs.len() implies ys[i] == g(xs[i]) by {
        assert(call_ensures(cnv, (xs[i],), ys[i]));
    }
    assert(ys =~= xs.map_values(g));
}

/// A filtered stage whose test accepts every element of the source below
/// delivers what that source delivers.
pub proof fn lemma_filtered_all<'a, A: Copy, IA: Iterable<A>, P: Fn(A) -> bool>(
    filtered: stage::Filtered<'a, A, IA, P>,
)
    requires
        forall|i: int|
            0 <= i < filtered.src.elems().len() ==> (filtered.model@)(
                #[trigger] filtered.src.elems()[i],
            ),
    ensures
        filtered.elems() == filtered.src.elems(),
{
    let xs = filtered.src.elems();
    let keeps = xs.map_values(filtered.model@);
    combine::lemma_select_filter(xs, filtered.model@);
    lemma_select_all(xs, keeps);
}

/// A mapped stage whose conversion hands each element of the source below
/// back delivers what that source delivers.
pub proof fn lemma_mapped_identity<'a, A, IA: Iterable<A>, C: Fn(A) -> A>(
    mapped: stage::Mapped<'a, A, A, IA, C>,
)
    requires
        forall|i: int|
            0 <= i < mapped.src.elems().len() ==> (mapped.model@)(
                #[trigger] mapped.src.elems()[i],
            ) == mapped.src.elems()[i],
    ensures
        mapped.elems() == mapped.src.elems(),
{
    assert(mapped.elems() =~= mapped.src.elems());
}

} // verus!

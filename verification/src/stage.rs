//! Combinators with their callback left open.
//!
//! A stage holds a source and a function and no elements. It is a source in
//! its own right, so that stages can be stacked and a pipeline collected or
//! folded as a whole. Each traversal of a stage drives the source below it
//! again.
//!
//! A source has elements of its own, whoever asks and before anyone asks. So
//! a stage carries, beside its function, what the function computes: its
//! model. The function has to agree with the model wherever it returns.

use crate::combine;
use crate::delivery;
use crate::source::Iterable;
use vstd::prelude::*;

verus! {

/// The result of `cnv` on `a`, where it has one.
pub open spec fn result_of<A, B, C: Fn(A) -> B>(cnv: &C, a: A) -> B {
    choose|b: B| call_ensures(cnv, (a,), b)
}

/// On each element of `xs`, whatever `cnv` returns is what `f` says.
pub open spec fn computes<A, B, C: Fn(A) -> B>(cnv: &C, f: spec_fn(A) -> B, xs: Seq<A>) -> bool {
    forall|i: int, b: B|
        0 <= i < xs.len() && #[trigger] call_ensures(cnv, (xs[i],), b) ==> b == f(xs[i])
}

/// On each element of `xs`, whatever `cnv` returns is a source that can be
/// driven and that delivers what `f` says.
pub open spec fn expands<A, B, IB: Iterable<B>, C: Fn(A) -> IB>(
    cnv: &C,
    f: spec_fn(A) -> Seq<B>,
    xs: Seq<A>,
) -> bool {
    forall|i: int, inner: IB|
        0 <= i < xs.len() && #[trigger] call_ensures(cnv, (xs[i],), inner) ==> inner.wf()
            && inner.elems() == f(xs[i])
}

/// The source that delivers what `cnv` makes of each element of `src`.
#[verifier::reject_recursive_types(A)]
pub struct Mapped<'a, A, B, IA, C> {
    /// The source below.
    pub src: &'a IA,
    /// The conversion.
    pub cnv: C,
    /// What the conversion computes.
    pub model: Ghost<spec_fn(A) -> B>,
}

impl<'a, A, B, IA: Iterable<A>, C: Fn(A) -> B> Mapped<'a, A, B, IA, C> {
    /// What the stage is as a source, written out. The constructors state it:
    /// of a stage whose function is a closure or a named function, Verus
    /// learns it from them and not from the definitions.
    pub open spec fn spelled_out(&self) -> bool {
        &&& self.elems() == self.src.elems().map_values(self.model@)
        &&& self.wf() <==> self.src.wf() && combine::applies(&self.cnv, self.src.elems())
            && computes(&self.cnv, self.model@, self.src.elems())
        &&& self.realized() <==> self.src.realized() && combine::images(
            &self.cnv,
            self.src.elems(),
            self.elems(),
        )
    }

    /// The stage that applies `cnv`, which computes `model`, to what `src`
    /// delivers.
    pub fn with_model(src: &'a IA, cnv: C, model: Ghost<spec_fn(A) -> B>) -> (stage: Self)
        ensures
            stage.src == src,
            stage.cnv == cnv,
            stage.model == model,
            stage.spelled_out(),
    {
        Mapped { src, cnv, model }
    }

    /// The stage that applies `cnv` to what `src` delivers. Its model is
    /// whatever `cnv` returns, which says something of the elements only once
    /// the stage has been traversed.
    pub fn new(src: &'a IA, cnv: C) -> (stage: Self)
        ensures
            stage.src == src,
            stage.cnv == cnv,
            forall|a: A| #[trigger] (stage.model@)(a) == result_of(&cnv, a),
            stage.spelled_out(),
    {
        let model = Ghost(|a: A| result_of(&cnv, a));
        Mapped { src, cnv, model }
    }
}

impl<'a, A, B, IA: Iterable<A>, C: Fn(A) -> B> Iterable<B> for Mapped<'a, A, B, IA, C> {
    open spec fn elems(&self) -> Seq<B> {
        self.src.elems().map_values(self.model@)
    }

    open spec fn wf(&self) -> bool {
        &&& self.src.wf()
        &&& combine::applies(&self.cnv, self.src.elems())
        &&& computes(&self.cnv, self.model@, self.src.elems())
    }

    open spec fn realized(&self) -> bool {
        &&& self.src.realized()
        &&& combine::images(&self.cnv, self.src.elems(), self.elems())
    }

    fn iter<S, F: Fn(S, B) -> S>(&self, s0: S, blk: &F) -> (s: S) {
        let ghost xs = self.src.elems();
        proof {
            assert forall|k: int, ys: Seq<B>|
                0 <= k <= xs.len() && #[trigger] combine::images(
                    &self.cnv,
                    xs.take(k),
                    ys,
                ) implies delivery::accepts(blk, s0, ys) by {
                assert forall|i: int| 0 <= i < k implies ys[i] == self.elems()[i] by {
                    assert(xs.take(k)[i] == xs[i]);
                }
                assert(ys =~= self.elems().take(k));
                delivery::lemma_accepts_prefix(blk, s0, self.elems(), k);
            }
        }
        let s = combine::map(self.src, &self.cnv, s0, blk);
        proof {
            let ys = choose|ys: Seq<B>| #[trigger]
                combine::images(&self.cnv, xs, ys) && delivery::folds_to(blk, s0, ys, s);
            assert(ys =~= self.elems());
        }
        s
    }
}

/// The source that delivers the elements of `src` for which `prd` says `true`.
#[verifier::reject_recursive_types(A)]
pub struct Filtered<'a, A, IA, P> {
    /// The source below.
    pub src: &'a IA,
    /// The test that an element has to pass.
    pub prd: P,
    /// What the test computes.
    pub model: Ghost<spec_fn(A) -> bool>,
}

impl<'a, A: Copy, IA: Iterable<A>, P: Fn(A) -> bool> Filtered<'a, A, IA, P> {
    /// What the stage is as a source, written out. The constructors state it:
    /// of a stage whose function is a closure or a named function, Verus
    /// learns it from them and not from the definitions.
    pub open spec fn spelled_out(&self) -> bool {
        &&& self.elems() == self.src.elems().filter(self.model@)
        &&& self.wf() <==> self.src.wf() && combine::applies(&self.prd, self.src.elems())
            && computes(&self.prd, self.model@, self.src.elems())
        &&& self.realized() <==> self.src.realized() && combine::images(
            &self.prd,
            self.src.elems(),
            self.src.elems().map_values(self.model@),
        )
    }

    /// The stage that lets through what `prd`, which computes `model`,
    /// accepts of what `src` delivers.
    pub fn with_model(src: &'a IA, prd: P, model: Ghost<spec_fn(A) -> bool>) -> (stage: Self)
        ensures
            stage.src == src,
            stage.prd == prd,
            stage.model == model,
            stage.spelled_out(),
    {
        Filtered { src, prd, model }
    }

    /// The stage that lets through what `prd` accepts of what `src` delivers.
    /// Its model is whatever `prd` returns, which says something of the
    /// elements only once the stage has been traversed.
    pub fn new(src: &'a IA, prd: P) -> (stage: Self)
        ensures
            stage.src == src,
            stage.prd == prd,
            forall|a: A| #[trigger] (stage.model@)(a) == result_of(&prd, a),
            stage.spelled_out(),
    {
        let model = Ghost(|a: A| result_of(&prd, a));
        Filtered { src, prd, model }
    }
}

impl<'a, A: Copy, IA: Iterable<A>, P: Fn(A) -> bool> Iterable<A> for Filtered<'a, A, IA, P> {
    open spec fn elems(&self) -> Seq<A> {
        self.src.elems().filter(self.model@)
    }

    open spec fn wf(&self) -> bool {
        &&& self.src.wf()
        &&& combine::applies(&self.prd, self.src.elems())
        &&& computes(&self.prd, self.model@, self.src.elems())
    }

    open spec fn realized(&self) -> bool {
        &&& self.src.realized()
        &&& combine::images(
            &self.prd,
            self.src.elems(),
            self.src.elems().map_values(self.model@),
        )
    }

    fn iter<S, F: Fn(S, A) -> S>(&self, s0: S, blk: &F) -> (s: S) {
        let ghost xs = self.src.elems();
        let ghost verdicts = xs.map_values(self.model@);
        proof {
            combine::lemma_select_filter(xs, self.model@);
            assert forall|k: int, keeps: Seq<bool>|
                0 <= k <= xs.len() && #[trigger] combine::images(
                    &self.prd,
                    xs.take(k),
                    keeps,
                ) implies delivery::accepts(blk, s0, combine::select(xs.take(k), keeps)) by {
                assert forall|i: int| 0 <= i < k implies keeps[i] == verdicts[i] by {
                    assert(xs.take(k)[i] == xs[i]);
                }
                assert(keeps =~= verdicts.take(k));
                combine::lemma_select_prefix(xs, verdicts, k);
                delivery::lemma_accepts_prefix(
                    blk,
                    s0,
                    self.elems(),
                    combine::select(xs.take(k), keeps).len() as int,
                );
            }
        }
        let s = combine::filter(self.src, &self.prd, s0, blk);
        proof {
            let keeps = choose|keeps: Seq<bool>| #[trigger]
                combine::images(&self.prd, xs, keeps) && delivery::folds_to(
                    blk,
                    s0,
                    combine::select(xs, keeps),
                    s,
                );
            assert(keeps =~= verdicts);
        }
        s
    }
}

/// The source that delivers, for each element of `src` in turn, all that the
/// source delivers that `cnv` makes of it.
#[verifier::reject_recursive_types(A)]
pub struct FlatMapped<'a, A, B, IA, C> {
    /// The source below.
    pub src: &'a IA,
    /// The conversion of an element into a source.
    pub cnv: C,
    /// What the source delivers that the conversion makes of an element.
    pub model: Ghost<spec_fn(A) -> Seq<B>>,
}

impl<'a, A, B, IA: Iterable<A>, IB: Iterable<B>, C: Fn(A) -> IB> FlatMapped<'a, A, B, IA, C> {
    /// What the stage is as a source, written out. The constructors state it:
    /// of a stage whose function is a closure or a named function, Verus
    /// learns it from them and not from the definitions.
    pub open spec fn spelled_out(&self) -> bool {
        &&& self.elems() == self.src.elems().map_values(self.model@).flatten()
        &&& self.wf() <==> self.src.wf() && combine::applies(&self.cnv, self.src.elems())
            && expands(&self.cnv, self.model@, self.src.elems())
        &&& self.realized() <==> self.src.realized() && exists|inners: Seq<IB>| #[trigger]
            combine::images(&self.cnv, self.src.elems(), inners) && combine::all_realized(inners)
    }

    /// The stage that expands with `cnv` what `src` delivers, where the
    /// sources that `cnv` makes deliver what `model` says.
    pub fn with_model(src: &'a IA, cnv: C, model: Ghost<spec_fn(A) -> Seq<B>>) -> (stage: Self)
        ensures
            stage.src == src,
            stage.cnv == cnv,
            stage.model == model,
            stage.spelled_out(),
    {
        FlatMapped { src, cnv, model }
    }

    /// The stage that expands with `cnv` what `src` delivers. Its model is
    /// what the source delivers that `cnv` returns, which says something of
    /// the elements only once the stage has been traversed.
    pub fn new(src: &'a IA, cnv: C) -> (stage: Self)
        ensures
            stage.src == src,
            stage.cnv == cnv,
            forall|a: A| #[trigger] (stage.model@)(a) == result_of(&cnv, a).elems(),
            stage.spelled_out(),
    {
        let model = Ghost(|a: A| result_of(&cnv, a).elems());
        FlatMapped { src, cnv, model }
    }
}

impl<'a, A, B, IA: Iterable<A>, IB: Iterable<B>, C: Fn(A) -> IB> Iterable<B> for FlatMapped<
    'a,
    A,
    B,
    IA,
    C,
> {
    open spec fn elems(&self) -> Seq<B> {
        self.src.elems().map_values(self.model@).flatten()
    }

    open spec fn wf(&self) -> bool {
        &&& self.src.wf()
        &&& combine::applies(&self.cnv, self.src.elems())
        &&& expands(&self.cnv, self.model@, self.src.elems())
    }

    open spec fn realized(&self) -> bool {
        &&& self.src.realized()
        &&& exists|inners: Seq<IB>| #[trigger]
            combine::images(&self.cnv, self.src.elems(), inners) && combine::all_realized(inners)
    }

    fn iter<S, F: Fn(S, B) -> S>(&self, s0: S, blk: &F) -> (s: S) {
        let ghost xs = self.src.elems();
        let ghost parts = xs.map_values(self.model@);
        proof {
            assert forall|k: int, inners: Seq<IB>|
                0 <= k <= xs.len() && #[trigger] combine::images(
                    &self.cnv,
                    xs.take(k),
                    inners,
                ) implies delivery::accepts(blk, s0, combine::flattened(inners)) by {
                assert forall|i: int| 0 <= i < k implies (#[trigger] inners[i]).elems()
                    == parts.take(k)[i] by {
                    assert(xs.take(k)[i] == xs[i]);
                }
                combine::lemma_flattened_flatten(inners, parts.take(k));
                vstd::seq_lib::lemma_flatten_concat(parts.take(k), parts.skip(k));
                assert(parts.take(k) + parts.skip(k) =~= parts);
                let front = parts.take(k).flatten();
                assert(self.elems().take(front.len() as int) =~= front);
                delivery::lemma_accepts_prefix(blk, s0, self.elems(), front.len() as int);
            }
        }
        let s = combine::flat_map(self.src, &self.cnv, s0, blk);
        proof {
            let inners = choose|inners: Seq<IB>| #[trigger]
                combine::images(&self.cnv, xs, inners) && combine::all_realized(inners)
                    && delivery::folds_to(blk, s0, combine::flattened(inners), s);
            combine::lemma_flattened_flatten(inners, parts);
        }
        s
    }
}

} // verus!

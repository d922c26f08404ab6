use crate::rvec::{
    ceil_div, group_of, reduce_group_ok, snapshot_valid, GroupOp, RVec,
};
use vstd::prelude::*;

verus! {

/// The two rules of a reduction: a per-element map and a per-group fold.
/// Both are deterministic and report "unchanged" by returning `None`, which
/// lets the engine skip writes.
pub trait ReduceRules<E, S>: Sized {
    /// The intended summary of one element. A rule written outside
    /// verified code leaves this unspecified.
    open spec fn map_spec(&self, e: E, idx: int) -> S {
        vstd::pervasive::arbitrary()
    }

    /// The intended summary of a group of summaries. A rule written outside
    /// verified code leaves this unspecified.
    open spec fn fold_spec(&self, group: Seq<S>) -> S {
        vstd::pervasive::arbitrary()
    }

    /// Map one element to its summary; `None` states that `prior` is already
    /// that summary.
    fn map_one(&self, e: &E, prior: &S, idx: usize) -> (r: Option<S>)
        ensures
            r matches Some(s) ==> s == self.map_spec(*e, idx as int),
            r is None ==> *prior == self.map_spec(*e, idx as int),
    ;

    /// Duplicate one summary value, so a per-chunk result can be carried
    /// into a higher-level reduction.
    fn clone_summary(&self, s: &S) -> (r: S)
        ensures
            r == *s,
    ;

    /// Fold a group of summaries into one; `None` states that `prior` is
    /// already that summary.
    fn fold_many(&self, group: &[S], prior: &S) -> (r: Option<S>)
        requires
            group@.len() >= 1,
        ensures
            r matches Some(s) ==> s == self.fold_spec(group@),
            r is None ==> *prior == self.fold_spec(group@),
    ;
}

/// Folding groups of at least two strictly shrinks a layer.
proof fn lemma_ceil_lt(n: int, gs: int)
    requires
        n >= 2,
        gs >= 2,
    ensures
        ceil_div(n, gs) < n,
{
    assert((n - 1) / gs < n - 1) by (nonlinear_arith)
        requires
            n - 1 >= 1,
            gs >= 2,
    ;
}

/// Adapter running the map rule as a group rule over singleton groups.
struct MapOp<'a, R> {
    rules: &'a R,
}

impl<'a, E, S, R: ReduceRules<E, S>> GroupOp<E, S> for MapOp<'a, R> {
    closed spec fn spec_value(&self, group: Seq<E>, idx: int) -> S {
        self.rules.map_spec(group[0], idx)
    }

    fn compute(&self, group: &[E], prior: &S, idx: usize) -> (r: Option<S>) {
        let e = vstd::slice::slice_index_get(group, 0);
        self.rules.map_one(e, prior, idx)
    }
}

/// Adapter running the fold rule as a group rule.
struct FoldOp<'a, R> {
    rules: &'a R,
}

impl<'a, S, R: ReduceRules<S, S>> GroupOp<S, S> for FoldOp<'a, R> {
    closed spec fn spec_value(&self, group: Seq<S>, idx: int) -> S {
        self.rules.fold_spec(group)
    }

    fn compute(&self, group: &[S], prior: &S, idx: usize) -> (r: Option<S>) {
        self.rules.fold_many(group, prior)
    }
}

/// What one `reduce` pass with the map rule over singleton groups yields:
/// every element of the new layer is the rule's intended summary of the
/// current source element, whether recomputed or soundly kept.
proof fn lemma_map_layer<E, S, R: ReduceRules<E, S>>(
    rules: &R,
    pre0: RVec<S>,
    l0: RVec<S>,
    parent: &RVec<E>,
    seen: Seq<E>,
)
    requires
        l0@.len() == parent@.len(),
        forall|i: int| 0 <= i < l0@.len() ==> #[trigger] reduce_group_ok(
            pre0, l0, *parent, 1, MapOp { rules }, i),
        pre0.parent_id_spec() == Some(parent.id_spec()) ==> {
            &&& snapshot_valid(*parent, pre0.parent_count_spec(), seen)
            &&& pre0@.len() == seen.len()
            &&& forall|i: int| 0 <= i < seen.len()
                ==> #[trigger] pre0@[i] == rules.map_spec(seen[i], i)
        },
    ensures
        forall|i: int| 0 <= i < parent@.len() ==> l0@[i] == #[trigger] rules.map_spec(
            parent@[i], i),
{
    assert forall|i: int| 0 <= i < parent@.len() implies l0@[i] == #[trigger] rules.map_spec(
        parent@[i], i) by {
        let mop = MapOp { rules };
        assert(i * 1 == i && (i + 1) * 1 == i + 1) by (nonlinear_arith);
        assert(reduce_group_ok(pre0, l0, *parent, 1, mop, i));
        assert(group_of(parent@, 1, i) =~= seq![parent@[i]]);
        if l0@[i] == mop.spec_value(group_of(parent@, 1, i), i) {
            assert(mop.spec_value(group_of(parent@, 1, i), i)
                == rules.map_spec(parent@[i], i));
        } else {
            // kept-value case: the element is untouched since the snapshot,
            // so the snapshot value it was mapped from is the current value
            assert(parent.last(i) <= pre0.parent_count_spec());
            assert(parent@[i] == seen[i]);
            assert(l0@[i] == pre0@[i]);
        }
    }
}

/// What one `reduce` pass with the fold rule yields: every group of the new
/// layer is the rule's intended fold of the current source layer's group,
/// whether recomputed or soundly kept from the previous consistent state.
proof fn lemma_fold_layer<S, R: ReduceRules<S, S>>(
    rules: &R,
    pret: RVec<S>,
    lt: RVec<S>,
    lk: RVec<S>,
    ok: Seq<S>,
    gs: int,
)
    requires
        gs >= 2,
        forall|g: int| 0 <= g < lt@.len() ==> #[trigger] reduce_group_ok(
            pret, lt, lk, gs, FoldOp { rules }, g),
        pret.parent_id_spec() == Some(lk.id_spec()) ==> {
            &&& snapshot_valid(lk, pret.parent_count_spec(), ok)
            &&& pret.parent_len_spec() == ok.len()
            &&& pret@.len() == ceil_div(ok.len() as int, gs)
            &&& forall|g: int| 0 <= g < pret@.len()
                ==> #[trigger] pret@[g] == rules.fold_spec(group_of(ok, gs, g))
        },
    ensures
        forall|g: int| 0 <= g < lt@.len() ==> lt@[g] == #[trigger] rules.fold_spec(
            group_of(lk@, gs, g)),
{
    let low = lk@;
    assert forall|g: int| 0 <= g < lt@.len() implies lt@[g] == #[trigger] rules.fold_spec(
        group_of(low, gs, g)) by {
        let fop = FoldOp { rules };
        assert(reduce_group_ok(pret, lt, lk, gs, fop, g));
        if lt@[g] == fop.spec_value(group_of(low, gs, g), g) {
            assert(fop.spec_value(group_of(low, gs, g), g)
                == rules.fold_spec(group_of(low, gs, g)));
        } else {
            // kept-value case: the target was consistent with a snapshot of
            // the source layer, and this whole group is untouched since then
            assert(pret.parent_id_spec() == Some(lk.id_spec()));
            assert(pret.parent_count_spec() < u128::MAX);
            let ce = crate::rvec::group_end(low.len() as int, gs, g);
            let oe = crate::rvec::group_end(ok.len() as int, gs, g);
            assert(ce >= oe);
            assert(0 <= g < pret@.len());
            if ok.len() == 0 {
                assert(ceil_div(ok.len() as int, gs) == 0);
                assert(false);
            }
            crate::rvec::lemma_group_start(ok.len() as int, gs, g);
            assert forall|x: int| g * gs <= x < ce
                implies x < ok.len() && low[x] == ok[x] by {
                assert(lk.last(x) <= pret.parent_count_spec());
            }
            // the current extent cannot exceed the old one either
            if ce > oe {
                if oe == (g + 1) * gs {
                    assert(ce <= (g + 1) * gs);
                    assert(false);
                }
                assert(oe == ok.len());
                assert(g * gs <= oe < ce);
                assert(lk.last(oe) <= pret.parent_count_spec());
                assert(oe < ok.len());
                assert(false);
            }
            assert(group_of(low, gs, g) =~= group_of(ok, gs, g));
            assert(lt@[g] == pret@[g]);
            assert(pret@[g] == rules.fold_spec(group_of(ok, gs, g)));
        }
    }
}

/// A multi-layer incremental reduction over a change-tracked vector: layer 0
/// maps every source element to a summary, and each further layer folds
/// groups of `group_size` summaries, until one value remains. `update`
/// recomputes only what the source's staleness hierarchy cannot rule out.
pub struct Reduce<E, S, R: ReduceRules<S, S>> {
    rules: R,
    layers: Vec<RVec<S>>,
    group_size: usize,
    seen: Ghost<Seq<E>>,
}

impl<E, S: Default, R: ReduceRules<S, S> + ReduceRules<E, S>> Reduce<E, S, R> {
    /// The reduction layers.
    pub closed spec fn layers_spec(&self) -> Seq<RVec<S>> {
        self.layers@
    }

    /// The group size.
    pub closed spec fn group_size_spec(&self) -> int {
        self.group_size as int
    }

    /// The rules.
    pub closed spec fn rules_spec(&self) -> R {
        self.rules
    }

    /// The snapshot of the source as of the last update.
    pub closed spec fn seen_spec(&self) -> Seq<E> {
        self.seen@
    }

    /// Structural well-formedness.
    pub open spec fn wf(&self) -> bool {
        &&& self.group_size_spec() >= 2
        &&& self.layers_spec().len() >= 1
        &&& forall|k: int| 0 <= k < self.layers_spec().len()
            ==> (#[trigger] self.layers_spec()[k]).wf()
    }

    /// The layers are exactly the multi-layer reduction of `parent` under the
    /// rules: layer 0 maps the elements one for one, every further layer
    /// folds groups of the layer below, the stack shrinks to a final layer of
    /// at most one value, and no layer above the final one is that short.
    pub open spec fn consistent(&self, parent: Seq<E>) -> bool {
        let l = self.layers_spec();
        let gs = self.group_size_spec();
        &&& l[0]@.len() == parent.len()
        &&& (forall|i: int| 0 <= i < parent.len() ==> l[0]@[i]
            == (#[trigger] <R as ReduceRules<E, S>>::map_spec(&self.rules_spec(), parent[i], i)))
        &&& (forall|k: int| 1 <= k < l.len() ==> (#[trigger] l[k]@).len()
            == ceil_div(l[k - 1]@.len() as int, gs))
        &&& (forall|k: int, g: int| 1 <= k < l.len() && 0 <= g < l[k]@.len()
            ==> #[trigger] l[k]@[g] == <R as ReduceRules<S, S>>::fold_spec(
                &self.rules_spec(), group_of(l[k - 1]@, gs, g)))
        &&& l[l.len() - 1]@.len() <= 1
        &&& (forall|k: int| 0 <= k < l.len() - 1 ==> (#[trigger] l[k]@).len() > 1)
    }

    /// This reduction is bound to the source `parent`: the first layer tracks
    /// its identity and counter, the snapshot is valid for that counter, the
    /// layers reduce the snapshot, and the inner layers form a chain.
    pub open spec fn attached(&self, parent: &RVec<E>) -> bool {
        let l = self.layers_spec();
        &&& self.consistent(self.seen_spec())
        &&& l[0].parent_id_spec() == Some(parent.id_spec())
        &&& l[0].parent_len_spec() == self.seen_spec().len()
        &&& snapshot_valid(*parent, l[0].parent_count_spec(), self.seen_spec())
        &&& (forall|k: int| 1 <= k < l.len()
            ==> (#[trigger] l[k]).parent_id_spec() == Some(l[k - 1].id_spec())
                && l[k].parent_count_spec() == l[k - 1].change_count_spec()
                && l[k].parent_len_spec() == l[k - 1]@.len())
    }

    /// No internal counter has saturated; astronomically many mutations would
    /// be needed to falsify this.
    pub open spec fn counters_live(&self) -> bool {
        forall|k: int| 0 <= k < self.layers_spec().len()
            ==> (#[trigger] self.layers_spec()[k]).change_count_spec() < u128::MAX
    }

    /// A new reduction with the given group size and rules; the first
    /// `update` will process the whole source.
    pub fn new(_parent: &RVec<E>, group_size: usize, rules: R) -> (r: Self)
        requires
            group_size >= 2,
        ensures
            r.wf(),
            r.layers_spec().len() == 1,
            r.layers_spec()[0].parent_id_spec() is None,
            r.layers_spec()[0]@.len() == 0,
            r.layers_spec()[0].change_count_spec() == 0,
            r.group_size_spec() == group_size as int,
            r.rules_spec() == rules,
            r.counters_live(),
    {
        let mut layers = Vec::new();
        layers.push(RVec::new());
        Reduce { rules, layers, group_size, seen: Ghost(Seq::empty()) }
    }

    /// Forget the attachment: the next `update` recomputes everything from
    /// whatever source it is given. This is the deterministic form of the
    /// self-healing reset, for callers that know the source changed
    /// identity.
    pub fn detach(&mut self)
        requires
            old(self).wf(),
        ensures
            final(self).wf(),
            final(self).layers_spec().len() == 1,
            final(self).layers_spec()[0].parent_id_spec() is None,
            final(self).group_size_spec() == old(self).group_size_spec(),
            final(self).rules_spec() == old(self).rules_spec(),
    {
        self.layers.truncate(0);
        self.layers.push(RVec::new());
    }

    /// The final reduced value: `None` when the source is empty. Meaningful
    /// after `update`.
    pub fn peek(&self) -> (r: Option<&S>)
        requires
            self.wf(),
            self.layers_spec()[self.layers_spec().len() - 1]@.len() <= 1,
        ensures
            match r {
                Some(v) => self.layers_spec()[self.layers_spec().len() - 1]@
                    == seq![*v],
                None => self.layers_spec()[self.layers_spec().len() - 1]@.len() == 0,
            },
    {
        let k = self.layers.len() - 1;
        let lastl = &self.layers[k];
        if lastl.len() == 0 {
            None
        } else {
            let v = lastl.index(0);
            proof {
                assert(self.layers_spec()[k as int]@ =~= seq![*v]);
            }
            Some(v)
        }
    }

    /// Bring every layer up to date with `parent`, recomputing only groups
    /// that may have changed since the last update against this same source;
    /// a different source instance resets the whole stack (self-healing).
    ///
    /// Updating twice with no intervening mutation leaves every layer's
    /// contents identical and recomputes nothing.
    #[verifier::rlimit(100)]
    pub fn update(&mut self, parent: &RVec<E>)
        requires
            old(self).wf(),
            parent.wf(),
            old(self).layers_spec()[0].parent_id_spec() == Some(parent.id_spec())
                ==> old(self).attached(parent),
        ensures
            final(self).wf(),
            final(self).attached(parent),
            final(self).seen_spec() == parent@,
            final(self).layers_spec()[0].parent_count_spec() == parent.change_count_spec(),
            final(self).group_size_spec() == old(self).group_size_spec(),
            final(self).rules_spec() == old(self).rules_spec(),
            (old(self).attached(parent)
                && old(self).layers_spec()[0].parent_id_spec() == Some(parent.id_spec())
                && old(self).layers_spec()[0].parent_count_spec()
                    == parent.change_count_spec()
                && parent.change_count_spec() < u128::MAX
                && old(self).seen_spec().len() == parent@.len()
                && old(self).counters_live()) ==> {
                &&& final(self).layers_spec().len() == old(self).layers_spec().len()
                &&& forall|k: int| 0 <= k < final(self).layers_spec().len()
                    ==> (#[trigger] final(self).layers_spec()[k])@
                        == old(self).layers_spec()[k]@
            },
    {
        let ghost orig = *old(self);
        let gs = self.group_size;
        let ghost gsi = gs as int;
        let ghost idem = orig.attached(parent)
            && orig.layers_spec()[0].parent_id_spec() == Some(parent.id_spec())
            && orig.layers_spec()[0].parent_count_spec() == parent.change_count_spec()
            && parent.change_count_spec() < u128::MAX
            && orig.seen_spec().len() == parent@.len()
            && orig.counters_live();

        // a stack attached to some other source starts over
        proof {
            assert(orig.group_size_spec() == gs as int);
            assert(orig.rules_spec() == self.rules);
        }
        let att = match self.layers[0].parent_id() {
            None => false,
            Some(p) => p == parent.id(),
        };
        if !att {
            self.layers.truncate(0);
            self.layers.push(RVec::new());
        }
        proof {
            if idem {
                assert(att);
            }
            if att {
                assert(orig.attached(parent));
            }
        }

        // layer 0: map every (possibly changed) element
        let ghost pre0 = self.layers@[0];
        let mut layer0 = self.layers.remove(0);
        layer0.reduce(parent, 1, &(MapOp { rules: &self.rules }));
        self.layers.insert(0, layer0);
        proof {
            self.seen@ = parent@;
        }
        proof {
            let l0 = self.layers@[0];
            if pre0.parent_id_spec() == Some(parent.id_spec()) {
                assert(att);
                assert(orig.attached(parent));
                assert(pre0 == orig.layers_spec()[0]);
                assert(orig.consistent(orig.seen_spec()));
                assert(self.rules == orig.rules_spec());
                assert forall|i: int| 0 <= i < orig.seen_spec().len()
                    implies #[trigger] pre0@[i] == <R as ReduceRules<E, S>>::map_spec(
                        &self.rules, orig.seen_spec()[i], i) by {
                    assert(pre0@[i] == <R as ReduceRules<E, S>>::map_spec(
                        &orig.rules_spec(), orig.seen_spec()[i], i));
                }
            }
            lemma_map_layer(&self.rules, pre0, l0, parent, orig.seen_spec());
            assert(l0@.len() == parent@.len());
            if idem {
                assert(pre0 == orig.layers_spec()[0]);
                assert(l0@ =~= pre0@);
            }
            if att && 1 < orig.layers_spec().len() {
                // the next layer's snapshot of this layer stays valid
                assert(pre0 == orig.layers_spec()[0]);
                assert(snapshot_valid(pre0, orig.layers_spec()[1].parent_count_spec(),
                    orig.layers_spec()[0]@));
                assert(snapshot_valid(l0, orig.layers_spec()[1].parent_count_spec(),
                    orig.layers_spec()[0]@));
            }
        }

        // fold layers until one value remains
        let mut k: usize = 0;
        while self.layers[k].len() > 1
            invariant
                0 <= k < self.layers@.len(),
                self.group_size == gs,
                gs >= 2,
                self.rules == orig.rules_spec(),
                self.seen@ == parent@,
                forall|j: int| 0 <= j < self.layers@.len()
                    ==> (#[trigger] self.layers@[j]).wf(),
                self.layers@[0]@.len() == parent@.len(),
                forall|i: int| 0 <= i < parent@.len() ==> self.layers@[0]@[i]
                    == (#[trigger] <R as ReduceRules<E, S>>::map_spec(
                        &self.rules, parent@[i], i)),
                self.layers@[0].parent_id_spec() == Some(parent.id_spec()),
                self.layers@[0].parent_count_spec() == parent.change_count_spec(),
                self.layers@[0].parent_len_spec() == parent@.len(),
                snapshot_valid(*parent, self.layers@[0].parent_count_spec(), parent@),
                forall|j: int| 1 <= j <= k ==> (#[trigger] self.layers@[j])@.len()
                    == ceil_div(self.layers@[j - 1]@.len() as int, gs as int),
                forall|j: int, g: int| 1 <= j <= k && 0 <= g < self.layers@[j]@.len()
                    ==> #[trigger] self.layers@[j]@[g]
                        == <R as ReduceRules<S, S>>::fold_spec(
                            &self.rules, group_of(self.layers@[j - 1]@, gs as int, g)),
                forall|j: int| 1 <= j <= k
                    ==> (#[trigger] self.layers@[j]).parent_id_spec()
                        == Some(self.layers@[j - 1].id_spec())
                        && self.layers@[j].parent_count_spec()
                            == self.layers@[j - 1].change_count_spec()
                        && self.layers@[j].parent_len_spec()
                            == self.layers@[j - 1]@.len(),
                forall|j: int| 0 <= j < k ==> (#[trigger] self.layers@[j])@.len() > 1,
                gs as int == orig.group_size_spec(),
                self.rules == orig.rules_spec(),
                idem ==> (orig.attached(parent)
                    && orig.layers_spec()[0].parent_id_spec() == Some(parent.id_spec())
                    && orig.layers_spec()[0].parent_count_spec()
                        == parent.change_count_spec()
                    && parent.change_count_spec() < u128::MAX
                    && orig.seen_spec().len() == parent@.len()
                    && orig.counters_live()),
                !att ==> self.layers@.len() == k + 1,
                att ==> orig.attached(parent),
                att ==> (k + 1 < orig.layers_spec().len()
                    ==> self.layers@.len() == orig.layers_spec().len()),
                att ==> (k + 1 >= orig.layers_spec().len()
                    ==> self.layers@.len() == k + 1),
                att ==> forall|j: int| k < j < self.layers@.len()
                    ==> #[trigger] self.layers@[j] == orig.layers_spec()[j],
                att ==> forall|j: int| 0 <= j <= k && j < orig.layers_spec().len()
                    ==> (#[trigger] self.layers@[j]).id_spec()
                        == orig.layers_spec()[j].id_spec(),
                att ==> forall|j: int| 0 <= j <= k && j + 1 < orig.layers_spec().len()
                    ==> snapshot_valid(#[trigger] self.layers@[j],
                        orig.layers_spec()[j + 1].parent_count_spec(),
                        orig.layers_spec()[j]@),
                idem ==> att && self.layers@.len() == orig.layers_spec().len()
                    && k < orig.layers_spec().len()
                    && (forall|j: int| 0 <= j <= k ==> (#[trigger] self.layers@[j])@
                        == orig.layers_spec()[j]@
                        && self.layers@[j].change_count_spec()
                            == orig.layers_spec()[j].change_count_spec()),
            decreases self.layers@[k as int]@.len(),
        {
            let ghost lk = self.layers@[k as int];
            // the target layer: the existing next layer, or a fresh one
            let mut target: RVec<S> = if k < self.layers.len() - 1 {
                self.layers.remove(k + 1)
            } else {
                RVec::new()
            };
            let ghost pret = target;
            let source_ref = &self.layers[k];
            target.reduce(source_ref, gs, &(FoldOp { rules: &self.rules }));
            self.layers.insert(k + 1, target);
            proof {
                let lt = self.layers@[k as int + 1];
                let low = self.layers@[k as int]@;
                assert(low == lk@);
                let ghost ok: Seq<S> = if att && k + 1 < orig.layers_spec().len() {
                    orig.layers_spec()[k as int]@
                } else {
                    Seq::empty()
                };
                if pret.parent_id_spec() == Some(lk.id_spec()) {
                    // only a target carried over from an attached stack can
                    // name this source layer
                    assert(att && k + 1 < orig.layers_spec().len());
                    assert(pret == orig.layers_spec()[k as int + 1]);
                    assert(orig.consistent(orig.seen_spec()));
                    assert(orig.group_size_spec() == gs as int);
                    assert(snapshot_valid(lk, pret.parent_count_spec(), ok));
                    assert(pret.parent_len_spec() == ok.len());
                    assert((orig.layers_spec()[k as int + 1]@).len()
                        == ceil_div(orig.layers_spec()[k as int]@.len() as int, gs as int));
                    assert(pret@.len() == ceil_div(ok.len() as int, gs as int));
                    assert forall|g: int| 0 <= g < pret@.len()
                        implies #[trigger] pret@[g] == <R as ReduceRules<S, S>>::fold_spec(
                            &self.rules, group_of(ok, gs as int, g)) by {
                        assert(pret@[g] == <R as ReduceRules<S, S>>::fold_spec(
                            &orig.rules_spec(), group_of(ok, gs as int, g)));
                    }
                }
                lemma_fold_layer(&self.rules, pret, lt, lk, ok, gs as int);
                // the snapshot chain advances one layer
                if att && k + 2 < orig.layers_spec().len() {
                    assert(pret == orig.layers_spec()[k as int + 1]);
                    assert(snapshot_valid(orig.layers_spec()[k as int + 1],
                        orig.layers_spec()[k as int + 2].parent_count_spec(),
                        orig.layers_spec()[k as int + 1]@));
                    assert(snapshot_valid(lt,
                        orig.layers_spec()[k as int + 2].parent_count_spec(),
                        orig.layers_spec()[k as int + 1]@));
                }
                if idem {
                    assert(pret == orig.layers_spec()[k as int + 1]);
                    assert(orig.counters_live());
                    assert(lk.change_count_spec()
                        == orig.layers_spec()[k as int].change_count_spec());
                    assert(lk.change_count_spec() < u128::MAX);
                    assert(pret.parent_count_spec() == lk.change_count_spec());
                    assert(pret.parent_len_spec() == lk@.len());
                    assert(pret@.len() == ceil_div(lk@.len() as int, gs as int));
                    assert(lt@ =~= pret@);
                }
                lemma_ceil_lt(low.len() as int, gs as int);
                assert(lt@.len() < low.len());
            }
            k = k + 1;
        }
        // drop layers left over from a longer stack
        proof {
            if idem {
                assert(self.layers@[k as int]@ == orig.layers_spec()[k as int]@);
                assert(orig.layers_spec()[k as int]@.len() <= 1
                    || k as int == orig.layers_spec().len() - 1);
                if (k as int) < orig.layers_spec().len() - 1 {
                    assert(orig.layers_spec()[k as int]@.len() > 1);
                }
                assert(k as int == orig.layers_spec().len() - 1);
            }
        }
        let ln = self.layers.len();
        proof {
            assert(k < ln);
        }
        self.layers.truncate(k + 1);
        proof {
            let post = *self;
            assert(post.layers_spec().len() == k + 1);
            assert(post.consistent(parent@));
        }
    }
}

/// A consistent stack over a nonempty source ends in exactly one value.
pub proof fn lemma_nonempty_terminal<E, S: Default, R: ReduceRules<S, S> + ReduceRules<E, S>>(
    r: &Reduce<E, S, R>,
    parent: Seq<E>,
)
    requires
        r.wf(),
        r.consistent(parent),
        parent.len() > 0,
    ensures
        r.layers_spec()[r.layers_spec().len() - 1]@.len() == 1,
{
    lemma_layers_nonempty(r, parent, r.layers_spec().len() - 1);
}

proof fn lemma_layers_nonempty<E, S: Default, R: ReduceRules<S, S> + ReduceRules<E, S>>(
    r: &Reduce<E, S, R>,
    parent: Seq<E>,
    k: int,
)
    requires
        r.wf(),
        r.consistent(parent),
        parent.len() > 0,
        0 <= k < r.layers_spec().len(),
    ensures
        r.layers_spec()[k]@.len() > 0,
    decreases k,
{
    if k > 0 {
        lemma_layers_nonempty(r, parent, k - 1);
    }
}

} // verus!

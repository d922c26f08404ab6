use crate::reduce::{lemma_nonempty_terminal, Reduce, ReduceRules};
use crate::rvec::{snapshot_valid, RVec};
use vstd::prelude::*;

verus! {

/// A multi-layer reduction over chunked storage: the source is a
/// change-tracked vector of chunks, each itself a change-tracked vector of
/// elements. One `Reduce` engine per chunk keeps a per-chunk summary, a
/// change-tracked vector collects those summaries, and one top engine folds
/// them to the final value. `update` recomputes only the chunks the outer
/// staleness hierarchy cannot rule out; a chunk that moved or was replaced
/// is rebuilt from scratch, deterministically.
pub struct ChunkedReduce<E, S: Default, R: ReduceRules<S, S> + ReduceRules<E, S> + Copy> {
    rules: R,
    group_size: usize,
    engines: Vec<Reduce<E, S, R>>,
    chunk_sums: RVec<S>,
    top: Reduce<S, S, R>,
    parent_id: Option<u64>,
    parent_count: u128,
    seen: Ghost<Seq<RVec<E>>>,
}

impl<E, S: Default, R: ReduceRules<S, S> + ReduceRules<E, S> + Copy> ChunkedReduce<E, S, R> {
    /// The per-chunk engines.
    pub closed spec fn engines_spec(&self) -> Seq<Reduce<E, S, R>> {
        self.engines@
    }

    /// The per-chunk summary vector.
    pub closed spec fn sums_spec(&self) -> RVec<S> {
        self.chunk_sums
    }

    /// The top engine folding the per-chunk summaries.
    pub closed spec fn top_spec(&self) -> Reduce<S, S, R> {
        self.top
    }

    /// The rules.
    pub closed spec fn rules_spec(&self) -> R {
        self.rules
    }

    /// The group size.
    pub closed spec fn group_size_spec(&self) -> int {
        self.group_size as int
    }

    /// The identity of the chunk vector this reduction follows, if any.
    pub closed spec fn parent_id_spec(&self) -> Option<u64> {
        self.parent_id
    }

    /// The outer counter as of the last update.
    pub closed spec fn parent_count_spec(&self) -> u128 {
        self.parent_count
    }

    /// The snapshot of the chunk vector as of the last update.
    pub closed spec fn seen_spec(&self) -> Seq<RVec<E>> {
        self.seen@
    }

    /// Structural well-formedness.
    pub open spec fn wf(&self) -> bool {
        &&& self.group_size_spec() >= 2
        &&& self.sums_spec().wf()
        &&& self.top_spec().wf()
        &&& self.top_spec().group_size_spec() == self.group_size_spec()
        &&& self.top_spec().rules_spec() == self.rules_spec()
        &&& forall|i: int| 0 <= i < self.engines_spec().len()
            ==> (#[trigger] self.engines_spec()[i]).wf()
                && self.engines_spec()[i].group_size_spec() == self.group_size_spec()
                && self.engines_spec()[i].rules_spec() == self.rules_spec()
    }

    /// The final value of an engine's stack.
    pub open spec fn terminal_of(e: Reduce<E, S, R>) -> S {
        e.layers_spec()[e.layers_spec().len() - 1]@[0]
    }

    /// This reduction is bound to the chunk vector `chunks`: the snapshot is
    /// valid, each engine reduces exactly its snapshot chunk's contents,
    /// each collected summary is its engine's final value, and the top
    /// engine folds the collected summaries.
    pub open spec fn synced(&self, chunks: &RVec<RVec<E>>) -> bool {
        &&& self.parent_id_spec() == Some(chunks.id_spec())
        &&& snapshot_valid(*chunks, self.parent_count_spec(), self.seen_spec())
        &&& self.engines_spec().len() == self.seen_spec().len()
        &&& self.sums_spec()@.len() == self.seen_spec().len()
        &&& (forall|i: int| 0 <= i < self.seen_spec().len()
            ==> (#[trigger] self.engines_spec()[i]).attached(&self.seen_spec()[i])
                && self.engines_spec()[i].seen_spec() == self.seen_spec()[i]@)
        &&& (forall|i: int| 0 <= i < self.seen_spec().len()
            && self.seen_spec()[i]@.len() > 0
            ==> #[trigger] self.sums_spec()@[i] == Self::terminal_of(
                self.engines_spec()[i]))
        &&& self.top_spec().layers_spec()[0].parent_id_spec() == Some(
            self.sums_spec().id_spec())
        &&& self.top_spec().attached(&self.sums_spec())
        &&& self.top_spec().seen_spec() == self.sums_spec()@
    }

    /// A new chunked reduction; the first `update` processes every chunk.
    pub fn new(_chunks: &RVec<RVec<E>>, group_size: usize, rules: R) -> (r: Self)
        requires
            group_size >= 2,
        ensures
            r.wf(),
            r.parent_id_spec() is None,
    {
        let chunk_sums: RVec<S> = RVec::new();
        let top = Reduce::new(&chunk_sums, group_size, rules);
        ChunkedReduce {
            rules,
            group_size,
            engines: Vec::new(),
            chunk_sums,
            top,
            parent_id: None,
            parent_count: 0,
            seen: Ghost(Seq::empty()),
        }
    }

    /// The final reduced value over all chunks: `None` when there are no
    /// chunks. Meaningful after `update`.
    pub fn peek(&self) -> (r: Option<&S>)
        requires
            self.wf(),
            self.top_spec().layers_spec()[self.top_spec().layers_spec().len() - 1]@.len()
                <= 1,
        ensures
            match r {
                Some(v) => self.top_spec().layers_spec()[
                    self.top_spec().layers_spec().len() - 1]@ == seq![*v],
                None => self.top_spec().layers_spec()[
                    self.top_spec().layers_spec().len() - 1]@.len() == 0,
            },
    {
        self.top.peek()
    }

    /// Bring every per-chunk summary and the top fold up to date with
    /// `chunks`, recomputing only chunks the outer staleness hierarchy
    /// cannot rule out; chunks that moved, appeared or were replaced are
    /// rebuilt from scratch. Chunked storage keeps no empty chunk, so every
    /// chunk is required to hold at least one element.
    #[verifier::rlimit(100)]
    #[verifier::spinoff_prover]
    pub fn update(&mut self, chunks: &RVec<RVec<E>>)
        requires
            old(self).wf(),
            chunks.wf(),
            forall|i: int| 0 <= i < chunks@.len() ==> (#[trigger] chunks@[i]).wf()
                && chunks@[i]@.len() > 0,
            old(self).parent_id_spec() == Some(chunks.id_spec())
                ==> old(self).synced(chunks),
        ensures
            final(self).wf(),
            final(self).synced(chunks),
            final(self).seen_spec() == chunks@,
            final(self).rules_spec() == old(self).rules_spec(),
            final(self).top_spec().layers_spec()[
                final(self).top_spec().layers_spec().len() - 1]@.len() <= 1,
            forall|i: int| 0 <= i < chunks@.len()
                ==> (#[trigger] final(self).engines_spec()[i]).consistent(chunks@[i]@),
            forall|i: int| 0 <= i < chunks@.len()
                ==> #[trigger] final(self).sums_spec()@[i] == Self::terminal_of(
                    final(self).engines_spec()[i]),
            final(self).top_spec().consistent(final(self).sums_spec()@),
    {
        let ghost orig = *old(self);
        let ghost rls = self.rules;
        let ghost gs = self.group_size as int;
        // a reduction attached to some other chunk vector starts over
        let matched = match self.parent_id {
            None => false,
            Some(p) => p == chunks.id(),
        };
        if !matched {
            self.engines = Vec::new();
            self.chunk_sums = RVec::new();
            self.top.detach();
            self.parent_count = 0;
        }
        let pc = if matched && self.parent_count < u128::MAX {
            self.parent_count
        } else if matched {
            // a saturated counter means nothing can be trusted; rebuild
            self.engines = Vec::new();
            self.chunk_sums = RVec::new();
            self.top.detach();
            0
        } else {
            0
        };
        let ghost fresh = !(matched && orig.parent_count_spec() < u128::MAX);
        proof {
            if !fresh {
                assert(orig.synced(chunks));
            }
        }
        let ghost top0 = self.top;
        let ghost base_engines = self.engines@;
        let ghost base_sums = self.chunk_sums;

        let n = chunks.len();
        // size the engine list to the chunk count
        while self.engines.len() > n
            invariant
                self.rules == rls,
                self.group_size as int == gs,
                self.top == top0,
                self.chunk_sums == base_sums,
                self.engines@.len() <= base_engines.len(),
                self.engines@.len() >= n || self.engines@.len() == base_engines.len(),
                forall|i: int| 0 <= i < self.engines@.len()
                    ==> #[trigger] self.engines@[i] == base_engines[i],
            decreases self.engines@.len(),
        {
            let ghost prev = self.engines@;
            self.engines.pop();
            proof {
                assert(self.engines@ =~= prev.drop_last());
            }
        }
        while self.engines.len() < n
            invariant
                self.rules == rls,
                self.group_size as int == gs,
                gs >= 2,
                self.top == top0,
                self.chunk_sums == base_sums,
                n == chunks@.len(),
                self.engines@.len() <= n,
                self.engines@.len() >= base_engines.len() || self.engines@.len() >= n,
                forall|i: int| 0 <= i < self.engines@.len() && i < base_engines.len()
                    ==> #[trigger] self.engines@[i] == base_engines[i],
                forall|i: int| base_engines.len() <= i < self.engines@.len()
                    ==> (#[trigger] self.engines@[i]).wf()
                        && self.engines@[i].layers_spec()[0].parent_id_spec() is None
                        && self.engines@[i].group_size_spec() == gs
                        && self.engines@[i].rules_spec() == rls,
            decreases n - self.engines@.len(),
        {
            let at = self.engines.len();
            let fresh_engine = Reduce::new(chunks.index(at), self.group_size, self.rules);
            self.engines.push(fresh_engine);
        }
        let ghost eng1 = self.engines@;
        // size the summary vector to the chunk count
        while self.chunk_sums.len() > n
            invariant
                self.rules == rls,
                self.group_size as int == gs,
                self.top == top0,
                self.engines@ == eng1,
                self.chunk_sums.wf(),
                self.chunk_sums@.len() <= base_sums@.len(),
                self.chunk_sums@.len() >= n || self.chunk_sums@.len() == base_sums@.len(),
                forall|i: int| 0 <= i < self.chunk_sums@.len()
                    ==> #[trigger] self.chunk_sums@[i] == base_sums@[i],
                self.chunk_sums.id_spec() == base_sums.id_spec(),
                forall|pc2: u128, seen2: Seq<S>| #[trigger] snapshot_valid(
                    base_sums, pc2, seen2) ==> snapshot_valid(self.chunk_sums, pc2, seen2),
            decreases self.chunk_sums@.len(),
        {
            let last = self.chunk_sums.len() - 1;
            let ghost prev = self.chunk_sums;
            self.chunk_sums.swap_remove(last);
            proof {
                assert(self.chunk_sums@ =~= prev@.drop_last());
                assert forall|pc2: u128, seen2: Seq<S>| #[trigger] snapshot_valid(
                    base_sums, pc2, seen2)
                    implies snapshot_valid(self.chunk_sums, pc2, seen2) by {
                    assert(snapshot_valid(prev, pc2, seen2));
                }
            }
        }
        while self.chunk_sums.len() < n
            invariant
                self.rules == rls,
                self.group_size as int == gs,
                self.top == top0,
                self.engines@ == eng1,
                self.chunk_sums.wf(),
                self.chunk_sums@.len() <= n,
                self.chunk_sums@.len() >= base_sums@.len() || self.chunk_sums@.len() >= n,
                forall|i: int| 0 <= i < self.chunk_sums@.len() && i < base_sums@.len()
                    ==> #[trigger] self.chunk_sums@[i] == base_sums@[i],
                self.chunk_sums.id_spec() == base_sums.id_spec(),
                forall|pc2: u128, seen2: Seq<S>| #[trigger] snapshot_valid(
                    base_sums, pc2, seen2) ==> snapshot_valid(self.chunk_sums, pc2, seen2),
            decreases n - self.chunk_sums@.len(),
        {
            let ghost prev = self.chunk_sums;
            self.chunk_sums.push(S::default());
            proof {
                assert forall|pc2: u128, seen2: Seq<S>| #[trigger] snapshot_valid(
                    base_sums, pc2, seen2)
                    implies snapshot_valid(self.chunk_sums, pc2, seen2) by {
                    assert(snapshot_valid(prev, pc2, seen2));
                }
            }
        }

        // recompute every chunk the outer walk cannot rule out
        let stale = chunks.stale_indices(pc);
        let ghost pre_engines = self.engines@;
        let ghost pre_sums = self.chunk_sums;
        let mut k: usize = 0;
        while k < stale.len()
            invariant
                self.rules == rls,
                self.group_size as int == gs,
                gs >= 2,
                self.top == top0,
                chunks.wf(),
                pc < u128::MAX,
                n == chunks@.len(),
                forall|i: int| 0 <= i < n ==> (#[trigger] chunks@[i]).wf()
                    && chunks@[i]@.len() > 0,
                self.engines@.len() == n,
                self.chunk_sums@.len() == n,
                self.chunk_sums.wf(),
                self.chunk_sums.id_spec() == base_sums.id_spec(),
                k <= stale@.len(),
                forall|x: int| 0 <= x < stale@.len() ==> #[trigger] stale@[x] < n,
                forall|i: int| 0 <= i < n ==> (#[trigger] self.engines@[i]).wf()
                    && self.engines@[i].group_size_spec() == gs
                    && self.engines@[i].rules_spec() == rls,
                forall|i: int| 0 <= i < n && !stale@.contains(i as usize)
                    ==> #[trigger] self.engines@[i] == pre_engines[i]
                        && self.chunk_sums@[i] == pre_sums@[i],
                forall|x: int| 0 <= x < k ==> (#[trigger] self.engines@[
                    stale@[x] as int]).attached(&chunks@[stale@[x] as int])
                    && self.engines@[stale@[x] as int].seen_spec()
                        == chunks@[stale@[x] as int]@
                    && self.chunk_sums@[stale@[x] as int] == Self::terminal_of(
                        self.engines@[stale@[x] as int]),
                forall|pc2: u128, seen2: Seq<S>| #[trigger] snapshot_valid(
                    base_sums, pc2, seen2) ==> snapshot_valid(self.chunk_sums, pc2, seen2),
            decreases stale@.len() - k,
        {
            let idx = stale[k];
            {
                let eng = &mut self.engines[idx];
                // the slot may hold an engine for a chunk that moved away;
                // rebuild deterministically rather than trusting identifiers
                eng.detach();
                eng.update(chunks.index(idx));
            }
            let v = {
                let eng = &self.engines[idx];
                proof {
                    lemma_nonempty_terminal(eng, chunks@[idx as int]@);
                }
                match eng.peek() {
                    Some(x) => <R as ReduceRules<S, S>>::clone_summary(&self.rules, x),
                    None => {
                        proof {
                            assert(false);
                        }
                        S::default()
                    },
                }
            };
            let ghost prev = self.chunk_sums;
            self.chunk_sums.set(idx, v);
            proof {
                assert forall|pc2: u128, seen2: Seq<S>| #[trigger] snapshot_valid(
                    base_sums, pc2, seen2)
                    implies snapshot_valid(self.chunk_sums, pc2, seen2) by {
                    assert(snapshot_valid(prev, pc2, seen2));
                }
                assert forall|x: int| 0 <= x < k + 1 implies (#[trigger] self.engines@[
                    stale@[x] as int]).attached(&chunks@[stale@[x] as int])
                    && self.engines@[stale@[x] as int].seen_spec()
                        == chunks@[stale@[x] as int]@
                    && self.chunk_sums@[stale@[x] as int] == Self::terminal_of(
                        self.engines@[stale@[x] as int]) by {
                    if x < k && stale@[x] != idx {
                        assert(self.chunk_sums@[stale@[x] as int]
                            == prev@[stale@[x] as int]);
                    }
                }
            }
            k = k + 1;
        }

        // settle the untouched chunks: their snapshot equals their current
        // contents, so engine and summary carry over unchanged
        proof {
            assert forall|i: int| 0 <= i < n
                implies (#[trigger] self.engines@[i]).attached(&chunks@[i])
                    && self.engines@[i].seen_spec() == chunks@[i]@
                    && self.chunk_sums@[i] == Self::terminal_of(self.engines@[i]) by {
                if stale@.contains(i as usize) {
                    let x = choose|x: int| 0 <= x < stale@.len()
                        && #[trigger] stale@[x] == i as usize;
                    assert(self.engines@[stale@[x] as int].attached(
                        &chunks@[stale@[x] as int]));
                } else {
                    assert(chunks.last(i) <= pc);
                    assert(1 <= chunks.last(i));
                    assert(!fresh);
                    assert(orig.synced(chunks));
                    assert(i < orig.seen_spec().len());
                    assert(chunks@[i] == orig.seen_spec()[i]);
                    assert(self.engines@[i] == pre_engines[i]);
                    assert(i < base_engines.len());
                    assert(pre_engines[i] == base_engines[i]);
                    assert(base_engines[i] == orig.engines_spec()[i]);
                    assert(orig.engines_spec()[i].attached(&orig.seen_spec()[i]));
                    assert(self.chunk_sums@[i] == pre_sums@[i]);
                    assert(pre_sums@[i] == base_sums@[i]);
                    assert(base_sums@[i] == orig.sums_spec()@[i]);
                    assert(orig.seen_spec()[i]@.len() > 0);
                }
            }
        }

        // fold the per-chunk summaries
        proof {
            if !fresh {
                assert(orig.top_spec().attached(&orig.sums_spec()));
                assert(self.top == orig.top_spec());
                assert(base_sums == orig.sums_spec());
                if self.top.layers_spec()[0].parent_id_spec() == Some(
                    self.chunk_sums.id_spec()) {
                    assert(snapshot_valid(self.chunk_sums,
                        self.top.layers_spec()[0].parent_count_spec(),
                        self.top.seen_spec()));
                }
            }
        }
        self.top.update(&self.chunk_sums);
        self.parent_id = Some(chunks.id());
        self.parent_count = chunks.change_count();
        proof {
            self.seen@ = chunks@;
        }
        proof {
            assert(snapshot_valid(*chunks, self.parent_count_spec(), chunks@));
            assert forall|i: int| 0 <= i < chunks@.len()
                implies (#[trigger] self.engines@[i]).consistent(chunks@[i]@) by {
                assert(self.engines@[i].attached(&chunks@[i]));
                assert(self.engines@[i].seen_spec() == chunks@[i]@);
            }
        }
    }
}

} // verus!

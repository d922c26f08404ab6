use crate::rvec::{snapshot_valid, RVec};
use vstd::prelude::*;

verus! {

/// The rules of a token-driven summary: each element maps to a token, and
/// tokens enter and leave a single mutable summary through contribute and
/// uncontribute callbacks. An "absent" token (by the original convention,
/// one equal to the default token) is never contributed. Order-independence
/// of the contribution algebra is the rule author's responsibility —
/// `algebra_ok` states exactly the commutative-group-like laws the summary
/// invariant rests on.
pub trait SummaryRules<E, Tok, Sum>: Sized {
    /// The intended token of one element. A rule written outside verified
    /// code leaves this unspecified.
    open spec fn map_spec(&self, e: E, idx: int) -> Tok {
        vstd::pervasive::arbitrary()
    }

    /// Which tokens stand for "not present in the summary". A rule written
    /// outside verified code leaves this unspecified.
    open spec fn absent_spec(&self, t: Tok) -> bool {
        vstd::pervasive::arbitrary()
    }

    /// The summary after adding one token's contribution. A rule written
    /// outside verified code leaves this unspecified.
    open spec fn contribute_spec(&self, s: Sum, t: Tok, idx: int) -> Sum {
        vstd::pervasive::arbitrary()
    }

    /// The summary after removing one token's contribution. A rule written
    /// outside verified code leaves this unspecified.
    open spec fn uncontribute_spec(&self, s: Sum, t: Tok, idx: int) -> Sum {
        vstd::pervasive::arbitrary()
    }

    /// Map one element to its token; `None` states that `prior` is already
    /// that token.
    fn map_token(&self, e: &E, prior: &Tok, idx: usize) -> (r: Option<Tok>)
        ensures
            r matches Some(t) ==> t == self.map_spec(*e, idx as int),
            r is None ==> *prior == self.map_spec(*e, idx as int),
    ;

    /// Whether this token stands for "not present".
    fn is_absent(&self, t: &Tok) -> (r: bool)
        ensures
            r == self.absent_spec(*t),
    ;

    /// Add one token's contribution to the summary.
    fn contribute(&self, t: &Tok, idx: usize, summary: &mut Sum)
        ensures
            *final(summary) == self.contribute_spec(*old(summary), *t, idx as int),
    ;

    /// Remove one token's contribution from the summary.
    fn uncontribute(&self, t: &Tok, idx: usize, summary: &mut Sum)
        ensures
            *final(summary) == self.uncontribute_spec(*old(summary), *t, idx as int),
    ;
}

/// The algebra an incremental summary relies on: contributions commute, and
/// uncontributing a token undoes contributing it — the commutative-group-like
/// laws the fold invariant rests on, and the rule author's responsibility.
pub open spec fn summary_algebra_ok<E, Tok, Sum, R: SummaryRules<E, Tok, Sum>>(
    rules: R,
) -> bool {
    &&& (forall|s: Sum, t1: Tok, i1: int, t2: Tok, i2: int|
        #[trigger] rules.contribute_spec(rules.contribute_spec(s, t1, i1), t2, i2)
            == rules.contribute_spec(rules.contribute_spec(s, t2, i2), t1, i1))
    &&& (forall|s: Sum, t: Tok, i: int|
        #[trigger] rules.uncontribute_spec(rules.contribute_spec(s, t, i), t, i) == s)
}

/// The fold of `contribute_spec` over every non-absent token of `toks`, in
/// index order, starting from `base`: the value spec-wise owed by a summary
/// maintained incrementally under `rules`.
pub open spec fn token_fold<E, Tok, Sum, R: SummaryRules<E, Tok, Sum>>(
    rules: R,
    toks: Seq<Tok>,
    base: Sum,
) -> Sum
    decreases toks.len(),
{
    if toks.len() == 0 {
        base
    } else {
        let prev = token_fold(rules, toks.drop_last(), base);
        if rules.absent_spec(toks.last()) {
            prev
        } else {
            rules.contribute_spec(prev, toks.last(), toks.len() - 1)
        }
    }
}

/// As `token_fold`, but skipping the token at index `skip`.
pub open spec fn token_fold_except<E, Tok, Sum, R: SummaryRules<E, Tok, Sum>>(
    rules: R,
    toks: Seq<Tok>,
    base: Sum,
    skip: int,
) -> Sum
    decreases toks.len(),
{
    if toks.len() == 0 {
        base
    } else {
        let prev = token_fold_except(rules, toks.drop_last(), base, skip);
        if toks.len() - 1 == skip || rules.absent_spec(toks.last()) {
            prev
        } else {
            rules.contribute_spec(prev, toks.last(), toks.len() - 1)
        }
    }
}

/// Skipping an index past the end skips nothing.
proof fn lemma_fold_except_beyond<E, Tok, Sum, R: SummaryRules<E, Tok, Sum>>(
    rules: R,
    toks: Seq<Tok>,
    base: Sum,
    skip: int,
)
    requires
        skip >= toks.len(),
    ensures
        token_fold_except(rules, toks, base, skip) == token_fold(rules, toks, base),
    decreases toks.len(),
{
    if toks.len() > 0 {
        lemma_fold_except_beyond(rules, toks.drop_last(), base, skip);
    }
}

/// The skipped position's token does not matter.
proof fn lemma_fold_except_frame<E, Tok, Sum, R: SummaryRules<E, Tok, Sum>>(
    rules: R,
    toks: Seq<Tok>,
    base: Sum,
    skip: int,
    t: Tok,
)
    requires
        0 <= skip < toks.len(),
    ensures
        token_fold_except(rules, toks.update(skip, t), base, skip)
            == token_fold_except(rules, toks, base, skip),
    decreases toks.len(),
{
    let upd = toks.update(skip, t);
    if skip == toks.len() - 1 {
        assert(upd.drop_last() =~= toks.drop_last());
    } else {
        lemma_fold_except_frame(rules, toks.drop_last(), base, skip, t);
        assert(upd.drop_last() =~= toks.drop_last().update(skip, t));
        assert(upd.last() == toks.last());
    }
}

/// A non-absent token's contribution can be floated out of the fold.
proof fn lemma_fold_float_out<E, Tok, Sum, R: SummaryRules<E, Tok, Sum>>(
    rules: R,
    toks: Seq<Tok>,
    base: Sum,
    i: int,
)
    requires
        summary_algebra_ok(rules),
        0 <= i < toks.len(),
    ensures
        rules.absent_spec(toks[i]) ==> token_fold(rules, toks, base)
            == token_fold_except(rules, toks, base, i),
        !rules.absent_spec(toks[i]) ==> token_fold(rules, toks, base)
            == rules.contribute_spec(token_fold_except(rules, toks, base, i), toks[i], i),
    decreases toks.len(),
{
    if i == toks.len() - 1 {
        lemma_fold_except_beyond(rules, toks.drop_last(), base, i);
    } else {
        lemma_fold_float_out(rules, toks.drop_last(), base, i);
        assert(toks.drop_last()[i] == toks[i]);
        if !rules.absent_spec(toks[i]) && !rules.absent_spec(toks.last()) {
            // swap the two outermost contributions
            let x = token_fold_except(rules, toks.drop_last(), base, i);
            assert(rules.contribute_spec(
                rules.contribute_spec(x, toks[i], i), toks.last(), toks.len() - 1)
                == rules.contribute_spec(
                    rules.contribute_spec(x, toks.last(), toks.len() - 1), toks[i], i));
        }
    }
}

/// Replacing the token at one index turns the fold of the old table into
/// the fold of the new one by uncontributing the old token (if present) and
/// contributing the new one (if present).
proof fn lemma_fold_reseat<E, Tok, Sum, R: SummaryRules<E, Tok, Sum>>(
    rules: R,
    toks: Seq<Tok>,
    base: Sum,
    i: int,
    t_new: Tok,
)
    requires
        summary_algebra_ok(rules),
        0 <= i < toks.len(),
    ensures
        ({
            let s0 = token_fold(rules, toks, base);
            let s1 = if rules.absent_spec(toks[i]) {
                s0
            } else {
                rules.uncontribute_spec(s0, toks[i], i)
            };
            let s2 = if rules.absent_spec(t_new) {
                s1
            } else {
                rules.contribute_spec(s1, t_new, i)
            };
            token_fold(rules, toks.update(i, t_new), base) == s2
        }),
{
    let upd = toks.update(i, t_new);
    lemma_fold_float_out(rules, toks, base, i);
    lemma_fold_float_out(rules, upd, base, i);
    lemma_fold_except_frame(rules, toks, base, i, t_new);
    assert(upd[i] == t_new);
}

/// Token-driven incremental maintenance of a single summary value over a
/// change-tracked vector: a reduction with group size one whose outputs
/// feed a mutable aggregate through the rules' contribution algebra.
pub struct Summarize<E, Tok, Sum, R: SummaryRules<E, Tok, Sum>> {
    rules: R,
    tokens: RVec<Tok>,
    summary: Sum,
    parent_id: Option<u64>,
    parent_count: u128,
    seen: Ghost<Seq<E>>,
    base: Ghost<Sum>,
}

impl<E, Tok: Default, Sum: Default, R: SummaryRules<E, Tok, Sum>> Summarize<E, Tok, Sum, R> {
    /// The token vector.
    pub closed spec fn tokens_rvec(&self) -> RVec<Tok> {
        self.tokens
    }

    /// The token table.
    pub open spec fn tokens_spec(&self) -> Seq<Tok> {
        self.tokens_rvec()@
    }

    /// The rules.
    pub closed spec fn rules_spec(&self) -> R {
        self.rules
    }

    /// The snapshot of the source as of the last update.
    pub closed spec fn seen_spec(&self) -> Seq<E> {
        self.seen@
    }

    /// The identity of the source this summary follows, if any.
    pub closed spec fn parent_id_spec(&self) -> Option<u64> {
        self.parent_id
    }

    /// The source counter as of the last update.
    pub closed spec fn parent_count_spec(&self) -> u128 {
        self.parent_count
    }

    /// The maintained summary value.
    pub closed spec fn summary_view(&self) -> Sum {
        self.summary
    }

    /// The summary value everything started from (a default summary).
    pub closed spec fn base_spec(&self) -> Sum {
        self.base@
    }

    /// Structural well-formedness.
    pub open spec fn wf(&self) -> bool {
        self.tokens_rvec().wf()
    }

    /// The summary value is exactly the fold of the contribution of every
    /// non-absent token, in index order — the maintained invariant of this
    /// engine.
    pub open spec fn summary_ok(&self) -> bool {
        self.summary_view() == token_fold(self.rules_spec(), self.tokens_spec(),
            self.base_spec())
    }

    /// Every token is the rule's intended token of the corresponding source
    /// element.
    pub open spec fn tokens_consistent(&self, parent: Seq<E>) -> bool {
        &&& self.tokens_spec().len() == parent.len()
        &&& forall|i: int| 0 <= i < parent.len() ==> self.tokens_spec()[i]
            == (#[trigger] self.rules_spec().map_spec(parent[i], i))
    }

    /// This summary is bound to the source `parent`.
    pub open spec fn attached(&self, parent: &RVec<E>) -> bool {
        &&& self.tokens_consistent(self.seen_spec())
        &&& self.parent_id_spec() == Some(parent.id_spec())
        &&& snapshot_valid(*parent, self.parent_count_spec(), self.seen_spec())
    }

    /// A new summary; the first `update` will process the whole source.
    pub fn new(_source: &RVec<E>, rules: R) -> (r: Self)
        ensures
            r.wf(),
            r.parent_id_spec() is None,
            r.tokens_spec().len() == 0,
            r.summary_view() == r.base_spec(),
            r.summary_ok(),
    {
        let s = Sum::default();
        let ghost b = s;
        Summarize {
            rules,
            tokens: RVec::new(),
            summary: s,
            parent_id: None,
            parent_count: 0,
            seen: Ghost(Seq::empty()),
            base: Ghost(b),
        }
    }

    /// The current summary value: the fold of the contribution of every
    /// non-absent token, as maintained by `update`.
    pub fn peek(&self) -> (r: &Sum)
        ensures
            *r == self.summary_view(),
    {
        &self.summary
    }

    /// Bring the token table and the summary up to date with `parent`,
    /// re-mapping only elements that may have changed since the last update
    /// against this same source. Tokens that change are uncontributed under
    /// their old value and contributed under the new one; tokens of removed
    /// elements are uncontributed. A different source instance rebuilds the
    /// summary from scratch.
    #[verifier::rlimit(100)]
    pub fn update(&mut self, parent: &RVec<E>)
        requires
            old(self).wf(),
            parent.wf(),
            summary_algebra_ok(old(self).rules_spec()),
            old(self).summary_ok(),
            old(self).parent_id_spec() == Some(parent.id_spec())
                ==> old(self).attached(parent),
        ensures
            final(self).wf(),
            final(self).attached(parent),
            final(self).seen_spec() == parent@,
            final(self).rules_spec() == old(self).rules_spec(),
            final(self).tokens_consistent(parent@),
            final(self).parent_count_spec() == parent.change_count_spec(),
            final(self).summary_ok(),
    {
        let ghost orig = *old(self);
        // a summary attached to some other source starts over
        let matched = match self.parent_id {
            None => false,
            Some(p) => p == parent.id(),
        };
        if !matched {
            self.tokens = RVec::new();
            self.summary = Sum::default();
            proof {
                self.base@ = self.summary;
            }
            self.parent_count = 0;
        }
        let pc = if matched && self.parent_count < u128::MAX {
            self.parent_count
        } else if matched {
            // a saturated counter means nothing can be trusted; rebuild
            self.tokens = RVec::new();
            self.summary = Sum::default();
            proof {
                self.base@ = self.summary;
            }
            0
        } else {
            0
        };
        let ghost fresh = !(matched && orig.parent_count_spec() < u128::MAX);
        let ghost rls = self.rules;
        let ghost bse = self.base@;
        proof {
            assert(self.summary == token_fold(rls, self.tokens@, bse));
        }

        let n = parent.len();
        let ghost base_tokens = self.tokens@;
        // drop tokens of removed elements, uncontributing them
        while self.tokens.len() > n
            invariant
                self.tokens.wf(),
                self.rules == rls,
                self.base@ == bse,
                summary_algebra_ok(rls),
                self.tokens@.len() <= base_tokens.len(),
                self.tokens@.len() >= n || self.tokens@.len() == base_tokens.len(),
                self.tokens@ == base_tokens.subrange(0, self.tokens@.len() as int),
                self.summary == token_fold(rls, self.tokens@, bse),
            decreases self.tokens@.len(),
        {
            let i = self.tokens.len() - 1;
            let ghost prev = self.tokens@;
            let t = self.tokens.swap_remove(i);
            proof {
                assert(self.tokens@ =~= prev.drop_last());
                assert forall|x: int| 0 <= x < self.tokens@.len()
                    implies #[trigger] self.tokens@[x]
                        == base_tokens.subrange(0, self.tokens@.len() as int)[x] by {
                    assert(self.tokens@[x] == prev.drop_last()[x]);
                    assert(prev.drop_last()[x] == prev[x]);
                    assert(prev[x] == base_tokens.subrange(0, prev.len() as int)[x]);
                    assert(base_tokens.subrange(0, prev.len() as int)[x] == base_tokens[x]);
                    assert(base_tokens.subrange(0, self.tokens@.len() as int)[x]
                        == base_tokens[x]);
                }
                assert(self.tokens@ =~= base_tokens.subrange(0, self.tokens@.len() as int));
                assert(t == prev.last());
            }
            if !self.rules.is_absent(&t) {
                self.rules.uncontribute(&t, i, &mut self.summary);
                proof {
                    // the removed token was the outermost contribution
                    assert(token_fold(rls, prev, bse) == rls.contribute_spec(
                        token_fold(rls, prev.drop_last(), bse), prev.last(),
                        prev.len() - 1));
                }
            } else {
                proof {
                    assert(token_fold(rls, prev, bse)
                        == token_fold(rls, prev.drop_last(), bse));
                }
            }
        }
        let ghost m0 = self.tokens@.len() as int;
        proof {
            if fresh {
                assert(base_tokens.len() == 0);
                assert(m0 == 0);
            } else {
                assert(orig.attached(parent));
                assert(base_tokens == orig.tokens_spec());
                assert(base_tokens.len() == orig.seen_spec().len());
            }
            assert(m0 == if base_tokens.len() <= n {
                base_tokens.len() as int
            } else {
                n as int
            });
        }

        // re-map every possibly changed element; indices past the old table
        // are new and always appear here, in ascending order
        let stale = parent.stale_indices(pc);
        let ghost pre_tokens = self.tokens@;
        let mut k: usize = 0;
        while k < stale.len()
            invariant
                self.tokens.wf(),
                self.rules == rls,
                self.base@ == bse,
                summary_algebra_ok(rls),
                parent.wf(),
                pc < u128::MAX,
                n == parent@.len(),
                m0 <= self.tokens@.len() <= n,
                m0 == pre_tokens.len(),
                fresh ==> m0 == 0,
                fresh ==> pc == 0,
                !fresh ==> (orig.attached(parent) && pc == orig.parent_count_spec()
                    && base_tokens.len() == orig.seen_spec().len()),
                m0 == if base_tokens.len() <= n {
                    base_tokens.len() as int
                } else {
                    n as int
                },
                k <= stale@.len(),
                forall|j: int| 0 <= j < n ==> (#[trigger] parent.last(j) <= pc
                    || stale@.contains(j as usize)),
                forall|x: int| 0 <= x < stale@.len() ==> #[trigger] stale@[x] < n,
                forall|x1: int, x2: int| 0 <= x1 < x2 < stale@.len()
                    ==> #[trigger] stale@[x1] < #[trigger] stale@[x2],
                forall|x: int| 0 <= x < k
                    ==> #[trigger] stale@[x] < self.tokens@.len(),
                forall|x: int| 0 <= x < k ==> self.tokens@[#[trigger] stale@[x] as int]
                    == rls.map_spec(parent@[stale@[x] as int], stale@[x] as int),
                forall|i: int| 0 <= i < self.tokens@.len() && i < m0
                    && !stale@.contains(i as usize)
                    ==> #[trigger] self.tokens@[i] == pre_tokens[i],
                forall|i: int| m0 <= i < self.tokens@.len()
                    ==> #[trigger] stale@.subrange(0, k as int).contains(i as usize),
                self.summary == token_fold(rls, self.tokens@, bse),
            decreases stale@.len() - k,
        {
            let idx = stale[k];
            let len_now = self.tokens.len();
            if idx < len_now {
                let r = {
                    let prior = self.tokens.index(idx);
                    self.rules.map_token(parent.index(idx), prior, idx)
                };
                match r {
                    Some(new_t) => {
                        let ghost toks = self.tokens@;
                        proof {
                            lemma_fold_reseat(rls, toks, bse, idx as int, new_t);
                        }
                        {
                            let old_t = self.tokens.index(idx);
                            if !self.rules.is_absent(old_t) {
                                self.rules.uncontribute(old_t, idx, &mut self.summary);
                            }
                        }
                        if !self.rules.is_absent(&new_t) {
                            self.rules.contribute(&new_t, idx, &mut self.summary);
                        }
                        let ghost prev = self.tokens@;
                        self.tokens.set(idx, new_t);
                        proof {
                            assert(self.tokens@ =~= toks.update(idx as int, new_t));
                            assert forall|x: int| 0 <= x < k + 1 implies
                                self.tokens@[#[trigger] stale@[x] as int] == rls.map_spec(
                                    parent@[stale@[x] as int], stale@[x] as int) by {
                                if x < k && stale@[x] != idx {
                                    assert(self.tokens@[stale@[x] as int]
                                        == prev[stale@[x] as int]);
                                }
                            }
                        }
                    },
                    None => {},
                }
                proof {
                    assert forall|i: int| m0 <= i < self.tokens@.len()
                        implies #[trigger] stale@.subrange(0, k as int + 1).contains(
                            i as usize) by {
                        assert(stale@.subrange(0, k as int).contains(i as usize));
                        let x = choose|x: int| 0 <= x < k
                            && #[trigger] stale@.subrange(0, k as int)[x] == i as usize;
                        assert(stale@.subrange(0, k as int + 1)[x] == i as usize);
                    }
                }
            } else {
                // a new index: it is exactly the next slot of the table
                proof {
                    if idx > len_now {
                        // the slot `len_now` is itself new, hence stale, and by
                        // strict ordering it was processed earlier — but every
                        // processed index lies below the current length
                        assert(m0 <= len_now < n);
                        if !fresh {
                            assert(orig.tokens_consistent(orig.seen_spec()));
                            if parent.last(len_now as int) <= pc {
                                assert((len_now as int) < orig.seen_spec().len());
                                assert(base_tokens.len() == orig.seen_spec().len());
                                assert(m0 == if base_tokens.len() <= n {
                                    base_tokens.len() as int
                                } else {
                                    n as int
                                });
                                assert(false);
                            }
                        } else {
                            assert(1 <= parent.last(len_now as int));
                            assert(!(parent.last(len_now as int) <= pc));
                        }
                        assert(stale@.contains(len_now));
                        let x = choose|x: int| 0 <= x < stale@.len()
                            && #[trigger] stale@[x] == len_now;
                        assert(stale@[x] < stale@[k as int]);
                        assert(x < k);
                        assert(stale@[x] < self.tokens@.len());
                        assert(false);
                    }
                }
                let d = Tok::default();
                let r = self.rules.map_token(parent.index(idx), &d, idx);
                let tok = match r {
                    Some(t) => t,
                    None => d,
                };
                if !self.rules.is_absent(&tok) {
                    self.rules.contribute(&tok, idx, &mut self.summary);
                }
                let ghost toks = self.tokens@;
                self.tokens.push(tok);
                proof {
                    assert(self.tokens@.drop_last() =~= toks);
                    assert(self.tokens@.last() == tok);
                    assert forall|x: int| 0 <= x < k + 1 implies
                        self.tokens@[#[trigger] stale@[x] as int] == rls.map_spec(
                            parent@[stale@[x] as int], stale@[x] as int) by {
                        if x < k {
                            assert(self.tokens@[stale@[x] as int] == toks[stale@[x] as int]);
                        }
                    }
                    assert forall|i: int| m0 <= i < self.tokens@.len()
                        implies #[trigger] stale@.subrange(0, k as int + 1).contains(
                            i as usize) by {
                        if i < self.tokens@.len() - 1 {
                            assert(stale@.subrange(0, k as int).contains(i as usize));
                            let x = choose|x: int| 0 <= x < k
                                && #[trigger] stale@.subrange(0, k as int)[x] == i as usize;
                            assert(stale@.subrange(0, k as int + 1)[x] == i as usize);
                        } else {
                            assert(stale@.subrange(0, k as int + 1)[k as int] == i as usize);
                        }
                    }
                }
            }
            k = k + 1;
        }

        self.parent_id = Some(parent.id());
        self.parent_count = parent.change_count();
        proof {
            self.seen@ = parent@;
        }
        proof {
            // the table now covers the whole source: a shorter table would
            // leave its next index unprocessed, though it is provably stale
            if self.tokens@.len() < n {
                let ln = self.tokens@.len() as int;
                assert(m0 <= ln < n);
                if !fresh {
                    if parent.last(ln) <= pc {
                        assert(ln < orig.seen_spec().len());
                        assert(base_tokens.len() == orig.seen_spec().len());
                        assert(false);
                    }
                } else {
                    assert(1 <= parent.last(ln));
                }
                assert(stale@.contains(ln as usize));
                let x = choose|x: int| 0 <= x < stale@.len()
                    && #[trigger] stale@[x] == ln as usize;
                assert(stale@[x] < self.tokens@.len());
                assert(false);
            }
            assert forall|i: int| 0 <= i < parent@.len() implies self.tokens@[i]
                == (#[trigger] self.rules.map_spec(parent@[i], i)) by {
                if i < m0 && !stale@.contains(i as usize) {
                    // untouched since the snapshot: the old token was the
                    // intended token of the unchanged snapshot element
                    assert(parent.last(i) <= pc);
                    assert(1 <= parent.last(i));
                    assert(!fresh);
                    assert(orig.attached(parent));
                    assert(parent@[i] == orig.seen_spec()[i]);
                    assert(self.tokens@[i] == pre_tokens[i]);
                    assert(pre_tokens[i] == base_tokens.subrange(0, m0)[i]);
                    assert(base_tokens.subrange(0, m0)[i] == base_tokens[i]);
                    assert(base_tokens[i] == orig.rules_spec().map_spec(
                        orig.seen_spec()[i], i));
                } else if i < m0 {
                    let x = choose|x: int| 0 <= x < stale@.len()
                        && #[trigger] stale@[x] == i as usize;
                    assert(self.tokens@[stale@[x] as int] == rls.map_spec(
                        parent@[stale@[x] as int], stale@[x] as int));
                } else {
                    assert(stale@.subrange(0, stale@.len() as int).contains(i as usize));
                    assert(stale@.subrange(0, stale@.len() as int) =~= stale@);
                    let x = choose|x: int| 0 <= x < stale@.len()
                        && #[trigger] stale@[x] == i as usize;
                    assert(self.tokens@[stale@[x] as int] == rls.map_spec(
                        parent@[stale@[x] as int], stale@[x] as int));
                }
            }
        }
    }
}

} // verus!

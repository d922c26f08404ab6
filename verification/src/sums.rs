use crate::chunked::ChunkedReduce;
use crate::reduce::{Reduce, ReduceRules};
use crate::rvec::RVec;
use crate::summarize::{summary_algebra_ok, SummaryRules};
use crate::rvec::{ceil_div, group_of};
use vstd::prelude::*;

verus! {

/// Wrapping addition on `u64`, the combining operation of `SumRules`.
pub open spec fn wadd(a: u64, b: u64) -> u64 {
    vstd::wrapping::u64_specs::wrapping_add(a, b)
}

/// The wrapping sum of a sequence of `u64` values.
pub open spec fn wsum(s: Seq<u64>) -> u64
    decreases s.len(),
{
    if s.len() == 0 {
        0u64
    } else {
        wadd(s[0], wsum(s.drop_first()))
    }
}

proof fn lemma_wadd_unit(a: u64)
    ensures
        wadd(0, a) == a,
        wadd(a, 0) == a,
{
}

proof fn lemma_wadd_assoc(a: u64, b: u64, c: u64)
    ensures
        wadd(a, wadd(b, c)) == wadd(wadd(a, b), c),
{
}

proof fn lemma_wsum_concat(a: Seq<u64>, b: Seq<u64>)
    ensures
        wsum(a + b) == wadd(wsum(a), wsum(b)),
    decreases a.len(),
{
    if a.len() == 0 {
        assert(a + b =~= b);
        lemma_wadd_unit(wsum(b));
    } else {
        lemma_wsum_concat(a.drop_first(), b);
        assert((a + b).drop_first() =~= a.drop_first() + b);
        assert(wsum(a + b) == wadd(a[0], wsum(a.drop_first() + b)));
        lemma_wadd_assoc(a[0], wsum(a.drop_first()), wsum(b));
    }
}

/// Summing the per-group sums of a sequence gives the sum of the sequence.
proof fn lemma_layer_sum(lower: Seq<u64>, upper: Seq<u64>, gs: int)
    requires
        gs >= 1,
        upper.len() == ceil_div(lower.len() as int, gs),
        forall|g: int| 0 <= g < upper.len() ==> upper[g] == wsum(
            #[trigger] group_of(lower, gs, g)),
    ensures
        wsum(upper) == wsum(lower),
    decreases upper.len(),
{
    if upper.len() == 0 {
        assert(lower.len() == 0);
    } else if lower.len() <= gs {
        assert((lower.len() as int - 1) / gs == 0) by (nonlinear_arith)
            requires
                gs >= 1,
                0 <= lower.len() as int - 1 < gs,
        ;
        assert(upper.len() == 1);
        assert(0 * gs == 0 && (0 + 1) * gs == gs) by (nonlinear_arith);
        assert(group_of(lower, gs, 0) =~= lower);
        assert(upper =~= seq![upper[0]]);
        assert(wsum(upper) == wadd(upper[0], wsum(upper.drop_first())));
        assert(upper.drop_first() =~= Seq::<u64>::empty());
        lemma_wadd_unit(upper[0]);
    } else {
        let first = lower.subrange(0, gs);
        let rest = lower.subrange(gs, lower.len() as int);
        assert(lower =~= first + rest);
        assert(0 * gs == 0 && (0 + 1) * gs == gs) by (nonlinear_arith);
        assert(group_of(lower, gs, 0) =~= first);
        // the remaining groups are the groups of the remaining elements
        vstd::arithmetic::div_mod::lemma_div_plus_one(lower.len() as int - gs - 1, gs);
        assert(ceil_div(rest.len() as int, gs) == upper.len() - 1);
        assert forall|g: int| 0 <= g < upper.len() - 1 implies upper.drop_first()[g]
            == wsum(#[trigger] group_of(rest, gs, g)) by {
            assert((g + 2) * gs == (g + 1) * gs + gs) by (nonlinear_arith);
            assert((g + 1) * gs == g * gs + gs) by (nonlinear_arith);
            assert(g * gs >= 0) by (nonlinear_arith)
                requires
                    g >= 0,
                    gs >= 1,
            ;
            crate::rvec::lemma_group_start(rest.len() as int, gs, g);
            crate::rvec::lemma_group_start(lower.len() as int, gs, g + 1);
            let a = group_of(rest, gs, g);
            let b = group_of(lower, gs, g + 1);
            assert(a.len() == b.len());
            assert forall|x: int| 0 <= x < a.len() implies a[x] == b[x] by {
                assert(a[x] == rest[g * gs + x]);
                assert(rest[g * gs + x] == lower[gs + g * gs + x]);
                assert(b[x] == lower[(g + 1) * gs + x]);
            }
            assert(a =~= b);
            assert(upper.drop_first()[g] == upper[g + 1]);
        }
        lemma_layer_sum(rest, upper.drop_first(), gs);
        lemma_wsum_concat(first, rest);
        assert(wsum(upper) == wadd(upper[0], wsum(upper.drop_first())));
        assert(upper[0] == wsum(first));
    }
}

/// The incremental summation rule: each element is its own summary, and
/// groups combine by wrapping addition. A rule reports "unchanged" exactly
/// when the prior value is already the intended one.
#[derive(Clone, Copy)]
pub struct SumRules;

impl ReduceRules<u64, u64> for SumRules {
    open spec fn map_spec(&self, e: u64, idx: int) -> u64 {
        e
    }

    open spec fn fold_spec(&self, group: Seq<u64>) -> u64 {
        wsum(group)
    }

    fn clone_summary(&self, s: &u64) -> (r: u64) {
        *s
    }

    fn map_one(&self, e: &u64, prior: &u64, idx: usize) -> (r: Option<u64>) {
        if *e != *prior {
            Some(*e)
        } else {
            None
        }
    }

    fn fold_many(&self, group: &[u64], prior: &u64) -> (r: Option<u64>) {
        let mut acc: u64 = 0;
        let mut i = group.len();
        while i > 0
            invariant
                i <= group@.len(),
                acc == wsum(group@.subrange(i as int, group@.len() as int)),
            decreases i,
        {
            i = i - 1;
            let x = *vstd::slice::slice_index_get(group, i);
            let ghost pre = group@.subrange(i as int + 1, group@.len() as int);
            acc = x.wrapping_add(acc);
            proof {
                let cur = group@.subrange(i as int, group@.len() as int);
                assert(cur[0] == group@[i as int]);
                assert(cur.drop_first() =~= pre);
            }
        }
        proof {
            assert(group@.subrange(0, group@.len() as int) =~= group@);
        }
        if acc != *prior {
            Some(acc)
        } else {
            None
        }
    }
}

proof fn lemma_sum_layers(r: Reduce<u64, u64, SumRules>, parent: Seq<u64>, k: int)
    requires
        r.wf(),
        r.consistent(parent),
        0 <= k < r.layers_spec().len(),
    ensures
        wsum(r.layers_spec()[k]@) == wsum(parent),
        parent.len() > 0 ==> r.layers_spec()[k]@.len() > 0,
    decreases k,
{
    if k == 0 {
        let l0 = r.layers_spec()[0]@;
        assert forall|i: int| 0 <= i < parent.len() implies l0[i] == parent[i] by {
            assert(l0[i] == <SumRules as ReduceRules<u64, u64>>::map_spec(
                &r.rules_spec(), parent[i], i));
        }
        assert(l0 =~= parent);
    } else {
        lemma_sum_layers(r, parent, k - 1);
        lemma_layer_sum(r.layers_spec()[k - 1]@, r.layers_spec()[k]@,
            r.group_size_spec());
        if parent.len() > 0 {
            assert(r.layers_spec()[k - 1]@.len() > 0);
            assert(r.layers_spec()[k]@.len()
                == ceil_div(r.layers_spec()[k - 1]@.len() as int, r.group_size_spec()));
        }
    }
}

/// Law: a sum reduction is exact. Whenever the layers of a `Reduce` with
/// `SumRules` are consistent with the source contents — which `update`
/// establishes after any sequence of pushes, writes and removals — the final
/// layer holds exactly the wrapping sum of the source, and is empty exactly
/// when the source is empty.
pub proof fn lemma_sum_reduce_correct(r: Reduce<u64, u64, SumRules>, parent: Seq<u64>)
    requires
        r.wf(),
        r.consistent(parent),
    ensures
        parent.len() == 0 ==> r.layers_spec()[r.layers_spec().len() - 1]@.len() == 0,
        parent.len() > 0 ==> r.layers_spec()[r.layers_spec().len() - 1]@
            == seq![wsum(parent)],
{
    let last = r.layers_spec().len() - 1;
    lemma_sum_layers(r, parent, last);
    if parent.len() == 0 {
        if r.layers_spec().len() > 1 {
            assert(r.layers_spec()[0]@.len() > 1);
        }
        assert(r.layers_spec()[last]@.len() == 0);
    } else {
        assert(r.layers_spec()[last]@.len() == 1);
        let v = r.layers_spec()[last]@[0];
        assert(r.layers_spec()[last]@ =~= seq![v]);
        assert(seq![v].drop_first() =~= Seq::<u64>::empty());
        assert(wsum(Seq::<u64>::empty()) == 0);
        assert(wsum(seq![v]) == wadd(v, 0));
        lemma_wadd_unit(v);
    }
}

/// Wrapping subtraction on `u64`, the inverse used by `SumSummaryRules`.
pub open spec fn wsub(a: u64, b: u64) -> u64 {
    vstd::wrapping::u64_specs::wrapping_sub(a, b)
}

/// Summation as a token-driven summary: each element is its own token, a
/// zero token (the default) is absent, and tokens enter and leave the
/// summary by wrapping addition and subtraction.
pub struct SumSummaryRules;

impl SummaryRules<u64, u64, u64> for SumSummaryRules {
    open spec fn map_spec(&self, e: u64, idx: int) -> u64 {
        e
    }

    open spec fn absent_spec(&self, t: u64) -> bool {
        t == 0
    }

    open spec fn contribute_spec(&self, s: u64, t: u64, idx: int) -> u64 {
        wadd(s, t)
    }

    open spec fn uncontribute_spec(&self, s: u64, t: u64, idx: int) -> u64 {
        wsub(s, t)
    }

    fn map_token(&self, e: &u64, prior: &u64, idx: usize) -> (r: Option<u64>) {
        if *e != *prior {
            Some(*e)
        } else {
            None
        }
    }

    fn is_absent(&self, t: &u64) -> (r: bool) {
        *t == 0
    }

    fn contribute(&self, t: &u64, idx: usize, summary: &mut u64) {
        *summary = summary.wrapping_add(*t);
    }

    fn uncontribute(&self, t: &u64, idx: usize, summary: &mut u64) {
        *summary = summary.wrapping_sub(*t);
    }
}

/// Law: wrapping summation obeys the contribution algebra — contributions
/// commute and subtraction undoes addition — so a summary maintained under
/// `SumSummaryRules` always equals the fold of its non-zero tokens.
pub proof fn lemma_sum_summary_algebra(rules: SumSummaryRules)
    ensures
        summary_algebra_ok(rules),
{
    assert forall|s: u64, t1: u64, i1: int, t2: u64, i2: int|
        #[trigger] rules.contribute_spec(rules.contribute_spec(s, t1, i1), t2, i2)
            == rules.contribute_spec(rules.contribute_spec(s, t2, i2), t1, i1) by {}
    assert forall|s: u64, t: u64, i: int|
        #[trigger] rules.uncontribute_spec(rules.contribute_spec(s, t, i), t, i) == s by {}
}

/// The elements of a sequence of chunks, in chunk order.
pub open spec fn flat_chunks(cs: Seq<RVec<u64>>) -> Seq<u64>
    decreases cs.len(),
{
    if cs.len() == 0 {
        Seq::empty()
    } else {
        flat_chunks(cs.drop_last()) + cs.last()@
    }
}

proof fn lemma_wsum_of_chunk_sums(cs: Seq<RVec<u64>>, sums: Seq<u64>)
    requires
        sums.len() == cs.len(),
        forall|i: int| 0 <= i < cs.len() ==> sums[i] == wsum((#[trigger] cs[i])@),
    ensures
        wsum(sums) == wsum(flat_chunks(cs)),
    decreases cs.len(),
{
    if cs.len() > 0 {
        lemma_wsum_of_chunk_sums(cs.drop_last(), sums.drop_last());
        assert(sums =~= sums.drop_last() + seq![sums.last()]);
        lemma_wsum_concat(sums.drop_last(), seq![sums.last()]);
        assert(seq![sums.last()].drop_first() =~= Seq::<u64>::empty());
        assert(wsum(Seq::<u64>::empty()) == 0);
        assert(seq![sums.last()][0] == sums.last());
        assert(wsum(seq![sums.last()])
            == wadd(sums.last(), wsum(seq![sums.last()].drop_first())));
        lemma_wadd_unit(sums.last());
        lemma_wsum_concat(flat_chunks(cs.drop_last()), cs.last()@);
        assert(sums.last() == wsum(cs[cs.len() - 1]@));
    }
}

/// Law: a chunked sum reduction is exact. Whenever a `ChunkedReduce` with
/// `SumRules` is synced with the chunk vector — which `update` establishes —
/// its top value is exactly the wrapping sum of every element of every
/// chunk, and is empty exactly when there are no chunks.
pub proof fn lemma_chunked_sum_correct(
    c: ChunkedReduce<u64, u64, SumRules>,
    chunks: &RVec<RVec<u64>>,
)
    requires
        c.wf(),
        c.synced(chunks),
        c.seen_spec() == chunks@,
        forall|i: int| 0 <= i < chunks@.len() ==> (#[trigger] chunks@[i])@.len() > 0,
    ensures
        chunks@.len() == 0 ==> c.top_spec().layers_spec()[
            c.top_spec().layers_spec().len() - 1]@.len() == 0,
        chunks@.len() > 0 ==> c.top_spec().layers_spec()[
            c.top_spec().layers_spec().len() - 1]@ == seq![wsum(flat_chunks(chunks@))],
{
    assert forall|i: int| 0 <= i < chunks@.len()
        implies #[trigger] c.sums_spec()@[i] == wsum(chunks@[i]@) by {
        let e = c.engines_spec()[i];
        assert(e.attached(&c.seen_spec()[i]));
        assert(e.consistent(e.seen_spec()));
        assert(e.seen_spec() == chunks@[i]@);
        lemma_sum_reduce_correct(e, chunks@[i]@);
        assert(c.sums_spec()@[i] == ChunkedReduce::<u64, u64, SumRules>::terminal_of(e));
    }
    assert(c.top_spec().attached(&c.sums_spec()));
    assert(c.top_spec().consistent(c.top_spec().seen_spec()));
    assert(c.top_spec().seen_spec() == c.sums_spec()@);
    lemma_sum_reduce_correct(c.top_spec(), c.sums_spec()@);
    lemma_wsum_of_chunk_sums(chunks@, c.sums_spec()@);
}

} // verus!

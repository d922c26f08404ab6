use crate::memory_usage::{sat_add_usize, vec_capacity, vec_shrink, MemoryUsage, MemoryUser};
use vstd::prelude::*;

verus! {

/// Strides of the five checkpoint levels of the hierarchical staleness
/// summary: level `j` records one checkpoint per `STRIDE0^(j+1)` indices.
pub const STRIDE0: usize = 16;
pub const STRIDE1: usize = 256;
pub const STRIDE2: usize = 4096;
pub const STRIDE3: usize = 65536;
pub const STRIDE4: usize = 1048576;

/// The counter value after one more touch: counters saturate at the top so
/// that no operation can overflow; a consumer whose recorded counter has
/// reached the top no longer trusts any checkpoint and recomputes everything.
pub open spec fn sat_inc(c: u128) -> u128 {
    if c < u128::MAX {
        (c + 1) as u128
    } else {
        c
    }
}

/// Ceiling division, the length of a reduction over groups of `gs`.
pub open spec fn ceil_div(n: int, gs: int) -> int {
    if n == 0 {
        0
    } else {
        (n - 1) / gs + 1
    }
}

/// The stride of checkpoint level `level`.
pub open spec fn stride_of(level: int) -> int {
    if level == 0 {
        STRIDE0 as int
    } else if level == 1 {
        STRIDE1 as int
    } else if level == 2 {
        STRIDE2 as int
    } else if level == 3 {
        STRIDE3 as int
    } else {
        STRIDE4 as int
    }
}

/// The slice of `s` covered by group `g` under group size `gs`.
pub open spec fn group_of<S>(s: Seq<S>, gs: int, g: int) -> Seq<S> {
    s.subrange(g * gs, if (g + 1) * gs <= s.len() { (g + 1) * gs } else { s.len() as int })
}

/// An index below `k * s` falls in a bucket below `k`.
proof fn lemma_div_bound(i: int, s: int, k: int)
    by (nonlinear_arith)
    requires
        s >= 1,
        0 <= i < k * s,
    ensures
        0 <= i / s < k,
{
}

/// Array coverage: one bucket more than `n / s` covers `n` indices.
proof fn lemma_cover(c: int, s: int, n: int)
    by (nonlinear_arith)
    requires
        s >= 1,
        n >= 0,
        c >= n / s + 1,
    ensures
        c * s >= n,
{
}

/// Multiplying a larger factor by a positive stride keeps the order.
proof fn lemma_mul_mono(a: int, b: int, s: int)
    by (nonlinear_arith)
    requires
        a >= b,
        s >= 1,
    ensures
        a * s >= b * s,
{
}

/// The end (exclusive) of group `g` of `gs` consecutive indices within a
/// sequence of length `n`.
pub open spec fn group_end(n: int, gs: int, g: int) -> int {
    if (g + 1) * gs <= n {
        (g + 1) * gs
    } else {
        n
    }
}

/// One recomputation rule of a reduction: a deterministic function from a
/// group of source values (and the group index) to the reduced value.
pub trait GroupOp<S, T>: Sized {
    /// The intended reduced value of `group` at group index `idx`. A rule
    /// written outside verified code leaves this unspecified.
    open spec fn spec_value(&self, group: Seq<S>, idx: int) -> T {
        vstd::pervasive::arbitrary()
    }

    /// Recompute one group. Returning `None` states that `prior` is already
    /// the intended value, so the caller may skip the write. Groups are never
    /// empty: a position that disappears is dropped, never recomputed.
    fn compute(&self, group: &[S], prior: &T, idx: usize) -> (r: Option<T>)
        requires
            group@.len() >= 1,
        ensures
            r matches Some(v) ==> v == self.spec_value(group@, idx as int),
            r is None ==> *prior == self.spec_value(group@, idx as int),
    ;
}

/// What `reduce` guarantees of each group `g` of its result: either the value
/// was recomputed and equals the rule's intended value for the current source
/// contents, or the reduction was attached to this source, every index of the
/// group is untouched since the recorded counter, and the prior value was
/// kept. A caller that knows what the prior value meant for the snapshot may
/// conclude that the kept value is the intended one for the current contents.
pub open spec fn reduce_group_ok<S, T, Op: GroupOp<S, T>>(
    pre: RVec<T>,
    post: RVec<T>,
    source: RVec<S>,
    gs: int,
    op: Op,
    g: int,
) -> bool {
    ||| post@[g] == op.spec_value(group_of(source@, gs, g), g)
    ||| {
        &&& pre.parent_id_spec() == Some(source.id_spec())
        &&& pre.parent_count_spec() < u128::MAX
        &&& 0 <= g < pre@.len()
        &&& post@[g] == pre@[g]
        &&& group_end(source@.len() as int, gs, g) >= group_end(pre.parent_len_spec(), gs, g)
        &&& forall|i: int| g * gs <= i < group_end(source@.len() as int, gs, g)
            ==> #[trigger] source.last(i) <= pre.parent_count_spec()
    }
}

/// Indices of one group share the group index.
pub proof fn lemma_same_group(gs: int, g: int, j: int)
    requires
        gs >= 1,
        0 <= g,
        g * gs <= j < g * gs + gs,
    ensures
        j / gs == g,
{
    vstd::arithmetic::div_mod::lemma_fundamental_div_mod_converse(j, gs, g, j - g * gs);
}

/// A group index below the reduced length starts inside the source.
pub proof fn lemma_group_start(n: int, gs: int, g: int)
    requires
        gs >= 1,
        n >= 1,
        0 <= g < ceil_div(n, gs),
    ensures
        g * gs <= n - 1,
        g * gs < group_end(n, gs, g) <= n,
{
    assert(g <= (n - 1) / gs);
    vstd::arithmetic::div_mod::lemma_fundamental_div_mod(n - 1, gs);
    assert(g * gs <= ((n - 1) / gs) * gs) by (nonlinear_arith)
        requires
            g <= (n - 1) / gs,
            gs >= 1,
    ;
    assert(((n - 1) / gs) * gs <= n - 1);
    assert((g + 1) * gs == g * gs + gs) by (nonlinear_arith);
}

/// A source index maps to a group index below the reduced length.
pub proof fn lemma_group_of_index(n: int, gs: int, j: int)
    requires
        gs >= 1,
        0 <= j < n,
    ensures
        0 <= j / gs < ceil_div(n, gs),
{
    vstd::arithmetic::div_mod::lemma_div_is_ordered(j, n - 1, gs);
}

/// The walk cursor after skipping the rest of the `stride`-sized bucket of
/// `i`, capped at `n`.
fn bucket_jump(i: usize, stride: usize, n: usize) -> (r: usize)
    requires
        1 <= stride,
        i < n,
    ensures
        i < r <= n,
        r as int <= (i as int / stride as int + 1) * stride as int,
{
    proof {
        vstd::arithmetic::div_mod::lemma_fundamental_div_mod(i as int, stride as int);
        assert((i as int / stride as int) * stride as int <= i as int) by (nonlinear_arith)
            requires
                stride as int >= 1,
                i as int >= 0,
        ;
    }
    proof {
        assert((i as int / stride as int + 1) * stride as int
            == (i as int / stride as int) * stride as int + stride as int) by (nonlinear_arith);
    }
    let b = i / stride;
    let bs = b * stride;
    proof {
        assert(bs <= i < bs + stride) by (nonlinear_arith)
            requires
                stride as int >= 1,
                i as int >= 0,
                b as int == i as int / stride as int,
                bs as int == b as int * stride as int,
        ;
    }
    if n - bs > stride {
        bs + stride
    } else {
        n
    }
}

/// Every index in the skipped range is untouched since `pc`: the bucket's
/// checkpoint bounds the last touch of each of its indices.
proof fn lemma_skip_sound<S2>(source: &RVec<S2>, pc: u128, level: int, i: int, next: int, n: int)
    requires
        source.wf(),
        0 <= level < 5,
        0 <= i < n,
        n == source@.len(),
        next <= (i / stride_of(level) + 1) * stride_of(level),
        next <= n,
        source.cp(level, i / stride_of(level)) <= pc,
    ensures
        forall|j: int| i <= j < next ==> #[trigger] source.last(j) <= pc,
{
    let s = stride_of(level);
    assert forall|j: int| i <= j < next implies #[trigger] source.last(j) <= pc by {
        vstd::arithmetic::div_mod::lemma_fundamental_div_mod(i, s);
        assert((i / s + 1) * s == (i / s) * s + s) by (nonlinear_arith);
        lemma_same_group(s, i / s, j);
        assert(source.last(j) <= source.cp(level, j / s));
    }
}

/// A change-tracked vector: a sequence of values that records, through a
/// monotonic counter and a five-level hierarchy of per-bucket checkpoints,
/// when each index was last mutated, so that consumers can skip provably
/// unchanged regions.
pub struct RVec<T> {
    id: u64,
    parent_id: Option<u64>,
    parent_count: u128,
    parent_len: usize,
    data: Vec<T>,
    count: u128,
    c0: Vec<u128>,
    c1: Vec<u128>,
    c2: Vec<u128>,
    c3: Vec<u128>,
    c4: Vec<u128>,
    touched: Ghost<Seq<u128>>,
}

/// `seen` is a snapshot of a change-tracked vector `v` taken when its counter
/// stood at `pc`: every index whose last touch is at or before `pc` still
/// holds its snapshot value. This is the link between the checkpoint
/// hierarchy and incremental recomputation, and every mutation of an `RVec`
/// preserves it.
pub open spec fn snapshot_valid<T>(v: RVec<T>, pc: u128, seen: Seq<T>) -> bool {
    &&& pc <= v.change_count_spec()
    &&& (pc < u128::MAX ==> forall|i: int|
        0 <= i < v@.len() && #[trigger] v.last(i) <= pc ==> i < seen.len() && v@[i] == seen[i])
}

/// Relies on rand::random: an arbitrary value; nothing is assumed of it.
/// It serves as the instance identifier of a free-standing `RVec`, standing
/// in for the process-global counter that cannot live in verified code.
/// Because nothing is assumed, no two identifiers are provably distinct:
/// mismatch detection against a different instance is certain in practice
/// but probabilistic in principle, and a verified caller that reattaches a
/// consumer to a different source cannot discharge the consumer's
/// attachment precondition — the self-healing reset is reachable only from
/// unverified callers.
pub assume_specification<T>[ rand::random::<T> ]() -> (r: T)
    where
        rand::distributions::Standard: rand::distributions::Distribution<T>,
;

impl<T> RVec<T> {
    /// The sequence of values.
    pub closed spec fn view(&self) -> Seq<T> {
        self.data@
    }

    /// The instance identifier.
    pub closed spec fn id_spec(&self) -> u64 {
        self.id
    }

    /// The identifier of the source this vector last reduced, if any.
    pub closed spec fn parent_id_spec(&self) -> Option<u64> {
        self.parent_id
    }

    /// The source counter as of the last reduction.
    pub closed spec fn parent_count_spec(&self) -> u128 {
        self.parent_count
    }

    /// The source length as of the last reduction.
    pub closed spec fn parent_len_spec(&self) -> int {
        self.parent_len as int
    }

    /// The global modification counter.
    pub closed spec fn change_count_spec(&self) -> u128 {
        self.count
    }

    /// The log of last-touch counter values, one per index.
    pub closed spec fn touch_log(&self) -> Seq<u128> {
        self.touched@
    }

    /// The counter value when index `i` was last touched.
    pub open spec fn last(&self, i: int) -> u128 {
        self.touch_log()[i]
    }

    /// The checkpoint of bucket `b` at level `level`.
    pub closed spec fn cp(&self, level: int, b: int) -> u128 {
        if level == 0 {
            self.c0@[b]
        } else if level == 1 {
            self.c1@[b]
        } else if level == 2 {
            self.c2@[b]
        } else if level == 3 {
            self.c3@[b]
        } else {
            self.c4@[b]
        }
    }

    /// Number of checkpoint buckets at level `level`.
    pub closed spec fn cp_len(&self, level: int) -> int {
        if level == 0 {
            self.c0@.len() as int
        } else if level == 1 {
            self.c1@.len() as int
        } else if level == 2 {
            self.c2@.len() as int
        } else if level == 3 {
            self.c3@.len() as int
        } else {
            self.c4@.len() as int
        }
    }

    /// Two states with equal checkpoint arrays agree on every checkpoint.
    proof fn lemma_cp_frame(a: Self, b: Self)
        requires
            a.c0@ == b.c0@,
            a.c1@ == b.c1@,
            a.c2@ == b.c2@,
            a.c3@ == b.c3@,
            a.c4@ == b.c4@,
        ensures
            forall|level: int| #[trigger] a.cp_len(level) == b.cp_len(level),
            forall|level: int, x: int| #[trigger] a.cp(level, x) == b.cp(level, x),
    {
        assert forall|level: int| #[trigger] a.cp_len(level) == b.cp_len(level) by {}
        assert forall|level: int, x: int| #[trigger] a.cp(level, x) == b.cp(level, x) by {}
    }

    /// After stamping the five buckets of index `i` with `c`, every
    /// checkpoint is either `c` (the bucket of `i`) or unchanged.
    proof fn lemma_cp_stamp(pre: Self, post: Self, i: int, c: u128)
        requires
            0 <= i,
            0 <= i / 16 < pre.c0@.len(),
            0 <= i / 256 < pre.c1@.len(),
            0 <= i / 4096 < pre.c2@.len(),
            0 <= i / 65536 < pre.c3@.len(),
            0 <= i / 1048576 < pre.c4@.len(),
            post.c0@ == pre.c0@.update(i / 16, c),
            post.c1@ == pre.c1@.update(i / 256, c),
            post.c2@ == pre.c2@.update(i / 4096, c),
            post.c3@ == pre.c3@.update(i / 65536, c),
            post.c4@ == pre.c4@.update(i / 1048576, c),
        ensures
            forall|level: int| 0 <= level < 5
                ==> #[trigger] post.cp_len(level) == pre.cp_len(level),
            forall|level: int, b: int| 0 <= level < 5 && 0 <= b < pre.cp_len(level)
                ==> #[trigger] post.cp(level, b) == if b == i / stride_of(level) {
                    c
                } else {
                    pre.cp(level, b)
                },
    {
        assert forall|level: int| 0 <= level < 5 implies #[trigger] post.cp_len(level)
            == pre.cp_len(level) by {}
        assert forall|level: int, b: int| 0 <= level < 5 && 0 <= b < pre.cp_len(level)
            implies #[trigger] post.cp(level, b) == if b == i / stride_of(level) {
                c
            } else {
                pre.cp(level, b)
            } by {}
    }

    /// Well-formedness only depends on the lengths and tracking state, not on
    /// the values themselves.
    proof fn lemma_wf_data_change(a: Self, b: Self)
        requires
            a.wf(),
            b.touched == a.touched,
            b.count == a.count,
            b.c0@ == a.c0@,
            b.c1@ == a.c1@,
            b.c2@ == a.c2@,
            b.c3@ == a.c3@,
            b.c4@ == a.c4@,
            b.data@.len() == a.data@.len(),
        ensures
            b.wf(),
    {
        Self::lemma_cp_frame(a, b);
        assert(b.touch_log() == a.touch_log());
        assert(b.change_count_spec() == a.change_count_spec());
        assert forall|i: int| 0 <= i < b@.len() implies 1 <= #[trigger] b.last(i)
            <= b.change_count_spec() by {
            assert(b.last(i) == a.last(i));
            assert(1 <= a.last(i) <= a.change_count_spec());
        }
        assert forall|level: int| 0 <= level < 5 implies #[trigger] b.cp_len(level)
            * stride_of(level) >= b@.len() by {
            assert(b.cp_len(level) == a.cp_len(level));
            assert(a.cp_len(level) * stride_of(level) >= a@.len());
        }
        assert forall|level: int, x: int| 0 <= level < 5 && 0 <= x < b.cp_len(level)
            implies #[trigger] b.cp(level, x) <= b.change_count_spec() by {
            assert(b.cp(level, x) == a.cp(level, x));
            assert(b.cp_len(level) == a.cp_len(level));
            assert(a.cp(level, x) <= a.change_count_spec());
        }
        assert forall|level: int, i: int| 0 <= level < 5 && 0 <= i < b@.len()
            implies b.last(i) <= #[trigger] b.cp(level, i / stride_of(level)) by {
            assert(b.cp(level, i / stride_of(level))
                == a.cp(level, i / stride_of(level)));
            assert(b.last(i) == a.last(i));
            assert(a.last(i) <= a.cp(level, i / stride_of(level)));
        }
    }

    /// Well-formedness: the checkpoint arrays cover every index, every
    /// recorded touch is at or below the counter, each touch is at least 1,
    /// and — the staleness invariant — every checkpoint is at least the last
    /// touch of every index in its bucket. Checkpoints may overstate recency
    /// but never understate it.
    pub open spec fn wf(&self) -> bool {
        &&& self.touch_log().len() == self@.len()
        &&& (forall|i: int| 0 <= i < self@.len() ==> 1 <= #[trigger] self.last(i)
            <= self.change_count_spec())
        &&& (forall|level: int| 0 <= level < 5 ==> #[trigger] self.cp_len(level)
            * stride_of(level) >= self@.len())
        &&& (forall|level: int, b: int| 0 <= level < 5 && 0 <= b < self.cp_len(level)
            ==> #[trigger] self.cp(level, b) <= self.change_count_spec())
        &&& (forall|level: int, i: int| 0 <= level < 5 && 0 <= i < self@.len()
            ==> self.last(i) <= #[trigger] self.cp(level, i / stride_of(level)))
    }

    /// The length of this vector.
    pub fn len(&self) -> (r: usize)
        ensures
            r == self@.len(),
    {
        self.data.len()
    }

    /// True if this vector holds no values.
    pub fn is_empty(&self) -> (r: bool)
        ensures
            r == (self@.len() == 0),
    {
        self.data.len() == 0
    }

    /// The number of changes made to this vector so far.
    pub fn change_count(&self) -> (r: u128)
        ensures
            r == self.change_count_spec(),
    {
        self.count
    }

    /// The instance identifier.
    pub fn id(&self) -> (r: u64)
        ensures
            r == self.id_spec(),
    {
        self.id
    }

    /// The identifier of the source this vector last reduced, if any.
    pub fn parent_id(&self) -> (r: Option<u64>)
        ensures
            r == self.parent_id_spec(),
    {
        self.parent_id
    }

    /// A reference to the value at index `i`.
    pub fn index(&self, i: usize) -> (r: &T)
        requires
            i < self@.len(),
        ensures
            *r == self@[i as int],
    {
        &self.data[i]
    }

    /// A new, empty change-tracked vector with a fresh instance identifier.
    pub fn new() -> (r: Self)
        ensures
            r.wf(),
            r@.len() == 0,
            r.change_count_spec() == 0,
            r.parent_id_spec() is None,
    {
        let r = RVec {
            id: rand::random::<u64>(),
            parent_id: None,
            parent_count: 0,
            parent_len: 0,
            data: Vec::new(),
            count: 0,
            c0: Vec::new(),
            c1: Vec::new(),
            c2: Vec::new(),
            c3: Vec::new(),
            c4: Vec::new(),
            touched: Ghost(Seq::empty()),
        };
        proof {
            assert forall|level: int| 0 <= level < 5 implies #[trigger] r.cp_len(level)
                * stride_of(level) >= r@.len() by {
                assert(r.cp_len(level) == 0);
            }
        }
        r
    }

    /// A change-tracked vector holding the given values, each counted as
    /// touched at creation.
    pub fn from_vec(values: Vec<T>) -> (r: Self)
        ensures
            r.wf(),
            r@ == values@,
            r.parent_id_spec() is None,
    {
        let mut values = values;
        let mut r = Self::new();
        let ghost target = values@;
        let n = values.len();
        while values.len() > 0
            invariant
                r.wf(),
                r.parent_id_spec() is None,
                r@ + values@ == target,
                target.len() == n,
            decreases values@.len(),
        {
            let value = values.remove(0);
            r.push(value);
            proof {
                assert(r@ + values@ =~= target);
            }
        }
        proof {
            assert(r@ =~= target);
        }
        r
    }

    /// Extend the checkpoint arrays to cover `new_len` indices.
    #[verifier::rlimit(100)]
    #[verifier::spinoff_prover]
    fn ensure_cover(&mut self, new_len: usize)
        requires
            old(self).wf(),
        ensures
            final(self).wf(),
            final(self)@ == old(self)@,
            final(self).id_spec() == old(self).id_spec(),
            final(self).parent_id_spec() == old(self).parent_id_spec(),
            final(self).parent_count_spec() == old(self).parent_count_spec(),
            final(self).parent_len_spec() == old(self).parent_len_spec(),
            final(self).change_count_spec() == old(self).change_count_spec(),
            final(self).touch_log() == old(self).touch_log(),
            forall|level: int| 0 <= level < 5 ==> #[trigger] final(self).cp_len(level)
                * stride_of(level) >= new_len,
            forall|level: int| 0 <= level < 5
                ==> #[trigger] final(self).cp_len(level) >= old(self).cp_len(level),
            forall|level: int, b: int| 0 <= level < 5 && 0 <= b < old(self).cp_len(level)
                ==> #[trigger] final(self).cp(level, b) == old(self).cp(level, b),
            forall|level: int, b: int| 0 <= level < 5
                && old(self).cp_len(level) <= b < final(self).cp_len(level)
                ==> #[trigger] final(self).cp(level, b) == 0,
    {
        let n0 = new_len / STRIDE0 + 1;
        let n1 = new_len / STRIDE1 + 1;
        let n2 = new_len / STRIDE2 + 1;
        let n3 = new_len / STRIDE3 + 1;
        let n4 = new_len / STRIDE4 + 1;
        if self.c0.len() < n0 {
            self.c0.resize(n0, 0);
        }
        if self.c1.len() < n1 {
            self.c1.resize(n1, 0);
        }
        if self.c2.len() < n2 {
            self.c2.resize(n2, 0);
        }
        if self.c3.len() < n3 {
            self.c3.resize(n3, 0);
        }
        if self.c4.len() < n4 {
            self.c4.resize(n4, 0);
        }
        proof {
            let pre = *old(self);
            let post = *self;
            assert forall|level: int| 0 <= level < 5
                implies #[trigger] post.cp_len(level) >= pre.cp_len(level) by {}
            assert forall|level: int| 0 <= level < 5 implies #[trigger] post.cp_len(level)
                * stride_of(level) >= new_len by {
                let s = stride_of(level);
                lemma_cover(post.cp_len(level), s, new_len as int);
            }
            assert forall|level: int| 0 <= level < 5 implies #[trigger] post.cp_len(level)
                * stride_of(level) >= post@.len() by {
                let s = stride_of(level);
                assert(pre.cp_len(level) * s >= pre@.len());
                lemma_mul_mono(post.cp_len(level), pre.cp_len(level), s);
            }
            assert(post.touch_log() == pre.touch_log());
            assert(post.change_count_spec() == pre.change_count_spec());
            assert forall|i: int| 0 <= i < post@.len() implies 1 <= #[trigger] post.last(i)
                <= post.change_count_spec() by {
                assert(post.last(i) == pre.last(i));
                assert(1 <= pre.last(i) <= pre.change_count_spec());
            }
            assert forall|level: int, b: int| 0 <= level < 5 && 0 <= b < post.cp_len(level)
                implies #[trigger] post.cp(level, b) <= post.change_count_spec() by {
                if b < pre.cp_len(level) {
                    assert(post.cp(level, b) == pre.cp(level, b));
                    assert(pre.cp(level, b) <= pre.change_count_spec());
                } else {
                    assert(post.cp(level, b) == 0);
                }
            }
            assert forall|level: int, i: int| 0 <= level < 5 && 0 <= i < post@.len()
                implies post.last(i) <= #[trigger] post.cp(level, i / stride_of(level)) by {
                let s = stride_of(level);
                assert(pre.cp_len(level) * s >= pre@.len());
                lemma_div_bound(i, s, pre.cp_len(level));
                assert(post.last(i) == pre.last(i));
                assert(pre.last(i) <= pre.cp(level, i / s));
                assert(post.cp(level, i / s) == pre.cp(level, i / s));
            }
        }
    }

    /// Record a mutation of index `i`: bump the counter and stamp the five
    /// checkpoint levels of the bucket containing `i`.
    ///
    /// After a touch, the checkpoints at the touched buckets equal the new
    /// counter value, which is at least every checkpoint recorded before —
    /// the hierarchical touch monotonicity of this structure.
    pub fn touch(&mut self, i: usize)
        requires
            old(self).wf(),
            i < old(self)@.len(),
        ensures
            final(self).wf(),
            final(self)@ == old(self)@,
            final(self).id_spec() == old(self).id_spec(),
            final(self).parent_id_spec() == old(self).parent_id_spec(),
            final(self).parent_count_spec() == old(self).parent_count_spec(),
            final(self).parent_len_spec() == old(self).parent_len_spec(),
            final(self).change_count_spec() == sat_inc(old(self).change_count_spec()),
            final(self).touch_log() == old(self).touch_log().update(
                i as int, sat_inc(old(self).change_count_spec())),
            forall|level: int| 0 <= level < 5
                ==> #[trigger] final(self).cp_len(level) == old(self).cp_len(level),
            forall|level: int, b: int| 0 <= level < 5 && 0 <= b < old(self).cp_len(level)
                ==> #[trigger] final(self).cp(level, b) >= old(self).cp(level, b),
            forall|level: int| 0 <= level < 5
                ==> #[trigger] final(self).cp(level, i as int / stride_of(level))
                    == final(self).change_count_spec(),
            forall|level: int, b: int| 0 <= level < 5 && 0 <= b < old(self).cp_len(level)
                && b != i as int / stride_of(level)
                ==> #[trigger] final(self).cp(level, b) == old(self).cp(level, b),
            forall|pc: u128, seen: Seq<T>| #[trigger] snapshot_valid(*old(self), pc, seen)
                ==> snapshot_valid(*final(self), pc, seen),
    {
        self.touch_raw(i);
        proof {
            let post = *self;
            assert forall|pc: u128, seen: Seq<T>|
                #[trigger] snapshot_valid(*old(self), pc, seen)
                    implies snapshot_valid(post, pc, seen) by {
                if pc < u128::MAX {
                    assert forall|k: int| 0 <= k < post@.len() && #[trigger] post.last(k) <= pc
                        implies k < seen.len() && post@[k] == seen[k] by {
                        if k != i as int {
                            assert(old(self).last(k) == post.last(k));
                        }
                    }
                }
            }
        }
    }

    /// Append one value, touching the new final index.
    pub fn push(&mut self, t: T)
        requires
            old(self).wf(),
            old(self)@.len() < usize::MAX,
        ensures
            final(self).wf(),
            final(self)@ == old(self)@.push(t),
            final(self).id_spec() == old(self).id_spec(),
            final(self).parent_id_spec() == old(self).parent_id_spec(),
            final(self).parent_count_spec() == old(self).parent_count_spec(),
            final(self).parent_len_spec() == old(self).parent_len_spec(),
            final(self).change_count_spec() == sat_inc(old(self).change_count_spec()),
            final(self).last(old(self)@.len() as int) == final(self).change_count_spec(),
            forall|i: int| 0 <= i < old(self)@.len()
                ==> #[trigger] final(self).last(i) == old(self).last(i),
            forall|level: int, b: int| 0 <= level < 5 && 0 <= b < old(self).cp_len(level)
                && b != old(self)@.len() as int / stride_of(level)
                ==> #[trigger] final(self).cp(level, b) == old(self).cp(level, b),
            forall|pc: u128, seen: Seq<T>| #[trigger] snapshot_valid(*old(self), pc, seen)
                ==> snapshot_valid(*final(self), pc, seen),
    {
        let n = self.data.len();
        self.ensure_cover(n + 1);
        let ghost cov = *self;
        self.data.push(t);
        proof {
            self.touched@ = self.touched@.push(0);
            let pre = *old(self);
            let mid = *self;
            Self::lemma_cp_frame(mid, cov);
            assert(mid.touch_log() == cov.touch_log().push(0));
            assert(cov.touch_log() == pre.touch_log());
            assert(mid.change_count_spec() == pre.change_count_spec());
            assert forall|k: int| 0 <= k < mid@.len() implies #[trigger] mid.last(k)
                <= mid.change_count_spec() by {
                if k < pre@.len() {
                    assert(mid.last(k) == pre.last(k));
                    assert(pre.last(k) <= pre.change_count_spec());
                } else {
                    assert(mid.last(k) == 0);
                }
            }
            assert forall|level: int| 0 <= level < 5 implies #[trigger] mid.cp_len(level)
                * stride_of(level) >= mid@.len() by {
                assert(mid.cp_len(level) == cov.cp_len(level));
                assert(cov.cp_len(level) * stride_of(level) >= n + 1);
            }
            assert forall|level: int, b: int| 0 <= level < 5 && 0 <= b < mid.cp_len(level)
                implies #[trigger] mid.cp(level, b) <= mid.change_count_spec() by {
                assert(mid.cp(level, b) == cov.cp(level, b));
                assert(mid.cp_len(level) == cov.cp_len(level));
                if b < pre.cp_len(level) {
                    assert(cov.cp(level, b) == pre.cp(level, b));
                    assert(pre.cp(level, b) <= pre.change_count_spec());
                } else {
                    assert(cov.cp(level, b) == 0);
                }
            }
            assert forall|level: int, k: int|
                0 <= level < 5 && 0 <= k < mid@.len() && k != n as int
                    implies mid.last(k) <= #[trigger] mid.cp(level, k / stride_of(level)) by {
                let s = stride_of(level);
                assert(mid.last(k) == pre.last(k));
                assert(pre.cp_len(level) * s >= pre@.len());
                lemma_div_bound(k, s, pre.cp_len(level));
                assert(pre.last(k) <= pre.cp(level, k / s));
                assert(cov.cp(level, k / s) == pre.cp(level, k / s));
                assert(mid.cp(level, k / s) == cov.cp(level, k / s));
            }
            assert forall|k: int| 0 <= k < mid@.len() && k != n as int
                implies 1 <= #[trigger] mid.last(k) by {
                assert(mid.last(k) == pre.last(k));
                assert(1 <= pre.last(k));
            }
        }
        let ghost mid2 = *self;
        self.touch_raw(n);
        proof {
            let pre = *old(self);
            let post = *self;
            Self::lemma_cp_frame(mid2, cov);
            assert forall|level: int, b: int| 0 <= level < 5 && 0 <= b < pre.cp_len(level)
                && b != n as int / stride_of(level)
                implies #[trigger] post.cp(level, b) == pre.cp(level, b) by {
                assert(mid2.cp_len(level) == cov.cp_len(level));
                assert(post.cp(level, b) == mid2.cp(level, b));
                assert(mid2.cp(level, b) == cov.cp(level, b));
                assert(cov.cp(level, b) == pre.cp(level, b));
            }
            assert(post.touch_log() =~= pre.touch_log().push(post.change_count_spec()));
            assert(post.last(n as int) == post.change_count_spec());
            assert forall|k: int| 0 <= k < pre@.len()
                implies #[trigger] post.last(k) == pre.last(k) by {}
            assert forall|pc: u128, seen: Seq<T>|
                #[trigger] snapshot_valid(pre, pc, seen)
                    implies snapshot_valid(post, pc, seen) by {
                if pc < u128::MAX {
                    assert forall|k: int|
                        0 <= k < post@.len() && #[trigger] post.last(k) <= pc
                            implies k < seen.len() && post@[k] == seen[k] by {
                        if k < pre@.len() {
                            assert(pre.last(k) == post.last(k));
                        } else {
                            assert(post.last(k) == post.change_count_spec());
                            assert(pc <= pre.change_count_spec());
                        }
                    }
                }
            }
        }
    }

    /// Overwrite the value at index `i`, touching `i`.
    pub fn set(&mut self, i: usize, t: T)
        requires
            old(self).wf(),
            i < old(self)@.len(),
        ensures
            final(self).wf(),
            final(self)@ == old(self)@.update(i as int, t),
            final(self).id_spec() == old(self).id_spec(),
            final(self).parent_id_spec() == old(self).parent_id_spec(),
            final(self).parent_count_spec() == old(self).parent_count_spec(),
            final(self).parent_len_spec() == old(self).parent_len_spec(),
            final(self).change_count_spec() == sat_inc(old(self).change_count_spec()),
            final(self).last(i as int) == final(self).change_count_spec(),
            forall|k: int| 0 <= k < old(self)@.len() && k != i as int
                ==> #[trigger] final(self).last(k) == old(self).last(k),
            forall|level: int, b: int| 0 <= level < 5 && 0 <= b < old(self).cp_len(level)
                && b != i as int / stride_of(level)
                ==> #[trigger] final(self).cp(level, b) == old(self).cp(level, b),
            forall|pc: u128, seen: Seq<T>| #[trigger] snapshot_valid(*old(self), pc, seen)
                ==> snapshot_valid(*final(self), pc, seen),
    {
        self.touch(i);
        let ghost mid = *self;
        let r = &mut self.data[i];
        *r = t;
        proof {
            let pre = *old(self);
            let post = *self;
            Self::lemma_wf_data_change(mid, post);
            Self::lemma_cp_frame(mid, post);
            assert forall|level: int, b: int| 0 <= level < 5 && 0 <= b < pre.cp_len(level)
                && b != i as int / stride_of(level)
                implies #[trigger] post.cp(level, b) == pre.cp(level, b) by {
                assert(post.cp(level, b) == mid.cp(level, b));
                assert(mid.cp(level, b) == pre.cp(level, b));
            }
            assert forall|pc: u128, seen: Seq<T>|
                #[trigger] snapshot_valid(pre, pc, seen)
                    implies snapshot_valid(post, pc, seen) by {
                if pc < u128::MAX {
                    assert forall|k: int|
                        0 <= k < post@.len() && #[trigger] post.last(k) <= pc
                            implies k < seen.len() && post@[k] == seen[k] by {
                        assert(post.last(k) == pre.last(k) || k == i as int);
                        if k == i as int {
                            assert(post.last(k) == sat_inc(pre.change_count_spec()));
                            assert(pc <= pre.change_count_spec());
                            assert(post.last(k) > pc);
                        }
                    }
                }
            }
        }
    }

    /// Remove and return the value at index `i`, moving the final value into
    /// its place; touches both `i` and the final index.
    pub fn swap_remove(&mut self, i: usize) -> (r: T)
        requires
            old(self).wf(),
            i < old(self)@.len(),
        ensures
            final(self).wf(),
            r == old(self)@[i as int],
            final(self)@ == old(self)@.update(i as int, old(self)@.last()).drop_last(),
            final(self).id_spec() == old(self).id_spec(),
            final(self).parent_id_spec() == old(self).parent_id_spec(),
            final(self).parent_count_spec() == old(self).parent_count_spec(),
            final(self).parent_len_spec() == old(self).parent_len_spec(),
            final(self).change_count_spec()
                == sat_inc(sat_inc(old(self).change_count_spec())),
            final(self).change_count_spec() >= old(self).change_count_spec(),
            forall|level: int, b: int| 0 <= level < 5 && 0 <= b < old(self).cp_len(level)
                && b != i as int / stride_of(level)
                && b != (old(self)@.len() - 1) / stride_of(level)
                ==> #[trigger] final(self).cp(level, b) == old(self).cp(level, b),
            forall|pc: u128, seen: Seq<T>| #[trigger] snapshot_valid(*old(self), pc, seen)
                ==> snapshot_valid(*final(self), pc, seen),
    {
        let last_idx = self.data.len() - 1;
        self.touch(last_idx);
        self.touch(i);
        let ghost mid = *self;
        let r = self.data.swap_remove(i);
        proof {
            self.touched@ = self.touched@.update(
                i as int, self.touched@.last()).drop_last();
        }
        proof {
            let pre = *old(self);
            let post = *self;
            assert(post.touch_log() == mid.touch_log().update(
                i as int, mid.touch_log().last()).drop_last());
            Self::lemma_cp_frame(post, mid);
            assert(post.change_count_spec() == mid.change_count_spec());
            assert forall|k: int| 0 <= k < post@.len() implies 1 <= #[trigger] post.last(k)
                <= post.change_count_spec() by {
                assert(post.last(k) == mid.last(k) || post.last(k) == mid.last(
                    mid@.len() - 1));
                assert(1 <= mid.last(k) <= mid.change_count_spec());
                assert(1 <= mid.last(mid@.len() - 1) <= mid.change_count_spec());
            }
            assert forall|level: int| 0 <= level < 5 implies #[trigger] post.cp_len(level)
                * stride_of(level) >= post@.len() by {
                assert(post.cp_len(level) == mid.cp_len(level));
                assert(mid.cp_len(level) * stride_of(level) >= mid@.len());
            }
            assert forall|level: int, b: int| 0 <= level < 5 && 0 <= b < post.cp_len(level)
                implies #[trigger] post.cp(level, b) <= post.change_count_spec() by {
                assert(post.cp(level, b) == mid.cp(level, b));
                assert(post.cp_len(level) == mid.cp_len(level));
                assert(mid.cp(level, b) <= mid.change_count_spec());
            }
            assert forall|level: int, k: int| 0 <= level < 5 && 0 <= k < post@.len()
                implies post.last(k) <= #[trigger] post.cp(level, k / stride_of(level)) by {
                let s = stride_of(level);
                assert(post.cp(level, k / s) == mid.cp(level, k / s));
                if k == i as int && i as int != mid@.len() - 1 {
                    // the moved final element carries the touch of the final
                    // index, and `i`'s own bucket was just stamped with the
                    // same counter value
                    assert(post.last(k) == mid.last(mid@.len() - 1));
                    assert(mid.last(i as int) == mid.change_count_spec());
                    assert(mid.last(i as int) <= mid.cp(level, k / s));
                    assert(post.last(k) <= mid.change_count_spec());
                } else {
                    assert(post.last(k) == mid.last(k));
                    assert(mid.last(k) <= mid.cp(level, k / s));
                }
            }
            assert forall|pc: u128, seen: Seq<T>|
                #[trigger] snapshot_valid(pre, pc, seen)
                    implies snapshot_valid(post, pc, seen) by {
                if pc < u128::MAX {
                    assert forall|k: int|
                        0 <= k < post@.len() && #[trigger] post.last(k) <= pc
                            implies k < seen.len() && post@[k] == seen[k] by {
                        assert(pc <= pre.change_count_spec());
                        if k == i as int && i as int != mid@.len() - 1 {
                            assert(post.last(k) == mid.last(mid@.len() - 1));
                            assert(mid.last(mid@.len() - 1)
                                == sat_inc(pre.change_count_spec()));
                            assert(post.last(k) > pc);
                        } else {
                            assert(post.last(k) == mid.last(k));
                            assert(mid.last(k) <= pc);
                            assert(snapshot_valid(mid, pc, seen));
                        }
                    }
                }
            }
        }
        r
    }

    /// The central incremental algorithm: make this vector the groupwise
    /// reduction of `source` under the rule `op`, recomputing only the groups
    /// whose source indices may have changed since the last reduction against
    /// this same source instance. On the first reduction, after an attachment
    /// to a different source instance (a self-healing reset), or once the
    /// recorded counter has saturated, every group is recomputed.
    ///
    /// Calling `reduce` twice against an unchanged source leaves the contents
    /// untouched the second time and invokes the rule on no group.
    pub fn reduce<S, Op: GroupOp<S, T>>(&mut self, source: &RVec<S>, group_size: usize, op: &Op)
        where T: Default
        requires
            old(self).wf(),
            source.wf(),
            group_size >= 1,
        ensures
            final(self).wf(),
            final(self)@.len() == ceil_div(source@.len() as int, group_size as int),
            final(self).parent_id_spec() == Some(source.id_spec()),
            final(self).parent_count_spec() == source.change_count_spec(),
            final(self).parent_len_spec() == source@.len(),
            forall|g: int| 0 <= g < final(self)@.len() ==> #[trigger] reduce_group_ok(
                *old(self), *final(self), *source, group_size as int, *op, g),
            (old(self).parent_id_spec() == Some(source.id_spec())
                || old(self).parent_id_spec() is None) ==> {
                &&& final(self).id_spec() == old(self).id_spec()
                &&& final(self).change_count_spec() >= old(self).change_count_spec()
                &&& forall|pc: u128, seen: Seq<T>| #[trigger] snapshot_valid(
                    *old(self), pc, seen) ==> snapshot_valid(*final(self), pc, seen)
            },
            (old(self).parent_id_spec() == Some(source.id_spec())
                && old(self).parent_count_spec() == source.change_count_spec()
                && old(self).parent_count_spec() < u128::MAX
                && old(self).parent_len_spec() == source@.len()
                && old(self)@.len() == ceil_div(source@.len() as int, group_size as int))
                ==> (final(self)@ == old(self)@
                    && final(self).change_count_spec() == old(self).change_count_spec()),
    {
        let ghost orig = *old(self);
        let ghost gsi = group_size as int;
        let n = source.data.len();
        let gs = group_size;
        let new_len = if n == 0 {
            0usize
        } else {
            (n - 1) / gs + 1
        };
        proof {
            assert(new_len as int == ceil_div(n as int, gsi));
        }

        // attach to this source, resetting if it is a different instance
        let mut full: bool = false;
        let ghost mut was_reset = false;
        match self.parent_id {
            None => {
                full = true;
            },
            Some(p) => {
                if p != source.id {
                    self.reset();
                    proof {
                        was_reset = true;
                    }
                    full = true;
                } else {
                    full = self.parent_count == u128::MAX;
                }
            },
        }
        let ghost base = *self;

        // resize to the reduced length
        let old_len = self.data.len();
        if new_len < old_len {
            self.data.truncate(new_len);
            proof {
                self.touched@ = self.touched@.subrange(0, new_len as int);
            }
            proof {
                let post = *self;
                Self::lemma_cp_frame(post, base);
                assert(post.touch_log() == base.touch_log().subrange(0, new_len as int));
                assert forall|k: int| 0 <= k < post@.len() implies 1 <= #[trigger] post.last(k)
                    <= post.change_count_spec() by {
                    assert(post.last(k) == base.last(k));
                    assert(1 <= base.last(k) <= base.change_count_spec());
                }
                assert forall|level: int| 0 <= level < 5 implies #[trigger] post.cp_len(level)
                    * stride_of(level) >= post@.len() by {
                    assert(post.cp_len(level) == base.cp_len(level));
                    assert(base.cp_len(level) * stride_of(level) >= base@.len());
                }
                assert forall|level: int, b: int| 0 <= level < 5 && 0 <= b < post.cp_len(level)
                    implies #[trigger] post.cp(level, b) <= post.change_count_spec() by {
                    assert(post.cp(level, b) == base.cp(level, b));
                    assert(post.cp_len(level) == base.cp_len(level));
                    assert(base.cp(level, b) <= base.change_count_spec());
                }
                assert forall|level: int, k: int| 0 <= level < 5 && 0 <= k < post@.len()
                    implies post.last(k) <= #[trigger] post.cp(
                        level, k / stride_of(level)) by {
                    assert(post.cp(level, k / stride_of(level))
                        == base.cp(level, k / stride_of(level)));
                    assert(post.last(k) == base.last(k));
                    assert(base.last(k) <= base.cp(level, k / stride_of(level)));
                }
                assert(post.change_count_spec() == base.change_count_spec());
                assert forall|pc2: u128, seen: Seq<T>|
                    #[trigger] snapshot_valid(base, pc2, seen)
                        implies snapshot_valid(post, pc2, seen) by {
                    if pc2 < u128::MAX {
                        assert forall|kk: int|
                            0 <= kk < post@.len() && #[trigger] post.last(kk) <= pc2
                                implies kk < seen.len() && post@[kk] == seen[kk] by {
                            assert(post.last(kk) == base.last(kk));
                            assert(post@[kk] == base@[kk]);
                        }
                    }
                }
            }
        } else {
            while self.data.len() < new_len
                invariant
                    self.wf(),
                    base@.len() <= self@.len() <= new_len,
                    new_len <= usize::MAX,
                    self@.subrange(0, base@.len() as int) == base@,
                    self.id_spec() == base.id_spec(),
                    self.parent_id_spec() == base.parent_id_spec(),
                    self.parent_count_spec() == base.parent_count_spec(),
                    self.parent_len_spec() == base.parent_len_spec(),
                    self.change_count_spec() >= base.change_count_spec(),
                    self@.len() == base@.len() ==> self.change_count_spec()
                        == base.change_count_spec(),
                    forall|k: int| 0 <= k < base@.len()
                        ==> #[trigger] self.last(k) == base.last(k),
                    forall|pc: u128, seen: Seq<T>| #[trigger] snapshot_valid(base, pc, seen)
                        ==> snapshot_valid(*self, pc, seen),
                decreases new_len - self@.len(),
            {
                let ghost prev = *self;
                self.push(T::default());
                proof {
                    assert(self@.subrange(0, base@.len() as int)
                        =~= prev@.subrange(0, base@.len() as int));
                    assert forall|pc: u128, seen: Seq<T>|
                        #[trigger] snapshot_valid(base, pc, seen)
                            implies snapshot_valid(*self, pc, seen) by {
                        assert(snapshot_valid(prev, pc, seen));
                    }
                }
            }
        }
        let ghost resized = *self;
        proof {
            assert(resized@.len() == new_len);
            assert forall|g: int| 0 <= g < new_len && g < base@.len()
                implies #[trigger] resized@[g] == base@[g] by {
                if new_len < base@.len() {
                } else {
                    assert(resized@.subrange(0, base@.len() as int) == base@);
                }
            }
        }

        // collect the group indices that must be recomputed: in full mode all
        // of them, otherwise the groups the checkpoint walk cannot rule out,
        // and always the groups that did not exist before
        let mut needs: Vec<usize> = Vec::new();
        let ghost mut mk = Set::<int>::empty();
        let mut g = if full {
            0usize
        } else if old_len < new_len {
            old_len
        } else {
            new_len
        };
        while g < new_len
            invariant
                forall|k: int| 0 <= k < needs@.len() ==> mk.contains(
                    #[trigger] needs@[k] as int) && needs@[k] < new_len,
                forall|gg: int| mk.contains(gg) ==> 0 <= gg < new_len && exists|k: int|
                    0 <= k < needs@.len() && #[trigger] needs@[k] as int == gg,
                forall|gg: int| (if full { 0int } else if old_len < new_len {
                    old_len as int
                } else {
                    new_len as int
                }) <= gg < g ==> mk.contains(gg),
                g >= (if full { 0int } else if old_len < new_len {
                    old_len as int
                } else {
                    new_len as int
                }),
                g <= new_len,
                needs@.len() + (if full { 0int } else if old_len < new_len {
                    old_len as int
                } else {
                    new_len as int
                }) == g,
            decreases new_len - g,
        {
            let ghost needs_pre = needs@;
            needs.push(g);
            proof {
                mk = mk.insert(g as int);
                assert forall|gg: int| mk.contains(gg) implies 0 <= gg < new_len
                    && exists|k: int| 0 <= k < needs@.len()
                    && #[trigger] needs@[k] as int == gg by {
                    if gg == g as int {
                        assert(needs@[needs@.len() - 1] as int == gg);
                    } else {
                        let k = choose|k: int| 0 <= k < needs_pre.len()
                            && #[trigger] needs_pre[k] as int == gg;
                        assert(needs@[k] as int == gg);
                    }
                }
            }
            g = g + 1;
        }
        // a shrink can change the extent of the final group without touching
        // any surviving index, so that group is always recomputed
        if !full && n < self.parent_len && n > 0 {
            let bg = (n - 1) / gs;
            let ghost needs_pre = needs@;
            needs.push(bg);
            proof {
                mk = mk.insert(bg as int);
                assert forall|gg: int| mk.contains(gg) implies 0 <= gg < new_len
                    && exists|k: int| 0 <= k < needs@.len()
                    && #[trigger] needs@[k] as int == gg by {
                    if gg == bg as int {
                        assert(needs@[needs@.len() - 1] as int == gg);
                    } else {
                        let k = choose|k: int| 0 <= k < needs_pre.len()
                            && #[trigger] needs_pre[k] as int == gg;
                        assert(needs@[k] as int == gg);
                    }
                }
            }
        }
        let ghost base_needs = needs@.len() as int;
        let ghost mk_base = mk;

        if !full {
            let pc = self.parent_count;
            let mut i: usize = 0;
            while i < n
                invariant
                    source.wf(),
                    gs >= 1,
                    n == source@.len(),
                    pc < u128::MAX,
                    pc == self.parent_count_spec(),
                    i <= n,
                    new_len as int == ceil_div(n as int, gsi),
                    gsi == gs as int,
                    forall|j: int| 0 <= j < i ==> #[trigger] source.last(j) <= pc
                        || mk.contains(j / gsi),
                    forall|k: int| 0 <= k < needs@.len() ==> mk.contains(
                        #[trigger] needs@[k] as int) && needs@[k] < new_len,
                    forall|gg: int| mk.contains(gg) ==> 0 <= gg < new_len && exists|k: int|
                        0 <= k < needs@.len() && #[trigger] needs@[k] as int == gg,
                    pc >= source.change_count_spec() ==> needs@.len() == base_needs,
                    forall|gg: int| mk_base.contains(gg) ==> mk.contains(gg),
                decreases n - i,
            {
                proof {
                    assert(source.cp_len(4) * stride_of(4) >= n);
                    assert(source.cp_len(3) * stride_of(3) >= n);
                    assert(source.cp_len(2) * stride_of(2) >= n);
                    assert(source.cp_len(1) * stride_of(1) >= n);
                    assert(source.cp_len(0) * stride_of(0) >= n);
                    lemma_div_bound(i as int, stride_of(4), source.cp_len(4));
                    lemma_div_bound(i as int, stride_of(3), source.cp_len(3));
                    lemma_div_bound(i as int, stride_of(2), source.cp_len(2));
                    lemma_div_bound(i as int, stride_of(1), source.cp_len(1));
                    lemma_div_bound(i as int, stride_of(0), source.cp_len(0));
                }
                if source.c4[i / STRIDE4] <= pc {
                    let ghost iprev = i as int;
                    i = bucket_jump(i, STRIDE4, n);
                    proof {
                        lemma_skip_sound(source, pc, 4, iprev, i as int, n as int);
                    }
                } else if source.c3[i / STRIDE3] <= pc {
                    let ghost iprev = i as int;
                    i = bucket_jump(i, STRIDE3, n);
                    proof {
                        lemma_skip_sound(source, pc, 3, iprev, i as int, n as int);
                    }
                } else if source.c2[i / STRIDE2] <= pc {
                    let ghost iprev = i as int;
                    i = bucket_jump(i, STRIDE2, n);
                    proof {
                        lemma_skip_sound(source, pc, 2, iprev, i as int, n as int);
                    }
                } else if source.c1[i / STRIDE1] <= pc {
                    let ghost iprev = i as int;
                    i = bucket_jump(i, STRIDE1, n);
                    proof {
                        lemma_skip_sound(source, pc, 1, iprev, i as int, n as int);
                    }
                } else if source.c0[i / STRIDE0] > pc {
                    // a stale bucket: mark every group overlapping it
                    let b = i / STRIDE0;
                    let bs = b * STRIDE0;
                    let stop = if n - bs > STRIDE0 {
                        bs + STRIDE0
                    } else {
                        n
                    };
                    proof {
                        assert(bs <= i) by (nonlinear_arith)
                            requires
                                b == i as int / 16,
                                bs == b * 16,
                                i >= 0,
                        ;
                        if pc >= source.change_count_spec() {
                            assert(source.cp(0, i as int / 16)
                                <= source.change_count_spec());
                        }
                    }
                    while i < stop
                        invariant
                            source.wf(),
                            gs >= 1,
                            gsi == gs as int,
                            n == source@.len(),
                            i <= stop <= n,
                            new_len as int == ceil_div(n as int, gsi),
                            forall|j: int| 0 <= j < i ==> #[trigger] source.last(j) <= pc
                                || mk.contains(j / gsi),
                            forall|k: int| 0 <= k < needs@.len() ==> mk.contains(
                                #[trigger] needs@[k] as int) && needs@[k] < new_len,
                            forall|gg: int| mk.contains(gg) ==> 0 <= gg < new_len
                                && exists|k: int| 0 <= k < needs@.len()
                                && #[trigger] needs@[k] as int == gg,
                            forall|gg: int| mk_base.contains(gg) ==> mk.contains(gg),
                        decreases stop - i,
                    {
                        let gidx = i / gs;
                        proof {
                            lemma_group_of_index(n as int, gsi, i as int);
                            assert((i as int / gs as int) * gs as int <= i as int)
                                by (nonlinear_arith)
                                requires
                                    gs as int >= 1,
                                    i as int >= 0,
                            ;
                        }
                        let ghost needs_pre = needs@;
                        needs.push(gidx);
                        proof {
                            mk = mk.insert(gidx as int);
                            assert forall|gg: int| mk.contains(gg) implies 0 <= gg < new_len
                                && exists|k: int| 0 <= k < needs@.len()
                                && #[trigger] needs@[k] as int == gg by {
                                if gg == gidx as int {
                                    assert(needs@[needs@.len() - 1] as int == gg);
                                } else {
                                    let k = choose|k: int| 0 <= k < needs_pre.len()
                                        && #[trigger] needs_pre[k] as int == gg;
                                    assert(needs@[k] as int == gg);
                                }
                            }
                        }
                        let gst = gidx * gs;
                        proof {
                            assert(gst <= i && i < gst + gs) by (nonlinear_arith)
                                requires
                                    gidx == i as int / gs as int,
                                    gst == gidx as int * gs as int,
                                    gs >= 1,
                                    i >= 0,
                            ;
                        }
                        let ghost iprev = i as int;
                        if stop - gst > gs {
                            i = gst + gs;
                        } else {
                            i = stop;
                        }
                        proof {
                            assert forall|j: int| 0 <= j < i implies
                                #[trigger] source.last(j) <= pc || mk.contains(j / gsi) by {
                                if iprev <= j < i {
                                    lemma_same_group(gsi, gidx as int, j);
                                }
                            }
                        }
                    }
                } else {
                    let ghost iprev = i as int;
                    i = bucket_jump(i, STRIDE0, n);
                    proof {
                        lemma_skip_sound(source, pc, 0, iprev, i as int, n as int);
                    }
                }
            }
        }

        // recompute the collected groups in order
        let mut k: usize = 0;
        while k < needs.len()
            invariant
                self.wf(),
                source.wf(),
                gs >= 1,
                gsi == gs as int,
                n == source@.len(),
                self@.len() == new_len,
                new_len as int == ceil_div(n as int, gsi),
                self.id_spec() == resized.id_spec(),
                self.parent_id_spec() == resized.parent_id_spec(),
                self.parent_count_spec() == resized.parent_count_spec(),
                self.parent_len_spec() == resized.parent_len_spec(),
                self.change_count_spec() >= resized.change_count_spec(),
                k <= needs@.len(),
                needs@.len() == 0 ==> self.change_count_spec()
                    == resized.change_count_spec(),
                forall|kk: int| 0 <= kk < needs@.len() ==> mk.contains(
                    #[trigger] needs@[kk] as int) && needs@[kk] < new_len,
                forall|kk: int| 0 <= kk < k ==> self@[#[trigger] needs@[kk] as int]
                    == op.spec_value(group_of(source@, gsi, needs@[kk] as int),
                        needs@[kk] as int),
                forall|gg: int| 0 <= gg < new_len && !mk.contains(gg)
                    ==> #[trigger] self@[gg] == resized@[gg],
                forall|pc2: u128, seen: Seq<T>| #[trigger] snapshot_valid(resized, pc2, seen)
                    ==> snapshot_valid(*self, pc2, seen),
            decreases needs@.len() - k,
        {
            let gidx = needs[k];
            proof {
                lemma_group_start(n as int, gsi, gidx as int);
                assert(gidx as int * gsi <= n - 1);
            }
            let lo = gidx * gs;
            let hi = if n - lo > gs {
                lo + gs
            } else {
                n
            };
            proof {
                assert((gidx as int + 1) * gsi == gidx as int * gsi + gsi) by (nonlinear_arith);
                assert(hi as int == group_end(n as int, gsi, gidx as int));
                assert(lo < hi);
            }
            let slice = vstd::slice::slice_subrange(source.data.as_slice(), lo, hi);
            let prior = &self.data[gidx];
            let res = op.compute(slice, prior, gidx);
            let ghost prev = *self;
            match res {
                Some(v) => {
                    self.set(gidx, v);
                },
                None => {},
            }
            proof {
                assert(slice@ == group_of(source@, gsi, gidx as int));
                assert(self@[gidx as int] == op.spec_value(
                    group_of(source@, gsi, gidx as int), gidx as int));
                assert forall|kk: int| 0 <= kk < k + 1 implies
                    self@[#[trigger] needs@[kk] as int] == op.spec_value(
                        group_of(source@, gsi, needs@[kk] as int), needs@[kk] as int) by {
                    if kk < k && needs@[kk] as int != gidx as int {
                        assert(self@[needs@[kk] as int] == prev@[needs@[kk] as int]);
                    }
                }
                assert forall|pc2: u128, seen: Seq<T>|
                    #[trigger] snapshot_valid(resized, pc2, seen)
                        implies snapshot_valid(*self, pc2, seen) by {
                    assert(snapshot_valid(prev, pc2, seen));
                }
            }
            k = k + 1;
        }

        // record the source state this reduction now reflects
        let ghost before_stamp = *self;
        self.parent_id = Some(source.id);
        self.parent_count = source.count;
        self.parent_len = n;
        proof {
            Self::lemma_wf_data_change(before_stamp, *self);
            let post = *self;
            assert(post@ == before_stamp@);
            assert(post.change_count_spec() == before_stamp.change_count_spec());
            assert forall|g2: int| 0 <= g2 < new_len implies #[trigger] reduce_group_ok(
                orig, post, *source, gsi, *op, g2) by {
                if mk.contains(g2) {
                    let kk = choose|kk: int| 0 <= kk < needs@.len()
                        && #[trigger] needs@[kk] as int == g2;
                    assert(post@[g2] == op.spec_value(group_of(source@, gsi, g2), g2));
                } else {
                    if full {
                        assert(mk_base.contains(g2));
                        assert(mk.contains(g2));
                    }
                    assert(!full);
                    assert(!was_reset);
                    assert(orig == base);
                    if old_len < new_len && g2 >= old_len {
                        assert(mk_base.contains(g2));
                        assert(mk.contains(g2));
                    }
                    assert(g2 < old_len && g2 < new_len);
                    assert(post@[g2] == resized@[g2]);
                    assert(resized@[g2] == base@[g2]);
                    if (n as int) < orig.parent_len_spec() {
                        assert(n > 0);
                        assert(mk.contains((n as int - 1) / gsi));
                        assert(g2 != (n as int - 1) / gsi);
                        assert(g2 < new_len);
                        assert(g2 + 1 <= (n as int - 1) / gsi);
                        lemma_mul_mono((n as int - 1) / gsi, g2 + 1, gsi);
                        vstd::arithmetic::div_mod::lemma_fundamental_div_mod(
                            n as int - 1, gsi);
                        assert((g2 + 1) * gsi <= n - 1);
                    }
                    assert(group_end(n as int, gsi, g2)
                        >= group_end(orig.parent_len_spec(), gsi, g2));
                    assert forall|j: int| g2 * gsi <= j < group_end(n as int, gsi, g2)
                        implies #[trigger] source.last(j) <= orig.parent_count_spec() by {
                        lemma_group_start(n as int, gsi, g2);
                        assert((g2 + 1) * gsi == g2 * gsi + gsi) by (nonlinear_arith);
                        lemma_same_group(gsi, g2, j);
                        assert(source.last(j) <= orig.parent_count_spec()
                            || mk.contains(j / gsi));
                    }
                }
            }
            // idempotent case: nothing was collected, so nothing changed
            if orig.parent_id_spec() == Some(source.id_spec())
                && orig.parent_count_spec() == source.change_count_spec()
                && orig.parent_count_spec() < u128::MAX
                && orig.parent_len_spec() == n as int
                && orig@.len() == new_len {
                assert(!full && !was_reset);
                assert(base == orig);
                assert(needs@.len() == base_needs);
                assert(base_needs == 0);
                assert(resized@ =~= orig@);
                assert forall|gg: int| 0 <= gg < new_len implies #[trigger] post@[gg]
                    == orig@[gg] by {
                    assert(!mk.contains(gg));
                }
                assert(post@ =~= orig@);
            }
            // snapshot preservation when no reset happened
            if orig.parent_id_spec() == Some(source.id_spec())
                || orig.parent_id_spec() is None {
                assert(!was_reset);
                assert(base == orig);
                assert forall|pc2: u128, seen: Seq<T>|
                    #[trigger] snapshot_valid(orig, pc2, seen)
                        implies snapshot_valid(post, pc2, seen) by {
                    assert(snapshot_valid(resized, pc2, seen));
                    assert(snapshot_valid(before_stamp, pc2, seen));
                    assert(post.touch_log() == before_stamp.touch_log());
                    if pc2 < u128::MAX {
                        assert forall|kk: int|
                            0 <= kk < post@.len() && #[trigger] post.last(kk) <= pc2
                                implies kk < seen.len() && post@[kk] == seen[kk] by {
                            assert(before_stamp.last(kk) == post.last(kk));
                        }
                    }
                }
            }
        }
    }

    /// The indices that may have changed since the counter stood at `pc`:
    /// every index whose last touch is after `pc` is in the result, walking
    /// the checkpoint hierarchy to skip provably unchanged regions.
    pub fn stale_indices(&self, pc: u128) -> (r: Vec<usize>)
        requires
            self.wf(),
            pc < u128::MAX,
        ensures
            forall|j: int| 0 <= j < self@.len() ==> (#[trigger] self.last(j) <= pc
                || r@.contains(j as usize)),
            forall|k: int| 0 <= k < r@.len() ==> #[trigger] r@[k] < self@.len(),
            forall|k1: int, k2: int| 0 <= k1 < k2 < r@.len()
                ==> #[trigger] r@[k1] < #[trigger] r@[k2],
            pc >= self.change_count_spec() ==> r@.len() == 0,
    {
        let n = self.data.len();
        let mut r: Vec<usize> = Vec::new();
        let mut i: usize = 0;
        while i < n
            invariant
                self.wf(),
                n == self@.len(),
                pc < u128::MAX,
                i <= n,
                forall|j: int| 0 <= j < i ==> (#[trigger] self.last(j) <= pc
                    || r@.contains(j as usize)),
                forall|k: int| 0 <= k < r@.len() ==> #[trigger] r@[k] < n,
                forall|k: int| 0 <= k < r@.len() ==> #[trigger] r@[k] < i,
                forall|k1: int, k2: int| 0 <= k1 < k2 < r@.len()
                    ==> #[trigger] r@[k1] < #[trigger] r@[k2],
                pc >= self.change_count_spec() ==> r@.len() == 0,
            decreases n - i,
        {
            proof {
                assert(self.cp_len(4) * stride_of(4) >= n);
                assert(self.cp_len(3) * stride_of(3) >= n);
                assert(self.cp_len(2) * stride_of(2) >= n);
                assert(self.cp_len(1) * stride_of(1) >= n);
                assert(self.cp_len(0) * stride_of(0) >= n);
                lemma_div_bound(i as int, stride_of(4), self.cp_len(4));
                lemma_div_bound(i as int, stride_of(3), self.cp_len(3));
                lemma_div_bound(i as int, stride_of(2), self.cp_len(2));
                lemma_div_bound(i as int, stride_of(1), self.cp_len(1));
                lemma_div_bound(i as int, stride_of(0), self.cp_len(0));
            }
            if self.c4[i / STRIDE4] <= pc {
                let ghost iprev = i as int;
                i = bucket_jump(i, STRIDE4, n);
                proof {
                    lemma_skip_sound(self, pc, 4, iprev, i as int, n as int);
                }
            } else if self.c3[i / STRIDE3] <= pc {
                let ghost iprev = i as int;
                i = bucket_jump(i, STRIDE3, n);
                proof {
                    lemma_skip_sound(self, pc, 3, iprev, i as int, n as int);
                }
            } else if self.c2[i / STRIDE2] <= pc {
                let ghost iprev = i as int;
                i = bucket_jump(i, STRIDE2, n);
                proof {
                    lemma_skip_sound(self, pc, 2, iprev, i as int, n as int);
                }
            } else if self.c1[i / STRIDE1] <= pc {
                let ghost iprev = i as int;
                i = bucket_jump(i, STRIDE1, n);
                proof {
                    lemma_skip_sound(self, pc, 1, iprev, i as int, n as int);
                }
            } else if self.c0[i / STRIDE0] > pc {
                proof {
                    if pc >= self.change_count_spec() {
                        assert(self.cp(0, i as int / 16) <= self.change_count_spec());
                    }
                }
                let ghost rpre = r@;
                r.push(i);
                proof {
                    assert(r@[r@.len() - 1] == i);
                    assert(r@.contains(i));
                    assert forall|j: int| 0 <= j < i + 1 implies (#[trigger] self.last(j) <= pc
                        || r@.contains(j as usize)) by {
                        if j < i && !(self.last(j) <= pc) {
                            let kk = choose|kk: int| 0 <= kk < rpre.len()
                                && rpre[kk] == j as usize;
                            assert(r@[kk] == j as usize);
                            assert(r@.contains(j as usize));
                        }
                    }
                }
                i = i + 1;
            } else {
                let ghost iprev = i as int;
                i = bucket_jump(i, STRIDE0, n);
                proof {
                    lemma_skip_sound(self, pc, 0, iprev, i as int, n as int);
                }
            }
        }
        r
    }

    /// Discard all state, taking a fresh instance identifier; used when a
    /// reduction target is attached to a different source than before.
    fn reset(&mut self)
        ensures
            final(self).wf(),
            final(self)@.len() == 0,
            final(self).change_count_spec() == 0,
            final(self).parent_id_spec() is None,
    {
        *self = Self::new();
    }

    /// As `touch`, but tolerates one index whose recorded touch is still 0
    /// (the slot just created by `push`).
    fn touch_raw(&mut self, i: usize)
        requires
            i < old(self)@.len(),
            old(self).touch_log().len() == old(self)@.len(),
            forall|k: int| 0 <= k < old(self)@.len()
                ==> #[trigger] old(self).last(k) <= old(self).change_count_spec(),
            forall|level: int| 0 <= level < 5 ==> #[trigger] old(self).cp_len(level)
                * stride_of(level) >= old(self)@.len(),
            forall|level: int, b: int| 0 <= level < 5 && 0 <= b < old(self).cp_len(level)
                ==> #[trigger] old(self).cp(level, b) <= old(self).change_count_spec(),
            forall|level: int, k: int| 0 <= level < 5 && 0 <= k < old(self)@.len() && k != i
                ==> old(self).last(k) <= #[trigger] old(self).cp(level, k / stride_of(level)),
            forall|k: int| 0 <= k < old(self)@.len() && k != i as int ==> 1 <= #[trigger] old(
                self).last(k),
        ensures
            final(self).wf(),
            final(self)@ == old(self)@,
            final(self).id_spec() == old(self).id_spec(),
            final(self).parent_id_spec() == old(self).parent_id_spec(),
            final(self).parent_count_spec() == old(self).parent_count_spec(),
            final(self).parent_len_spec() == old(self).parent_len_spec(),
            final(self).change_count_spec() == sat_inc(old(self).change_count_spec()),
            final(self).touch_log() == old(self).touch_log().update(
                i as int, sat_inc(old(self).change_count_spec())),
            forall|level: int| 0 <= level < 5
                ==> #[trigger] final(self).cp_len(level) == old(self).cp_len(level),
            forall|level: int, b: int| 0 <= level < 5 && 0 <= b < old(self).cp_len(level)
                ==> #[trigger] final(self).cp(level, b) >= old(self).cp(level, b),
            forall|level: int| 0 <= level < 5
                ==> #[trigger] final(self).cp(level, i as int / stride_of(level))
                    == final(self).change_count_spec(),
            forall|level: int, b: int| 0 <= level < 5 && 0 <= b < old(self).cp_len(level)
                && b != i as int / stride_of(level)
                ==> #[trigger] final(self).cp(level, b) == old(self).cp(level, b),
    {
        proof {
            assert(self.cp_len(0) * stride_of(0) >= self@.len());
            assert(self.cp_len(1) * stride_of(1) >= self@.len());
            assert(self.cp_len(2) * stride_of(2) >= self@.len());
            assert(self.cp_len(3) * stride_of(3) >= self@.len());
            assert(self.cp_len(4) * stride_of(4) >= self@.len());
            assert((i as int) / 16 < self.cp_len(0) && (i as int) / 256 < self.cp_len(1)
                && (i as int) / 4096 < self.cp_len(2) && (i as int) / 65536 < self.cp_len(3)
                && (i as int) / 1048576 < self.cp_len(4)) by (nonlinear_arith)
                requires
                    0 <= (i as int),
                    i < self@.len(),
                    self.cp_len(0) * 16 >= self@.len(),
                    self.cp_len(1) * 256 >= self@.len(),
                    self.cp_len(2) * 4096 >= self@.len(),
                    self.cp_len(3) * 65536 >= self@.len(),
                    self.cp_len(4) * 1048576 >= self@.len(),
            ;
        }
        let c = if self.count < u128::MAX {
            self.count + 1
        } else {
            self.count
        };
        self.count = c;
        let b0 = i / STRIDE0;
        let b1 = i / STRIDE1;
        let b2 = i / STRIDE2;
        let b3 = i / STRIDE3;
        let b4 = i / STRIDE4;
        let r0 = &mut self.c0[b0];
        *r0 = c;
        let r1 = &mut self.c1[b1];
        *r1 = c;
        let r2 = &mut self.c2[b2];
        *r2 = c;
        let r3 = &mut self.c3[b3];
        *r3 = c;
        let r4 = &mut self.c4[b4];
        *r4 = c;
        proof {
            self.touched@ = self.touched@.update(i as int, c);
        }
        proof {
            let pre = *old(self);
            let post = *self;
            assert(post.touch_log() == pre.touch_log().update(i as int, c));
            assert(post.change_count_spec() == c);
            Self::lemma_cp_stamp(pre, post, i as int, c);
            assert forall|k: int| 0 <= k < post@.len() implies 1 <= #[trigger] post.last(k)
                <= post.change_count_spec() by {
                if k == i as int {
                    assert(post.last(k) == c);
                } else {
                    assert(post.last(k) == pre.last(k));
                    assert(1 <= pre.last(k));
                    assert(pre.last(k) <= pre.change_count_spec());
                }
            }
            assert forall|level: int| 0 <= level < 5 implies #[trigger] post.cp_len(level)
                * stride_of(level) >= post@.len() by {
                assert(post.cp_len(level) == pre.cp_len(level));
                assert(pre.cp_len(level) * stride_of(level) >= pre@.len());
            }
            assert forall|level: int, b: int| 0 <= level < 5 && 0 <= b < post.cp_len(level)
                implies #[trigger] post.cp(level, b) <= post.change_count_spec() by {
                assert(post.cp_len(level) == pre.cp_len(level));
                if b == i as int / stride_of(level) {
                    assert(post.cp(level, b) == c);
                } else {
                    assert(post.cp(level, b) == pre.cp(level, b));
                    assert(pre.cp(level, b) <= pre.change_count_spec());
                }
            }
            assert forall|level: int, k: int| 0 <= level < 5 && 0 <= k < post@.len()
                implies post.last(k) <= #[trigger] post.cp(level, k / stride_of(level)) by {
                let s = stride_of(level);
                assert(pre.cp_len(level) * s >= pre@.len());
                lemma_div_bound(k, s, pre.cp_len(level));
                if k == i as int {
                    assert(post.last(k) == c);
                    assert(post.cp(level, k / s) == c);
                } else {
                    assert(post.last(k) == pre.last(k));
                    if k / s == i as int / s {
                        assert(pre.last(k) <= pre.cp(level, k / s));
                        assert(pre.cp(level, k / s) <= pre.change_count_spec());
                        assert(post.cp(level, k / s) == c);
                    } else {
                        assert(post.cp(level, k / s) == pre.cp(level, k / s));
                        assert(pre.last(k) <= pre.cp(level, k / s));
                    }
                }
            }
            assert forall|level: int, b: int| 0 <= level < 5 && 0 <= b < pre.cp_len(level)
                implies #[trigger] post.cp(level, b) >= pre.cp(level, b) by {
                if b == i as int / stride_of(level) {
                    assert(post.cp(level, b) == c);
                    assert(pre.cp(level, b) <= pre.change_count_spec());
                } else {
                    assert(post.cp(level, b) == pre.cp(level, b));
                }
            }
            assert forall|level: int| 0 <= level < 5
                implies #[trigger] post.cp(level, i as int / stride_of(level))
                    == post.change_count_spec() by {
                let s = stride_of(level);
                assert(pre.cp_len(level) * s >= pre@.len());
                lemma_div_bound(i as int, s, pre.cp_len(level));
                assert(post.cp(level, i as int / s) == c);
            }
            assert forall|level: int, b: int| 0 <= level < 5 && 0 <= b < pre.cp_len(level)
                && b != i as int / stride_of(level)
                implies #[trigger] post.cp(level, b) == pre.cp(level, b) by {}
        }
    }
}

/// Law: hierarchical touch monotonicity. In a well-formed change-tracked
/// vector, every checkpoint level records, for the bucket of any index, at
/// least the counter value of that index's most recent touch — never less
/// than what staleness detection needs — and no checkpoint exceeds the
/// global counter. Together with the contracts of `touch`, `push`, `set` and
/// `swap_remove` — which stamp every level of the touched bucket with the
/// new counter value, itself at least every previously recorded checkpoint —
/// checkpoints may overstate recency but never understate it.
pub proof fn lemma_touch_monotonicity<T>(v: RVec<T>, level: int, i: int)
    requires
        v.wf(),
        0 <= level < 5,
        0 <= i < v@.len(),
    ensures
        v.last(i) <= v.cp(level, i / stride_of(level)),
        v.cp(level, i / stride_of(level)) <= v.change_count_spec(),
{
    assert(v.cp_len(level) * stride_of(level) >= v@.len());
    lemma_div_bound(i, stride_of(level), v.cp_len(level));
}

impl<T> MemoryUser for RVec<T> {
    fn memory_usage(&self) -> MemoryUsage {
        let mut len = self.data.len();
        len = sat_add_usize(len, self.c0.len());
        len = sat_add_usize(len, self.c1.len());
        len = sat_add_usize(len, self.c2.len());
        len = sat_add_usize(len, self.c3.len());
        len = sat_add_usize(len, self.c4.len());
        let mut cap = vec_capacity(&self.data);
        cap = sat_add_usize(cap, vec_capacity(&self.c0));
        cap = sat_add_usize(cap, vec_capacity(&self.c1));
        cap = sat_add_usize(cap, vec_capacity(&self.c2));
        cap = sat_add_usize(cap, vec_capacity(&self.c3));
        cap = sat_add_usize(cap, vec_capacity(&self.c4));
        MemoryUsage { size_of: None, len, capacity: cap }
    }

    fn shrink(&mut self) {
        vec_shrink(&mut self.data);
        vec_shrink(&mut self.c0);
        vec_shrink(&mut self.c1);
        vec_shrink(&mut self.c2);
        vec_shrink(&mut self.c3);
        vec_shrink(&mut self.c4);
    }
}

} // verus!

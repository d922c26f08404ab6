use crate::bitfield::Bitfield;
use crate::bitset::Bitset;
use vstd::prelude::*;

verus! {

/// Whether some block of `blocks` holds index `x`.
pub open spec fn block_covered(blocks: Seq<Bitfield>, x: int) -> bool {
    exists|k: int| 0 <= k < blocks.len() && (#[trigger] blocks[k]).contains(x)
}

/// A set of indices supporting block-level intersection: the one contract
/// behind every index-set representation a query can produce. `intersect`
/// never materializes more than one block at a time, which is what keeps
/// composite queries proportional to their smallest operand.
pub trait IdxSet: Sized {
    /// The representation invariant this set maintains.
    spec fn inv(&self) -> bool;

    /// Whether index `i` is in this set.
    spec fn contains_spec(&self, i: int) -> bool;

    /// A conservative estimate of this set's size in blocks, used only to
    /// pick the cheaper side to drive an intersection.
    fn size(&self) -> usize;

    /// A covering list of blocks: every index of this set has a set bit in
    /// some listed block. Iteration drives from this list, so the cheaper
    /// operand of an intersection supplies it.
    fn block_list(&self) -> (r: Vec<Bitfield>)
        requires
            self.inv(),
        ensures
            forall|k: int| 0 <= k < r@.len() ==> (#[trigger] r@[k]).valid_spec()
                && r@[k].wf(),
            forall|x: int| self.contains_spec(x) ==> #[trigger] block_covered(r@, x),
    ;

    /// The indices of `bf`'s block that are in both `bf` and this set.
    fn intersect(&self, bf: &Bitfield) -> (r: Bitfield)
        requires
            self.inv(),
            bf.valid_spec(),
            bf.wf(),
        ensures
            r.valid_spec(),
            r.wf(),
            r.block() == bf.block(),
            forall|j: int| r.contains(j) <==> self.contains_spec(j) && bf.contains(j),
    ;
}

impl IdxSet for Bitfield {
    open spec fn inv(&self) -> bool {
        self.wf()
    }

    open spec fn contains_spec(&self, i: int) -> bool {
        self.contains(i)
    }

    fn size(&self) -> usize {
        1
    }

    fn block_list(&self) -> (r: Vec<Bitfield>) {
        let mut r = Vec::new();
        if self.valid() {
            r.push(*self);
            proof {
                assert(r@[0] == *self);
                assert forall|x: int| self.contains_spec(x)
                    implies #[trigger] block_covered(r@, x) by {
                    assert(r@[0].contains(x));
                }
            }
        }
        r
    }

    fn intersect(&self, bf: &Bitfield) -> (r: Bitfield) {
        if self.valid() {
            bf.intersect(self)
        } else {
            let r = Bitfield::new_empty(bf.start());
            proof {
                vstd::arithmetic::div_mod::lemma_fundamental_div_mod_converse(
                    bf.block() * 64, 64, bf.block(), 0);
            }
            r
        }
    }
}

impl IdxSet for Bitset {
    open spec fn inv(&self) -> bool {
        self.wf()
    }

    open spec fn contains_spec(&self, i: int) -> bool {
        self.contains(i)
    }

    fn size(&self) -> usize {
        self.num_blocks()
    }

    fn block_list(&self) -> (r: Vec<Bitfield>) {
        let r = self.clone_blocks();
        proof {
            assert forall|x: int| self.contains_spec(x)
                implies #[trigger] block_covered(r@, x) by {
                let k = choose|k: int| 0 <= k < self.blocks().len()
                    && (#[trigger] self.blocks()[k]).contains(x);
                assert(r@[k].contains(x));
            }
        }
        r
    }

    fn intersect(&self, bf: &Bitfield) -> (r: Bitfield) {
        Bitset::intersect(self, bf)
    }
}

/// An `IdxSet` holding the contiguous indices `[start, end)`.
pub struct IdxRange {
    /// The first index of the range.
    pub start: usize,
    /// One past the last index of the range.
    pub end: usize,
}

impl IdxRange {
    /// The range `[start, end)`.
    pub fn new(start: usize, end: usize) -> (r: Self)
        ensures
            r.start == start,
            r.end == end,
    {
        IdxRange { start, end }
    }

    /// The number of blocks this range overlaps.
    pub fn size(&self) -> (r: usize)
        ensures
            self.end <= self.start ==> r == 0,
            self.end > self.start ==> r == (self.end - 1) / 64 + 1 - self.start / 64,
    {
        if self.end <= self.start {
            0
        } else {
            proof {
                vstd::arithmetic::div_mod::lemma_div_is_ordered(
                    self.start as int, self.end as int - 1, 64);
            }
            (self.end - 1) / 64 + 1 - self.start / 64
        }
    }

    /// Split the lowest block's worth of indices off the front of the
    /// range, as a `Bitfield`; `None` once the range is empty.
    pub fn next(&mut self) -> (r: Option<Bitfield>)
        ensures
            old(self).start >= old(self).end ==> r is None && *final(self) == *old(self),
            old(self).start < old(self).end ==> match r {
                Some(bf) => {
                    &&& bf.valid_spec()
                    &&& bf.wf()
                    &&& final(self).end == old(self).end
                    &&& old(self).start < final(self).start <= final(self).end
                    &&& forall|j: int| bf.contains(j)
                        <==> old(self).start <= j < final(self).start
                },
                None => false,
            },
    {
        if self.start >= self.end {
            return None;
        }
        let mut bf = Bitfield::new_empty(self.start);
        let bstart = bf.start();
        let stop = if self.end - bstart > 64 {
            bstart + 64
        } else {
            self.end
        };
        let ghost first = self.start as int;
        let mut i = self.start;
        proof {
            vstd::arithmetic::div_mod::lemma_fundamental_div_mod(first, 64);
        }
        while i < stop
            invariant
                bf.valid_spec(),
                bf.wf(),
                bf.block() == first / 64,
                bstart == (first / 64) * 64,
                bstart <= first <= i <= stop,
                stop <= bstart + 64,
                forall|j: int| bf.contains(j) <==> first <= j < i,
            decreases stop - i,
        {
            proof {
                vstd::arithmetic::div_mod::lemma_fundamental_div_mod_converse(
                    i as int, 64, first / 64, i as int - bstart);
            }
            bf.set(i);
            i = i + 1;
        }
        self.start = stop;
        Some(bf)
    }

    /// Split the highest block's worth of indices off the back of the
    /// range, as a `Bitfield`; `None` once the range is empty.
    pub fn next_back(&mut self) -> (r: Option<Bitfield>)
        ensures
            old(self).start >= old(self).end ==> r is None && *final(self) == *old(self),
            old(self).start < old(self).end ==> match r {
                Some(bf) => {
                    &&& bf.valid_spec()
                    &&& bf.wf()
                    &&& final(self).start == old(self).start
                    &&& final(self).start <= final(self).end < old(self).end
                    &&& forall|j: int| bf.contains(j)
                        <==> final(self).end <= j < old(self).end
                },
                None => false,
            },
    {
        if self.start >= self.end {
            return None;
        }
        let last = self.end - 1;
        let mut bf = Bitfield::new_empty(last);
        let bstart = bf.start();
        let stop = if self.start > bstart {
            self.start
        } else {
            bstart
        };
        let ghost hi = self.end as int;
        let mut i = self.end;
        proof {
            vstd::arithmetic::div_mod::lemma_fundamental_div_mod(hi - 1, 64);
        }
        while i > stop
            invariant
                bf.valid_spec(),
                bf.wf(),
                bf.block() == (hi - 1) / 64,
                bstart == ((hi - 1) / 64) * 64,
                bstart <= stop <= i <= hi,
                hi <= bstart + 64,
                forall|j: int| bf.contains(j) <==> i <= j < hi,
            decreases i,
        {
            i = i - 1;
            proof {
                vstd::arithmetic::div_mod::lemma_fundamental_div_mod_converse(
                    i as int, 64, (hi - 1) / 64, i as int - bstart);
            }
            bf.set(i);
        }
        self.end = stop;
        Some(bf)
    }
}

impl IdxSet for IdxRange {
    open spec fn inv(&self) -> bool {
        true
    }

    open spec fn contains_spec(&self, i: int) -> bool {
        self.start <= i < self.end
    }

    fn size(&self) -> usize {
        IdxRange::size(self)
    }

    fn block_list(&self) -> (r: Vec<Bitfield>) {
        let mut r: Vec<Bitfield> = Vec::new();
        let mut cursor = IdxRange { start: self.start, end: self.end };
        while cursor.start < cursor.end
            invariant
                cursor.end == self.end,
                self.start <= cursor.start,
                forall|k: int| 0 <= k < r@.len() ==> (#[trigger] r@[k]).valid_spec()
                    && r@[k].wf(),
                forall|x: int| self.start <= x < cursor.start
                    ==> #[trigger] block_covered(r@, x),
            decreases cursor.end - cursor.start,
        {
            let ghost pre = r@;
            let ghost lo = cursor.start as int;
            match cursor.next() {
                Some(bf) => {
                    r.push(bf);
                    proof {
                        assert(r@[r@.len() - 1] == bf);
                        assert forall|x: int| self.start <= x < cursor.start
                            implies #[trigger] block_covered(r@, x) by {
                            if x < lo {
                                assert(block_covered(pre, x));
                                let k = choose|k: int| 0 <= k < pre.len()
                                    && (#[trigger] pre[k]).contains(x);
                                assert(r@[k].contains(x));
                            } else {
                                assert(r@[r@.len() - 1].contains(x));
                            }
                        }
                    }
                },
                None => {
                    proof {
                        assert(false);
                    }
                },
            }
        }
        r
    }

    fn intersect(&self, bf: &Bitfield) -> (r: Bitfield) {
        bf.clip(self.start, self.end)
    }
}

/// The `IdxSet` holding nothing; intersecting with it short-circuits to
/// nothing.
pub struct NoIdx;

impl IdxSet for NoIdx {
    open spec fn inv(&self) -> bool {
        true
    }

    open spec fn contains_spec(&self, i: int) -> bool {
        false
    }

    fn size(&self) -> usize {
        0
    }

    fn block_list(&self) -> (r: Vec<Bitfield>) {
        Vec::new()
    }

    fn intersect(&self, bf: &Bitfield) -> (r: Bitfield) {
        Bitfield::new_empty(bf.start())
    }
}

/// The intersection of two `IdxSets`, itself an `IdxSet`; deeper
/// intersections compose by nesting.
pub struct Intersection<A, B> {
    /// One operand.
    pub a: A,
    /// The other operand.
    pub b: B,
}

impl<A: IdxSet, B: IdxSet> Intersection<A, B> {
    /// The intersection of `a` and `b`.
    pub fn new(a: A, b: B) -> (r: Self)
        ensures
            r.a == a,
            r.b == b,
    {
        Intersection { a, b }
    }
}

impl<A: IdxSet, B: IdxSet> IdxSet for Intersection<A, B> {
    open spec fn inv(&self) -> bool {
        self.a.inv() && self.b.inv()
    }

    open spec fn contains_spec(&self, i: int) -> bool {
        self.a.contains_spec(i) && self.b.contains_spec(i)
    }

    fn size(&self) -> usize {
        let sa = self.a.size();
        let sb = self.b.size();
        if sa < sb {
            sa
        } else {
            sb
        }
    }

    fn block_list(&self) -> (r: Vec<Bitfield>) {
        // drive from whichever operand reports the smaller size; through
        // nesting, the smallest operand of a whole chain ends up driving
        let r = if self.a.size() <= self.b.size() {
            self.a.block_list()
        } else {
            self.b.block_list()
        };
        proof {
            assert forall|x: int| self.contains_spec(x)
                implies #[trigger] block_covered(r@, x) by {
                assert(self.a.contains_spec(x) && self.b.contains_spec(x));
            }
        }
        r
    }

    fn intersect(&self, bf: &Bitfield) -> (r: Bitfield) {
        let first = self.a.intersect(bf);
        self.b.intersect(&first)
    }
}

impl<T: IdxSet> IdxSet for Option<T> {
    open spec fn inv(&self) -> bool {
        self matches Some(t) ==> t.inv()
    }

    open spec fn contains_spec(&self, i: int) -> bool {
        match *self {
            Some(t) => t.contains_spec(i),
            None => false,
        }
    }

    fn size(&self) -> usize {
        match self {
            Some(t) => t.size(),
            None => 0,
        }
    }

    fn block_list(&self) -> (r: Vec<Bitfield>) {
        match self {
            Some(t) => t.block_list(),
            None => Vec::new(),
        }
    }

    fn intersect(&self, bf: &Bitfield) -> (r: Bitfield) {
        match self {
            Some(t) => t.intersect(bf),
            None => Bitfield::new_empty(bf.start()),
        }
    }
}

/// Law: intersection is commutative as a set operation. Whichever way two
/// index sets are composed — and so in whichever order two index filters are
/// chained onto a query — the resulting index set holds exactly the same
/// indices.
pub proof fn lemma_intersection_commutes<A: IdxSet, B: IdxSet>(
    x: Intersection<A, B>,
    y: Intersection<B, A>,
)
    requires
        x.a == y.b,
        x.b == y.a,
    ensures
        forall|i: int| #[trigger] x.contains_spec(i) == #[trigger] y.contains_spec(i),
{
}

/// An `IdxSet` holding exactly one index; intersecting with it
/// short-circuits to a single contains-check.
pub struct ExactIdx {
    /// The one index held.
    pub idx: usize,
}

impl IdxSet for ExactIdx {
    open spec fn inv(&self) -> bool {
        true
    }

    open spec fn contains_spec(&self, i: int) -> bool {
        i == self.idx as int
    }

    fn size(&self) -> usize {
        1
    }

    fn block_list(&self) -> (r: Vec<Bitfield>) {
        let mut r = Vec::new();
        let b = Bitfield::new(self.idx);
        r.push(b);
        proof {
            assert(r@[0] == b);
            assert forall|x: int| self.contains_spec(x)
                implies #[trigger] block_covered(r@, x) by {
                assert(r@[0].contains(x));
            }
        }
        r
    }

    fn intersect(&self, bf: &Bitfield) -> (r: Bitfield) {
        let mine = Bitfield::new(self.idx);
        let r = bf.intersect(&mine);
        proof {
            assert forall|j: int| r.contains(j)
                <==> self.contains_spec(j) && bf.contains(j) by {}
        }
        r
    }
}

/// Every index of an `IdxSet`, materialized by driving over its block cover
/// and probing each block through `intersect` — for an `Intersection`, the
/// cover comes from its cheapest operand, so the work is proportional to the
/// smaller side.
pub fn idx_set_indices<S: IdxSet>(s: &S) -> (v: Vec<usize>)
    requires
        s.inv(),
    ensures
        forall|x: usize| v@.contains(x) <==> s.contains_spec(x as int),
{
    let blocks = s.block_list();
    let mut v: Vec<usize> = Vec::new();
    let mut k: usize = 0;
    while k < blocks.len()
        invariant
            s.inv(),
            k <= blocks@.len(),
            forall|q: int| 0 <= q < blocks@.len() ==> (#[trigger] blocks@[q]).valid_spec()
                && blocks@[q].wf(),
            forall|x: int| s.contains_spec(x) ==> #[trigger] block_covered(blocks@, x),
            forall|x: usize| #[trigger] v@.contains(x) <==> (s.contains_spec(x as int)
                && block_covered(blocks@.subrange(0, k as int), x as int)),
        decreases blocks@.len() - k,
    {
        let ghost pre = v@;
        let probe = s.intersect(&blocks[k]);
        proof {
            crate::bitfield::lemma_bitfield_iteration(probe);
        }
        let mut idxs = probe.indices();
        proof {
            assert forall|p: int| 0 <= p < idxs@.len()
                implies probe.contains(#[trigger] idxs@[p] as int) by {
                assert(idxs@.map_values(|y: usize| y as int)[p] == probe.idx_seq()[p]);
                assert(probe.idx_seq().contains(probe.idx_seq()[p]));
            }
            assert forall|x: int| probe.contains(x)
                implies idxs@.map_values(|y: usize| y as int).contains(x) by {
                assert(probe.idx_seq().contains(x));
            }
        }
        let mut t: usize = 0;
        while t < idxs.len()
            invariant
                t <= idxs@.len(),
                forall|p: int| 0 <= p < idxs@.len()
                    ==> probe.contains(#[trigger] idxs@[p] as int),
                forall|x: int| probe.contains(x) ==> idxs@.map_values(
                    |y: usize| y as int).contains(x),
                forall|x: usize| #[trigger] v@.contains(x) <==> (pre.contains(x)
                    || idxs@.subrange(0, t as int).contains(x)),
            decreases idxs@.len() - t,
        {
            let ghost vpre = v@;
            v.push(idxs[t]);
            proof {
                assert(v@[v@.len() - 1] == idxs@[t as int]);
                assert forall|x: usize| #[trigger] v@.contains(x) <==> (pre.contains(x)
                    || idxs@.subrange(0, t as int + 1).contains(x)) by {
                    if v@.contains(x) {
                        let p = choose|p: int| 0 <= p < v@.len() && v@[p] == x;
                        if p < v@.len() - 1 {
                            assert(vpre[p] == x);
                            assert(vpre.contains(x));
                        } else {
                            assert(idxs@.subrange(0, t as int + 1)[t as int] == x);
                        }
                    } else {
                        if vpre.contains(x) {
                            let p = choose|p: int| 0 <= p < vpre.len() && vpre[p] == x;
                            assert(v@[p] == x);
                        }
                        assert(!vpre.contains(x));
                    }
                    if pre.contains(x) {
                        assert(vpre.contains(x));
                        let q = choose|q: int| 0 <= q < vpre.len() && vpre[q] == x;
                        assert(v@[q] == x);
                    }
                    if idxs@.subrange(0, t as int + 1).contains(x) {
                        let p = choose|p: int| 0 <= p < t + 1
                            && #[trigger] idxs@.subrange(0, t as int + 1)[p] == x;
                        if p < t {
                            assert(idxs@.subrange(0, t as int)[p] == x);
                            assert(idxs@.subrange(0, t as int).contains(x));
                            assert(vpre.contains(x));
                            let q = choose|q: int| 0 <= q < vpre.len() && vpre[q] == x;
                            assert(v@[q] == x);
                        } else {
                            assert(v@[v@.len() - 1] == x);
                        }
                    }
                }
            }
            t = t + 1;
        }
        proof {
            assert(idxs@.subrange(0, idxs@.len() as int) =~= idxs@);
            assert forall|x: usize| #[trigger] v@.contains(x) <==> (s.contains_spec(x as int)
                && block_covered(blocks@.subrange(0, k as int + 1), x as int)) by {
                let sub1 = blocks@.subrange(0, k as int + 1);
                if v@.contains(x) {
                    if pre.contains(x) {
                        assert(block_covered(blocks@.subrange(0, k as int), x as int));
                        let q = choose|q: int| 0 <= q < k
                            && (#[trigger] blocks@.subrange(0, k as int)[q]).contains(
                                x as int);
                        assert(sub1[q].contains(x as int));
                        assert(block_covered(sub1, x as int));
                    } else {
                        assert(idxs@.contains(x));
                        let p = choose|p: int| 0 <= p < idxs@.len() && idxs@[p] == x;
                        assert(probe.contains(idxs@[p] as int));
                        assert(sub1[k as int].contains(x as int));
                        assert(block_covered(sub1, x as int));
                    }
                } else {
                    if s.contains_spec(x as int) && block_covered(sub1, x as int) {
                        let q = choose|q: int| 0 <= q < sub1.len()
                            && (#[trigger] sub1[q]).contains(x as int);
                        if q < k {
                            assert(blocks@.subrange(0, k as int)[q].contains(x as int));
                            assert(block_covered(blocks@.subrange(0, k as int), x as int));
                            assert(false);
                        } else {
                            assert(blocks@[k as int].contains(x as int));
                            assert(probe.contains(x as int));
                            assert(probe.idx_seq().contains(x as int));
                            let p = choose|p: int| 0 <= p < probe.idx_seq().len()
                                && probe.idx_seq()[p] == x as int;
                            assert(idxs@.map_values(|y: usize| y as int)[p] == x as int);
                            assert(idxs@[p] == x);
                            assert(idxs@.contains(x));
                            assert(false);
                        }
                    }
                }
            }
        }
        k = k + 1;
    }
    proof {
        assert(blocks@.subrange(0, blocks@.len() as int) =~= blocks@);
        assert forall|x: usize| v@.contains(x) <==> s.contains_spec(x as int) by {
            if s.contains_spec(x as int) {
                assert(block_covered(blocks@, x as int));
            }
        }
    }
    v
}

} // verus!

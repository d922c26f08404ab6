use crate::bitfield::Bitfield;
use crate::memory_usage::{sat_add_usize, vec_capacity, vec_shrink, MemoryUsage, MemoryUser};
use vstd::prelude::*;

verus! {

/// A sparse bitset: a sorted sequence of non-overlapping, non-empty
/// `Bitfield` blocks, ordered by block number. Membership, insertion and
/// removal locate the block by binary search; block-level intersection is
/// the primitive that query intersection composes from.
pub struct Bitset {
    bits: Vec<Bitfield>,
}

/// A double-ended cursor over the blocks of a `Bitset`.
pub struct BitsetIter {
    bits: Vec<Bitfield>,
    front: usize,
    back: usize,
}

/// The number of indices held across a sequence of blocks.
pub open spec fn total_ones(s: Seq<Bitfield>) -> int
    decreases s.len(),
{
    if s.len() == 0 {
        0
    } else {
        total_ones(s.drop_last()) + s.last().idx_seq().len()
    }
}

proof fn lemma_total_ones_update(s: Seq<Bitfield>, i: int, b: Bitfield)
    requires
        0 <= i < s.len(),
    ensures
        total_ones(s.update(i, b)) == total_ones(s) - s[i].idx_seq().len()
            + b.idx_seq().len(),
    decreases s.len(),
{
    let upd = s.update(i, b);
    if i == s.len() - 1 {
        assert(upd.drop_last() =~= s.drop_last());
        assert(upd.last() == b);
    } else {
        lemma_total_ones_update(s.drop_last(), i, b);
        assert(upd.drop_last() =~= s.drop_last().update(i, b));
        assert(upd.last() == s.last());
        assert(s.drop_last()[i] == s[i]);
    }
}

proof fn lemma_total_ones_insert(s: Seq<Bitfield>, i: int, b: Bitfield)
    requires
        0 <= i <= s.len(),
    ensures
        total_ones(s.insert(i, b)) == total_ones(s) + b.idx_seq().len(),
    decreases s.len(),
{
    let ins = s.insert(i, b);
    if i == s.len() {
        assert(ins.drop_last() =~= s);
        assert(ins.last() == b);
    } else {
        lemma_total_ones_insert(s.drop_last(), i, b);
        assert(ins.drop_last() =~= s.drop_last().insert(i, b));
        assert(ins.last() == s.last());
    }
}

proof fn lemma_total_ones_remove(s: Seq<Bitfield>, i: int)
    requires
        0 <= i < s.len(),
    ensures
        total_ones(s.remove(i)) == total_ones(s) - s[i].idx_seq().len(),
    decreases s.len(),
{
    let rem = s.remove(i);
    if i == s.len() - 1 {
        assert(rem =~= s.drop_last());
    } else {
        lemma_total_ones_remove(s.drop_last(), i);
        assert(rem.drop_last() =~= s.drop_last().remove(i));
        assert(rem.last() == s.last());
        assert(s.drop_last()[i] == s[i]);
    }
}

impl Bitset {
    /// The blocks.
    pub closed spec fn blocks(&self) -> Seq<Bitfield> {
        self.bits@
    }

    /// Sorted strictly by block number, every block valid, no block with
    /// zero bits set.
    pub open spec fn wf(&self) -> bool {
        &&& (forall|k: int| 0 <= k < self.blocks().len() ==> (#[trigger] self.blocks()[k]).valid_spec()
            && self.blocks()[k].wf())
        &&& (forall|k1: int, k2: int| 0 <= k1 < k2 < self.blocks().len()
            ==> (#[trigger] self.blocks()[k1]).block() < (#[trigger] self.blocks()[k2]).block())
        &&& (forall|k: int| 0 <= k < self.blocks().len()
            ==> (#[trigger] self.blocks()[k]).bits_spec() != 0)
    }

    /// Whether index `i` is in this set.
    pub open spec fn contains(&self, i: int) -> bool {
        exists|k: int| 0 <= k < self.blocks().len() && (#[trigger] self.blocks()[k]).contains(i)
    }

    /// A new empty bitset.
    pub fn new() -> (r: Self)
        ensures
            r.wf(),
            forall|i: int| !r.contains(i),
            r.blocks().len() == 0,
    {
        Bitset { bits: Vec::new() }
    }

    /// The number of blocks (a size estimate for intersection ordering).
    pub fn num_blocks(&self) -> (r: usize)
        ensures
            r == self.blocks().len(),
    {
        self.bits.len()
    }

    /// The number of bits set, stopping at the top of `usize`.
    pub fn len(&self) -> (r: usize)
        ensures
            r as int == if total_ones(self.blocks()) <= usize::MAX as int {
                total_ones(self.blocks())
            } else {
                usize::MAX as int
            },
    {
        let mut r: usize = 0;
        let mut k: usize = 0;
        while k < self.bits.len()
            invariant
                k <= self.blocks().len(),
                r as int == if total_ones(self.blocks().subrange(0, k as int))
                    <= usize::MAX as int {
                    total_ones(self.blocks().subrange(0, k as int))
                } else {
                    usize::MAX as int
                },
            decreases self.blocks().len() - k,
        {
            let o = self.bits[k].ones();
            r = sat_add_usize(r, o);
            proof {
                let pre = self.blocks().subrange(0, k as int);
                let cur = self.blocks().subrange(0, k as int + 1);
                assert(cur.drop_last() =~= pre);
                assert(cur.last() == self.blocks()[k as int]);
            }
            k = k + 1;
        }
        proof {
            assert(self.blocks().subrange(0, self.blocks().len() as int)
                =~= self.blocks());
        }
        r
    }

    /// True if this set holds no blocks — by the no-empty-block invariant,
    /// exactly when no bit is set.
    pub fn is_empty(&self) -> (r: bool)
        ensures
            r == (self.blocks().len() == 0),
            r ==> forall|i: int| !self.contains(i),
    {
        self.bits.len() == 0
    }

    /// The position of the block with block number `blk`, or where it would
    /// be inserted.
    fn search(&self, blk: usize) -> (r: (bool, usize))
        requires
            self.wf(),
        ensures
            r.1 <= self.blocks().len(),
            r.0 ==> r.1 < self.blocks().len() && self.blocks()[r.1 as int].block() == blk,
            !r.0 ==> forall|k: int| 0 <= k < self.blocks().len()
                ==> (#[trigger] self.blocks()[k]).block() != blk,
            forall|k: int| 0 <= k < r.1 ==> (#[trigger] self.blocks()[k]).block() < blk,
            forall|k: int| r.1 <= k < self.blocks().len() && !(r.0 && k == r.1)
                ==> (#[trigger] self.blocks()[k]).block() > blk,
    {
        let mut lo: usize = 0;
        let mut hi: usize = self.bits.len();
        while lo < hi
            invariant
                self.wf(),
                lo <= hi <= self.blocks().len(),
                forall|k: int| 0 <= k < lo ==> (#[trigger] self.blocks()[k]).block() < blk,
                forall|k: int| hi <= k < self.blocks().len()
                    ==> (#[trigger] self.blocks()[k]).block() > blk,
            decreases hi - lo,
        {
            let mid = lo + (hi - lo) / 2;
            let b = self.bits[mid].block_num();
            if b < blk {
                lo = mid + 1;
            } else if b > blk {
                hi = mid;
            } else {
                proof {
                    assert forall|k: int| 0 <= k < mid
                        implies (#[trigger] self.blocks()[k]).block() < blk by {
                        assert(self.blocks()[k].block() < self.blocks()[mid as int].block());
                    }
                    assert forall|k: int| mid < k < self.blocks().len()
                        implies (#[trigger] self.blocks()[k]).block() > blk by {
                        assert(self.blocks()[k].block() > self.blocks()[mid as int].block());
                    }
                }
                return (true, mid);
            }
        }
        (false, lo)
    }

    /// Whether index `i` is in this set.
    pub fn get(&self, i: usize) -> (r: bool)
        requires
            self.wf(),
        ensures
            r == self.contains(i as int),
    {
        let (found, pos) = self.search(i / 64);
        if found {
            let r = self.bits[pos].get(i);
            proof {
                if !r {
                    assert forall|k: int| 0 <= k < self.blocks().len()
                        implies !(#[trigger] self.blocks()[k]).contains(i as int) by {
                        if self.blocks()[k].contains(i as int) {
                            assert(self.blocks()[k].block() == i as int / 64);
                            assert(k == pos as int);
                        }
                    }
                }
            }
            r
        } else {
            proof {
                assert forall|k: int| 0 <= k < self.blocks().len()
                    implies !(#[trigger] self.blocks()[k]).contains(i as int) by {
                    if self.blocks()[k].contains(i as int) {
                        assert(self.blocks()[k].block() == i as int / 64);
                    }
                }
            }
            false
        }
    }

    /// Set bit `i`.
    pub fn set(&mut self, i: usize)
        requires
            old(self).wf(),
        ensures
            final(self).wf(),
            forall|j: int| final(self).contains(j) <==> old(self).contains(j) || j == i as int,
            total_ones(final(self).blocks()) == total_ones(old(self).blocks())
                + if old(self).contains(i as int) {
                    0int
                } else {
                    1
                },
    {
        let (found, pos) = self.search(i / 64);
        proof {
            // membership of `i` is decided by its own block alone
            if old(self).contains(i as int) {
                let kk = choose|kk: int| 0 <= kk < old(self).blocks().len()
                    && #[trigger] old(self).blocks()[kk].contains(i as int);
                assert(old(self).blocks()[kk].block() == i as int / 64);
            }
        }
        if found {
            let ghost pre = self.bits@;
            let r = &mut self.bits[pos];
            r.set(i);
            proof {
                lemma_total_ones_update(pre, pos as int, self.bits@[pos as int]);
                if old(self).contains(i as int) {
                    let kk = choose|kk: int| 0 <= kk < pre.len()
                        && #[trigger] pre[kk].contains(i as int);
                    assert(kk == pos as int);
                }
            }
            proof {
                let post = self.bits@;
                let sb = *self;
                assert forall|j: int| sb.contains(j)
                    <==> old(self).contains(j) || j == i as int by {
                    if old(self).contains(j) {
                        let k = choose|k: int| 0 <= k < old(self).blocks().len()
                            && #[trigger] old(self).blocks()[k].contains(j);
                        assert(sb.blocks()[k].contains(j));
                        assert(sb.contains(j));
                    }
                    if sb.contains(j) && j != i as int {
                        let k = choose|k: int| 0 <= k < sb.blocks().len()
                            && #[trigger] sb.blocks()[k].contains(j);
                        assert(old(self).blocks()[k].contains(j));
                        assert(old(self).contains(j));
                    }
                    if j == i as int {
                        assert(sb.blocks()[pos as int].contains(j));
                        assert(sb.contains(j));
                    }
                }
                assert forall|k: int| 0 <= k < post.len()
                    implies (#[trigger] post[k]).valid_spec() && post[k].wf()
                        && post[k].bits_spec() != 0 by {
                    if k != pos as int {
                        assert(post[k] == pre[k]);
                    } else {
                        crate::bitfield::lemma_nonzero_of_contains(post[k], i as int);
                    }
                }
                assert forall|k1: int, k2: int| 0 <= k1 < k2 < post.len()
                    implies (#[trigger] post[k1]).block() < (#[trigger] post[k2]).block() by {
                    assert(post[k1].block() == pre[k1].block());
                    assert(post[k2].block() == pre[k2].block());
                }
                assert(self.wf());
            }
        } else {
            let ghost pre = self.bits@;
            let nb = Bitfield::new(i);
            self.bits.insert(pos, nb);
            proof {
                lemma_total_ones_insert(pre, pos as int, nb);
                if old(self).contains(i as int) {
                    let kk = choose|kk: int| 0 <= kk < pre.len()
                        && #[trigger] pre[kk].contains(i as int);
                    assert(pre[kk].block() == i as int / 64);
                }
                let post = self.bits@;
                let sb = *self;
                assert forall|j: int| sb.contains(j)
                    <==> old(self).contains(j) || j == i as int by {
                    if old(self).contains(j) {
                        let k = choose|k: int| 0 <= k < old(self).blocks().len()
                            && #[trigger] old(self).blocks()[k].contains(j);
                        if k < pos {
                            assert(sb.blocks()[k].contains(j));
                        } else {
                            assert(sb.blocks()[k + 1].contains(j));
                        }
                        assert(sb.contains(j));
                    }
                    if sb.contains(j) && j != i as int {
                        let k = choose|k: int| 0 <= k < sb.blocks().len()
                            && #[trigger] sb.blocks()[k].contains(j);
                        if k != pos {
                            if k < pos {
                                assert(old(self).blocks()[k].contains(j));
                            } else {
                                assert(old(self).blocks()[k - 1].contains(j));
                            }
                            assert(old(self).contains(j));
                        }
                    }
                    if j == i as int {
                        assert(sb.blocks()[pos as int].contains(j));
                        assert(sb.contains(j));
                    }
                }
                assert forall|k1: int, k2: int| 0 <= k1 < k2 < post.len()
                    implies (#[trigger] post[k1]).block() < (#[trigger] post[k2]).block() by {
                    if k1 == pos {
                        assert(post[k2] == pre[k2 - 1]);
                    } else if k2 == pos {
                        assert(post[k1] == pre[k1]);
                    } else if k1 < pos && k2 > pos {
                        assert(post[k1] == pre[k1] && post[k2] == pre[k2 - 1]);
                    } else if k2 < pos {
                        assert(post[k1] == pre[k1] && post[k2] == pre[k2]);
                    } else {
                        assert(post[k1] == pre[k1 - 1] && post[k2] == pre[k2 - 1]);
                    }
                }
                assert forall|k: int| 0 <= k < post.len()
                    implies (#[trigger] post[k]).valid_spec() && post[k].wf()
                        && post[k].bits_spec() != 0 by {
                    if k < pos {
                        assert(post[k] == pre[k]);
                    } else if k > pos {
                        assert(post[k] == pre[k - 1]);
                    } else {
                        crate::bitfield::lemma_nonzero_of_contains(post[k], i as int);
                    }
                }
                assert(self.wf());
            }
        }
    }

    /// Clear bit `i`; a block left empty is removed.
    pub fn unset(&mut self, i: usize)
        requires
            old(self).wf(),
        ensures
            final(self).wf(),
            forall|j: int| final(self).contains(j) <==> old(self).contains(j) && j != i as int,
            total_ones(final(self).blocks()) == total_ones(old(self).blocks())
                - if old(self).contains(i as int) {
                    1int
                } else {
                    0
                },
    {
        let (found, pos) = self.search(i / 64);
        proof {
            if old(self).contains(i as int) {
                let kk = choose|kk: int| 0 <= kk < old(self).blocks().len()
                    && #[trigger] old(self).blocks()[kk].contains(i as int);
                assert(old(self).blocks()[kk].block() == i as int / 64);
            }
        }
        if !found {
            proof {
                let sb = *self;
                assert forall|j: int| sb.contains(j)
                    <==> old(self).contains(j) && j != i as int by {
                    if old(self).contains(i as int) {
                        let k = choose|k: int| 0 <= k < old(self).blocks().len()
                            && #[trigger] old(self).blocks()[k].contains(i as int);
                        assert(old(self).blocks()[k].block() == i as int / 64);
                    }
                }
            }
            return;
        }
        let ghost pre = self.bits@;
        let mut nb = self.bits[pos];
        nb.unset(i);
        if nb.ones() == 0 {
            proof {
                crate::bitfield::lemma_bitfield_iteration(nb);
            }
            self.bits.remove(pos);
            proof {
                lemma_total_ones_remove(pre, pos as int);
                if old(self).contains(i as int) {
                    let kk = choose|kk: int| 0 <= kk < pre.len()
                        && #[trigger] pre[kk].contains(i as int);
                    assert(kk == pos as int);
                }
                let post = self.bits@;
                let sb = *self;
                assert forall|j: int| !nb.contains(j) by {
                    if nb.contains(j) {
                        assert(nb.idx_seq().contains(j));
                    }
                }
                assert forall|j: int| sb.contains(j)
                    <==> old(self).contains(j) && j != i as int by {
                    if old(self).contains(j) && j != i as int {
                        let k = choose|k: int| 0 <= k < old(self).blocks().len()
                            && #[trigger] old(self).blocks()[k].contains(j);
                        if k < pos {
                            assert(sb.blocks()[k].contains(j));
                            assert(sb.contains(j));
                        } else if k > pos {
                            assert(sb.blocks()[k - 1].contains(j));
                            assert(sb.contains(j));
                        } else {
                            assert(nb.contains(j));
                        }
                    }
                    if sb.contains(j) {
                        let k = choose|k: int| 0 <= k < sb.blocks().len()
                            && #[trigger] sb.blocks()[k].contains(j);
                        if k < pos {
                            assert(old(self).blocks()[k].contains(j));
                            assert(old(self).contains(j));
                        } else {
                            assert(old(self).blocks()[k + 1].contains(j));
                            assert(old(self).contains(j));
                        }
                        if j == i as int {
                            assert(pre[if k < pos { k } else { k + 1 }].block() == i as int / 64);
                        }
                    }
                }
                assert forall|k: int| 0 <= k < post.len()
                    implies (#[trigger] post[k]).valid_spec() && post[k].wf() by {
                    if k < pos {
                        assert(post[k] == pre[k]);
                    } else {
                        assert(post[k] == pre[k + 1]);
                    }
                }
                assert forall|k1: int, k2: int| 0 <= k1 < k2 < post.len()
                    implies (#[trigger] post[k1]).block() < (#[trigger] post[k2]).block() by {
                    assert(post[k1] == pre[if k1 < pos { k1 } else { k1 + 1 }]);
                    assert(post[k2] == pre[if k2 < pos { k2 } else { k2 + 1 }]);
                }
                assert forall|k: int| 0 <= k < post.len()
                    implies (#[trigger] post[k]).bits_spec() != 0 by {
                    if k < pos {
                        assert(post[k] == pre[k]);
                    } else {
                        assert(post[k] == pre[k + 1]);
                    }
                }
                assert(self.wf());
            }
        } else {
            let r = &mut self.bits[pos];
            *r = nb;
            proof {
                lemma_total_ones_update(pre, pos as int, nb);
                if old(self).contains(i as int) {
                    let kk = choose|kk: int| 0 <= kk < pre.len()
                        && #[trigger] pre[kk].contains(i as int);
                    assert(kk == pos as int);
                }
                let post = self.bits@;
                let sb = *self;
                assert(nb.bits_spec() != 0) by {
                    crate::bitfield::lemma_bitfield_iteration(nb);
                    assert(nb.idx_seq().len() > 0);
                    assert(nb.idx_seq().contains(nb.idx_seq()[0]));
                    assert(nb.contains(nb.idx_seq()[0]));
                    crate::bitfield::lemma_nonzero_of_contains(nb, nb.idx_seq()[0]);
                }
                assert forall|j: int| sb.contains(j)
                    <==> old(self).contains(j) && j != i as int by {
                    if old(self).contains(j) && j != i as int {
                        let k = choose|k: int| 0 <= k < old(self).blocks().len()
                            && #[trigger] old(self).blocks()[k].contains(j);
                        assert(sb.blocks()[k].contains(j));
                        assert(sb.contains(j));
                    }
                    if sb.contains(j) {
                        let k = choose|k: int| 0 <= k < sb.blocks().len()
                            && #[trigger] sb.blocks()[k].contains(j);
                        if k == pos as int {
                            assert(old(self).blocks()[k].contains(j) && j != i as int);
                            assert(old(self).contains(j));
                        } else {
                            assert(old(self).blocks()[k].contains(j));
                            assert(old(self).contains(j));
                            if j == i as int {
                                assert(pre[k].block() == i as int / 64);
                            }
                        }
                    }
                }
                assert forall|k: int| 0 <= k < post.len()
                    implies (#[trigger] post[k]).valid_spec() && post[k].wf()
                        && post[k].bits_spec() != 0 by {
                    if k != pos as int {
                        assert(post[k] == pre[k]);
                    }
                }
                assert forall|k1: int, k2: int| 0 <= k1 < k2 < post.len()
                    implies (#[trigger] post[k1]).block() < (#[trigger] post[k2]).block() by {
                    assert(post[k1].block() == pre[k1].block());
                    assert(post[k2].block() == pre[k2].block());
                }
                assert(self.wf());
            }
        }
    }

    /// Block-level intersection with one `Bitfield`: the block of this set
    /// with the same block number, intersected, or an empty block anchored
    /// at the same position.
    pub fn intersect(&self, bf: &Bitfield) -> (r: Bitfield)
        requires
            self.wf(),
            bf.valid_spec(),
            bf.wf(),
        ensures
            r.valid_spec(),
            r.wf(),
            r.block() == bf.block(),
            forall|j: int| r.contains(j) <==> self.contains(j) && bf.contains(j),
    {
        let start = bf.start();
        let (found, pos) = self.search(start / 64);
        proof {
            vstd::arithmetic::div_mod::lemma_fundamental_div_mod_converse(
                start as int, 64, bf.block(), 0);
        }
        if found {
            let r = bf.intersect(&self.bits[pos]);
            proof {
                assert forall|j: int| r.contains(j) <==> self.contains(j) && bf.contains(j) by {
                    if self.contains(j) && bf.contains(j) {
                        let k = choose|k: int| 0 <= k < self.blocks().len()
                            && #[trigger] self.blocks()[k].contains(j);
                        assert(self.blocks()[k].block() == j / 64);
                        assert(j / 64 == bf.block());
                        assert(k == pos as int);
                    }
                }
            }
            r
        } else {
            let r = Bitfield::new_empty(start);
            proof {
                assert forall|j: int| r.contains(j) <==> self.contains(j) && bf.contains(j) by {
                    if self.contains(j) && bf.contains(j) {
                        let k = choose|k: int| 0 <= k < self.blocks().len()
                            && #[trigger] self.blocks()[k].contains(j);
                        assert(self.blocks()[k].block() == j / 64);
                        assert(self.blocks()[k].block() == bf.block());
                    }
                }
            }
            r
        }
    }

    /// All indices of this set; an index is listed exactly when the set
    /// contains it.
    pub fn indices(&self) -> (v: Vec<usize>)
        requires
            self.wf(),
        ensures
            forall|x: usize| v@.contains(x) <==> self.contains(x as int),
    {
        let mut v: Vec<usize> = Vec::new();
        let mut k: usize = 0;
        while k < self.bits.len()
            invariant
                self.wf(),
                k <= self.blocks().len(),
                forall|x: usize| v@.contains(x) <==> exists|kk: int| 0 <= kk < k
                    && (#[trigger] self.blocks()[kk]).contains(x as int),
            decreases self.blocks().len() - k,
        {
            let ghost pre = v@;
            let bf = self.bits[k];
            let mut idxs = bf.indices();
            proof {
                crate::bitfield::lemma_bitfield_iteration(bf);
            }
            let mut t: usize = 0;
            while t < idxs.len()
                invariant
                    t <= idxs@.len(),
                    forall|x: usize| #[trigger] v@.contains(x) <==> (pre.contains(x)
                        || idxs@.subrange(0, t as int).contains(x)),
                decreases idxs@.len() - t,
            {
                let ghost vpre = v@;
                v.push(idxs[t]);
                proof {
                    assert(v@[v@.len() - 1] == idxs@[t as int]);
                    assert forall|x: usize| #[trigger] v@.contains(x) <==> (pre.contains(x)
                        || idxs@.subrange(0, t as int + 1).contains(x)) by {
                        if v@.contains(x) {
                            let p = choose|p: int| 0 <= p < v@.len() && v@[p] == x;
                            if p < v@.len() - 1 {
                                assert(vpre[p] == x);
                                assert(vpre.contains(x));
                            } else {
                                assert(idxs@.subrange(0, t as int + 1)[t as int] == x);
                            }
                        } else {
                            if vpre.contains(x) {
                                let p = choose|p: int| 0 <= p < vpre.len() && vpre[p] == x;
                                assert(v@[p] == x);
                                assert(v@.contains(x));
                            }
                            assert(!vpre.contains(x));
                        }
                        if pre.contains(x) {
                            let p = choose|p: int| 0 <= p < pre.len() && pre[p] == x;
                            assert(vpre.contains(x));
                            let q = choose|q: int| 0 <= q < vpre.len() && vpre[q] == x;
                            assert(v@[q] == x);
                        }
                        if idxs@.subrange(0, t as int + 1).contains(x) {
                            let p = choose|p: int| 0 <= p < t + 1
                                && #[trigger] idxs@.subrange(0, t as int + 1)[p] == x;
                            if p < t {
                                assert(idxs@.subrange(0, t as int)[p] == x);
                                assert(idxs@.subrange(0, t as int).contains(x));
                                assert(vpre.contains(x));
                                let q = choose|q: int| 0 <= q < vpre.len() && vpre[q] == x;
                                assert(v@[q] == x);
                            } else {
                                assert(v@[v@.len() - 1] == x);
                            }
                        }
                    }
                }
                t = t + 1;
            }
            proof {
                assert(idxs@.subrange(0, idxs@.len() as int) =~= idxs@);
                assert forall|x: usize| v@.contains(x) <==> exists|kk: int| 0 <= kk < k + 1
                    && (#[trigger] self.blocks()[kk]).contains(x as int) by {
                    if v@.contains(x) {
                        if pre.contains(x) {
                            let kk = choose|kk: int| 0 <= kk < k
                                && (#[trigger] self.blocks()[kk]).contains(x as int);
                            assert(self.blocks()[kk].contains(x as int));
                        } else {
                            assert(idxs@.contains(x));
                            let p = choose|p: int| 0 <= p < idxs@.len() && idxs@[p] == x;
                            assert(idxs@.map_values(|y: usize| y as int)[p] == x as int);
                            assert(bf.idx_seq().contains(x as int));
                            assert(bf.contains(x as int));
                        }
                    } else {
                        assert(!pre.contains(x));
                        if exists|kk: int| 0 <= kk < k + 1
                            && (#[trigger] self.blocks()[kk]).contains(x as int) {
                            let kk = choose|kk: int| 0 <= kk < k + 1
                                && (#[trigger] self.blocks()[kk]).contains(x as int);
                            if kk == k as int {
                                assert(bf.idx_seq().contains(x as int));
                                let p = choose|p: int| 0 <= p < bf.idx_seq().len()
                                    && bf.idx_seq()[p] == x as int;
                                assert(idxs@.map_values(|y: usize| y as int)[p] == x as int);
                                assert(idxs@[p] == x);
                                assert(idxs@.contains(x));
                                assert(false);
                            }
                        }
                    }
                }
            }
            k = k + 1;
        }
        v
    }

    /// A double-ended iterator over the blocks.
    pub fn iter(&self) -> (r: BitsetIter)
        ensures
            r.wf(),
            r.remaining() == self.blocks(),
    {
        let bits = self.clone_blocks();
        let back = bits.len();
        BitsetIter { bits, front: 0, back }
    }

    pub(crate) fn clone_blocks(&self) -> (r: Vec<Bitfield>)
        ensures
            r@ == self.blocks(),
    {
        let mut r: Vec<Bitfield> = Vec::new();
        let mut k: usize = 0;
        while k < self.bits.len()
            invariant
                k <= self.blocks().len(),
                r@ == self.blocks().subrange(0, k as int),
            decreases self.blocks().len() - k,
        {
            r.push(self.bits[k]);
            proof {
                assert(r@ =~= self.blocks().subrange(0, k as int + 1));
            }
            k = k + 1;
        }
        proof {
            assert(r@ =~= self.blocks());
        }
        r
    }
}

impl Clone for Bitset {
    /// A clone observes a stable snapshot of the contents.
    fn clone(&self) -> (r: Self)
        ensures
            r.blocks() == self.blocks(),
    {
        Bitset { bits: self.clone_blocks() }
    }
}

impl BitsetIter {
    /// The blocks not yet yielded.
    pub closed spec fn remaining(&self) -> Seq<Bitfield> {
        self.bits@.subrange(self.front as int, self.back as int)
    }

    /// Whether the cursor bounds are ordered.
    pub closed spec fn wf(&self) -> bool {
        self.front <= self.back <= self.bits@.len()
    }

    /// Yield the first remaining block.
    pub fn next(&mut self) -> (r: Option<Bitfield>)
        ensures
            match r {
                Some(b) => old(self).wf() ==> old(self).remaining()
                    == seq![b] + final(self).remaining() && final(self).wf(),
                None => old(self).remaining().len() == 0 || !old(self).wf(),
            },
    {
        if self.front < self.back && self.back <= self.bits.len() {
            let b = self.bits[self.front];
            self.front = self.front + 1;
            proof {
                if old(self).wf() {
                    assert(old(self).remaining() =~= seq![b] + self.remaining());
                }
            }
            Some(b)
        } else {
            None
        }
    }

    /// Yield the last remaining block.
    pub fn next_back(&mut self) -> (r: Option<Bitfield>)
        ensures
            match r {
                Some(b) => old(self).wf() ==> old(self).remaining()
                    == final(self).remaining() + seq![b] && final(self).wf(),
                None => old(self).remaining().len() == 0 || !old(self).wf(),
            },
    {
        if self.front < self.back && self.back <= self.bits.len() {
            self.back = self.back - 1;
            let b = self.bits[self.back];
            proof {
                if old(self).wf() {
                    assert(old(self).remaining() =~= self.remaining() + seq![b]);
                }
            }
            Some(b)
        } else {
            None
        }
    }
}

impl MemoryUser for Bitset {
    fn memory_usage(&self) -> MemoryUsage {
        MemoryUsage { size_of: None, len: self.bits.len(), capacity: vec_capacity(&self.bits) }
    }

    fn shrink(&mut self) {
        vec_shrink(&mut self.bits);
    }
}

} // verus!

use crate::rvec::{GroupOp, RVec};
use vstd::prelude::*;

verus! {

/// Derived, chunk-keyed state (cached reductions, reverse indexes), held as
/// an association of chunk keys to values with distinct keys.
pub struct DerivedMap<T> {
    keys: Vec<u64>,
    vals: Vec<T>,
}

impl<T> DerivedMap<T> {
    /// The keys, in storage order.
    pub closed spec fn keys_spec(&self) -> Seq<u64> {
        self.keys@
    }

    /// The values, in storage order.
    pub closed spec fn vals_spec(&self) -> Seq<T> {
        self.vals@
    }

    /// Keys are distinct and each key has a value.
    pub open spec fn wf(&self) -> bool {
        &&& self.keys_spec().len() == self.vals_spec().len()
        &&& forall|i: int, j: int| 0 <= i < j < self.keys_spec().len()
            ==> self.keys_spec()[i] != self.keys_spec()[j]
    }

    /// Whether key `k` is present.
    pub open spec fn has(&self, k: u64) -> bool {
        self.keys_spec().contains(k)
    }

    /// The value under key `k`, where present.
    pub open spec fn at(&self, k: u64) -> T {
        self.vals_spec()[self.pos(k)]
    }

    /// The position of key `k`, where present.
    pub open spec fn pos(&self, k: u64) -> int {
        choose|i: int| 0 <= i < self.keys_spec().len() && self.keys_spec()[i] == k
    }

    /// An empty map.
    pub fn new() -> (r: Self)
        ensures
            r.wf(),
            forall|k: u64| !r.has(k),
            r.keys_spec().len() == 0,
    {
        DerivedMap { keys: Vec::new(), vals: Vec::new() }
    }

    /// The number of keys held.
    pub fn len(&self) -> (r: usize)
        ensures
            r == self.keys_spec().len(),
    {
        self.keys.len()
    }

    /// The position of key `k`, if present.
    fn find(&self, k: u64) -> (r: Option<usize>)
        requires
            self.wf(),
        ensures
            match r {
                Some(i) => i < self.keys_spec().len() && self.keys_spec()[i as int] == k
                    && self.has(k) && self.pos(k) == i as int,
                None => !self.has(k),
            },
    {
        let mut i: usize = 0;
        while i < self.keys.len()
            invariant
                self.wf(),
                i <= self.keys_spec().len(),
                forall|j: int| 0 <= j < i ==> self.keys_spec()[j] != k,
            decreases self.keys_spec().len() - i,
        {
            if self.keys[i] == k {
                proof {
                    assert(self.keys_spec()[i as int] == k);
                    assert(self.has(k));
                    let p = self.pos(k);
                    if p != i as int {
                        assert(self.keys_spec()[p] == self.keys_spec()[i as int]);
                    }
                }
                return Some(i);
            }
            i = i + 1;
        }
        proof {
            if self.has(k) {
                let p = choose|p: int| 0 <= p < self.keys_spec().len()
                    && self.keys_spec()[p] == k;
                assert(self.keys_spec()[p] != k);
            }
        }
        None
    }

    /// The value under key `k`, if present.
    pub fn get(&self, k: u64) -> (r: Option<&T>)
        requires
            self.wf(),
        ensures
            match r {
                Some(v) => self.has(k) && *v == self.at(k),
                None => !self.has(k),
            },
    {
        match self.find(k) {
            Some(i) => Some(&self.vals[i]),
            None => None,
        }
    }

    /// Store `v` under key `k`, replacing any earlier value.
    pub fn insert(&mut self, k: u64, v: T)
        requires
            old(self).wf(),
        ensures
            final(self).wf(),
            forall|x: u64| final(self).has(x) <==> (old(self).has(x) || x == k),
            final(self).at(k) == v,
            forall|x: u64| old(self).has(x) && x != k
                ==> final(self).has(x) && final(self).at(x) == old(self).at(x),
    {
        let ghost pre = *self;
        match self.find(k) {
            Some(i) => {
                let r = &mut self.vals[i];
                *r = v;
                proof {
                    let post = *self;
                    assert(post.keys_spec() =~= pre.keys_spec());
                    assert forall|x: u64| pre.has(x) && x != k
                        implies post.has(x) && post.at(x) == pre.at(x) by {
                        let p = pre.pos(x);
                        assert(pre.keys_spec()[p] == x);
                        assert(post.keys_spec()[post.pos(x)] == x);
                        assert(post.pos(x) == p);
                        assert(p != i as int);
                    }
                    assert(post.pos(k) == i as int);
                }
            },
            None => {
                self.keys.push(k);
                self.vals.push(v);
                proof {
                    let post = *self;
                    let n = pre.keys_spec().len() as int;
                    assert(post.keys_spec() =~= pre.keys_spec().push(k));
                    assert forall|x: u64| post.has(x) <==> (pre.has(x) || x == k) by {
                        if post.has(x) && x != k {
                            let p = choose|p: int| 0 <= p < post.keys_spec().len()
                                && post.keys_spec()[p] == x;
                            assert(pre.keys_spec()[p] == x);
                            assert(pre.has(x));
                        }
                        if pre.has(x) {
                            let p = pre.pos(x);
                            assert(post.keys_spec()[p] == x);
                        }
                        if x == k {
                            assert(post.keys_spec()[n] == k);
                        }
                    }
                    assert(post.keys_spec()[post.pos(k)] == k);
                    assert(post.pos(k) == n);
                    assert forall|x: u64| pre.has(x) && x != k
                        implies post.has(x) && post.at(x) == pre.at(x) by {
                        let p = pre.pos(x);
                        assert(pre.keys_spec()[p] == x);
                        assert(post.keys_spec()[p] == x);
                        assert(post.keys_spec()[post.pos(x)] == x);
                        assert(post.pos(x) == p);
                    }
                }
            },
        }
    }

    /// Drop the pair at position `i`.
    fn remove_at(&mut self, i: usize)
        requires
            old(self).wf(),
            i < old(self).keys_spec().len(),
        ensures
            final(self).wf(),
            final(self).keys_spec() == old(self).keys_spec().update(
                i as int, old(self).keys_spec().last()).drop_last(),
            forall|x: u64| final(self).has(x)
                <==> (old(self).has(x) && x != old(self).keys_spec()[i as int]),
            forall|x: u64| final(self).has(x)
                ==> final(self).at(x) == old(self).at(x),
    {
        let ghost pre = *self;
        self.keys.swap_remove(i);
        self.vals.swap_remove(i);
        proof {
            let post = *self;
            let k0 = pre.keys_spec()[i as int];
            let n = pre.keys_spec().len() - 1;
            assert(post.keys_spec() =~= pre.keys_spec().update(
                i as int, pre.keys_spec().last()).drop_last());
            assert forall|a: int, b: int| 0 <= a < b < post.keys_spec().len()
                implies post.keys_spec()[a] != post.keys_spec()[b] by {
                let ka = if a == i as int { n } else { a };
                let kb = if b == i as int { n } else { b };
                assert(post.keys_spec()[a] == pre.keys_spec()[ka]);
                assert(post.keys_spec()[b] == pre.keys_spec()[kb]);
            }
            assert forall|x: u64| post.has(x) <==> (pre.has(x) && x != k0) by {
                if post.has(x) {
                    let p = choose|p: int| 0 <= p < post.keys_spec().len()
                        && post.keys_spec()[p] == x;
                    let kp = if p == i as int { n } else { p };
                    assert(pre.keys_spec()[kp] == x);
                    assert(pre.has(x));
                    if x == k0 {
                        assert(pre.keys_spec()[i as int] == pre.keys_spec()[kp]);
                    }
                }
                if pre.has(x) && x != k0 {
                    let p = pre.pos(x);
                    assert(pre.keys_spec()[p] == x);
                    assert(p != i as int);
                    if p == n {
                        if i as int != n {
                            assert(post.keys_spec()[i as int] == x);
                        }
                    } else {
                        assert(post.keys_spec()[p] == x);
                    }
                }
            }
            assert forall|x: u64| post.has(x) implies post.at(x) == pre.at(x) by {
                let p = post.pos(x);
                assert(post.keys_spec()[p] == x);
                let kp = if p == i as int { n } else { p };
                assert(pre.keys_spec()[kp] == x);
                assert(pre.keys_spec()[pre.pos(x)] == x);
                assert(pre.pos(x) == kp);
                assert(post.vals_spec()[p] == pre.vals_spec()[kp]);
            }
        }
    }
}

/// Whether a change-tracked vector of keys holds `k`.
fn rvec_contains(v: &RVec<u64>, k: u64) -> (r: bool)
    ensures
        r == v@.contains(k),
{
    let mut i: usize = 0;
    let n = v.len();
    while i < n
        invariant
            n == v@.len(),
            i <= n,
            forall|j: int| 0 <= j < i ==> v@[j] != k,
        decreases n - i,
    {
        if *v.index(i) == k {
            proof {
                assert(v@[i as int] == k);
            }
            return true;
        }
        i = i + 1;
    }
    proof {
        if v@.contains(k) {
            let p = choose|p: int| 0 <= p < v@.len() && v@[p] == k;
            assert(v@[p] != k);
        }
    }
    false
}

/// The recompute rule of the garbage-collection list: each slot mirrors the
/// chunk key at the same position.
struct MirrorOp;

impl GroupOp<u64, Option<u64>> for MirrorOp {
    closed spec fn spec_value(&self, group: Seq<u64>, idx: int) -> Option<u64> {
        Some(group[0])
    }

    fn compute(&self, group: &[u64], prior: &Option<u64>, idx: usize) -> (r: Option<
        Option<u64>,
    >) {
        let cur = *vstd::slice::slice_index_get(group, 0);
        match prior {
            Some(p) if *p == cur => None,
            _ => Some(Some(cur)),
        }
    }
}

/// Garbage-collect derived state when the chunk list changes shape: bring
/// `chunk_list` up to date as a mirror of the current chunk keys (reusing the
/// incremental staleness walk, so an unchanged prefix costs nothing), then
/// drop from `data` every entry whose chunk key no longer exists. Values of
/// surviving keys are untouched — collection happens exactly on observed
/// structural change, neither eagerly nor late.
pub fn gc_derived<T>(chunk_list: &mut RVec<Option<u64>>, chunks: &RVec<u64>, data: &mut DerivedMap<T>)
    requires
        old(chunk_list).wf(),
        chunks.wf(),
        old(data).wf(),
    ensures
        final(chunk_list).wf(),
        final(chunk_list)@.len() == chunks@.len(),
        forall|i: int| 0 <= i < chunks@.len() ==> final(chunk_list)@[i] == Some(chunks@[i]),
        final(data).wf(),
        forall|k: u64| final(data).has(k) <==> (old(data).has(k) && chunks@.contains(k)),
        forall|k: u64| final(data).has(k) ==> final(data).at(k) == old(data).at(k),
{
    // incremental refresh of the mirror; slots the staleness walk cannot
    // rule out are recomputed
    chunk_list.reduce(chunks, 1, &MirrorOp);
    proof {
        assert(chunk_list@.len() == chunks@.len());
    }
    // settle every slot the kept-value case left to the caller's knowledge
    let n = chunks.len();
    let mut i: usize = 0;
    while i < n
        invariant
            chunk_list.wf(),
            chunks.wf(),
            n == chunks@.len(),
            chunk_list@.len() == n,
            i <= n,
            forall|j: int| 0 <= j < i ==> chunk_list@[j] == Some(chunks@[j]),
        decreases n - i,
    {
        let cur = *chunks.index(i);
        let slot = chunk_list.index(i);
        let matches_cur = match slot {
            Some(p) => *p == cur,
            None => false,
        };
        if !matches_cur {
            chunk_list.set(i, Some(cur));
        }
        i = i + 1;
    }

    // drop derived state for chunk keys that no longer exist
    let ghost pre_data = *data;
    let mut j = data.len();
    while j > 0
        invariant
            data.wf(),
            chunks.wf(),
            j <= data.keys_spec().len(),
            forall|k: u64| data.has(k) ==> pre_data.has(k),
            forall|k: u64| data.has(k) ==> data.at(k) == pre_data.at(k),
            forall|k: u64| pre_data.has(k) && chunks@.contains(k) ==> data.has(k),
            forall|p: int| j <= p < data.keys_spec().len()
                ==> chunks@.contains(#[trigger] data.keys_spec()[p]),
        decreases j,
    {
        j = j - 1;
        let ghost before = *data;
        let k = data.keys[j];
        proof {
            assert(before.keys_spec()[j as int] == k);
            assert(before.has(k));
        }
        if !rvec_contains(chunks, k) {
            data.remove_at(j);
            proof {
                let nlen = before.keys_spec().len() - 1;
                assert forall|p: int| j <= p < data.keys_spec().len()
                    implies chunks@.contains(#[trigger] data.keys_spec()[p]) by {
                    if p == j as int {
                        // the slot now holds the formerly final key, which
                        // the checked suffix already covered
                        assert(data.keys_spec()[p] == before.keys_spec()[nlen]);
                        assert(nlen > j);
                        assert(chunks@.contains(before.keys_spec()[nlen]));
                    } else {
                        assert(data.keys_spec()[p] == before.keys_spec()[p]);
                        assert(chunks@.contains(before.keys_spec()[p]));
                    }
                }
            }
        }
    }
    proof {
        assert forall|k: u64| data.has(k)
            implies (pre_data.has(k) && chunks@.contains(k)) by {
            let p = data.pos(k);
            assert(data.keys_spec()[p] == k);
            assert(chunks@.contains(data.keys_spec()[p]));
        }
    }
}

} // verus!

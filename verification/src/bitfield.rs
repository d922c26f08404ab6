use vstd::prelude::*;

verus! {

/// Number of bit positions covered by one `Bitfield` block.
pub const BITS: usize = 64;

/// A bitmask over one aligned block of `BITS` consecutive indices.
///
/// `start` holds the block number (`index / BITS`); the all-ones value is a
/// sentinel meaning "invalid", used to mark unoccupied slots in fixed-capacity
/// block arrays. The only way to obtain an invalid `Bitfield` is `invalid()`.
#[derive(Clone, Copy)]
pub struct Bitfield {
    start: usize,
    bits: u64,
}

/// The ascending sequence of set bit positions of `bits` within `[lo, hi)`,
/// each offset by `base`.
pub open spec fn win_seq(bits: u64, base: int, lo: int, hi: int) -> Seq<int>
    decreases hi - lo,
{
    if lo >= hi {
        Seq::empty()
    } else if (bits >> (lo as u64)) & 1 == 1 {
        seq![base + lo] + win_seq(bits, base, lo + 1, hi)
    } else {
        win_seq(bits, base, lo + 1, hi)
    }
}

proof fn lemma_one_bit(k: u64, m: u64)
    by (bit_vector)
    requires
        k < 64,
        m < 64,
    ensures
        ((1u64 << k) >> m) & 1 == if m == k { 1u64 } else { 0u64 },
{
}

proof fn lemma_or_bit(b: u64, k: u64, m: u64)
    by (bit_vector)
    requires
        k < 64,
        m < 64,
    ensures
        ((b | (1u64 << k)) >> m) & 1 == if m == k { 1u64 } else { (b >> m) & 1 },
{
}

proof fn lemma_clear_bit(b: u64, k: u64, m: u64)
    by (bit_vector)
    requires
        k < 64,
        m < 64,
    ensures
        ((b & !(1u64 << k)) >> m) & 1 == if m == k { 0u64 } else { (b >> m) & 1 },
{
}

proof fn lemma_and_bit(a: u64, b: u64, m: u64)
    by (bit_vector)
    requires
        m < 64,
    ensures
        ((a & b) >> m) & 1 == ((a >> m) & 1) & ((b >> m) & 1),
        ((a & b) >> m) & 1 == 1 <==> ((a >> m) & 1 == 1 && (b >> m) & 1 == 1),
{
}

proof fn lemma_full_bit(m: u64)
    by (bit_vector)
    requires
        m < 64,
    ensures
        ((!0u64) >> m) & 1 == 1,
{
}

proof fn lemma_win_seq_zero(base: int, lo: int, hi: int)
    requires
        0 <= lo <= hi <= 64,
    ensures
        win_seq(0u64, base, lo, hi).len() == 0,
    decreases hi - lo,
{
    if lo < hi {
        lemma_win_seq_zero(base, lo + 1, hi);
        lemma_zero_bit(lo as u64);
    }
}

proof fn lemma_or_zero(k: u64)
    by (bit_vector)
    ensures
        0u64 | (1u64 << k) == (1u64 << k),
{
}

proof fn lemma_zero_bit(m: u64)
    by (bit_vector)
    ensures
        (0u64 >> m) & 1 == 0,
{
}

/// Setting one bit grows the window's index count by one exactly when the
/// bit was clear and lies in the window.
proof fn lemma_win_seq_set_len(pre: u64, k: u64, base: int, lo: int, hi: int)
    requires
        k < 64,
        0 <= lo <= hi <= 64,
    ensures
        win_seq(pre | (1u64 << k), base, lo, hi).len() == win_seq(pre, base, lo, hi).len()
            + if lo <= k < hi && (pre >> k) & 1 != 1 {
                1int
            } else {
                0
            },
    decreases hi - lo,
{
    if lo < hi {
        lemma_win_seq_set_len(pre, k, base, lo + 1, hi);
        lemma_or_bit(pre, k, lo as u64);
    }
}

/// Clearing one bit shrinks the window's index count by one exactly when
/// the bit was set and lies in the window.
proof fn lemma_win_seq_clear_len(pre: u64, k: u64, base: int, lo: int, hi: int)
    requires
        k < 64,
        0 <= lo <= hi <= 64,
    ensures
        win_seq(pre & !(1u64 << k), base, lo, hi).len() == win_seq(pre, base, lo, hi).len()
            - if lo <= k < hi && (pre >> k) & 1 == 1 {
                1int
            } else {
                0
            },
    decreases hi - lo,
{
    if lo < hi {
        lemma_win_seq_clear_len(pre, k, base, lo + 1, hi);
        lemma_clear_bit(pre, k, lo as u64);
    }
}

impl Bitfield {
    /// The block number of this `Bitfield`.
    pub closed spec fn block(self) -> int {
        self.start as int
    }

    /// The raw bitmask.
    pub closed spec fn bits_spec(self) -> u64 {
        self.bits
    }

    /// Whether this is a real block (not the sentinel).
    pub open spec fn valid_spec(self) -> bool {
        self.block() != usize::MAX as int
    }

    /// A valid block number stays small enough that the first index of the
    /// block, `block * BITS`, fits in `usize`.
    pub open spec fn wf(self) -> bool {
        self.valid_spec() ==> self.block() <= usize::MAX as int / 64
    }

    /// Whether index `i` is in this `Bitfield`.
    pub open spec fn contains(self, i: int) -> bool {
        &&& self.valid_spec()
        &&& 0 <= i
        &&& i / 64 == self.block()
        &&& (self.bits_spec() >> ((i % 64) as u64)) & 1 == 1
    }

    /// The ascending sequence of indices in this `Bitfield`.
    pub open spec fn idx_seq(self) -> Seq<int> {
        win_seq(self.bits_spec(), self.block() * 64, 0, 64)
    }

    /// The block number.
    pub fn block_num(&self) -> (r: usize)
        ensures
            r as int == self.block(),
    {
        self.start
    }

    /// True if this `Bitfield` is valid; the only invalid `Bitfield` is the
    /// sentinel produced by `invalid()`.
    pub fn valid(&self) -> (r: bool)
        ensures
            r == self.valid_spec(),
    {
        self.start != usize::MAX
    }

    /// The sentinel `Bitfield`, used to mark empty slots in fixed-capacity
    /// block arrays.
    pub fn invalid() -> (r: Self)
        ensures
            !r.valid_spec(),
            r.wf(),
            forall|j: int| !r.contains(j),
    {
        Bitfield { start: usize::MAX, bits: 0 }
    }

    /// A new `Bitfield` containing exactly the index `i`.
    pub fn new(i: usize) -> (r: Self)
        ensures
            r.valid_spec(),
            r.wf(),
            r.block() == i as int / 64,
            forall|j: int| r.contains(j) <==> j == i as int,
            r.idx_seq().len() == 1,
    {
        proof {
            assert(i as int / 64 <= usize::MAX as int / 64) by (nonlinear_arith)
                requires
                    i <= usize::MAX,
            ;
            lemma_win_seq_set_len(0u64, (i % 64) as u64, (i as int / 64) * 64, 0, 64);
            lemma_win_seq_zero((i as int / 64) * 64, 0, 64);
            lemma_zero_bit((i % 64) as u64);
            lemma_or_zero((i % 64) as u64);
            vstd::arithmetic::div_mod::lemma_fundamental_div_mod(i as int, 64);
        }
        let r = Bitfield { start: i / 64, bits: 1u64 << ((i % 64) as u64) };
        proof {
            assert forall|j: int| r.contains(j) <==> j == i as int by {
                lemma_one_bit((i % 64) as u64, (i % 64) as u64);
                if 0 <= j && j / 64 == r.block() {
                    lemma_one_bit((i % 64) as u64, (j % 64) as u64);
                    vstd::arithmetic::div_mod::lemma_fundamental_div_mod(j, 64);
                    vstd::arithmetic::div_mod::lemma_fundamental_div_mod(i as int, 64);
                }
            }
        }
        r
    }

    /// A new `Bitfield` with no bits set, covering the block of index `i`.
    pub fn new_empty(i: usize) -> (r: Self)
        ensures
            r.valid_spec(),
            r.wf(),
            r.block() == i as int / 64,
            forall|j: int| !r.contains(j),
    {
        proof {
            assert(i as int / 64 <= usize::MAX as int / 64) by (nonlinear_arith)
                requires
                    i <= usize::MAX,
            ;
        }
        let r = Bitfield { start: i / 64, bits: 0 };
        proof {
            assert forall|j: int| !r.contains(j) by {
                if 0 <= j {
                    lemma_zero_bit((j % 64) as u64);
                }
            }
        }
        r
    }

    /// A new `Bitfield` with every bit of the block of index `i` set.
    pub fn new_full(i: usize) -> (r: Self)
        ensures
            r.valid_spec(),
            r.wf(),
            r.block() == i as int / 64,
            forall|j: int| r.contains(j) <==> (0 <= j && j / 64 == i as int / 64),
    {
        proof {
            assert(i as int / 64 <= usize::MAX as int / 64) by (nonlinear_arith)
                requires
                    i <= usize::MAX,
            ;
        }
        let r = Bitfield { start: i / 64, bits: !0u64 };
        proof {
            assert forall|j: int| r.contains(j) <==> (0 <= j && j / 64 == i as int / 64) by {
                if 0 <= j && j / 64 == r.block() {
                    lemma_full_bit((j % 64) as u64);
                }
            }
        }
        r
    }

    /// The first index of this block; every contained index `j` satisfies
    /// `start() <= j < start() + BITS`.
    pub fn start(&self) -> (r: usize)
        requires
            self.valid_spec(),
            self.wf(),
        ensures
            r == self.block() * 64,
    {
        proof {
            assert(self.block() * 64 <= usize::MAX as int) by (nonlinear_arith)
                requires
                    self.block() <= usize::MAX as int / 64,
                    0 <= self.block(),
            ;
        }
        self.start * 64
    }

    /// Set bit `i`, which must fall inside this block.
    pub fn set(&mut self, i: usize)
        requires
            old(self).valid_spec(),
            i as int / 64 == old(self).block(),
        ensures
            final(self).valid_spec(),
            final(self).wf() == old(self).wf(),
            final(self).block() == old(self).block(),
            forall|j: int| final(self).contains(j) <==> old(self).contains(j) || j == i as int,
            final(self).idx_seq().len() == old(self).idx_seq().len()
                + if old(self).contains(i as int) {
                    0int
                } else {
                    1
                },
    {
        let ghost pre = *self;
        self.bits = self.bits | (1u64 << ((i % 64) as u64));
        proof {
            lemma_win_seq_set_len(pre.bits_spec(), (i % 64) as u64, pre.block() * 64, 0, 64);
            vstd::arithmetic::div_mod::lemma_fundamental_div_mod(i as int, 64);
        }
        proof {
            let post = *self;
            assert forall|j: int| post.contains(j) <==> pre.contains(j) || j == i as int by {
                if 0 <= j && j / 64 == pre.block() {
                    lemma_or_bit(pre.bits_spec(), (i % 64) as u64, (j % 64) as u64);
                    vstd::arithmetic::div_mod::lemma_fundamental_div_mod(j, 64);
                    vstd::arithmetic::div_mod::lemma_fundamental_div_mod(i as int, 64);
                }
            }
        }
    }

    /// Clear bit `i`, which must fall inside this block.
    pub fn unset(&mut self, i: usize)
        requires
            old(self).valid_spec(),
            i as int / 64 == old(self).block(),
        ensures
            final(self).valid_spec(),
            final(self).wf() == old(self).wf(),
            final(self).block() == old(self).block(),
            forall|j: int| final(self).contains(j) <==> old(self).contains(j) && j != i as int,
            final(self).idx_seq().len() == old(self).idx_seq().len()
                - if old(self).contains(i as int) {
                    1int
                } else {
                    0
                },
    {
        let ghost pre = *self;
        self.bits = self.bits & !(1u64 << ((i % 64) as u64));
        proof {
            lemma_win_seq_clear_len(pre.bits_spec(), (i % 64) as u64, pre.block() * 64, 0, 64);
            vstd::arithmetic::div_mod::lemma_fundamental_div_mod(i as int, 64);
        }
        proof {
            let post = *self;
            assert forall|j: int| post.contains(j) <==> pre.contains(j) && j != i as int by {
                if 0 <= j && j / 64 == pre.block() {
                    lemma_clear_bit(pre.bits_spec(), (i % 64) as u64, (j % 64) as u64);
                    vstd::arithmetic::div_mod::lemma_fundamental_div_mod(j, 64);
                    vstd::arithmetic::div_mod::lemma_fundamental_div_mod(i as int, 64);
                }
            }
        }
    }

    /// Whether bit `i` is set; `i` must fall inside this block.
    pub fn get(&self, i: usize) -> (r: bool)
        requires
            self.valid_spec(),
            i as int / 64 == self.block(),
        ensures
            r == self.contains(i as int),
    {
        (self.bits >> ((i % 64) as u64)) & 1 == 1
    }

    /// The number of bits set in this block.
    pub fn ones(&self) -> (r: usize)
        ensures
            r == self.idx_seq().len(),
            r <= 64,
    {
        let ghost base = self.block() * 64;
        let mut count: usize = 0;
        let mut p: usize = 64;
        // walk downward so the already-counted window is a `win_seq` suffix
        while p > 0
            invariant
                p <= 64,
                count == win_seq(self.bits_spec(), base, p as int, 64).len(),
                count <= 64 - p,
            decreases p,
        {
            p = p - 1;
            if (self.bits >> (p as u64)) & 1 == 1 {
                count = count + 1;
            }
        }
        proof {
            if !self.valid_spec() {
                // idx_seq is still defined purely from the bitmask
            }
            assert(count == win_seq(self.bits_spec(), base, 0, 64).len());
        }
        count
    }

    /// Block-level intersection. The result is anchored at this block; if the
    /// two blocks differ, the result is empty.
    pub fn intersect(&self, other: &Bitfield) -> (r: Bitfield)
        requires
            self.valid_spec(),
            other.valid_spec(),
            self.wf(),
        ensures
            r.valid_spec(),
            r.wf(),
            r.block() == self.block(),
            forall|j: int| r.contains(j) <==> self.contains(j) && other.contains(j),
    {
        let r = Bitfield {
            start: self.start,
            bits: if self.start == other.start {
                self.bits & other.bits
            } else {
                0u64
            },
        };
        proof {
            assert forall|j: int| r.contains(j) <==> self.contains(j) && other.contains(j) by {
                if 0 <= j && j / 64 == self.block() {
                    if self.block() == other.block() {
                        lemma_and_bit(self.bits_spec(), other.bits_spec(), (j % 64) as u64);
                    } else {
                        lemma_zero_bit((j % 64) as u64);
                    }
                }
            }
        }
        r
    }

    /// Restrict this `Bitfield` to the indices in `[lo, hi)`.
    pub fn clip(self, lo: usize, hi: usize) -> (r: Bitfield)
        requires
            self.valid_spec(),
            self.wf(),
        ensures
            r.valid_spec(),
            r.wf(),
            r.block() == self.block(),
            forall|j: int| r.contains(j) <==> self.contains(j) && lo <= j < hi,
    {
        let base = self.start();
        proof {
            vstd::arithmetic::div_mod::lemma_fundamental_div_mod(usize::MAX as int, 64);
            assert(self.block() * 64 <= (usize::MAX as int / 64) * 64) by (nonlinear_arith)
                requires
                    0 <= self.block() <= usize::MAX as int / 64,
            ;
        }
        let mut r = self;
        let mut m: usize = 0;
        while m < 64
            invariant
                self.valid_spec(),
                self.wf(),
                r.valid_spec(),
                r.wf(),
                r.block() == self.block(),
                base == self.block() * 64,
                base + 63 <= usize::MAX,
                m <= 64,
                forall|j: int|
                    r.contains(j) <==> self.contains(j) && (base <= j < base + m ==> lo <= j < hi),
            decreases 64 - m,
        {
            let j = base + m;
            proof {
                vstd::arithmetic::div_mod::lemma_fundamental_div_mod_converse(
                    j as int, 64, self.block(), m as int);
            }
            if !(lo <= j && j < hi) {
                r.unset(j);
            }
            m = m + 1;
        }
        proof {
            assert forall|j: int| r.contains(j) <==> self.contains(j) && lo <= j < hi by {
                if 0 <= j && j / 64 == self.block() {
                    vstd::arithmetic::div_mod::lemma_fundamental_div_mod(j, 64);
                }
            }
        }
        r
    }

    /// An iterator over the indices of this `Bitfield`, usable from both ends.
    pub fn iter(&self) -> (r: BitfieldIter)
        requires
            self.valid_spec(),
            self.wf(),
        ensures
            r.wf(),
            r.remaining() == self.idx_seq(),
    {
        let base = self.start();
        proof {
            vstd::arithmetic::div_mod::lemma_fundamental_div_mod(usize::MAX as int, 64);
            assert(self.block() * 64 <= (usize::MAX as int / 64) * 64) by (nonlinear_arith)
                requires
                    0 <= self.block() <= usize::MAX as int / 64,
            ;
        }
        BitfieldIter { base, bits: self.bits, front: 0, back: 64 }
    }

    /// All indices of this `Bitfield`, ascending.
    pub fn indices(&self) -> (v: Vec<usize>)
        requires
            self.valid_spec(),
            self.wf(),
        ensures
            v@.map_values(|x: usize| x as int) == self.idx_seq(),
    {
        let mut it = self.iter();
        let mut v: Vec<usize> = Vec::new();
        loop
            invariant
                it.wf(),
                v@.map_values(|x: usize| x as int) + it.remaining() == self.idx_seq(),
            ensures
                v@.map_values(|x: usize| x as int) == self.idx_seq(),
            decreases it.remaining().len(),
        {
            let ghost pre = v@;
            match it.next() {
                Some(i) => {
                    v.push(i);
                    proof {
                        assert(v@.map_values(|x: usize| x as int)
                            =~= pre.map_values(|x: usize| x as int) + seq![i as int]);
                        assert(v@.map_values(|x: usize| x as int) + it.remaining()
                            =~= self.idx_seq());
                    }
                }
                None => {
                    proof {
                        assert(v@.map_values(|x: usize| x as int)
                            =~= v@.map_values(|x: usize| x as int) + it.remaining());
                    }
                    break;
                }
            }
        }
        v
    }

    /// All indices of this `Bitfield`, descending.
    pub fn indices_rev(&self) -> (v: Vec<usize>)
        requires
            self.valid_spec(),
            self.wf(),
        ensures
            v@.map_values(|x: usize| x as int) == self.idx_seq().reverse(),
    {
        let mut it = self.iter();
        let mut v: Vec<usize> = Vec::new();
        loop
            invariant
                it.wf(),
                it.remaining() + v@.map_values(|x: usize| x as int).reverse() == self.idx_seq(),
            ensures
                v@.map_values(|x: usize| x as int).reverse() == self.idx_seq(),
            decreases it.remaining().len(),
        {
            let ghost pre = v@;
            match it.next_back() {
                Some(i) => {
                    v.push(i);
                    proof {
                        assert(v@.map_values(|x: usize| x as int)
                            =~= pre.map_values(|x: usize| x as int) + seq![i as int]);
                        assert(v@.map_values(|x: usize| x as int).reverse()
                            =~= seq![i as int] + pre.map_values(|x: usize| x as int).reverse());
                        assert(it.remaining() + v@.map_values(|x: usize| x as int).reverse()
                            =~= self.idx_seq());
                    }
                }
                None => {
                    proof {
                        assert(it.remaining() + v@.map_values(|x: usize| x as int).reverse()
                            =~= v@.map_values(|x: usize| x as int).reverse());
                    }
                    break;
                }
            }
        }
        proof {
            assert(v@.map_values(|x: usize| x as int) =~= self.idx_seq().reverse());
        }
        v
    }
}

/// A double-ended cursor over the indices of one `Bitfield`.
pub struct BitfieldIter {
    base: usize,
    bits: u64,
    front: usize,
    back: usize,
}

proof fn lemma_win_seq_skip(bits: u64, base: int, lo: int, hi: int)
    requires
        0 <= lo < hi,
        (bits >> (lo as u64)) & 1 != 1,
    ensures
        win_seq(bits, base, lo, hi) == win_seq(bits, base, lo + 1, hi),
{
}

proof fn lemma_win_seq_snoc(bits: u64, base: int, lo: int, hi: int)
    requires
        0 <= lo < hi,
    ensures
        (bits >> ((hi - 1) as u64)) & 1 == 1 ==> win_seq(bits, base, lo, hi)
            == win_seq(bits, base, lo, hi - 1) + seq![base + hi - 1],
        (bits >> ((hi - 1) as u64)) & 1 != 1 ==> win_seq(bits, base, lo, hi)
            == win_seq(bits, base, lo, hi - 1),
    decreases hi - lo,
{
    if lo == hi - 1 {
        assert(win_seq(bits, base, lo, hi - 1) == Seq::<int>::empty());
        assert(win_seq(bits, base, lo + 1, hi) == Seq::<int>::empty());
        if (bits >> (lo as u64)) & 1 == 1 {
            assert(win_seq(bits, base, lo, hi) == seq![base + lo] + Seq::<int>::empty());
            assert(win_seq(bits, base, lo, hi) =~= win_seq(bits, base, lo, hi - 1) + seq![
                base + hi - 1,
            ]);
        }
    } else {
        lemma_win_seq_snoc(bits, base, lo + 1, hi);
        if (bits >> (lo as u64)) & 1 == 1 {
            if (bits >> ((hi - 1) as u64)) & 1 == 1 {
                assert(win_seq(bits, base, lo, hi)
                    =~= (seq![base + lo] + win_seq(bits, base, lo + 1, hi - 1)) + seq![base + hi - 1]);
            }
        }
    }
}

/// Every index the iterator yields lies in the window and corresponds to a
/// set bit; the yielded sequence is strictly ascending.
proof fn lemma_win_seq_props(bits: u64, base: int, lo: int, hi: int)
    requires
        0 <= lo <= hi,
    ensures
        forall|k: int| 0 <= k < win_seq(bits, base, lo, hi).len()
            ==> base + lo <= #[trigger] win_seq(bits, base, lo, hi)[k] < base + hi,
        forall|k1: int, k2: int| 0 <= k1 < k2 < win_seq(bits, base, lo, hi).len()
            ==> #[trigger] win_seq(bits, base, lo, hi)[k1]
                < #[trigger] win_seq(bits, base, lo, hi)[k2],
        forall|x: int| win_seq(bits, base, lo, hi).contains(x)
            <==> lo <= x - base < hi && (bits >> ((x - base) as u64)) & 1 == 1,
    decreases hi - lo,
{
    if lo < hi {
        lemma_win_seq_props(bits, base, lo + 1, hi);
        let s = win_seq(bits, base, lo, hi);
        let rest = win_seq(bits, base, lo + 1, hi);
        if (bits >> (lo as u64)) & 1 == 1 {
            assert(s == seq![base + lo] + rest);
            assert forall|x: int| s.contains(x)
                <==> lo <= x - base < hi && (bits >> ((x - base) as u64)) & 1 == 1 by {
                if s.contains(x) {
                    let k = choose|k: int| 0 <= k < s.len() && s[k] == x;
                    if k > 0 {
                        assert(rest[k - 1] == x);
                        assert(rest.contains(x));
                    }
                } else {
                    if lo <= x - base < hi && (bits >> ((x - base) as u64)) & 1 == 1 {
                        if x == base + lo {
                            assert(s[0] == x);
                        } else {
                            assert(rest.contains(x));
                            let k = choose|k: int| 0 <= k < rest.len() && rest[k] == x;
                            assert(s[k + 1] == x);
                        }
                        assert(s.contains(x));
                    }
                }
            }
        } else {
            assert forall|x: int| s.contains(x)
                <==> lo <= x - base < hi && (bits >> ((x - base) as u64)) & 1 == 1 by {
                if x == base + lo {
                    assert(!(lo <= x - base < hi && (bits >> ((x - base) as u64)) & 1 == 1));
                }
            }
        }
    }
}

impl BitfieldIter {
    /// The window is well formed and index arithmetic cannot overflow.
    pub closed spec fn wf(self) -> bool {
        self.front <= self.back <= 64 && self.base + 63 <= usize::MAX
    }

    /// The indices not yet yielded, in ascending order.
    pub closed spec fn remaining(self) -> Seq<int> {
        win_seq(self.bits, self.base as int, self.front as int, self.back as int)
    }

    /// Yield the smallest remaining index, or `None` when the window is
    /// exhausted.
    pub fn next(&mut self) -> (r: Option<usize>)
        requires
            old(self).wf(),
        ensures
            final(self).wf(),
            match r {
                Some(v) => old(self).remaining() == seq![v as int] + final(self).remaining(),
                None => old(self).remaining() == Seq::<int>::empty()
                    && final(self).remaining() == Seq::<int>::empty(),
            },
    {
        while self.front < self.back && (self.bits >> (self.front as u64)) & 1 != 1
            invariant
                self.wf(),
                self.bits == old(self).bits,
                self.base == old(self).base,
                self.back == old(self).back,
                old(self).front <= self.front,
                self.remaining() == old(self).remaining(),
            decreases self.back - self.front,
        {
            proof {
                lemma_win_seq_skip(
                    self.bits, self.base as int, self.front as int, self.back as int);
            }
            self.front = self.front + 1;
        }
        if self.front < self.back {
            let v = self.base + self.front;
            self.front = self.front + 1;
            Some(v)
        } else {
            None
        }
    }

    /// Yield the largest remaining index, or `None` when the window is
    /// exhausted.
    pub fn next_back(&mut self) -> (r: Option<usize>)
        requires
            old(self).wf(),
        ensures
            final(self).wf(),
            match r {
                Some(v) => old(self).remaining() == final(self).remaining() + seq![v as int],
                None => old(self).remaining() == Seq::<int>::empty()
                    && final(self).remaining() == Seq::<int>::empty(),
            },
    {
        while self.front < self.back && (self.bits >> ((self.back - 1) as u64)) & 1 != 1
            invariant
                self.wf(),
                self.bits == old(self).bits,
                self.base == old(self).base,
                self.front == old(self).front,
                self.back <= old(self).back,
                self.remaining() == old(self).remaining(),
            decreases self.back - self.front,
        {
            proof {
                lemma_win_seq_snoc(
                    self.bits, self.base as int, self.front as int, self.back as int);
            }
            self.back = self.back - 1;
        }
        if self.front < self.back {
            proof {
                lemma_win_seq_snoc(
                    self.bits, self.base as int, self.front as int, self.back as int);
            }
            let v = self.base + (self.back - 1);
            self.back = self.back - 1;
            Some(v)
        } else {
            None
        }
    }
}

/// A block that contains an index has a bit set.
pub proof fn lemma_nonzero_of_contains(b: Bitfield, i: int)
    requires
        b.contains(i),
    ensures
        b.bits_spec() != 0,
{
    lemma_bit_nonzero(b.bits_spec(), ((i % 64) as u64));
}

proof fn lemma_bit_nonzero(b: u64, m: u64)
    by (bit_vector)
    requires
        (b >> m) & 1 == 1,
    ensures
        b != 0,
{
}

/// Law: iterating a `Bitfield` visits exactly its indices — the ascending
/// iteration sequence contains an index if and only if the `Bitfield`
/// contains it, each index is visited once, and the order is strictly
/// ascending. Together with the contracts of `indices` and `indices_rev`
/// (whose result is the exact reverse), the forward iterator and the
/// reversed backward iterator therefore visit the same indices.
pub proof fn lemma_bitfield_iteration(b: Bitfield)
    requires
        b.valid_spec(),
        b.wf(),
    ensures
        forall|x: int| b.idx_seq().contains(x) <==> b.contains(x),
        forall|k1: int, k2: int| 0 <= k1 < k2 < b.idx_seq().len()
            ==> #[trigger] b.idx_seq()[k1] < #[trigger] b.idx_seq()[k2],
        b.idx_seq().reverse().reverse() == b.idx_seq(),
{
    let base = b.block() * 64;
    lemma_win_seq_props(b.bits_spec(), base, 0, 64);
    assert forall|x: int| b.idx_seq().contains(x) <==> b.contains(x) by {
        if b.idx_seq().contains(x) {
            vstd::arithmetic::div_mod::lemma_fundamental_div_mod_converse(
                x, 64, b.block(), x - base);
        }
        if b.contains(x) {
            vstd::arithmetic::div_mod::lemma_fundamental_div_mod(x, 64);
        }
    }
    assert(b.idx_seq().reverse().reverse() =~= b.idx_seq());
}

} // verus!

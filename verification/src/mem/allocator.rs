use vstd::prelude::*;

verus! {

/// Allocation granularity: every block starts and ends on a multiple of it.
pub const GRAIN: usize = 16;

/// The bytes in front of every payload that record where its block starts and
/// how long it is.
pub const HEADER: usize = 16;

/// The smallest free block worth keeping; a smaller remainder stays with the
/// allocation.
pub const MIN_BLOCK: usize = 32;

/// `r` is a multiple of the power of two `align`: its low bits are clear.
pub open spec fn aligned(r: usize, align: usize) -> bool {
    r & ((align - 1) as usize) == 0
}

/// `align` is a power of two.
pub open spec fn is_pow2(align: usize) -> bool {
    0 < align && align & ((align - 1) as usize) == 0
}

/// `value` rounded up to a multiple of the power of two `align`: the low
/// bits of `value + align - 1` cleared.
pub open spec fn round_up(value: int, align: usize) -> usize {
    ((value + align - 1) as usize) & !((align - 1) as usize)
}

/// Rounds `value` up to a multiple of the power of two `align`.
pub fn align_up(value: usize, align: usize) -> (r: usize)
    requires
        is_pow2(align),
        value + align - 1 <= usize::MAX,
    ensures
        r == round_up(value as int, align),
        aligned(r, align),
        value <= r < value + align,
{
    let m = align - 1;
    let t = value + m;
    let r = t & !m;
    proof { lemma_align_bits(value, align, m, t, r); }
    r
}

proof fn lemma_align_bits(value: usize, align: usize, m: usize, t: usize, r: usize)
    requires
        0 < align,
        m == align - 1,
        align & m == 0,
        t == value + m,
        r == t & !m,
    ensures
        r & m == 0,
        value <= r,
        r < value + align,
{
    assert(r & m == 0) by (bit_vector)
        requires r == t & !m;
    assert(value <= r) by (bit_vector)
        requires 0 < align, m == align - 1, align & m == 0, t == value + m, r == t & !m;
    assert(r < value + align) by (bit_vector)
        requires 0 < align, m == align - 1, t == value + m, r == t & !m;
}

/// A free stretch of the heap: `size` bytes from address `start`.
#[derive(Copy, Clone, PartialEq, Eq, Debug, Structural)]
pub struct Block {
    pub start: usize,
    pub size: usize,
}

/// What an allocation hands back: the payload address, and the block it was
/// carved from, which the header in front of the payload records so the
/// block can be given back whole.
#[derive(Copy, Clone, PartialEq, Eq, Debug, Structural)]
pub struct Grant {
    pub payload: usize,
    pub block_start: usize,
    pub taken: usize,
}

/// A snapshot of the heap's bookkeeping.
#[derive(Copy, Clone, PartialEq, Eq, Debug, Structural)]
pub struct Stats {
    pub used: usize,
    pub peak: usize,
    pub capacity: usize,
    pub free_blocks: usize,
    pub largest_free: usize,
}

/// The highest address the heap's arithmetic is sized for.
pub open spec fn addr_limit() -> int {
    usize::MAX as int / 4
}

pub open spec fn end(b: Block) -> int {
    b.start + b.size
}

/// The block holds the byte at `a`.
pub open spec fn holds(b: Block, a: int) -> bool {
    b.start <= a < end(b)
}

/// Some block of `s` holds the byte at `a`.
pub open spec fn in_free(s: Seq<Block>, a: int) -> bool {
    exists|i: int| 0 <= i < s.len() && #[trigger] holds(s[i], a)
}

/// Free blocks are non-empty, sorted by address, and neither overlap nor
/// touch: touching blocks are always merged.
pub open spec fn ordered(s: Seq<Block>) -> bool {
    &&& forall|i: int| 0 <= i < s.len() ==> (#[trigger] s[i]).size > 0 && end(s[i]) <= addr_limit()
    &&& forall|i: int, j: int| 0 <= i < j < s.len() ==> end(#[trigger] s[i]) < (#[trigger] s[j]).start
}

pub open spec fn sum_sizes(s: Seq<Block>) -> int
    decreases s.len(),
{
    if s.len() == 0 { 0 } else { sum_sizes(s.drop_last()) + s.last().size }
}

/// Where the payload of an allocation from `b` would start.
pub open spec fn payload_at(b: Block, align: usize) -> usize {
    round_up(b.start + HEADER, align)
}

/// Where an allocation of `size` bytes from `b` would end.
pub open spec fn alloc_end_at(b: Block, size: usize, align: usize) -> usize {
    round_up(payload_at(b, align) + (if size >= 1 { size as int } else { 1 }), GRAIN)
}

/// `size` bytes at alignment `align` fit in `b`.
pub open spec fn fits(b: Block, size: usize, align: usize) -> bool {
    alloc_end_at(b, size, align) <= end(b)
}

/// The index of the first block of `s` from `i` on that fits the request,
/// or `s.len()` if none does.
pub open spec fn first_fit(s: Seq<Block>, i: int, size: usize, align: usize) -> int
    decreases s.len() - i,
{
    if i >= s.len() { s.len() as int } else if fits(s[i], size, align) { i } else { first_fit(s, i + 1, size, align) }
}

/// The bytes an allocation from `b` takes: up to the end of the payload, or
/// the whole block when the rest would be too small to keep.
pub open spec fn taken_end(b: Block, size: usize, align: usize) -> int {
    let ae = alloc_end_at(b, size, align) as int;
    if end(b) - ae >= MIN_BLOCK { ae } else { end(b) }
}

/// The free list after carving an allocation out of block `i`.
pub open spec fn after_alloc(s: Seq<Block>, i: int, size: usize, align: usize) -> Seq<Block> {
    let b = s[i];
    let te = taken_end(b, size, align);
    if te < end(b) {
        s.update(i, Block { start: te as usize, size: (end(b) - te) as usize })
    } else {
        s.remove(i)
    }
}

/// The request's alignment, raised to the heap's granularity.
pub open spec fn eff_align(align: usize) -> usize {
    if align >= GRAIN { align } else { GRAIN }
}

/// A first-fit heap over one contiguous region: an address-ordered list of
/// free blocks, split on allocation and merged with both neighbours on free.
pub struct Heap {
    free: Vec<Block>,
    used: usize,
    peak: usize,
    capacity: usize,
}

impl Heap {
    pub closed spec fn free_list(&self) -> Seq<Block> {
        self.free@
    }

    pub closed spec fn used_spec(&self) -> int {
        self.used as int
    }

    pub closed spec fn peak_spec(&self) -> int {
        self.peak as int
    }

    pub closed spec fn capacity_spec(&self) -> int {
        self.capacity as int
    }

    /// The free list is ordered, and what is in use plus what is free is
    /// exactly the capacity.
    pub open spec fn wf(&self) -> bool {
        &&& ordered(self.free_list())
        &&& self.used_spec() + sum_sizes(self.free_list()) == self.capacity_spec()
        &&& self.used_spec() <= self.peak_spec()
    }

    /// A heap with no memory behind it yet.
    pub fn empty() -> (h: Heap)
        ensures
            h.wf(),
            h.free_list().len() == 0,
            h.used_spec() == 0,
            h.peak_spec() == 0,
            h.capacity_spec() == 0,
    {
        Heap { free: Vec::new(), used: 0, peak: 0, capacity: 0 }
    }

    pub fn used(&self) -> (r: usize)
        ensures r == self.used_spec(),
    {
        self.used
    }

    pub fn capacity(&self) -> (r: usize)
        ensures r == self.capacity_spec(),
    {
        self.capacity
    }
}

proof fn lemma_sum_concat(a: Seq<Block>, b: Seq<Block>)
    ensures sum_sizes(a + b) == sum_sizes(a) + sum_sizes(b),
    decreases b.len(),
{
    if b.len() > 0 {
        lemma_sum_concat(a, b.drop_last());
        assert((a + b).drop_last() =~= a + b.drop_last());
    } else {
        assert(a + b =~= a);
    }
}

proof fn lemma_sum_single(x: Block)
    ensures sum_sizes(seq![x]) == x.size,
{
    assert(seq![x].drop_last() =~= Seq::<Block>::empty());
    assert(sum_sizes(Seq::<Block>::empty()) == 0);
}

/// Replacing, removing or inserting one block changes the total by its size.
proof fn lemma_sum_edit(s: Seq<Block>, i: int, x: Block)
    requires 0 <= i < s.len(),
    ensures
        sum_sizes(s.update(i, x)) == sum_sizes(s) - s[i].size + x.size,
        sum_sizes(s.remove(i)) == sum_sizes(s) - s[i].size,
{
    let pre = s.take(i);
    let post = s.skip(i + 1);
    assert(s =~= pre + seq![s[i]] + post);
    assert(s.update(i, x) =~= pre + seq![x] + post);
    assert(s.remove(i) =~= pre + post);
    lemma_sum_concat(pre + seq![s[i]], post);
    lemma_sum_concat(pre, seq![s[i]]);
    lemma_sum_concat(pre + seq![x], post);
    lemma_sum_concat(pre, seq![x]);
    lemma_sum_concat(pre, post);
    lemma_sum_single(s[i]);
    lemma_sum_single(x);
}

proof fn lemma_sum_nonneg(s: Seq<Block>)
    ensures sum_sizes(s) >= 0,
    decreases s.len(),
{
    if s.len() > 0 {
        lemma_sum_nonneg(s.drop_last());
    }
}

proof fn lemma_first_fit_step(s: Seq<Block>, i: int, size: usize, align: usize)
    requires 0 <= i < s.len(), !fits(s[i], size, align),
    ensures first_fit(s, i, size, align) == first_fit(s, i + 1, size, align),
{
}

proof fn lemma_first_fit_range(s: Seq<Block>, i: int, size: usize, align: usize)
    requires 0 <= i <= s.len(),
    ensures
        i <= first_fit(s, i, size, align) <= s.len(),
        first_fit(s, i, size, align) < s.len() ==> fits(s[first_fit(s, i, size, align)], size, align),
    decreases s.len() - i,
{
    if i < s.len() && !fits(s[i], size, align) {
        lemma_first_fit_range(s, i + 1, size, align);
    }
}

impl Heap {
    /// Carves `size` bytes at alignment `align` (at least `GRAIN`) out of the
    /// first free block they fit in, leaving the rest of the block free if it
    /// is at least `MIN_BLOCK` long.
    pub fn allocate(&mut self, size: usize, align: usize) -> (g: Option<Grant>)
        requires
            old(self).wf(),
            is_pow2(align),
            align <= usize::MAX / 8,
            size <= usize::MAX / 8,
        ensures
            final(self).wf(),
            final(self).capacity_spec() == old(self).capacity_spec(),
            first_fit(old(self).free_list(), 0, size, eff_align(align)) == old(self).free_list().len() ==> {
                &&& g is None
                &&& final(self).free_list() == old(self).free_list()
                &&& final(self).used_spec() == old(self).used_spec()
                &&& final(self).peak_spec() == old(self).peak_spec()
            },
            g matches Some(gr) ==> ({
                let s = old(self).free_list();
                let a = eff_align(align);
                let i = first_fit(s, 0, size, a);
                &&& 0 <= i < s.len()
                &&& gr == (Grant {
                    payload: payload_at(s[i], a),
                    block_start: s[i].start,
                    taken: (taken_end(s[i], size, a) - s[i].start) as usize,
                })
                &&& final(self).free_list() == after_alloc(s, i, size, a)
                &&& final(self).used_spec() == old(self).used_spec() + (taken_end(s[i], size, a) - s[i].start)
                &&& final(self).peak_spec() == if final(self).used_spec() > old(self).peak_spec() {
                    final(self).used_spec()
                } else {
                    old(self).peak_spec()
                }
            }),
            first_fit(old(self).free_list(), 0, size, eff_align(align)) < old(self).free_list().len() ==> g is Some,
    {
        let a = if align >= GRAIN { align } else { GRAIN };
        let ghost s = self.free@;
        proof {
            lemma_sum_nonneg(s);
            assert(is_pow2(GRAIN)) by (bit_vector);
        }
        let mut i: usize = 0;
        while i < self.free.len()
            invariant
                self.free@ == s,
                self.wf(),
                *self == *old(self),
                is_pow2(a),
                align <= usize::MAX / 8,
                a <= usize::MAX / 8,
                size <= usize::MAX / 8,
                a == eff_align(align),
                0 <= i <= s.len(),
                first_fit(s, 0, size, a) == first_fit(s, i as int, size, a),
            decreases s.len() - i,
        {
            let b = self.free[i];
            let block_end = b.start + b.size;
            let payload = align_up(b.start + HEADER, a);
            let want = if size >= 1 { size } else { 1 };
            proof { assert(is_pow2(GRAIN)) by (bit_vector); }
            let alloc_end = align_up(payload + want, GRAIN);
            if alloc_end <= block_end {
                proof { lemma_first_fit_range(s, i as int, size, a); }
                let remainder = block_end - alloc_end;
                let t_end = if remainder >= MIN_BLOCK {
                    self.free.set(i, Block { start: alloc_end, size: remainder });
                    alloc_end
                } else {
                    self.free.remove(i);
                    block_end
                };
                proof {
                    lemma_sum_edit(s, i as int, Block { start: alloc_end, size: remainder });
                    lemma_sum_nonneg(s.remove(i as int));
                }
                self.used = self.used + (t_end - b.start);
                if self.used > self.peak {
                    self.peak = self.used;
                }
                assert(self.free@ == after_alloc(s, i as int, size, a));
                return Some(Grant { payload, block_start: b.start, taken: t_end - b.start });
            }
            proof { lemma_first_fit_step(s, i as int, size, a); }
            i += 1;
        }
        None
    }
}

/// `s` with the blocks `lo..hi` replaced by the single block `m`.
pub open spec fn splice(s: Seq<Block>, lo: int, hi: int, m: Block) -> Seq<Block> {
    s.take(lo) + seq![m] + s.skip(hi)
}

proof fn lemma_splice(s: Seq<Block>, lo: int, hi: int, m: Block, x: Block)
    requires
        ordered(s),
        0 <= lo <= hi <= s.len(),
        m.size > 0,
        end(m) <= addr_limit(),
        lo > 0 ==> end(s[lo - 1]) < m.start,
        hi < s.len() ==> end(m) < s[hi].start,
        forall|a: int| holds(m, a) <==> (holds(x, a) || exists|i: int| lo <= i < hi && #[trigger] holds(s[i], a)),
    ensures
        ordered(splice(s, lo, hi, m)),
        forall|a: int| in_free(splice(s, lo, hi, m), a) <==> (in_free(s, a) || holds(x, a)),
        sum_sizes(splice(s, lo, hi, m)) == sum_sizes(s) - sum_sizes(s.subrange(lo, hi)) + m.size,
{
    let t = splice(s, lo, hi, m);
    let n = lo + 1 + (s.len() - hi);
    assert(t.len() == n);
    assert forall|i: int| 0 <= i < t.len() implies
        t[i] == if i < lo { s[i] } else if i == lo { m } else { s[i - lo - 1 + hi] } by {
    }
    assert forall|i: int, j: int| 0 <= i < j < t.len() implies end(#[trigger] t[i]) < (#[trigger] t[j]).start by {
        if j < lo {
        } else if j == lo {
            assert(end(s[i]) < s[lo - 1].start || i == lo - 1);
            if i < lo - 1 {
                assert(end(s[i]) < s[lo - 1].start);
            }
        } else if i == lo {
            let jj = j - lo - 1 + hi;
            if jj > hi {
                assert(end(s[hi]) < s[jj].start);
            }
        } else if i < lo {
            let jj = j - lo - 1 + hi;
            assert(end(s[lo - 1]) < m.start);
            if hi < s.len() {
                assert(end(m) < s[hi].start);
                assert(s[hi].start <= s[jj].start) by {
                    if jj > hi { assert(end(s[hi]) < s[jj].start); }
                }
            }
            if i < lo - 1 {
                assert(end(s[i]) < s[lo - 1].start);
            }
        } else {
        }
    }
    assert forall|a: int| in_free(t, a) <==> (in_free(s, a) || holds(x, a)) by {
        if in_free(t, a) {
            let j = choose|j: int| 0 <= j < t.len() && #[trigger] holds(t[j], a);
            if j < lo {
                assert(holds(s[j], a));
            } else if j == lo {
                if !holds(x, a) {
                    let i = choose|i: int| lo <= i < hi && #[trigger] holds(s[i], a);
                    assert(holds(s[i], a));
                }
            } else {
                assert(holds(s[j - lo - 1 + hi], a));
            }
        }
        if holds(x, a) {
            assert(holds(t[lo], a));
        } else if in_free(s, a) {
            let i = choose|i: int| 0 <= i < s.len() && #[trigger] holds(s[i], a);
            if i < lo {
                assert(holds(t[i], a));
            } else if i < hi {
                assert(holds(m, a));
                assert(holds(t[lo], a));
            } else {
                assert(holds(t[i - hi + lo + 1], a));
            }
        }
    }
    assert(s =~= s.take(lo) + s.subrange(lo, hi) + s.skip(hi));
    lemma_sum_concat(s.take(lo) + s.subrange(lo, hi), s.skip(hi));
    lemma_sum_concat(s.take(lo), s.subrange(lo, hi));
    lemma_sum_concat(s.take(lo) + seq![m], s.skip(hi));
    lemma_sum_concat(s.take(lo), seq![m]);
    lemma_sum_single(m);
}

proof fn lemma_sum_two(s: Seq<Block>, i: int)
    requires 0 <= i, i + 2 <= s.len(),
    ensures
        sum_sizes(s.subrange(i, i + 1)) == s[i].size,
        sum_sizes(s.subrange(i, i + 2)) == s[i].size + s[i + 1].size,
        sum_sizes(s.subrange(i, i)) == 0,
{
    assert(s.subrange(i, i + 1) =~= seq![s[i]]);
    assert(s.subrange(i, i + 2) =~= seq![s[i]] + seq![s[i + 1]]);
    assert(s.subrange(i, i) =~= Seq::<Block>::empty());
    lemma_sum_single(s[i]);
    lemma_sum_single(s[i + 1]);
    lemma_sum_concat(seq![s[i]], seq![s[i + 1]]);
}

/// The free neighbours of the slot `k` where a returned block goes cannot
/// overlap it.
proof fn lemma_neighbours(s: Seq<Block>, k: int, x: Block)
    requires
        ordered(s),
        0 <= k <= s.len(),
        x.size > 0,
        forall|i: int| 0 <= i < k ==> (#[trigger] s[i]).start < x.start,
        k < s.len() ==> s[k].start >= x.start,
        forall|a: int| x.start <= a < end(x) ==> !in_free(s, a),
    ensures
        k > 0 ==> end(s[k - 1]) <= x.start,
        k < s.len() ==> end(x) <= s[k].start,
{
    if k > 0 && end(s[k - 1]) > x.start {
        assert(holds(s[k - 1], x.start as int));
        assert(in_free(s, x.start as int));
    }
    if k < s.len() && s[k].start < end(x) {
        assert(holds(s[k], s[k].start as int));
        assert(in_free(s, s[k].start as int));
    }
}

/// Merging the returned block `x` with the touching neighbours `lo..hi`
/// around its slot `k` gives one block holding exactly their bytes, in a
/// list that stays ordered.
proof fn lemma_merge_cover(s: Seq<Block>, k: int, lo: int, hi: int, m: Block, x: Block)
    requires
        ordered(s),
        0 <= k <= s.len(),
        x.size > 0,
        end(x) <= addr_limit(),
        k > 0 ==> end(s[k - 1]) <= x.start,
        k < s.len() ==> end(x) <= s[k].start,
        lo == k - 1 || lo == k,
        hi == k || hi == k + 1,
        lo == k - 1 <==> (k > 0 && end(s[k - 1]) == x.start),
        hi == k + 1 <==> (k < s.len() && end(x) == s[k].start),
        m.start == if lo == k - 1 { s[k - 1].start } else { x.start },
        m.size == x.size + (if lo == k - 1 { s[k - 1].size as int } else { 0 }) + (if hi == k + 1 { s[k].size as int } else { 0 }),
    ensures
        ordered(splice(s, lo, hi, m)),
        forall|a: int| in_free(splice(s, lo, hi, m), a) <==> (in_free(s, a) || holds(x, a)),
        sum_sizes(splice(s, lo, hi, m)) == sum_sizes(s) + x.size,
{
    assert forall|a: int| holds(m, a) <==> (holds(x, a) || exists|i: int| lo <= i < hi && #[trigger] holds(s[i], a)) by {
        if lo == k - 1 && holds(s[k - 1], a) { assert(holds(m, a)); }
        if hi == k + 1 && holds(s[k], a) { assert(holds(m, a)); }
        if exists|i: int| lo <= i < hi && #[trigger] holds(s[i], a) {
            let i = choose|i: int| lo <= i < hi && #[trigger] holds(s[i], a);
            assert(i == k - 1 || i == k);
        }
        if holds(m, a) && !holds(x, a) {
            if a < x.start { assert(holds(s[k - 1], a)); } else { assert(holds(s[k], a)); }
        }
    }
    if lo > 0 {
        if lo == k - 1 {
            assert(end(s[lo - 1]) < s[lo].start);
        } else {
            assert(end(s[k - 1]) < x.start);
        }
    }
    if hi < s.len() {
        if hi == k + 1 {
            assert(end(s[k]) < s[hi].start);
        }
    }
    if hi == k + 1 && lo == k - 1 {
        lemma_sum_two(s, k - 1);
    } else if lo == k - 1 {
        assert(s.subrange(lo, hi) =~= seq![s[k - 1]]);
        lemma_sum_single(s[k - 1]);
    } else if hi == k + 1 {
        assert(s.subrange(lo, hi) =~= seq![s[k]]);
        lemma_sum_single(s[k]);
    } else {
        assert(s.subrange(lo, hi) =~= Seq::<Block>::empty());
    }
    lemma_splice(s, lo, hi, m, x);
}

impl Heap {
    /// Gives the `size` bytes at `start` back, merging them with a free
    /// neighbour on either side that they touch.
    #[verifier::rlimit(40)]
    pub fn deallocate(&mut self, start: usize, size: usize)
        requires
            old(self).wf(),
            0 < size <= old(self).used_spec(),
            start + size <= addr_limit(),
            forall|a: int| start <= a < start + size ==> !in_free(old(self).free_list(), a),
        ensures
            final(self).wf(),
            final(self).capacity_spec() == old(self).capacity_spec(),
            final(self).peak_spec() == old(self).peak_spec(),
            final(self).used_spec() == old(self).used_spec() - size,
            forall|a: int| in_free(final(self).free_list(), a)
                <==> (in_free(old(self).free_list(), a) || start <= a < start + size),
    {
        let ghost s = self.free@;
        let x = Block { start, size };
        self.used = self.used - size;

        // Find where the block goes: after every free block that starts
        // below it.
        let mut k: usize = 0;
        while k < self.free.len() && self.free[k].start < start
            invariant
                self.free@ == s,
                0 <= k <= s.len(),
                forall|i: int| 0 <= i < k ==> (#[trigger] s[i]).start < start,
            decreases s.len() - k,
        {
            k += 1;
        }
        let n = self.free.len();
        proof { lemma_neighbours(s, k as int, x); }
        let merge_next = k < n && start + size == self.free[k].start;
        let merge_prev = k > 0 && self.free[k - 1].start + self.free[k - 1].size == start;
        let lo = if merge_prev { k - 1 } else { k };
        let hi = if merge_next { k + 1 } else { k };
        let m_start = if merge_prev { self.free[k - 1].start } else { start };
        let mut m_size = size;
        if merge_prev {
            m_size = m_size + self.free[k - 1].size;
        }
        if merge_next {
            m_size = m_size + self.free[k].size;
        }
        let m = Block { start: m_start, size: m_size };
        proof { lemma_merge_cover(s, k as int, lo as int, hi as int, m, x); }
        if merge_prev && merge_next {
            self.free.set(k - 1, m);
            self.free.remove(k);
        } else if merge_prev {
            self.free.set(k - 1, m);
        } else if merge_next {
            self.free.set(k, m);
        } else {
            self.free.insert(k, m);
        }
        proof {
            assert(self.free@ =~= splice(s, lo as int, hi as int, m));
            assert forall|a: int| #[trigger] in_free(self.free@, a) <==> (in_free(s, a) || start <= a < start + size) by {
                assert(holds(x, a) <==> start <= a < start + size);
            }
        }
    }
}

/// How many bytes of a `size` byte region at `start` a heap can use: what
/// is left after aligning the start to `GRAIN`, rounded down to `GRAIN`.
pub open spec fn usable_bytes(start: usize, size: usize) -> usize {
    let skip = round_up(start as int, GRAIN) - start;
    if size >= skip { ((size - skip) as usize) & !((GRAIN - 1) as usize) } else { 0 }
}

/// The largest block size in `s`, or 0 for an empty list.
pub open spec fn largest(s: Seq<Block>) -> usize
    decreases s.len(),
{
    if s.len() == 0 {
        0
    } else if s.last().size > largest(s.drop_last()) {
        s.last().size
    } else {
        largest(s.drop_last())
    }
}

impl Heap {
    /// Hands the heap the `size` bytes at `start`. Returns false, and leaves
    /// the heap empty, when fewer than `MIN_BLOCK` of them are usable.
    pub fn init(&mut self, start: usize, size: usize) -> (ok: bool)
        requires
            old(self).wf(),
            old(self).free_list().len() == 0,
            old(self).used_spec() == 0,
            old(self).capacity_spec() == 0,
            start + size + GRAIN <= addr_limit(),
        ensures
            final(self).wf(),
            ok == (usable_bytes(start, size) >= MIN_BLOCK),
            ok ==> final(self).free_list() == seq![Block { start: round_up(start as int, GRAIN), size: usable_bytes(start, size) }],
            ok ==> final(self).capacity_spec() == usable_bytes(start, size),
            !ok ==> *final(self) == *old(self),
            final(self).used_spec() == 0,
    {
        proof { assert(is_pow2(GRAIN)) by (bit_vector); }
        let aligned = align_up(start, GRAIN);
        let skip = aligned - start;
        let usable = match size.checked_sub(skip) {
            Some(n) => n & !(GRAIN - 1),
            None => 0,
        };
        proof {
            let n = (size - skip) as usize;
            if size >= skip {
                assert(n & !15usize <= n) by (bit_vector);
            }
        }
        if usable < MIN_BLOCK {
            return false;
        }
        self.free = vec![Block { start: aligned, size: usable }];
        self.capacity = usable;
        proof {
            assert(self.free@.drop_last() =~= Seq::<Block>::empty());
            assert(sum_sizes(Seq::<Block>::empty()) == 0);
        }
        true
    }

    /// The heap's bookkeeping: bytes in use, the most ever in use, the
    /// capacity, and the number and largest size of the free blocks.
    pub fn stats(&self) -> (st: Stats)
        requires self.wf(),
        ensures
            st == (Stats {
                used: self.used_spec() as usize,
                peak: self.peak_spec() as usize,
                capacity: self.capacity_spec() as usize,
                free_blocks: self.free_list().len() as usize,
                largest_free: largest(self.free_list()),
            }),
    {
        let mut largest_free: usize = 0;
        let mut i: usize = 0;
        while i < self.free.len()
            invariant
                i <= self.free@.len(),
                largest_free == largest(self.free@.take(i as int)),
            decreases self.free@.len() - i,
        {
            proof { assert(self.free@.take(i + 1).drop_last() =~= self.free@.take(i as int)); }
            let size = self.free[i].size;
            if size > largest_free {
                largest_free = size;
            }
            i += 1;
        }
        proof { assert(self.free@.take(self.free@.len() as int) =~= self.free@); }
        Stats {
            used: self.used,
            peak: self.peak,
            capacity: self.capacity,
            free_blocks: self.free.len(),
            largest_free,
        }
    }
}

/// `round_up` gives the first multiple of `align` at or above `value`.
pub proof fn lemma_round_up(value: usize, align: usize)
    requires
        is_pow2(align),
        value + align - 1 <= usize::MAX,
    ensures
        aligned(round_up(value as int, align), align),
        value <= round_up(value as int, align) < value + align,
{
    let m = (align - 1) as usize;
    let t = (value + m) as usize;
    lemma_align_bits(value, align, m, t, t & !m);
}

/// An allocation is carved out of free memory: the bytes from the block's
/// start to the end of what was taken were free and no longer are, nothing
/// else changes, and the payload is aligned, behind room for the header, and
/// long enough for the request.
pub proof fn lemma_allocation_carves(s: Seq<Block>, size: usize, align: usize)
    requires
        ordered(s),
        is_pow2(align),
        align >= GRAIN,
        align <= usize::MAX / 8,
        size <= usize::MAX / 8,
        first_fit(s, 0, size, align) < s.len(),
    ensures ({
        let i = first_fit(s, 0, size, align);
        let b = s[i];
        let te = taken_end(b, size, align);
        let p = payload_at(b, align);
        &&& ordered(after_alloc(s, i, size, align))
        &&& forall|a: int| in_free(after_alloc(s, i, size, align), a) <==> (in_free(s, a) && !(b.start <= a < te))
        &&& forall|a: int| b.start <= a < te ==> in_free(s, a)
        &&& aligned(p, align)
        &&& b.start + HEADER <= p
        &&& p + size <= te
        &&& te <= end(b)
        &&& te - b.start > HEADER
    }),
{
    let i = first_fit(s, 0, size, align);
    lemma_first_fit_range(s, 0, size, align);
    let b = s[i];
    lemma_round_up((b.start + HEADER) as usize, align);
    let p = payload_at(b, align);
    let want: usize = if size >= 1 { size } else { 1 };
    assert(is_pow2(GRAIN)) by (bit_vector);
    lemma_round_up((p + want) as usize, GRAIN);
    let te = taken_end(b, size, align);
    let t = after_alloc(s, i, size, align);
    assert forall|a: int| b.start <= a < te implies in_free(s, a) by {
        assert(holds(s[i], a));
    }
    if te < end(b) {
        let nb = Block { start: te as usize, size: (end(b) - te) as usize };
        assert(t == s.update(i, nb));
        assert forall|j: int, k: int| 0 <= j < k < t.len() implies end(#[trigger] t[j]) < (#[trigger] t[k]).start by {
            if j == i { assert(end(s[i]) < s[k].start); }
            if k == i { assert(end(s[j]) < s[i].start); }
        }
        assert forall|a: int| in_free(t, a) <==> (in_free(s, a) && !(b.start <= a < te)) by {
            if in_free(t, a) {
                let j = choose|j: int| 0 <= j < t.len() && #[trigger] holds(t[j], a);
                if j == i {
                    assert(holds(s[i], a));
                } else {
                    assert(holds(s[j], a));
                    if b.start <= a < te {
                        if j < i { assert(end(s[j]) < s[i].start); } else { assert(end(s[i]) < s[j].start); }
                    }
                }
            }
            if in_free(s, a) && !(b.start <= a < te) {
                let j = choose|j: int| 0 <= j < s.len() && #[trigger] holds(s[j], a);
                assert(holds(t[j], a));
            }
        }
    } else {
        assert(t == s.remove(i));
        assert forall|j: int, k: int| 0 <= j < k < t.len() implies end(#[trigger] t[j]) < (#[trigger] t[k]).start by {
            let jj = if j < i { j } else { j + 1 };
            let kk = if k < i { k } else { k + 1 };
            assert(end(s[jj]) < s[kk].start);
        }
        assert forall|a: int| in_free(t, a) <==> (in_free(s, a) && !(b.start <= a < te)) by {
            if in_free(t, a) {
                let j = choose|j: int| 0 <= j < t.len() && #[trigger] holds(t[j], a);
                let jj = if j < i { j } else { j + 1 };
                assert(holds(s[jj], a));
                if b.start <= a < te {
                    if jj < i { assert(end(s[jj]) < s[i].start); } else { assert(end(s[i]) < s[jj].start); }
                }
            }
            if in_free(s, a) && !(b.start <= a < te) {
                let j = choose|j: int| 0 <= j < s.len() && #[trigger] holds(s[j], a);
                if j < i { assert(holds(t[j], a)); } else { assert(j != i); assert(holds(t[j - 1], a)); }
            }
        }
    }
}

/// Giving back exactly what an allocation took restores the free memory the
/// heap had before it.
pub proof fn lemma_free_restores(s: Seq<Block>, size: usize, align: usize)
    requires
        ordered(s),
        is_pow2(align),
        align >= GRAIN,
        align <= usize::MAX / 8,
        size <= usize::MAX / 8,
        first_fit(s, 0, size, align) < s.len(),
    ensures ({
        let i = first_fit(s, 0, size, align);
        let te = taken_end(s[i], size, align);
        forall|a: int| (in_free(after_alloc(s, i, size, align), a) || s[i].start <= a < te) <==> in_free(s, a)
    }),
{
    lemma_allocation_carves(s, size, align);
}

/// Free lists are canonical: two ordered lists that leave the same bytes
/// free are the same list, since touching blocks are always merged.
pub proof fn lemma_free_list_canonical(s: Seq<Block>, t: Seq<Block>)
    requires
        ordered(s),
        ordered(t),
        forall|a: int| in_free(s, a) <==> in_free(t, a),
    ensures s == t,
    decreases s.len() + t.len(),
{
    if s.len() == 0 || t.len() == 0 {
        if s.len() > 0 {
            assert(holds(s[0], s[0].start as int));
            assert(in_free(s, s[0].start as int));
        }
        if t.len() > 0 {
            assert(holds(t[0], t[0].start as int));
            assert(in_free(t, t[0].start as int));
        }
        assert(s =~= t);
        return;
    }
    let (b, c) = (s[0], t[0]);
    // The first blocks start at the lowest free byte.
    assert(holds(b, b.start as int) && in_free(s, b.start as int));
    assert(holds(c, c.start as int) && in_free(t, c.start as int));
    let jb = choose|j: int| 0 <= j < t.len() && #[trigger] holds(t[j], b.start as int);
    if jb > 0 { assert(end(t[0]) < t[jb].start); }
    let jc = choose|j: int| 0 <= j < s.len() && #[trigger] holds(s[j], c.start as int);
    if jc > 0 { assert(end(s[0]) < s[jc].start); }
    assert(b.start == c.start);
    assert(b.size > 0 && c.size > 0);
    // And end where the first gap begins.
    if end(b) < end(c) {
        assert(holds(t[0], end(b)));
        assert(in_free(t, end(b)));
        let j = choose|j: int| 0 <= j < s.len() && #[trigger] holds(s[j], end(b));
        if j > 0 { assert(end(s[0]) < s[j].start); }
    }
    if end(c) < end(b) {
        assert(holds(s[0], end(c)));
        assert(in_free(s, end(c)));
        let j = choose|j: int| 0 <= j < t.len() && #[trigger] holds(t[j], end(c));
        if j > 0 { assert(end(t[0]) < t[j].start); }
    }
    assert(b == c);
    let (s1, t1) = (s.skip(1), t.skip(1));
    assert forall|a: int| in_free(s1, a) <==> in_free(t1, a) by {
        if in_free(s1, a) {
            let j = choose|j: int| 0 <= j < s1.len() && #[trigger] holds(s1[j], a);
            assert(holds(s[j + 1], a));
            assert(end(s[0]) < s[j + 1].start);
            assert(in_free(t, a));
            let k = choose|k: int| 0 <= k < t.len() && #[trigger] holds(t[k], a);
            assert(k != 0);
            assert(holds(t1[k - 1], a));
        }
        if in_free(t1, a) {
            let j = choose|j: int| 0 <= j < t1.len() && #[trigger] holds(t1[j], a);
            assert(holds(t[j + 1], a));
            assert(end(t[0]) < t[j + 1].start);
            assert(in_free(s, a));
            let k = choose|k: int| 0 <= k < s.len() && #[trigger] holds(s[k], a);
            assert(k != 0);
            assert(holds(s1[k - 1], a));
        }
    }
    assert forall|i: int, j: int| 0 <= i < j < s1.len() implies end(#[trigger] s1[i]) < (#[trigger] s1[j]).start by {
        assert(end(s[i + 1]) < s[j + 1].start);
    }
    assert forall|i: int, j: int| 0 <= i < j < t1.len() implies end(#[trigger] t1[i]) < (#[trigger] t1[j]).start by {
        assert(end(t[i + 1]) < t[j + 1].start);
    }
    lemma_free_list_canonical(s1, t1);
    assert(s =~= seq![b] + s1);
    assert(t =~= seq![c] + t1);
}

/// A heap whose free bytes are back to what they were is back to what it
/// was: after any run of allocations and frees that gives back everything
/// it took (which `allocate` and `deallocate` state byte by byte), the free
/// list, and with it the bytes in use, the number of free blocks and the
/// largest one, are as before.
pub proof fn lemma_heap_restored(before: Heap, after: Heap)
    requires
        before.wf(),
        after.wf(),
        after.capacity_spec() == before.capacity_spec(),
        forall|a: int| in_free(after.free_list(), a) <==> in_free(before.free_list(), a),
    ensures
        after.free_list() == before.free_list(),
        after.used_spec() == before.used_spec(),
        largest(after.free_list()) == largest(before.free_list()),
{
    lemma_free_list_canonical(after.free_list(), before.free_list());
}

} // verus!

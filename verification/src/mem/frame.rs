use vstd::prelude::*;

verus! {

/// The size of a physical frame.
pub const FRAME_SIZE: u64 = 4096;

/// One past the highest physical address the processor can reach (52 bits).
pub const PHYS_LIMIT: u64 = 0x10_0000_0000_0000;

/// What a range of physical memory is, as the boot loader reports it.
#[derive(Copy, Clone, PartialEq, Eq, Debug, Structural)]
pub enum MemoryRegionKind {
    /// Unused conventional memory, free for the kernel.
    Usable,
    /// Mappings the boot loader made; not to be touched.
    Bootloader,
    /// Firmware memory of a UEFI type tag the boot loader did not know.
    UnknownUefi(u32),
    /// Firmware memory of an E820 type the boot loader did not know.
    UnknownBios(u32),
}

/// The physical range `start..end` and what it holds.
#[derive(Copy, Clone, PartialEq, Eq, Debug, Structural)]
pub struct MemoryRegion {
    pub start: u64,
    pub end: u64,
    pub kind: MemoryRegionKind,
}

/// Every region runs forward and lies below `PHYS_LIMIT`.
pub open spec fn regions_ok(rs: Seq<MemoryRegion>) -> bool {
    forall|i: int| 0 <= i < rs.len() ==> #[trigger] rs[i].start <= rs[i].end && rs[i].end <= PHYS_LIMIT
}

/// Every region ends before the next one starts.
pub open spec fn regions_sorted(rs: Seq<MemoryRegion>) -> bool {
    forall|i: int, j: int| 0 <= i < j < rs.len() ==> #[trigger] rs[i].end <= #[trigger] rs[j].start
}

/// `a` rounded up to a whole frame.
pub open spec fn frame_align_up(a: int) -> int {
    (a + 4095) / 4096 * 4096
}

/// The first whole frame of region `r` at or after address `from`.
pub open spec fn first_frame(r: MemoryRegion, from: int) -> int {
    frame_align_up(if r.start >= from { r.start as int } else { from })
}

/// Whether region `r` is usable and still has a whole frame at or after `from`.
pub open spec fn has_frame(r: MemoryRegion, from: int) -> bool {
    r.kind is Usable && first_frame(r, from) + FRAME_SIZE <= r.end
}

/// Where the next frame comes from when the search starts in region `idx`
/// at address `from`: the first region from `idx` on that still has a
/// frame, and that frame; later regions are searched from their start. Past
/// the last region it is `rs.len()`, with `from` left as it was, or 0 once
/// a region was passed.
pub open spec fn seek(rs: Seq<MemoryRegion>, idx: int, from: int) -> (int, int)
    decreases rs.len() - idx,
{
    if idx >= rs.len() || idx < 0 {
        (idx, from)
    } else if has_frame(rs[idx], from) {
        (idx, first_frame(rs[idx], from))
    } else {
        seek(rs, idx + 1, 0)
    }
}

/// The number of whole frames in the usable regions among `rs`.
pub open spec fn usable_frames(rs: Seq<MemoryRegion>) -> int
    decreases rs.len(),
{
    if rs.len() == 0 {
        0
    } else {
        usable_frames(rs.drop_last()) + if rs.last().kind is Usable {
            (rs.last().end - rs.last().start) / 4096
        } else {
            0
        }
    }
}

/// Hands out the physical frames of the boot loader's usable regions, one
/// after another, and never takes one back.
pub struct BootFrameAllocator<'a> {
    regions: &'a [MemoryRegion],
    region_idx: usize,
    next_addr: u64,
    handed_out: usize,
}

proof fn lemma_align_up(a: int)
    requires 0 <= a,
    ensures
        a <= frame_align_up(a) < a + 4096,
        frame_align_up(a) % 4096 == 0,
{
    let q = (a + 4095) / 4096;
    assert(q * 4096 <= a + 4095 < q * 4096 + 4096);
    assert((q * 4096) % 4096 == 0) by (nonlinear_arith);
}

/// What `seek` finds lies in the region it names, is a whole frame, and
/// comes no earlier than where the search started.
proof fn lemma_seek(rs: Seq<MemoryRegion>, idx: int, from: int)
    requires
        regions_ok(rs),
        0 <= idx,
        0 <= from,
    ensures
        seek(rs, idx, from).0 >= idx,
        seek(rs, idx, from).0 < rs.len() ==> {
            let (i, a) = seek(rs, idx, from);
            &&& has_frame(rs[i], if i == idx { from } else { 0 })
            &&& a == first_frame(rs[i], if i == idx { from } else { 0 })
            &&& rs[i].start <= a
            &&& a + FRAME_SIZE <= rs[i].end
            &&& a % 4096 == 0
            &&& (i == idx ==> a >= from)
        },
        seek(rs, idx, from).0 >= rs.len() ==> seek(rs, idx, from).0 == if idx >= rs.len() { idx } else { rs.len() as int },
        seek(rs, idx, from).0 >= rs.len() ==> seek(rs, idx, from).1 == if idx >= rs.len() { from } else { 0 },
    decreases rs.len() - idx,
{
    if idx < rs.len() {
        let r = rs[idx];
        let base = if r.start >= from { r.start as int } else { from };
        lemma_align_up(base);
        if !has_frame(r, from) {
            lemma_seek(rs, idx + 1, 0);
        }
    }
}

/// `(a + 4095) & !4095`, for addresses below `PHYS_LIMIT`.
fn align_up(addr: u64) -> (r: u64)
    requires addr <= PHYS_LIMIT,
    ensures r == frame_align_up(addr as int),
{
    let s = addr + 4095;
    assert(s & !4095u64 == s - s % 4096) by (bit_vector);
    s & !4095
}

impl<'a> BootFrameAllocator<'a> {
    pub closed spec fn regions_spec(&self) -> Seq<MemoryRegion> {
        self.regions@
    }

    /// The region the next frame is looked for in.
    pub closed spec fn region_idx_spec(&self) -> int {
        self.region_idx as int
    }

    /// The address the next frame is looked for at.
    pub closed spec fn next_addr_spec(&self) -> int {
        self.next_addr as int
    }

    pub closed spec fn handed_out_spec(&self) -> int {
        self.handed_out as int
    }

    /// The regions are well formed and the cursor is a whole frame within
    /// reach.
    pub open spec fn wf(&self) -> bool {
        &&& regions_ok(self.regions_spec())
        &&& 0 <= self.region_idx_spec() <= self.regions_spec().len()
        &&& 0 <= self.next_addr_spec() <= PHYS_LIMIT
    }

    /// Starts at the first frame of the first usable region.
    pub fn new(regions: &'a [MemoryRegion]) -> (a: BootFrameAllocator<'a>)
        requires regions_ok(regions@),
        ensures
            a.wf(),
            a.regions_spec() == regions@,
            (a.region_idx_spec(), a.next_addr_spec()) == seek(regions@, 0, 0),
            a.handed_out_spec() == 0,
    {
        let mut me = BootFrameAllocator { regions, region_idx: 0, next_addr: 0, handed_out: 0 };
        me.seek_usable();
        me
    }

    /// The number of whole frames in all usable regions.
    pub fn total_frames(&self) -> (n: u64)
        requires
            self.wf(),
            usable_frames(self.regions_spec()) <= u64::MAX,
        ensures n == usable_frames(self.regions_spec()),
    {
        let mut total: u64 = 0;
        let mut i: usize = 0;
        while i < self.regions.len()
            invariant
                i <= self.regions@.len(),
                regions_ok(self.regions@),
                usable_frames(self.regions@) <= u64::MAX,
                total == usable_frames(self.regions@.take(i as int)),
            decreases self.regions@.len() - i,
        {
            let r = self.regions[i];
            proof {
                assert(self.regions@.take(i + 1).drop_last() =~= self.regions@.take(i as int));
                lemma_usable_frames_prefix(self.regions@, i + 1);
            }
            match r.kind {
                MemoryRegionKind::Usable => { total = total + (r.end - r.start) / 4096; },
                _ => {},
            }
            i += 1;
        }
        proof { assert(self.regions@.take(self.regions@.len() as int) =~= self.regions@); }
        total
    }

    /// How many frames were handed out so far.
    pub fn handed_out(&self) -> (n: usize)
        ensures n == self.handed_out_spec(),
    {
        self.handed_out
    }

    /// Moves the cursor to the next whole frame of a usable region, or past
    /// the last region if none is left.
    fn seek_usable(&mut self)
        requires old(self).wf(),
        ensures
            final(self).wf(),
            final(self).regions == old(self).regions,
            final(self).handed_out == old(self).handed_out,
            (final(self).region_idx_spec(), final(self).next_addr_spec())
                == seek(old(self).regions@, old(self).region_idx as int, old(self).next_addr as int),
    {
        let ghost target = seek(self.regions@, self.region_idx as int, self.next_addr as int);
        while self.region_idx < self.regions.len()
            invariant
                self.wf(),
                self.regions == old(self).regions,
                self.handed_out == old(self).handed_out,
                seek(self.regions@, self.region_idx as int, self.next_addr as int) == target,
                target == seek(old(self).regions@, old(self).region_idx as int, old(self).next_addr as int),
            decreases self.regions@.len() - self.region_idx,
        {
            let region = self.regions[self.region_idx];
            proof { assert(regions_ok(self.regions@)); assert(region.end <= PHYS_LIMIT); }
            match region.kind {
                MemoryRegionKind::Usable => {
                    let from = if region.start >= self.next_addr { region.start } else { self.next_addr };
                    let start = align_up(from);
                    proof { lemma_align_up(from as int); }
                    if start + FRAME_SIZE <= region.end {
                        self.next_addr = start;
                        return;
                    }
                },
                _ => {},
            }
            self.region_idx += 1;
            self.next_addr = 0;
        }
    }

    /// Hands out the next free frame's address, or nothing once every usable
    /// region is spent.
    pub fn allocate_frame(&mut self) -> (frame: Option<u64>)
        requires
            old(self).wf(),
            old(self).handed_out_spec() < usize::MAX,
        ensures
            final(self).wf(),
            final(self).regions_spec() == old(self).regions_spec(),
            ({
                let (i, a) = seek(old(self).regions_spec(), old(self).region_idx_spec(), old(self).next_addr_spec());
                if i < old(self).regions_spec().len() {
                    &&& frame == Some(a as u64)
                    &&& final(self).region_idx_spec() == i
                    &&& final(self).next_addr_spec() == a + FRAME_SIZE
                    &&& final(self).handed_out_spec() == old(self).handed_out_spec() + 1
                } else {
                    &&& frame is None
                    &&& final(self).region_idx_spec() == i
                    &&& final(self).next_addr_spec() == a
                    &&& final(self).handed_out_spec() == old(self).handed_out_spec()
                }
            }),
    {
        proof { lemma_seek(self.regions@, self.region_idx as int, self.next_addr as int); }
        self.seek_usable();
        if self.region_idx >= self.regions.len() {
            return None;
        }
        let addr = self.next_addr;
        proof { assert(regions_ok(self.regions@)); assert(self.regions@[self.region_idx as int].end <= PHYS_LIMIT); }
        self.next_addr = self.next_addr + FRAME_SIZE;
        self.handed_out = self.handed_out + 1;
        Some(addr)
    }
}

proof fn lemma_usable_frames_prefix(rs: Seq<MemoryRegion>, k: int)
    requires
        0 <= k <= rs.len(),
        regions_ok(rs),
    ensures
        0 <= usable_frames(rs.take(k)) <= usable_frames(rs),
    decreases rs.len() - k,
{
    lemma_usable_frames_nonneg(rs.take(k));
    if k < rs.len() {
        lemma_usable_frames_prefix(rs, k + 1);
        assert(rs.take(k + 1).drop_last() =~= rs.take(k));
        assert(rs.take(k + 1).last() == rs[k]);
    } else {
        assert(rs.take(k) =~= rs);
    }
}

proof fn lemma_usable_frames_nonneg(rs: Seq<MemoryRegion>)
    requires regions_ok(rs),
    ensures 0 <= usable_frames(rs),
    decreases rs.len(),
{
    if rs.len() > 0 {
        let p = rs.drop_last();
        assert forall|i: int| 0 <= i < p.len() implies #[trigger] p[i].start <= p[i].end && p[i].end <= PHYS_LIMIT by {
            assert(p[i] == rs[i]);
        }
        lemma_usable_frames_nonneg(p);
        assert(rs.last() == rs[rs.len() - 1]);
    }
}

/// Every frame handed out is a whole frame of a usable region, and with
/// regions in address order each one lies above the one before it, so no
/// frame is ever handed out twice.
pub proof fn lemma_frames_ascend(rs: Seq<MemoryRegion>, idx: int, from: int)
    requires
        regions_ok(rs),
        regions_sorted(rs),
        0 <= idx,
        0 <= from,
    ensures
        ({
            let (i, a) = seek(rs, idx, from);
            i < rs.len() ==> {
                &&& rs[i].kind is Usable
                &&& rs[i].start <= a && a + FRAME_SIZE <= rs[i].end
                &&& a % 4096 == 0
                &&& (seek(rs, i, a + FRAME_SIZE).0 < rs.len() ==> a + FRAME_SIZE <= seek(rs, i, a + FRAME_SIZE).1)
            }
        }),
{
    lemma_seek(rs, idx, from);
    let (i, a) = seek(rs, idx, from);
    if i < rs.len() {
        lemma_seek(rs, i, a + FRAME_SIZE);
        let (j, b) = seek(rs, i, a + FRAME_SIZE);
        if j < rs.len() && j != i {
            assert(rs[i].end <= rs[j].start);
        }
    }
}

} // verus!

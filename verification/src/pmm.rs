//! Physical frame allocator: one bit per 4 KiB frame, 0 = free, 1 = used.
//!
//! Every frame starts out used; [`init`] releases what the firmware memory map
//! lists as RAM and then takes back everything up to the end of the kernel
//! image. A map with holes therefore leaves memory unused instead of handing
//! out memory that is not there.
use vstd::prelude::*;
use crate::bits;
use crate::mb2;

verus! {

pub const FRAME_SIZE: u64 = 4096;

/// Enough frames to cover the first 4 GiB.
pub const MAX_FRAMES: usize = 1_048_576;

pub const BITMAP_WORDS: usize = 16_384;

/// First physical address past the last frame.
pub const MANAGED_BYTES: u64 = 0x1_0000_0000;

/// The frame bitmap. Its view is the set of physical addresses of the free
/// frames.
pub struct FrameBitmap {
    words: Vec<u64>,
}

impl View for FrameBitmap {
    type V = Set<u64>;

    closed spec fn view(&self) -> Set<u64> {
        Set::new(|a: u64| a % 4096 == 0 && self.free_at(a as int / 4096))
    }
}

impl FrameBitmap {
    pub closed spec fn wf(&self) -> bool {
        self.words@.len() == BITMAP_WORDS
    }

    /// Whether frame number `f` exists and is free.
    pub closed spec fn free_at(&self, f: int) -> bool {
        0 <= f < MAX_FRAMES && !bits::bit(self.words@[f / 64], f % 64)
    }

    /// Frame numbers and frame addresses describe the same set.
    pub broadcast proof fn lemma_view(&self, a: u64)
        ensures
            #[trigger] self@.contains(a) <==> a % 4096 == 0 && self.free_at(a as int / 4096),
    {
    }

    pub broadcast proof fn lemma_free_at_range(&self, f: int)
        ensures
            #[trigger] self.free_at(f) ==> 0 <= f < MAX_FRAMES,
    {
    }

    /// Free frames are page aligned and below [`MANAGED_BYTES`].
    pub broadcast proof fn lemma_frame_range(&self, a: u64)
        ensures
            #[trigger] self@.contains(a) ==> a % 4096 == 0 && a < MANAGED_BYTES,
    {
    }

    proof fn lemma_finite_below(&self, k: nat)
        ensures
            Set::new(|a: u64| self@.contains(a) && a < k * 4096).finite(),
        decreases k,
    {
        broadcast use FrameBitmap::lemma_view;

        let s = Set::new(|a: u64| self@.contains(a) && a < k * 4096);
        if k == 0 {
            assert(s =~= Set::<u64>::empty());
        } else {
            self.lemma_finite_below((k - 1) as nat);
            let t = Set::new(|a: u64| self@.contains(a) && a < (k - 1) * 4096);
            assert(s.subset_of(t.insert(((k - 1) * 4096) as u64)));
            vstd::set_lib::lemma_set_subset_finite(t.insert(((k - 1) * 4096) as u64), s);
        }
    }

    /// The free frames are finitely many.
    pub proof fn lemma_finite(&self)
        ensures
            self@.finite(),
    {
        broadcast use FrameBitmap::lemma_view, FrameBitmap::lemma_free_at_range;

        self.lemma_finite_below(MAX_FRAMES as nat);
        assert(self@ =~= Set::new(|a: u64| self@.contains(a) && a < MAX_FRAMES * 4096));
    }

    /// A bitmap with every frame used.
    pub fn new() -> (r: FrameBitmap)
        ensures
            r.wf(),
            r@ == Set::<u64>::empty(),
    {
        let r = FrameBitmap { words: vec![u64::MAX; BITMAP_WORDS] };
        proof {
            assert forall|f: int| !r.free_at(f) by {
                if 0 <= f < MAX_FRAMES {
                    bits::lemma_all_ones((f % 64) as u64);
                }
            }
            assert(r@ =~= Set::<u64>::empty());
        }
        r
    }

    /// Whether the frame at `addr` is free.
    pub fn is_free(&self, addr: u64) -> (r: bool)
        requires
            self.wf(),
        ensures
            r == self@.contains(addr),
    {
        broadcast use FrameBitmap::lemma_view, FrameBitmap::lemma_free_at_range;

        if addr % FRAME_SIZE != 0 || addr >= MANAGED_BYTES {
            return false;
        }
        !self.is_used((addr / FRAME_SIZE) as usize)
    }

    fn set_free(&mut self, frame: usize)
        requires
            old(self).wf(),
            frame < MAX_FRAMES,
        ensures
            final(self).wf(),
            forall|f: int| #[trigger] final(self).free_at(f) == (old(self).free_at(f) || f == frame),
    {
        let w = self.words[frame / 64];
        self.words.set(frame / 64, w & !(1u64 << (frame as u64 % 64)));
        proof {
            assert forall|f: int| #[trigger] self.free_at(f) == (old(self).free_at(f) || f == frame) by {
                if 0 <= f < MAX_FRAMES && f / 64 == frame as int / 64 {
                    bits::lemma_clear_bit(w, (frame % 64) as u64, (f % 64) as u64);
                }
            }
        }
    }

    fn set_used(&mut self, frame: usize)
        requires
            old(self).wf(),
            frame < MAX_FRAMES,
        ensures
            final(self).wf(),
            forall|f: int| #[trigger] final(self).free_at(f) == (old(self).free_at(f) && f != frame),
    {
        let w = self.words[frame / 64];
        self.words.set(frame / 64, w | (1u64 << (frame as u64 % 64)));
        proof {
            assert forall|f: int| #[trigger] self.free_at(f) == (old(self).free_at(f) && f != frame) by {
                if 0 <= f < MAX_FRAMES && f / 64 == frame as int / 64 {
                    bits::lemma_set_bit(w, (frame % 64) as u64, (f % 64) as u64);
                }
            }
        }
    }

    fn is_used(&self, frame: usize) -> (r: bool)
        requires
            self.wf(),
            frame < MAX_FRAMES,
        ensures
            r == !self.free_at(frame as int),
    {
        self.words[frame / 64] & (1u64 << (frame as u64 % 64)) != 0
    }

    /// Whether the `count` frames from number `start` on all exist and are free.
    pub open spec fn run_free(&self, start: int, count: int) -> bool {
        forall|f: int| start <= f < start + count ==> #[trigger] self.free_at(f)
    }
}

/// Whether `a` is the frame of `pool` with the lowest address.
pub open spec fn lowest(pool: Set<u64>, a: u64) -> bool {
    pool.contains(a) && forall|b: u64| #[trigger] pool.contains(b) ==> a <= b
}

/// The frame of `pool` with the lowest address.
pub open spec fn lowest_frame(pool: Set<u64>) -> u64 {
    choose|a: u64| lowest(pool, a)
}

pub proof fn lemma_lowest_frame(pool: Set<u64>, a: u64)
    requires
        lowest(pool, a),
    ensures
        a == lowest_frame(pool),
{
    assert(lowest(pool, lowest_frame(pool)));
}

/// Whether `rest` is `pool` without the `n` frames of the lowest addresses.
pub open spec fn takes_lowest(pool: Set<u64>, rest: Set<u64>, n: nat) -> bool {
    &&& rest.subset_of(pool)
    &&& pool.len() == rest.len() + n
    &&& forall|a: u64, b: u64|
        #[trigger] pool.contains(a) && !rest.contains(a) && #[trigger] rest.contains(b) ==> a < b
}

/// A finite, non-empty pool has a lowest frame.
pub proof fn lemma_take_lowest(pool: Set<u64>)
    requires
        pool.finite(),
        pool != Set::<u64>::empty(),
    ensures
        lowest(pool, lowest_frame(pool)),
        takes_lowest(pool, pool.remove(lowest_frame(pool)), 1),
{
    let a = lemma_some_lowest(pool);
    lemma_lowest_frame(pool, a);
}

proof fn lemma_some_lowest(pool: Set<u64>) -> (a: u64)
    requires
        pool.finite(),
        pool != Set::<u64>::empty(),
    ensures
        lowest(pool, a),
    decreases pool.len(),
{
    let x = pool.choose();
    assert(exists|y: u64| pool.contains(y)) by {
        if forall|y: u64| !pool.contains(y) {
            assert(pool =~= Set::<u64>::empty());
        }
    }
    let rest = pool.remove(x);
    if rest == Set::<u64>::empty() {
        assert forall|b: u64| #[trigger] pool.contains(b) implies x <= b by {
            if b != x {
                assert(rest.contains(b));
            }
        }
        x
    } else {
        let y = lemma_some_lowest(rest);
        if x < y {
            assert forall|b: u64| #[trigger] pool.contains(b) implies x <= b by {
                if b != x {
                    assert(rest.contains(b));
                }
            }
            x
        } else {
            assert forall|b: u64| #[trigger] pool.contains(b) implies y <= b by {
                if b != x {
                    assert(rest.contains(b));
                }
            }
            y
        }
    }
}

/// Taking frames one after the other takes the lowest ones.
pub proof fn lemma_takes_more(a: Set<u64>, b: Set<u64>, c: Set<u64>, n: nat, k: nat)
    requires
        takes_lowest(a, b, n),
        takes_lowest(b, c, k),
    ensures
        takes_lowest(a, c, n + k),
{
    assert forall|x: u64, y: u64| #[trigger]
        a.contains(x) && !c.contains(x) && #[trigger] c.contains(y) implies x < y by {
        assert(b.contains(y));
    }
}

/// Frames of the first MiB.
pub const LOW_FRAMES: u64 = 256;

/// Whether all of frame `f` lies in a region of free memory.
pub open spec fn covers(r: mb2::Region, f: int) -> bool {
    &&& r.kind == mb2::MEM_AVAILABLE
    &&& r.base <= 4096 * f
    &&& 4096 * f + 4096 <= r.base + r.length
}

/// Whether the memory map lists all of frame `f` as free memory.
pub open spec fn listed(map: Seq<mb2::Region>, f: int) -> bool {
    exists|i: int| 0 <= i < map.len() && #[trigger] covers(map[i], f)
}

/// How many frames from 0 on belong to the first MiB or to the kernel, which
/// ends at `kernel_end`.
pub open spec fn reserved_frames(kernel_end: u64) -> int {
    if kernel_end as int / 4096 + 1 < LOW_FRAMES {
        LOW_FRAMES as int
    } else {
        kernel_end as int / 4096 + 1
    }
}

/// The free frames at boot: whatever the memory map lists as free, except the
/// first MiB and the kernel image, no matter what the map says of those.
pub fn init(info: &[u8], kernel_end: u64) -> (r: FrameBitmap)
    ensures
        r.wf(),
        forall|a: u64| #[trigger]
            r@.contains(a) <==> a % 4096 == 0 && a < MANAGED_BYTES && listed(
                mb2::memory_map(info@),
                a as int / 4096,
            ) && a as int / 4096 >= reserved_frames(kernel_end),
{
    broadcast use FrameBitmap::lemma_view, FrameBitmap::lemma_free_at_range;

    let regions = mb2::for_each_memory_region(info);
    let mut pmm = FrameBitmap::new();
    let ghost map = regions@;
    let mut i: usize = 0;
    assert forall|f: int| !#[trigger] pmm.free_at(f) by {
        if pmm.free_at(f) {
            assert(pmm@.contains((f * 4096) as u64));
        }
    }
    while i < regions.len()
        invariant
            i <= regions@.len(),
            map == regions@,
            pmm.wf(),
            forall|f: int| #[trigger]
                pmm.free_at(f) <==> 0 <= f < MAX_FRAMES && listed(map.take(i as int), f),
        decreases regions@.len() - i,
    {
        let ghost before = map.take(i as int);
        let ghost after = map.take(i + 1);
        let r = regions[i];
        // Only frames that lie in the region as a whole count.
        let start = if r.base % FRAME_SIZE == 0 {
            r.base / FRAME_SIZE
        } else {
            r.base / FRAME_SIZE + 1
        };
        let end = match r.base.checked_add(r.length) {
            Some(e) => e / FRAME_SIZE,
            None => MAX_FRAMES as u64,
        };
        let limit = if end < MAX_FRAMES as u64 {
            end
        } else {
            MAX_FRAMES as u64
        };
        assert forall|f: int| 0 <= f < MAX_FRAMES implies (#[trigger] listed(after, f) <==> listed(
            before,
            f,
        ) || (r.kind == mb2::MEM_AVAILABLE && start <= f < limit)) by {
            assert(after[i as int] == r);
            if listed(before, f) {
                let k = choose|k: int| 0 <= k < before.len() && #[trigger] covers(before[k], f);
                assert(covers(after[k], f));
            }
            if r.kind == mb2::MEM_AVAILABLE && start <= f < limit {
                assert(covers(after[i as int], f));
            }
            if listed(after, f) {
                let k = choose|k: int| 0 <= k < after.len() && #[trigger] covers(after[k], f);
                if k < i {
                    assert(covers(before[k], f));
                }
            }
        }
        if r.kind == mb2::MEM_AVAILABLE {
            let mut f = start;
            while f < limit
                invariant
                    start <= f,
                    limit <= MAX_FRAMES,
                    f <= limit || f == start,
                    pmm.wf(),
                    forall|g: int| #[trigger]
                        pmm.free_at(g) <==> 0 <= g < MAX_FRAMES && (listed(before, g) || start <= g
                            < f && g < limit),
                decreases limit - f,
            {
                pmm.set_free(f as usize);
                f += 1;
            }
        }
        i += 1;
    }
    assert(map.take(i as int) =~= map);
    let kernel_frames = kernel_end / FRAME_SIZE + 1;
    let wanted = if kernel_frames < LOW_FRAMES {
        LOW_FRAMES
    } else {
        kernel_frames
    };
    let reserved = if wanted < MAX_FRAMES as u64 {
        wanted
    } else {
        MAX_FRAMES as u64
    };
    let mut f: u64 = 0;
    while f < reserved
        invariant
            f <= reserved <= MAX_FRAMES,
            pmm.wf(),
            forall|g: int| #[trigger]
                pmm.free_at(g) <==> 0 <= g < MAX_FRAMES && listed(map, g) && g >= f,
        decreases reserved - f,
    {
        pmm.set_used(f as usize);
        f += 1;
    }
    pmm
}

/// Takes the free frame with the lowest address. `None` if none is left.
pub fn alloc_frame(pmm: &mut FrameBitmap) -> (r: Option<u64>)
    requires
        old(pmm).wf(),
    ensures
        final(pmm).wf(),
        match r {
            Some(a) => {
                &&& lowest(old(pmm)@, a)
                &&& a == lowest_frame(old(pmm)@)
                &&& final(pmm)@ == old(pmm)@.remove(a)
                &&& takes_lowest(old(pmm)@, final(pmm)@, 1)
            },
            None => old(pmm)@ == Set::<u64>::empty() && final(pmm)@ == old(pmm)@,
        },
{
    broadcast use FrameBitmap::lemma_view, FrameBitmap::lemma_free_at_range;

    proof {
        pmm.lemma_finite();
    }
    let mut i: usize = 0;
    while i < MAX_FRAMES
        invariant
            i <= MAX_FRAMES,
            pmm.wf(),
            pmm@.finite(),
            *pmm == *old(pmm),
            forall|f: int| f < i ==> !#[trigger] pmm.free_at(f),
        decreases MAX_FRAMES - i,
    {
        if !pmm.is_used(i) {
            pmm.set_used(i);
            let a = i as u64 * FRAME_SIZE;
            proof {
                assert(pmm@ =~= old(pmm)@.remove(a));
                lemma_lowest_frame(old(pmm)@, a);
            }
            return Some(a);
        }
        i += 1;
    }
    assert(pmm@ =~= Set::<u64>::empty());
    None
}

/// Releases the frame that holds `addr`. Addresses past the last frame are
/// ignored.
pub fn free_frame(pmm: &mut FrameBitmap, addr: u64)
    requires
        old(pmm).wf(),
    ensures
        final(pmm).wf(),
        final(pmm)@ == if addr < MANAGED_BYTES {
            old(pmm)@.insert((addr - addr % 4096) as u64)
        } else {
            old(pmm)@
        },
{
    broadcast use FrameBitmap::lemma_view, FrameBitmap::lemma_free_at_range;

    let frame = addr / FRAME_SIZE;
    if frame < MAX_FRAMES as u64 {
        pmm.set_free(frame as usize);
        assert(pmm@ =~= old(pmm)@.insert((addr - addr % 4096) as u64));
    }
}

/// Number of free frames.
pub fn free_frame_count(pmm: &FrameBitmap) -> (r: usize)
    requires
        pmm.wf(),
    ensures
        pmm@.finite(),
        r == pmm@.len(),
        r <= MAX_FRAMES,
{
    broadcast use FrameBitmap::lemma_view, FrameBitmap::lemma_free_at_range;

    let mut n: usize = 0;
    let mut i: usize = 0;
    let ghost below = |k: int| Set::new(|a: u64| pmm@.contains(a) && a < k * 4096);
    assert(below(0) =~= Set::<u64>::empty());
    while i < MAX_FRAMES
        invariant
            i <= MAX_FRAMES,
            n <= i,
            pmm.wf(),
            below == (|k: int| Set::new(|a: u64| pmm@.contains(a) && a < k * 4096)),
            below(i as int).finite(),
            below(i as int).len() == n,
        decreases MAX_FRAMES - i,
    {
        let ghost here = (i * 4096) as u64;
        if !pmm.is_used(i) {
            n += 1;
            assert(below(i + 1) =~= below(i as int).insert(here));
        } else {
            assert(below(i + 1) =~= below(i as int));
        }
        i += 1;
    }
    assert(below(i as int) =~= pmm@);
    n
}

/// Takes `count` consecutive free frames: the run with the lowest start.
/// `None` if there is no such run, or if `count` is 0.
pub fn alloc_contiguous(pmm: &mut FrameBitmap, count: usize) -> (r: Option<u64>)
    requires
        old(pmm).wf(),
    ensures
        final(pmm).wf(),
        match r {
            Some(a) => {
                &&& count > 0
                &&& a % 4096 == 0
                &&& old(pmm).run_free(a as int / 4096, count as int)
                &&& forall|s: int| s < a as int / 4096 ==> !#[trigger] old(pmm).run_free(s, count as int)
                &&& forall|b: u64| #[trigger] final(pmm)@.contains(b) <==> old(pmm)@.contains(b) && !(a <= b
                    < a + 4096 * count)
            },
            None => {
                &&& count == 0 || forall|s: int| !#[trigger] old(pmm).run_free(s, count as int)
                &&& final(pmm)@ == old(pmm)@
            },
        },
{
    broadcast use FrameBitmap::lemma_view, FrameBitmap::lemma_free_at_range;

    if count == 0 || count > MAX_FRAMES {
        proof {
            if count > 0 {
                assert forall|s: int| !#[trigger] pmm.run_free(s, count as int) by {
                    if pmm.run_free(s, count as int) {
                        assert(pmm.free_at(s));
                        assert(pmm.free_at(s + MAX_FRAMES));
                    }
                }
            }
        }
        return None;
    }
    let mut run_start: usize = 0;
    let mut run_len: usize = 0;
    let mut i: usize = 0;
    proof {
        assert forall|s: int| s < 0 implies !#[trigger] pmm.run_free(s, count as int) by {
            assert(!pmm.free_at(s));
        }
    }
    while i < MAX_FRAMES
        invariant
            i <= MAX_FRAMES,
            0 < count <= MAX_FRAMES,
            pmm.wf(),
            *pmm == *old(pmm),
            run_len < count,
            run_len <= i,
            run_len > 0 ==> run_start == i - run_len,
            forall|f: int| i - run_len <= f < i ==> #[trigger] pmm.free_at(f),
            i - run_len > 0 ==> !pmm.free_at(i - run_len - 1),
            forall|s: int| s < i - run_len ==> !#[trigger] pmm.run_free(s, count as int),
        decreases MAX_FRAMES - i,
    {
        if !pmm.is_used(i) {
            if run_len == 0 {
                run_start = i;
            }
            run_len += 1;
            if run_len == count {
                let mut f: usize = run_start;
                while f < run_start + count
                    invariant
                        run_start <= f <= run_start + count <= MAX_FRAMES,
                        pmm.wf(),
                        forall|g: int| #[trigger] pmm.free_at(g) == (old(pmm).free_at(g) && !(run_start <= g < f)),
                    decreases run_start + count - f,
                {
                    pmm.set_used(f);
                    f += 1;
                }
                return Some(run_start as u64 * FRAME_SIZE);
            }
        } else {
            proof {
                assert forall|s: int| s < i + 1 implies !#[trigger] pmm.run_free(s, count as int) by {
                    if s >= i - run_len && pmm.run_free(s, count as int) {
                        assert(pmm.free_at(i as int));
                    }
                }
            }
            run_len = 0;
        }
        i += 1;
    }
    proof {
        assert forall|s: int| !#[trigger] pmm.run_free(s, count as int) by {
            if pmm.run_free(s, count as int) {
                assert(pmm.free_at(s + count - 1));
            }
        }
    }
    None
}

/// A frame that was taken is not free, and releasing it leaves the free frames
/// as they were before.
pub proof fn law_alloc_then_free(pool: Set<u64>, a: u64)
    requires
        lowest(pool, a),
    ensures
        !pool.remove(a).contains(a),
        pool.remove(a).insert(a) == pool,
{
    assert(pool.remove(a).insert(a) =~= pool);
}

/// Whether every byte of frame `f` lies in the region.
pub open spec fn holds_every_byte(r: mb2::Region, f: int) -> bool {
    forall|x: int| 4096 * f <= x < 4096 * f + 4096 ==> #[trigger] lies_in(x, r)
}

/// Whether address `x` lies in the region.
pub open spec fn lies_in(x: int, r: mb2::Region) -> bool {
    r.base <= x < r.base + r.length
}

/// The listed frames are those of which every byte lies in one region that is
/// available.
pub proof fn law_listed_frames_are_available(map: Seq<mb2::Region>, f: int)
    ensures
        listed(map, f) <==> exists|i: int|
            0 <= i < map.len() && map[i].kind == 1 && #[trigger] holds_every_byte(map[i], f),
{
    assert forall|i: int| 0 <= i < map.len() implies #[trigger] covers(map[i], f) == (map[i].kind
        == 1 && holds_every_byte(map[i], f)) by {
        if holds_every_byte(map[i], f) {
            assert(lies_in(4096 * f, map[i]));
            assert(lies_in(4096 * f + 4095, map[i]));
        }
    }
    if exists|i: int|
        0 <= i < map.len() && map[i].kind == 1 && #[trigger] holds_every_byte(map[i], f) {
        let i = choose|i: int|
            0 <= i < map.len() && map[i].kind == 1 && #[trigger] holds_every_byte(map[i], f);
        assert(covers(map[i], f));
    }
}

/// The frames that are never handed out are those that start below 1 MiB or not
/// behind the end of the kernel.
pub proof fn law_low_memory_and_kernel_are_kept(kernel_end: u64, f: int)
    ensures
        f >= reserved_frames(kernel_end) <==> 4096 * f >= 0x10_0000 && 4096 * f > kernel_end,
{
}

/// Whether frame `f` exists and is in `pool`.
pub open spec fn frame_in(pool: Set<u64>, f: int) -> bool {
    0 <= f < MAX_FRAMES && pool.contains((4096 * f) as u64)
}

/// A run is free if and only if each of its frames can be handed out.
pub proof fn law_free_run(pmm: FrameBitmap, start: int, count: int)
    requires
        pmm.wf(),
    ensures
        pmm.run_free(start, count) <==> forall|f: int|
            start <= f < start + count ==> #[trigger] frame_in(pmm@, f),
{
    broadcast use FrameBitmap::lemma_view, FrameBitmap::lemma_free_at_range;

    assert forall|f: int| #[trigger] pmm.free_at(f) == frame_in(pmm@, f) by {
        if 0 <= f < MAX_FRAMES {
            let a = (4096 * f) as u64;
            assert(a as int / 4096 == f);
            assert(pmm@.contains(a) == pmm.free_at(f));
        }
    }
    if pmm.run_free(start, count) {
        assert forall|f: int| start <= f < start + count implies #[trigger] frame_in(pmm@, f) by {
            assert(pmm.free_at(f));
        }
    }
}

} // verus!

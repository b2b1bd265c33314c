//! The window of physical memory that the kernel works on.
//!
//! Page tables and the pages they map are frames of this window. A frame is
//! named by its physical address and seen as 512 words of 64 bits, or as 4096
//! bytes in little-endian order.
use vstd::prelude::*;
use crate::bits;

verus! {

/// First physical address that a page table entry cannot name.
pub const PHYS_LIMIT: u64 = 0x10_0000_0000_0000;

/// A page full of zeros.
pub open spec fn zero_page() -> Seq<u64> {
    Seq::new(512, |i: int| 0u64)
}

/// Byte `off` of a page.
pub open spec fn page_byte(page: Seq<u64>, off: int) -> u8 {
    bits::byte_of(page[off / 8], (off % 8) as u64)
}

/// The page whose byte `o` is `f(o)`.
pub open spec fn page_of(f: spec_fn(int) -> u8) -> Seq<u64> {
    Seq::new(
        512,
        |i: int|
            bits::word_of(
                f(8 * i),
                f(8 * i + 1),
                f(8 * i + 2),
                f(8 * i + 3),
                f(8 * i + 4),
                f(8 * i + 5),
                f(8 * i + 6),
                f(8 * i + 7),
            ),
    )
}

/// A page with `data` written over it, from byte `off` on.
pub open spec fn page_with(page: Seq<u64>, off: int, data: Seq<u8>) -> Seq<u64> {
    page_of(
        |o: int|
            if off <= o < off + data.len() {
                data[o - off]
            } else {
                page_byte(page, o)
            },
    )
}

pub proof fn lemma_page_of(f: spec_fn(int) -> u8, o: int)
    requires
        0 <= o < 4096,
    ensures
        page_byte(page_of(f), o) == f(o),
{
    let i = o / 8;
    bits::lemma_bytes_word(
        f(8 * i),
        f(8 * i + 1),
        f(8 * i + 2),
        f(8 * i + 3),
        f(8 * i + 4),
        f(8 * i + 5),
        f(8 * i + 6),
        f(8 * i + 7),
    );
    assert(o == 8 * i + o % 8);
}

/// Pages with the same bytes are the same page.
pub proof fn lemma_page_ext(p: Seq<u64>, q: Seq<u64>)
    requires
        p.len() == 512,
        q.len() == 512,
        forall|o: int| 0 <= o < 4096 ==> #[trigger] page_byte(p, o) == page_byte(q, o),
    ensures
        p == q,
{
    assert forall|i: int| 0 <= i < 512 implies p[i] == q[i] by {
        bits::lemma_word_bytes(p[i]);
        bits::lemma_word_bytes(q[i]);
        assert(page_byte(p, 8 * i) == page_byte(q, 8 * i));
        assert(page_byte(p, 8 * i + 1) == page_byte(q, 8 * i + 1));
        assert(page_byte(p, 8 * i + 2) == page_byte(q, 8 * i + 2));
        assert(page_byte(p, 8 * i + 3) == page_byte(q, 8 * i + 3));
        assert(page_byte(p, 8 * i + 4) == page_byte(q, 8 * i + 4));
        assert(page_byte(p, 8 * i + 5) == page_byte(q, 8 * i + 5));
        assert(page_byte(p, 8 * i + 6) == page_byte(q, 8 * i + 6));
        assert(page_byte(p, 8 * i + 7) == page_byte(q, 8 * i + 7));
    }
    assert(p =~= q);
}

/// A page of zeros reads as zeros.
pub proof fn lemma_zero_byte(o: int)
    requires
        0 <= o < 4096,
    ensures
        page_byte(zero_page(), o) == 0,
{
    bits::lemma_zero_byte((o % 8) as u64);
}

/// Frames do not overlap.
proof fn lemma_apart(base: u64, f: u64, g: u64)
    requires
        base % 4096 == 0,
        f % 4096 == 0,
        g % 4096 == 0,
        base <= f,
        base <= g,
    ensures
        f < g ==> (f - base) / 8 + 512 <= (g - base) / 8,
        g < f ==> (g - base) / 8 + 512 <= (f - base) / 8,
{
}

/// Physical memory from `base` on. Its view maps the address of each frame to
/// the words of that frame.
pub struct PhysMemory {
    base: u64,
    words: Vec<u64>,
}

impl View for PhysMemory {
    type V = Map<u64, Seq<u64>>;

    closed spec fn view(&self) -> Map<u64, Seq<u64>> {
        Map::new(|f: u64| self.holds(f), |f: u64| self.page(f))
    }
}

impl PhysMemory {
    spec fn holds(&self, f: u64) -> bool {
        f % 4096 == 0 && self.base <= f && f + 4096 <= self.base + 8 * self.words@.len()
    }

    spec fn page(&self, f: u64) -> Seq<u64> {
        self.words@.subrange((f - self.base) / 8, (f - self.base) / 8 + 512)
    }

    pub closed spec fn wf(&self) -> bool {
        &&& self.base % 4096 == 0
        &&& self.words@.len() % 512 == 0
        &&& self.base + 8 * self.words@.len() <= PHYS_LIMIT
    }

    /// Every frame is page aligned, 512 words long, and below [`PHYS_LIMIT`].
    pub broadcast proof fn lemma_frame(&self, f: u64)
        requires
            self.wf(),
            #[trigger] self@.contains_key(f),
        ensures
            f % 4096 == 0,
            f + 4096 <= PHYS_LIMIT,
            self@[f].len() == 512,
    {
        assert(self.page(f).len() == 512);
    }

    /// The memory whose first frame is at `base` and whose words are `words`.
    pub fn new(base: u64, words: Vec<u64>) -> (r: PhysMemory)
        requires
            base % 4096 == 0,
            words@.len() % 512 == 0,
            base + 8 * words@.len() <= PHYS_LIMIT,
        ensures
            r.wf(),
            forall|f: u64| #[trigger]
                r@.contains_key(f) <==> f % 4096 == 0 && base <= f && f + 4096 <= base + 8
                    * words@.len(),
            forall|f: u64, i: int|
                r@.contains_key(f) && 0 <= i < 512 ==> #[trigger] r@[f][i] == words@[(f - base) / 8
                    + i],
    {
        PhysMemory { base, words }
    }

    /// Whether the frame at `frame` is part of this memory.
    pub fn contains(&self, frame: u64) -> (r: bool)
        requires
            self.wf(),
        ensures
            r == self@.contains_key(frame),
    {
        let end = self.base + 8 * (self.words.len() as u64);
        frame % 4096 == 0 && self.base <= frame && frame < end
    }

    fn slot(&self, frame: u64, index: usize) -> (r: usize)
        requires
            self.wf(),
            self@.contains_key(frame),
            index < 512,
        ensures
            r == (frame - self.base) / 8 + index,
            r < self.words@.len(),
    {
        let limit = self.words.len();
        assert((frame - self.base) / 8 + 512 <= limit);
        ((frame - self.base) / 8) as usize + index
    }

    /// Word `index` of the frame at `frame`.
    pub fn read(&self, frame: u64, index: usize) -> (r: u64)
        requires
            self.wf(),
            self@.contains_key(frame),
            index < 512,
        ensures
            r == self@[frame][index as int],
    {
        let at = self.slot(frame, index);
        self.words[at]
    }

    /// Stores `value` in word `index` of the frame at `frame`.
    pub fn write(&mut self, frame: u64, index: usize, value: u64)
        requires
            old(self).wf(),
            old(self)@.contains_key(frame),
            index < 512,
        ensures
            final(self).wf(),
            final(self)@ == old(self)@.insert(frame, old(self)@[frame].update(index as int, value)),
    {
        let at = self.slot(frame, index);
        self.words.set(at, value);
        proof {
            self.lemma_write(*old(self), frame, index as int, value);
        }
    }

    proof fn lemma_write(self, before: PhysMemory, frame: u64, index: int, value: u64)
        requires
            before.wf(),
            before@.contains_key(frame),
            0 <= index < 512,
            self.base == before.base,
            self.words@ == before.words@.update((frame - before.base) / 8 + index, value),
        ensures
            self@ == before@.insert(frame, before@[frame].update(index, value)),
    {
        let want = before@.insert(frame, before@[frame].update(index, value));
        assert forall|g: u64| before.holds(g) implies self.page(g) == want[g] by {
            lemma_apart(before.base, frame, g);
            if g == frame {
                assert(self.page(g) =~= before.page(g).update(index, value));
            } else {
                assert(self.page(g) =~= before.page(g));
            }
        }
        assert(self@ =~= want);
    }

    /// Fills the frame at `frame` with zeros.
    pub fn zero(&mut self, frame: u64)
        requires
            old(self).wf(),
            old(self)@.contains_key(frame),
        ensures
            final(self).wf(),
            final(self)@ == old(self)@.insert(frame, zero_page()),
    {
        broadcast use PhysMemory::lemma_frame;

        let mut i: usize = 0;
        while i < 512
            invariant
                i <= 512,
                self.wf(),
                self@.contains_key(frame),
                self@ =~= old(self)@.insert(frame, self@[frame]),
                forall|j: int| 0 <= j < i ==> self@[frame][j] == 0,
            decreases 512 - i,
        {
            self.write(frame, i, 0);
            i += 1;
        }
        assert(self@[frame] =~= zero_page());
    }

    /// Copies the frame at `src` over the frame at `dst`.
    pub fn copy(&mut self, src: u64, dst: u64)
        requires
            old(self).wf(),
            old(self)@.contains_key(src),
            old(self)@.contains_key(dst),
        ensures
            final(self).wf(),
            final(self)@ == old(self)@.insert(dst, old(self)@[src]),
    {
        broadcast use PhysMemory::lemma_frame;

        let mut i: usize = 0;
        while i < 512
            invariant
                i <= 512,
                self.wf(),
                self@.contains_key(dst),
                self@.contains_key(src),
                old(self).wf(),
                old(self)@.contains_key(src),
                self@ =~= old(self)@.insert(dst, self@[dst]),
                src == dst ==> self@[dst] =~= old(self)@[src],
                forall|j: int| 0 <= j < i ==> self@[dst][j] == old(self)@[src][j],
            decreases 512 - i,
        {
            let w = self.read(src, i);
            self.write(dst, i, w);
            i += 1;
        }
        assert(self@[dst] =~= old(self)@[src]);
    }

    /// Byte `off` of the frame at `frame`.
    pub fn read_byte(&self, frame: u64, off: usize) -> (r: u8)
        requires
            self.wf(),
            self@.contains_key(frame),
            off < 4096,
        ensures
            r == page_byte(self@[frame], off as int),
    {
        let w = self.read(frame, off / 8);
        let k = (off % 8) as u64;
        ((w >> (8 * k)) & 0xFF) as u8
    }

    /// Stores `b` in byte `off` of the frame at `frame`.
    pub fn write_byte(&mut self, frame: u64, off: usize, b: u8)
        requires
            old(self).wf(),
            old(self)@.contains_key(frame),
            off < 4096,
        ensures
            final(self).wf(),
            final(self)@ == old(self)@.insert(frame, final(self)@[frame]),
            final(self)@.contains_key(frame),
            forall|o: int|
                0 <= o < 4096 ==> #[trigger] page_byte(final(self)@[frame], o) == if o == off {
                    b
                } else {
                    page_byte(old(self)@[frame], o)
                },
    {
        broadcast use PhysMemory::lemma_frame;

        let w = self.read(frame, off / 8);
        let k = (off % 8) as u64;
        let v = (w & !(0xFFu64 << (8 * k))) | ((b as u64) << (8 * k));
        self.write(frame, off / 8, v);
        proof {
            assert(v == bits::with_byte(w, k, b));
            assert forall|o: int| 0 <= o < 4096 implies #[trigger] page_byte(self@[frame], o)
                == if o == off {
                b
            } else {
                page_byte(old(self)@[frame], o)
            } by {
                bits::lemma_with_byte(w, k, b, (o % 8) as u64);
            }
        }
    }

    /// Copies `data` into the frame at `frame`, from byte `off` on.
    pub fn write_bytes(&mut self, frame: u64, off: usize, data: &[u8])
        requires
            old(self).wf(),
            old(self)@.contains_key(frame),
            off + data@.len() <= 4096,
        ensures
            final(self).wf(),
            final(self)@ == old(self)@.insert(
                frame,
                page_with(old(self)@[frame], off as int, data@),
            ),
    {
        let mut i: usize = 0;
        while i < data.len()
            invariant
                i <= data@.len(),
                off + data@.len() <= 4096,
                self.wf(),
                self@.contains_key(frame),
                self@ =~= old(self)@.insert(frame, self@[frame]),
                forall|o: int|
                    0 <= o < 4096 ==> #[trigger] page_byte(self@[frame], o) == if off <= o < off
                        + i {
                        data@[o - off]
                    } else {
                        page_byte(old(self)@[frame], o)
                    },
            decreases data@.len() - i,
        {
            self.write_byte(frame, off + i, data[i]);
            i += 1;
        }
        proof {
            broadcast use PhysMemory::lemma_frame;

            let want = page_with(old(self)@[frame], off as int, data@);
            assert forall|o: int| 0 <= o < 4096 implies #[trigger] page_byte(self@[frame], o)
                == page_byte(want, o) by {
                lemma_page_of(
                    |o: int|
                        if off <= o < off + data@.len() {
                            data@[o - off]
                        } else {
                            page_byte(old(self)@[frame], o)
                        },
                    o,
                );
            }
            lemma_page_ext(self@[frame], want);
        }
    }
}

// --- laws --------------------------------------------------------------------------

/// A word of a page is its eight bytes, least significant first.
pub proof fn law_words_hold_bytes(page: Seq<u64>, i: int)
    requires
        0 <= i < 512,
        page.len() == 512,
    ensures
        page[i] == page_byte(page, 8 * i) + 0x100 * page_byte(page, 8 * i + 1) + 0x1_0000
            * page_byte(page, 8 * i + 2) + 0x100_0000 * page_byte(page, 8 * i + 3) + 0x1_0000_0000
            * page_byte(page, 8 * i + 4) + 0x100_0000_0000 * page_byte(page, 8 * i + 5)
            + 0x1_0000_0000_0000 * page_byte(page, 8 * i + 6) + 0x100_0000_0000_0000 * page_byte(
            page,
            8 * i + 7,
        ),
{
    bits::lemma_word_sum(page[i]);
}

/// Bytes that are written to a page are read from where they were written, and
/// all others are as before.
pub proof fn law_written_bytes_are_read(page: Seq<u64>, off: int, data: Seq<u8>, o: int)
    requires
        0 <= off,
        off + data.len() <= 4096,
        0 <= o < 4096,
    ensures
        page_with(page, off, data).len() == 512,
        off <= o < off + data.len() ==> page_byte(page_with(page, off, data), o) == data[o - off],
        !(off <= o < off + data.len()) ==> page_byte(page_with(page, off, data), o) == page_byte(
            page,
            o,
        ),
{
    lemma_page_of(
        |o: int|
            if off <= o < off + data.len() {
                data[o - off]
            } else {
                page_byte(page, o)
            },
        o,
    );
}

} // verus!

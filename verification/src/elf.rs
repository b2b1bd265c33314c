//! ELF64 loader: maps the loadable segments of an image into a new address
//! space.
use vstd::prelude::*;
use crate::audit;
use crate::bytes;
use crate::mem::{self, PhysMemory};
use crate::mmu::{self, Frames};
use crate::pmm::{self, FrameBitmap};
use crate::user;

verus! {

pub const ELF_HEADER_SIZE: usize = 64;

pub const PROGRAM_HEADER_SIZE: usize = 56;

pub const ELFCLASS64: u8 = 2;

pub const ET_EXEC: u16 = 2;

/// Position independent executables.
pub const ET_DYN: u16 = 3;

pub const PT_LOAD: u32 = 1;

pub const PF_X: u32 = 0x1;

pub const PF_W: u32 = 0x2;

pub const ERR_TOO_SMALL: &'static str = "fichero demasiado pequeño para ser un ELF64";

pub const ERR_MAGIC: &'static str = "magic ELF no coincide (0x7F 'E' 'L' 'F')";

pub const ERR_CLASS: &'static str = "no es un ELF de 64 bits (EI_CLASS != ELFCLASS64)";

pub const ERR_TYPE: &'static str = "tipo de ELF no soportado (solo ET_EXEC/ET_DYN)";

pub const ERR_NO_SPACE: &'static str = "sin memoria para el espacio de direcciones";

pub const ERR_HEADER_RANGE: &'static str = "program header fuera de los límites del fichero";

pub const ERR_NO_FRAME: &'static str = "sin memoria física para el segmento";

pub const ERR_FILE_RANGE: &'static str = "el segmento apunta fuera de los límites del fichero";

pub const ERR_NOT_MAPPED: &'static str = "página no mapeada durante la copia del segmento";

pub const ERR_TABLES: &'static str = "el segmento sobrescribe las tablas de páginas";

pub const ERR_ADDRESS_RANGE: &'static str = "el segmento no cabe en el espacio de direcciones";

pub struct LoadedElf {
    pub entry_point: u64,
    /// Root of the new address space.
    pub page_table: u64,
}

/// A loadable segment, as its program header describes it.
#[derive(Clone, Copy)]
pub struct Segment {
    pub writable: bool,
    pub executable: bool,
    /// Where its bytes start in the file.
    pub offset: u64,
    pub vaddr: u64,
    pub filesz: u64,
    pub memsz: u64,
}

/// What is wrong with the header of the file, if anything.
pub open spec fn header_error(b: Seq<u8>) -> Option<&'static str> {
    if b.len() < ELF_HEADER_SIZE {
        Some(ERR_TOO_SMALL)
    } else if b.take(4) != seq![0x7Fu8, 0x45, 0x4C, 0x46] {
        Some(ERR_MAGIC)
    } else if b[4] != ELFCLASS64 {
        Some(ERR_CLASS)
    } else if bytes::le16(b, 16) != ET_EXEC && bytes::le16(b, 16) != ET_DYN {
        Some(ERR_TYPE)
    } else {
        None
    }
}

/// Where program header `i` starts.
pub open spec fn header_offset(b: Seq<u8>, i: int) -> int {
    bytes::le64(b, 32) + i * bytes::le16(b, 54)
}

/// The loadable segment that the program header at `off` describes. `None` for
/// other kinds of header.
pub open spec fn segment_at(b: Seq<u8>, off: int) -> Option<Segment> {
    if bytes::le32(b, off) != PT_LOAD {
        None
    } else {
        Some(
            Segment {
                writable: (bytes::le32(b, off + 4) as u32) & PF_W != 0,
                executable: (bytes::le32(b, off + 4) as u32) & PF_X != 0,
                offset: bytes::le64(b, off + 8) as u64,
                vaddr: bytes::le64(b, off + 16) as u64,
                filesz: bytes::le64(b, off + 32) as u64,
                memsz: bytes::le64(b, off + 40) as u64,
            },
        )
    }
}

impl Segment {
    /// First address of its first page.
    pub open spec fn start(self) -> int {
        self.vaddr - self.vaddr % 4096
    }

    /// How many pages it touches.
    pub open spec fn pages(self) -> int {
        (self.vaddr + self.memsz + 0xFFF) / 4096 - self.vaddr as int / 4096
    }

    /// Whether its bytes of the file lie in its own pages.
    pub open spec fn fits(self) -> bool {
        self.vaddr + self.filesz <= self.start() + 4096 * self.pages()
    }

    /// The bytes of the file that belong to it.
    pub open spec fn contents(self, b: Seq<u8>) -> Seq<u8> {
        b.subrange(self.offset as int, self.offset + self.filesz)
    }
}

/// Memory, free frames and outcome of mapping `n` zeroed pages from `virt` on.
pub open spec fn load_pages(
    m: Frames,
    pool: Set<u64>,
    p4: u64,
    virt: int,
    n: nat,
    flags: u64,
) -> (Frames, Set<u64>, Result<(), &'static str>)
    decreases n,
{
    if n == 0 {
        (m, pool, Ok(()))
    } else if pool == Set::<u64>::empty() {
        (m, pool, Err(ERR_NO_FRAME))
    } else {
        let f = pmm::lowest_frame(pool);
        let m1 = m.insert(f, mem::zero_page());
        let p1 = pool.remove(f);
        let (m2, p2) = mmu::map_memory(m1, p1, p4, 3, virt as u64, f | flags);
        match mmu::map_outcome(m1, p4, 3, virt as u64, p1.len()) {
            Ok(_) => load_pages(m2, p2, p4, virt + 4096, (n - 1) as nat, flags),
            Err(e) => (m2, p2, Err(e)),
        }
    }
}

/// The frame behind the page of `virt`.
pub open spec fn frame_at(m: Frames, p4: u64, virt: int) -> u64 {
    match mmu::lookup(m, p4, 3, virt as u64) {
        Some((a, _)) => (a - virt % 4096) as u64,
        None => 0,
    }
}

/// The frame behind the page of `virt`, looked up by the start of the page.
pub open spec fn page_frame(m: Frames, p4: u64, virt: int) -> Option<u64> {
    match mmu::lookup(m, p4, 3, (virt - virt % 4096) as u64) {
        Some((a, _)) => Some(a as u64),
        None => None,
    }
}

/// Memory after `data` went to `off` in the frame `f`. What goes to a frame
/// outside of memory is lost.
pub open spec fn stored(m: Frames, f: u64, off: int, data: Seq<u8>) -> Frames {
    if m.contains_key(f) {
        m.insert(f, mem::page_with(m[f], off, data))
    } else {
        m
    }
}

/// How many of `len` bytes from `virt` on lie in the same page.
pub open spec fn chunk_len(virt: int, len: int) -> int {
    if len < 4096 - virt % 4096 {
        len
    } else {
        4096 - virt % 4096
    }
}

/// Memory and outcome of copying `data` to the addresses from `virt` on, page by
/// page. Whatever they map to is written, be it of this segment or not, up to
/// the first page that is not mapped. The copy also ends when it spoils the
/// tables that it goes by.
pub open spec fn copy_bytes(m: Frames, pool: Set<u64>, p4: u64, virt: int, data: Seq<u8>) -> (
    Frames,
    Result<(), &'static str>,
)
    decreases data.len(),
{
    if data.len() == 0 {
        (m, Ok(()))
    } else if virt > u64::MAX {
        (m, Err(ERR_NOT_MAPPED))
    } else {
        let n = chunk_len(virt, data.len() as int);
        match page_frame(m, p4, virt) {
            None => (m, Err(ERR_NOT_MAPPED)),
            Some(f) => {
                let m1 = stored(m, f, virt % 4096, data.take(n));
                if fillable(m1, pool, p4) {
                    copy_bytes(m1, pool, p4, virt + n, data.skip(n))
                } else {
                    (m1, Err(ERR_TABLES))
                }
            },
        }
    }
}

/// Memory, free frames and outcome of loading one segment.
pub open spec fn load_one(
    m: Frames,
    pool: Set<u64>,
    p4: u64,
    b: Seq<u8>,
    seg: Segment,
) -> (Frames, Set<u64>, Result<(), &'static str>) {
    if seg.vaddr + seg.memsz + 0xFFF > u64::MAX {
        (m, pool, Err(ERR_ADDRESS_RANGE))
    } else {
        let (m1, p1, r) = load_pages(
            m,
            pool,
            p4,
            seg.start(),
            seg.pages() as nat,
            mmu::leaf_flags(seg.writable, seg.executable),
        );
        if r is Err {
            (m1, p1, r)
        } else if seg.offset + seg.filesz > b.len() {
            (m1, p1, Err(ERR_FILE_RANGE))
        } else {
            let (m2, r2) = copy_bytes(m1, p1, p4, seg.vaddr as int, seg.contents(b));
            (m2, p1, r2)
        }
    }
}

/// Memory, free frames and outcome of loading the segments of the last `n`
/// program headers out of `total`.
pub open spec fn load_headers(
    m: Frames,
    pool: Set<u64>,
    p4: u64,
    b: Seq<u8>,
    total: int,
    n: nat,
) -> (Frames, Set<u64>, Result<(), &'static str>)
    decreases n,
{
    if n == 0 {
        (m, pool, Ok(()))
    } else {
        let off = header_offset(b, total - n);
        if off + PROGRAM_HEADER_SIZE > b.len() {
            (m, pool, Err(ERR_HEADER_RANGE))
        } else {
            match segment_at(b, off) {
                None => load_headers(m, pool, p4, b, total, (n - 1) as nat),
                Some(seg) => {
                    let (m1, p1, r) = load_one(m, pool, p4, b, seg);
                    if r is Err {
                        (m1, p1, r)
                    } else {
                        load_headers(m1, p1, p4, b, total, (n - 1) as nat)
                    }
                },
            }
        }
    }
}

/// Whether the bytes of every loadable segment lie in its own pages.
pub open spec fn image_fits(b: Seq<u8>) -> bool {
    forall|i: int|
        0 <= i < bytes::le16(b, 56) && #[trigger] segment_at(b, header_offset(b, i)) is Some
            ==> segment_at(b, header_offset(b, i))->0.fits()
}

/// Memory after [`mmu::create_address_space`] made the root `p4`.
pub open spec fn with_root(m: Frames, cr3: u64, p4: u64) -> Frames {
    m.insert(p4, mem::zero_page().update(0, m[cr3][0]))
}

/// Memory, free frames and outcome of loading an image. The new root is the
/// lowest free frame.
pub open spec fn load_image(m: Frames, pool: Set<u64>, cr3: u64, b: Seq<u8>) -> (
    Frames,
    Set<u64>,
    Result<(), &'static str>,
) {
    match header_error(b) {
        Some(e) => (m, pool, Err(e)),
        None => if pool == Set::<u64>::empty() {
            (m, pool, Err(ERR_NO_SPACE))
        } else {
            let p4 = pmm::lowest_frame(pool);
            load_headers(
                with_root(m, cr3, p4),
                pool.remove(p4),
                p4,
                b,
                bytes::le16(b, 56),
                bytes::le16(b, 56) as nat,
            )
        },
    }
}

/// What the functions here need of an address space that they fill: it is well
/// formed, and the free frames are in memory and belong to none of its tables.
pub open spec fn fillable(m: Frames, pool: Set<u64>, p4: u64) -> bool {
    &&& mmu::wf_tree(m, p4, 3)
    &&& mmu::pool_fits(m, pool, p4, 3)
}

/// Free frames as the allocator hands them out.
pub open spec fn frames_ok(pool: Set<u64>) -> bool {
    &&& pool.finite()
    &&& forall|a: u64| #[trigger] pool.contains(a) ==> a % 4096 == 0 && a < mem::PHYS_LIMIT
}

/// Mapping more pages keeps what was mapped, and keeps its contents.
pub open spec fn kept(m: Frames, pool: Set<u64>, m2: Frames, pool2: Set<u64>, p4: u64) -> bool {
    &&& m2.dom() == m.dom()
    &&& pool2.subset_of(pool)
    &&& fillable(m2, pool2, p4)
    &&& forall|v: u64| #[trigger]
        mmu::lookup(m2, p4, 3, v) == mmu::lookup(m, p4, 3, v) || mmu::lookup(m, p4, 3, v) is None
    &&& forall|g: u64|
        #![trigger m2[g]]
        m.contains_key(g) && !pool.contains(g) && !mmu::in_tree(m, p4, 3, g) ==> m2[g] == m[g]
            && !mmu::in_tree(m2, p4, 3, g)
}

/// The frames `fr` are the pages from `virt` on: data, not tables, each mapped
/// once with these flags.
pub open spec fn pages_at(m: Frames, p4: u64, virt: int, fr: Seq<u64>, flags: u64) -> bool {
    &&& forall|j: int|
        0 <= j < fr.len() ==> {
            &&& #[trigger] m.contains_key(fr[j])
            &&& fr[j] % 4096 == 0
            &&& fr[j] < mem::PHYS_LIMIT
            &&& m[fr[j]].len() == 512
            &&& !mmu::in_tree(m, p4, 3, fr[j])
        }
    &&& forall|j: int, k: int|
        0 <= j < fr.len() && 0 <= k < fr.len() && j != k ==> #[trigger] fr[j] != #[trigger] fr[k]
    &&& forall|j: int, v: u64|
        #![trigger fr[j], mmu::lookup(m, p4, 3, v)]
        0 <= j < fr.len() && virt + 4096 * j <= v < virt + 4096 * j + 4096 ==> mmu::lookup(
            m,
            p4,
            3,
            v,
        ) == Some((fr[j] + v as int % 4096, flags))
}

/// One page: a zeroed frame is taken, then mapped.
pub proof fn lemma_one_page(
    m: Frames,
    pool: Set<u64>,
    p4: u64,
    virt: u64,
    writable: bool,
    executable: bool,
)
    requires
        fillable(m, pool, p4),
        frames_ok(pool),
        pool != Set::<u64>::empty(),
        virt % 4096 == 0,
    ensures
        ({
            let f = pmm::lowest_frame(pool);
            let flags = mmu::leaf_flags(writable, executable);
            let m1 = m.insert(f, mem::zero_page());
            let p1 = pool.remove(f);
            let (m2, p2) = mmu::map_memory(m1, p1, p4, 3, virt, f | flags);
            let r = mmu::map_outcome(m1, p4, 3, virt, p1.len());
            &&& pool.contains(f)
            &&& mmu::addr_of(f) == f
            &&& fillable(m1, p1, p4)
            &&& kept(m, pool, m2, p2, p4)
            &&& frames_ok(p2)
            &&& p2.subset_of(p1)
            &&& m2[f] == mem::zero_page()
            &&& m2.contains_key(f)
            &&& !mmu::in_tree(m2, p4, 3, f)
            &&& r is Ok ==> mmu::lookup(m, p4, 3, virt) is None
            &&& r is Ok ==> forall|v: u64|
                virt <= v < virt + 4096 ==> #[trigger] mmu::lookup(m2, p4, 3, v) == Some(
                    (f + v as int % 4096, flags),
                )
            &&& forall|v: u64| #[trigger]
                mmu::lookup(m2, p4, 3, v) is Some ==> mmu::lookup(m, p4, 3, v) is Some
                    || mmu::same_page(v, virt, 3)
        }),
{
    let f = pmm::lowest_frame(pool);
    let flags = mmu::leaf_flags(writable, executable);
    let m1 = m.insert(f, mem::zero_page());
    let p1 = pool.remove(f);
    let entry = f | flags;
    pmm::lemma_take_lowest(pool);
    mmu::lemma_addr_of(f);
    mmu::lemma_leaf_entry(f, writable, executable);
    assert forall|g: u64| #[trigger] mmu::in_tree(m, p4, 3, g) implies m1.contains_key(g) && m1[g]
        == m[g] by {
        mmu::lemma_in_tree_known(m, p4, 3, g);
    }
    mmu::lemma_local(m, m1, p4, 3);
    mmu::lemma_map_memory(m1, p1, p4, 3, virt, entry);
    let (m2, p2) = mmu::map_memory(m1, p1, p4, 3, virt, entry);
    let r = mmu::map_outcome(m1, p4, 3, virt, p1.len());
    assert(m2.dom() =~= m.dom());
    vstd::set_lib::lemma_set_subset_finite(p1, p2);
    assert forall|a: u64| #[trigger] p2.contains(a) implies m2.contains_key(a) && !mmu::in_tree(
        m2,
        p4,
        3,
        a,
    ) by {
        assert(p1.contains(a));
    }
    assert forall|v: u64| #[trigger]
        mmu::lookup(m2, p4, 3, v) == mmu::lookup(m, p4, 3, v) || mmu::lookup(
            m,
            p4,
            3,
            v,
        ) is None by {
        assert(mmu::lookup(m1, p4, 3, v) == mmu::lookup(m, p4, 3, v));
        if r is Ok && mmu::same_page(v, virt, 3) {
            mmu::lemma_page_together(m, p4, 3, v, virt);
        }
    }
    assert forall|v: u64| r is Ok && virt <= v < virt + 4096 implies #[trigger] mmu::lookup(
        m2,
        p4,
        3,
        v,
    ) == Some((f + v as int % 4096, flags)) by {
        mmu::lemma_same_page(v, virt);
        assert(v as int / 4096 == virt as int / 4096);
    }
}

/// What [`load_pages`] leaves behind.
#[verifier::rlimit(60)]
#[verifier::spinoff_prover]
pub proof fn lemma_load_pages(
    m: Frames,
    pool: Set<u64>,
    p4: u64,
    virt: int,
    n: nat,
    writable: bool,
    executable: bool,
) -> (fr: Seq<u64>)
    requires
        fillable(m, pool, p4),
        frames_ok(pool),
        virt % 4096 == 0,
        0 <= virt,
        virt + 4096 * n <= 0x1_0000_0000_0000_0000,
    ensures
        ({
            let flags = mmu::leaf_flags(writable, executable);
            let (m2, p2, r) = load_pages(m, pool, p4, virt, n, flags);
            &&& kept(m, pool, m2, p2, p4)
            &&& frames_ok(p2)
            &&& r is Ok ==> {
                &&& fr.len() == n
                &&& pages_at(m2, p4, virt, fr, flags)
                &&& forall|j: int| 0 <= j < n ==> m2[#[trigger] fr[j]] == mem::zero_page()
                &&& forall|j: int|
                    0 <= j < n ==> pool.contains(#[trigger] fr[j]) && !p2.contains(fr[j])
                &&& forall|v: u64| #[trigger]
                    mmu::lookup(m2, p4, 3, v) is Some ==> mmu::lookup(m, p4, 3, v) is Some
                        || exists|j: int|
                        0 <= j < n && #[trigger] mmu::same_page(v, (virt + 4096 * j) as u64, 3)
            }
        }),
    decreases n,
{
    let flags = mmu::leaf_flags(writable, executable);
    if n == 0 || pool == Set::<u64>::empty() {
        Seq::empty()
    } else {
        lemma_one_page(m, pool, p4, virt as u64, writable, executable);
        let f = pmm::lowest_frame(pool);
        let m1 = m.insert(f, mem::zero_page());
        let p1 = pool.remove(f);
        let (m2, p2) = mmu::map_memory(m1, p1, p4, 3, virt as u64, f | flags);
        if mmu::map_outcome(m1, p4, 3, virt as u64, p1.len()) is Err {
            Seq::empty()
        } else {
            let rest = lemma_load_pages(
                m2,
                p2,
                p4,
                virt + 4096,
                (n - 1) as nat,
                writable,
                executable,
            );
            let (m3, p3, r) = load_pages(m2, p2, p4, virt + 4096, (n - 1) as nat, flags);
            let fr = seq![f] + rest;
            assert forall|v: u64| #[trigger]
                mmu::lookup(m3, p4, 3, v) == mmu::lookup(m, p4, 3, v) || mmu::lookup(
                    m,
                    p4,
                    3,
                    v,
                ) is None by {
                assert(mmu::lookup(m2, p4, 3, v) == mmu::lookup(m, p4, 3, v) || mmu::lookup(
                    m,
                    p4,
                    3,
                    v,
                ) is None);
            }
            assert forall|g: u64|
                #![trigger m3[g]]
                m.contains_key(g) && !pool.contains(g) && !mmu::in_tree(m, p4, 3, g) implies m3[g]
                == m[g] && !mmu::in_tree(m3, p4, 3, g) by {
                assert(m2[g] == m[g]);
                assert(!p2.contains(g));
                assert(m2.contains_key(g));
                assert(!mmu::in_tree(m2, p4, 3, g));
                assert(kept(m2, p2, m3, p3, p4));
                assert(m3[g] == m2[g]);
            }
            if r is Ok {
                assert(m3[f] == m2[f]);
                assert forall|j: int| 0 <= j < fr.len() implies {
                    &&& #[trigger] m3.contains_key(fr[j])
                    &&& fr[j] % 4096 == 0
                    &&& fr[j] < mem::PHYS_LIMIT
                    &&& m3[fr[j]] == mem::zero_page()
                    &&& !mmu::in_tree(m3, p4, 3, fr[j])
                    &&& pool.contains(fr[j])
                    &&& !p3.contains(fr[j])
                } by {
                    if j > 0 {
                        assert(fr[j] == rest[j - 1]);
                        assert(m3.contains_key(rest[j - 1]));
                    }
                }
                assert forall|j: int, v: u64|
                    #![trigger fr[j], mmu::lookup(m3, p4, 3, v)]
                    0 <= j < fr.len() && virt + 4096 * j <= v < virt + 4096 * j
                        + 4096 implies mmu::lookup(m3, p4, 3, v) == Some(
                    (fr[j] + v as int % 4096, flags),
                ) by {
                    if j > 0 {
                        assert(fr[j] == rest[j - 1]);
                    } else {
                        assert(mmu::lookup(m2, p4, 3, v) == Some((f + v as int % 4096, flags)));
                    }
                }
                assert forall|j: int, k: int|
                    0 <= j < fr.len() && 0 <= k < fr.len() && j != k implies #[trigger] fr[j]
                    != #[trigger] fr[k] by {
                    if j > 0 {
                        assert(p2.contains(rest[j - 1]));
                    }
                    if k > 0 {
                        assert(p2.contains(rest[k - 1]));
                    }
                }
                assert forall|v: u64| #[trigger]
                    mmu::lookup(m3, p4, 3, v) is Some implies mmu::lookup(m, p4, 3, v) is Some
                    || exists|j: int|
                    0 <= j < n && #[trigger] mmu::same_page(v, (virt + 4096 * j) as u64, 3) by {
                    if mmu::lookup(m2, p4, 3, v) is None {
                        let j = choose|j: int|
                            0 <= j < n - 1 && #[trigger] mmu::same_page(
                                v,
                                (virt + 4096 + 4096 * j) as u64,
                                3,
                            );
                        assert(virt + 4096 + 4096 * j == virt + 4096 * (j + 1));
                        assert(mmu::same_page(v, (virt + 4096 * (j + 1)) as u64, 3));
                    } else if mmu::lookup(m, p4, 3, v) is None {
                        assert(mmu::same_page(v, (virt + 4096 * 0) as u64, 3));
                    }
                }
            }
            fr
        }
    }
}

/// What [`copy_bytes`] does to pages that are mapped one by one.
proof fn lemma_copy_bytes(
    m: Frames,
    pool: Set<u64>,
    p4: u64,
    start: int,
    fr: Seq<u64>,
    flags: u64,
    virt: int,
    data: Seq<u8>,
)
    requires
        fillable(m, pool, p4),
        pages_at(m, p4, start, fr, flags),
        0 <= start <= virt,
        start % 4096 == 0,
        virt + data.len() <= start + 4096 * fr.len() <= 0x1_0000_0000_0000_0000,
    ensures
        ({
            let (m2, r) = copy_bytes(m, pool, p4, virt, data);
            &&& r is Ok
            &&& m2.dom() == m.dom()
            &&& fillable(m2, pool, p4)
            &&& pages_at(m2, p4, start, fr, flags)
            &&& forall|g: u64| #[trigger]
                mmu::in_tree(m2, p4, 3, g) == mmu::in_tree(m, p4, 3, g)
            &&& forall|v: u64| #[trigger]
                mmu::lookup(m2, p4, 3, v) == mmu::lookup(m, p4, 3, v)
            &&& forall|g: u64| !fr.contains(g) ==> #[trigger] m2[g] == m[g]
            &&& forall|j: int, o: int|
                0 <= j < fr.len() && 0 <= o < 4096 ==> #[trigger] mem::page_byte(m2[fr[j]], o)
                    == if virt <= start + 4096 * j + o < virt + data.len() {
                    data[start + 4096 * j + o - virt]
                } else {
                    mem::page_byte(m[fr[j]], o)
                }
        }),
    decreases data.len(),
{
    if data.len() > 0 {
        let n = chunk_len(virt, data.len() as int);
        let k = (virt - start) / 4096;
        let f = fr[k];
        lemma_copy_step(m, pool, p4, start, fr, flags, virt, data.take(n));
        let m1 = stored(m, f, virt % 4096, data.take(n));
        lemma_copy_bytes(m1, pool, p4, start, fr, flags, virt + n, data.skip(n));
        let m2 = copy_bytes(m, pool, p4, virt, data).0;
        assert(m2 == copy_bytes(m1, pool, p4, virt + n, data.skip(n)).0);
        assert forall|g: u64| !fr.contains(g) implies #[trigger] m2[g] == m[g] by {
            assert(fr.contains(fr[k]));
        }
        assert forall|j: int, o: int|
            0 <= j < fr.len() && 0 <= o < 4096 implies #[trigger] mem::page_byte(m2[fr[j]], o)
            == if virt <= start + 4096 * j + o < virt + data.len() {
            data[start + 4096 * j + o - virt]
        } else {
            mem::page_byte(m[fr[j]], o)
        } by {
            let at = start + 4096 * j + o;
            if virt + n <= at < virt + data.len() {
                assert(data.skip(n)[at - (virt + n)] == data[at - virt]);
            } else {
                assert(mem::page_byte(m2[fr[j]], o) == mem::page_byte(m1[fr[j]], o));
            }
        }
    }
}

/// One step of [`copy_bytes`]: the bytes go into a single page.
proof fn lemma_copy_step(
    m: Frames,
    pool: Set<u64>,
    p4: u64,
    start: int,
    fr: Seq<u64>,
    flags: u64,
    virt: int,
    chunk: Seq<u8>,
)
    requires
        fillable(m, pool, p4),
        pages_at(m, p4, start, fr, flags),
        0 <= start <= virt,
        start % 4096 == 0,
        chunk.len() > 0,
        virt % 4096 + chunk.len() <= 4096,
        virt + chunk.len() <= start + 4096 * fr.len() <= 0x1_0000_0000_0000_0000,
    ensures
        ({
            let k = (virt - start) / 4096;
            let m1 = stored(m, fr[k], virt % 4096, chunk);
            &&& 0 <= k < fr.len()
            &&& page_frame(m, p4, virt) == Some(fr[k])
            &&& m.contains_key(fr[k])
            &&& m1.dom() == m.dom()
            &&& fillable(m1, pool, p4)
            &&& pages_at(m1, p4, start, fr, flags)
            &&& forall|g: u64| #[trigger]
                mmu::in_tree(m1, p4, 3, g) == mmu::in_tree(m, p4, 3, g)
            &&& forall|v: u64| #[trigger]
                mmu::lookup(m1, p4, 3, v) == mmu::lookup(m, p4, 3, v)
            &&& forall|j: int, o: int|
                0 <= j < fr.len() && 0 <= o < 4096 ==> #[trigger] mem::page_byte(m1[fr[j]], o)
                    == if virt <= start + 4096 * j + o < virt + chunk.len() {
                    chunk[start + 4096 * j + o - virt]
                } else {
                    mem::page_byte(m[fr[j]], o)
                }
        }),
{
    let k = (virt - start) / 4096;
    let off = virt % 4096;
    let f = fr[k];
    let m1 = m.insert(f, mem::page_with(m[f], off, chunk));
    assert(virt == start + 4096 * k + off);
    assert(0 <= k < fr.len());
    assert(m.contains_key(fr[k]));
    assert(mmu::lookup(m, p4, 3, (virt - off) as u64) == Some((fr[k] + 0, flags)));
    assert(m1 == stored(m, f, off, chunk));
    assert(m1.dom() =~= m.dom());
    assert forall|g: u64| #[trigger] mmu::in_tree(m, p4, 3, g) implies m1.contains_key(g) && m1[g]
        == m[g] by {
        mmu::lemma_in_tree_known(m, p4, 3, g);
    }
    mmu::lemma_local(m, m1, p4, 3);
    assert forall|j: int| 0 <= j < fr.len() implies #[trigger] m1.contains_key(fr[j]) && m1[fr[j]].len() == 512
        && !mmu::in_tree(m1, p4, 3, fr[j]) && fr[j] % 4096 == 0 && fr[j] < mem::PHYS_LIMIT by {
        assert(m.contains_key(fr[j]));
    }
    assert forall|j: int, o: int|
        0 <= j < fr.len() && 0 <= o < 4096 implies #[trigger] mem::page_byte(m1[fr[j]], o)
        == if virt <= start + 4096 * j + o < virt + chunk.len() {
        chunk[start + 4096 * j + o - virt]
    } else {
        mem::page_byte(m[fr[j]], o)
    } by {
        if j == k {
            mem::lemma_page_of(
                |o: int|
                    if off <= o < off + chunk.len() {
                        chunk[o - off]
                    } else {
                        mem::page_byte(m[f], o)
                    },
                o,
            );
        } else {
            assert(fr[j] != fr[k]);
        }
    }
}

/// A write beside the tables of an address space keeps it fillable.
proof fn lemma_stored_beside(m: Frames, pool: Set<u64>, p4: u64, f: u64, off: int, data: Seq<u8>)
    requires
        fillable(m, pool, p4),
        !mmu::in_tree(m, p4, 3, f),
    ensures
        fillable(stored(m, f, off, data), pool, p4),
{
    let m1 = stored(m, f, off, data);
    assert forall|g: u64| #[trigger] mmu::in_tree(m, p4, 3, g) implies m1.contains_key(g) && m1[g]
        == m[g] by {
        mmu::lemma_in_tree_known(m, p4, 3, g);
    }
    mmu::lemma_local(m, m1, p4, 3);
    assert forall|a: u64| #[trigger] pool.contains(a) implies m1.contains_key(a) && !mmu::in_tree(
        m1,
        p4,
        3,
        a,
    ) by {
        assert(m.contains_key(a));
        assert(mmu::in_tree(m1, p4, 3, a) == mmu::in_tree(m, p4, 3, a));
    }
}

/// Copies `src` to the addresses from `dest_vaddr` on, page by page: the frames
/// behind consecutive pages need not be neighbours.
fn copy_into_segment(
    mem: &mut PhysMemory,
    pmm: &FrameBitmap,
    page_table: u64,
    dest_vaddr: u64,
    src: &[u8],
) -> (r: Result<(), &'static str>)
    requires
        old(mem).wf(),
        pmm.wf(),
        fillable(old(mem)@, pmm@, page_table),
    ensures
        final(mem).wf(),
        (final(mem)@, r) == copy_bytes(
            old(mem)@,
            pmm@,
            page_table,
            dest_vaddr as int,
            src@,
        ),
        r is Ok ==> fillable(final(mem)@, pmm@, page_table),
{
    let mut done: usize = 0;
    let ghost m0 = mem@;
    assert(src@.skip(0) =~= src@);
    while done < src.len()
        invariant
            done <= src@.len(),
            mem.wf(),
            pmm.wf(),
            m0 == old(mem)@,
            fillable(mem@, pmm@, page_table),
            copy_bytes(mem@, pmm@, page_table, dest_vaddr + done, src@.skip(done as int))
                == copy_bytes(m0, pmm@, page_table, dest_vaddr as int, src@),
        decreases src@.len() - done,
    {
        let ghost m1 = mem@;
        let ghost rest = src@.skip(done as int);
        if dest_vaddr > u64::MAX - done as u64 {
            return Err(ERR_NOT_MAPPED);
        }
        let vaddr = dest_vaddr + done as u64;
        let page_offset = (vaddr % 4096) as usize;
        let left = src.len() - done;
        let n = if left < 4096 - page_offset {
            left
        } else {
            4096 - page_offset
        };
        let chunk = vstd::slice::slice_subrange(src, done, done + n);
        proof {
            assert(chunk@ =~= rest.take(n as int));
            assert(rest.skip(n as int) =~= src@.skip(done + n));
            assert(n == chunk_len(vaddr as int, rest.len() as int));
        }
        let phys = match mmu::translate(mem, page_table, vaddr - vaddr % 4096) {
            Some(phys) => phys,
            None => {
                return Err(ERR_NOT_MAPPED);
            },
        };
        assert(page_frame(m1, page_table, vaddr as int) == Some(phys));
        let of_tables = mmu::is_table(mem, page_table, 3, phys);
        if mem.contains(phys) {
            mem.write_bytes(phys, page_offset, chunk);
        }
        assert(mem@ == stored(m1, phys, vaddr as int % 4096, chunk@));
        if of_tables {
            if !audit::can_fill(mem, pmm, page_table) {
                return Err(ERR_TABLES);
            }
        } else {
            proof {
                lemma_stored_beside(
                    m1,
                    pmm@,
                    page_table,
                    phys,
                    vaddr as int % 4096,
                    chunk@,
                );
            }
        }
        done += n;
    }
    assert(src@.skip(done as int).len() == 0);
    Ok(())
}

/// Maps the pages of a segment and copies its bytes into them.
#[verifier::loop_isolation(false)]
fn load_segment(
    mem: &mut PhysMemory,
    pmm: &mut FrameBitmap,
    cr3: u64,
    page_table: u64,
    image: &[u8],
    seg: Segment,
) -> (r: Result<(), &'static str>)
    requires
        old(mem).wf(),
        old(pmm).wf(),
        fillable(old(mem)@, old(pmm)@, page_table),
    ensures
        final(mem).wf(),
        final(pmm).wf(),
        (final(mem)@, final(pmm)@, r) == load_one(
            old(mem)@,
            old(pmm)@,
            page_table,
            image@,
            seg,
        ),
        r is Ok ==> fillable(final(mem)@, final(pmm)@, page_table),
{
    let ghost m0 = mem@;
    let ghost p0 = pmm@;
    let ghost flags = mmu::leaf_flags(seg.writable, seg.executable);
    proof {
        lemma_bitmap_ok(*mem, *pmm, page_table);
    }
    let vaddr_start = seg.vaddr - seg.vaddr % 4096;
    if seg.memsz > u64::MAX - 0xFFF || seg.vaddr > u64::MAX - 0xFFF - seg.memsz {
        return Err(ERR_ADDRESS_RANGE);
    }
    let num_pages = (seg.vaddr + seg.memsz + 0xFFF) / 4096 - seg.vaddr / 4096;
    assert(vaddr_start == seg.start());
    assert(num_pages == seg.pages());
    assert(vaddr_start + 4096 * num_pages <= u64::MAX);
    let mut i: u64 = 0;
    while i < num_pages
        invariant
            i <= num_pages,
            mem.wf(),
            pmm.wf(),
            fillable(mem@, pmm@, page_table),
            load_pages(
                mem@,
                pmm@,
                page_table,
                vaddr_start + 4096 * i,
                (num_pages - i) as nat,
                flags,
            ) == load_pages(
                m0,
                p0,
                page_table,
                vaddr_start as int,
                num_pages as nat,
                flags,
            ),
        decreases num_pages - i,
    {
        let page_virt = vaddr_start + i * 4096;
        let ghost m1 = mem@;
        let ghost p1 = pmm@;
        proof {
            lemma_bitmap_ok(*mem, *pmm, page_table);
        }
        let phys = match pmm::alloc_frame(pmm) {
            Some(f) => f,
            None => {
                return Err(ERR_NO_FRAME);
            },
        };
        mem.zero(phys);
        proof {
            lemma_one_page(m1, p1, page_table, page_virt, seg.writable, seg.executable);
        }
        match mmu::map_page_in(
            mem,
            pmm,
            cr3,
            page_table,
            page_virt,
            phys,
            seg.writable,
            seg.executable,
        ) {
            Ok(_) => {},
            Err(e) => {
                return Err(e);
            },
        }
        i += 1;
    }
    if seg.filesz > image.len() as u64 || seg.offset > image.len() as u64 - seg.filesz {
        return Err(ERR_FILE_RANGE);
    }
    let from = seg.offset as usize;
    let src = vstd::slice::slice_subrange(image, from, from + seg.filesz as usize);
    assert(src@ =~= seg.contents(image@));
    copy_into_segment(mem, pmm, page_table, seg.vaddr, src)
}

/// The frames of the bitmap are as the lemmas here expect them.
proof fn lemma_bitmap_ok(mem: PhysMemory, pmm: FrameBitmap, p4: u64)
    requires
        mem.wf(),
        fillable(mem@, pmm@, p4),
    ensures
        frames_ok(pmm@),
{
    broadcast use PhysMemory::lemma_frame;

    pmm.lemma_finite();
    assert forall|a: u64| #[trigger] pmm@.contains(a) implies a % 4096 == 0 && a
        < mem::PHYS_LIMIT by {
        assert(mem@.contains_key(a));
    }
}

/// Whether a segment is in place: every page of it is mapped with its access,
/// holds its bytes of the file and zeros elsewhere, and is the memory of
/// nothing else.
pub open spec fn segment_loaded(
    m: Frames,
    pool: Set<u64>,
    p4: u64,
    b: Seq<u8>,
    seg: Segment,
) -> bool {
    forall|v: u64| #[trigger]
        in_segment(seg, v) ==> {
            let f = frame_at(m, p4, v as int);
            &&& mmu::lookup(m, p4, 3, v) == Some(
                (f + v as int % 4096, mmu::leaf_flags(seg.writable, seg.executable)),
            )
            &&& m.contains_key(f)
            &&& !pool.contains(f)
            &&& !mmu::in_tree(m, p4, 3, f)
            &&& mem::page_byte(m[f], v as int % 4096) == if seg.vaddr <= v < seg.vaddr
                + seg.filesz {
                b[seg.offset + (v - seg.vaddr)]
            } else {
                0
            }
        }
}

/// Whether `v` lies in a page of the segment.
pub open spec fn in_segment(seg: Segment, v: u64) -> bool {
    seg.start() <= v < seg.start() + 4096 * seg.pages()
}

/// A loaded segment stays in place while more is loaded.
proof fn lemma_stays_loaded(
    m: Frames,
    pool: Set<u64>,
    m2: Frames,
    pool2: Set<u64>,
    p4: u64,
    b: Seq<u8>,
    seg: Segment,
)
    requires
        segment_loaded(m, pool, p4, b, seg),
        kept(m, pool, m2, pool2, p4),
    ensures
        segment_loaded(m2, pool2, p4, b, seg),
{
    assert forall|v: u64| #[trigger] in_segment(seg, v) implies {
        let f = frame_at(m, p4, v as int);
        &&& mmu::lookup(m2, p4, 3, v) == mmu::lookup(m, p4, 3, v)
        &&& frame_at(m2, p4, v as int) == f
        &&& m2[f] == m[f]
        &&& m2.contains_key(f)
        &&& !pool2.contains(f)
        &&& !mmu::in_tree(m2, p4, 3, f)
    } by {
        let f = frame_at(m, p4, v as int);
        assert(m2[f] == m[f]);
        assert(mmu::lookup(m2, p4, 3, v) == mmu::lookup(m, p4, 3, v));
    }
}

proof fn lemma_kept_trans(
    m: Frames,
    pool: Set<u64>,
    m1: Frames,
    pool1: Set<u64>,
    m2: Frames,
    pool2: Set<u64>,
    p4: u64,
)
    requires
        kept(m, pool, m1, pool1, p4),
        kept(m1, pool1, m2, pool2, p4),
    ensures
        kept(m, pool, m2, pool2, p4),
{
    assert forall|v: u64| #[trigger]
        mmu::lookup(m2, p4, 3, v) == mmu::lookup(m, p4, 3, v) || mmu::lookup(
            m,
            p4,
            3,
            v,
        ) is None by {
        assert(mmu::lookup(m1, p4, 3, v) == mmu::lookup(m, p4, 3, v) || mmu::lookup(
            m,
            p4,
            3,
            v,
        ) is None);
    }
    assert forall|g: u64|
        #![trigger m2[g]]
        m.contains_key(g) && !pool.contains(g) && !mmu::in_tree(m, p4, 3, g) implies m2[g] == m[g]
        && !mmu::in_tree(m2, p4, 3, g) by {
        assert(m1[g] == m[g]);
        assert(!pool1.contains(g));
        assert(m1.contains_key(g));
        assert(m2[g] == m1[g]);
    }
}

/// What loading a segment that fits leaves behind.
proof fn lemma_load_one(m: Frames, pool: Set<u64>, p4: u64, b: Seq<u8>, seg: Segment)
    requires
        fillable(m, pool, p4),
        frames_ok(pool),
        seg.fits(),
    ensures
        ({
            let (m2, p2, r) = load_one(m, pool, p4, b, seg);
            &&& kept(m, pool, m2, p2, p4)
            &&& frames_ok(p2)
            &&& r is Ok ==> segment_loaded(m2, p2, p4, b, seg) && seg.vaddr + seg.memsz + 0xFFF
                <= u64::MAX
        }),
{
    let (m2, p2, r) = load_one(m, pool, p4, b, seg);
    if seg.vaddr + seg.memsz + 0xFFF > u64::MAX {
        assert(kept(m, pool, m2, p2, p4));
    } else {
        let flags = mmu::leaf_flags(seg.writable, seg.executable);
        let n = seg.pages() as nat;
        let fr = lemma_load_pages(
            m,
            pool,
            p4,
            seg.start(),
            n,
            seg.writable,
            seg.executable,
        );
        let (m1, p1, r1) = load_pages(m, pool, p4, seg.start(), n, flags);
        if r1 is Ok && seg.offset + seg.filesz <= b.len() {
            let data = seg.contents(b);
            lemma_copy_bytes(m1, p1, p4, seg.start(), fr, flags, seg.vaddr as int, data);
            assert forall|v: u64| #[trigger]
                mmu::lookup(m2, p4, 3, v) == mmu::lookup(m, p4, 3, v) || mmu::lookup(
                    m,
                    p4,
                    3,
                    v,
                ) is None by {
                assert(mmu::lookup(m2, p4, 3, v) == mmu::lookup(m1, p4, 3, v));
            }
            assert forall|g: u64|
                #![trigger m2[g]]
                m.contains_key(g) && !pool.contains(g) && !mmu::in_tree(m, p4, 3, g) implies m2[g]
                == m[g] && !mmu::in_tree(m2, p4, 3, g) by {
                if fr.contains(g) {
                    let j = choose|j: int| 0 <= j < fr.len() && fr[j] == g;
                    assert(pool.contains(fr[j]));
                }
                assert(m2[g] == m1[g]);
                assert(m1[g] == m[g]);
                assert(mmu::in_tree(m2, p4, 3, g) == mmu::in_tree(m1, p4, 3, g));
            }
            assert forall|a: u64| #[trigger] p2.contains(a) implies m2.contains_key(a)
                && !mmu::in_tree(m2, p4, 3, a) by {
                assert(p1.contains(a));
                assert(m1.contains_key(a));
                assert(mmu::in_tree(m2, p4, 3, a) == mmu::in_tree(m1, p4, 3, a));
            }
            assert forall|v: u64| #[trigger] in_segment(seg, v) implies {
                let f = frame_at(m2, p4, v as int);
                &&& mmu::lookup(m2, p4, 3, v) == Some((f + v as int % 4096, flags))
                &&& m2.contains_key(f)
                &&& !p2.contains(f)
                &&& !mmu::in_tree(m2, p4, 3, f)
                &&& mem::page_byte(m2[f], v as int % 4096) == if seg.vaddr <= v < seg.vaddr
                    + seg.filesz {
                    b[seg.offset + (v - seg.vaddr)]
                } else {
                    0
                }
            } by {
                let j = (v - seg.start()) / 4096;
                let o = v as int % 4096;
                assert(v == seg.start() + 4096 * j + o);
                assert(0 <= j < fr.len());
                let f = fr[j];
                assert(m2.contains_key(fr[j]));
                assert(mmu::lookup(m2, p4, 3, v) == Some((f + o, flags)));
                assert(pool.contains(fr[j]) && !p1.contains(fr[j]));
                assert(m1[fr[j]] == mem::zero_page());
                mem::lemma_zero_byte(o);
                assert(mem::page_byte(m2[fr[j]], o) == if seg.vaddr <= v < seg.vaddr + data.len() {
                    data[v - seg.vaddr]
                } else {
                    mem::page_byte(m1[fr[j]], o)
                });
            }
            assert(kept(m, pool, m2, p2, p4));
            assert(segment_loaded(m2, p2, p4, b, seg));
        } else {
            assert(m2 == m1 && p2 == p1);
        }
    }
}

proof fn lemma_load_headers(m: Frames, pool: Set<u64>, p4: u64, b: Seq<u8>, total: int, n: nat)
    requires
        fillable(m, pool, p4),
        frames_ok(pool),
        n <= total == bytes::le16(b, 56),
        image_fits(b),
    ensures
        ({
            let (m2, p2, r) = load_headers(m, pool, p4, b, total, n);
            &&& kept(m, pool, m2, p2, p4)
            &&& r is Ok ==> forall|i: int|
                total - n <= i < total && #[trigger] segment_at(b, header_offset(b, i)) is Some ==> {
                    let seg = segment_at(b, header_offset(b, i))->0;
                    segment_loaded(m2, p2, p4, b, seg) && seg.vaddr + seg.memsz + 0xFFF <= u64::MAX
                }
        }),
    decreases n,
{
    if n > 0 {
        let off = header_offset(b, total - n);
        if off + PROGRAM_HEADER_SIZE <= b.len() {
            match segment_at(b, off) {
                None => {
                    lemma_load_headers(m, pool, p4, b, total, (n - 1) as nat);
                },
                Some(seg) => {
                    assert(segment_at(b, header_offset(b, total - n)) is Some);
                    lemma_load_one(m, pool, p4, b, seg);
                    let (m1, p1, r) = load_one(m, pool, p4, b, seg);
                    if r is Ok {
                        lemma_load_headers(m1, p1, p4, b, total, (n - 1) as nat);
                        let (m2, p2, r2) = load_headers(m1, p1, p4, b, total, (n - 1) as nat);
                        lemma_kept_trans(m, pool, m1, p1, m2, p2, p4);
                        if r2 is Ok {
                            lemma_stays_loaded(m1, p1, m2, p2, p4, b, seg);
                        }
                    }
                },
            }
        }
    }
}

/// A successful load of an image whose segments keep to their own pages has every
/// one of them in place: mapped with its own access, its bytes from the file,
/// zeros around them. What entry 0 of the active root maps is mapped in the new
/// space too.
pub proof fn law_load_places_segments(
    mem: PhysMemory,
    pmm: FrameBitmap,
    cr3: u64,
    b: Seq<u8>,
    i: int,
)
    requires
        mem.wf(),
        pmm.wf(),
        fillable(mem@, pmm@, cr3),
        image_fits(b),
        load_image(mem@, pmm@, cr3, b).2 is Ok,
        0 <= i < bytes::le16(b, 56),
    ensures
        ({
            let (m2, p2, _) = load_image(mem@, pmm@, cr3, b);
            let p4 = pmm::lowest_frame(pmm@);
            &&& segment_at(b, header_offset(b, i)) matches Some(seg) ==> segment_loaded(
                m2,
                p2,
                p4,
                b,
                seg,
            ) && seg.vaddr + seg.memsz + 0xFFF <= u64::MAX
            &&& m2.dom() == mem@.dom()
            &&& forall|v: u64|
                mmu::index(v, 3) == 0 && mmu::lookup(mem@, cr3, 3, v) is Some
                    ==> #[trigger] mmu::lookup(m2, p4, 3, v) == mmu::lookup(mem@, cr3, 3, v)
        }),
{
    let pool = pmm@;
    lemma_bitmap_ok(mem, pmm, cr3);
    pmm::lemma_take_lowest(pool);
    let p4 = pmm::lowest_frame(pool);
    mmu::lemma_created_space(mem@, pool, cr3, p4);
    vstd::set_lib::lemma_set_subset_finite(pool, pool.remove(p4));
    let m0 = with_root(mem@, cr3, p4);
    lemma_load_headers(
        m0,
        pool.remove(p4),
        p4,
        b,
        bytes::le16(b, 56),
        bytes::le16(b, 56) as nat,
    );
    let (m2, p2, _) = load_image(mem@, pmm@, cr3, b);
    assert(m0.dom() =~= mem@.dom());
    assert forall|v: u64|
        mmu::index(v, 3) == 0 && mmu::lookup(mem@, cr3, 3, v) is Some implies #[trigger] mmu::lookup(
        m2,
        p4,
        3,
        v,
    ) == mmu::lookup(mem@, cr3, 3, v) by {
        assert(mmu::lookup(m0, p4, 3, v) == mmu::lookup(mem@, cr3, 3, v));
    }
}

/// Loads an ELF64 image into a new address space. Does not start it: that is
/// up to the caller. If loading fails after the address space was created, the
/// frames taken until then stay taken.
pub fn load(mem: &mut PhysMemory, pmm: &mut FrameBitmap, cr3: u64, image: &[u8]) -> (r: Result<
    LoadedElf,
    &'static str,
>)
    requires
        old(mem).wf(),
        old(pmm).wf(),
        fillable(old(mem)@, old(pmm)@, cr3),
    ensures
        final(mem).wf(),
        final(pmm).wf(),
        ({
            let (m2, p2, outcome) = load_image(old(mem)@, old(pmm)@, cr3, image@);
            &&& final(mem)@ == m2
            &&& final(pmm)@ == p2
            &&& match outcome {
                Ok(_) => {
                    &&& r matches Ok(e)
                    &&& e.entry_point == bytes::le64(image@, 24)
                    &&& e.page_table == pmm::lowest_frame(old(pmm)@)
                    &&& fillable(m2, p2, e.page_table)
                },
                Err(e) => r matches Err(e2) && e2 == e,
            }
        }),
{
    let ghost m0 = mem@;
    let ghost p0 = pmm@;
    if image.len() < ELF_HEADER_SIZE {
        return Err(ERR_TOO_SMALL);
    }
    if !(image[0] == 0x7F && image[1] == 0x45 && image[2] == 0x4C && image[3] == 0x46) {
        proof {
            let t = image@.take(4);
            assert(t[0] == image@[0] && t[1] == image@[1] && t[2] == image@[2] && t[3]
                == image@[3]);
        }
        return Err(ERR_MAGIC);
    }
    assert(image@.take(4) =~= seq![0x7Fu8, 0x45, 0x4C, 0x46]);
    if image[4] != ELFCLASS64 {
        return Err(ERR_CLASS);
    }
    let e_type = bytes::u16_at(image, 16);
    if e_type != ET_EXEC && e_type != ET_DYN {
        return Err(ERR_TYPE);
    }
    proof {
        lemma_bitmap_ok(*mem, *pmm, cr3);
        assert(mmu::in_tree(mem@, cr3, 3, cr3));
    }
    let page_table = match mmu::create_address_space(mem, pmm, cr3) {
        Some(p4) => p4,
        None => {
            return Err(ERR_NO_SPACE);
        },
    };
    let ph_offset = bytes::u64_at(image, 32);
    let ph_count = bytes::u16_at(image, 56);
    let ph_size = bytes::u16_at(image, 54);
    let entry_point = bytes::u64_at(image, 24);
    proof {
        pmm::lemma_lowest_frame(p0, page_table);
        mmu::lemma_created_space(m0, p0, cr3, page_table);
    }
    let mut i: u16 = 0;
    while i < ph_count
        invariant
            i <= ph_count,
            image@.len() >= ELF_HEADER_SIZE,
            header_error(image@) is None,
            p0 != Set::<u64>::empty(),
            m0 == old(mem)@,
            p0 == old(pmm)@,
            page_table == pmm::lowest_frame(p0),
            ph_offset == bytes::le64(image@, 32),
            ph_count == bytes::le16(image@, 56),
            ph_size == bytes::le16(image@, 54),
            mem.wf(),
            pmm.wf(),
            fillable(mem@, pmm@, page_table),
            load_headers(
                mem@,
                pmm@,
                page_table,
                image@,
                ph_count as int,
                (ph_count - i) as nat,
            ) == load_image(m0, p0, cr3, image@),
        decreases ph_count - i,
    {
        assert(0 <= i * ph_size <= 0xFFFF * 0xFFFF) by (nonlinear_arith)
            requires
                0 <= i <= 0xFFFF,
                0 <= ph_size <= 0xFFFF,
        ;
        let skip = i as u64 * ph_size as u64;
        let len = image.len();
        assert(ph_offset + skip == header_offset(image@, ph_count - (ph_count - i)));
        if ph_offset > u64::MAX - skip {
            return Err(ERR_HEADER_RANGE);
        }
        let at = ph_offset + skip;
        if at > (len - PROGRAM_HEADER_SIZE) as u64 {
            return Err(ERR_HEADER_RANGE);
        }
        let off = at as usize;
        if bytes::u32_at(image, off) == PT_LOAD {
            let flags = bytes::u32_at(image, off + 4);
            let seg = Segment {
                writable: flags & PF_W != 0,
                executable: flags & PF_X != 0,
                offset: bytes::u64_at(image, off + 8),
                vaddr: bytes::u64_at(image, off + 16),
                filesz: bytes::u64_at(image, off + 32),
                memsz: bytes::u64_at(image, off + 40),
            };
            assert(segment_at(image@, off as int) == Some(seg));
            match load_segment(mem, pmm, cr3, page_table, image, seg) {
                Ok(_) => {},
                Err(e) => {
                    return Err(e);
                },
            }
        }
        i += 1;
    }
    Ok(LoadedElf { entry_point, page_table })
}

// --- a program with its stack --------------------------------------------------------

/// Why a program cannot be prepared.
#[derive(Clone, Copy)]
pub enum Trouble {
    /// Its image cannot be loaded.
    Load(&'static str),
    /// There is no frame for its stack.
    NoStack,
    /// Its stack cannot be mapped.
    Stack(&'static str),
}

/// Memory, free frames and outcome of loading an image and mapping a page of
/// stack for it at `stack_virt`.
pub open spec fn prepared(m: Frames, pool: Set<u64>, cr3: u64, image: Seq<u8>, stack_virt: u64) -> (
    Frames,
    Set<u64>,
    Result<(), Trouble>,
) {
    let (m1, p1, outcome) = load_image(m, pool, cr3, image);
    let root = pmm::lowest_frame(pool);
    let stack = pmm::lowest_frame(p1);
    let p2 = p1.remove(stack);
    let (m3, p3) = mmu::map_memory(
        m1,
        p2,
        root,
        3,
        stack_virt,
        mmu::addr_of(stack) | mmu::leaf_flags(true, false),
    );
    match outcome {
        Err(e) => (m1, p1, Err(Trouble::Load(e))),
        Ok(_) => if p1 == Set::<u64>::empty() {
            (m1, p1, Err(Trouble::NoStack))
        } else {
            match mmu::map_outcome(m1, root, 3, stack_virt, p2.len()) {
                Err(e) => (m3, p3, Err(Trouble::Stack(e))),
                Ok(_) => (m3, p3, Ok(())),
            }
        },
    }
}

/// Loads an ELF64 image into a new address space and maps a page of stack for
/// it. On failure the frames taken until then stay taken.
pub fn load_with_stack(
    mem: &mut PhysMemory,
    pmm: &mut FrameBitmap,
    cr3: u64,
    image: &[u8],
    stack_virt: u64,
) -> (r: Result<LoadedElf, Trouble>)
    requires
        old(mem).wf(),
        old(pmm).wf(),
        fillable(old(mem)@, old(pmm)@, cr3),
        stack_virt % 4096 == 0,
    ensures
        final(mem).wf(),
        final(pmm).wf(),
        ({
            let (m2, p2, outcome) = prepared(old(mem)@, old(pmm)@, cr3, image@, stack_virt);
            &&& final(mem)@ == m2
            &&& final(pmm)@ == p2
            &&& match outcome {
                Ok(_) => {
                    &&& r matches Ok(e)
                    &&& e.entry_point == bytes::le64(image@, 24)
                    &&& e.page_table == pmm::lowest_frame(old(pmm)@)
                },
                Err(t) => r matches Err(t2) && t2 == t,
            }
        }),
{
    let loaded = match load(mem, pmm, cr3, image) {
        Ok(l) => l,
        Err(e) => {
            return Err(Trouble::Load(e));
        },
    };
    let ghost p1 = pmm@;
    let stack_phys = match pmm::alloc_frame(pmm) {
        Some(f) => f,
        None => {
            return Err(Trouble::NoStack);
        },
    };
    proof {
        broadcast use PhysMemory::lemma_frame;

        assert(p1.contains(stack_phys));
        assert(mem@.contains_key(stack_phys));
    }
    match mmu::map_page_in(mem, pmm, cr3, loaded.page_table, stack_virt, stack_phys, true, false) {
        Ok(_) => Ok(loaded),
        Err(e) => Err(Trouble::Stack(e)),
    }
}

// --- programs for trying things out ---------------------------------------------------

/// A whole program: header, one loadable segment at 0x400000 that holds the
/// file itself, and code at 0x400078 that halts for good.
pub const TEST_ELF: [u8; 123] = [
    // identification
    0x7F, 0x45, 0x4C, 0x46, 0x02, 0x01, 0x01, 0x00, 0x00, 0x00, 0x00, 0x00, 0x00, 0x00, 0x00, 0x00,
    // type, machine, version
    0x02, 0x00, 0x3E, 0x00, 0x01, 0x00, 0x00, 0x00,
    // entry point
    0x78, 0x00, 0x40, 0x00, 0x00, 0x00, 0x00, 0x00,
    // offset of the program headers
    0x40, 0x00, 0x00, 0x00, 0x00, 0x00, 0x00, 0x00,
    // offset of the section headers
    0x00, 0x00, 0x00, 0x00, 0x00, 0x00, 0x00, 0x00,
    // flags
    0x00, 0x00, 0x00, 0x00,
    // sizes and counts
    0x40, 0x00, 0x38, 0x00, 0x01, 0x00, 0x00, 0x00, 0x00, 0x00, 0x00, 0x00,
    // segment: type, flags
    0x01, 0x00, 0x00, 0x00, 0x05, 0x00, 0x00, 0x00,
    // offset in the file
    0x00, 0x00, 0x00, 0x00, 0x00, 0x00, 0x00, 0x00,
    // virtual address
    0x00, 0x00, 0x40, 0x00, 0x00, 0x00, 0x00, 0x00,
    // physical address
    0x00, 0x00, 0x40, 0x00, 0x00, 0x00, 0x00, 0x00,
    // bytes in the file
    0x7B, 0x00, 0x00, 0x00, 0x00, 0x00, 0x00, 0x00,
    // bytes in memory
    0x7B, 0x00, 0x00, 0x00, 0x00, 0x00, 0x00, 0x00,
    // alignment
    0x00, 0x10, 0x00, 0x00, 0x00, 0x00, 0x00, 0x00,
    // code
    0xF4, 0xEB, 0xFD,
];

/// The same for ring 3: its code only jumps to itself, which takes no privilege.
pub const TEST_ELF_RING3: [u8; 122] = [
    // identification
    0x7F, 0x45, 0x4C, 0x46, 0x02, 0x01, 0x01, 0x00, 0x00, 0x00, 0x00, 0x00, 0x00, 0x00, 0x00, 0x00,
    // type, machine, version
    0x02, 0x00, 0x3E, 0x00, 0x01, 0x00, 0x00, 0x00,
    // entry point
    0x78, 0x00, 0x40, 0x00, 0x00, 0x00, 0x00, 0x00,
    // offset of the program headers
    0x40, 0x00, 0x00, 0x00, 0x00, 0x00, 0x00, 0x00,
    // offset of the section headers
    0x00, 0x00, 0x00, 0x00, 0x00, 0x00, 0x00, 0x00,
    // flags
    0x00, 0x00, 0x00, 0x00,
    // sizes and counts
    0x40, 0x00, 0x38, 0x00, 0x01, 0x00, 0x00, 0x00, 0x00, 0x00, 0x00, 0x00,
    // segment: type, flags
    0x01, 0x00, 0x00, 0x00, 0x05, 0x00, 0x00, 0x00,
    // offset in the file
    0x00, 0x00, 0x00, 0x00, 0x00, 0x00, 0x00, 0x00,
    // virtual address
    0x00, 0x00, 0x40, 0x00, 0x00, 0x00, 0x00, 0x00,
    // physical address
    0x00, 0x00, 0x40, 0x00, 0x00, 0x00, 0x00, 0x00,
    // bytes in the file
    0x7A, 0x00, 0x00, 0x00, 0x00, 0x00, 0x00, 0x00,
    // bytes in memory
    0x7A, 0x00, 0x00, 0x00, 0x00, 0x00, 0x00, 0x00,
    // alignment
    0x00, 0x10, 0x00, 0x00, 0x00, 0x00, 0x00, 0x00,
    // code
    0xEB, 0xFE,
];

/// The same, but its code makes one ping system call before it jumps to itself.
pub const TEST_ELF_SYSCALL: [u8; 129] = [
    // identification
    0x7F, 0x45, 0x4C, 0x46, 0x02, 0x01, 0x01, 0x00, 0x00, 0x00, 0x00, 0x00, 0x00, 0x00, 0x00, 0x00,
    // type, machine, version
    0x02, 0x00, 0x3E, 0x00, 0x01, 0x00, 0x00, 0x00,
    // entry point
    0x78, 0x00, 0x40, 0x00, 0x00, 0x00, 0x00, 0x00,
    // offset of the program headers
    0x40, 0x00, 0x00, 0x00, 0x00, 0x00, 0x00, 0x00,
    // offset of the section headers
    0x00, 0x00, 0x00, 0x00, 0x00, 0x00, 0x00, 0x00,
    // flags
    0x00, 0x00, 0x00, 0x00,
    // sizes and counts
    0x40, 0x00, 0x38, 0x00, 0x01, 0x00, 0x00, 0x00, 0x00, 0x00, 0x00, 0x00,
    // segment: type, flags
    0x01, 0x00, 0x00, 0x00, 0x05, 0x00, 0x00, 0x00,
    // offset in the file
    0x00, 0x00, 0x00, 0x00, 0x00, 0x00, 0x00, 0x00,
    // virtual address
    0x00, 0x00, 0x40, 0x00, 0x00, 0x00, 0x00, 0x00,
    // physical address
    0x00, 0x00, 0x40, 0x00, 0x00, 0x00, 0x00, 0x00,
    // bytes in the file
    0x81, 0x00, 0x00, 0x00, 0x00, 0x00, 0x00, 0x00,
    // bytes in memory
    0x81, 0x00, 0x00, 0x00, 0x00, 0x00, 0x00, 0x00,
    // alignment
    0x00, 0x10, 0x00, 0x00, 0x00, 0x00, 0x00, 0x00,
    // code
    0xB8, 0x01, 0x00, 0x00, 0x00, 0x0F, 0x05, 0xEB, 0xFE,
];

/// Whether pages with these flags can be written.
pub open spec fn can_write(flags: u64) -> bool {
    flags & mmu::PAGE_WRITABLE != 0
}

/// Whether code on pages with these flags can be executed.
pub open spec fn can_execute(flags: u64) -> bool {
    flags & mmu::PAGE_NO_EXECUTE == 0
}

/// Memory can be written or executed, not both: so it is with every page of a
/// segment that does not ask for both, and with the stack. A page has exactly the
/// access that its segment asks for.
pub proof fn law_write_xor_execute(
    m: Frames,
    pool: Set<u64>,
    p4: u64,
    b: Seq<u8>,
    seg: Segment,
    v: u64,
)
    requires
        segment_loaded(m, pool, p4, b, seg),
        in_segment(seg, v),
        !(seg.writable && seg.executable),
    ensures
        mmu::lookup(m, p4, 3, v) matches Some((_, flags)) && can_write(flags) == seg.writable
            && can_execute(flags) == seg.executable && !(can_write(flags) && can_execute(flags)),
        can_write(mmu::leaf_flags(true, false)) && !can_execute(mmu::leaf_flags(true, false)),
{
    lemma_access();
}

proof fn lemma_access()
    ensures
        forall|w: bool, x: bool|
            can_write(#[trigger] mmu::leaf_flags(w, x)) == w && can_execute(mmu::leaf_flags(w, x))
                == x,
{
    assert((1u64 | 4) & 2 == 0 && (1u64 | 4 | 2) & 2 != 0 && (1u64 | 4 | 0x8000_0000_0000_0000) & 2
        == 0 && (1u64 | 4 | 2 | 0x8000_0000_0000_0000) & 2 != 0) by (bit_vector);
    assert((1u64 | 4) & 0x8000_0000_0000_0000 == 0 && (1u64 | 4 | 2) & 0x8000_0000_0000_0000 == 0
        && (1u64 | 4 | 0x8000_0000_0000_0000) & 0x8000_0000_0000_0000 != 0 && (1u64 | 4 | 2
        | 0x8000_0000_0000_0000) & 0x8000_0000_0000_0000 != 0) by (bit_vector);
}

/// Whether the bytes of every loadable segment of an image lie in the pages that
/// its size in memory asks for. The table of program headers starts where the
/// eight bytes at 32 say; it has as many entries as the two bytes at 56 say, as far
/// apart as those at 54 say.
pub open spec fn keeps_to_its_pages(b: Seq<u8>) -> bool {
    forall|k: int|
        #![trigger header_offset(b, k)]
        0 <= k < bytes::le16(b, 56) ==> {
            let h = bytes::le64(b, 32) + k * bytes::le16(b, 54);
            bytes::le32(b, h) == 1 ==> bytes::le64(b, h + 16) + bytes::le64(b, h + 32) <= (
            bytes::le64(b, h + 16) + bytes::le64(b, h + 40) + 4095) / 4096 * 4096
        }
}

/// After a load, what lies at the addresses of a loadable segment is what its
/// program header at `h` says: the bytes of the file from the offset in the eight
/// bytes at `h + 8` on, as many as those at `h + 32` say, at the address in those at
/// `h + 16`, and zeros behind them up to the size in those at `h + 40`. Bits 0 and 1
/// of the four bytes at `h + 4` decide whether it can be executed and written;
/// programs can always reach it.
pub proof fn law_load_copies_the_file(
    mem: PhysMemory,
    pmm: FrameBitmap,
    cr3: u64,
    b: Seq<u8>,
    k: int,
    j: int,
)
    requires
        mem.wf(),
        pmm.wf(),
        fillable(mem@, pmm@, cr3),
        keeps_to_its_pages(b),
        load_image(mem@, pmm@, cr3, b).2 is Ok,
        0 <= k < bytes::le16(b, 56),
        0 <= j,
    ensures
        ({
            let h = bytes::le64(b, 32) + k * bytes::le16(b, 54);
            let (m2, _, _) = load_image(mem@, pmm@, cr3, b);
            let p4 = pmm::lowest_frame(pmm@);
            let (offset, vaddr, filesz, memsz) = (
                bytes::le64(b, h + 8),
                bytes::le64(b, h + 16),
                bytes::le64(b, h + 32),
                bytes::le64(b, h + 40),
            );
            bytes::le32(b, h) == 1 ==> {
                &&& j < filesz ==> user::byte_at(m2, p4, vaddr + j) == Some(b[offset + j])
                &&& filesz <= j < memsz ==> user::byte_at(m2, p4, vaddr + j) == Some(0u8)
                &&& j < filesz || j < memsz ==> (mmu::lookup(m2, p4, 3, (vaddr + j) as u64) matches Some(
                    (_, flags),
                ) && can_write(flags) == (bytes::le32(b, h + 4) / 2 % 2 == 1) && can_execute(flags)
                    == (bytes::le32(b, h + 4) % 2 == 1) && flags & 4 != 0)
            }
        }),
{
    let h = bytes::le64(b, 32) + k * bytes::le16(b, 54);
    assert(h == header_offset(b, k));
    assert forall|i: int|
        0 <= i < bytes::le16(b, 56) && #[trigger] segment_at(b, header_offset(b, i)) is Some implies segment_at(
    b, header_offset(b, i))->0.fits() by {
        lemma_segment_fields(b, header_offset(b, i));
    }
    law_load_places_segments(mem, pmm, cr3, b, k);
    if bytes::le32(b, h) == 1 {
        lemma_segment_fields(b, h);
        let seg = segment_at(b, h)->0;
        let (m2, p2, _) = load_image(mem@, pmm@, cr3, b);
        let p4 = pmm::lowest_frame(pmm@);
        if j < seg.filesz || j < seg.memsz {
            let v = (seg.vaddr + j) as u64;
            assert(in_segment(seg, v));
            let f = frame_at(m2, p4, v as int);
            mem.lemma_frame(f);
            user::law_byte_is_behind_its_page(
                m2,
                p4,
                v,
                f,
                mmu::leaf_flags(seg.writable, seg.executable),
            );
            lemma_access();
            lemma_user_access();
        }
    }
}

/// The fields of a segment, and the bits of its flags.
proof fn lemma_segment_fields(b: Seq<u8>, h: int)
    requires
        bytes::le32(b, h) == 1,
    ensures
        segment_at(b, h) matches Some(seg) && seg.offset == bytes::le64(b, h + 8) && seg.vaddr
            == bytes::le64(b, h + 16) && seg.filesz == bytes::le64(b, h + 32) && seg.memsz
            == bytes::le64(b, h + 40) && seg.writable == (bytes::le32(b, h + 4) / 2 % 2 == 1)
            && seg.executable == (bytes::le32(b, h + 4) % 2 == 1) && seg.start() + 4096
            * seg.pages() == (seg.vaddr + seg.memsz + 4095) / 4096 * 4096 && seg.start()
            == seg.vaddr as int / 4096 * 4096 && seg.pages() >= 0,
{
    let x = bytes::le32(b, h + 4) as u32;
    assert((x & 2 != 0) == (x / 2 % 2 == 1) && (x & 1 != 0) == (x % 2 == 1)) by (bit_vector);
}

proof fn lemma_user_access()
    ensures
        forall|w: bool, x: bool| (#[trigger] mmu::leaf_flags(w, x)) & 4 != 0,
{
    assert((1u64 | 4) & 4 != 0 && (1u64 | 4 | 2) & 4 != 0 && (1u64 | 4 | 0x8000_0000_0000_0000) & 4
        != 0 && (1u64 | 4 | 2 | 0x8000_0000_0000_0000) & 4 != 0) by (bit_vector);
}

// --- programs that load ---------------------------------------------------------------

/// What the header of a program looks like: at least 64 bytes, the four of the
/// magic, the class for 64 bits, and the type of an executable.
pub open spec fn header_is_good(b: Seq<u8>) -> bool {
    &&& b.len() >= 64
    &&& b[0] == 0x7F && b[1] == 0x45 && b[2] == 0x4C && b[3] == 0x46
    &&& b[4] == 2
    &&& b[17] == 0 && (b[16] == 2 || b[16] == 3)
}

/// An image without such a header is refused, and nothing happens; one with it is
/// not refused for its header.
pub proof fn law_header_decides(m: Frames, pool: Set<u64>, cr3: u64, b: Seq<u8>)
    ensures
        !header_is_good(b) ==> load_image(m, pool, cr3, b).2 is Err && load_image(m, pool, cr3, b).0
            == m && load_image(m, pool, cr3, b).1 == pool,
        header_is_good(b) <==> header_error(b) is None,
        header_error(b) matches Some(e) ==> load_image(m, pool, cr3, b).2 == Err::<(), &'static str>(e),
{
    if b.len() >= 64 {
        let t = b.take(4);
        let magic = seq![0x7Fu8, 0x45, 0x4C, 0x46];
        assert(t[0] == b[0] && t[1] == b[1] && t[2] == b[2] && t[3] == b[3]);
        assert(magic[0] == 0x7F && magic[1] == 0x45 && magic[2] == 0x4C && magic[3] == 0x46);
        if b[0] == 0x7F && b[1] == 0x45 && b[2] == 0x4C && b[3] == 0x46 {
            assert(t =~= magic);
        }
    }
}

/// First address of the pages of the program header at `h`.
pub open spec fn first_page(b: Seq<u8>, h: int) -> int {
    bytes::le64(b, h + 16) / 4096 * 4096
}

/// End of the pages of the program header at `h`.
pub open spec fn page_end(b: Seq<u8>, h: int) -> int {
    (bytes::le64(b, h + 16) + bytes::le64(b, h + 40) + 4095) / 4096 * 4096
}

/// A program as a linker makes it: its header is good, its program headers and the
/// bytes that they name are in the file, the bytes of each segment lie in its own
/// pages, these lie in the half of the addresses that is for programs, outside of
/// what all address spaces share, and no two segments have a page in common.
pub open spec fn well_made(b: Seq<u8>) -> bool {
    let (count, table, step) = (bytes::le16(b, 56), bytes::le64(b, 32), bytes::le16(b, 54));
    &&& header_is_good(b)
    &&& keeps_to_its_pages(b)
    &&& forall|k: int|
        #![trigger header_offset(b, k)]
        0 <= k < count ==> {
            let h = table + k * step;
            &&& h + 56 <= b.len()
            &&& bytes::le32(b, h) == 1 ==> bytes::le64(b, h + 8) + bytes::le64(b, h + 32) <= b.len()
                && 0x80_0000_0000 <= bytes::le64(b, h + 16) && page_end(b, h) <= 0x1_0000_0000_0000
        }
    &&& forall|k: int, l: int|
        #![trigger header_offset(b, k), header_offset(b, l)]
        0 <= k < l < count && bytes::le32(b, table + k * step) == 1 && bytes::le32(
            b,
            table + l * step,
        ) == 1 ==> page_end(b, table + k * step) <= first_page(b, table + l * step) || page_end(
            b,
            table + l * step,
        ) <= first_page(b, table + k * step)
}

/// How many pages the segments of the last `n` program headers ask for.
pub open spec fn pages_wanted(b: Seq<u8>, n: nat) -> nat
    decreases n,
{
    let h = bytes::le64(b, 32) + (bytes::le16(b, 56) - n) * bytes::le16(b, 54);
    if n == 0 {
        0
    } else if bytes::le32(b, h) == 1 {
        ((page_end(b, h) - first_page(b, h)) / 4096) as nat + pages_wanted(b, (n - 1) as nat)
    } else {
        pages_wanted(b, (n - 1) as nat)
    }
}

/// A well made program loads as long as there are frames: one for the root, and for
/// each page itself and at most three tables.
pub proof fn law_well_made_programs_load(mem: PhysMemory, pmm: FrameBitmap, cr3: u64, b: Seq<u8>)
    requires
        mem.wf(),
        pmm.wf(),
        fillable(mem@, pmm@, cr3),
        well_made(b),
        pmm@.len() >= 1 + 4 * pages_wanted(b, bytes::le16(b, 56) as nat),
    ensures
        load_image(mem@, pmm@, cr3, b).2 is Ok,
        load_image(mem@, pmm@, cr3, b).1.len() >= pmm@.len() - 1 - 4 * pages_wanted(
            b,
            bytes::le16(b, 56) as nat,
        ),
        load_image(mem@, pmm@, cr3, b).1.finite(),
        forall|v: u64|
            0x80_0000_0000 <= v < 0x1_0000_0000_0000 && #[trigger] mmu::lookup(
                load_image(mem@, pmm@, cr3, b).0,
                pmm::lowest_frame(pmm@),
                3,
                v,
            ) is Some ==> exists|k: int|
                0 <= k < bytes::le16(b, 56) && bytes::le32(b, #[trigger] header_offset(b, k)) == 1
                    && first_page(b, header_offset(b, k)) <= v < page_end(b, header_offset(b, k)),
{
    let pool = pmm@;
    let count = bytes::le16(b, 56);
    law_header_decides(mem@, pool, cr3, b);
    lemma_bitmap_ok(mem, pmm, cr3);
    pmm::lemma_take_lowest(pool);
    let p4 = pmm::lowest_frame(pool);
    mmu::lemma_created_space(mem@, pool, cr3, p4);
    vstd::set_lib::lemma_set_subset_finite(pool, pool.remove(p4));
    let m0 = with_root(mem@, cr3, p4);
    assert forall|v: u64| 0x80_0000_0000 <= v < 0x1_0000_0000_0000 implies #[trigger] mmu::lookup(
        m0,
        p4,
        3,
        v,
    ) is None by {
        assert(mmu::index(v, 3) != 0);
    }
    assert forall|k: int, v: u64|
        #![trigger covers(b, k, v)]
        0 <= k < count && covers(b, k, v) implies mmu::lookup(m0, p4, 3, v) is None by {
        lemma_low(b, k, v);
    }
    lemma_headers_succeed(m0, pool.remove(p4), p4, b, count as nat);
    let m2 = load_image(mem@, pool, cr3, b).0;
    assert forall|v: u64|
        0x80_0000_0000 <= v < 0x1_0000_0000_0000 && #[trigger] mmu::lookup(
            m2,
            p4,
            3,
            v,
        ) is Some implies exists|k: int|
        0 <= k < count && bytes::le32(b, #[trigger] header_offset(b, k)) == 1 && first_page(
            b,
            header_offset(b, k),
        ) <= v < page_end(b, header_offset(b, k)) by {
        assert(mmu::lookup(m0, p4, 3, v) is None);
        let k = choose|k: int| 0 <= k < count && #[trigger] covers(b, k, v);
        reveal(covers);
        assert(bytes::le32(b, header_offset(b, k)) == 1);
    }
}

/// A well made program gets its stack too, where none of its segments lies, with a
/// frame for the page and at most three for tables.
pub proof fn law_well_made_programs_start(
    mem: PhysMemory,
    pmm: FrameBitmap,
    cr3: u64,
    b: Seq<u8>,
    stack_virt: u64,
)
    requires
        mem.wf(),
        pmm.wf(),
        fillable(mem@, pmm@, cr3),
        well_made(b),
        pmm@.len() >= 5 + 4 * pages_wanted(b, bytes::le16(b, 56) as nat),
        stack_virt % 4096 == 0,
        0x80_0000_0000 <= stack_virt < 0x1_0000_0000_0000,
        forall|k: int|
            #![trigger header_offset(b, k)]
            0 <= k < bytes::le16(b, 56) && bytes::le32(b, header_offset(b, k)) == 1 ==> !(first_page(
                b,
                header_offset(b, k),
            ) <= stack_virt < page_end(b, header_offset(b, k))),
    ensures
        prepared(mem@, pmm@, cr3, b, stack_virt).2 is Ok,
{
    law_well_made_programs_load(mem, pmm, cr3, b);
    let p4 = pmm::lowest_frame(pmm@);
    let (m1, p1, _) = load_image(mem@, pmm@, cr3, b);
    assert(mmu::lookup(m1, p4, 3, stack_virt) is None);
    assert(p1 != Set::<u64>::empty());
    pmm::lemma_take_lowest(p1);
    let stack = pmm::lowest_frame(p1);
    lemma_unmapped_can_be_mapped(m1, p4, 3, stack_virt);
    assert(p1.remove(stack).len() == p1.len() - 1);
    assert(mmu::map_outcome(m1, p4, 3, stack_virt, p1.remove(stack).len()) is Ok);
}

/// An address that is not mapped can be, with a frame for each table at most.
proof fn lemma_unmapped_can_be_mapped(m: Frames, table: u64, level: nat, v: u64)
    requires
        mmu::lookup(m, table, level, v) is None,
    ensures
        !mmu::blocked(m, table, level, v),
        mmu::missing_tables(m, table, level, v) <= level,
        forall|n: nat|
            n >= level ==> #[trigger] mmu::map_outcome(m, table, level, v, n) == Ok::<
                (),
                &'static str,
            >(()),
        forall|n: nat| #[trigger] mmu::map_cost(m, table, level, v, n) <= level,
    decreases level,
{
    let e = m[table][mmu::index(v, level)];
    if level > 0 && mmu::present(e) && !mmu::huge(e) {
        lemma_unmapped_can_be_mapped(m, mmu::addr_of(e), (level - 1) as nat, v);
    }
}

proof fn lemma_pages_succeed(
    m: Frames,
    pool: Set<u64>,
    p4: u64,
    virt: int,
    n: nat,
    writable: bool,
    executable: bool,
)
    requires
        fillable(m, pool, p4),
        frames_ok(pool),
        virt % 4096 == 0,
        0 <= virt,
        virt + 4096 * n <= 0x1_0000_0000_0000,
        pool.len() >= 4 * n,
        forall|v: u64| virt <= v < virt + 4096 * n ==> #[trigger] mmu::lookup(m, p4, 3, v) is None,
    ensures
        ({
            let (m2, p2, r) = load_pages(
                m,
                pool,
                p4,
                virt,
                n,
                mmu::leaf_flags(writable, executable),
            );
            &&& r is Ok
            &&& p2.len() >= pool.len() - 4 * n
        }),
    decreases n,
{
    let flags = mmu::leaf_flags(writable, executable);
    if n > 0 {
        assert(pool != Set::<u64>::empty());
        let f = pmm::lowest_frame(pool);
        let m1 = m.insert(f, mem::zero_page());
        let p1 = pool.remove(f);
        pmm::lemma_take_lowest(pool);
        lemma_one_page(m, pool, p4, virt as u64, writable, executable);
        assert forall|g: u64| #[trigger] mmu::in_tree(m, p4, 3, g) implies m1.contains_key(g)
            && m1[g] == m[g] by {
            mmu::lemma_in_tree_known(m, p4, 3, g);
        }
        mmu::lemma_local(m, m1, p4, 3);
        assert(mmu::lookup(m, p4, 3, virt as u64) is None);
        assert(mmu::lookup(m1, p4, 3, virt as u64) is None);
        lemma_unmapped_can_be_mapped(m1, p4, 3, virt as u64);
        assert(p1.len() == pool.len() - 1);
        assert(mmu::map_outcome(m1, p4, 3, virt as u64, p1.len()) is Ok);
        mmu::lemma_leaf_entry(f, writable, executable);
        vstd::set_lib::lemma_set_subset_finite(pool, p1);
        mmu::lemma_map_memory(m1, p1, p4, 3, virt as u64, f | flags);
        let (m2, p2) = mmu::map_memory(m1, p1, p4, 3, virt as u64, f | flags);
        assert(mmu::map_cost(m1, p4, 3, virt as u64, p1.len()) <= 3);
        assert(p2.len() >= pool.len() - 4);
        assert forall|v: u64|
            virt + 4096 <= v < virt + 4096 + 4096 * (n - 1) implies #[trigger] mmu::lookup(
            m2,
            p4,
            3,
            v,
        ) is None by {
            assert(mmu::lookup(m, p4, 3, v) is None);
            mmu::lemma_same_page(v, virt as u64);
            assert(v as int / 4096 > virt / 4096);
        }
        lemma_pages_succeed(m2, p2, p4, virt + 4096, (n - 1) as nat, writable, executable);
    }
}

proof fn lemma_segment_succeeds(m: Frames, pool: Set<u64>, p4: u64, b: Seq<u8>, seg: Segment)
    requires
        fillable(m, pool, p4),
        frames_ok(pool),
        seg.fits(),
        seg.offset + seg.filesz <= b.len(),
        seg.vaddr + seg.memsz + 0xFFF <= u64::MAX,
        seg.start() + 4096 * seg.pages() <= 0x1_0000_0000_0000,
        pool.len() >= 4 * seg.pages(),
        forall|v: u64|
            seg.start() <= v < seg.start() + 4096 * seg.pages() ==> #[trigger] mmu::lookup(
                m,
                p4,
                3,
                v,
            ) is None,
    ensures
        ({
            let (m2, p2, r) = load_one(m, pool, p4, b, seg);
            &&& r is Ok
            &&& fillable(m2, p2, p4)
            &&& frames_ok(p2)
            &&& p2.len() >= pool.len() - 4 * seg.pages()
            &&& forall|v: u64| #[trigger]
                mmu::lookup(m2, p4, 3, v) is Some && v < 0x1_0000_0000_0000 ==> mmu::lookup(
                    m,
                    p4,
                    3,
                    v,
                ) is Some || seg.start() <= v < seg.start() + 4096 * seg.pages()
        }),
{
    let pages = seg.pages() as nat;
    let flags = mmu::leaf_flags(seg.writable, seg.executable);
    lemma_pages_succeed(m, pool, p4, seg.start(), pages, seg.writable, seg.executable);
    let fr = lemma_load_pages(m, pool, p4, seg.start(), pages, seg.writable, seg.executable);
    let (m1, p1, r1) = load_pages(m, pool, p4, seg.start(), pages, flags);
    lemma_copy_bytes(m1, p1, p4, seg.start(), fr, flags, seg.vaddr as int, seg.contents(b));
    lemma_load_one(m, pool, p4, b, seg);
    let (m2, p2, r2) = load_one(m, pool, p4, b, seg);
    assert(r2 is Ok);
    assert forall|v: u64| #[trigger]
        mmu::lookup(m2, p4, 3, v) is Some && v < 0x1_0000_0000_0000 implies mmu::lookup(
        m,
        p4,
        3,
        v,
    ) is Some || seg.start() <= v < seg.start() + 4096 * pages by {
        assert(mmu::lookup(m2, p4, 3, v) == mmu::lookup(m1, p4, 3, v));
        if mmu::lookup(m, p4, 3, v) is None {
            let j = choose|j: int|
                0 <= j < pages && #[trigger] mmu::same_page(
                    v,
                    (seg.start() + 4096 * j) as u64,
                    3,
                );
            mmu::lemma_same_page(v, (seg.start() + 4096 * j) as u64);
        }
    }
}

/// Whether `v` lies in the pages of program header `k`.
#[verifier::opaque]
spec fn covers(b: Seq<u8>, k: int, v: u64) -> bool {
    bytes::le32(b, header_offset(b, k)) == 1 && first_page(b, header_offset(b, k)) <= v < page_end(
        b,
        header_offset(b, k),
    )
}

/// What a program header of a well made program is good for.
proof fn lemma_good_header(b: Seq<u8>, n: nat)
    requires
        well_made(b),
        0 < n <= bytes::le16(b, 56),
    ensures
        ({
            let k = bytes::le16(b, 56) - n;
            let h = header_offset(b, k);
            &&& h + PROGRAM_HEADER_SIZE <= b.len()
            &&& match segment_at(b, h) {
                Some(seg) => {
                    &&& seg.fits()
                    &&& seg.offset + seg.filesz <= b.len()
                    &&& seg.vaddr + seg.memsz + 0xFFF <= u64::MAX
                    &&& seg.start() + 4096 * seg.pages() <= 0x1_0000_0000_0000
                    &&& seg.pages() >= 0
                    &&& pages_wanted(b, n) == seg.pages() + pages_wanted(b, (n - 1) as nat)
                    &&& forall|v: u64| #[trigger]
                        covers(b, k, v) <==> seg.start() <= v < seg.start() + 4096 * seg.pages()
                },
                None => {
                    &&& pages_wanted(b, n) == pages_wanted(b, (n - 1) as nat)
                    &&& forall|v: u64| !#[trigger] covers(b, k, v)
                },
            }
        }),
{
    reveal(covers);
    let k = bytes::le16(b, 56) - n;
    let h = header_offset(b, k);
    if bytes::le32(b, h) == 1 {
        lemma_segment_fields(b, h);
    }
}

proof fn lemma_apart(b: Seq<u8>, k: int, l: int, v: u64)
    requires
        well_made(b),
        0 <= k < l < bytes::le16(b, 56),
        covers(b, k, v),
    ensures
        !covers(b, l, v),
{
    reveal(covers);
}

proof fn lemma_headers_succeed(m: Frames, pool: Set<u64>, p4: u64, b: Seq<u8>, n: nat)
    requires
        fillable(m, pool, p4),
        frames_ok(pool),
        well_made(b),
        n <= bytes::le16(b, 56),
        pool.len() >= 4 * pages_wanted(b, n),
        forall|k: int, v: u64|
            #![trigger covers(b, k, v)]
            bytes::le16(b, 56) - n <= k < bytes::le16(b, 56) && covers(b, k, v) ==> mmu::lookup(
                m,
                p4,
                3,
                v,
            ) is None,
    ensures
        ({
            let (m2, p2, r) = load_headers(m, pool, p4, b, bytes::le16(b, 56), n);
            &&& r is Ok
            &&& p2.finite()
            &&& p2.len() >= pool.len() - 4 * pages_wanted(b, n)
            &&& forall|v: u64| #[trigger]
                mmu::lookup(m2, p4, 3, v) is Some && v < 0x1_0000_0000_0000 ==> mmu::lookup(
                    m,
                    p4,
                    3,
                    v,
                ) is Some || exists|k: int|
                    bytes::le16(b, 56) - n <= k < bytes::le16(b, 56) && #[trigger] covers(b, k, v)
        }),
    decreases n,
{
    let total = bytes::le16(b, 56);
    if n > 0 {
        let k0 = total - n;
        let h = header_offset(b, k0);
        lemma_good_header(b, n);
        let rest = (n - 1) as nat;
        match segment_at(b, h) {
            Some(seg) => {
                assert forall|v: u64|
                    seg.start() <= v < seg.start() + 4096
                        * seg.pages() implies #[trigger] mmu::lookup(m, p4, 3, v) is None by {
                    assert(covers(b, k0, v));
                }
                lemma_segment_succeeds(m, pool, p4, b, seg);
                let (m2, p2, r2) = load_one(m, pool, p4, b, seg);
                assert forall|k: int, v: u64|
                    #![trigger covers(b, k, v)]
                    total - rest <= k < total && covers(b, k, v) implies mmu::lookup(m2, p4, 3, v)
                    is None by {
                    assert(mmu::lookup(m, p4, 3, v) is None);
                    if covers(b, k0, v) {
                        lemma_apart(b, k0, k, v);
                    }
                    lemma_low(b, k, v);
                }
                lemma_headers_succeed(m2, p2, p4, b, rest);
                let (m3, p3, r3) = load_headers(m2, p2, p4, b, total, rest);
                assert forall|v: u64| #[trigger]
                    mmu::lookup(m3, p4, 3, v) is Some && v < 0x1_0000_0000_0000 implies mmu::lookup(
                    m,
                    p4,
                    3,
                    v,
                ) is Some || exists|k: int|
                    total - n <= k < total && #[trigger] covers(b, k, v) by {
                    if mmu::lookup(m2, p4, 3, v) is Some && mmu::lookup(m, p4, 3, v) is None {
                        assert(covers(b, k0, v));
                    }
                }
            },
            None => {
                lemma_headers_succeed(m, pool, p4, b, rest);
            },
        }
    }
}

proof fn lemma_low(b: Seq<u8>, k: int, v: u64)
    requires
        well_made(b),
        0 <= k < bytes::le16(b, 56),
        covers(b, k, v),
    ensures
        v < 0x1_0000_0000_0000,
        0x80_0000_0000 <= v,
{
    reveal(covers);
    let h = header_offset(b, k);
    assert(bytes::le64(b, h + 16) >= 0x80_0000_0000);
}

/// A program that could be started has a page of stack: each of its addresses
/// leads to the same frame, which was free before, and ring 3 can write there but
/// not execute. Every other address leads where it led when the segments had been
/// loaded.
pub proof fn law_program_gets_a_stack(
    mem: PhysMemory,
    pmm: FrameBitmap,
    cr3: u64,
    b: Seq<u8>,
    stack_virt: u64,
    v: u64,
)
    requires
        mem.wf(),
        pmm.wf(),
        fillable(mem@, pmm@, cr3),
        keeps_to_its_pages(b),
        stack_virt % 4096 == 0,
        stack_virt < 0x1_0000_0000_0000,
        v < 0x1_0000_0000_0000,
        prepared(mem@, pmm@, cr3, b, stack_virt).2 is Ok,
    ensures
        ({
            let (m1, p1, _) = load_image(mem@, pmm@, cr3, b);
            let (m2, p2, _) = prepared(mem@, pmm@, cr3, b, stack_virt);
            let p4 = pmm::lowest_frame(pmm@);
            let stack = pmm::lowest_frame(p1);
            &&& pmm@.contains(stack)
            &&& !p2.contains(stack)
            &&& p2.subset_of(pmm@)
            &&& stack_virt <= v < stack_virt + 4096 ==> (mmu::lookup(m2, p4, 3, v) matches Some(
                (a, flags),
            ) && a == stack + (v - stack_virt) && can_write(flags) && !can_execute(flags) && flags
                & 4 != 0)
            &&& !(stack_virt <= v < stack_virt + 4096) ==> mmu::lookup(m2, p4, 3, v) == mmu::lookup(
                m1,
                p4,
                3,
                v,
            )
        }),
{
    let pool = pmm@;
    assert forall|i: int|
        0 <= i < bytes::le16(b, 56) && #[trigger] segment_at(b, header_offset(b, i)) is Some implies segment_at(
    b, header_offset(b, i))->0.fits() by {
        lemma_segment_fields(b, header_offset(b, i));
    }
    lemma_bitmap_ok(mem, pmm, cr3);
    pmm::lemma_take_lowest(pool);
    let p4 = pmm::lowest_frame(pool);
    mmu::lemma_created_space(mem@, pool, cr3, p4);
    vstd::set_lib::lemma_set_subset_finite(pool, pool.remove(p4));
    let m0 = with_root(mem@, cr3, p4);
    lemma_load_headers(
        m0,
        pool.remove(p4),
        p4,
        b,
        bytes::le16(b, 56),
        bytes::le16(b, 56) as nat,
    );
    let (m1, p1, _) = load_image(mem@, pmm@, cr3, b);
    assert(fillable(m1, p1, p4));
    assert(p1.subset_of(pool));
    vstd::set_lib::lemma_set_subset_finite(pool, p1);
    pmm::lemma_take_lowest(p1);
    let stack = pmm::lowest_frame(p1);
    let rest = p1.remove(stack);
    let flags = mmu::leaf_flags(true, false);
    let entry = mmu::addr_of(stack) | flags;
    lemma_stack_entry(stack);
    mmu::lemma_map_memory(m1, rest, p4, 3, stack_virt, entry);
    let (m2, p2) = mmu::map_memory(m1, rest, p4, 3, stack_virt, entry);
    mmu::law_map_then_translate(m1, rest, m2, p2, p4, stack_virt, stack, true, false);
    if !(stack_virt <= v < stack_virt + 4096) {
        assert(v as int / 4096 != stack_virt as int / 4096);
    }
}

proof fn lemma_stack_entry(stack: u64)
    requires
        stack % 4096 == 0,
    ensures
        mmu::present(mmu::addr_of(stack) | mmu::leaf_flags(true, false)),
        can_write(mmu::leaf_flags(true, false)),
        !can_execute(mmu::leaf_flags(true, false)),
        mmu::leaf_flags(true, false) & 4 != 0,
{
    assert(0x1u64 | 0x4 | 0x2 | 0x8000_0000_0000_0000 == 0x8000_0000_0000_0007 && (
    0x8000_0000_0000_0007u64 & 2 != 0) && (0x8000_0000_0000_0007u64 & 4 != 0) && (
    0x8000_0000_0000_0007u64 & 0x8000_0000_0000_0000 != 0) && ((stack & 0x000F_FFFF_FFFF_F000)
        | 0x8000_0000_0000_0007) & 1 != 0) by (bit_vector);
}

} // verus!

//! Virtual memory: four-level page tables over [`PhysMemory`].
//!
//! A page table is a frame of 512 entries. Level 3 is the root (PML4), level 0
//! the table whose entries map 4 KiB pages. An entry with the huge bit maps
//! 2 MiB at level 1 and 1 GiB at level 2.
use vstd::prelude::*;
use crate::mem::{self, PhysMemory, PHYS_LIMIT};
use crate::pmm::{self, FrameBitmap};

verus! {

pub const PAGE_PRESENT: u64 = 0x1;

pub const PAGE_WRITABLE: u64 = 0x2;

pub const PAGE_USER: u64 = 0x4;

pub const PAGE_HUGE: u64 = 0x80;

pub const PAGE_NO_EXECUTE: u64 = 0x8000_0000_0000_0000;

/// The bits of an entry that hold a frame address.
pub const ADDR_MASK: u64 = 0x000F_FFFF_FFFF_F000;

pub const ERR_UNALIGNED: &'static str = "virt/phys deben estar alineados a 4 KiB";

pub const ERR_HUGE_PATH: &'static str =
    "el camino pasa por una huge page existente — partirla no está implementado en esta pasada";

pub const ERR_NO_FRAME_SPLIT: &'static str = "sin memoria física para partir la huge page";

pub const ERR_NO_FRAME_TABLE: &'static str = "sin memoria física para tabla intermedia";

pub const ERR_ALREADY_MAPPED: &'static str = "ya había una página mapeada en esa dirección virtual";

/// The contents of physical memory, by frame address.
pub type Frames = Map<u64, Seq<u64>>;

pub open spec fn present(e: u64) -> bool {
    e & PAGE_PRESENT != 0
}

pub open spec fn huge(e: u64) -> bool {
    e & PAGE_HUGE != 0
}

/// Whether an entry above level 0 leads to a further table.
pub open spec fn links(e: u64) -> bool {
    present(e) && !huge(e)
}

pub open spec fn addr_of(e: u64) -> u64 {
    e & ADDR_MASK
}

pub open spec fn flags_of(e: u64) -> u64 {
    e & !ADDR_MASK
}

/// Bytes of address space that one entry of a table of this level covers.
pub open spec fn span(level: nat) -> int {
    if level == 0 {
        0x1000
    } else if level == 1 {
        0x20_0000
    } else if level == 2 {
        0x4000_0000
    } else {
        0x80_0000_0000
    }
}

/// The entry of a table of this level that is responsible for `virt`.
pub open spec fn index(virt: u64, level: nat) -> int {
    (virt as int / span(level)) % 512
}

/// What `virt` maps to under a table: the physical address and the access
/// flags of the entry that maps it.
pub open spec fn lookup(m: Frames, table: u64, level: nat, virt: u64) -> Option<(int, u64)>
    decreases level,
{
    let e = m[table][index(virt, level)];
    if !present(e) {
        None
    } else if level == 0 {
        Some((addr_of(e) + virt as int % 0x1000, flags_of(e)))
    } else if huge(e) {
        Some((addr_of(e) + virt as int % span(level), flags_of(e) & !PAGE_HUGE))
    } else {
        lookup(m, addr_of(e), (level - 1) as nat, virt)
    }
}

/// Whether `f` is the table itself or a table below it.
pub open spec fn in_tree(m: Frames, table: u64, level: nat, f: u64) -> bool
    decreases level,
{
    f == table || (level > 0 && exists|i: int|
        0 <= i < 512 && links(#[trigger] m[table][i]) && in_tree(
            m,
            addr_of(m[table][i]),
            (level - 1) as nat,
            f,
        ))
}

/// A well-formed tree of tables: every table is a frame of the memory, no
/// table is reached twice, huge pages are aligned to their size and do not
/// occur in the root.
pub open spec fn wf_tree(m: Frames, table: u64, level: nat) -> bool
    decreases level,
{
    &&& m.contains_key(table)
    &&& table % 4096 == 0
    &&& table < PHYS_LIMIT
    &&& m[table].len() == 512
    &&& level > 0 ==> forall|i: int|
        0 <= i < 512 && links(#[trigger] m[table][i]) ==> wf_tree(
            m,
            addr_of(m[table][i]),
            (level - 1) as nat,
        ) && !in_tree(m, addr_of(m[table][i]), (level - 1) as nat, table)
    &&& level > 0 ==> forall|i: int, j: int, f: u64|
        #![trigger in_tree(m, addr_of(m[table][i]), (level - 1) as nat, f), in_tree(m, addr_of(m[table][j]), (level - 1) as nat, f)]
        0 <= i < 512 && 0 <= j < 512 && i != j && links(m[table][i]) && links(m[table][j])
            && in_tree(m, addr_of(m[table][i]), (level - 1) as nat, f) ==> !in_tree(
            m,
            addr_of(m[table][j]),
            (level - 1) as nat,
            f,
        )
    &&& level > 0 ==> forall|i: int|
        0 <= i < 512 && present(#[trigger] m[table][i]) && huge(m[table][i]) ==> level < 3
            && addr_of(m[table][i]) as int % span(level) == 0
}

// --- entries -----------------------------------------------------------

proof fn lemma_mask(e: u64)
    by (bit_vector)
    ensures
        e & 0x000F_FFFF_FFFF_F000 < 0x10_0000_0000_0000,
        (e & 0x000F_FFFF_FFFF_F000) % 4096 == 0,
        (e & !0x000F_FFFF_FFFF_F000u64) & 0x000F_FFFF_FFFF_F000 == 0,
        (e & !0x000F_FFFF_FFFF_F000u64 & !0x80u64) & 0x000F_FFFF_FFFF_F000 == 0,
        (e & !0x000F_FFFF_FFFF_F000u64) & 1 == e & 1,
        (e & !0x000F_FFFF_FFFF_F000u64) & 0x80 == e & 0x80,
        (e & !0x000F_FFFF_FFFF_F000u64 & !0x80u64) & 1 == e & 1,
        (e & !0x000F_FFFF_FFFF_F000u64 & !0x80u64) & 0x80 == 0,
{
}

proof fn lemma_aligned(a: u64)
    by (bit_vector)
    requires
        a % 4096 == 0,
        a < 0x10_0000_0000_0000,
    ensures
        a & 0x000F_FFFF_FFFF_F000 == a,
{
}

proof fn lemma_compose(a: u64, fl: u64)
    by (bit_vector)
    requires
        fl & 0x000F_FFFF_FFFF_F000 == 0,
    ensures
        ((a & 0x000F_FFFF_FFFF_F000) | fl) & 0x000F_FFFF_FFFF_F000 == a & 0x000F_FFFF_FFFF_F000,
        ((a & 0x000F_FFFF_FFFF_F000) | fl) & !0x000F_FFFF_FFFF_F000u64 == fl,
        ((a & 0x000F_FFFF_FFFF_F000) | fl) & 1 == fl & 1,
        ((a & 0x000F_FFFF_FFFF_F000) | fl) & 0x80 == fl & 0x80,
{
}

proof fn lemma_flag_values()
    by (bit_vector)
    ensures
        0u64 & 1 == 0,
        1u64 | 2 | 4 == 7,
        7u64 & 0x000F_FFFF_FFFF_F000 == 0,
        7u64 & 1 == 1,
        7u64 & 0x80 == 0,
        1u64 | 4 == 5,
        5u64 | 2 == 7,
        (5u64 | 0x8000_0000_0000_0000) & 0x000F_FFFF_FFFF_F000 == 0,
        (7u64 | 0x8000_0000_0000_0000) & 0x000F_FFFF_FFFF_F000 == 0,
        5u64 & 0x000F_FFFF_FFFF_F000 == 0,
        (5u64 | 0x8000_0000_0000_0000) & 1 == 1,
        (7u64 | 0x8000_0000_0000_0000) & 1 == 1,
        5u64 & 1 == 1,
        forall|f: u64| #[trigger] (f | 1 | 7) == f | 7,
{
}

/// The entry that links the aligned table `f` with flags 7.
pub proof fn lemma_link_entry(f: u64)
    requires
        f % 4096 == 0,
        f < PHYS_LIMIT,
    ensures
        links(f | 1 | 7),
        addr_of(f | 1 | 7) == f,
{
    lemma_flag_values();
    lemma_aligned(f);
    lemma_compose(f, 7);
}

// --- what a change leaves alone ------------------------------------------

/// A tree depends only on the frames of its own tables.
pub proof fn lemma_local(m: Frames, m2: Frames, table: u64, level: nat)
    requires
        wf_tree(m, table, level),
        forall|f: u64| #[trigger]
            in_tree(m, table, level, f) ==> m2.contains_key(f) && m2[f] == m[f],
    ensures
        wf_tree(m2, table, level),
        forall|f: u64| #[trigger]
            in_tree(m2, table, level, f) == in_tree(m, table, level, f),
        forall|virt: u64| #[trigger]
            lookup(m2, table, level, virt) == lookup(m, table, level, virt),
    decreases level,
{
    assert(in_tree(m, table, level, table));
    if level > 0 {
        let l1 = (level - 1) as nat;
        assert forall|i: int| 0 <= i < 512 && links(#[trigger] m[table][i]) implies {
            &&& wf_tree(m2, addr_of(m[table][i]), l1)
            &&& forall|f: u64| #[trigger]
                in_tree(m2, addr_of(m[table][i]), l1, f) == in_tree(m, addr_of(m[table][i]), l1, f)
            &&& forall|virt: u64| #[trigger]
                lookup(m2, addr_of(m[table][i]), l1, virt) == lookup(
                    m,
                    addr_of(m[table][i]),
                    l1,
                    virt,
                )
        } by {
            let c = addr_of(m[table][i]);
            assert forall|f: u64| #[trigger] in_tree(m, c, l1, f) implies m2.contains_key(f)
                && m2[f] == m[f] by {
                assert(in_tree(m, table, level, f));
            }
            lemma_local(m, m2, c, l1);
        }
        assert forall|virt: u64| #[trigger]
            lookup(m2, table, level, virt) == lookup(m, table, level, virt) by {
            let i = index(virt, level);
            assert(0 <= i < 512);
            assert(m2[table][i] == m[table][i]);
            if links(m[table][i]) {
                let c = addr_of(m[table][i]);
                assert(lookup(m2, c, l1, virt) == lookup(m, c, l1, virt));
            }
        }
        assert forall|f: u64| #[trigger]
            in_tree(m2, table, level, f) == in_tree(m, table, level, f) by {
            if in_tree(m, table, level, f) && f != table {
                let i = choose|i: int|
                    0 <= i < 512 && links(#[trigger] m[table][i]) && in_tree(
                        m,
                        addr_of(m[table][i]),
                        l1,
                        f,
                    );
                assert(links(m2[table][i]));
            }
            if in_tree(m2, table, level, f) && f != table {
                let i = choose|i: int|
                    0 <= i < 512 && links(#[trigger] m2[table][i]) && in_tree(
                        m2,
                        addr_of(m2[table][i]),
                        l1,
                        f,
                    );
                assert(links(m[table][i]));
            }
        }
    } else {
        assert forall|virt: u64| #[trigger]
            lookup(m2, table, level, virt) == lookup(m, table, level, virt) by {
            assert(m2[table][index(virt, level)] == m[table][index(virt, level)]);
        }
    }
}

/// Replacing the subtree under entry `i`: it may gain the tables in `fresh`
/// and nothing else of the tree changes.
pub proof fn lemma_child(m: Frames, m2: Frames, table: u64, level: nat, i: int, fresh: Set<u64>)
    requires
        level >= 1,
        0 <= i < 512,
        wf_tree(m, table, level),
        m2.contains_key(table),
        m2[table] == m[table].update(i, m2[table][i]),
        links(m2[table][i]),
        wf_tree(m2, addr_of(m2[table][i]), (level - 1) as nat),
        forall|g: u64| #[trigger]
            in_tree(m2, addr_of(m2[table][i]), (level - 1) as nat, g) <==> (links(m[table][i])
                && in_tree(m, addr_of(m[table][i]), (level - 1) as nat, g)) || fresh.contains(g),
        forall|g: u64| #[trigger] fresh.contains(g) ==> !in_tree(m, table, level, g),
        forall|g: u64| #[trigger]
            in_tree(m, table, level, g) && g != table && !(links(m[table][i]) && in_tree(
                m,
                addr_of(m[table][i]),
                (level - 1) as nat,
                g,
            )) ==> m2.contains_key(g) && m2[g] == m[g],
    ensures
        wf_tree(m2, table, level),
        forall|g: u64| #[trigger]
            in_tree(m2, table, level, g) <==> in_tree(m, table, level, g) || fresh.contains(g),
        forall|virt: u64| #[trigger]
            lookup(m2, table, level, virt) == if index(virt, level) == i {
                lookup(m2, addr_of(m2[table][i]), (level - 1) as nat, virt)
            } else {
                lookup(m, table, level, virt)
            },
{
    let l1 = (level - 1) as nat;
    let c2 = addr_of(m2[table][i]);
    assert forall|j: int| 0 <= j < 512 && j != i && links(#[trigger] m[table][j]) implies {
        let c = addr_of(m[table][j]);
        &&& m2[table][j] == m[table][j]
        &&& wf_tree(m2, c, l1)
        &&& !in_tree(m2, c, l1, table)
        &&& forall|f: u64| #[trigger] in_tree(m2, c, l1, f) == in_tree(m, c, l1, f)
        &&& forall|virt: u64| #[trigger] lookup(m2, c, l1, virt) == lookup(m, c, l1, virt)
    } by {
        let c = addr_of(m[table][j]);
        assert forall|f: u64| #[trigger] in_tree(m, c, l1, f) implies m2.contains_key(f) && m2[f]
            == m[f] by {
            assert(in_tree(m, table, level, f));
            if links(m[table][i]) {
                assert(!in_tree(m, addr_of(m[table][i]), l1, f));
            }
        }
        lemma_local(m, m2, c, l1);
    }
    assert(in_tree(m, table, level, table));
    assert forall|g: u64| #[trigger]
        in_tree(m2, table, level, g) <==> in_tree(m, table, level, g) || fresh.contains(g) by {
        if in_tree(m, table, level, g) && g != table {
            let j = choose|j: int|
                0 <= j < 512 && links(#[trigger] m[table][j]) && in_tree(
                    m,
                    addr_of(m[table][j]),
                    l1,
                    g,
                );
            if j == i {
                assert(in_tree(m2, c2, l1, g));
            }
            assert(links(m2[table][j]) && in_tree(m2, addr_of(m2[table][j]), l1, g));
        }
        if fresh.contains(g) {
            assert(in_tree(m2, c2, l1, g));
            assert(links(m2[table][i]));
        }
        if in_tree(m2, table, level, g) && g != table {
            let j = choose|j: int|
                0 <= j < 512 && links(#[trigger] m2[table][j]) && in_tree(
                    m2,
                    addr_of(m2[table][j]),
                    l1,
                    g,
                );
            if j != i {
                assert(links(m[table][j]) && in_tree(m, addr_of(m[table][j]), l1, g));
            } else {
                assert(in_tree(m2, c2, l1, g));
            }
        }
    }
    assert forall|j: int| 0 <= j < 512 && links(#[trigger] m2[table][j]) implies wf_tree(
        m2,
        addr_of(m2[table][j]),
        l1,
    ) && !in_tree(m2, addr_of(m2[table][j]), l1, table) by {
        if j != i {
            assert(links(m[table][j]));
        }
    }
    assert forall|j: int, k: int, f: u64|
        #![trigger in_tree(m2, addr_of(m2[table][j]), l1, f), in_tree(m2, addr_of(m2[table][k]), l1, f)]
        0 <= j < 512 && 0 <= k < 512 && j != k && links(m2[table][j]) && links(m2[table][k])
            && in_tree(m2, addr_of(m2[table][j]), l1, f) implies !in_tree(
        m2,
        addr_of(m2[table][k]),
        l1,
        f,
    ) by {
        if j != i {
            assert(links(m[table][j]));
            assert(in_tree(m, addr_of(m[table][j]), l1, f));
            assert(in_tree(m, table, level, f));
        }
        if k != i {
            assert(links(m[table][k]));
            if in_tree(m2, addr_of(m2[table][k]), l1, f) {
                assert(in_tree(m, addr_of(m[table][k]), l1, f));
                assert(in_tree(m, table, level, f));
            }
        }
    }
    assert forall|j: int| 0 <= j < 512 && present(#[trigger] m2[table][j]) && huge(
        m2[table][j],
    ) implies level < 3 && addr_of(m2[table][j]) as int % span(level) == 0 by {
        assert(j != i);
        assert(m2[table][j] == m[table][j]);
    }
    assert forall|virt: u64| #[trigger]
        lookup(m2, table, level, virt) == if index(virt, level) == i {
            lookup(m2, c2, l1, virt)
        } else {
            lookup(m, table, level, virt)
        } by {
        let j = index(virt, level);
        assert(0 <= j < 512);
        if j != i {
            assert(m2[table][j] == m[table][j]);
            if links(m[table][j]) {
                let c = addr_of(m[table][j]);
                assert(lookup(m2, c, l1, virt) == lookup(m, c, l1, virt));
            }
        }
    }
}

// --- tables --------------------------------------------------------------

/// The page table with the contents of the 2 MiB page that `e` maps: 512
/// entries of 4 KiB over the same physical range, with the same access flags.
pub open spec fn split_table(e: u64) -> Seq<u64> {
    Seq::new(512, |i: int| ((addr_of(e) + i * 4096) as u64) | (flags_of(e) & !PAGE_HUGE))
}

/// Index of the entry responsible for `virt` in a table of this level
/// (3 = P4, 2 = P3, 1 = P2, 0 = P1).
fn table_index(virt: u64, level: u8) -> (r: usize)
    requires
        level <= 3,
    ensures
        r == index(virt, level as nat),
        r < 512,
{
    let size: u64 = if level == 0 {
        0x1000
    } else if level == 1 {
        0x20_0000
    } else if level == 2 {
        0x4000_0000
    } else {
        0x80_0000_0000
    };
    ((virt / size) % 512) as usize
}

/// Describes the 2 MiB page of `huge_entry` by a table of 4 KiB entries. No
/// memory moves: only the granularity of the description changes. `None` if no
/// frame is left for the table.
fn split_huge_page(mem: &mut PhysMemory, pmm: &mut FrameBitmap, huge_entry: u64) -> (r: Option<u64>)
    requires
        old(mem).wf(),
        old(pmm).wf(),
        forall|a: u64| #[trigger] old(pmm)@.contains(a) ==> old(mem)@.contains_key(a),
    ensures
        final(mem).wf(),
        final(pmm).wf(),
        match r {
            Some(f) => {
                &&& f == pmm::lowest_frame(old(pmm)@)
                &&& pmm::lowest(old(pmm)@, f)
                &&& final(pmm)@ == old(pmm)@.remove(f)
                &&& pmm::takes_lowest(old(pmm)@, final(pmm)@, 1)
                &&& final(mem)@ == old(mem)@.insert(f, split_table(huge_entry))
            },
            None => {
                &&& old(pmm)@ == Set::<u64>::empty()
                &&& final(pmm)@ == old(pmm)@
                &&& final(mem)@ == old(mem)@
            },
        },
{
    broadcast use PhysMemory::lemma_frame;

    let huge_phys = huge_entry & ADDR_MASK;
    let leaf_flags = (huge_entry & !ADDR_MASK) & !PAGE_HUGE;
    proof {
        lemma_mask(huge_entry);
    }
    let new_table = pmm::alloc_frame(pmm)?;
    let mut i: usize = 0;
    while i < 512
        invariant
            i <= 512,
            huge_phys == addr_of(huge_entry),
            huge_phys < PHYS_LIMIT,
            leaf_flags == flags_of(huge_entry) & !PAGE_HUGE,
            mem.wf(),
            mem@.contains_key(new_table),
            mem@ =~= old(mem)@.insert(new_table, mem@[new_table]),
            mem@[new_table].len() == 512,
            forall|j: int| 0 <= j < i ==> mem@[new_table][j] == #[trigger] split_table(huge_entry)[j],
        decreases 512 - i,
    {
        mem.write(new_table, i, (huge_phys + i as u64 * 4096) | leaf_flags);
        i += 1;
    }
    assert(mem@[new_table] =~= split_table(huge_entry));
    Some(new_table)
}

/// The table behind entry `index` of `table`. An absent entry gets a fresh
/// empty table; a huge page is split if `allow_split` says so. Only a caller
/// at level 1 may allow that: the split makes 4 KiB pages out of 2 MiB.
fn get_or_create_next(
    mem: &mut PhysMemory,
    pmm: &mut FrameBitmap,
    table: u64,
    index: usize,
    flags: u64,
    allow_split: bool,
) -> (r: Result<u64, &'static str>)
    requires
        old(mem).wf(),
        old(pmm).wf(),
        old(mem)@.contains_key(table),
        index < 512,
        forall|a: u64| #[trigger]
            old(pmm)@.contains(a) ==> old(mem)@.contains_key(a) && a != table,
    ensures
        final(mem).wf(),
        final(pmm).wf(),
        ({
            let e = old(mem)@[table][index as int];
            let empty = old(pmm)@ == Set::<u64>::empty();
            if links(e) {
                r == Ok::<u64, &'static str>(addr_of(e))
            } else if present(e) && !allow_split {
                r == Err::<u64, &'static str>(ERR_HUGE_PATH)
            } else if present(e) && empty {
                r == Err::<u64, &'static str>(ERR_NO_FRAME_SPLIT)
            } else if empty {
                r == Err::<u64, &'static str>(ERR_NO_FRAME_TABLE)
            } else {
                &&& r matches Ok(f)
                &&& f == pmm::lowest_frame(old(pmm)@)
                &&& pmm::lowest(old(pmm)@, f)
                &&& final(pmm)@ == old(pmm)@.remove(f)
                &&& pmm::takes_lowest(old(pmm)@, final(pmm)@, 1)
                &&& final(mem)@ == old(mem)@.insert(
                    f,
                    if present(e) {
                        split_table(e)
                    } else {
                        mem::zero_page()
                    },
                ).insert(table, old(mem)@[table].update(index as int, f | PAGE_PRESENT | flags))
            }
        }),
        r is Err || links(old(mem)@[table][index as int]) ==> {
            &&& final(mem)@ == old(mem)@
            &&& final(pmm)@ == old(pmm)@
        },
{
    let entry = mem.read(table, index);
    if entry & PAGE_PRESENT != 0 {
        if entry & PAGE_HUGE != 0 {
            if !allow_split {
                return Err(ERR_HUGE_PATH);
            }
            match split_huge_page(mem, pmm, entry) {
                Some(new_table) => {
                    mem.write(table, index, new_table | PAGE_PRESENT | flags);
                    return Ok(new_table);
                },
                None => {
                    return Err(ERR_NO_FRAME_SPLIT);
                },
            }
        }
        return Ok(entry & ADDR_MASK);
    }
    match pmm::alloc_frame(pmm) {
        Some(new_table) => {
            mem.zero(new_table);
            mem.write(table, index, new_table | PAGE_PRESENT | flags);
            Ok(new_table)
        },
        None => Err(ERR_NO_FRAME_TABLE),
    }
}

// --- mapping a page --------------------------------------------------------

/// Whether the way to `virt` meets a huge page that cannot be split.
pub open spec fn blocked(m: Frames, table: u64, level: nat, virt: u64) -> bool
    decreases level,
{
    let e = m[table][index(virt, level)];
    level > 0 && present(e) && if huge(e) {
        level >= 2
    } else {
        blocked(m, addr_of(e), (level - 1) as nat, virt)
    }
}

/// Whether the way to `virt` meets a 2 MiB page.
pub open spec fn splits(m: Frames, table: u64, level: nat, virt: u64) -> bool
    decreases level,
{
    let e = m[table][index(virt, level)];
    level > 0 && present(e) && if huge(e) {
        level == 1
    } else {
        splits(m, addr_of(e), (level - 1) as nat, virt)
    }
}

/// How many tables have to be added before `virt` has an entry of its own.
pub open spec fn missing_tables(m: Frames, table: u64, level: nat, virt: u64) -> nat
    decreases level,
{
    let e = m[table][index(virt, level)];
    if level == 0 {
        0
    } else if !present(e) {
        level
    } else if huge(e) {
        1
    } else {
        missing_tables(m, addr_of(e), (level - 1) as nat, virt)
    }
}

/// Whether a table of this level sends `a` and `b` to the same 4 KiB page.
pub open spec fn same_page(a: u64, b: u64, level: nat) -> bool
    decreases level,
{
    index(a, level) == index(b, level) && (level == 0 || same_page(a, b, (level - 1) as nat))
}

/// What mapping a page at `virt` reports when `available` frames are free.
pub open spec fn map_outcome(
    m: Frames,
    table: u64,
    level: nat,
    virt: u64,
    available: nat,
) -> Result<(), &'static str> {
    if blocked(m, table, level, virt) {
        Err(ERR_HUGE_PATH)
    } else if available < missing_tables(m, table, level, virt) {
        if splits(m, table, level, virt) {
            Err(ERR_NO_FRAME_SPLIT)
        } else {
            Err(ERR_NO_FRAME_TABLE)
        }
    } else if lookup(m, table, level, virt) is Some {
        Err(ERR_ALREADY_MAPPED)
    } else {
        Ok(())
    }
}

/// How many frames mapping a page at `virt` uses up.
pub open spec fn map_cost(m: Frames, table: u64, level: nat, virt: u64, available: nat) -> nat {
    if blocked(m, table, level, virt) {
        0
    } else if available < missing_tables(m, table, level, virt) {
        available
    } else {
        missing_tables(m, table, level, virt)
    }
}

/// Memory and free frames after mapping a page at `virt` through `entry`: the
/// tables on the way that were missing are taken from the lowest free frames,
/// as far as these reach.
pub open spec fn map_memory(
    m: Frames,
    pool: Set<u64>,
    table: u64,
    level: nat,
    virt: u64,
    entry: u64,
) -> (Frames, Set<u64>)
    decreases level,
{
    let i = index(virt, level);
    let e = m[table][i];
    if level == 0 {
        if present(e) {
            (m, pool)
        } else {
            (m.insert(table, m[table].update(i, entry)), pool)
        }
    } else if links(e) {
        map_memory(m, pool, addr_of(e), (level - 1) as nat, virt, entry)
    } else if (present(e) && level != 1) || pool == Set::<u64>::empty() {
        (m, pool)
    } else {
        let f = pmm::lowest_frame(pool);
        let page = if present(e) {
            split_table(e)
        } else {
            mem::zero_page()
        };
        map_memory(
            m.insert(f, page).insert(table, m[table].update(i, f | PAGE_PRESENT | 7)),
            pool.remove(f),
            f,
            (level - 1) as nat,
            virt,
            entry,
        )
    }
}

/// Whether the free frames in `pool` can serve as tables under `table`.
pub open spec fn pool_fits(m: Frames, pool: Set<u64>, table: u64, level: nat) -> bool {
    forall|a: u64| #[trigger]
        pool.contains(a) ==> m.contains_key(a) && !in_tree(m, table, level, a)
}

/// The change that mapping a page at `virt` through `entry` makes, given that
/// it reported `r`: from memory `m` and free frames `pool` to `m2` and `pool2`.
pub open spec fn mapped(
    m: Frames,
    pool: Set<u64>,
    m2: Frames,
    pool2: Set<u64>,
    table: u64,
    level: nat,
    virt: u64,
    entry: u64,
    r: Result<(), &'static str>,
) -> bool {
    &&& wf_tree(m2, table, level)
    &&& m2.dom() == m.dom()
    &&& pmm::takes_lowest(pool, pool2, map_cost(m, table, level, virt, pool.len()))
    &&& forall|g: u64| #[trigger]
        in_tree(m2, table, level, g) <==> in_tree(m, table, level, g) || (pool.contains(g)
            && !pool2.contains(g))
    &&& forall|g: u64|
        m.contains_key(g) && !in_tree(m2, table, level, g) ==> #[trigger] m2[g] == m[g]
    &&& forall|v: u64| #[trigger]
        lookup(m2, table, level, v) == if r is Ok && same_page(v, virt, level) {
            Some((addr_of(entry) + v as int % 0x1000, flags_of(entry)))
        } else {
            lookup(m, table, level, v)
        }
    &&& r is Ok ==> unmap_outcome(m2, table, level, virt) is Ok
}

/// A fresh table: nothing below it, and it maps nothing.
pub proof fn lemma_empty_table(m: Frames, table: u64, level: nat)
    requires
        m.contains_key(table),
        table % 4096 == 0,
        table < PHYS_LIMIT,
        m[table] == mem::zero_page(),
    ensures
        wf_tree(m, table, level),
        forall|g: u64| #[trigger] in_tree(m, table, level, g) <==> g == table,
        forall|v: u64| #[trigger] lookup(m, table, level, v) is None,
        forall|v: u64| !#[trigger] blocked(m, table, level, v),
        forall|v: u64| !#[trigger] splits(m, table, level, v),
        forall|v: u64| #[trigger] missing_tables(m, table, level, v) == level,
{
    lemma_flag_values();
    assert forall|i: int| 0 <= i < 512 implies !present(#[trigger] m[table][i]) by {}
    assert forall|v: u64| #[trigger] lookup(m, table, level, v) is None by {
        assert(0 <= index(v, level) < 512);
    }
}

/// A split 2 MiB page maps every address as the page did.
proof fn lemma_split_table(m: Frames, table: u64, e: u64, v: u64)
    requires
        m[table] == split_table(e),
        present(e),
        addr_of(e) as int % 0x20_0000 == 0,
    ensures
        lookup(m, table, 0, v) == Some(
            (addr_of(e) + v as int % 0x20_0000, flags_of(e) & !PAGE_HUGE),
        ),
{
    let i = index(v, 0);
    assert(0 <= i < 512);
    lemma_mask(e);
    let a = (addr_of(e) + i * 4096) as u64;
    let fl = flags_of(e) & !PAGE_HUGE;
    assert(addr_of(e) + 0x20_0000 <= PHYS_LIMIT);
    assert(a % 4096 == 0);
    lemma_aligned(a);
    lemma_compose(a, fl);
    assert(m[table][i] == a | fl);
    assert(present(a | fl));
    assert(i * 4096 + v as int % 4096 == v as int % 0x20_0000);
}

/// What [`get_or_create_next`] leaves behind on the way to `virt`: `next` is
/// the table behind the entry, and whatever happens below it happens below
/// `table`.
spec fn stepped(
    m: Frames,
    pool: Set<u64>,
    m1: Frames,
    pool1: Set<u64>,
    table: u64,
    level: nat,
    virt: u64,
    next: u64,
) -> bool {
    let i = index(virt, level);
    let e = m[table][i];
    if links(e) {
        next == addr_of(e) && m1 == m && pool1 == pool
    } else {
        &&& pool.contains(next)
        &&& pool1 == pool.remove(next)
        &&& pmm::takes_lowest(pool, pool1, 1)
        &&& present(e) ==> level == 1
        &&& m1 == m.insert(
            next,
            if present(e) {
                split_table(e)
            } else {
                mem::zero_page()
            },
        ).insert(table, m[table].update(i, next | PAGE_PRESENT | 7))
    }
}

proof fn lemma_step(
    m: Frames,
    pool: Set<u64>,
    m1: Frames,
    pool1: Set<u64>,
    table: u64,
    level: nat,
    virt: u64,
    next: u64,
)
    requires
        1 <= level <= 3,
        wf_tree(m, table, level),
        pool_fits(m, pool, table, level),
        stepped(m, pool, m1, pool1, table, level, virt, next),
        forall|a: u64| #[trigger] pool.contains(a) ==> a % 4096 == 0 && a < PHYS_LIMIT,
    ensures
        m1.dom() == m.dom(),
        wf_tree(m1, next, (level - 1) as nat),
        pool_fits(m1, pool1, next, (level - 1) as nat),
        !in_tree(m1, next, (level - 1) as nat, table),
        links(m1[table][index(virt, level)]),
        addr_of(m1[table][index(virt, level)]) == next,
        m1[table] == m[table].update(index(virt, level), m1[table][index(virt, level)]),
        forall|g: u64| g != table && g != next ==> #[trigger] m1[g] == m[g],
        forall|g: u64| #[trigger]
            in_tree(m1, next, (level - 1) as nat, g) <==> (links(m[table][index(virt, level)])
                && in_tree(m, addr_of(m[table][index(virt, level)]), (level - 1) as nat, g)) || (
            pool.contains(g) && !pool1.contains(g)),
        forall|v: u64| #[trigger]
            lookup(m1, next, (level - 1) as nat, v) == lookup(m, table, level, v) || index(v, level)
                != index(virt, level),
        blocked(m1, next, (level - 1) as nat, virt) == blocked(m, table, level, virt),
        splits(m1, next, (level - 1) as nat, virt) == (splits(m, table, level, virt) && links(
            m[table][index(virt, level)],
        )),
        missing_tables(m1, next, (level - 1) as nat, virt) + (if links(
            m[table][index(virt, level)],
        ) {
            0nat
        } else {
            1
        }) == missing_tables(m, table, level, virt),
{
    let l1 = (level - 1) as nat;
    let i = index(virt, level);
    let e = m[table][i];
    assert(0 <= i < 512);
    assert(in_tree(m, table, level, table));
    assert(m1.dom() =~= m.dom());
    if links(e) {
        assert(m1[table] =~= m[table].update(i, e));
        assert forall|a: u64| #[trigger] pool1.contains(a) implies !in_tree(m1, next, l1, a) by {
            if in_tree(m1, next, l1, a) {
                assert(in_tree(m, table, level, a));
            }
        }
    } else {
        lemma_link_entry(next);
        if present(e) {
            assert forall|v: u64| #[trigger]
                lookup(m1, next, l1, v) == lookup(m, table, level, v) || index(v, level) != i by {
                lemma_split_table(m1, next, e, v);
            }
            assert(m1[next] == split_table(e));
        } else {
            lemma_empty_table(m1, next, l1);
        }
    }
}

proof fn lemma_lift(
    m: Frames,
    pool: Set<u64>,
    m1: Frames,
    pool1: Set<u64>,
    m2: Frames,
    pool2: Set<u64>,
    table: u64,
    level: nat,
    virt: u64,
    entry: u64,
    next: u64,
    r: Result<(), &'static str>,
)
    requires
        1 <= level <= 3,
        pool.finite(),
        wf_tree(m, table, level),
        pool_fits(m, pool, table, level),
        stepped(m, pool, m1, pool1, table, level, virt, next),
        forall|a: u64| #[trigger] pool.contains(a) ==> a % 4096 == 0 && a < PHYS_LIMIT,
        r == map_outcome(m1, next, (level - 1) as nat, virt, pool1.len()),
        mapped(m1, pool1, m2, pool2, next, (level - 1) as nat, virt, entry, r),
    ensures
        r == map_outcome(m, table, level, virt, pool.len()),
        mapped(m, pool, m2, pool2, table, level, virt, entry, r),
{
    let l1 = (level - 1) as nat;
    let i = index(virt, level);
    let e = m[table][i];
    assert(0 <= i < 512);
    lemma_step(m, pool, m1, pool1, table, level, virt, next);
    let fresh = pool.difference(pool2);
    let fresh1 = pool1.difference(pool2);
    assert(in_tree(m, table, level, table));
    assert(!in_tree(m2, next, l1, table));
    assert(m2[table] == m1[table]);
    assert forall|g: u64| #[trigger]
        in_tree(m2, next, l1, g) <==> (links(e) && in_tree(m, addr_of(e), l1, g))
            || fresh.contains(g) by {
        assert(in_tree(m2, next, l1, g) <==> in_tree(m1, next, l1, g) || fresh1.contains(g));
    }
    assert forall|g: u64| #[trigger]
        in_tree(m, table, level, g) && g != table && !(links(e) && in_tree(
            m,
            addr_of(e),
            l1,
            g,
        )) implies m2.contains_key(g) && m2[g] == m[g] by {
        lemma_in_tree_known(m, table, level, g);
        assert(!in_tree(m2, next, l1, g));
        assert(g != next) by {
            assert(in_tree(m1, next, l1, next));
        }
        assert(m2[g] == m1[g]);
    }
    lemma_child(m, m2, table, level, i, fresh);
    if links(e) {
    } else {
        pmm::lemma_takes_more(
            pool,
            pool1,
            pool2,
            1,
            map_cost(m1, next, l1, virt, pool1.len()),
        );
    }
    assert forall|g: u64| m.contains_key(g) && !in_tree(m2, table, level, g) implies #[trigger] m2[g]
        == m[g] by {
        assert(g != table);
        if in_tree(m2, next, l1, g) {
            assert(in_tree(m2, table, level, g));
        }
        assert(in_tree(m2, next, l1, next));
    }
    assert forall|v: u64| #[trigger]
        lookup(m2, table, level, v) == if r is Ok && same_page(v, virt, level) {
            Some((addr_of(entry) + v as int % 0x1000, flags_of(entry)))
        } else {
            lookup(m, table, level, v)
        } by {
        if index(v, level) == i {
            assert(lookup(m2, next, l1, v) == lookup(m2, table, level, v));
            assert(lookup(m1, next, l1, v) == lookup(m, table, level, v));
        }
    }
    assert(lookup(m1, next, l1, virt) == lookup(m, table, level, virt));
}

/// Every table of a well-formed tree is a frame of the memory.
pub proof fn lemma_in_tree_known(m: Frames, table: u64, level: nat, f: u64)
    requires
        wf_tree(m, table, level),
        in_tree(m, table, level, f),
    ensures
        m.contains_key(f),
        f % 4096 == 0,
        f < PHYS_LIMIT,
        m[f].len() == 512,
    decreases level,
{
    if f != table {
        let i = choose|i: int|
            0 <= i < 512 && links(#[trigger] m[table][i]) && in_tree(
                m,
                addr_of(m[table][i]),
                (level - 1) as nat,
                f,
            );
        lemma_in_tree_known(m, addr_of(m[table][i]), (level - 1) as nat, f);
    }
}

/// Mapping a page does what [`mapped`] says.
pub proof fn lemma_map_memory(
    m: Frames,
    pool: Set<u64>,
    table: u64,
    level: nat,
    virt: u64,
    entry: u64,
)
    requires
        level <= 3,
        present(entry),
        pool.finite(),
        wf_tree(m, table, level),
        pool_fits(m, pool, table, level),
        forall|a: u64| #[trigger] pool.contains(a) ==> a % 4096 == 0 && a < PHYS_LIMIT,
    ensures
        ({
            let (m2, pool2) = map_memory(m, pool, table, level, virt, entry);
            mapped(
                m,
                pool,
                m2,
                pool2,
                table,
                level,
                virt,
                entry,
                map_outcome(m, table, level, virt, pool.len()),
            )
        }),
    decreases level,
{
    let (m2, pool2) = map_memory(m, pool, table, level, virt, entry);
    let r = map_outcome(m, table, level, virt, pool.len());
    let i = index(virt, level);
    let e = m[table][i];
    assert(0 <= i < 512);
    assert(in_tree(m, table, level, table));
    if level == 0 {
        assert forall|v: u64| #[trigger]
            lookup(m2, table, 0, v) == if r is Ok && same_page(v, virt, 0) {
                Some((addr_of(entry) + v as int % 0x1000, flags_of(entry)))
            } else {
                lookup(m, table, 0, v)
            } by {
            assert(0 <= index(v, 0) < 512);
        }
        assert(m2.dom() =~= m.dom());
    } else if links(e) || ((!present(e) || level == 1) && pool != Set::<u64>::empty()) {
        let (m1, pool1, next) = if links(e) {
            (m, pool, addr_of(e))
        } else {
            let f = pmm::lowest_frame(pool);
            let page = if present(e) {
                split_table(e)
            } else {
                mem::zero_page()
            };
            (
                m.insert(f, page).insert(table, m[table].update(i, f | PAGE_PRESENT | 7)),
                pool.remove(f),
                f,
            )
        };
        if !links(e) {
            pmm::lemma_take_lowest(pool);
        }
        lemma_step(m, pool, m1, pool1, table, level, virt, next);
        lemma_map_memory(m1, pool1, next, (level - 1) as nat, virt, entry);
        lemma_lift(
            m,
            pool,
            m1,
            pool1,
            m2,
            pool2,
            table,
            level,
            virt,
            entry,
            next,
            map_outcome(m1, next, (level - 1) as nat, virt, pool1.len()),
        );
    } else {
        assert(pool =~= Set::<u64>::empty() ==> pool.len() == 0);
    }
}

/// Installs `entry` for `virt` under `table`, adding the tables on the way.
fn map_at(
    mem: &mut PhysMemory,
    pmm: &mut FrameBitmap,
    table: u64,
    level: u8,
    virt: u64,
    entry: u64,
) -> (r: Result<(), &'static str>)
    requires
        old(mem).wf(),
        old(pmm).wf(),
        level <= 3,
        present(entry),
        wf_tree(old(mem)@, table, level as nat),
        pool_fits(old(mem)@, old(pmm)@, table, level as nat),
    ensures
        final(mem).wf(),
        final(pmm).wf(),
        r == map_outcome(old(mem)@, table, level as nat, virt, old(pmm)@.len()),
        mapped(
            old(mem)@,
            old(pmm)@,
            final(mem)@,
            final(pmm)@,
            table,
            level as nat,
            virt,
            entry,
            r,
        ),
        (final(mem)@, final(pmm)@) == map_memory(
            old(mem)@,
            old(pmm)@,
            table,
            level as nat,
            virt,
            entry,
        ),
    decreases level,
{
    let ghost m = old(mem)@;
    let ghost pool = old(pmm)@;
    let i = table_index(virt, level);
    proof {
        broadcast use PhysMemory::lemma_frame;

        lemma_flag_values();
        old(pmm).lemma_finite();
        assert(in_tree(m, table, level as nat, table));
        assert forall|a: u64| #[trigger] pool.contains(a) implies a % 4096 == 0 && a
            < PHYS_LIMIT by {
            assert(m.contains_key(a));
        }
        lemma_map_memory(m, pool, table, level as nat, virt, entry);
    }
    if level == 0 {
        let e = mem.read(table, i);
        if e & PAGE_PRESENT != 0 {
            return Err(ERR_ALREADY_MAPPED);
        }
        mem.write(table, i, entry);
        return Ok(());
    }
    let ghost l = level as nat;
    let inter_flags = PAGE_PRESENT | PAGE_WRITABLE | PAGE_USER;
    let next = match get_or_create_next(mem, pmm, table, i, inter_flags, level == 1) {
        Ok(t) => t,
        Err(msg) => {
            assert(Set::<u64>::empty().len() == 0);
            return Err(msg);
        },
    };
    let ghost m1 = mem@;
    let ghost pool1 = pmm@;
    proof {
        assert(inter_flags == 7);
        lemma_step(m, pool, m1, pool1, table, l, virt, next);
    }
    let r = map_at(mem, pmm, next, level - 1, virt, entry);
    proof {
        lemma_lift(m, pool, m1, pool1, mem@, pmm@, table, l, virt, entry, next, r);
    }
    r
}

/// The access flags of a page mapped for a process.
pub open spec fn leaf_flags(writable: bool, executable: bool) -> u64 {
    let base = PAGE_PRESENT | PAGE_USER;
    let w = if writable {
        base | PAGE_WRITABLE
    } else {
        base
    };
    if executable {
        w
    } else {
        w | PAGE_NO_EXECUTE
    }
}

/// Maps the 4 KiB page `virt` to `phys` in the address space with root `p4`,
/// which need not be the active one. The flags of every table on the way allow
/// user access: the processor demands that at all levels.
///
/// On success the result says whether the TLB entry of `virt` has to be
/// invalidated, which is so exactly if `p4` is the active root `cr3`.
pub fn map_page_in(
    mem: &mut PhysMemory,
    pmm: &mut FrameBitmap,
    cr3: u64,
    p4: u64,
    virt: u64,
    phys: u64,
    writable: bool,
    executable: bool,
) -> (r: Result<bool, &'static str>)
    requires
        old(mem).wf(),
        old(pmm).wf(),
        wf_tree(old(mem)@, p4, 3),
        pool_fits(old(mem)@, old(pmm)@, p4, 3),
    ensures
        final(mem).wf(),
        final(pmm).wf(),
        virt % 4096 != 0 || phys % 4096 != 0 ==> {
            &&& r == Err::<bool, &'static str>(ERR_UNALIGNED)
            &&& final(mem)@ == old(mem)@
            &&& final(pmm)@ == old(pmm)@
        },
        virt % 4096 == 0 && phys % 4096 == 0 ==> {
            let outcome = map_outcome(old(mem)@, p4, 3, virt, old(pmm)@.len());
            &&& r == match outcome {
                Ok(_) => Ok::<bool, &'static str>(p4 == cr3),
                Err(e) => Err(e),
            }
            &&& mapped(
                old(mem)@,
                old(pmm)@,
                final(mem)@,
                final(pmm)@,
                p4,
                3,
                virt,
                addr_of(phys) | leaf_flags(writable, executable),
                outcome,
            )
            &&& (final(mem)@, final(pmm)@) == map_memory(
                old(mem)@,
                old(pmm)@,
                p4,
                3,
                virt,
                addr_of(phys) | leaf_flags(writable, executable),
            )
        },
{
    if virt % 4096 != 0 || phys % 4096 != 0 {
        return Err(ERR_UNALIGNED);
    }
    let mut flags = PAGE_PRESENT | PAGE_USER;
    if writable {
        flags = flags | PAGE_WRITABLE;
    }
    if !executable {
        flags = flags | PAGE_NO_EXECUTE;
    }
    proof {
        lemma_leaf_entry(phys, writable, executable);
    }
    match map_at(mem, pmm, p4, 3, virt, (phys & ADDR_MASK) | flags) {
        Ok(_) => Ok(p4 == cr3),
        Err(e) => Err(e),
    }
}

/// The entry that maps a page is present and says where and how.
pub proof fn lemma_leaf_entry(phys: u64, writable: bool, executable: bool)
    ensures
        ({
            let e = addr_of(phys) | leaf_flags(writable, executable);
            &&& present(e)
            &&& addr_of(e) == addr_of(phys)
            &&& flags_of(e) == leaf_flags(writable, executable)
        }),
{
    lemma_flag_values();
    lemma_compose(phys, leaf_flags(writable, executable));
}

/// An aligned physical address is its own frame address.
pub proof fn lemma_addr_of(a: u64)
    ensures
        a % 4096 == 0 && a < PHYS_LIMIT ==> addr_of(a) == a,
        addr_of(a) % 4096 == 0,
        addr_of(a) < PHYS_LIMIT,
{
    lemma_mask(a);
    if a % 4096 == 0 && a < PHYS_LIMIT {
        lemma_aligned(a);
    }
}

/// Maps a page in the active address space.
pub fn map_page(
    mem: &mut PhysMemory,
    pmm: &mut FrameBitmap,
    cr3: u64,
    virt: u64,
    phys: u64,
    writable: bool,
    executable: bool,
) -> (r: Result<bool, &'static str>)
    requires
        old(mem).wf(),
        old(pmm).wf(),
        wf_tree(old(mem)@, cr3, 3),
        pool_fits(old(mem)@, old(pmm)@, cr3, 3),
    ensures
        final(mem).wf(),
        final(pmm).wf(),
        virt % 4096 != 0 || phys % 4096 != 0 ==> {
            &&& r == Err::<bool, &'static str>(ERR_UNALIGNED)
            &&& final(mem)@ == old(mem)@
            &&& final(pmm)@ == old(pmm)@
        },
        virt % 4096 == 0 && phys % 4096 == 0 ==> {
            let outcome = map_outcome(old(mem)@, cr3, 3, virt, old(pmm)@.len());
            &&& r == match outcome {
                Ok(_) => Ok::<bool, &'static str>(true),
                Err(e) => Err(e),
            }
            &&& mapped(
                old(mem)@,
                old(pmm)@,
                final(mem)@,
                final(pmm)@,
                cr3,
                3,
                virt,
                addr_of(phys) | leaf_flags(writable, executable),
                outcome,
            )
            &&& (final(mem)@, final(pmm)@) == map_memory(
                old(mem)@,
                old(pmm)@,
                cr3,
                3,
                virt,
                addr_of(phys) | leaf_flags(writable, executable),
            )
        },
{
    map_page_in(mem, pmm, cr3, cr3, virt, phys, writable, executable)
}

/// Whether the frame `f` is a table of this tree.
pub fn is_table(mem: &PhysMemory, table: u64, level: u8, f: u64) -> (r: bool)
    requires
        mem.wf(),
        level <= 3,
        wf_tree(mem@, table, level as nat),
    ensures
        r == in_tree(mem@, table, level as nat, f),
    decreases level,
{
    if f == table {
        return true;
    }
    if level == 0 {
        return false;
    }
    let ghost m = mem@;
    let mut i: usize = 0;
    while i < 512
        invariant
            i <= 512,
            0 < level <= 3,
            m == mem@,
            mem.wf(),
            wf_tree(m, table, level as nat),
            f != table,
            forall|j: int|
                0 <= j < i && links(#[trigger] m[table][j]) ==> !in_tree(
                    m,
                    addr_of(m[table][j]),
                    (level - 1) as nat,
                    f,
                ),
        decreases 512 - i,
    {
        let e = mem.read(table, i);
        if e & PAGE_PRESENT != 0 && e & PAGE_HUGE == 0 {
            assert(links(m[table][i as int]));
            if is_table(mem, e & ADDR_MASK, level - 1, f) {
                return true;
            }
        }
        i += 1;
    }
    false
}

/// The physical address that `virt` maps to in the address space with root
/// `p4`. `None` if it maps to nothing. Nothing is created or changed.
pub fn translate(mem: &PhysMemory, p4: u64, virt: u64) -> (r: Option<u64>)
    requires
        mem.wf(),
        wf_tree(mem@, p4, 3),
    ensures
        match lookup(mem@, p4, 3, virt) {
            Some((a, _)) => r is Some && r->0 == a,
            None => r is None,
        },
{
    let mut table = p4;
    let mut level: u8 = 3;
    while level > 0
        invariant
            mem.wf(),
            level <= 3,
            wf_tree(mem@, table, level as nat),
            lookup(mem@, table, level as nat, virt) == lookup(mem@, p4, 3, virt),
        decreases level,
    {
        let e = mem.read(table, table_index(virt, level));
        if e & PAGE_PRESENT == 0 {
            return None;
        }
        proof {
            lemma_mask(e);
        }
        if e & PAGE_HUGE != 0 {
            let offset = if level == 1 {
                virt % 0x20_0000
            } else {
                virt % 0x4000_0000
            };
            return Some((e & ADDR_MASK) + offset);
        }
        table = e & ADDR_MASK;
        level = level - 1;
    }
    let e = mem.read(table, table_index(virt, 0));
    if e & PAGE_PRESENT == 0 {
        return None;
    }
    proof {
        lemma_mask(e);
    }
    Some((e & ADDR_MASK) + virt % 0x1000)
}

// --- unmapping a page ------------------------------------------------------

pub const ERR_UNMAP_UNALIGNED: &'static str = "virt debe estar alineado a 4 KiB";

pub const ERR_NO_P3: &'static str = "no estaba mapeado (falta tabla P3)";

pub const ERR_NO_P2: &'static str = "no estaba mapeado (falta tabla P2)";

pub const ERR_NO_P1: &'static str = "no estaba mapeado (falta tabla P1)";

pub const ERR_NOT_MAPPED: &'static str = "no estaba mapeado";

pub const ERR_IN_HUGE_PAGE: &'static str =
    "está dentro de una huge page — no se puede desmapear individualmente en esta pasada";

/// What unmapping the page at `virt` reports.
pub open spec fn unmap_outcome(m: Frames, table: u64, level: nat, virt: u64) -> Result<
    (),
    &'static str,
>
    decreases level,
{
    let e = m[table][index(virt, level)];
    if !present(e) {
        if level == 0 {
            Err(ERR_NOT_MAPPED)
        } else if level == 1 {
            Err(ERR_NO_P1)
        } else if level == 2 {
            Err(ERR_NO_P2)
        } else {
            Err(ERR_NO_P3)
        }
    } else if level == 0 {
        Ok(())
    } else if huge(e) {
        Err(ERR_IN_HUGE_PAGE)
    } else {
        unmap_outcome(m, addr_of(e), (level - 1) as nat, virt)
    }
}

/// The change that unmapping the page at `virt` makes.
pub open spec fn unmapped(m: Frames, m2: Frames, table: u64, level: nat, virt: u64) -> bool {
    &&& wf_tree(m2, table, level)
    &&& m2.dom() == m.dom()
    &&& forall|g: u64| #[trigger] in_tree(m2, table, level, g) == in_tree(m, table, level, g)
    &&& forall|g: u64|
        m.contains_key(g) && !in_tree(m, table, level, g) ==> #[trigger] m2[g] == m[g]
    &&& forall|v: u64| #[trigger]
        lookup(m2, table, level, v) == if same_page(v, virt, level) {
            None
        } else {
            lookup(m, table, level, v)
        }
}

fn unmap_at(mem: &mut PhysMemory, table: u64, level: u8, virt: u64) -> (r: Result<
    (),
    &'static str,
>)
    requires
        old(mem).wf(),
        level <= 3,
        wf_tree(old(mem)@, table, level as nat),
    ensures
        final(mem).wf(),
        r == unmap_outcome(old(mem)@, table, level as nat, virt),
        r is Ok ==> unmapped(old(mem)@, final(mem)@, table, level as nat, virt),
        r is Err ==> final(mem)@ == old(mem)@,
    decreases level,
{
    let ghost m = old(mem)@;
    let i = table_index(virt, level);
    let e = mem.read(table, i);
    if e & PAGE_PRESENT == 0 {
        return if level == 0 {
            Err(ERR_NOT_MAPPED)
        } else if level == 1 {
            Err(ERR_NO_P1)
        } else if level == 2 {
            Err(ERR_NO_P2)
        } else {
            Err(ERR_NO_P3)
        };
    }
    if level == 0 {
        mem.write(table, i, 0);
        proof {
            lemma_flag_values();
            assert(mem@.dom() =~= m.dom());
            assert forall|v: u64| #[trigger]
                lookup(mem@, table, 0, v) == if same_page(v, virt, 0) {
                    None
                } else {
                    lookup(m, table, 0, v)
                } by {
                assert(0 <= index(v, 0) < 512);
            }
        }
        return Ok(());
    }
    if e & PAGE_HUGE != 0 {
        return Err(ERR_IN_HUGE_PAGE);
    }
    let next = e & ADDR_MASK;
    let r = unmap_at(mem, next, level - 1, virt);
    proof {
        if r is Ok {
            let l = level as nat;
            let l1 = (level - 1) as nat;
            assert(!in_tree(m, next, l1, table));
            assert(mem@[table] =~= m[table].update(i as int, e));
            assert forall|g: u64| #[trigger]
                in_tree(m, table, l, g) && g != table && !in_tree(m, next, l1, g) implies mem@[g]
                == m[g] && mem@.contains_key(g) by {
                lemma_in_tree_known(m, table, l, g);
            }
            lemma_child(m, mem@, table, l, i as int, Set::empty());
            assert forall|g: u64| m.contains_key(g) && !in_tree(m, table, l, g) implies #[trigger] mem@[g]
                == m[g] by {
                if in_tree(m, next, l1, g) {
                    assert(links(m[table][i as int]));
                    assert(in_tree(m, table, l, g));
                }
            }
            assert forall|v: u64| #[trigger]
                lookup(mem@, table, l, v) == if same_page(v, virt, l) {
                    None
                } else {
                    lookup(m, table, l, v)
                } by {
                assert(lookup(mem@, next, l1, v) == if same_page(v, virt, l1) {
                    None
                } else {
                    lookup(m, next, l1, v)
                });
            }
        }
    }
    r
}

/// Unmaps a 4 KiB page of the active address space. Its frame is not released:
/// that is up to the caller. On success the caller has to invalidate the TLB
/// entry of `virt`.
pub fn unmap_page(mem: &mut PhysMemory, cr3: u64, virt: u64) -> (r: Result<(), &'static str>)
    requires
        old(mem).wf(),
        wf_tree(old(mem)@, cr3, 3),
    ensures
        final(mem).wf(),
        r == if virt % 4096 != 0 {
            Err::<(), &'static str>(ERR_UNMAP_UNALIGNED)
        } else {
            unmap_outcome(old(mem)@, cr3, 3, virt)
        },
        r is Ok ==> unmapped(old(mem)@, final(mem)@, cr3, 3, virt),
        r is Err ==> final(mem)@ == old(mem)@,
{
    if virt % 4096 != 0 {
        return Err(ERR_UNMAP_UNALIGNED);
    }
    unmap_at(mem, cr3, 3, virt)
}

// --- address spaces --------------------------------------------------------

/// Whether frame `f` belongs to a table: the table itself, a table below it, or
/// a 4 KiB page that these map. The entries before `first` are shared with
/// others and own nothing; huge pages are shared too.
pub open spec fn owns(m: Frames, table: u64, level: nat, first: int, f: u64) -> bool
    decreases level,
{
    f == table || exists|i: int|
        first <= i < 512 && present(#[trigger] m[table][i]) && if level == 0 {
            f == addr_of(m[table][i])
        } else {
            !huge(m[table][i]) && owns(m, addr_of(m[table][i]), (level - 1) as nat, 0, f)
        }
}

/// Whether frame `f` belongs to what entry `e` of a table of this level leads
/// to.
pub open spec fn entry_owns(m: Frames, e: u64, level: nat, f: u64) -> bool {
    present(e) && if level == 0 {
        f == addr_of(e)
    } else {
        !huge(e) && owns(m, addr_of(e), (level - 1) as nat, 0, f)
    }
}

/// Whether the table `dst` of memory `c` is a deep copy of the table `src` of
/// memory `m`: same pages, same flags, same contents. The entries before
/// `first`, and huge pages, are shared instead of copied.
pub open spec fn copy_of(m: Frames, src: u64, c: Frames, dst: u64, level: nat, first: int) -> bool
    decreases level,
{
    &&& forall|i: int| 0 <= i < first ==> #[trigger] c[dst][i] == m[src][i]
    &&& forall|i: int|
        #![trigger c[dst][i]]
        first <= i < 512 ==> {
            let e = m[src][i];
            let d = c[dst][i];
            if !present(e) {
                d == 0
            } else if level == 0 {
                &&& present(d)
                &&& flags_of(d) == flags_of(e)
                &&& c[addr_of(d)] == m[addr_of(e)]
            } else if huge(e) {
                d == e
            } else {
                &&& links(d)
                &&& flags_of(d) == flags_of(e)
                &&& copy_of(m, addr_of(e), c, addr_of(d), (level - 1) as nat, 0)
            }
        }
}

/// The relation of [`copy_of`] between one entry and its copy.
pub open spec fn entry_copied(m: Frames, e: u64, c: Frames, d: u64, level: nat) -> bool {
    if !present(e) {
        d == 0
    } else if level == 0 {
        &&& present(d)
        &&& flags_of(d) == flags_of(e)
        &&& c[addr_of(d)] == m[addr_of(e)]
    } else if huge(e) {
        d == e
    } else {
        &&& links(d)
        &&& flags_of(d) == flags_of(e)
        &&& copy_of(m, addr_of(e), c, addr_of(d), (level - 1) as nat, 0)
    }
}

/// How many frames the entries `first` to `n` of a table lead to.
pub open spec fn frames_below(m: Frames, table: u64, level: nat, first: int, n: int) -> nat
    decreases level, n,
{
    if n <= first || n <= 0 {
        0
    } else {
        let e = m[table][n - 1];
        frames_below(m, table, level, first, n - 1) + if !present(e) {
            0
        } else if level == 0 {
            1
        } else if huge(e) {
            0
        } else {
            1 + frames_below(m, addr_of(e), (level - 1) as nat, 0, 512)
        }
    }
}

/// How many frames entry `e` of a table of this level leads to.
pub open spec fn entry_frames(m: Frames, e: u64, level: nat) -> nat {
    if !present(e) {
        0
    } else if level == 0 {
        1
    } else if huge(e) {
        0
    } else {
        1 + frames_below(m, addr_of(e), (level - 1) as nat, 0, 512)
    }
}

/// What an entry owns, and what it is a copy of, depends only on the frames
/// that it owns.
proof fn lemma_copy_local(m: Frames, src: u64, c: Frames, c2: Frames, dst: u64, level: nat)
    requires
        copy_of(m, src, c, dst, level, 0),
        forall|f: u64| #[trigger] owns(c, dst, level, 0, f) ==> c2[f] == c[f],
    ensures
        copy_of(m, src, c2, dst, level, 0),
        forall|f: u64| #[trigger] owns(c2, dst, level, 0, f) == owns(c, dst, level, 0, f),
    decreases level, 1int,
{
    assert(owns(c, dst, level, 0, dst));
    assert forall|i: int| 0 <= i < 512 implies {
        let d = #[trigger] c[dst][i];
        &&& entry_copied(m, m[src][i], c2, d, level)
        &&& forall|f: u64| #[trigger] entry_owns(c2, d, level, f) == entry_owns(c, d, level, f)
    } by {
        let d = c[dst][i];
        assert forall|f: u64| #[trigger] entry_owns(c, d, level, f) implies c2[f] == c[f] by {
            assert(owns(c, dst, level, 0, f));
        }
        lemma_entry_local(m, m[src][i], c, c2, d, level);
    }
    assert forall|f: u64| #[trigger] owns(c2, dst, level, 0, f) == owns(c, dst, level, 0, f) by {
        if owns(c, dst, level, 0, f) && f != dst {
            let i = choose|i: int|
                0 <= i < 512 && present(#[trigger] c[dst][i]) && if level == 0 {
                    f == addr_of(c[dst][i])
                } else {
                    !huge(c[dst][i]) && owns(c, addr_of(c[dst][i]), (level - 1) as nat, 0, f)
                };
            assert(entry_owns(c2, c[dst][i], level, f) == entry_owns(c, c[dst][i], level, f));
            assert(c2[dst][i] == c[dst][i]);
        }
        if owns(c2, dst, level, 0, f) && f != dst {
            let i = choose|i: int|
                0 <= i < 512 && present(#[trigger] c2[dst][i]) && if level == 0 {
                    f == addr_of(c2[dst][i])
                } else {
                    !huge(c2[dst][i]) && owns(c2, addr_of(c2[dst][i]), (level - 1) as nat, 0, f)
                };
            assert(c2[dst][i] == c[dst][i]);
            assert(entry_owns(c2, c[dst][i], level, f) == entry_owns(c, c[dst][i], level, f));
        }
    }
}

proof fn lemma_entry_local(m: Frames, e: u64, c: Frames, c2: Frames, d: u64, level: nat)
    requires
        entry_copied(m, e, c, d, level),
        forall|f: u64| #[trigger] entry_owns(c, d, level, f) ==> c2[f] == c[f],
    ensures
        entry_copied(m, e, c2, d, level),
        forall|f: u64| #[trigger] entry_owns(c2, d, level, f) == entry_owns(c, d, level, f),
    decreases level, 0int,
{
    lemma_flag_values();
    if present(e) {
        if level == 0 {
            assert(entry_owns(c, d, level, addr_of(d)));
        } else if !huge(e) {
            let l1 = (level - 1) as nat;
            assert forall|f: u64| #[trigger] owns(c, addr_of(d), l1, 0, f) implies c2[f]
                == c[f] by {
                assert(entry_owns(c, d, level, f));
            }
            lemma_copy_local(m, addr_of(e), c, c2, addr_of(d), l1);
        }
    }
}

/// A table belongs to itself, and every table below it belongs to it.
pub proof fn lemma_tree_owned(m: Frames, table: u64, level: nat, f: u64)
    requires
        in_tree(m, table, level, f),
    ensures
        owns(m, table, level, 0, f),
    decreases level,
{
    if f != table {
        let i = choose|i: int|
            0 <= i < 512 && links(#[trigger] m[table][i]) && in_tree(
                m,
                addr_of(m[table][i]),
                (level - 1) as nat,
                f,
            );
        lemma_tree_owned(m, addr_of(m[table][i]), (level - 1) as nat, f);
    }
}

/// What a table owns, how much that is, and what copies it depend only on the
/// frames it owns.
proof fn lemma_source_local(m: Frames, c: Frames, table: u64, level: nat)
    requires
        forall|f: u64| #[trigger] owns(m, table, level, 0, f) ==> c[f] == m[f],
    ensures
        forall|f: u64| #[trigger] owns(c, table, level, 0, f) == owns(m, table, level, 0, f),
        forall|n: int|
            n <= 512 ==> #[trigger] frames_below(c, table, level, 0, n) == frames_below(
                m,
                table,
                level,
                0,
                n,
            ),
        forall|c2: Frames, dst: u64| #[trigger]
            copy_of(c, table, c2, dst, level, 0) == copy_of(m, table, c2, dst, level, 0),
    decreases level, 1int,
{
    assert(owns(m, table, level, 0, table));
    assert(c[table] == m[table]);
    assert forall|i: int| 0 <= i < 512 implies {
        let e = #[trigger] m[table][i];
        &&& entry_frames(c, e, level) == entry_frames(m, e, level)
        &&& forall|f: u64| #[trigger] entry_owns(c, e, level, f) == entry_owns(m, e, level, f)
        &&& forall|c2: Frames, d: u64| #[trigger]
            entry_copied(c, e, c2, d, level) == entry_copied(m, e, c2, d, level)
    } by {
        let e = m[table][i];
        assert forall|f: u64| #[trigger] entry_owns(m, e, level, f) implies c[f] == m[f] by {
            assert(owns(m, table, level, 0, f));
        }
        lemma_source_entry_local(m, c, e, level);
    }
    assert forall|f: u64| #[trigger] owns(c, table, level, 0, f) == owns(
        m,
        table,
        level,
        0,
        f,
    ) by {
        if owns(m, table, level, 0, f) && f != table {
            let i = choose|i: int|
                0 <= i < 512 && present(#[trigger] m[table][i]) && if level == 0 {
                    f == addr_of(m[table][i])
                } else {
                    !huge(m[table][i]) && owns(m, addr_of(m[table][i]), (level - 1) as nat, 0, f)
                };
            assert(entry_owns(c, m[table][i], level, f) == entry_owns(m, m[table][i], level, f));
            assert(c[table][i] == m[table][i]);
        }
        if owns(c, table, level, 0, f) && f != table {
            let i = choose|i: int|
                0 <= i < 512 && present(#[trigger] c[table][i]) && if level == 0 {
                    f == addr_of(c[table][i])
                } else {
                    !huge(c[table][i]) && owns(c, addr_of(c[table][i]), (level - 1) as nat, 0, f)
                };
            assert(entry_owns(c, m[table][i], level, f) == entry_owns(m, m[table][i], level, f));
        }
    }
    assert forall|n: int| n <= 512 implies #[trigger] frames_below(c, table, level, 0, n)
        == frames_below(m, table, level, 0, n) by {
        lemma_frames_equal(m, c, table, level, n);
    }
    assert forall|c2: Frames, dst: u64| #[trigger]
        copy_of(c, table, c2, dst, level, 0) == copy_of(m, table, c2, dst, level, 0) by {
        assert forall|i: int| 0 <= i < 512 implies entry_copied(
            c,
            m[table][i],
            c2,
            #[trigger] c2[dst][i],
            level,
        ) == entry_copied(m, m[table][i], c2, c2[dst][i], level) by {
            let e = m[table][i];
        }
        if copy_of(m, table, c2, dst, level, 0) {
            assert forall|i: int| 0 <= i < 512 implies entry_copied(
                c,
                c[table][i],
                c2,
                #[trigger] c2[dst][i],
                level,
            ) by {
                assert(entry_copied(m, m[table][i], c2, c2[dst][i], level));
            }
        }
        if copy_of(c, table, c2, dst, level, 0) {
            assert forall|i: int| 0 <= i < 512 implies entry_copied(
                m,
                m[table][i],
                c2,
                #[trigger] c2[dst][i],
                level,
            ) by {
                assert(entry_copied(c, c[table][i], c2, c2[dst][i], level));
            }
        }
    }
}

proof fn lemma_frames_equal(m: Frames, c: Frames, table: u64, level: nat, n: int)
    requires
        n <= 512,
        c[table] == m[table],
        forall|i: int|
            0 <= i < 512 ==> entry_frames(c, #[trigger] m[table][i], level) == entry_frames(
                m,
                m[table][i],
                level,
            ),
    ensures
        frames_below(c, table, level, 0, n) == frames_below(m, table, level, 0, n),
    decreases n,
{
    if n > 0 {
        lemma_frames_equal(m, c, table, level, n - 1);
        let e = m[table][n - 1];
        assert(entry_frames(c, e, level) == entry_frames(m, e, level));
    }
}

proof fn lemma_source_entry_local(m: Frames, c: Frames, e: u64, level: nat)
    requires
        forall|f: u64| #[trigger] entry_owns(m, e, level, f) ==> c[f] == m[f],
    ensures
        entry_frames(c, e, level) == entry_frames(m, e, level),
        forall|f: u64| #[trigger] entry_owns(c, e, level, f) == entry_owns(m, e, level, f),
        forall|c2: Frames, d: u64| #[trigger]
            entry_copied(c, e, c2, d, level) == entry_copied(m, e, c2, d, level),
    decreases level, 0int,
{
    if present(e) {
        if level == 0 {
            assert(entry_owns(m, e, level, addr_of(e)));
        } else if !huge(e) {
            let l1 = (level - 1) as nat;
            assert forall|f: u64| #[trigger] owns(m, addr_of(e), l1, 0, f) implies c[f]
                == m[f] by {
                assert(entry_owns(m, e, level, f));
            }
            lemma_source_local(m, c, addr_of(e), l1);
        }
    }
}

/// What cloning the part of memory behind an entry or a table needs: all of it
/// is in memory, and none of it is free.
spec fn entry_cloneable(m: Frames, pool: Set<u64>, e: u64, level: nat) -> bool {
    &&& forall|a: u64| #[trigger] pool.contains(a) ==> m.contains_key(a)
    &&& forall|f: u64| #[trigger]
        entry_owns(m, e, level, f) ==> m.contains_key(f) && !pool.contains(f)
    &&& level > 0 && links(e) ==> wf_tree(m, addr_of(e), (level - 1) as nat)
}

/// See [`clone_address_space`].
pub open spec fn cloneable(m: Frames, pool: Set<u64>, table: u64, level: nat, first: int) -> bool {
    &&& wf_tree(m, table, level)
    &&& pool_fits(m, pool, table, level)
    &&& forall|f: u64| #[trigger]
        owns(m, table, level, first, f) ==> m.contains_key(f) && !pool.contains(f)
}

/// The frames of `pool` that are gone in `rest` are the only ones written.
pub open spec fn writes_only_taken(m: Frames, pool: Set<u64>, m2: Frames, rest: Set<u64>) -> bool {
    &&& m2.dom() == m.dom()
    &&& forall|g: u64|
        m.contains_key(g) && !(pool.contains(g) && !rest.contains(g)) ==> #[trigger] m2[g] == m[g]
}

/// The state after cloning the entries before `i` of `src` into `t`, where
/// `taken[j]` are the frames that went into entry `j`.
spec fn cloned_so_far(
    m: Frames,
    pool: Set<u64>,
    c: Frames,
    p: Set<u64>,
    src: u64,
    t: u64,
    level: nat,
    first: int,
    i: int,
    taken: Seq<Set<u64>>,
) -> bool {
    &&& first <= i <= 512
    &&& taken.len() == i
    &&& writes_only_taken(m, pool, c, p)
    &&& pool.contains(t)
    &&& !p.contains(t)
    &&& c[t].len() == 512
    &&& pmm::takes_lowest(pool, p, 1 + frames_below(m, src, level, first, i))
    &&& forall|j: int| 0 <= j < first ==> #[trigger] c[t][j] == m[src][j]
    &&& forall|j: int| i <= j < 512 ==> #[trigger] c[t][j] == 0
    &&& forall|j: int|
        first <= j < i ==> {
            let d = #[trigger] c[t][j];
            &&& entry_copied(m, m[src][j], c, d, level)
            &&& forall|f: u64| #[trigger] entry_owns(c, d, level, f) <==> taken[j].contains(f)
            &&& level > 0 && links(d) ==> wf_tree(c, addr_of(d), (level - 1) as nat)
        }
    &&& forall|j: int, f: u64|
        first <= j < i && #[trigger] taken[j].contains(f) ==> pool.contains(f) && !p.contains(f) && f
            != t
    &&& forall|j: int, k: int, f: u64|
        first <= j < i && first <= k < i && j != k && #[trigger] taken[j].contains(f)
            ==> !#[trigger] taken[k].contains(f)
    &&& forall|f: u64| #[trigger]
        pool.contains(f) && !p.contains(f) && f != t ==> exists|j: int|
            first <= j < i && #[trigger] taken[j].contains(f)
}

proof fn lemma_clone_step(
    m: Frames,
    pool: Set<u64>,
    c: Frames,
    p: Set<u64>,
    c2: Frames,
    p2: Set<u64>,
    src: u64,
    t: u64,
    level: nat,
    first: int,
    i: int,
    taken: Seq<Set<u64>>,
    d: u64,
)
    requires
        cloneable(m, pool, src, level, first),
        cloned_so_far(m, pool, c, p, src, t, level, first, i, taken),
        0 <= first <= i < 512,
        entry_copied(c, m[src][i], c2, d, level),
        forall|f: u64| #[trigger]
            entry_owns(c2, d, level, f) <==> p.contains(f) && !p2.contains(f),
        level > 0 && links(d) ==> wf_tree(c2, addr_of(d), (level - 1) as nat),
        pmm::takes_lowest(p, p2, entry_frames(c, m[src][i], level)),
        writes_only_taken(c, p, c2, p2),
    ensures
        cloned_so_far(
            m,
            pool,
            c2.insert(t, c2[t].update(i, d)),
            p2,
            src,
            t,
            level,
            first,
            i + 1,
            taken.push(p.difference(p2)),
        ),
{
    let c3 = c2.insert(t, c2[t].update(i, d));
    let taken2 = taken.push(p.difference(p2));
    let e = m[src][i];
    assert(c2[t] == c[t]);
    assert forall|f: u64| #[trigger] entry_owns(m, e, level, f) implies c[f] == m[f] by {
        assert(owns(m, src, level, first, f));
    }
    lemma_source_entry_local(m, c, e, level);
    assert(frames_below(m, src, level, first, i + 1) == frames_below(m, src, level, first, i)
        + entry_frames(m, e, level));
    pmm::lemma_takes_more(
        pool,
        p,
        p2,
        1 + frames_below(m, src, level, first, i),
        entry_frames(m, e, level),
    );
    assert(c3.dom() =~= m.dom());
    assert forall|j: int| first <= j < i + 1 implies {
        let dj = #[trigger] c3[t][j];
        &&& entry_copied(m, m[src][j], c3, dj, level)
        &&& forall|f: u64| #[trigger] entry_owns(c3, dj, level, f) <==> taken2[j].contains(f)
        &&& level > 0 && links(dj) ==> wf_tree(c3, addr_of(dj), (level - 1) as nat)
    } by {
        let dj = c3[t][j];
        if j < i {
            assert(dj == c[t][j]);
            assert forall|f: u64| #[trigger] entry_owns(c, dj, level, f) implies c3[f] == c[f] by {
                assert(taken[j].contains(f));
            }
            lemma_entry_local(m, m[src][j], c, c3, dj, level);
            if level > 0 && links(dj) {
                lemma_entry_tree_local(c, c3, dj, level);
            }
        } else {
            assert(dj == d);
            assert forall|f: u64| #[trigger] entry_owns(c2, d, level, f) implies c3[f]
                == c2[f] by {}
            lemma_entry_local(m, e, c2, c3, d, level);
            if level > 0 && links(d) {
                lemma_entry_tree_local(c2, c3, d, level);
            }
        }
    }
    assert forall|j: int, k: int, f: u64|
        first <= j < i + 1 && first <= k < i + 1 && j != k
            && #[trigger] taken2[j].contains(f) implies !#[trigger] taken2[k].contains(f) by {
        if j < i && k < i {
            assert(taken[j].contains(f));
        } else if j < i {
            assert(taken[j].contains(f));
        } else if k < i {
            if taken2[k].contains(f) {
                assert(taken[k].contains(f));
            }
        }
    }
    assert forall|j: int, f: u64|
        first <= j < i + 1 && #[trigger] taken2[j].contains(f) implies pool.contains(f)
        && !p2.contains(f) && f != t by {
        if j < i {
            assert(taken[j].contains(f));
        }
    }
    assert forall|f: u64| #[trigger]
        pool.contains(f) && !p2.contains(f) && f != t implies exists|j: int|
        first <= j < i + 1 && #[trigger] taken2[j].contains(f) by {
        if p.contains(f) {
            assert(taken2[i].contains(f));
        } else {
            let j = choose|j: int| first <= j < i && #[trigger] taken[j].contains(f);
            assert(taken2[j].contains(f));
        }
    }
}

proof fn lemma_entry_tree_local(c: Frames, c2: Frames, d: u64, level: nat)
    requires
        level > 0,
        links(d),
        wf_tree(c, addr_of(d), (level - 1) as nat),
        forall|f: u64| #[trigger] entry_owns(c, d, level, f) ==> c2[f] == c[f],
        c2.dom() == c.dom(),
    ensures
        wf_tree(c2, addr_of(d), (level - 1) as nat),
{
    let l1 = (level - 1) as nat;
    assert forall|f: u64| #[trigger] in_tree(c, addr_of(d), l1, f) implies c2.contains_key(f)
        && c2[f] == c[f] by {
        lemma_in_tree_known(c, addr_of(d), l1, f);
        lemma_tree_owned(c, addr_of(d), l1, f);
        assert(entry_owns(c, d, level, f));
    }
    lemma_local(c, c2, addr_of(d), l1);
}

proof fn lemma_clone_done(
    m: Frames,
    pool: Set<u64>,
    c: Frames,
    p: Set<u64>,
    src: u64,
    t: u64,
    level: nat,
    first: int,
    taken: Seq<Set<u64>>,
)
    requires
        0 <= first,
        cloneable(m, pool, src, level, first),
        cloned_so_far(m, pool, c, p, src, t, level, first, 512, taken),
        t % 4096 == 0,
        t < PHYS_LIMIT,
    ensures
        copy_of(m, src, c, t, level, first),
        forall|f: u64| #[trigger]
            owns(c, t, level, first, f) <==> pool.contains(f) && !p.contains(f),
        wf_tree(c, t, level),
{
    assert forall|i: int| first <= i < 512 implies entry_copied(
        m,
        m[src][i],
        c,
        #[trigger] c[t][i],
        level,
    ) by {}
    assert forall|f: u64| #[trigger]
        owns(c, t, level, first, f) <==> pool.contains(f) && !p.contains(f) by {
        if owns(c, t, level, first, f) && f != t {
            let i = choose|i: int|
                first <= i < 512 && present(#[trigger] c[t][i]) && if level == 0 {
                    f == addr_of(c[t][i])
                } else {
                    !huge(c[t][i]) && owns(c, addr_of(c[t][i]), (level - 1) as nat, 0, f)
                };
            assert(entry_owns(c, c[t][i], level, f));
            assert(taken[i].contains(f));
        }
        if pool.contains(f) && !p.contains(f) && f != t {
            let j = choose|j: int| first <= j < 512 && #[trigger] taken[j].contains(f);
            assert(entry_owns(c, c[t][j], level, f));
        }
    }
    if level > 0 {
        let l1 = (level - 1) as nat;
        assert forall|i: int| 0 <= i < 512 && links(#[trigger] c[t][i]) implies {
            let d = c[t][i];
            &&& wf_tree(c, addr_of(d), l1)
            &&& !in_tree(c, addr_of(d), l1, t)
            &&& i < first ==> {
                &&& m[src][i] == d
                &&& forall|f: u64| #[trigger]
                    in_tree(c, addr_of(d), l1, f) ==> in_tree(m, addr_of(d), l1, f)
                        && !pool.contains(f)
            }
            &&& i >= first ==> forall|f: u64| #[trigger]
                in_tree(c, addr_of(d), l1, f) ==> taken[i].contains(f)
        } by {
            let d = c[t][i];
            if i < first {
                assert(m[src][i] == d);
                assert forall|f: u64| #[trigger]
                    in_tree(m, addr_of(d), l1, f) implies c.contains_key(f) && c[f] == m[f] by {
                    assert(in_tree(m, src, level, f));
                    lemma_in_tree_known(m, src, level, f);
                }
                lemma_local(m, c, addr_of(d), l1);
                assert forall|f: u64| #[trigger] in_tree(c, addr_of(d), l1, f) implies in_tree(
                    m,
                    addr_of(d),
                    l1,
                    f,
                ) && !pool.contains(f) by {
                    assert(in_tree(m, addr_of(d), l1, f));
                    assert(in_tree(m, src, level, f));
                }
            } else {
                assert forall|f: u64| #[trigger]
                    in_tree(c, addr_of(d), l1, f) implies taken[i].contains(f) by {
                    lemma_tree_owned(c, addr_of(d), l1, f);
                    assert(entry_owns(c, d, level, f));
                }
            }
        }
        assert forall|i: int, j: int, f: u64|
            #![trigger in_tree(c, addr_of(c[t][i]), l1, f), in_tree(c, addr_of(c[t][j]), l1, f)]
            0 <= i < 512 && 0 <= j < 512 && i != j && links(c[t][i]) && links(c[t][j]) && in_tree(
                c,
                addr_of(c[t][i]),
                l1,
                f,
            ) implies !in_tree(c, addr_of(c[t][j]), l1, f) by {
            if in_tree(c, addr_of(c[t][j]), l1, f) {
                if i >= first {
                    assert(taken[i].contains(f));
                }
                if j >= first {
                    assert(taken[j].contains(f));
                }
                if i < first && j < first {
                    assert(in_tree(m, addr_of(m[src][i]), l1, f));
                    assert(in_tree(m, addr_of(m[src][j]), l1, f));
                }
            }
        }
        assert forall|i: int| 0 <= i < 512 && present(#[trigger] c[t][i]) && huge(
            c[t][i],
        ) implies level < 3 && addr_of(c[t][i]) as int % span(level) == 0 by {
            lemma_flag_values();
            if i >= first {
                assert(entry_copied(m, m[src][i], c, c[t][i], level));
            }
            assert(c[t][i] == m[src][i]);
        }
    }
}

/// The copy of entry `e` of a table of this level. `None` if the frames run
/// out.
fn clone_entry(mem: &mut PhysMemory, pmm: &mut FrameBitmap, e: u64, level: u8) -> (r: Option<u64>)
    requires
        old(mem).wf(),
        old(pmm).wf(),
        level <= 3,
        entry_cloneable(old(mem)@, old(pmm)@, e, level as nat),
    ensures
        final(mem).wf(),
        final(pmm).wf(),
        writes_only_taken(old(mem)@, old(pmm)@, final(mem)@, final(pmm)@),
        r is Some <==> old(pmm)@.len() >= entry_frames(old(mem)@, e, level as nat),
        match r {
            Some(d) => {
                &&& entry_copied(old(mem)@, e, final(mem)@, d, level as nat)
                &&& forall|f: u64| #[trigger]
                    entry_owns(final(mem)@, d, level as nat, f) <==> old(pmm)@.contains(f) && !final(pmm)@.contains(f)
                &&& level > 0 && links(d) ==> wf_tree(
                    final(mem)@,
                    addr_of(d),
                    (level - 1) as nat,
                )
                &&& pmm::takes_lowest(
                    old(pmm)@,
                    final(pmm)@,
                    entry_frames(old(mem)@, e, level as nat),
                )
            },
            None => final(pmm)@ == Set::<u64>::empty(),
        },
    decreases level, 0int,
{
    let ghost m = old(mem)@;
    proof {
        lemma_flag_values();
        lemma_mask(e);
        old(pmm).lemma_finite();
    }
    if e & PAGE_PRESENT == 0 {
        return Some(0);
    }
    let flags = e & !ADDR_MASK;
    if level == 0 {
        // A page of data: its contents are copied.
        let new_frame = pmm::alloc_frame(pmm)?;
        proof {
            broadcast use PhysMemory::lemma_frame;

            assert(m.contains_key(new_frame));
            lemma_addr_of(new_frame);
            lemma_compose(new_frame, flags);
            assert(entry_owns(m, e, 0, addr_of(e)));
        }
        mem.copy(e & ADDR_MASK, new_frame);
        assert(mem@.dom() =~= m.dom());
        return Some(new_frame | flags);
    }
    if e & PAGE_HUGE != 0 {
        return Some(e);
    }
    proof {
        let c = addr_of(e);
        let l1 = (level - 1) as nat;
        assert forall|f: u64| #[trigger] owns(m, c, l1, 0, f) implies m.contains_key(f)
            && !pmm@.contains(f) by {
            assert(entry_owns(m, e, level as nat, f));
        }
        assert forall|a: u64| #[trigger] pmm@.contains(a) implies !in_tree(m, c, l1, a) by {
            if in_tree(m, c, l1, a) {
                lemma_tree_owned(m, c, l1, a);
            }
        }
    }
    let new_child = clone_table(mem, pmm, e & ADDR_MASK, level - 1, 0)?;
    proof {
        broadcast use PhysMemory::lemma_frame;

        assert(m.contains_key(new_child));
        lemma_addr_of(new_child);
        lemma_compose(new_child, flags);
        let d = new_child | flags;
        assert forall|f: u64| #[trigger]
            entry_owns(mem@, d, level as nat, f) <==> old(pmm)@.contains(f) && !pmm@.contains(f) by {
            assert(owns(mem@, new_child, (level - 1) as nat, 0, f) <==> old(pmm)@.contains(f)
                && !pmm@.contains(f));
        }
    }
    Some(new_child | flags)
}

/// Copies a table and everything below it, except that the entries before
/// `first` are shared. `None` if the frames run out; those taken until then
/// stay taken.
fn clone_table(
    mem: &mut PhysMemory,
    pmm: &mut FrameBitmap,
    src: u64,
    level: u8,
    first: usize,
) -> (r: Option<u64>)
    requires
        old(mem).wf(),
        old(pmm).wf(),
        level <= 3,
        first <= 512,
        cloneable(old(mem)@, old(pmm)@, src, level as nat, first as int),
    ensures
        final(mem).wf(),
        final(pmm).wf(),
        writes_only_taken(old(mem)@, old(pmm)@, final(mem)@, final(pmm)@),
        r is Some <==> old(pmm)@.len() >= 1 + frames_below(
            old(mem)@,
            src,
            level as nat,
            first as int,
            512,
        ),
        match r {
            Some(t) => {
                &&& old(pmm)@.contains(t)
                &&& copy_of(old(mem)@, src, final(mem)@, t, level as nat, first as int)
                &&& forall|f: u64| #[trigger]
                    owns(final(mem)@, t, level as nat, first as int, f) <==> old(pmm)@.contains(f)
                        && !final(pmm)@.contains(f)
                &&& wf_tree(final(mem)@, t, level as nat)
                &&& pmm::takes_lowest(
                    old(pmm)@,
                    final(pmm)@,
                    1 + frames_below(old(mem)@, src, level as nat, first as int, 512),
                )
            },
            None => final(pmm)@ == Set::<u64>::empty(),
        },
    decreases level, 1int,
{
    let ghost m = old(mem)@;
    let ghost pool = old(pmm)@;
    let ghost l = level as nat;
    proof {
        lemma_flag_values();
        old(pmm).lemma_finite();
    }
    let new_table = pmm::alloc_frame(pmm)?;
    mem.zero(new_table);
    let mut k: usize = 0;
    let ghost mut taken: Seq<Set<u64>> = Seq::empty();
    while k < first
        invariant
            k <= first <= 512,
            mem.wf(),
            m.contains_key(src),
            m.contains_key(new_table),
            src != new_table,
            m[src].len() == 512,
            mem@[new_table].len() == 512,
            taken.len() == k,
            mem@ =~= m.insert(new_table, mem@[new_table]),
            forall|j: int| 0 <= j < k ==> #[trigger] mem@[new_table][j] == m[src][j],
            forall|j: int| k <= j < 512 ==> #[trigger] mem@[new_table][j] == 0,
        decreases first - k,
    {
        let e = mem.read(src, k);
        mem.write(new_table, k, e);
        proof {
            taken = taken.push(Set::empty());
        }
        k += 1;
    }
    let mut i: usize = first;
    assert(mem@.dom() =~= m.dom());
    assert(cloned_so_far(m, pool, mem@, pmm@, src, new_table, l, first as int, i as int, taken));
    while i < 512
        invariant
            first <= i <= 512,
            level <= 3,
            m == old(mem)@,
            pool == old(pmm)@,
            l == level as nat,
            mem.wf(),
            pmm.wf(),
            pool.finite(),
            cloneable(m, pool, src, l, first as int),
            m.contains_key(src),
            cloned_so_far(
                m,
                pool,
                mem@,
                pmm@,
                src,
                new_table,
                l,
                first as int,
                i as int,
                taken,
            ),
        decreases 512 - i,
    {
        assert(!pool.contains(src)) by {
            assert(in_tree(m, src, l, src));
        }
        let e = mem.read(src, i);
        let ghost c = mem@;
        let ghost p = pmm@;
        proof {
            lemma_clone_ready(m, pool, c, p, src, l, first as int, i as int);
        }
        let d = match clone_entry(mem, pmm, e, level) {
            Some(d) => d,
            None => {
                proof {
                    lemma_frames_monotone(m, src, l, first as int, i + 1, 512);
                }
                return None;
            },
        };
        let ghost c2 = mem@;
        mem.write(new_table, i, d);
        proof {
            lemma_clone_step(
                m,
                pool,
                c,
                p,
                c2,
                pmm@,
                src,
                new_table,
                l,
                first as int,
                i as int,
                taken,
                d,
            );
            taken = taken.push(p.difference(pmm@));
        }
        i += 1;
    }
    proof {
        broadcast use PhysMemory::lemma_frame;

        assert(mem@.contains_key(new_table));
        lemma_clone_done(m, pool, mem@, pmm@, src, new_table, l, first as int, taken);
    }
    Some(new_table)
}

proof fn lemma_frames_monotone(m: Frames, table: u64, level: nat, first: int, a: int, b: int)
    requires
        a <= b,
    ensures
        frames_below(m, table, level, first, a) <= frames_below(m, table, level, first, b),
    decreases b - a,
{
    if a < b {
        lemma_frames_monotone(m, table, level, first, a, b - 1);
    }
}

/// Between two steps of cloning a table, the next entry can be cloned.
proof fn lemma_clone_ready(
    m: Frames,
    pool: Set<u64>,
    c: Frames,
    p: Set<u64>,
    src: u64,
    level: nat,
    first: int,
    i: int,
)
    requires
        0 <= first <= i < 512,
        cloneable(m, pool, src, level, first),
        writes_only_taken(m, pool, c, p),
        p.subset_of(pool),
    ensures
        c[src] == m[src],
        entry_cloneable(c, p, m[src][i], level),
        entry_frames(c, m[src][i], level) == entry_frames(m, m[src][i], level),
        frames_below(m, src, level, first, i + 1) == frames_below(m, src, level, first, i)
            + entry_frames(m, m[src][i], level),
{
    let e = m[src][i];
    assert(owns(m, src, level, first, src));
    assert forall|f: u64| #[trigger] entry_owns(m, e, level, f) implies c[f] == m[f]
        && m.contains_key(f) && !pool.contains(f) by {
        assert(owns(m, src, level, first, f));
    }
    lemma_source_entry_local(m, c, e, level);
    if level > 0 && links(e) {
        lemma_entry_tree_local(m, c, e, level);
    }
}

/// Creates an address space of its own for a process. It shares entry 0 of the
/// active root, which covers the kernel and the identity-mapped devices, so
/// that system calls and interrupts work in every process; all other entries
/// are empty. `None` if no frame is left.
pub fn create_address_space(mem: &mut PhysMemory, pmm: &mut FrameBitmap, cr3: u64) -> (r: Option<
    u64,
>)
    requires
        old(mem).wf(),
        old(pmm).wf(),
        old(mem)@.contains_key(cr3),
        !old(pmm)@.contains(cr3),
        forall|a: u64| #[trigger] old(pmm)@.contains(a) ==> old(mem)@.contains_key(a),
    ensures
        final(mem).wf(),
        final(pmm).wf(),
        match r {
            Some(p4) => {
                &&& pmm::lowest(old(pmm)@, p4)
                &&& final(pmm)@ == old(pmm)@.remove(p4)
                &&& final(mem)@ == old(mem)@.insert(
                    p4,
                    mem::zero_page().update(0, old(mem)@[cr3][0]),
                )
            },
            None => {
                &&& old(pmm)@ == Set::<u64>::empty()
                &&& final(pmm)@ == old(pmm)@
                &&& final(mem)@ == old(mem)@
            },
        },
{
    let new_p4 = pmm::alloc_frame(pmm)?;
    mem.zero(new_p4);
    let shared_entry = mem.read(cr3, 0);
    mem.write(new_p4, 0, shared_entry);
    assert(mem@ =~= old(mem)@.insert(new_p4, mem::zero_page().update(0, old(mem)@[cr3][0])));
    Some(new_p4)
}

/// A new address space maps what the active one maps through entry 0, and
/// nothing else.
pub proof fn lemma_created_space(m: Frames, pool: Set<u64>, cr3: u64, p4: u64)
    requires
        wf_tree(m, cr3, 3),
        pool_fits(m, pool, cr3, 3),
        pool.contains(p4),
        p4 % 4096 == 0,
        p4 < PHYS_LIMIT,
    ensures
        ({
            let m2 = m.insert(p4, mem::zero_page().update(0, m[cr3][0]));
            &&& wf_tree(m2, p4, 3)
            &&& wf_tree(m2, cr3, 3)
            &&& pool_fits(m2, pool.remove(p4), p4, 3)
            &&& pool_fits(m2, pool.remove(p4), cr3, 3)
            &&& forall|v: u64| #[trigger]
                lookup(m2, p4, 3, v) == if index(v, 3) == 0 {
                    lookup(m, cr3, 3, v)
                } else {
                    None
                }
            &&& forall|v: u64| #[trigger] lookup(m2, cr3, 3, v) == lookup(m, cr3, 3, v)
            &&& forall|f: u64| #[trigger] owns(m2, p4, 3, 1, f) <==> f == p4
        }),
{
    let e = m[cr3][0];
    let m2 = m.insert(p4, mem::zero_page().update(0, e));
    lemma_flag_values();
    assert(in_tree(m, cr3, 3, cr3));
    assert(m2[cr3] == m[cr3]);
    assert forall|f: u64| #[trigger] in_tree(m, cr3, 3, f) implies m2.contains_key(f) && m2[f]
        == m[f] by {
        lemma_in_tree_known(m, cr3, 3, f);
    }
    lemma_local(m, m2, cr3, 3);
    assert forall|i: int| 1 <= i < 512 implies !present(#[trigger] m2[p4][i]) by {}
    if links(e) {
        let c = addr_of(e);
        assert forall|f: u64| #[trigger] in_tree(m, c, 2, f) implies m2.contains_key(f) && m2[f]
            == m[f] by {
            assert(links(m[cr3][0]));
            assert(in_tree(m, cr3, 3, f));
            lemma_in_tree_known(m, cr3, 3, f);
        }
        lemma_local(m, m2, c, 2);
        assert(!in_tree(m, c, 2, p4)) by {
            if in_tree(m, c, 2, p4) {
                assert(links(m[cr3][0]));
                assert(in_tree(m, cr3, 3, p4));
            }
        }
    }
    assert forall|i: int| 0 <= i < 512 && links(#[trigger] m2[p4][i]) implies i == 0 by {}
    assert forall|a: u64| #[trigger] pool.remove(p4).contains(a) implies !in_tree(
        m2,
        p4,
        3,
        a,
    ) by {
        if in_tree(m2, p4, 3, a) {
            let i = choose|i: int|
                0 <= i < 512 && links(#[trigger] m2[p4][i]) && in_tree(
                    m2,
                    addr_of(m2[p4][i]),
                    2,
                    a,
                );
            assert(i == 0);
            assert(in_tree(m, addr_of(e), 2, a));
            assert(links(m[cr3][0]));
            assert(in_tree(m, cr3, 3, a));
        }
    }
    assert forall|v: u64| #[trigger]
        lookup(m2, p4, 3, v) == if index(v, 3) == 0 {
            lookup(m, cr3, 3, v)
        } else {
            None
        } by {
        let i = index(v, 3);
        assert(0 <= i < 512);
        assert(m2[p4][0] == e);
        if i == 0 && links(e) {
            assert(lookup(m2, addr_of(e), 2, v) == lookup(m, addr_of(e), 2, v));
        }
    }
}

/// Creates an address space with a deep copy of everything private to the
/// process that owns `src_p4`: the tables and the contents of every page. Entry
/// 0 is shared, as in [`create_address_space`]. `None` if there are fewer free
/// frames than the copy needs.
pub fn clone_address_space(mem: &mut PhysMemory, pmm: &mut FrameBitmap, src_p4: u64) -> (r: Option<
    u64,
>)
    requires
        old(mem).wf(),
        old(pmm).wf(),
        cloneable(old(mem)@, old(pmm)@, src_p4, 3, 1),
    ensures
        final(mem).wf(),
        final(pmm).wf(),
        writes_only_taken(old(mem)@, old(pmm)@, final(mem)@, final(pmm)@),
        r is Some <==> old(pmm)@.len() >= 1 + frames_below(old(mem)@, src_p4, 3, 1, 512),
        match r {
            Some(p4) => {
                &&& old(pmm)@.contains(p4)
                &&& copy_of(old(mem)@, src_p4, final(mem)@, p4, 3, 1)
                &&& forall|f: u64| #[trigger]
                    owns(final(mem)@, p4, 3, 1, f) <==> old(pmm)@.contains(f) && !final(pmm)@.contains(f)
                &&& wf_tree(final(mem)@, p4, 3)
                &&& pmm::takes_lowest(
                    old(pmm)@,
                    final(pmm)@,
                    1 + frames_below(old(mem)@, src_p4, 3, 1, 512),
                )
            },
            None => final(pmm)@ == Set::<u64>::empty(),
        },
{
    clone_table(mem, pmm, src_p4, 3, 1)
}

/// Releases a table and everything that belongs to it.
fn free_table(mem: &PhysMemory, pmm: &mut FrameBitmap, table: u64, level: u8, first: usize)
    requires
        mem.wf(),
        old(pmm).wf(),
        level <= 3,
        first <= 512,
        wf_tree(mem@, table, level as nat),
    ensures
        final(pmm).wf(),
        forall|g: u64| #[trigger]
            final(pmm)@.contains(g) <==> old(pmm)@.contains(g) || (g < pmm::MANAGED_BYTES && owns(
                mem@,
                table,
                level as nat,
                first as int,
                g,
            )),
    decreases level,
{
    let ghost m = mem@;
    let ghost l = level as nat;
    let mut i: usize = first;
    while i < 512
        invariant
            first <= i <= 512,
            level <= 3,
            l == level as nat,
            m == mem@,
            mem.wf(),
            pmm.wf(),
            wf_tree(m, table, l),
            forall|g: u64| #[trigger]
                pmm@.contains(g) <==> old(pmm)@.contains(g) || (g < pmm::MANAGED_BYTES && exists|
                    j: int,
                |
                    first <= j < i && entry_owns(m, #[trigger] m[table][j], l, g)),
        decreases 512 - i,
    {
        let e = mem.read(table, i);
        let ghost before = pmm@;
        proof {
            lemma_mask(e);
        }
        if e & PAGE_PRESENT != 0 {
            if level == 0 {
                pmm::free_frame(pmm, e & ADDR_MASK);
            } else if e & PAGE_HUGE == 0 {
                free_table(mem, pmm, e & ADDR_MASK, level - 1, 0);
            }
        }
        proof {
            assert forall|g: u64| #[trigger]
                pmm@.contains(g) <==> before.contains(g) || (g < pmm::MANAGED_BYTES && entry_owns(
                    m,
                    e,
                    l,
                    g,
                )) by {}
            assert forall|g: u64| #[trigger]
                pmm@.contains(g) <==> old(pmm)@.contains(g) || (g < pmm::MANAGED_BYTES && exists|
                    j: int,
                |
                    first <= j < i + 1 && entry_owns(m, #[trigger] m[table][j], l, g)) by {
                if g < pmm::MANAGED_BYTES && exists|j: int|
                    first <= j < i + 1 && entry_owns(m, #[trigger] m[table][j], l, g) {
                    let j = choose|j: int|
                        first <= j < i + 1 && entry_owns(m, #[trigger] m[table][j], l, g);
                    if j < i {
                        assert(before.contains(g));
                    }
                }
                if pmm@.contains(g) && !before.contains(g) {
                    assert(entry_owns(m, m[table][i as int], l, g));
                }
            }
        }
        i += 1;
    }
    pmm::free_frame(pmm, table);
    proof {
        assert forall|g: u64| #[trigger]
            owns(m, table, l, first as int, g) <==> g == table || exists|j: int|
                first <= j < 512 && entry_owns(m, #[trigger] m[table][j], l, g) by {}
    }
}

/// Releases everything private to an address space: its tables, its pages and
/// the root itself, but never what entry 0 leads to, which is the kernel's.
/// `p4` must not be the active root.
pub fn free_address_space(mem: &PhysMemory, pmm: &mut FrameBitmap, p4: u64)
    requires
        mem.wf(),
        old(pmm).wf(),
        wf_tree(mem@, p4, 3),
    ensures
        final(pmm).wf(),
        forall|g: u64| #[trigger]
            final(pmm)@.contains(g) <==> old(pmm)@.contains(g) || (g < pmm::MANAGED_BYTES && owns(
                mem@,
                p4,
                3,
                1,
                g,
            )),
{
    free_table(mem, pmm, p4, 3, 1)
}

// --- what holds across operations ------------------------------------------

/// The page number of an address, cut to 36 bits, is made of its four indices.
proof fn lemma_page_number(a: u64)
    ensures
        (a as int / 4096) % 0x10_0000_0000 == index(a, 0) + 512 * index(a, 1) + 0x4_0000 * index(
            a,
            2,
        ) + 0x800_0000 * index(a, 3),
        0 <= index(a, 0) < 512,
        0 <= index(a, 1) < 512,
        0 <= index(a, 2) < 512,
        0 <= index(a, 3) < 512,
{
    let n = a as int / 4096;
    let n1 = n / 512;
    let n2 = n1 / 512;
    let n3 = n2 / 512;
    assert(a as int / 0x20_0000 == n1);
    assert(a as int / 0x4000_0000 == n2);
    assert(a as int / 0x80_0000_0000 == n3);
    assert(n % 0x10_0000_0000 == n % 512 + 512 * (n1 % 0x800_0000)) by {
        lemma_cut(n, 512, 0x800_0000);
    }
    assert(n1 % 0x800_0000 == n1 % 512 + 512 * (n2 % 0x4_0000)) by {
        lemma_cut(n1, 512, 0x4_0000);
    }
    assert(n2 % 0x4_0000 == n2 % 512 + 512 * (n3 % 512)) by {
        lemma_cut(n2, 512, 512);
    }
}

proof fn lemma_cut(x: int, a: int, b: int)
    requires
        x >= 0,
        a > 0,
        b > 0,
    ensures
        x % (a * b) == x % a + a * ((x / a) % b),
{
    vstd::arithmetic::div_mod::lemma_mod_breakdown(x, a, b);
}

/// Two addresses share a page exactly if their page numbers, cut to 36 bits,
/// are the same.
pub proof fn lemma_same_page(a: u64, b: u64)
    ensures
        same_page(a, b, 3) <==> (a as int / 4096) % 0x10_0000_0000 == (b as int / 4096)
            % 0x10_0000_0000,
{
    reveal_with_fuel(same_page, 4);
    lemma_page_number(a);
    lemma_page_number(b);
}

/// Addresses in one page are mapped or not mapped together.
pub proof fn lemma_page_together(m: Frames, table: u64, level: nat, a: u64, b: u64)
    requires
        same_page(a, b, level),
    ensures
        lookup(m, table, level, a) is Some <==> lookup(m, table, level, b) is Some,
    decreases level,
{
    let e = m[table][index(a, level)];
    if level > 0 && links(e) {
        lemma_page_together(m, addr_of(e), (level - 1) as nat, a, b);
    }
}

/// A mapped page translates to the frame it was mapped to, with the access it
/// was mapped with; every other page is as it was.
pub proof fn law_map_then_translate(
    m: Frames,
    pool: Set<u64>,
    m2: Frames,
    pool2: Set<u64>,
    p4: u64,
    virt: u64,
    phys: u64,
    writable: bool,
    executable: bool,
)
    requires
        virt % 4096 == 0,
        phys % 4096 == 0,
        phys < PHYS_LIMIT,
        mapped(
            m,
            pool,
            m2,
            pool2,
            p4,
            3,
            virt,
            addr_of(phys) | leaf_flags(writable, executable),
            Ok(()),
        ),
    ensures
        forall|v: u64|
            virt <= v < virt + 4096 ==> #[trigger] lookup(m2, p4, 3, v) == Some(
                (phys + (v - virt), leaf_flags(writable, executable)),
            ),
        forall|v: u64|
            (v as int / 4096) % 0x10_0000_0000 != (virt as int / 4096) % 0x10_0000_0000
                ==> #[trigger] lookup(m2, p4, 3, v) == lookup(m, p4, 3, v),
{
    lemma_addr_of(phys);
    lemma_leaf_entry(phys, writable, executable);
    assert forall|v: u64| virt <= v < virt + 4096 implies #[trigger] lookup(m2, p4, 3, v) == Some(
        (phys + (v - virt), leaf_flags(writable, executable)),
    ) by {
        lemma_same_page(v, virt);
        assert(v as int / 4096 == virt as int / 4096);
    }
    assert forall|v: u64|
        (v as int / 4096) % 0x10_0000_0000 != (virt as int / 4096)
            % 0x10_0000_0000 implies #[trigger] lookup(m2, p4, 3, v) == lookup(m, p4, 3, v) by {
        lemma_same_page(v, virt);
    }
}

/// Unmapping a page that was just mapped succeeds and leaves every address as
/// it was before.
pub proof fn law_map_then_unmap(
    m: Frames,
    pool: Set<u64>,
    m2: Frames,
    pool2: Set<u64>,
    m3: Frames,
    p4: u64,
    virt: u64,
    entry: u64,
)
    requires
        map_outcome(m, p4, 3, virt, pool.len()) is Ok,
        mapped(m, pool, m2, pool2, p4, 3, virt, entry, Ok(())),
        unmapped(m2, m3, p4, 3, virt),
    ensures
        unmap_outcome(m2, p4, 3, virt) is Ok,
        forall|v: u64| #[trigger] lookup(m3, p4, 3, v) == lookup(m, p4, 3, v),
{
    assert forall|v: u64| #[trigger] lookup(m3, p4, 3, v) == lookup(m, p4, 3, v) by {
        assert(lookup(m2, p4, 3, v) == lookup(m2, p4, 3, v));
        if same_page(v, virt, 3) {
            lemma_page_together(m, p4, 3, v, virt);
        }
    }
}

/// Every page of a copy holds what the page of the source holds, with the same
/// access; huge pages are the very same memory.
pub proof fn law_copy_translates(
    m: Frames,
    src: u64,
    c: Frames,
    dst: u64,
    level: nat,
    first: int,
    v: u64,
)
    requires
        copy_of(m, src, c, dst, level, first),
        0 <= first <= index(v, level),
    ensures
        match (lookup(m, src, level, v), lookup(c, dst, level, v)) {
            (None, None) => true,
            (Some((a, fl)), Some((a2, fl2))) => {
                &&& fl == fl2
                &&& a2 % 4096 == a % 4096
                &&& a2 == a || c[(a2 - a2 % 4096) as u64] == m[(a - a % 4096) as u64]
            },
            _ => false,
        },
    decreases level,
{
    let i = index(v, level);
    assert(0 <= i < 512);
    let e = m[src][i];
    let d = c[dst][i];
    lemma_flag_values();
    lemma_mask(e);
    lemma_mask(d);
    if present(e) {
        if level == 0 {
            assert((addr_of(e) + v as int % 4096) % 4096 == v as int % 4096);
            assert((addr_of(d) + v as int % 4096) % 4096 == v as int % 4096);
        } else if !huge(e) {
            assert(0 <= index(v, (level - 1) as nat));
            law_copy_translates(m, addr_of(e), c, addr_of(d), (level - 1) as nat, 0, v);
        }
    }
}

/// A cloned address space owns no frame that the source owns or walks through:
/// what a process writes to its own memory, the other never sees.
pub proof fn law_clone_is_private(
    m: Frames,
    pool: Set<u64>,
    c: Frames,
    rest: Set<u64>,
    src: u64,
    p4: u64,
)
    requires
        cloneable(m, pool, src, 3, 1),
        forall|f: u64| #[trigger]
            owns(c, p4, 3, 1, f) <==> pool.contains(f) && !rest.contains(f),
    ensures
        forall|f: u64| #[trigger]
            owns(c, p4, 3, 1, f) ==> !owns(m, src, 3, 1, f) && !in_tree(m, src, 3, f),
{
}

/// Releasing an address space right after cloning it gives back every frame
/// that the clone took.
pub proof fn law_clone_then_free(
    pmm: FrameBitmap,
    c: Frames,
    rest: Set<u64>,
    freed: Set<u64>,
    p4: u64,
)
    requires
        rest.subset_of(pmm@),
        forall|f: u64| #[trigger]
            owns(c, p4, 3, 1, f) <==> pmm@.contains(f) && !rest.contains(f),
        forall|g: u64| #[trigger]
            freed.contains(g) <==> rest.contains(g) || (g < pmm::MANAGED_BYTES && owns(
                c,
                p4,
                3,
                1,
                g,
            )),
    ensures
        freed == pmm@,
{
    broadcast use FrameBitmap::lemma_frame_range;

    assert(freed =~= pmm@);
}

/// Releasing a new address space gives back the one frame it took.
pub proof fn law_create_then_free(
    pmm: FrameBitmap,
    m: Frames,
    cr3: u64,
    p4: u64,
    freed: Set<u64>,
)
    requires
        wf_tree(m, cr3, 3),
        pool_fits(m, pmm@, cr3, 3),
        pmm::lowest(pmm@, p4),
        p4 < PHYS_LIMIT,
        forall|g: u64| #[trigger]
            freed.contains(g) <==> pmm@.remove(p4).contains(g) || (g < pmm::MANAGED_BYTES && owns(
                m.insert(p4, mem::zero_page().update(0, m[cr3][0])),
                p4,
                3,
                1,
                g,
            )),
    ensures
        freed == pmm@,
{
    broadcast use FrameBitmap::lemma_frame_range;

    lemma_created_space(m, pmm@, cr3, p4);
    assert(freed =~= pmm@);
}

// --- processor registers ---------------------------------------------------

/// Bit of the EFER register that makes the no-execute bit of entries legal.
pub const EFER_NXE: u64 = 0x800;

/// The value of EFER that has to be in force before a page is mapped without
/// execute access. Without it the processor treats the no-execute bit as
/// reserved and faults.
pub fn init(efer: u64) -> (r: u64)
    ensures
        r == efer | EFER_NXE,
{
    efer | EFER_NXE
}

/// The root of the active address space, given the register CR3.
pub fn current_address_space(cr3_register: u64) -> (r: u64)
    ensures
        r == addr_of(cr3_register),
{
    cr3_register & ADDR_MASK
}

/// Bits 12 to 51 of an entry.
pub open spec fn page_of(e: u64) -> int {
    e as int / 0x1000 % 0x100_0000_0000 * 0x1000
}

/// An address is translated as the processor does it: nine bits of it from bit
/// 39, 30, 21 and 12 on pick an entry of a table each. Bit 0 of an entry tells
/// whether it leads anywhere, bits 12 to 51 where to, and bit 7 at the upper
/// levels that it is no table but a page. What is left of the address is the
/// place in the page.
pub proof fn law_lookup_walks_four_tables(m: Frames, root: u64, v: u64)
    ensures
        ({
            let e4 = m[root][v as int / 0x80_0000_0000 % 512];
            let t3 = page_of(e4) as u64;
            let e3 = m[t3][v as int / 0x4000_0000 % 512];
            let t2 = page_of(e3) as u64;
            let e2 = m[t2][v as int / 0x20_0000 % 512];
            let t1 = page_of(e2) as u64;
            let e1 = m[t1][v as int / 0x1000 % 512];
            let found = lookup(m, root, 3, v);
            if e4 % 2 == 0 {
                found is None
            } else if e4 / 0x80 % 2 == 1 {
                found matches Some((a, _)) && a == page_of(e4) + v as int % 0x80_0000_0000
            } else if e3 % 2 == 0 {
                found is None
            } else if e3 / 0x80 % 2 == 1 {
                found matches Some((a, fl)) && a == page_of(e3) + v as int % 0x4000_0000 && fl
                    == e3 - page_of(e3) - 0x80
            } else if e2 % 2 == 0 {
                found is None
            } else if e2 / 0x80 % 2 == 1 {
                found matches Some((a, fl)) && a == page_of(e2) + v as int % 0x20_0000 && fl
                    == e2 - page_of(e2) - 0x80
            } else if e1 % 2 == 0 {
                found is None
            } else {
                found matches Some((a, fl)) && a == page_of(e1) + v as int % 0x1000 && fl == e1
                    - page_of(e1)
            }
        }),
{
    reveal_with_fuel(lookup, 4);
    let e4 = m[root][v as int / 0x80_0000_0000 % 512];
    let e3 = m[addr_of(e4)][v as int / 0x4000_0000 % 512];
    let e2 = m[addr_of(e3)][v as int / 0x20_0000 % 512];
    let e1 = m[addr_of(e2)][v as int / 0x1000 % 512];
    lemma_entry_bits(e4);
    lemma_entry_bits(e3);
    lemma_entry_bits(e2);
    lemma_entry_bits(e1);
    assert(index(v, 3) == v as int / 0x80_0000_0000 % 512);
    assert(index(v, 2) == v as int / 0x4000_0000 % 512);
    assert(index(v, 1) == v as int / 0x20_0000 % 512);
    assert(index(v, 0) == v as int / 0x1000 % 512);
}

proof fn lemma_entry_bits(e: u64)
    ensures
        present(e) == (e % 2 == 1),
        huge(e) == (e / 0x80 % 2 == 1),
        addr_of(e) == page_of(e),
        flags_of(e) == e - page_of(e),
        huge(e) ==> flags_of(e) & !PAGE_HUGE == e - page_of(e) - 0x80,
{
    assert((e & 0x1 != 0) == (e % 2 == 1) && (e & 0x80 != 0) == (e / 0x80 % 2 == 1) && e
        & 0x000F_FFFF_FFFF_F000 == e / 0x1000 % 0x100_0000_0000 * 0x1000 && e
        & !0x000F_FFFF_FFFF_F000u64 == e - e / 0x1000 % 0x100_0000_0000 * 0x1000 && (e & 0x80 != 0
        ==> (e & !0x000F_FFFF_FFFF_F000u64) & !0x80u64 == e - e / 0x1000 % 0x100_0000_0000 * 0x1000
        - 0x80)) by (bit_vector);
}

/// A page is mapped so that the processor finds it present and open to ring 3,
/// writable and executable just where that was asked for.
pub proof fn law_leaf_flags_say_what_was_asked(writable: bool, executable: bool)
    ensures
        ({
            let fl = leaf_flags(writable, executable);
            &&& fl % 2 == 1
            &&& fl / 2 % 2 == if writable {
                1u64
            } else {
                0
            }
            &&& fl / 4 % 2 == 1
            &&& fl / 8 % 0x1000_0000_0000_0000 == 0
            &&& fl / 0x8000_0000_0000_0000 == if executable {
                0u64
            } else {
                1
            }
        }),
{
    assert(0x1u64 | 0x4 == 5 && 5u64 | 0x2 == 7 && 5u64 | 0x8000_0000_0000_0000
        == 0x8000_0000_0000_0005 && 7u64 | 0x8000_0000_0000_0000 == 0x8000_0000_0000_0007)
        by (bit_vector);
}

/// A page is mapped where its address leads nowhere and three frames are free,
/// and never where it leads somewhere already; then no address leads elsewhere
/// than before.
pub proof fn law_only_free_addresses_are_mapped(
    m: Frames,
    pool: Set<u64>,
    m2: Frames,
    pool2: Set<u64>,
    p4: u64,
    virt: u64,
    entry: u64,
)
    ensures
        lookup(m, p4, 3, virt) is None && pool.len() >= 3 ==> map_outcome(
            m,
            p4,
            3,
            virt,
            pool.len(),
        ) is Ok,
        lookup(m, p4, 3, virt) is Some ==> map_outcome(m, p4, 3, virt, pool.len()) is Err,
        map_outcome(m, p4, 3, virt, pool.len()) is Err && mapped(
            m,
            pool,
            m2,
            pool2,
            p4,
            3,
            virt,
            entry,
            map_outcome(m, p4, 3, virt, pool.len()),
        ) ==> forall|v: u64| #[trigger] lookup(m2, p4, 3, v) == lookup(m, p4, 3, v),
{
    if lookup(m, p4, 3, virt) is None {
        lemma_nothing_in_the_way(m, p4, 3, virt);
    }
}

proof fn lemma_nothing_in_the_way(m: Frames, table: u64, level: nat, v: u64)
    requires
        lookup(m, table, level, v) is None,
    ensures
        !blocked(m, table, level, v),
        missing_tables(m, table, level, v) <= level,
    decreases level,
{
    let e = m[table][index(v, level)];
    if level > 0 && present(e) {
        lemma_nothing_in_the_way(m, addr_of(e), (level - 1) as nat, v);
    }
}

/// An address that leads nowhere cannot be unmapped. One that leads somewhere can
/// if no entry on the way to it is a large page.
pub proof fn law_only_mapped_addresses_are_unmapped(m: Frames, p4: u64, v: u64)
    ensures
        unmap_outcome(m, p4, 3, v) is Ok ==> lookup(m, p4, 3, v) is Some,
        unmap_outcome(m, p4, 3, v) is Err && lookup(m, p4, 3, v) is Some ==> {
            let e4 = m[p4][index(v, 3)];
            let e3 = m[addr_of(e4)][index(v, 2)];
            let e2 = m[addr_of(e3)][index(v, 1)];
            e4 / 0x80 % 2 == 1 || e3 / 0x80 % 2 == 1 || e2 / 0x80 % 2 == 1
        },
{
    reveal_with_fuel(lookup, 4);
    reveal_with_fuel(unmap_outcome, 4);
    let e4 = m[p4][index(v, 3)];
    let e3 = m[addr_of(e4)][index(v, 2)];
    let e2 = m[addr_of(e3)][index(v, 1)];
    lemma_entry_bits(e4);
    lemma_entry_bits(e3);
    lemma_entry_bits(e2);
}

} // verus!

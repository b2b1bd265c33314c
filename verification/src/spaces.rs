//! All address spaces together: what keeps them apart, and that the operations
//! on them keep it.
use vstd::prelude::*;
use crate::bytes;
use crate::elf;
use crate::mem;
use crate::mmu::{self, Frames};
use crate::pmm;

verus! {

/// Whether no entry from `first` on leads to a huge page.
pub open spec fn plain(m: Frames, table: u64, level: nat, first: int) -> bool
    decreases level,
{
    level > 0 ==> forall|i: int|
        first <= i < 512 && mmu::present(#[trigger] m[table][i]) ==> !mmu::huge(m[table][i])
            && plain(m, mmu::addr_of(m[table][i]), (level - 1) as nat, 0)
}

/// The table that the kernel entry leads to.
pub open spec fn kernel_table(e0: u64) -> u64 {
    mmu::addr_of(e0)
}

/// The address space at `root` is in order: its tables are well formed, it
/// shares the kernel entry `e0`, and what it owns is in memory, not free and no
/// table of the kernel.
pub open spec fn space_ok(m: Frames, pool: Set<u64>, root: u64, e0: u64) -> bool {
    &&& mmu::wf_tree(m, root, 3)
    &&& m[root][0] == e0
    &&& plain(m, root, 3, 1)
    &&& forall|f: u64| #[trigger]
        mmu::owns(m, root, 3, 1, f) ==> m.contains_key(f) && !pool.contains(f) && !mmu::in_tree(
            m,
            kernel_table(e0),
            2,
            f,
        )
}

/// All address spaces are in order, and no two of them own the same frame. The
/// free frames are memory, and no table of the kernel is free.
pub open spec fn sound(m: Frames, pool: Set<u64>, roots: Set<u64>, e0: u64) -> bool {
    &&& mmu::links(e0)
    &&& mmu::wf_tree(m, kernel_table(e0), 2)
    &&& forall|a: u64| #[trigger] pool.contains(a) ==> m.contains_key(a)
    &&& forall|f: u64| #[trigger] mmu::in_tree(m, kernel_table(e0), 2, f) ==> !pool.contains(f)
    &&& forall|r: u64| #[trigger] roots.contains(r) ==> space_ok(m, pool, r, e0)
    &&& forall|a: u64, b: u64, f: u64|
        #![trigger mmu::owns(m, a, 3, 1, f), mmu::owns(m, b, 3, 1, f)]
        roots.contains(a) && roots.contains(b) && a != b && mmu::owns(m, a, 3, 1, f)
            ==> !mmu::owns(m, b, 3, 1, f)
}

// --- what the parts depend on --------------------------------------------------------

/// The tables of an address space are its own and those of the kernel.
pub proof fn lemma_tree_parts(m: Frames, root: u64, e0: u64, f: u64)
    requires
        m[root][0] == e0,
        mmu::in_tree(m, root, 3, f),
    ensures
        mmu::owns(m, root, 3, 1, f) || (mmu::links(e0) && mmu::in_tree(m, kernel_table(e0), 2, f)),
{
    if f != root {
        let i = choose|i: int|
            0 <= i < 512 && mmu::links(#[trigger] m[root][i]) && mmu::in_tree(
                m,
                mmu::addr_of(m[root][i]),
                2,
                f,
            );
        if i > 0 {
            mmu::lemma_tree_owned(m, mmu::addr_of(m[root][i]), 2, f);
        }
    }
}

/// What a table owns, and whether it is plain, depends only on the tables below
/// it.
proof fn lemma_owns_local(m: Frames, m2: Frames, table: u64, level: nat, first: int)
    requires
        0 <= first,
        forall|f: u64| #[trigger] mmu::in_tree(m, table, level, f) ==> m2[f] == m[f],
    ensures
        forall|f: u64| #[trigger]
            mmu::owns(m2, table, level, first, f) == mmu::owns(m, table, level, first, f),
        plain(m2, table, level, first) == plain(m, table, level, first),
    decreases level,
{
    assert(mmu::in_tree(m, table, level, table));
    assert(m2[table] == m[table]);
    if level > 0 {
        let l1 = (level - 1) as nat;
        assert forall|i: int| 0 <= i < 512 && mmu::links(#[trigger] m[table][i]) implies {
            let c = mmu::addr_of(m[table][i]);
            &&& forall|f: u64| #[trigger] mmu::owns(m2, c, l1, 0, f) == mmu::owns(m, c, l1, 0, f)
            &&& plain(m2, c, l1, 0) == plain(m, c, l1, 0)
        } by {
            let c = mmu::addr_of(m[table][i]);
            assert forall|f: u64| #[trigger] mmu::in_tree(m, c, l1, f) implies m2[f] == m[f] by {
                assert(mmu::in_tree(m, table, level, f));
            }
            lemma_owns_local(m, m2, c, l1, 0);
        }
    }
    assert forall|f: u64| #[trigger]
        mmu::owns(m2, table, level, first, f) == mmu::owns(m, table, level, first, f) by {
        if mmu::owns(m, table, level, first, f) && f != table {
            let i = choose|i: int|
                first <= i < 512 && mmu::present(#[trigger] m[table][i]) && if level == 0 {
                    f == mmu::addr_of(m[table][i])
                } else {
                    !mmu::huge(m[table][i]) && mmu::owns(
                        m,
                        mmu::addr_of(m[table][i]),
                        (level - 1) as nat,
                        0,
                        f,
                    )
                };
            assert(mmu::present(m2[table][i]));
        }
        if mmu::owns(m2, table, level, first, f) && f != table {
            let i = choose|i: int|
                first <= i < 512 && mmu::present(#[trigger] m2[table][i]) && if level == 0 {
                    f == mmu::addr_of(m2[table][i])
                } else {
                    !mmu::huge(m2[table][i]) && mmu::owns(
                        m2,
                        mmu::addr_of(m2[table][i]),
                        (level - 1) as nat,
                        0,
                        f,
                    )
                };
            assert(mmu::present(m[table][i]));
        }
    }
}

/// Writes that spare the tables of all address spaces keep everything in order,
/// while free frames are taken.
pub proof fn lemma_tables_spared(
    m: Frames,
    pool: Set<u64>,
    m2: Frames,
    pool2: Set<u64>,
    roots: Set<u64>,
    e0: u64,
)
    requires
        sound(m, pool, roots, e0),
        m2.dom() == m.dom(),
        pool2.subset_of(pool),
        forall|f: u64| #[trigger] mmu::in_tree(m, kernel_table(e0), 2, f) ==> m2[f] == m[f],
        forall|r: u64, f: u64|
            #![trigger roots.contains(r), mmu::in_tree(m, r, 3, f)]
            roots.contains(r) && mmu::in_tree(m, r, 3, f) ==> m2[f] == m[f],
    ensures
        sound(m2, pool2, roots, e0),
        forall|r: u64, f: u64|
            #![trigger roots.contains(r), mmu::owns(m2, r, 3, 1, f)]
            roots.contains(r) ==> mmu::owns(m2, r, 3, 1, f) == mmu::owns(m, r, 3, 1, f),
        forall|r: u64, f: u64|
            #![trigger roots.contains(r), mmu::in_tree(m2, r, 3, f)]
            roots.contains(r) ==> mmu::in_tree(m2, r, 3, f) == mmu::in_tree(m, r, 3, f),
        forall|r: u64, v: u64|
            #![trigger roots.contains(r), mmu::lookup(m2, r, 3, v)]
            roots.contains(r) ==> mmu::lookup(m2, r, 3, v) == mmu::lookup(m, r, 3, v),
        forall|f: u64| #[trigger]
            mmu::in_tree(m2, kernel_table(e0), 2, f) == mmu::in_tree(m, kernel_table(e0), 2, f),
{
    let k = kernel_table(e0);
    assert forall|f: u64| #[trigger] mmu::in_tree(m, k, 2, f) implies m2.contains_key(f) && m2[f]
        == m[f] by {
        mmu::lemma_in_tree_known(m, k, 2, f);
    }
    mmu::lemma_local(m, m2, k, 2);
    assert forall|r: u64| #[trigger] roots.contains(r) implies {
        &&& space_ok(m2, pool2, r, e0)
        &&& forall|f: u64| #[trigger] mmu::owns(m2, r, 3, 1, f) == mmu::owns(m, r, 3, 1, f)
        &&& forall|f: u64| #[trigger] mmu::in_tree(m2, r, 3, f) == mmu::in_tree(m, r, 3, f)
        &&& forall|v: u64| #[trigger] mmu::lookup(m2, r, 3, v) == mmu::lookup(m, r, 3, v)
    } by {
        assert(space_ok(m, pool, r, e0));
        assert forall|f: u64| #[trigger] mmu::in_tree(m, r, 3, f) implies m2.contains_key(f)
            && m2[f] == m[f] by {
            mmu::lemma_in_tree_known(m, r, 3, f);
        }
        mmu::lemma_local(m, m2, r, 3);
        lemma_owns_local(m, m2, r, 3, 1);
        assert(mmu::in_tree(m, r, 3, r));
    }
    assert forall|a: u64, b: u64, f: u64|
        #![trigger mmu::owns(m2, a, 3, 1, f), mmu::owns(m2, b, 3, 1, f)]
        roots.contains(a) && roots.contains(b) && a != b && mmu::owns(
            m2,
            a,
            3,
            1,
            f,
        ) implies !mmu::owns(m2, b, 3, 1, f) by {
        assert(mmu::owns(m, a, 3, 1, f));
        assert(mmu::owns(m2, b, 3, 1, f) == mmu::owns(m, b, 3, 1, f));
    }
}

/// Every address space of a sound state can be walked, filled and copied.
pub proof fn law_sound_spaces_are_usable(
    m: Frames,
    pool: Set<u64>,
    roots: Set<u64>,
    e0: u64,
    root: u64,
)
    requires
        sound(m, pool, roots, e0),
        roots.contains(root),
    ensures
        mmu::wf_tree(m, root, 3),
        elf::fillable(m, pool, root),
        mmu::cloneable(m, pool, root, 3, 1),
{
    assert(space_ok(m, pool, root, e0));
    assert forall|a: u64| #[trigger] pool.contains(a) implies m.contains_key(a) && !mmu::in_tree(
        m,
        root,
        3,
        a,
    ) by {
        if mmu::in_tree(m, root, 3, a) {
            lemma_tree_parts(m, root, e0, a);
        }
    }
}

/// Writing to free frames that are taken leaves all address spaces as they were.
pub proof fn law_taking_frames_is_harmless(
    m: Frames,
    pool: Set<u64>,
    m2: Frames,
    pool2: Set<u64>,
    roots: Set<u64>,
    e0: u64,
)
    requires
        sound(m, pool, roots, e0),
        mmu::writes_only_taken(m, pool, m2, pool2),
        pool2.subset_of(pool),
    ensures
        sound(m2, pool2, roots, e0),
        forall|r: u64, f: u64|
            #![trigger roots.contains(r), mmu::owns(m2, r, 3, 1, f)]
            roots.contains(r) ==> mmu::owns(m2, r, 3, 1, f) == mmu::owns(m, r, 3, 1, f),
{
    lemma_taken_spared(m, pool, m2, pool2, roots, e0);
    lemma_tables_spared(m, pool, m2, pool2, roots, e0);
}

proof fn lemma_taken_spared(
    m: Frames,
    pool: Set<u64>,
    m2: Frames,
    pool2: Set<u64>,
    roots: Set<u64>,
    e0: u64,
)
    requires
        sound(m, pool, roots, e0),
        mmu::writes_only_taken(m, pool, m2, pool2),
    ensures
        forall|f: u64| #[trigger] mmu::in_tree(m, kernel_table(e0), 2, f) ==> m2[f] == m[f],
        forall|r: u64, f: u64|
            #![trigger roots.contains(r), mmu::in_tree(m, r, 3, f)]
            roots.contains(r) && mmu::in_tree(m, r, 3, f) ==> m2[f] == m[f],
{
    assert forall|f: u64| #[trigger] mmu::in_tree(m, kernel_table(e0), 2, f) implies m2[f]
        == m[f] by {
        mmu::lemma_in_tree_known(m, kernel_table(e0), 2, f);
    }
    assert forall|r: u64, f: u64|
        #![trigger roots.contains(r), mmu::in_tree(m, r, 3, f)]
        roots.contains(r) && mmu::in_tree(m, r, 3, f) implies m2[f] == m[f] by {
        assert(space_ok(m, pool, r, e0));
        mmu::lemma_in_tree_known(m, r, 3, f);
        lemma_tree_parts(m, r, e0, f);
    }
}

/// An address space that owns exactly the frames that were taken for it, and
/// shares the kernel entry, joins the others.
pub proof fn lemma_join(
    m: Frames,
    pool: Set<u64>,
    m2: Frames,
    pool2: Set<u64>,
    roots: Set<u64>,
    e0: u64,
    root: u64,
)
    requires
        sound(m, pool, roots, e0),
        mmu::writes_only_taken(m, pool, m2, pool2),
        pool2.subset_of(pool),
        mmu::wf_tree(m2, root, 3),
        plain(m2, root, 3, 1),
        m2[root][0] == e0,
        forall|f: u64| #[trigger]
            mmu::owns(m2, root, 3, 1, f) <==> pool.contains(f) && !pool2.contains(f),
    ensures
        sound(m2, pool2, roots.insert(root), e0),
{
    let roots2 = roots.insert(root);
    lemma_taken_spared(m, pool, m2, pool2, roots, e0);
    lemma_tables_spared(m, pool, m2, pool2, roots, e0);
    assert(mmu::owns(m2, root, 3, 1, root));
    assert(space_ok(m2, pool2, root, e0));
    assert forall|a: u64, b: u64, f: u64|
        #![trigger mmu::owns(m2, a, 3, 1, f), mmu::owns(m2, b, 3, 1, f)]
        roots2.contains(a) && roots2.contains(b) && a != b && mmu::owns(
            m2,
            a,
            3,
            1,
            f,
        ) implies !mmu::owns(m2, b, 3, 1, f) by {
        if a == root {
            assert(roots.contains(b));
            assert(space_ok(m, pool, b, e0));
            assert(mmu::owns(m2, b, 3, 1, f) == mmu::owns(m, b, 3, 1, f));
        } else if b == root {
            assert(roots.contains(a));
            assert(space_ok(m, pool, a, e0));
            assert(mmu::owns(m2, a, 3, 1, f) == mmu::owns(m, a, 3, 1, f));
        }
    }
}

/// Releasing one address space leaves all others in order.
pub proof fn law_releasing_one_spares_the_others(
    m: Frames,
    pool: Set<u64>,
    pool2: Set<u64>,
    roots: Set<u64>,
    e0: u64,
    root: u64,
)
    requires
        sound(m, pool, roots, e0),
        roots.contains(root),
        forall|g: u64| #[trigger]
            pool2.contains(g) <==> pool.contains(g) || (g < pmm::MANAGED_BYTES && mmu::owns(
                m,
                root,
                3,
                1,
                g,
            )),
    ensures
        sound(m, pool2, roots.remove(root), e0),
{
    assert(space_ok(m, pool, root, e0));
    assert forall|r: u64| #[trigger] roots.remove(root).contains(r) implies space_ok(
        m,
        pool2,
        r,
        e0,
    ) by {
        assert(space_ok(m, pool, r, e0));
        assert forall|f: u64| #[trigger] mmu::owns(m, r, 3, 1, f) implies !pool2.contains(f) by {
            assert(!mmu::owns(m, root, 3, 1, f));
        }
    }
}

// --- a copy joins ------------------------------------------------------------------------

/// A copy of a plain table is plain.
pub proof fn lemma_copy_plain(m: Frames, src: u64, c: Frames, dst: u64, level: nat, first: int)
    requires
        0 <= first,
        mmu::copy_of(m, src, c, dst, level, first),
        plain(m, src, level, first),
    ensures
        plain(c, dst, level, first),
    decreases level,
{
    if level > 0 {
        assert(0u64 & 1 == 0) by (bit_vector);
        assert forall|i: int| first <= i < 512 && mmu::present(#[trigger] c[dst][i]) implies {
            &&& !mmu::huge(c[dst][i])
            &&& plain(c, mmu::addr_of(c[dst][i]), (level - 1) as nat, 0)
        } by {
            assert(mmu::present(m[src][i]));
            lemma_copy_plain(
                m,
                mmu::addr_of(m[src][i]),
                c,
                mmu::addr_of(c[dst][i]),
                (level - 1) as nat,
                0,
            );
        }
    }
}

// --- mapping a page -----------------------------------------------------------------------

/// Mapping a page below an entry that is not shared changes only frames that
/// the table owns or that are taken for it, and makes it own no more than these
/// and the page.
proof fn lemma_map_owns(
    m: Frames,
    pool: Set<u64>,
    table: u64,
    level: nat,
    first: int,
    virt: u64,
    entry: u64,
)
    requires
        level <= 3,
        mmu::present(entry),
        elf::frames_ok(pool),
        mmu::wf_tree(m, table, level),
        mmu::pool_fits(m, pool, table, level),
        plain(m, table, level, first),
        0 <= first <= mmu::index(virt, level),
    ensures
        ({
            let (m2, pool2) = mmu::map_memory(m, pool, table, level, virt, entry);
            &&& plain(m2, table, level, first)
            &&& forall|f: u64| #[trigger]
                mmu::owns(m2, table, level, first, f) ==> mmu::owns(m, table, level, first, f)
                    || f == mmu::addr_of(entry) || (pool.contains(f) && !pool2.contains(f))
            &&& forall|g: u64|
                m.contains_key(g) && !mmu::owns(m, table, level, first, g) && !(pool.contains(g)
                    && !pool2.contains(g)) ==> #[trigger] m2[g] == m[g]
        }),
    decreases level,
{
    let (m2, pool2) = mmu::map_memory(m, pool, table, level, virt, entry);
    let i = mmu::index(virt, level);
    let e = m[table][i];
    assert(0 <= i < 512);
    assert(mmu::in_tree(m, table, level, table));
    assert(mmu::owns(m, table, level, first, table));
    if level == 0 {
        assert forall|f: u64| #[trigger] mmu::owns(m2, table, 0, first, f) implies mmu::owns(
            m,
            table,
            0,
            first,
            f,
        ) || f == mmu::addr_of(entry) by {
            if f != table {
                let j = choose|j: int|
                    first <= j < 512 && mmu::present(#[trigger] m2[table][j]) && f == mmu::addr_of(
                        m2[table][j],
                    );
                if j != i {
                    assert(m2[table][j] == m[table][j]);
                    assert(mmu::present(m[table][j]));
                }
            }
        }
    } else if mmu::links(e) || pool != Set::<u64>::empty() {
        let l1 = (level - 1) as nat;
        let f = pmm::lowest_frame(pool);
        let (m1, pool1, next) = if mmu::links(e) {
            (m, pool, mmu::addr_of(e))
        } else {
            (
                m.insert(f, mem::zero_page()).insert(
                    table,
                    m[table].update(i, f | mmu::PAGE_PRESENT | 7),
                ),
                pool.remove(f),
                f,
            )
        };
        assert(mmu::present(e) ==> !mmu::huge(e));
        if mmu::links(e) {
            assert forall|a: u64| #[trigger] pool.contains(a) implies m.contains_key(a)
                && !mmu::in_tree(m, next, l1, a) by {
                if mmu::in_tree(m, next, l1, a) {
                    assert(mmu::in_tree(m, table, level, a));
                }
            }
        } else {
            lemma_fresh_table(m, pool, table, level, i);
        }
        assert(m2 == mmu::map_memory(m1, pool1, next, l1, virt, entry).0);
        assert(pool2 == mmu::map_memory(m1, pool1, next, l1, virt, entry).1);
        mmu::lemma_map_memory(m1, pool1, next, l1, virt, entry);
        lemma_map_owns(m1, pool1, next, l1, 0, virt, entry);
        assert(!mmu::in_tree(m2, next, l1, table));
        assert(m2[table] == m1[table]);
        assert forall|j: int| 0 <= j < 512 && j != i && mmu::links(#[trigger] m[table][j]) implies {
            let c = mmu::addr_of(m[table][j]);
            &&& forall|g: u64| #[trigger] mmu::owns(m2, c, l1, 0, g) == mmu::owns(m, c, l1, 0, g)
            &&& plain(m2, c, l1, 0) == plain(m, c, l1, 0)
        } by {
            let c = mmu::addr_of(m[table][j]);
            assert forall|g: u64| #[trigger] mmu::in_tree(m, c, l1, g) implies m2[g] == m[g] by {
                assert(mmu::in_tree(m, table, level, g));
                assert(!mmu::in_tree(m2, next, l1, g));
                mmu::lemma_in_tree_known(m, c, l1, g);
                assert(m2[g] == m1[g]);
            }
            lemma_owns_local(m, m2, c, l1, 0);
        }
        assert forall|x: u64| #[trigger] mmu::owns(m2, table, level, first, x) implies mmu::owns(
            m,
            table,
            level,
            first,
            x,
        ) || x == mmu::addr_of(entry) || (pool.contains(x) && !pool2.contains(x)) by {
            if x != table {
                let j = choose|j: int|
                    first <= j < 512 && mmu::present(#[trigger] m2[table][j]) && !mmu::huge(
                        m2[table][j],
                    ) && mmu::owns(m2, mmu::addr_of(m2[table][j]), l1, 0, x);
                if j == i {
                    assert(mmu::owns(m2, next, l1, 0, x));
                } else {
                    assert(m2[table][j] == m[table][j]);
                    assert(mmu::links(m[table][j]));
                }
            }
        }
        assert forall|j: int| first <= j < 512 && mmu::present(#[trigger] m2[table][j]) implies {
            &&& !mmu::huge(m2[table][j])
            &&& plain(m2, mmu::addr_of(m2[table][j]), l1, 0)
        } by {
            if j != i {
                assert(m2[table][j] == m[table][j]);
                assert(mmu::present(m[table][j]));
            }
        }
        assert forall|g: u64|
            m.contains_key(g) && !mmu::owns(m, table, level, first, g) && !(pool.contains(g)
                && !pool2.contains(g)) implies #[trigger] m2[g] == m[g] by {
            if mmu::links(e) {
                assert(mmu::owns(m, next, l1, 0, g) ==> mmu::owns(m, table, level, first, g));
            } else {
                assert(m1[g] == m[g]);
            }
        }
    }
}

/// A free frame becomes an empty table below entry `i`.
proof fn lemma_fresh_table(m: Frames, pool: Set<u64>, table: u64, level: nat, i: int)
    requires
        level > 0,
        elf::frames_ok(pool),
        pool != Set::<u64>::empty(),
        mmu::wf_tree(m, table, level),
        mmu::pool_fits(m, pool, table, level),
        0 <= i < 512,
        !mmu::present(m[table][i]),
    ensures
        ({
            let f = pmm::lowest_frame(pool);
            let l1 = (level - 1) as nat;
            let m1 = m.insert(f, mem::zero_page()).insert(
                table,
                m[table].update(i, f | mmu::PAGE_PRESENT | 7),
            );
            &&& pool.contains(f)
            &&& f != table
            &&& m1[table] == m[table].update(i, f | mmu::PAGE_PRESENT | 7)
            &&& m1[f] == mem::zero_page()
            &&& mmu::links(m1[table][i])
            &&& mmu::addr_of(m1[table][i]) == f
            &&& mmu::wf_tree(m1, f, l1)
            &&& mmu::pool_fits(m1, pool.remove(f), f, l1)
            &&& elf::frames_ok(pool.remove(f))
            &&& plain(m1, f, l1, 0)
            &&& forall|g: u64| #[trigger] mmu::in_tree(m1, f, l1, g) <==> g == f
            &&& forall|g: u64| #[trigger] mmu::owns(m1, f, l1, 0, g) <==> g == f
        }),
{
    let f = pmm::lowest_frame(pool);
    let l1 = (level - 1) as nat;
    pmm::lemma_take_lowest(pool);
    assert(mmu::in_tree(m, table, level, table));
    mmu::lemma_link_entry(f);
    let m1 = m.insert(f, mem::zero_page()).insert(
        table,
        m[table].update(i, f | mmu::PAGE_PRESENT | 7),
    );
    mmu::lemma_empty_table(m1, f, l1);
    assert(0u64 & 1 == 0) by (bit_vector);
    assert forall|j: int| 0 <= j < 512 implies !mmu::present(#[trigger] m1[f][j]) by {}
}

/// Whether frame `f` is memory that is in use, but not by any address space.
pub open spec fn unclaimed(m: Frames, pool: Set<u64>, roots: Set<u64>, e0: u64, f: u64) -> bool {
    &&& m.contains_key(f)
    &&& !pool.contains(f)
    &&& !mmu::in_tree(m, kernel_table(e0), 2, f)
    &&& forall|r: u64| #[trigger] roots.contains(r) ==> !mmu::owns(m, r, 3, 1, f)
}

/// Whether frame `f` is memory that is in use, but not as a table.
pub open spec fn no_table(m: Frames, pool: Set<u64>, roots: Set<u64>, e0: u64, f: u64) -> bool {
    &&& m.contains_key(f)
    &&& !pool.contains(f)
    &&& !mmu::in_tree(m, kernel_table(e0), 2, f)
    &&& forall|r: u64| #[trigger] roots.contains(r) ==> !mmu::in_tree(m, r, 3, f)
}

/// What a table owns above its first entry depends only on itself and on the
/// tables below its other entries.
proof fn lemma_private_local(m: Frames, m2: Frames, root: u64)
    requires
        m2[root] == m[root],
        forall|f: u64| #[trigger] mmu::owns(m, root, 3, 1, f) ==> m2[f] == m[f],
    ensures
        forall|f: u64| #[trigger] mmu::owns(m2, root, 3, 1, f) == mmu::owns(m, root, 3, 1, f),
        plain(m2, root, 3, 1) == plain(m, root, 3, 1),
{
    assert forall|i: int| 1 <= i < 512 && mmu::links(#[trigger] m[root][i]) implies {
        let c = mmu::addr_of(m[root][i]);
        &&& forall|f: u64| #[trigger] mmu::owns(m2, c, 2, 0, f) == mmu::owns(m, c, 2, 0, f)
        &&& plain(m2, c, 2, 0) == plain(m, c, 2, 0)
    } by {
        let c = mmu::addr_of(m[root][i]);
        assert forall|f: u64| #[trigger] mmu::in_tree(m, c, 2, f) implies m2[f] == m[f] by {
            mmu::lemma_tree_owned(m, c, 2, f);
            assert(mmu::owns(m, root, 3, 1, f));
        }
        lemma_owns_local(m, m2, c, 2, 0);
    }
    assert forall|f: u64| #[trigger] mmu::owns(m2, root, 3, 1, f) == mmu::owns(
        m,
        root,
        3,
        1,
        f,
    ) by {
        if f != root && mmu::owns(m, root, 3, 1, f) {
            let i = choose|i: int|
                1 <= i < 512 && mmu::present(#[trigger] m[root][i]) && !mmu::huge(m[root][i])
                    && mmu::owns(m, mmu::addr_of(m[root][i]), 2, 0, f);
            assert(mmu::links(m[root][i]));
            assert(mmu::present(m2[root][i]) && !mmu::huge(m2[root][i]));
            assert(mmu::owns(m2, mmu::addr_of(m2[root][i]), 2, 0, f));
        }
        if f != root && mmu::owns(m2, root, 3, 1, f) {
            let i = choose|i: int|
                1 <= i < 512 && mmu::present(#[trigger] m2[root][i]) && !mmu::huge(m2[root][i])
                    && mmu::owns(m2, mmu::addr_of(m2[root][i]), 2, 0, f);
            assert(mmu::links(m[root][i]));
            assert(mmu::owns(m, mmu::addr_of(m[root][i]), 2, 0, f));
        }
    }
    assert(plain(m2, root, 3, 1) == plain(m, root, 3, 1)) by {
        if plain(m, root, 3, 1) {
            assert forall|i: int| 1 <= i < 512 && mmu::present(#[trigger] m2[root][i]) implies {
                &&& !mmu::huge(m2[root][i])
                &&& plain(m2, mmu::addr_of(m2[root][i]), 2, 0)
            } by {
                assert(mmu::present(m[root][i]));
            }
        }
        if plain(m2, root, 3, 1) {
            assert forall|i: int| 1 <= i < 512 && mmu::present(#[trigger] m[root][i]) implies {
                &&& !mmu::huge(m[root][i])
                &&& plain(m, mmu::addr_of(m[root][i]), 2, 0)
            } by {
                assert(mmu::present(m2[root][i]));
            }
        }
    }
}

/// Mapping a page in the region that all address spaces share.
proof fn lemma_map_shared(
    m: Frames,
    pool: Set<u64>,
    roots: Set<u64>,
    e0: u64,
    p4: u64,
    virt: u64,
    entry: u64,
)
    requires
        sound(m, pool, roots, e0),
        elf::frames_ok(pool),
        roots.contains(p4),
        mmu::present(entry),
        mmu::index(virt, 3) == 0,
    ensures
        ({
            let (m2, pool2) = mmu::map_memory(m, pool, p4, 3, virt, entry);
            &&& sound(m2, pool2, roots, e0)
            &&& pool2.subset_of(pool)
            &&& m2.dom() == m.dom()
            &&& forall|g: u64| #[trigger]
                no_table(m, pool, roots, e0, g) ==> no_table(m2, pool2, roots, e0, g) && m2[g]
                    == m[g]
            &&& forall|r: u64, v: u64|
                #![trigger roots.contains(r), mmu::lookup(m2, r, 3, v)]
                roots.contains(r) && mmu::index(v, 3) != 0 ==> mmu::lookup(m2, r, 3, v)
                    == mmu::lookup(m, r, 3, v)
        }),
{
    let k = kernel_table(e0);
    let (m2, pool2) = mmu::map_memory(m, pool, p4, 3, virt, entry);
    assert(space_ok(m, pool, p4, e0));
    assert(m[p4][0] == e0);
    assert((m2, pool2) == mmu::map_memory(m, pool, k, 2, virt, entry));
    mmu::lemma_map_memory(m, pool, k, 2, virt, entry);
    let fresh = pool.difference(pool2);
    assert forall|r: u64| #[trigger] roots.contains(r) implies {
        &&& space_ok(m2, pool2, r, e0)
        &&& forall|f: u64| #[trigger] mmu::owns(m2, r, 3, 1, f) == mmu::owns(m, r, 3, 1, f)
        &&& forall|g: u64| #[trigger]
            mmu::in_tree(m2, r, 3, g) <==> mmu::in_tree(m, r, 3, g) || fresh.contains(g)
        &&& forall|v: u64| #[trigger]
            mmu::lookup(m2, r, 3, v) == if mmu::index(v, 3) == 0 {
                mmu::lookup(m2, k, 2, v)
            } else {
                mmu::lookup(m, r, 3, v)
            }
    } by {
        assert(space_ok(m, pool, r, e0));
        assert(mmu::owns(m, r, 3, 1, r));
        assert(!mmu::in_tree(m2, k, 2, r));
        assert(m2[r] == m[r]);
        assert forall|f: u64| #[trigger] mmu::owns(m, r, 3, 1, f) implies m2[f] == m[f] by {
            assert(!mmu::in_tree(m2, k, 2, f));
        }
        lemma_private_local(m, m2, r);
        assert(m2[r] =~= m[r].update(0, m2[r][0]));
        assert forall|g: u64| #[trigger] fresh.contains(g) implies !mmu::in_tree(m, r, 3, g) by {
            if mmu::in_tree(m, r, 3, g) {
                lemma_tree_parts(m, r, e0, g);
            }
        }
        assert forall|g: u64| #[trigger]
            mmu::in_tree(m, r, 3, g) && g != r && !(mmu::links(m[r][0]) && mmu::in_tree(
                m,
                mmu::addr_of(m[r][0]),
                2,
                g,
            )) implies m2.contains_key(g) && m2[g] == m[g] by {
            lemma_tree_parts(m, r, e0, g);
        }
        mmu::lemma_child(m, m2, r, 3, 0, fresh);
        assert forall|f: u64| #[trigger] mmu::owns(m2, r, 3, 1, f) implies m2.contains_key(f)
            && !pool2.contains(f) && !mmu::in_tree(m2, k, 2, f) by {
            assert(mmu::owns(m, r, 3, 1, f));
        }
    }
    assert forall|a: u64, b: u64, f: u64|
        #![trigger mmu::owns(m2, a, 3, 1, f), mmu::owns(m2, b, 3, 1, f)]
        roots.contains(a) && roots.contains(b) && a != b && mmu::owns(
            m2,
            a,
            3,
            1,
            f,
        ) implies !mmu::owns(m2, b, 3, 1, f) by {
        assert(mmu::owns(m, a, 3, 1, f));
        assert(mmu::owns(m2, b, 3, 1, f) == mmu::owns(m, b, 3, 1, f));
    }
    assert forall|g: u64| #[trigger] no_table(m, pool, roots, e0, g) implies no_table(
        m2,
        pool2,
        roots,
        e0,
        g,
    ) && m2[g] == m[g] by {
        assert(!mmu::in_tree(m2, k, 2, g));
        assert forall|r: u64| #[trigger] roots.contains(r) implies !mmu::in_tree(m2, r, 3, g) by {
            assert(!mmu::in_tree(m, r, 3, g));
        }
    }
}

/// Mapping a page in the region that belongs to one address space.
proof fn lemma_map_private(
    m: Frames,
    pool: Set<u64>,
    roots: Set<u64>,
    e0: u64,
    p4: u64,
    virt: u64,
    entry: u64,
)
    requires
        sound(m, pool, roots, e0),
        elf::frames_ok(pool),
        roots.contains(p4),
        mmu::present(entry),
        mmu::index(virt, 3) != 0,
        unclaimed(m, pool, roots, e0, mmu::addr_of(entry)),
    ensures
        ({
            let (m2, pool2) = mmu::map_memory(m, pool, p4, 3, virt, entry);
            &&& sound(m2, pool2, roots, e0)
            &&& pool2.subset_of(pool)
            &&& m2.dom() == m.dom()
            &&& forall|g: u64| #[trigger]
                no_table(m, pool, roots, e0, g) ==> no_table(m2, pool2, roots, e0, g) && m2[g]
                    == m[g]
            &&& forall|r: u64, v: u64|
                #![trigger roots.contains(r), mmu::lookup(m2, r, 3, v)]
                roots.contains(r) && r != p4 ==> mmu::lookup(m2, r, 3, v) == mmu::lookup(m, r, 3, v)
        }),
{
    let k = kernel_table(e0);
    let page = mmu::addr_of(entry);
    let (m2, pool2) = mmu::map_memory(m, pool, p4, 3, virt, entry);
    law_sound_spaces_are_usable(m, pool, roots, e0, p4);
    assert(space_ok(m, pool, p4, e0));
    mmu::lemma_map_memory(m, pool, p4, 3, virt, entry);
    lemma_map_owns(m, pool, p4, 3, 1, virt, entry);
    assert forall|f: u64| #[trigger] mmu::in_tree(m, k, 2, f) implies m2.contains_key(f) && m2[f]
        == m[f] by {
        mmu::lemma_in_tree_known(m, k, 2, f);
        assert(!mmu::owns(m, p4, 3, 1, f));
    }
    mmu::lemma_local(m, m2, k, 2);
    assert forall|r: u64| #[trigger] roots.contains(r) && r != p4 implies {
        &&& space_ok(m2, pool2, r, e0)
        &&& forall|f: u64| #[trigger] mmu::owns(m2, r, 3, 1, f) == mmu::owns(m, r, 3, 1, f)
        &&& forall|f: u64| #[trigger] mmu::in_tree(m2, r, 3, f) == mmu::in_tree(m, r, 3, f)
        &&& forall|v: u64| #[trigger] mmu::lookup(m2, r, 3, v) == mmu::lookup(m, r, 3, v)
    } by {
        assert(space_ok(m, pool, r, e0));
        assert forall|f: u64| #[trigger] mmu::in_tree(m, r, 3, f) implies m2.contains_key(f)
            && m2[f] == m[f] by {
            mmu::lemma_in_tree_known(m, r, 3, f);
            lemma_tree_parts(m, r, e0, f);
            if mmu::owns(m, r, 3, 1, f) {
                assert(!mmu::owns(m, p4, 3, 1, f));
            }
        }
        mmu::lemma_local(m, m2, r, 3);
        lemma_owns_local(m, m2, r, 3, 1);
        assert(mmu::in_tree(m, r, 3, r));
    }
    assert(space_ok(m2, pool2, p4, e0)) by {
        lemma_first_entry_kept(m, pool, p4, virt, entry);
        assert forall|f: u64| #[trigger] mmu::owns(m2, p4, 3, 1, f) implies m2.contains_key(f)
            && !pool2.contains(f) && !mmu::in_tree(m2, k, 2, f) by {
            assert(mmu::in_tree(m2, k, 2, f) == mmu::in_tree(m, k, 2, f));
            if !mmu::owns(m, p4, 3, 1, f) && f != page {
                assert(pool.contains(f) && !pool2.contains(f));
            }
        }
    }
    assert forall|a: u64, b: u64, f: u64|
        #![trigger mmu::owns(m2, a, 3, 1, f), mmu::owns(m2, b, 3, 1, f)]
        roots.contains(a) && roots.contains(b) && a != b && mmu::owns(
            m2,
            a,
            3,
            1,
            f,
        ) implies !mmu::owns(m2, b, 3, 1, f) by {
        let (other, mine) = if a == p4 {
            (b, a)
        } else {
            (a, b)
        };
        assert(roots.contains(other) && other != p4);
        assert(mmu::owns(m2, other, 3, 1, f) == mmu::owns(m, other, 3, 1, f));
        assert(space_ok(m, pool, other, e0));
        if mine != p4 {
            assert(mmu::owns(m2, mine, 3, 1, f) == mmu::owns(m, mine, 3, 1, f));
        }
    }
    assert forall|g: u64| #[trigger] no_table(m, pool, roots, e0, g) implies no_table(
        m2,
        pool2,
        roots,
        e0,
        g,
    ) && m2[g] == m[g] by {
        assert(mmu::in_tree(m2, k, 2, g) == mmu::in_tree(m, k, 2, g));
        assert forall|r: u64| #[trigger] roots.contains(r) implies !mmu::in_tree(m2, r, 3, g) by {
            assert(!mmu::in_tree(m, r, 3, g));
            if r != p4 {
                assert(mmu::in_tree(m2, r, 3, g) == mmu::in_tree(m, r, 3, g));
            }
        }
        assert(!mmu::in_tree(m2, p4, 3, g));
    }
}

/// Mapping a page below another entry leaves the first entry of the root.
proof fn lemma_first_entry_kept(m: Frames, pool: Set<u64>, p4: u64, virt: u64, entry: u64)
    requires
        mmu::present(entry),
        elf::frames_ok(pool),
        elf::fillable(m, pool, p4),
        mmu::index(virt, 3) != 0,
    ensures
        mmu::map_memory(m, pool, p4, 3, virt, entry).0[p4][0] == m[p4][0],
{
    let (m2, pool2) = mmu::map_memory(m, pool, p4, 3, virt, entry);
    let i = mmu::index(virt, 3);
    let e = m[p4][i];
    assert(0 <= i < 512);
    assert(mmu::in_tree(m, p4, 3, p4));
    if mmu::links(e) {
        let c = mmu::addr_of(e);
        assert forall|a: u64| #[trigger] pool.contains(a) implies m.contains_key(a)
            && !mmu::in_tree(m, c, 2, a) by {
            if mmu::in_tree(m, c, 2, a) {
                assert(mmu::in_tree(m, p4, 3, a));
            }
        }
        mmu::lemma_map_memory(m, pool, c, 2, virt, entry);
        assert(m2[p4] == m[p4]);
    } else if !mmu::present(e) && pool != Set::<u64>::empty() {
        lemma_fresh_table(m, pool, p4, 3, i);
        let f = pmm::lowest_frame(pool);
        let m1 = m.insert(f, mem::zero_page()).insert(
            p4,
            m[p4].update(i, f | mmu::PAGE_PRESENT | 7),
        );
        mmu::lemma_map_memory(m1, pool.remove(f), f, 2, virt, entry);
        assert(m2[p4] == m1[p4]);
    }
}

/// Mapping a page that nothing else uses into one address space keeps all of
/// them in order, and changes no other mapping of the others than in the region
/// they share.
pub proof fn law_mapping_keeps_spaces_sound(
    m: Frames,
    pool: Set<u64>,
    roots: Set<u64>,
    e0: u64,
    p4: u64,
    virt: u64,
    entry: u64,
)
    requires
        sound(m, pool, roots, e0),
        elf::frames_ok(pool),
        roots.contains(p4),
        mmu::present(entry),
        unclaimed(m, pool, roots, e0, mmu::addr_of(entry)),
    ensures
        ({
            let (m2, pool2) = mmu::map_memory(m, pool, p4, 3, virt, entry);
            &&& sound(m2, pool2, roots, e0)
            &&& pool2.subset_of(pool)
            &&& m2.dom() == m.dom()
            &&& forall|g: u64| #[trigger]
                no_table(m, pool, roots, e0, g) ==> no_table(m2, pool2, roots, e0, g) && m2[g]
                    == m[g]
            &&& forall|r: u64, v: u64|
                #![trigger roots.contains(r), mmu::lookup(m2, r, 3, v)]
                roots.contains(r) && r != p4 && mmu::index(v, 3) != 0 ==> mmu::lookup(m2, r, 3, v)
                    == mmu::lookup(m, r, 3, v)
        }),
{
    if mmu::index(virt, 3) == 0 {
        lemma_map_shared(m, pool, roots, e0, p4, virt, entry);
    } else {
        lemma_map_private(m, pool, roots, e0, p4, virt, entry);
    }
}

// --- loading a program --------------------------------------------------------------------

/// Taking the lowest free frame and filling it leaves all address spaces as
/// they were, and the frame unclaimed.
proof fn lemma_take_frame(m: Frames, pool: Set<u64>, roots: Set<u64>, e0: u64, page: Seq<u64>)
    requires
        sound(m, pool, roots, e0),
        elf::frames_ok(pool),
        pool != Set::<u64>::empty(),
    ensures
        ({
            let f = pmm::lowest_frame(pool);
            let m1 = m.insert(f, page);
            let p1 = pool.remove(f);
            &&& pool.contains(f)
            &&& mmu::writes_only_taken(m, pool, m1, p1)
            &&& sound(m1, p1, roots, e0)
            &&& elf::frames_ok(p1)
            &&& unclaimed(m1, p1, roots, e0, f)
            &&& no_table(m1, p1, roots, e0, f)
            &&& forall|g: u64| #[trigger]
                no_table(m, pool, roots, e0, g) ==> no_table(m1, p1, roots, e0, g)
        }),
{
    let f = pmm::lowest_frame(pool);
    let m1 = m.insert(f, page);
    let p1 = pool.remove(f);
    pmm::lemma_take_lowest(pool);
    assert(m1.dom() =~= m.dom());
    lemma_taken_spared(m, pool, m1, p1, roots, e0);
    lemma_tables_spared(m, pool, m1, p1, roots, e0);
    assert forall|r: u64| #[trigger] roots.contains(r) implies !mmu::owns(m1, r, 3, 1, f)
        && !mmu::in_tree(m1, r, 3, f) by {
        assert(space_ok(m, pool, r, e0));
        if mmu::in_tree(m, r, 3, f) {
            lemma_tree_parts(m, r, e0, f);
        }
    }
    assert(!mmu::in_tree(m1, kernel_table(e0), 2, f));
    assert forall|g: u64| #[trigger] no_table(m, pool, roots, e0, g) implies no_table(
        m1,
        p1,
        roots,
        e0,
        g,
    ) by {
        assert(mmu::in_tree(m1, kernel_table(e0), 2, g) == mmu::in_tree(
            m,
            kernel_table(e0),
            2,
            g,
        ));
        assert forall|r: u64| #[trigger] roots.contains(r) implies !mmu::in_tree(m1, r, 3, g) by {
            assert(!mmu::in_tree(m, r, 3, g));
        }
    }
}

/// Whether the addresses from `from` to `to` are mapped at `p4` to frames that
/// are no tables.
spec fn data_at(
    m: Frames,
    pool: Set<u64>,
    roots: Set<u64>,
    e0: u64,
    p4: u64,
    from: int,
    to: int,
) -> bool {
    forall|v: u64|
        #![trigger mmu::lookup(m, p4, 3, v)]
        from <= v < to ==> mmu::lookup(m, p4, 3, v) is Some && no_table(
            m,
            pool,
            roots,
            e0,
            elf::frame_at(m, p4, v as int),
        )
}

/// Mapping zeroed pages keeps all address spaces in order.
proof fn lemma_pages_sound(
    m: Frames,
    pool: Set<u64>,
    roots: Set<u64>,
    e0: u64,
    p4: u64,
    virt: int,
    n: nat,
    writable: bool,
    executable: bool,
)
    requires
        sound(m, pool, roots, e0),
        elf::frames_ok(pool),
        roots.contains(p4),
        virt % 4096 == 0,
        0 <= virt,
        virt + 4096 * n <= 0x1_0000_0000_0000_0000,
    ensures
        ({
            let flags = mmu::leaf_flags(writable, executable);
            let (m2, p2, r) = elf::load_pages(m, pool, p4, virt, n, flags);
            &&& sound(m2, p2, roots, e0)
            &&& elf::frames_ok(p2)
            &&& forall|g: u64| #[trigger]
                no_table(m, pool, roots, e0, g) ==> no_table(m2, p2, roots, e0, g)
            &&& r is Ok ==> data_at(m2, p2, roots, e0, p4, virt, virt + 4096 * n)
        }),
    decreases n,
{
    let flags = mmu::leaf_flags(writable, executable);
    if n > 0 && pool != Set::<u64>::empty() {
        let f = pmm::lowest_frame(pool);
        let m1 = m.insert(f, mem::zero_page());
        let p1 = pool.remove(f);
        lemma_take_frame(m, pool, roots, e0, mem::zero_page());
        mmu::lemma_addr_of(f);
        mmu::lemma_leaf_entry(f, writable, executable);
        law_sound_spaces_are_usable(m, pool, roots, e0, p4);
        elf::lemma_one_page(m, pool, p4, virt as u64, writable, executable);
        law_mapping_keeps_spaces_sound(m1, p1, roots, e0, p4, virt as u64, f | flags);
        let (m2, p2) = mmu::map_memory(m1, p1, p4, 3, virt as u64, f | flags);
        if mmu::map_outcome(m1, p4, 3, virt as u64, p1.len()) is Ok {
            let rest = (n - 1) as nat;
            lemma_pages_sound(m2, p2, roots, e0, p4, virt + 4096, rest, writable, executable);
            law_sound_spaces_are_usable(m2, p2, roots, e0, p4);
            let fr = elf::lemma_load_pages(m2, p2, p4, virt + 4096, rest, writable, executable);
            let (m3, p3, r) = elf::load_pages(m2, p2, p4, virt + 4096, rest, flags);
            assert forall|v: u64|
                #![trigger mmu::lookup(m3, p4, 3, v)]
                r is Ok && virt <= v < virt + 4096 * n implies mmu::lookup(m3, p4, 3, v) is Some
                && no_table(m3, p3, roots, e0, elf::frame_at(m3, p4, v as int)) by {
                if v < virt + 4096 {
                    assert(mmu::lookup(m2, p4, 3, v) == Some((f + v as int % 4096, flags)));
                    assert(mmu::lookup(m3, p4, 3, v) == mmu::lookup(m2, p4, 3, v));
                    assert(elf::frame_at(m3, p4, v as int) == f);
                }
            }
        }
    }
}

/// Whether frame `f` is no table, neither of the kernel nor of any address space.
pub open spec fn spared(m: Frames, roots: Set<u64>, e0: u64, f: u64) -> bool {
    &&& !mmu::in_tree(m, kernel_table(e0), 2, f)
    &&& forall|r: u64| #[trigger] roots.contains(r) ==> !mmu::in_tree(m, r, 3, f)
}

/// Whether copying `data` to the addresses from `virt` on writes to no table.
pub open spec fn copy_spares(
    m: Frames,
    roots: Set<u64>,
    e0: u64,
    p4: u64,
    virt: int,
    data: Seq<u8>,
) -> bool
    decreases data.len(),
{
    data.len() > 0 && virt <= u64::MAX ==> (elf::page_frame(m, p4, virt) matches Some(f) ==> {
        let n = elf::chunk_len(virt, data.len() as int);
        &&& m.contains_key(f) ==> spared(m, roots, e0, f)
        &&& 0 < n <= data.len() && copy_spares(
            elf::stored(m, f, virt % 4096, data.take(n)),
            roots,
            e0,
            p4,
            virt + n,
            data.skip(n),
        )
    })
}

/// Whether loading a segment writes its bytes to no table.
pub open spec fn segment_spares(
    m: Frames,
    pool: Set<u64>,
    roots: Set<u64>,
    e0: u64,
    p4: u64,
    b: Seq<u8>,
    seg: elf::Segment,
) -> bool {
    let flags = mmu::leaf_flags(seg.writable, seg.executable);
    let (m1, p1, r) = elf::load_pages(m, pool, p4, seg.start(), seg.pages() as nat, flags);
    seg.vaddr + seg.memsz + 0xFFF <= u64::MAX && r is Ok && seg.offset + seg.filesz <= b.len()
        ==> copy_spares(m1, roots, e0, p4, seg.vaddr as int, seg.contents(b))
}

/// Whether loading the segments of the last `n` program headers out of `total`
/// writes their bytes to no table.
pub open spec fn headers_spare(
    m: Frames,
    pool: Set<u64>,
    roots: Set<u64>,
    e0: u64,
    p4: u64,
    b: Seq<u8>,
    total: int,
    n: nat,
) -> bool
    decreases n,
{
    let off = elf::header_offset(b, total - n);
    n > 0 && off + elf::PROGRAM_HEADER_SIZE <= b.len() ==> match elf::segment_at(b, off) {
        None => headers_spare(m, pool, roots, e0, p4, b, total, (n - 1) as nat),
        Some(seg) => {
            let (m1, p1, r) = elf::load_one(m, pool, p4, b, seg);
            &&& segment_spares(m, pool, roots, e0, p4, b, seg)
            &&& r is Ok ==> headers_spare(m1, p1, roots, e0, p4, b, total, (n - 1) as nat)
        },
    }
}

/// Whether loading an image writes the bytes of its segments to no table. A
/// segment with more bytes in the file than in memory goes on behind its own
/// pages, to whatever is mapped there.
pub open spec fn image_spares(
    m: Frames,
    pool: Set<u64>,
    roots: Set<u64>,
    e0: u64,
    cr3: u64,
    image: Seq<u8>,
) -> bool {
    let root = pmm::lowest_frame(pool);
    elf::header_error(image) is None && pool != Set::<u64>::empty() ==> headers_spare(
        elf::with_root(m, cr3, root),
        pool.remove(root),
        roots.insert(root),
        e0,
        root,
        image,
        bytes::le16(image, 56),
        bytes::le16(image, 56) as nat,
    )
}

/// Copying bytes to frames that are no tables keeps all address spaces in
/// order.
proof fn lemma_bytes_sound(
    m: Frames,
    pool: Set<u64>,
    roots: Set<u64>,
    e0: u64,
    p4: u64,
    virt: int,
    data: Seq<u8>,
)
    requires
        sound(m, pool, roots, e0),
        roots.contains(p4),
        0 <= virt,
        copy_spares(m, roots, e0, p4, virt, data),
    ensures
        sound(elf::copy_bytes(m, pool, p4, virt, data).0, pool, roots, e0),
    decreases data.len(),
{
    if data.len() > 0 && virt <= u64::MAX {
        if let Some(f) = elf::page_frame(m, p4, virt) {
            let n = elf::chunk_len(virt, data.len() as int);
            let m1 = elf::stored(m, f, virt % 4096, data.take(n));
            if m.contains_key(f) {
                lemma_write_sound(
                    m,
                    pool,
                    roots,
                    e0,
                    f,
                    mem::page_with(m[f], virt % 4096, data.take(n)),
                );
            }
            law_sound_spaces_are_usable(m1, pool, roots, e0, p4);
            lemma_bytes_sound(m1, pool, roots, e0, p4, virt + n, data.skip(n));
        }
    }
}

/// Bytes that go to frames of data go to no table.
proof fn lemma_data_spares(
    m: Frames,
    pool: Set<u64>,
    roots: Set<u64>,
    e0: u64,
    p4: u64,
    virt: int,
    data: Seq<u8>,
)
    requires
        sound(m, pool, roots, e0),
        roots.contains(p4),
        0 <= virt,
        virt + data.len() <= 0x1_0000_0000_0000_0000,
        data_at(m, pool, roots, e0, p4, virt - virt % 4096, virt + data.len()),
    ensures
        copy_spares(m, roots, e0, p4, virt, data),
    decreases data.len(),
{
    if data.len() > 0 {
        let n = elf::chunk_len(virt, data.len() as int);
        let page = virt - virt % 4096;
        assert(page % 4096 == 0);
        let f = elf::frame_at(m, p4, page);
        assert(mmu::lookup(m, p4, 3, page as u64) is Some);
        assert(no_table(m, pool, roots, e0, f));
        assert(elf::page_frame(m, p4, virt) == Some(f));
        let m1 = m.insert(f, mem::page_with(m[f], virt % 4096, data.take(n)));
        assert(m1 == elf::stored(m, f, virt % 4096, data.take(n)));
        lemma_write_sound(m, pool, roots, e0, f, mem::page_with(m[f], virt % 4096, data.take(n)));
        let next = virt + n;
        assert(data.skip(n).len() > 0 ==> next % 4096 == 0);
        assert forall|v: u64|
            #![trigger mmu::lookup(m1, p4, 3, v)]
            next - next % 4096 <= v < next + data.skip(n).len() implies mmu::lookup(m1, p4, 3, v)
            is Some && no_table(m1, pool, roots, e0, elf::frame_at(m1, p4, v as int)) by {
            assert(mmu::lookup(m1, p4, 3, v) == mmu::lookup(m, p4, 3, v));
            assert(elf::frame_at(m1, p4, v as int) == elf::frame_at(m, p4, v as int));
        }
        lemma_data_spares(m1, pool, roots, e0, p4, next, data.skip(n));
    }
}

/// Writing to a frame that is no table changes no address space.
proof fn lemma_write_sound(
    m: Frames,
    pool: Set<u64>,
    roots: Set<u64>,
    e0: u64,
    f: u64,
    page: Seq<u64>,
)
    requires
        sound(m, pool, roots, e0),
        m.contains_key(f),
        spared(m, roots, e0, f),
    ensures
        sound(m.insert(f, page), pool, roots, e0),
        forall|g: u64| #[trigger]
            no_table(m, pool, roots, e0, g) ==> no_table(m.insert(f, page), pool, roots, e0, g),
        forall|r: u64, v: u64|
            #![trigger roots.contains(r), mmu::lookup(m.insert(f, page), r, 3, v)]
            roots.contains(r) ==> mmu::lookup(m.insert(f, page), r, 3, v) == mmu::lookup(
                m,
                r,
                3,
                v,
            ),
{
    let m1 = m.insert(f, page);
    assert(m1.dom() =~= m.dom());
    lemma_tables_spared(m, pool, m1, pool, roots, e0);
    assert forall|g: u64| #[trigger] no_table(m, pool, roots, e0, g) implies no_table(
        m1,
        pool,
        roots,
        e0,
        g,
    ) by {
        assert(mmu::in_tree(m1, kernel_table(e0), 2, g) == mmu::in_tree(
            m,
            kernel_table(e0),
            2,
            g,
        ));
        assert forall|r: u64| #[trigger] roots.contains(r) implies !mmu::in_tree(m1, r, 3, g) by {
            assert(!mmu::in_tree(m, r, 3, g));
        }
    }
}

proof fn lemma_segment_sound(
    m: Frames,
    pool: Set<u64>,
    roots: Set<u64>,
    e0: u64,
    p4: u64,
    b: Seq<u8>,
    seg: elf::Segment,
)
    requires
        sound(m, pool, roots, e0),
        elf::frames_ok(pool),
        roots.contains(p4),
        segment_spares(m, pool, roots, e0, p4, b, seg),
    ensures
        ({
            let (m2, p2, r) = elf::load_one(m, pool, p4, b, seg);
            &&& sound(m2, p2, roots, e0)
            &&& elf::frames_ok(p2)
        }),
{
    if seg.vaddr + seg.memsz + 0xFFF <= u64::MAX {
        let flags = mmu::leaf_flags(seg.writable, seg.executable);
        let n = seg.pages() as nat;
        lemma_pages_sound(
            m,
            pool,
            roots,
            e0,
            p4,
            seg.start(),
            n,
            seg.writable,
            seg.executable,
        );
        let (m1, p1, r1) = elf::load_pages(m, pool, p4, seg.start(), n, flags);
        if r1 is Ok && seg.offset + seg.filesz <= b.len() {
            lemma_bytes_sound(m1, p1, roots, e0, p4, seg.vaddr as int, seg.contents(b));
        }
    }
}

proof fn lemma_headers_sound(
    m: Frames,
    pool: Set<u64>,
    roots: Set<u64>,
    e0: u64,
    p4: u64,
    b: Seq<u8>,
    total: int,
    n: nat,
)
    requires
        sound(m, pool, roots, e0),
        elf::frames_ok(pool),
        roots.contains(p4),
        headers_spare(m, pool, roots, e0, p4, b, total, n),
    ensures
        ({
            let (m2, p2, r) = elf::load_headers(m, pool, p4, b, total, n);
            &&& sound(m2, p2, roots, e0)
            &&& elf::frames_ok(p2)
        }),
    decreases n,
{
    if n > 0 {
        let off = elf::header_offset(b, total - n);
        if off + elf::PROGRAM_HEADER_SIZE <= b.len() {
            match elf::segment_at(b, off) {
                None => {
                    lemma_headers_sound(m, pool, roots, e0, p4, b, total, (n - 1) as nat);
                },
                Some(seg) => {
                    lemma_segment_sound(m, pool, roots, e0, p4, b, seg);
                    let (m1, p1, r) = elf::load_one(m, pool, p4, b, seg);
                    if r is Ok {
                        lemma_headers_sound(m1, p1, roots, e0, p4, b, total, (n - 1) as nat);
                    }
                },
            }
        }
    }
}

/// Segments that keep to their own pages are written to no table.
proof fn lemma_headers_spare(
    m: Frames,
    pool: Set<u64>,
    roots: Set<u64>,
    e0: u64,
    p4: u64,
    b: Seq<u8>,
    total: int,
    n: nat,
)
    requires
        sound(m, pool, roots, e0),
        elf::frames_ok(pool),
        roots.contains(p4),
        elf::image_fits(b),
        n <= total == bytes::le16(b, 56),
    ensures
        headers_spare(m, pool, roots, e0, p4, b, total, n),
    decreases n,
{
    let off = elf::header_offset(b, total - n);
    if n > 0 && off + elf::PROGRAM_HEADER_SIZE <= b.len() {
        match elf::segment_at(b, off) {
            None => {
                lemma_headers_spare(m, pool, roots, e0, p4, b, total, (n - 1) as nat);
            },
            Some(seg) => {
                assert(elf::segment_at(b, elf::header_offset(b, total - n)) is Some);
                let (m1, p1, r) = elf::load_one(m, pool, p4, b, seg);
                if seg.vaddr + seg.memsz + 0xFFF <= u64::MAX {
                    let k = seg.pages() as nat;
                    let flags = mmu::leaf_flags(seg.writable, seg.executable);
                    lemma_pages_sound(
                        m,
                        pool,
                        roots,
                        e0,
                        p4,
                        seg.start(),
                        k,
                        seg.writable,
                        seg.executable,
                    );
                    let (m0, p0, r0) = elf::load_pages(m, pool, p4, seg.start(), k, flags);
                    if r0 is Ok && seg.offset + seg.filesz <= b.len() {
                        lemma_data_spares(
                            m0,
                            p0,
                            roots,
                            e0,
                            p4,
                            seg.vaddr as int,
                            seg.contents(b),
                        );
                    }
                }
                lemma_segment_sound(m, pool, roots, e0, p4, b, seg);
                if r is Ok {
                    lemma_headers_spare(m1, p1, roots, e0, p4, b, total, (n - 1) as nat);
                }
            },
        }
    }
}

/// The state with a new address space that shares the kernel entry and is empty
/// otherwise.
proof fn lemma_root_joins(
    m: Frames,
    pool: Set<u64>,
    roots: Set<u64>,
    e0: u64,
    cr3: u64,
)
    requires
        sound(m, pool, roots, e0),
        elf::frames_ok(pool),
        roots.contains(cr3),
        pool != Set::<u64>::empty(),
    ensures
        ({
            let root = pmm::lowest_frame(pool);
            &&& !roots.contains(root)
            &&& elf::frames_ok(pool.remove(root))
            &&& sound(elf::with_root(m, cr3, root), pool.remove(root), roots.insert(root), e0)
        }),
{
    let root = pmm::lowest_frame(pool);
    lemma_take_frame(m, pool, roots, e0, mem::zero_page());
    law_sound_spaces_are_usable(m, pool, roots, e0, cr3);
    assert(space_ok(m, pool, cr3, e0));
    assert(mmu::owns(m, root, 3, 1, root));
    assert(!roots.contains(root)) by {
        if roots.contains(root) {
            assert(space_ok(m, pool, root, e0));
        }
    }
    mmu::lemma_created_space(m, pool, cr3, root);
    let m0 = elf::with_root(m, cr3, root);
    let p0 = pool.remove(root);
    assert(m0.dom() =~= m.dom());
    assert(0u64 & 1 == 0) by (bit_vector);
    assert forall|i: int| 1 <= i < 512 implies !mmu::present(#[trigger] m0[root][i]) by {}
    lemma_join(m, pool, m0, p0, roots, e0, root);
}

/// An image whose segments keep to their own pages is written to no table.
pub proof fn law_fitting_images_spare_tables(
    m: Frames,
    pool: Set<u64>,
    roots: Set<u64>,
    e0: u64,
    cr3: u64,
    image: Seq<u8>,
)
    requires
        sound(m, pool, roots, e0),
        elf::frames_ok(pool),
        roots.contains(cr3),
        elf::image_fits(image),
    ensures
        image_spares(m, pool, roots, e0, cr3, image),
{
    if elf::header_error(image) is None && pool != Set::<u64>::empty() {
        let root = pmm::lowest_frame(pool);
        lemma_root_joins(m, pool, roots, e0, cr3);
        lemma_headers_spare(
            elf::with_root(m, cr3, root),
            pool.remove(root),
            roots.insert(root),
            e0,
            root,
            image,
            bytes::le16(image, 56),
            bytes::le16(image, 56) as nat,
        );
    }
}

/// Loading a program and its stack into a new address space keeps the others in
/// order, as long as the bytes of its segments go to no page table. The new one
/// joins them as soon as it has a root.
pub proof fn law_loading_keeps_spaces_sound(
    m: Frames,
    pool: Set<u64>,
    roots: Set<u64>,
    e0: u64,
    cr3: u64,
    image: Seq<u8>,
    stack_virt: u64,
)
    requires
        sound(m, pool, roots, e0),
        elf::frames_ok(pool),
        roots.contains(cr3),
        image_spares(m, pool, roots, e0, cr3, image),
    ensures
        ({
            let (m2, p2, r) = elf::prepared(m, pool, cr3, image, stack_virt);
            let root = pmm::lowest_frame(pool);
            &&& sound(m2, p2, roots, e0)
            &&& elf::frames_ok(p2)
            &&& r is Ok ==> !roots.contains(root) && sound(m2, p2, roots.insert(root), e0)
        }),
{
    let root = pmm::lowest_frame(pool);
    if elf::header_error(image) is None && pool != Set::<u64>::empty() {
        lemma_root_joins(m, pool, roots, e0, cr3);
        let m0 = elf::with_root(m, cr3, root);
        let p0 = pool.remove(root);
        let roots2 = roots.insert(root);
        lemma_headers_sound(
            m0,
            p0,
            roots2,
            e0,
            root,
            image,
            bytes::le16(image, 56),
            bytes::le16(image, 56) as nat,
        );
        let (m1, p1, r1) = elf::load_image(m, pool, cr3, image);
        lemma_fewer(m1, p1, roots, roots2, e0);
        if r1 is Ok && p1 != Set::<u64>::empty() {
            let stack = pmm::lowest_frame(p1);
            lemma_take_frame(m1, p1, roots2, e0, m1[stack]);
            assert(m1.insert(stack, m1[stack]) =~= m1);
            mmu::lemma_addr_of(stack);
            mmu::lemma_leaf_entry(stack, true, false);
            let entry = mmu::addr_of(stack) | mmu::leaf_flags(true, false);
            law_mapping_keeps_spaces_sound(
                m1,
                p1.remove(stack),
                roots2,
                e0,
                root,
                stack_virt,
                entry,
            );
            let (m3, p3) = mmu::map_memory(m1, p1.remove(stack), root, 3, stack_virt, entry);
            lemma_fewer(m3, p3, roots, roots2, e0);
            vstd::set_lib::lemma_set_subset_finite(p1.remove(stack), p3);
        }
    }
}

/// Leaving address spaces out of account keeps the rest in order.
proof fn lemma_fewer(m: Frames, pool: Set<u64>, fewer: Set<u64>, roots: Set<u64>, e0: u64)
    requires
        sound(m, pool, roots, e0),
        fewer.subset_of(roots),
    ensures
        sound(m, pool, fewer, e0),
{
}

} // verus!

//! The pages of a copied address space: all of them are different frames.
//!
//! A copy takes as many frames as its source has tables and pages. If two of its
//! pages shared a frame, or a page were one of its tables, fewer would do.
use vstd::prelude::*;
use crate::mmu::{self, Frames};
use crate::pmm;

verus! {

/// The frames of a table that are reached through its entries before `n`.
spec fn reached(m: Frames, table: u64, level: nat, first: int, n: int) -> Set<u64> {
    Set::new(
        |f: u64|
            f == table || exists|i: int|
                first <= i < n && mmu::entry_owns(m, #[trigger] m[table][i], level, f),
    )
}

/// The frames that belong to what an entry leads to.
spec fn behind(m: Frames, e: u64, level: nat) -> Set<u64> {
    Set::new(|f: u64| mmu::entry_owns(m, e, level, f))
}

/// Whether every frame of a table is reached in one way only: no two entries
/// before `n` lead to the same frame, none leads back to the table, and the
/// same holds of the tables that they lead to.
pub open spec fn reached_once(m: Frames, table: u64, level: nat, first: int, n: int) -> bool
    decreases level,
{
    &&& forall|i: int, j: int, f: u64|
        #![trigger mmu::entry_owns(m, m[table][i], level, f), mmu::entry_owns(m, m[table][j], level, f)]
        first <= i < n && first <= j < n && i != j && mmu::entry_owns(m, m[table][i], level, f)
            ==> !mmu::entry_owns(m, m[table][j], level, f)
    &&& forall|i: int|
        first <= i < n ==> !mmu::entry_owns(m, #[trigger] m[table][i], level, table)
    &&& level > 0 ==> forall|i: int|
        first <= i < n && mmu::links(#[trigger] m[table][i]) ==> reached_once(
            m,
            mmu::addr_of(m[table][i]),
            (level - 1) as nat,
            0,
            512,
        )
}

/// The frame behind an address that is mapped.
pub open spec fn frame_behind(m: Frames, table: u64, level: nat, v: u64) -> int {
    match mmu::lookup(m, table, level, v) {
        Some((a, _)) => a - v as int % 4096,
        None => 0,
    }
}

/// What a table reaches through all its entries is what it owns.
proof fn lemma_reached_all(m: Frames, table: u64, level: nat, first: int, f: u64)
    ensures
        reached(m, table, level, first, 512).contains(f) == mmu::owns(m, table, level, first, f),
{
    if f != table {
        if mmu::owns(m, table, level, first, f) {
            let i = choose|i: int|
                first <= i < 512 && mmu::present(#[trigger] m[table][i]) && if level == 0 {
                    f == mmu::addr_of(m[table][i])
                } else {
                    !mmu::huge(m[table][i]) && mmu::owns(
                        m,
                        mmu::addr_of(m[table][i]),
                        (level - 1) as nat,
                        0,
                        f,
                    )
                };
            assert(mmu::entry_owns(m, m[table][i], level, f));
        }
        if reached(m, table, level, first, 512).contains(f) {
            let i = choose|i: int|
                first <= i < 512 && mmu::entry_owns(m, #[trigger] m[table][i], level, f);
            assert(mmu::present(m[table][i]));
        }
    }
}

/// One more entry reaches what is behind it.
proof fn lemma_reached_next(m: Frames, table: u64, level: nat, first: int, n: int)
    requires
        first < n,
    ensures
        reached(m, table, level, first, n) == reached(m, table, level, first, n - 1).union(
            behind(m, m[table][n - 1], level),
        ),
{
    let a = reached(m, table, level, first, n);
    let b = reached(m, table, level, first, n - 1).union(behind(m, m[table][n - 1], level));
    assert forall|f: u64| a.contains(f) == b.contains(f) by {
        if f != table && a.contains(f) {
            let i = choose|i: int|
                first <= i < n && mmu::entry_owns(m, #[trigger] m[table][i], level, f);
            if i < n - 1 {
                assert(reached(m, table, level, first, n - 1).contains(f));
            }
        }
        if b.contains(f) && f != table {
            if behind(m, m[table][n - 1], level).contains(f) {
                assert(mmu::entry_owns(m, m[table][n - 1], level, f));
            } else {
                let i = choose|i: int|
                    first <= i < n - 1 && mmu::entry_owns(m, #[trigger] m[table][i], level, f);
                assert(mmu::entry_owns(m, m[table][i], level, f));
            }
        }
    }
    assert(a =~= b);
}

/// What is behind an entry: nothing, one page, or what a table reaches.
proof fn lemma_behind(m: Frames, e: u64, level: nat)
    ensures
        behind(m, e, level) == if !mmu::present(e) {
            Set::<u64>::empty()
        } else if level == 0 {
            Set::<u64>::empty().insert(mmu::addr_of(e))
        } else if mmu::huge(e) {
            Set::<u64>::empty()
        } else {
            reached(m, mmu::addr_of(e), (level - 1) as nat, 0, 512)
        },
{
    if mmu::links(e) && level > 0 {
        assert forall|f: u64| behind(m, e, level).contains(f) == reached(
            m,
            mmu::addr_of(e),
            (level - 1) as nat,
            0,
            512,
        ).contains(f) by {
            lemma_reached_all(m, mmu::addr_of(e), (level - 1) as nat, 0, f);
        }
        assert(behind(m, e, level) =~= reached(m, mmu::addr_of(e), (level - 1) as nat, 0, 512));
    } else if mmu::present(e) && level == 0 {
        assert(behind(m, e, level) =~= Set::<u64>::empty().insert(mmu::addr_of(e)));
    } else {
        assert(behind(m, e, level) =~= Set::<u64>::empty());
    }
}

/// A table reaches at most as many frames as it has tables and pages. Where it
/// reaches that many, each is reached once.
proof fn lemma_count(m: Frames, table: u64, level: nat, first: int, n: int, all: Set<u64>)
    requires
        0 <= first,
        all.finite(),
        reached(m, table, level, first, n).subset_of(all),
    ensures
        reached(m, table, level, first, n).finite(),
        reached(m, table, level, first, n).len() <= 1 + mmu::frames_below(
            m,
            table,
            level,
            first,
            n,
        ),
        reached(m, table, level, first, n).len() == 1 + mmu::frames_below(
            m,
            table,
            level,
            first,
            n,
        ) ==> reached_once(m, table, level, first, n),
    decreases level, n,
{
    let all_here = reached(m, table, level, first, n);
    vstd::set_lib::lemma_set_subset_finite(all, all_here);
    if n <= first || n <= 0 {
        assert(all_here =~= Set::<u64>::empty().insert(table));
    } else {
        let e = m[table][n - 1];
        let before = reached(m, table, level, first, n - 1);
        let here = behind(m, e, level);
        lemma_reached_next(m, table, level, first, n);
        lemma_behind(m, e, level);
        assert(before.subset_of(all));
        assert(here.subset_of(all));
        lemma_count(m, table, level, first, n - 1, all);
        if mmu::links(e) && level > 0 {
            lemma_count(m, mmu::addr_of(e), (level - 1) as nat, 0, 512, all);
        }
        vstd::set_lib::lemma_set_subset_finite(all, here);
        vstd::set_lib::lemma_set_intersect_union_lens(before, here);
        let bound = 1 + mmu::frames_below(m, table, level, first, n);
        if all_here.len() == bound {
            assert(before.intersect(here).len() == 0);
            assert forall|f: u64| !(before.contains(f) && here.contains(f)) by {
                if before.contains(f) && here.contains(f) {
                    assert(before.intersect(here).contains(f));
                    vstd::set_lib::lemma_set_subset_finite(before, before.intersect(here));
                    assert(before.intersect(here) =~= Set::<u64>::empty());
                }
            }
            assert(reached_once(m, table, level, first, n - 1));
            assert(before.contains(table));
            assert(!here.contains(table));
            assert forall|i: int, j: int, f: u64|
                #![trigger mmu::entry_owns(m, m[table][i], level, f), mmu::entry_owns(m, m[table][j], level, f)]
                first <= i < n && first <= j < n && i != j && mmu::entry_owns(
                    m,
                    m[table][i],
                    level,
                    f,
                ) implies !mmu::entry_owns(m, m[table][j], level, f) by {
                if i < n - 1 {
                    assert(before.contains(f));
                }
                if mmu::entry_owns(m, m[table][j], level, f) && j < n - 1 {
                    assert(before.contains(f));
                }
                if i == n - 1 {
                    assert(here.contains(f));
                }
                if mmu::entry_owns(m, m[table][j], level, f) && j == n - 1 {
                    assert(here.contains(f));
                }
            }
            assert forall|i: int| first <= i < n implies !mmu::entry_owns(
                m,
                #[trigger] m[table][i],
                level,
                table,
            ) by {
                if i == n - 1 && mmu::entry_owns(m, m[table][i], level, table) {
                    assert(here.contains(table));
                }
            }
        }
    }
}

/// A copy has as many tables and pages as its source.
proof fn lemma_copy_frames(
    m: Frames,
    src: u64,
    c: Frames,
    dst: u64,
    level: nat,
    first: int,
    n: int,
)
    requires
        0 <= first,
        n <= 512,
        mmu::copy_of(m, src, c, dst, level, first),
    ensures
        mmu::frames_below(c, dst, level, first, n) == mmu::frames_below(m, src, level, first, n),
    decreases level, n,
{
    if n > first && n > 0 {
        assert(0u64 & 1 == 0) by (bit_vector);
        let e = m[src][n - 1];
        let d = c[dst][n - 1];
        lemma_copy_frames(m, src, c, dst, level, first, n - 1);
        if mmu::links(e) && level > 0 {
            lemma_copy_frames(
                m,
                mmu::addr_of(e),
                c,
                mmu::addr_of(d),
                (level - 1) as nat,
                0,
                512,
            );
        }
    }
}

/// The frame behind an address that no huge page maps belongs to the entry that
/// leads to it.
proof fn lemma_frame_owned(m: Frames, table: u64, level: nat, v: u64)
    requires
        mmu::lookup(m, table, level, v) is Some,
        !mmu::blocked(m, table, level, v),
        !mmu::splits(m, table, level, v),
        level <= 3,
    ensures
        0 <= mmu::index(v, level) < 512,
        frame_behind(m, table, level, v) <= u64::MAX,
        frame_behind(m, table, level, v) >= 0,
        mmu::entry_owns(
            m,
            m[table][mmu::index(v, level)],
            level,
            (frame_behind(m, table, level, v)) as u64,
        ),
    decreases level,
{
    let i = mmu::index(v, level);
    let e = m[table][i];
    if level > 0 {
        let next = mmu::addr_of(e);
        let l1 = (level - 1) as nat;
        lemma_frame_owned(m, next, l1, v);
        let f = (frame_behind(m, table, level, v)) as u64;
        let k = mmu::index(v, l1);
        assert(mmu::entry_owns(m, m[next][k], l1, f));
        lemma_reached_all(m, next, l1, 0, f);
        assert(reached(m, next, l1, 0, 512).contains(f));
    }
}

/// Where every frame is reached once, one frame is one page.
proof fn lemma_one_page_each(m: Frames, table: u64, level: nat, first: int, a: u64, b: u64)
    requires
        level <= 3,
        0 <= first <= mmu::index(a, level),
        first <= mmu::index(b, level),
        reached_once(m, table, level, first, 512),
        mmu::lookup(m, table, level, a) is Some,
        mmu::lookup(m, table, level, b) is Some,
        !mmu::blocked(m, table, level, a) && !mmu::splits(m, table, level, a),
        !mmu::blocked(m, table, level, b) && !mmu::splits(m, table, level, b),
        frame_behind(m, table, level, a) == frame_behind(m, table, level, b),
    ensures
        mmu::same_page(a, b, level),
    decreases level,
{
    lemma_frame_owned(m, table, level, a);
    lemma_frame_owned(m, table, level, b);
    let (i, j) = (mmu::index(a, level), mmu::index(b, level));
    let f = (frame_behind(m, table, level, a)) as u64;
    if i != j {
        assert(mmu::entry_owns(m, m[table][i], level, f));
        assert(mmu::entry_owns(m, m[table][j], level, f));
    } else if level > 0 {
        assert(0 <= mmu::index(a, (level - 1) as nat));
        assert(0 <= mmu::index(b, (level - 1) as nat));
        assert(mmu::links(m[table][i]));
        lemma_one_page_each(m, mmu::addr_of(m[table][i]), (level - 1) as nat, 0, a, b);
    }
}

/// No two private pages of a copied address space share a frame, and none of
/// them is one of its tables: every frame that it owns is reached in one way only.
pub proof fn law_clone_pages_are_distinct(
    m: Frames,
    pool: Set<u64>,
    c: Frames,
    rest: Set<u64>,
    src: u64,
    p4: u64,
)
    requires
        pool.finite(),
        mmu::copy_of(m, src, c, p4, 3, 1),
        forall|f: u64| #[trigger]
            mmu::owns(c, p4, 3, 1, f) <==> pool.contains(f) && !rest.contains(f),
        pmm::takes_lowest(pool, rest, 1 + mmu::frames_below(m, src, 3, 1, 512)),
    ensures
        reached_once(c, p4, 3, 1, 512),
        forall|a: u64, b: u64|
            #![trigger mmu::lookup(c, p4, 3, a), mmu::lookup(c, p4, 3, b)]
            mmu::index(a, 3) > 0 && mmu::index(b, 3) > 0 && mmu::lookup(c, p4, 3, a) is Some
                && mmu::lookup(c, p4, 3, b) is Some && !mmu::blocked(c, p4, 3, a) && !mmu::splits(
                c,
                p4,
                3,
                a,
            ) && !mmu::blocked(c, p4, 3, b) && !mmu::splits(c, p4, 3, b) && frame_behind(c, p4, 3, a) == frame_behind(c, p4, 3, b)
                ==> mmu::same_page(a, b, 3),
{
    let taken = pool.difference(rest);
    let owned = reached(c, p4, 3, 1, 512);
    assert forall|f: u64| owned.contains(f) == taken.contains(f) by {
        lemma_reached_all(c, p4, 3, 1, f);
    }
    assert(owned =~= taken);
    vstd::set_lib::lemma_set_subset_finite(pool, taken);
    vstd::set_lib::lemma_set_subset_finite(pool, rest);
    vstd::set_lib::lemma_set_disjoint_lens(taken, rest);
    assert(taken.union(rest) =~= pool);
    lemma_copy_frames(m, src, c, p4, 3, 1, 512);
    lemma_count(c, p4, 3, 1, 512, pool);
    assert forall|a: u64, b: u64|
        #![trigger mmu::lookup(c, p4, 3, a), mmu::lookup(c, p4, 3, b)]
        mmu::index(a, 3) > 0 && mmu::index(b, 3) > 0 && mmu::lookup(c, p4, 3, a) is Some
            && mmu::lookup(c, p4, 3, b) is Some && !mmu::blocked(c, p4, 3, a) && !mmu::splits(
            c,
            p4,
            3,
            a,
        ) && !mmu::blocked(c, p4, 3, b) && !mmu::splits(c, p4, 3, b) && frame_behind(c, p4, 3, a) == frame_behind(c, p4, 3, b) implies mmu::same_page(a, b, 3) by {
        lemma_one_page_each(c, p4, 3, 1, a, b);
    }
}

} // verus!

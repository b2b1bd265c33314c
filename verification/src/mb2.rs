//! The information that a Multiboot2 boot loader leaves in memory: a size,
//! then tags of different types, each aligned to 8 bytes.
use vstd::prelude::*;
use crate::bytes;

verus! {

pub const TAG_END: u32 = 0;

pub const TAG_MEMORY_MAP: u32 = 6;

pub const TAG_FRAMEBUFFER: u32 = 8;

/// Kind of a region of ordinary memory. All other kinds are taken.
pub const MEM_AVAILABLE: u32 = 1;

/// A region of the memory map.
#[derive(Clone, Copy, PartialEq, Eq, Debug, Structural)]
pub struct Region {
    pub base: u64,
    pub length: u64,
    pub kind: u32,
}

/// Bytes between two places.
pub open spec fn left(from: int, to: int) -> nat {
    if from < to {
        (to - from) as nat
    } else {
        0
    }
}

/// Where the tags end: at the stated size, or with the bytes at hand.
pub open spec fn info_end(b: Seq<u8>) -> int {
    if b.len() < 8 {
        0
    } else if bytes::le32(b, 0) <= b.len() {
        bytes::le32(b, 0)
    } else {
        b.len() as int
    }
}

/// Whether a tag that is not the last one starts at `at`. A tag without size
/// would never end: it counts as the last one.
pub open spec fn has_tag(b: Seq<u8>, at: int) -> bool {
    &&& at + 8 <= info_end(b)
    &&& bytes::le32(b, at) != TAG_END
    &&& bytes::le32(b, at + 4) != 0
}

/// Where the tag after the one at `at` starts.
pub open spec fn next_tag(b: Seq<u8>, at: int) -> int {
    at + (bytes::le32(b, at + 4) + 7) / 8 * 8
}

pub open spec fn region_at(b: Seq<u8>, e: int) -> Region {
    Region {
        base: bytes::le64(b, e) as u64,
        length: bytes::le64(b, e + 8) as u64,
        kind: bytes::le32(b, e + 16) as u32,
    }
}

/// The entries of a memory map from `e` to `end`, `step` bytes apart.
pub open spec fn map_entries(b: Seq<u8>, e: int, end: int, step: int) -> Seq<Region>
    decreases left(e, end),
{
    if step <= 0 || e >= end || e + 20 > b.len() {
        Seq::empty()
    } else {
        seq![region_at(b, e)] + map_entries(b, e + step, end, step)
    }
}

/// The regions that the tag at `at` lists.
pub open spec fn tag_regions(b: Seq<u8>, at: int) -> Seq<Region> {
    if bytes::le32(b, at) == TAG_MEMORY_MAP && at + 16 <= b.len() {
        map_entries(b, at + 16, at + bytes::le32(b, at + 4), bytes::le32(b, at + 8))
    } else {
        Seq::empty()
    }
}

/// The regions that the tags from `at` on list.
pub open spec fn regions_from(b: Seq<u8>, at: int) -> Seq<Region>
    decreases left(at, info_end(b)),
{
    if has_tag(b, at) && at >= 0 && next_tag(b, at) > at {
        tag_regions(b, at) + regions_from(b, next_tag(b, at))
    } else {
        Seq::empty()
    }
}

/// The memory map of the boot information.
pub open spec fn memory_map(b: Seq<u8>) -> Seq<Region> {
    regions_from(b, 8)
}

/// End of the tags.
pub fn tags_end(info: &[u8]) -> (r: usize)
    ensures
        r == info_end(info@),
        r <= info@.len(),
{
    if info.len() < 8 {
        return 0;
    }
    let total = bytes::u32_at(info, 0) as u64;
    if total <= info.len() as u64 {
        total as usize
    } else {
        info.len()
    }
}

/// Adds the entries of a memory map to `out`.
fn push_entries(info: &[u8], start: u64, end: u64, step: u32, out: &mut Vec<Region>)
    requires
        end <= 0x1_0000_0000_0000_0000 - 0x1_0000_0000,
    ensures
        final(out)@ == old(out)@ + map_entries(info@, start as int, end as int, step as int),
{
    let mut e = start;
    let len = info.len() as u64;
    assert(out@ + map_entries(info@, e as int, end as int, step as int) =~= old(out)@ + map_entries(
        info@,
        start as int,
        end as int,
        step as int,
    ));
    while step > 0 && e < end && len >= 20 && e <= len - 20
        invariant
            len == info@.len(),
            end <= 0x1_0000_0000_0000_0000 - 0x1_0000_0000,
            out@ + map_entries(info@, e as int, end as int, step as int) == old(out)@ + map_entries(
                info@,
                start as int,
                end as int,
                step as int,
            ),
        decreases left(e as int, end as int),
    {
        let limit = info.len();
        let i = e as usize;
        let region = Region {
            base: bytes::u64_at(info, i),
            length: bytes::u64_at(info, i + 8),
            kind: bytes::u32_at(info, i + 16),
        };
        assert(region == region_at(info@, e as int));
        let ghost before = out@;
        out.push(region);
        assert(out@ + map_entries(info@, e + step, end as int, step as int) =~= before
            + map_entries(info@, e as int, end as int, step as int));
        e = e + step as u64;
    }
    assert(map_entries(info@, e as int, end as int, step as int) =~= Seq::<Region>::empty());
    assert(out@ =~= out@ + map_entries(info@, e as int, end as int, step as int));
}

/// Where the next tag starts.
pub fn tag_after(at: u64, size: u32) -> (r: u64)
    requires
        at <= 0x1_0000_0000_0000_0000 - 0x2_0000_0000,
    ensures
        r == at + (size + 7) / 8 * 8,
        r >= at + size,
{
    at + (size as u64 + 7) / 8 * 8
}

/// All regions of the memory map, in order. Those of kind [`MEM_AVAILABLE`] are
/// free memory; what to do with the others is up to the caller.
pub fn for_each_memory_region(info: &[u8]) -> (r: Vec<Region>)
    ensures
        r@ == memory_map(info@),
{
    let end = tags_end(info) as u64;
    let mut out: Vec<Region> = Vec::new();
    let mut at: u64 = 8;
    assert(out@ + regions_from(info@, 8) =~= regions_from(info@, 8));
    while end >= 8 && at <= end - 8
        invariant
            8 <= at,
            end == info_end(info@),
            end <= info@.len(),
            end <= u32::MAX,
            out@ + regions_from(info@, at as int) == memory_map(info@),
        decreases left(at as int, end as int),
    {
        let limit = info.len();
        let i = at as usize;
        let tag_type = bytes::u32_at(info, i);
        let size = bytes::u32_at(info, i + 4);
        if tag_type == TAG_END || size == 0 {
            assert(!has_tag(info@, at as int));
            assert(out@ + Seq::<Region>::empty() =~= out@);
            return out;
        }
        let ghost before = out@;
        if tag_type == TAG_MEMORY_MAP && info.len() >= 16 && i <= info.len() - 16 {
            let step = bytes::u32_at(info, i + 8);
            push_entries(info, at + 16, at + size as u64, step, &mut out);
        } else {
            assert(out@ =~= out@ + tag_regions(info@, at as int));
        }
        let next = tag_after(at, size);
        assert(out@ == before + tag_regions(info@, at as int));
        assert(out@ + regions_from(info@, next as int) =~= before + regions_from(
            info@,
            at as int,
        ));
        at = next;
    }
    assert(!has_tag(info@, at as int));
    assert(out@ + Seq::<Region>::empty() =~= out@);
    out
}

// --- laws --------------------------------------------------------------------------

/// Boot information as a chain of tags: `tags` are the places where they start, the
/// first at 8, each further one at the first multiple of 8 at or behind the end of
/// the one before. The last one ends the chain. A memory map holds whole entries.
/// `before[i]` is how many entries the memory maps before tag `i` hold.
pub open spec fn laid_out(b: Seq<u8>, tags: Seq<int>, before: Seq<int>) -> bool {
    &&& 8 <= bytes::le32(b, 0) <= b.len()
    &&& tags.len() > 0
    &&& tags.len() == before.len()
    &&& tags[0] == 8
    &&& before[0] == 0
    &&& tags.last() + 8 <= bytes::le32(b, 0)
    &&& bytes::le32(b, tags.last()) == 0
    &&& forall|i: int|
        #![trigger tags[i]]
        0 <= i < tags.len() - 1 ==> {
            let (t, size, step) = (
                tags[i],
                bytes::le32(b, tags[i] + 4),
                bytes::le32(b, tags[i] + 8),
            );
            &&& bytes::le32(b, t) != 0
            &&& size >= 8
            &&& tags[i + 1] % 8 == 0
            &&& t + size <= tags[i + 1] < t + size + 8
            &&& t + size <= b.len()
            &&& bytes::le32(b, t) == 6 ==> size >= 16 && step >= 20 && (size - 16) % step == 0
            &&& before[i + 1] == before[i] + if bytes::le32(b, t) == 6 {
                (size - 16) / step
            } else {
                0
            }
        }
}

/// Every entry of every memory map of a chain of tags is a region, in order and
/// none else, whatever the other tags are and however long: entry `k` of tag `i`
/// has its base in the eight bytes at its start, its length in the next eight, its
/// kind in the next four.
pub proof fn law_every_entry_is_a_region(b: Seq<u8>, tags: Seq<int>, before: Seq<int>)
    requires
        laid_out(b, tags, before),
    ensures
        memory_map(b).len() == before.last(),
        forall|i: int, k: int|
            #![trigger memory_map(b)[before[i] + k]]
            0 <= i < tags.len() - 1 && bytes::le32(b, tags[i]) == 6 && 0 <= k < (bytes::le32(
                b,
                tags[i] + 4,
            ) - 16) / bytes::le32(b, tags[i] + 8) ==> {
                let e = tags[i] + 16 + k * bytes::le32(b, tags[i] + 8);
                let region = memory_map(b)[before[i] + k];
                &&& region.base == bytes::le64(b, e)
                &&& region.length == bytes::le64(b, e + 8)
                &&& region.kind == bytes::le32(b, e + 16)
            },
{
    lemma_total(b, tags, before, 0);
    assert forall|i: int, k: int|
        #![trigger memory_map(b)[before[i] + k]]
        0 <= i < tags.len() - 1 && bytes::le32(b, tags[i]) == 6 && 0 <= k < (bytes::le32(
            b,
            tags[i] + 4,
        ) - 16) / bytes::le32(b, tags[i] + 8) implies {
        let e = tags[i] + 16 + k * bytes::le32(b, tags[i] + 8);
        let region = memory_map(b)[before[i] + k];
        &&& region.base == bytes::le64(b, e)
        &&& region.length == bytes::le64(b, e + 8)
        &&& region.kind == bytes::le32(b, e + 16)
    } by {
        lemma_entry_of(b, tags, before, 0, i, k);
    }
}

/// Entries that are apart by `step` from `e` to `end`.
proof fn lemma_entries(b: Seq<u8>, e: int, end: int, step: int)
    requires
        0 <= e <= end <= b.len(),
        step >= 20,
        (end - e) % step == 0,
    ensures
        map_entries(b, e, end, step).len() == (end - e) / step,
        forall|k: int|
            0 <= k < (end - e) / step ==> #[trigger] map_entries(b, e, end, step)[k] == region_at(
                b,
                e + k * step,
            ),
    decreases end - e,
{
    let n = (end - e) / step;
    vstd::arithmetic::div_mod::lemma_fundamental_div_mod(end - e, step);
    if e < end {
        assert(n >= 1) by (nonlinear_arith)
            requires
                end - e == step * n,
                end > e,
                step > 0,
        ;
        assert(step * n == step * (n - 1) + step) by (nonlinear_arith);
        assert(step * (n - 1) >= 0) by (nonlinear_arith)
            requires
                n >= 1,
                step > 0,
        ;
        assert(end - (e + step) == (n - 1) * step) by (nonlinear_arith)
            requires
                end - e == step * n,
        ;
        vstd::arithmetic::div_mod::lemma_div_multiples_vanish(n - 1, step);
        vstd::arithmetic::div_mod::lemma_mod_multiples_basic(n - 1, step);
        assert(step * (n - 1) == (n - 1) * step) by (nonlinear_arith);
        lemma_entries(b, e + step, end, step);
        let rest = map_entries(b, e + step, end, step);
        assert forall|k: int| 0 <= k < n implies #[trigger] map_entries(b, e, end, step)[k]
            == region_at(b, e + k * step) by {
            assert(step * n >= step) by (nonlinear_arith)
                requires
                    n >= 1,
                    step > 0,
            ;
            assert(map_entries(b, e, end, step) == seq![region_at(b, e)] + rest);
            if k == 0 {
                assert(0 * step == 0);
            } else {
                assert(map_entries(b, e, end, step)[k] == rest[k - 1]);
                assert(e + step + (k - 1) * step == e + k * step) by (nonlinear_arith);
            }
        }
    } else {
        assert(n == 0) by (nonlinear_arith)
            requires
                0 == step * n,
                step > 0,
        ;
    }
}

/// A tag of the chain: its entries, and the ones behind it.
proof fn lemma_tag(b: Seq<u8>, tags: Seq<int>, before: Seq<int>, i: int)
    requires
        laid_out(b, tags, before),
        0 <= i < tags.len() - 1,
    ensures
        regions_from(b, tags[i]) == tag_regions(b, tags[i]) + regions_from(b, tags[i + 1]),
        tag_regions(b, tags[i]).len() == before[i + 1] - before[i],
        bytes::le32(b, tags[i]) == 6 ==> forall|k: int|
            0 <= k < (bytes::le32(b, tags[i] + 4) - 16) / bytes::le32(b, tags[i] + 8)
                ==> #[trigger] tag_regions(b, tags[i])[k] == region_at(
                b,
                tags[i] + 16 + k * bytes::le32(b, tags[i] + 8),
            ),
{
    lemma_places(b, tags, before, i);
    lemma_rising(b, tags, before, i);
    let (t, size, step) = (tags[i], bytes::le32(b, tags[i] + 4), bytes::le32(b, tags[i] + 8));
    let kind = bytes::le32(b, t);
    let next = tags[i + 1];
    assert(next % 8 == 0 && t + size <= next < t + size + 8);
    lemma_next(t, size, next);
    assert(next_tag(b, t) == next);
    assert(has_tag(b, t));
    if kind == 6 {
        lemma_entries(b, t + 16, t + size, step);
        assert(tag_regions(b, t) == map_entries(b, t + 16, t + size, step));
    } else {
        assert(tag_regions(b, t) == Seq::<Region>::empty());
    }
}

pub proof fn lemma_next(t: int, size: int, next: int)
    requires
        t % 8 == 0,
        next % 8 == 0,
        0 <= size,
        t + size <= next < t + size + 8,
    ensures
        t + (size + 7) / 8 * 8 == next,
{
}

proof fn lemma_total(b: Seq<u8>, tags: Seq<int>, before: Seq<int>, i: int)
    requires
        laid_out(b, tags, before),
        0 <= i < tags.len(),
    ensures
        regions_from(b, tags[i]).len() == before.last() - before[i],
    decreases tags.len() - i,
{
    if i < tags.len() - 1 {
        lemma_tag(b, tags, before, i);
        lemma_total(b, tags, before, i + 1);
    } else {
        assert(!has_tag(b, tags[i]));
    }
}

proof fn lemma_entry_of(b: Seq<u8>, tags: Seq<int>, before: Seq<int>, i: int, j: int, k: int)
    requires
        laid_out(b, tags, before),
        0 <= i <= j < tags.len() - 1,
        bytes::le32(b, tags[j]) == 6,
        0 <= k < (bytes::le32(b, tags[j] + 4) - 16) / bytes::le32(b, tags[j] + 8),
    ensures
        before[i] <= before[j],
        regions_from(b, tags[i])[before[j] - before[i] + k] == region_at(
            b,
            tags[j] + 16 + k * bytes::le32(b, tags[j] + 8),
        ),
    decreases j - i,
{
    lemma_tag(b, tags, before, i);
    lemma_count(b, tags, before, j);
    lemma_total(b, tags, before, i + 1);
    let here = tag_regions(b, tags[i]);
    let rest = regions_from(b, tags[i + 1]);
    if j > i {
        lemma_entry_of(b, tags, before, i + 1, j, k);
        assert((here + rest)[before[j] - before[i] + k] == rest[before[j] - before[i + 1] + k]);
    } else {
        assert((here + rest)[k] == here[k]);
    }
}

/// The tags lie one behind the other.
pub proof fn lemma_rising(b: Seq<u8>, tags: Seq<int>, before: Seq<int>, i: int)
    requires
        laid_out(b, tags, before),
        0 <= i < tags.len(),
    ensures
        tags[i] <= tags.last(),
    decreases tags.len() - i,
{
    if i < tags.len() - 1 {
        assert(tags[i] < tags[i + 1]);
        lemma_rising(b, tags, before, i + 1);
    }
}

/// A tag holds as many entries as the ones from it on at most.
proof fn lemma_count(b: Seq<u8>, tags: Seq<int>, before: Seq<int>, j: int)
    requires
        laid_out(b, tags, before),
        0 <= j < tags.len() - 1,
    ensures
        before[j] <= before[j + 1] <= before.last(),
        bytes::le32(b, tags[j]) == 6 ==> before[j + 1] == before[j] + (bytes::le32(b, tags[j] + 4)
            - 16) / bytes::le32(b, tags[j] + 8),
    decreases tags.len() - j,
{
    let (t, size, step) = (tags[j], bytes::le32(b, tags[j] + 4), bytes::le32(b, tags[j] + 8));
    if bytes::le32(b, t) == 6 {
        vstd::arithmetic::div_mod::lemma_div_pos_is_pos(size - 16, step);
    }
    if j + 1 < tags.len() - 1 {
        lemma_count(b, tags, before, j + 1);
    }
}

pub proof fn lemma_places(b: Seq<u8>, tags: Seq<int>, before: Seq<int>, i: int)
    requires
        laid_out(b, tags, before),
        0 <= i < tags.len(),
    ensures
        tags[i] >= 8,
        tags[i] % 8 == 0,
    decreases i,
{
    if i > 0 {
        lemma_places(b, tags, before, i - 1);
        assert(tags[i - 1 + 1] == tags[i]);
    }
}

} // verus!

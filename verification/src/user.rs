//! Access to the memory of a process through its own addresses.
use vstd::prelude::*;
use crate::mem::{self, PhysMemory};
use crate::mmu::{self, Frames};

verus! {

/// The frame and the offset in it behind address `v`. `None` if the address is
/// not mapped, or not to memory.
pub open spec fn place(m: Frames, root: u64, v: int) -> Option<(u64, int)> {
    if 0 <= v <= u64::MAX {
        match mmu::lookup(m, root, 3, v as u64) {
            Some((a, _)) => if a <= u64::MAX && m.contains_key((a - a % 4096) as u64) {
                Some(((a - a % 4096) as u64, a % 4096))
            } else {
                None
            },
            None => None,
        }
    } else {
        None
    }
}

/// The byte at address `v`.
pub open spec fn byte_at(m: Frames, root: u64, v: int) -> Option<u8> {
    match place(m, root, v) {
        Some((f, off)) => Some(mem::page_byte(m[f], off)),
        None => None,
    }
}

/// Memory with byte `b` stored at a place.
pub open spec fn poke(m: Frames, at: (u64, int), b: u8) -> Frames {
    m.insert(at.0, mem::page_with(m[at.0], at.1, seq![b]))
}

fn find(mem: &PhysMemory, root: u64, v: u64) -> (r: Option<(u64, usize)>)
    requires
        mem.wf(),
        mmu::wf_tree(mem@, root, 3),
    ensures
        match place(mem@, root, v as int) {
            Some((f, off)) => r matches Some((f2, off2)) && f2 == f && off2 == off && off < 4096
                && mem@.contains_key(f),
            None => r is None,
        },
{
    match mmu::translate(mem, root, v) {
        Some(a) => {
            let f = a - a % 4096;
            if mem.contains(f) {
                Some((f, (a % 4096) as usize))
            } else {
                None
            }
        },
        None => None,
    }
}

/// Reads the byte at address `v`. `None` if there is no memory there.
pub fn read_byte(mem: &PhysMemory, root: u64, v: u64) -> (r: Option<u8>)
    requires
        mem.wf(),
        mmu::wf_tree(mem@, root, 3),
    ensures
        r == byte_at(mem@, root, v as int),
{
    match find(mem, root, v) {
        Some((f, off)) => Some(mem.read_byte(f, off)),
        None => None,
    }
}

/// The four bytes of `value`, least significant first.
pub open spec fn i32_bytes(value: i32) -> Seq<u8> {
    let u: int = if value < 0 {
        value + 0x1_0000_0000
    } else {
        value as int
    };
    seq![
        (u % 0x100) as u8,
        ((u / 0x100) % 0x100) as u8,
        ((u / 0x1_0000) % 0x100) as u8,
        ((u / 0x100_0000) % 0x100) as u8,
    ]
}

/// Memory after storing `value` at address `v`. `None` if one of its four bytes
/// has no memory.
pub open spec fn store_i32(m: Frames, root: u64, v: int, value: i32) -> Option<Frames> {
    match (place(m, root, v), place(m, root, v + 1), place(m, root, v + 2), place(m, root, v + 3)) {
        (Some(p0), Some(p1), Some(p2), Some(p3)) => {
            let b = i32_bytes(value);
            Some(poke(poke(poke(poke(m, p0, b[0]), p1, b[1]), p2, b[2]), p3, b[3]))
        },
        _ => None,
    }
}

fn put(mem: &mut PhysMemory, f: u64, off: usize, b: u8)
    requires
        old(mem).wf(),
        old(mem)@.contains_key(f),
        off < 4096,
    ensures
        final(mem).wf(),
        final(mem)@ == poke(old(mem)@, (f, off as int), b),
        forall|g: u64| #[trigger] final(mem)@.contains_key(g) == old(mem)@.contains_key(g),
{
    let one = [b];
    assert(one@ =~= seq![b]);
    mem.write_bytes(f, off, &one);
}

/// Stores a number of 32 bits at address `v`. `false`, and nothing changes, if
/// one of its bytes has no memory.
pub fn write_i32(mem: &mut PhysMemory, root: u64, v: u64, value: i32) -> (r: bool)
    requires
        old(mem).wf(),
        mmu::wf_tree(old(mem)@, root, 3),
    ensures
        final(mem).wf(),
        r == (store_i32(old(mem)@, root, v as int, value) is Some),
        final(mem)@ == match store_i32(old(mem)@, root, v as int, value) {
            Some(m) => m,
            None => old(mem)@,
        },
{
    if v > u64::MAX - 3 {
        return false;
    }
    let u: u32 = if value < 0 {
        (value as i64 + 0x1_0000_0000) as u32
    } else {
        value as u32
    };
    match (find(mem, root, v), find(mem, root, v + 1), find(mem, root, v + 2), find(mem, root, v + 3)) {
        (Some((f0, o0)), Some((f1, o1)), Some((f2, o2)), Some((f3, o3))) => {
            put(mem, f0, o0, (u % 0x100) as u8);
            put(mem, f1, o1, ((u / 0x100) % 0x100) as u8);
            put(mem, f2, o2, ((u / 0x1_0000) % 0x100) as u8);
            put(mem, f3, o3, ((u / 0x100_0000) % 0x100) as u8);
            true
        },
        _ => false,
    }
}

/// Longest name that [`read_name`] reads.
pub const NAME_MAX: usize = 64;

/// The bytes from address `v` on, up to a zero or [`NAME_MAX`] of them, after
/// the ones in `got`. `None` if an address on the way has no memory.
pub open spec fn name_from(m: Frames, root: u64, v: int, got: Seq<u8>) -> Option<Seq<u8>>
    decreases NAME_MAX - got.len(),
{
    if got.len() >= NAME_MAX {
        Some(got)
    } else {
        match byte_at(m, root, v + got.len()) {
            None => None,
            Some(b) => if b == 0 {
                Some(got)
            } else {
                name_from(m, root, v, got.push(b))
            },
        }
    }
}

/// Reads a zero-terminated name. `None` if it runs into an address without
/// memory.
pub fn read_name(mem: &PhysMemory, root: u64, v: u64) -> (r: Option<Vec<u8>>)
    requires
        mem.wf(),
        mmu::wf_tree(mem@, root, 3),
    ensures
        match name_from(mem@, root, v as int, Seq::empty()) {
            Some(name) => r matches Some(n) && n@ == name,
            None => r is None,
        },
{
    let mut name: Vec<u8> = Vec::new();
    assert(name@ =~= Seq::<u8>::empty());
    while name.len() < NAME_MAX
        invariant
            name@.len() <= NAME_MAX,
            mem.wf(),
            mmu::wf_tree(mem@, root, 3),
            name_from(mem@, root, v as int, name@) == name_from(
                mem@,
                root,
                v as int,
                Seq::empty(),
            ),
        decreases NAME_MAX - name@.len(),
    {
        let off = name.len() as u64;
        if v > u64::MAX - off {
            return None;
        }
        match read_byte(mem, root, v + off) {
            None => {
                return None;
            },
            Some(b) => {
                if b == 0 {
                    return Some(name);
                }
                name.push(b);
            },
        }
    }
    Some(name)
}

// --- laws --------------------------------------------------------------------------

/// A byte of a process is the byte of the frame that its page is mapped to, at the
/// same place in the page.
pub proof fn law_byte_is_behind_its_page(m: Frames, root: u64, v: u64, frame: u64, flags: u64)
    requires
        frame % 4096 == 0,
        m.contains_key(frame),
        mmu::lookup(m, root, 3, v) == Some((frame + v % 4096, flags)),
    ensures
        byte_at(m, root, v as int) == Some(mem::page_byte(m[frame], v as int % 4096)),
        place(m, root, v as int) == Some((frame, v as int % 4096)),
{
    let a = frame + v % 4096;
    if a <= u64::MAX {
        assert(a % 4096 == v % 4096);
    } else {
        assert(frame <= u64::MAX - 4095);
    }
}

/// A name of less than 64 bytes that ends with a zero is read as it stands, without
/// the zero. Of a longer one the first 64 bytes are read.
pub proof fn law_name_is_read_whole(m: Frames, root: u64, v: int, name: Seq<u8>)
    requires
        forall|i: int|
            0 <= i < name.len() ==> #[trigger] name[i] != 0 && byte_at(m, root, v + i) == Some(
                name[i],
            ),
        name.len() == 64 || (name.len() < 64 && byte_at(m, root, v + name.len()) == Some(0u8)),
    ensures
        name_from(m, root, v, Seq::empty()) == Some(name),
{
    lemma_rest_of_name(m, root, v, name, 0);
    assert(name.take(0) =~= Seq::<u8>::empty());
}

proof fn lemma_rest_of_name(m: Frames, root: u64, v: int, name: Seq<u8>, n: int)
    requires
        0 <= n <= name.len(),
        forall|i: int|
            0 <= i < name.len() ==> #[trigger] name[i] != 0 && byte_at(m, root, v + i) == Some(
                name[i],
            ),
        name.len() == 64 || (name.len() < 64 && byte_at(m, root, v + name.len()) == Some(0u8)),
    ensures
        name_from(m, root, v, name.take(n)) == Some(name),
    decreases name.len() - n,
{
    if n < name.len() {
        assert(name[n] != 0);
        assert(name.take(n).push(name[n]) =~= name.take(n + 1));
        lemma_rest_of_name(m, root, v, name, n + 1);
    } else {
        assert(name.take(n) =~= name);
    }
}

/// A name that runs into an address without memory before it ends is not read.
pub proof fn law_name_needs_memory(m: Frames, root: u64, v: int, n: int)
    requires
        0 <= n < 64,
        forall|i: int| 0 <= i < n ==> (#[trigger] byte_at(m, root, v + i) matches Some(b) && b != 0),
        byte_at(m, root, v + n) is None,
    ensures
        name_from(m, root, v, Seq::empty()) is None,
{
    lemma_short_of_name(m, root, v, n, Seq::empty());
}

proof fn lemma_short_of_name(m: Frames, root: u64, v: int, n: int, got: Seq<u8>)
    requires
        0 <= got.len() <= n < 64,
        forall|i: int| 0 <= i < n ==> (#[trigger] byte_at(m, root, v + i) matches Some(b) && b != 0),
        byte_at(m, root, v + n) is None,
    ensures
        name_from(m, root, v, got) is None,
    decreases n - got.len(),
{
    if got.len() < n {
        let b = byte_at(m, root, v + got.len())->0;
        lemma_short_of_name(m, root, v, n, got.push(b));
    }
}

/// The four bytes of a stored number lie behind four addresses in a row, least
/// significant first, a negative one in two's complement; no other byte changes.
#[verifier::rlimit(40)]
pub proof fn law_stored_number_is_there(
    m: Frames,
    root: u64,
    v: int,
    value: i32,
    p0: (u64, int),
    p1: (u64, int),
    p2: (u64, int),
    p3: (u64, int),
)
    requires
        place(m, root, v) == Some(p0),
        place(m, root, v + 1) == Some(p1),
        place(m, root, v + 2) == Some(p2),
        place(m, root, v + 3) == Some(p3),
        p0 != p1,
        p0 != p2,
        p0 != p3,
        p1 != p2,
        p1 != p3,
        p2 != p3,
    ensures
        store_i32(m, root, v, value) matches Some(m2) && ({
            let number = mem::page_byte(m2[p0.0], p0.1) + 0x100 * mem::page_byte(m2[p1.0], p1.1)
                + 0x1_0000 * mem::page_byte(m2[p2.0], p2.1) + 0x100_0000 * mem::page_byte(
                m2[p3.0],
                p3.1,
            );
            &&& number == if value < 0 {
                value + 0x1_0000_0000
            } else {
                value as int
            }
            &&& m2.dom() == m.dom()
            &&& forall|f: u64, o: int|
                0 <= o < 4096 && m.contains_key(f) && (f, o) != p0 && (f, o) != p1 && (f, o) != p2
                    && (f, o) != p3 ==> #[trigger] mem::page_byte(m2[f], o) == mem::page_byte(
                    m[f],
                    o,
                )
        }),
{
    lemma_i32_bytes(value);
    let b = i32_bytes(value);
    let ms = (
        poke(m, p0, b[0]),
        poke(poke(m, p0, b[0]), p1, b[1]),
        poke(poke(poke(m, p0, b[0]), p1, b[1]), p2, b[2]),
        poke(poke(poke(poke(m, p0, b[0]), p1, b[1]), p2, b[2]), p3, b[3]),
    );
    lemma_poke(m, p0, b[0]);
    lemma_poke(ms.0, p1, b[1]);
    lemma_poke(ms.1, p2, b[2]);
    lemma_poke(ms.2, p3, b[3]);
    let m2 = ms.3;
    assert(store_i32(m, root, v, value) == Some(m2));
    assert(m2.dom() =~= m.dom());
    assert(mem::page_byte(m2[p3.0], p3.1) == b[3]);
    assert(mem::page_byte(m2[p2.0], p2.1) == mem::page_byte(ms.2[p2.0], p2.1));
    assert(mem::page_byte(m2[p1.0], p1.1) == mem::page_byte(ms.2[p1.0], p1.1));
    assert(mem::page_byte(ms.2[p1.0], p1.1) == mem::page_byte(ms.1[p1.0], p1.1));
    assert(mem::page_byte(m2[p0.0], p0.1) == mem::page_byte(ms.2[p0.0], p0.1));
    assert(mem::page_byte(ms.2[p0.0], p0.1) == mem::page_byte(ms.1[p0.0], p0.1));
    assert(mem::page_byte(ms.1[p0.0], p0.1) == mem::page_byte(ms.0[p0.0], p0.1));
    assert forall|f: u64, o: int|
        0 <= o < 4096 && m.contains_key(f) && (f, o) != p0 && (f, o) != p1 && (f, o) != p2 && (f, o)
            != p3 implies #[trigger] mem::page_byte(m2[f], o) == mem::page_byte(m[f], o) by {
        assert(mem::page_byte(m2[f], o) == mem::page_byte(ms.2[f], o));
        assert(mem::page_byte(ms.2[f], o) == mem::page_byte(ms.1[f], o));
        assert(mem::page_byte(ms.1[f], o) == mem::page_byte(ms.0[f], o));
        assert(mem::page_byte(ms.0[f], o) == mem::page_byte(m[f], o));
    }
}

proof fn lemma_i32_bytes(value: i32)
    ensures
        i32_bytes(value).len() == 4,
        i32_bytes(value)[0] + 0x100 * i32_bytes(value)[1] + 0x1_0000 * i32_bytes(value)[2]
            + 0x100_0000 * i32_bytes(value)[3] == if value < 0 {
            value + 0x1_0000_0000
        } else {
            value as int
        },
{
    let u: int = if value < 0 {
        value + 0x1_0000_0000
    } else {
        value as int
    };
    assert(u % 0x100 + 0x100 * ((u / 0x100) % 0x100) + 0x1_0000 * ((u / 0x1_0000) % 0x100)
        + 0x100_0000 * ((u / 0x100_0000) % 0x100) == u);
}

proof fn lemma_poke(m: Frames, at: (u64, int), b: u8)
    requires
        m.contains_key(at.0),
        0 <= at.1 < 4096,
    ensures
        poke(m, at, b).dom() == m.dom(),
        mem::page_byte(poke(m, at, b)[at.0], at.1) == b,
        forall|f: u64, o: int|
            0 <= o < 4096 && m.contains_key(f) && (f, o) != at ==> #[trigger] mem::page_byte(
                poke(m, at, b)[f],
                o,
            ) == mem::page_byte(m[f], o),
{
    assert(poke(m, at, b).dom() =~= m.dom());
    mem::law_written_bytes_are_read(m[at.0], at.1, seq![b], at.1);
    assert forall|f: u64, o: int|
        0 <= o < 4096 && m.contains_key(f) && (f, o) != at implies #[trigger] mem::page_byte(
        poke(m, at, b)[f],
        o,
    ) == mem::page_byte(m[f], o) by {
        if f == at.0 {
            mem::law_written_bytes_are_read(m[f], at.1, seq![b], o);
        }
    }
}

} // verus!

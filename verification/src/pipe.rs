//! Pipes: bounded first-in, first-out byte queues, known by number.
use vstd::prelude::*;

verus! {

pub const PIPE_CAPACITY: usize = 4096;

pub type PipeId = u32;

pub const ERR_NO_PIPE: &'static str = "pipe no existe";

struct Pipe {
    id: PipeId,
    data: Vec<u8>,
}

/// All pipes. The view maps the number of each open pipe to its bytes, oldest
/// first.
pub struct PipeRegistry {
    pipes: Vec<Pipe>,
    next_id: PipeId,
}

impl View for PipeRegistry {
    type V = Map<PipeId, Seq<u8>>;

    closed spec fn view(&self) -> Map<PipeId, Seq<u8>> {
        Map::new(
            |id: PipeId| exists|i: int| self.is_at(id, i),
            |id: PipeId| self.pipes@[choose|i: int| self.is_at(id, i)].data@,
        )
    }
}

impl PipeRegistry {
    spec fn is_at(&self, id: PipeId, i: int) -> bool {
        0 <= i < self.pipes@.len() && self.pipes@[i].id == id
    }

    /// The number that the next pipe gets.
    pub closed spec fn next(&self) -> PipeId {
        self.next_id
    }

    pub closed spec fn wf(&self) -> bool {
        &&& forall|i: int, j: int|
            0 <= i < self.pipes@.len() && 0 <= j < self.pipes@.len() && i != j
                ==> (#[trigger] self.pipes@[i]).id != (#[trigger] self.pipes@[j]).id
        &&& forall|i: int| 0 <= i < self.pipes@.len() ==> (#[trigger] self.pipes@[i]).id < self.next_id
        &&& forall|i: int|
            0 <= i < self.pipes@.len() ==> (#[trigger] self.pipes@[i]).data@.len() <= PIPE_CAPACITY
    }

    /// Numbers in use are below the next number, and no pipe holds more than
    /// its capacity.
    pub broadcast proof fn lemma_open(&self, id: PipeId)
        requires
            self.wf(),
            #[trigger] self@.contains_key(id),
        ensures
            id < self.next(),
            self@[id].len() <= PIPE_CAPACITY,
    {
        let i = choose|i: int| self.is_at(id, i);
        assert(self.is_at(id, i));
    }

    proof fn lemma_at(&self, id: PipeId, i: int)
        requires
            self.wf(),
            self.is_at(id, i),
        ensures
            self@.contains_key(id),
            self@[id] == self.pipes@[i].data@,
    {
        let k = choose|k: int| self.is_at(id, k);
        assert(self.is_at(id, k));
        assert(k == i);
    }

    fn index_of(&self, id: PipeId) -> (r: Option<usize>)
        requires
            self.wf(),
        ensures
            match r {
                Some(i) => self.is_at(id, i as int) && self@.contains_key(id) && self@[id]
                    == self.pipes@[i as int].data@,
                None => !self@.contains_key(id),
            },
    {
        let mut i: usize = 0;
        while i < self.pipes.len()
            invariant
                i <= self.pipes@.len(),
                self.wf(),
                forall|j: int| 0 <= j < i ==> (#[trigger] self.pipes@[j]).id != id,
            decreases self.pipes@.len() - i,
        {
            if self.pipes[i].id == id {
                proof {
                    self.lemma_at(id, i as int);
                }
                return Some(i);
            }
            i += 1;
        }
        None
    }

    /// Replaces the contents of the pipe at `i`.
    fn put(&mut self, i: usize, id: PipeId, data: Vec<u8>)
        requires
            old(self).wf(),
            old(self).is_at(id, i as int),
            data@.len() <= PIPE_CAPACITY,
        ensures
            final(self).wf(),
            final(self).next() == old(self).next(),
            final(self)@ == old(self)@.insert(id, data@),
    {
        self.pipes.set(i, Pipe { id, data });
        proof {
            assert forall|n: PipeId, k: int| self.is_at(n, k) == old(self).is_at(n, k) by {}
            assert forall|n: PipeId| self@.contains_key(n) == old(self)@.contains_key(n) by {
                if self@.contains_key(n) {
                    let k = choose|k: int| self.is_at(n, k);
                    assert(old(self).is_at(n, k));
                }
                if old(self)@.contains_key(n) {
                    let k = choose|k: int| old(self).is_at(n, k);
                    assert(self.is_at(n, k));
                }
            }
            old(self).lemma_at(id, i as int);
            assert forall|n: PipeId| self@.contains_key(n) implies self@[n] == if n == id {
                data@
            } else {
                old(self)@[n]
            } by {
                let k = choose|k: int| self.is_at(n, k);
                self.lemma_at(n, k);
                assert(old(self).is_at(n, k));
                old(self).lemma_at(n, k);
            }
            assert(self@ =~= old(self)@.insert(id, data@));
        }
    }
}

/// A registry without pipes.
pub fn init() -> (r: PipeRegistry)
    ensures
        r.wf(),
        r.next() == 0,
        r@ == Map::<PipeId, Seq<u8>>::empty(),
{
    let r = PipeRegistry { pipes: Vec::new(), next_id: 0 };
    assert(r@ =~= Map::<PipeId, Seq<u8>>::empty());
    r
}

/// Opens an empty pipe and gives its number. Numbers are not used again.
pub fn create(reg: &mut PipeRegistry) -> (r: PipeId)
    requires
        old(reg).wf(),
        old(reg).next() < u32::MAX,
    ensures
        final(reg).wf(),
        r == old(reg).next(),
        final(reg).next() == r + 1,
        !old(reg)@.contains_key(r),
        final(reg)@ == old(reg)@.insert(r, Seq::<u8>::empty()),
{
    let id = reg.next_id;
    reg.next_id = id + 1;
    reg.pipes.push(Pipe { id, data: Vec::new() });
    proof {
        let n = old(reg).pipes@.len() as int;
        assert(!old(reg)@.contains_key(id)) by {
            if old(reg)@.contains_key(id) {
                let k = choose|k: int| old(reg).is_at(id, k);
                assert(old(reg).pipes@[k].id == id);
            }
        }
        assert(reg.is_at(id, n));
        reg.lemma_at(id, n);
        assert(reg@[id] =~= Seq::<u8>::empty());
        assert forall|m: PipeId| m != id implies #[trigger] reg@.dom().contains(m)
            == old(reg)@.dom().contains(m) && (old(reg)@.dom().contains(m) ==> reg@[m]
            == old(reg)@[m]) by {
            if old(reg)@.contains_key(m) {
                let k = choose|k: int| old(reg).is_at(m, k);
                old(reg).lemma_at(m, k);
                assert(reg.is_at(m, k));
                reg.lemma_at(m, k);
            }
            if reg@.contains_key(m) {
                let k = choose|k: int| reg.is_at(m, k);
                assert(old(reg).is_at(m, k));
            }
        }
        assert(reg@ =~= old(reg)@.insert(id, Seq::<u8>::empty()));
    }
    id
}

/// How many of `wanted` bytes fit into a pipe that holds `held`.
pub open spec fn room(held: int, wanted: int) -> int {
    if held + wanted <= PIPE_CAPACITY {
        wanted
    } else {
        PIPE_CAPACITY - held
    }
}

/// Appends as much of `data` as fits and says how many bytes that was. Does
/// not block.
pub fn write(reg: &mut PipeRegistry, id: PipeId, data: &[u8]) -> (r: Result<usize, &'static str>)
    requires
        old(reg).wf(),
    ensures
        final(reg).wf(),
        final(reg).next() == old(reg).next(),
        if old(reg)@.contains_key(id) {
            let n = room(old(reg)@[id].len() as int, data@.len() as int);
            &&& r == Ok::<usize, &'static str>(n as usize)
            &&& final(reg)@ == old(reg)@.insert(id, old(reg)@[id] + data@.take(n))
        } else {
            &&& r == Err::<usize, &'static str>(ERR_NO_PIPE)
            &&& final(reg)@ == old(reg)@
        },
        r matches Ok(n) ==> {
            &&& n <= data@.len()
            &&& n == data@.len() || final(reg)@[id].len() == 4096
            &&& final(reg)@[id].len() == old(reg)@[id].len() + n
        },
{
    broadcast use PipeRegistry::lemma_open;

    let i = match reg.index_of(id) {
        Some(i) => i,
        None => {
            return Err(ERR_NO_PIPE);
        },
    };
    let mut buf: Vec<u8> = Vec::new();
    buf.extend_from_slice(reg.pipes[i].data.as_slice());
    assert(buf@ =~= reg@[id]);
    let free = PIPE_CAPACITY - buf.len();
    let n = if data.len() <= free {
        data.len()
    } else {
        free
    };
    let part = vstd::slice::slice_subrange(data, 0, n);
    buf.extend_from_slice(part);
    assert(buf@ =~= old(reg)@[id] + data@.take(n as int));
    reg.put(i, id, buf);
    Ok(n)
}

/// Takes up to `max_len` bytes out of a pipe, oldest first. Does not block: an
/// empty pipe gives nothing.
pub fn read(reg: &mut PipeRegistry, id: PipeId, max_len: usize) -> (r: Result<
    Vec<u8>,
    &'static str,
>)
    requires
        old(reg).wf(),
    ensures
        final(reg).wf(),
        final(reg).next() == old(reg).next(),
        if old(reg)@.contains_key(id) {
            let held = old(reg)@[id];
            let n = if max_len < held.len() {
                max_len as int
            } else {
                held.len() as int
            };
            &&& r matches Ok(out)
            &&& out@ == held.take(n)
            &&& final(reg)@ == old(reg)@.insert(id, held.skip(n))
        } else {
            &&& r matches Err(e)
            &&& e == ERR_NO_PIPE
            &&& final(reg)@ == old(reg)@
        },
        r matches Ok(out) ==> {
            &&& out@ + final(reg)@[id] == old(reg)@[id]
            &&& out@.len() <= max_len
            &&& out@.len() == max_len || final(reg)@[id].len() == 0
        },
{
    broadcast use PipeRegistry::lemma_open;

    let i = match reg.index_of(id) {
        Some(i) => i,
        None => {
            return Err(ERR_NO_PIPE);
        },
    };
    let len = reg.pipes[i].data.len();
    let n = if max_len < len {
        max_len
    } else {
        len
    };
    let mut out: Vec<u8> = Vec::new();
    out.extend_from_slice(vstd::slice::slice_subrange(reg.pipes[i].data.as_slice(), 0, n));
    let mut rest: Vec<u8> = Vec::new();
    rest.extend_from_slice(vstd::slice::slice_subrange(reg.pipes[i].data.as_slice(), n, len));
    assert(out@ =~= reg@[id].take(n as int));
    assert(rest@ =~= reg@[id].skip(n as int));
    reg.put(i, id, rest);
    Ok(out)
}

/// Closes a pipe and drops what it holds. `false` if it was not open.
pub fn close(reg: &mut PipeRegistry, id: PipeId) -> (r: bool)
    requires
        old(reg).wf(),
    ensures
        final(reg).wf(),
        final(reg).next() == old(reg).next(),
        r == old(reg)@.contains_key(id),
        final(reg)@ == old(reg)@.remove(id),
{
    match reg.index_of(id) {
        Some(i) => {
            reg.pipes.remove(i);
            proof {
                assert forall|n: PipeId| reg@.contains_key(n) <==> old(reg)@.contains_key(n) && n
                    != id by {
                    if reg@.contains_key(n) {
                        let k = choose|k: int| reg.is_at(n, k);
                        let k2 = if k >= i {
                            k + 1
                        } else {
                            k
                        };
                        assert(old(reg).is_at(n, k2));
                    }
                    if old(reg)@.contains_key(n) && n != id {
                        let k = choose|k: int| old(reg).is_at(n, k);
                        let k2 = if k > i {
                            k - 1
                        } else {
                            k
                        };
                        assert(reg.is_at(n, k2));
                    }
                }
                assert forall|n: PipeId| reg@.contains_key(n) implies reg@[n] == old(reg)@[n] by {
                    let k = choose|k: int| reg.is_at(n, k);
                    let k2 = if k >= i {
                        k + 1
                    } else {
                        k
                    };
                    reg.lemma_at(n, k);
                    assert(old(reg).is_at(n, k2));
                    old(reg).lemma_at(n, k2);
                }
                assert(reg@ =~= old(reg)@.remove(id));
            }
            true
        },
        None => {
            assert(reg@ =~= old(reg)@.remove(id));
            false
        },
    }
}

/// How many bytes wait in a pipe. `None` if it is not open.
pub fn pending(reg: &PipeRegistry, id: PipeId) -> (r: Option<usize>)
    requires
        reg.wf(),
    ensures
        r is Some <==> reg@.contains_key(id),
        r matches Some(n) ==> n == reg@[id].len(),
{
    match reg.index_of(id) {
        Some(i) => Some(reg.pipes[i].data.len()),
        None => None,
    }
}

/// First in, first out: what is read comes in the order in which it was
/// written, what was there before comes first, and nothing is lost between one
/// read and the next.
pub proof fn law_fifo(held: Seq<u8>, written: Seq<u8>, n: int)
    requires
        0 <= n <= held.len() + written.len(),
    ensures
        (held + written).take(n) + (held + written).skip(n) == held + written,
        n >= held.len() ==> (held + written).take(n) == held + written.take(n - held.len()),
        n <= held.len() ==> (held + written).take(n) == held.take(n),
{
    assert((held + written).take(n) + (held + written).skip(n) =~= held + written);
    if n >= held.len() {
        assert((held + written).take(n) =~= held + written.take(n - held.len()));
    } else {
        assert((held + written).take(n) =~= held.take(n));
    }
}

/// A pipe takes all of what is written if that fits, and otherwise just as much
/// as fills it to 4096 bytes.
pub proof fn law_pipe_fills_up(held: int, wanted: int)
    requires
        0 <= held <= 4096,
        0 <= wanted,
    ensures
        0 <= room(held, wanted) <= wanted,
        held + room(held, wanted) <= 4096,
        room(held, wanted) < wanted ==> held + room(held, wanted) == 4096,
{
}

} // verus!

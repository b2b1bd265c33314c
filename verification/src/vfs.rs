//! A flat file system in memory: names to contents, no directories.
use vstd::prelude::*;

verus! {

/// Whether `a` comes before `b` in byte order: they first differ at `k`, where
/// `a` ends or has the smaller byte.
pub open spec fn differs_below(a: Seq<u8>, b: Seq<u8>, k: int) -> bool {
    &&& 0 <= k <= a.len()
    &&& k < b.len()
    &&& forall|j: int| 0 <= j < k ==> #[trigger] a[j] == b[j]
    &&& k == a.len() || a[k] < b[k]
}

/// Byte order of names.
pub open spec fn precedes(a: Seq<u8>, b: Seq<u8>) -> bool {
    exists|k: int| differs_below(a, b, k)
}

proof fn lemma_precedes_irreflexive(a: Seq<u8>)
    ensures
        !precedes(a, a),
{
}

proof fn lemma_precedes_trans(a: Seq<u8>, b: Seq<u8>, c: Seq<u8>)
    requires
        precedes(a, b),
        precedes(b, c),
    ensures
        precedes(a, c),
{
    let k = choose|k: int| differs_below(a, b, k);
    let l = choose|l: int| differs_below(b, c, l);
    let m = if k < l {
        k
    } else {
        l
    };
    assert forall|j: int| 0 <= j < m implies #[trigger] a[j] == c[j] by {
        assert(a[j] == b[j] && b[j] == c[j]);
    }
    if k < l {
        assert(b[k] == c[k]);
    } else if l < k {
        assert(a[l] == b[l]);
    }
    assert(differs_below(a, c, m));
}

/// How two names compare.
enum Order {
    Before,
    Same,
    After,
}

fn order(a: &str, b: &str) -> (r: Order)
    ensures
        match r {
            Order::Before => precedes(name_bytes(a@), name_bytes(b@)),
            Order::Same => a@ == b@,
            Order::After => precedes(name_bytes(b@), name_bytes(a@)),
        },
{
    broadcast use vstd::utf8::encode_utf8_decode_utf8;

    let x = a.as_bytes();
    let y = b.as_bytes();
    let mut i: usize = 0;
    while i < x.len() && i < y.len()
        invariant
            i <= x@.len(),
            i <= y@.len(),
            x@ == name_bytes(a@),
            y@ == name_bytes(b@),
            forall|j: int| 0 <= j < i ==> #[trigger] x@[j] == y@[j],
        decreases x@.len() - i,
    {
        if x[i] < y[i] {
            assert(differs_below(x@, y@, i as int));
            return Order::Before;
        }
        if x[i] > y[i] {
            assert(differs_below(y@, x@, i as int));
            return Order::After;
        }
        i += 1;
    }
    if i < y.len() {
        assert(differs_below(x@, y@, i as int));
        Order::Before
    } else if i < x.len() {
        assert(differs_below(y@, x@, i as int));
        Order::After
    } else {
        assert(x@ =~= y@);
        assert(vstd::utf8::decode_utf8(name_bytes(a@)) == a@);
        assert(vstd::utf8::decode_utf8(name_bytes(b@)) == b@);
        Order::Same
    }
}

/// The UTF-8 bytes of a name.
pub open spec fn name_bytes(name: Seq<char>) -> Seq<u8> {
    vstd::utf8::encode_utf8(name)
}

/// The file system. Its view maps names to contents.
pub struct TmpFs {
    files: Vec<(String, Vec<u8>)>,
}

impl View for TmpFs {
    type V = Map<Seq<char>, Seq<u8>>;

    closed spec fn view(&self) -> Map<Seq<char>, Seq<u8>> {
        Map::new(
            |name: Seq<char>| exists|i: int| self.is_at(name, i),
            |name: Seq<char>| self.files@[choose|i: int| self.is_at(name, i)].1@,
        )
    }
}

impl TmpFs {
    spec fn is_at(&self, name: Seq<char>, i: int) -> bool {
        0 <= i < self.files@.len() && self.files@[i].0@ == name
    }

    /// The files are kept in the byte order of their names, each name once.
    pub closed spec fn wf(&self) -> bool {
        forall|i: int, j: int|
            0 <= i < j < self.files@.len() ==> precedes(
                name_bytes(#[trigger] self.files@[i].0@),
                name_bytes(#[trigger] self.files@[j].0@),
            )
    }

    proof fn lemma_unique(&self, name: Seq<char>, i: int)
        requires
            self.wf(),
            self.is_at(name, i),
        ensures
            self@.contains_key(name),
            self@[name] == self.files@[i].1@,
    {
        let k = choose|k: int| self.is_at(name, k);
        assert(self.is_at(name, k));
        lemma_precedes_irreflexive(name_bytes(name));
        assert(k == i);
    }

    /// The place of `name`: where it is, or where it would have to go.
    fn place(&self, name: &str) -> (r: (usize, bool))
        requires
            self.wf(),
        ensures
            r.0 <= self.files@.len(),
            r.1 ==> self.is_at(name@, r.0 as int),
            r.1 == self@.contains_key(name@),
            !r.1 ==> {
                &&& forall|j: int|
                    0 <= j < r.0 ==> precedes(
                        name_bytes(#[trigger] self.files@[j].0@),
                        name_bytes(name@),
                    )
                &&& forall|j: int|
                    r.0 <= j < self.files@.len() ==> precedes(
                        name_bytes(name@),
                        name_bytes(#[trigger] self.files@[j].0@),
                    )
            },
    {
        let mut i: usize = 0;
        while i < self.files.len()
            invariant
                i <= self.files@.len(),
                self.wf(),
                forall|j: int|
                    0 <= j < i ==> precedes(
                        name_bytes(#[trigger] self.files@[j].0@),
                        name_bytes(name@),
                    ),
            decreases self.files@.len() - i,
        {
            match order(self.files[i].0.as_str(), name) {
                Order::Before => {
                    i += 1;
                },
                Order::Same => {
                    proof {
                        self.lemma_unique(name@, i as int);
                    }
                    return (i, true);
                },
                Order::After => {
                    proof {
                        assert forall|j: int| i <= j < self.files@.len() implies precedes(
                            name_bytes(name@),
                            name_bytes(#[trigger] self.files@[j].0@),
                        ) by {
                            if i < j {
                                lemma_precedes_trans(
                                    name_bytes(name@),
                                    name_bytes(self.files@[i as int].0@),
                                    name_bytes(self.files@[j].0@),
                                );
                            }
                        }
                        self.lemma_absent(name@, i as int);
                    }
                    return (i, false);
                },
            }
        }
        proof {
            self.lemma_absent(name@, i as int);
        }
        (i, false)
    }

    proof fn lemma_absent(&self, name: Seq<char>, i: int)
        requires
            self.wf(),
            forall|j: int|
                0 <= j < i ==> precedes(
                    name_bytes(#[trigger] self.files@[j].0@),
                    name_bytes(name),
                ),
            forall|j: int|
                i <= j < self.files@.len() ==> precedes(
                    name_bytes(name),
                    name_bytes(#[trigger] self.files@[j].0@),
                ),
        ensures
            !self@.contains_key(name),
    {
        lemma_precedes_irreflexive(name_bytes(name));
        assert forall|k: int| !self.is_at(name, k) by {
            if self.is_at(name, k) {
                assert(self.files@[k].0@ == name);
            }
        }
    }
}

/// An empty file system.
pub fn init() -> (r: TmpFs)
    ensures
        r.wf(),
        r@ == Map::<Seq<char>, Seq<u8>>::empty(),
{
    let r = TmpFs { files: Vec::new() };
    assert(r@ =~= Map::<Seq<char>, Seq<u8>>::empty());
    r
}

/// Creates or replaces a file.
pub fn write(fs: &mut TmpFs, name: &str, data: &[u8])
    requires
        old(fs).wf(),
    ensures
        final(fs).wf(),
        final(fs)@ == old(fs)@.insert(name@, data@),
{
    let (i, found) = fs.place(name);
    let mut contents: Vec<u8> = Vec::new();
    contents.extend_from_slice(data);
    assert(contents@ =~= data@);
    let entry = (name.to_owned(), contents);
    if found {
        fs.files.set(i, entry);
    } else {
        fs.files.insert(i, entry);
    }
    proof {
        let now = fs.files@;
        let before = old(fs).files@;
        if found {
            assert(now == before.update(i as int, entry));
        } else {
            assert(now == before.insert(i as int, entry));
            assert forall|a: int, b: int| 0 <= a < b < now.len() implies precedes(
                name_bytes(#[trigger] now[a].0@),
                name_bytes(#[trigger] now[b].0@),
            ) by {
                if a < i && i < b {
                    assert(now[b] == before[b - 1]);
                } else if a >= i && b > i {
                    assert(now[b] == before[b - 1]);
                    if a > i {
                        assert(now[a] == before[a - 1]);
                    }
                }
            }
        }
        assert(fs.is_at(name@, i as int));
        fs.lemma_unique(name@, i as int);
        assert forall|n: Seq<char>| n != name@ implies #[trigger] fs@.dom().contains(n)
            == old(fs)@.dom().contains(n) && (old(fs)@.dom().contains(n) ==> fs@[n]
            == old(fs)@[n]) by {
            if old(fs)@.contains_key(n) {
                let k = choose|k: int| old(fs).is_at(n, k);
                old(fs).lemma_unique(n, k);
                let k2 = if !found && k >= i {
                    k + 1
                } else {
                    k
                };
                assert(fs.is_at(n, k2));
                fs.lemma_unique(n, k2);
            }
            if fs@.contains_key(n) {
                let k = choose|k: int| fs.is_at(n, k);
                let k2 = if !found && k > i {
                    k - 1
                } else {
                    k
                };
                assert(old(fs).is_at(n, k2));
            }
        }
        assert(fs@ =~= old(fs)@.insert(name@, data@));
    }
}

/// The contents of a file. `None` if there is no file of that name.
pub fn read(fs: &TmpFs, name: &str) -> (r: Option<Vec<u8>>)
    requires
        fs.wf(),
    ensures
        r is Some <==> fs@.contains_key(name@),
        r matches Some(v) ==> v@ == fs@[name@],
{
    let (i, found) = fs.place(name);
    if found {
        proof {
            fs.lemma_unique(name@, i as int);
        }
        let mut out: Vec<u8> = Vec::new();
        out.extend_from_slice(fs.files[i].1.as_slice());
        assert(out@ =~= fs.files@[i as int].1@);
        Some(out)
    } else {
        None
    }
}

/// Removes a file. `false` if there was none of that name.
pub fn delete(fs: &mut TmpFs, name: &str) -> (r: bool)
    requires
        old(fs).wf(),
    ensures
        final(fs).wf(),
        r == old(fs)@.contains_key(name@),
        final(fs)@ == old(fs)@.remove(name@),
{
    let (i, found) = fs.place(name);
    if found {
        fs.files.remove(i);
        proof {
            let before = old(fs).files@;
            assert(fs.files@ == before.remove(i as int));
            assert forall|n: Seq<char>| fs@.contains_key(n) <==> old(fs)@.contains_key(n) && n
                != name@ by {
                if fs@.contains_key(n) {
                    let k = choose|k: int| fs.is_at(n, k);
                    let k2 = if k >= i {
                        k + 1
                    } else {
                        k
                    };
                    assert(old(fs).is_at(n, k2));
                    lemma_precedes_irreflexive(name_bytes(n));
                }
                if old(fs)@.contains_key(n) && n != name@ {
                    let k = choose|k: int| old(fs).is_at(n, k);
                    let k2 = if k > i {
                        k - 1
                    } else {
                        k
                    };
                    assert(fs.is_at(n, k2));
                }
            }
            assert forall|n: Seq<char>| fs@.contains_key(n) implies fs@[n] == old(fs)@[n] by {
                let k = choose|k: int| fs.is_at(n, k);
                let k2 = if k >= i {
                    k + 1
                } else {
                    k
                };
                fs.lemma_unique(n, k);
                assert(old(fs).is_at(n, k2));
                old(fs).lemma_unique(n, k2);
            }
            assert(fs@ =~= old(fs)@.remove(name@));
        }
        true
    } else {
        assert(fs@ =~= old(fs)@.remove(name@));
        false
    }
}

/// Whether these are the names of all files, each once, in byte order.
pub open spec fn is_listing(files: Map<Seq<char>, Seq<u8>>, names: Seq<Seq<char>>) -> bool {
    &&& forall|i: int, j: int|
        0 <= i < j < names.len() ==> precedes(
            name_bytes(#[trigger] names[i]),
            name_bytes(#[trigger] names[j]),
        )
    &&& forall|i: int| 0 <= i < names.len() ==> files.contains_key(#[trigger] names[i])
    &&& forall|n: Seq<char>| #[trigger]
        files.contains_key(n) ==> exists|i: int| 0 <= i < names.len() && #[trigger] names[i] == n
}

/// What a list of names says.
pub open spec fn names_of(s: Seq<String>) -> Seq<Seq<char>> {
    s.map_values(|n: String| n@)
}

/// The names of all files, in byte order.
pub fn list(fs: &TmpFs) -> (r: Vec<String>)
    requires
        fs.wf(),
    ensures
        is_listing(fs@, names_of(r@)),
{
    let mut out: Vec<String> = Vec::new();
    let mut i: usize = 0;
    while i < fs.files.len()
        invariant
            i <= fs.files@.len(),
            out@.len() == i,
            forall|j: int| 0 <= j < i ==> #[trigger] out@[j]@ == fs.files@[j].0@,
        decreases fs.files@.len() - i,
    {
        out.push(fs.files[i].0.as_str().to_owned());
        i += 1;
    }
    proof {
        let names = names_of(out@);
        assert forall|k: int, j: int| 0 <= k < j < names.len() implies precedes(
            name_bytes(#[trigger] names[k]),
            name_bytes(#[trigger] names[j]),
        ) by {
            assert(precedes(name_bytes(fs.files@[k].0@), name_bytes(fs.files@[j].0@)));
        }
        assert forall|k: int| 0 <= k < names.len() implies fs@.contains_key(
            #[trigger] names[k],
        ) by {
            assert(fs.is_at(names[k], k));
        }
        assert forall|n: Seq<char>| #[trigger] fs@.contains_key(n) implies exists|k: int|
            0 <= k < names.len() && #[trigger] names[k] == n by {
            let k = choose|k: int| fs.is_at(n, k);
            assert(names[k] == n);
        }
    }
    out
}

/// A read gives back what was last written under that name, and other files
/// are not touched by it.
pub proof fn law_read_gives_back_write(
    before: Map<Seq<char>, Seq<u8>>,
    name: Seq<char>,
    data: Seq<u8>,
    other: Seq<char>,
)
    requires
        other != name,
    ensures
        before.insert(name, data).contains_key(name),
        before.insert(name, data)[name] == data,
        before.insert(name, data).contains_key(other) == before.contains_key(other),
        before.contains_key(other) ==> before.insert(name, data)[other] == before[other],
        !before.insert(name, data).remove(name).contains_key(name),
{
}

/// Names are listed as a dictionary orders them, by their bytes: the first byte
/// that differs decides, and a name comes before those that it begins. Of two
/// different ones exactly one comes first.
pub proof fn law_names_are_ordered_by_bytes(a: Seq<u8>, b: Seq<u8>, k: int)
    ensures
        0 <= k < a.len() && k < b.len() && (forall|j: int| 0 <= j < k ==> #[trigger] a[j] == b[j])
            && a[k] < b[k] ==> precedes(a, b) && !precedes(b, a),
        a.len() < b.len() && (forall|j: int| 0 <= j < a.len() ==> #[trigger] a[j] == b[j])
            ==> precedes(a, b) && !precedes(b, a),
        !precedes(a, a),
{
    lemma_precedes_irreflexive(a);
    if precedes(b, a) {
        let l = choose|l: int| differs_below(b, a, l);
        assert(differs_below(b, a, l));
        if 0 <= k < a.len() && k < b.len() && (forall|j: int| 0 <= j < k ==> #[trigger] a[j] == b[j])
            && a[k] < b[k] {
            if l < k {
                assert(a[l] == b[l]);
            } else if k < l {
                assert(b[k] == a[k]);
            }
        }
        if a.len() < b.len() && (forall|j: int| 0 <= j < a.len() ==> #[trigger] a[j] == b[j]) {
            assert(a[l] == b[l]);
        }
    }
    if 0 <= k < a.len() && k < b.len() && (forall|j: int| 0 <= j < k ==> #[trigger] a[j] == b[j])
        && a[k] < b[k] {
        assert(differs_below(a, b, k));
    }
    if a.len() < b.len() && (forall|j: int| 0 <= j < a.len() ==> #[trigger] a[j] == b[j]) {
        assert(differs_below(a, b, a.len() as int));
    }
}

} // verus!

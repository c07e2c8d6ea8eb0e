use crate::cursor::{le_i32, le_u32, Cursor};
use crate::error::WadError;
use crate::name::{bytes_eq, key_of, name_key, normalize, normalize_name, trim_nulls, trimmed};
use std::collections::HashMap;
use vstd::prelude::*;
use vstd::slice::slice_subrange;
use vstd::string::StringSliceAdditionalSpecFns;

verus! {

broadcast use vstd::std_specs::hash::group_hash_axioms;

/// Size of the fixed header: tag, entry count, directory offset.
pub const HEADER_LEN: usize = 12;

/// Size of one directory entry: offset, size, eight name bytes.
pub const ENTRY_LEN: usize = 16;

/// What an archive declares itself to be.
#[derive(Debug, Clone, Copy, PartialEq, Eq, Structural)]
pub enum Kind {
    /// `IWAD`: self-contained game data.
    Iwad,
    /// `PWAD`: content meant to be laid over another archive.
    Pwad,
}

/// The four header bytes.
pub open spec fn tag(b: Seq<u8>) -> Seq<u8> {
    b.subrange(0, 4)
}

/// The tag `IWAD` in ASCII.
pub open spec fn iwad_tag() -> Seq<u8> {
    seq![73u8, 87u8, 65u8, 68u8]
}

/// The tag `PWAD` in ASCII.
pub open spec fn pwad_tag() -> Seq<u8> {
    seq![80u8, 87u8, 65u8, 68u8]
}

/// The kind that a tag names, if any; the match is exact and case-sensitive.
pub open spec fn kind_of_tag(t: Seq<u8>) -> Option<Kind> {
    if t == iwad_tag() {
        Some(Kind::Iwad)
    } else if t == pwad_tag() {
        Some(Kind::Pwad)
    } else {
        None
    }
}

/// The signed entry count of the header.
pub open spec fn entry_count(b: Seq<u8>) -> int {
    le_i32(b.subrange(4, 8))
}

/// The signed directory offset of the header.
pub open spec fn dir_offset(b: Seq<u8>) -> int {
    le_i32(b.subrange(8, 12))
}

/// Where directory entry `i` starts.
pub open spec fn entry_at(b: Seq<u8>, i: int) -> int {
    dir_offset(b) + 16 * i
}

/// The lump offset that directory entry `i` declares, read as unsigned.
pub open spec fn lump_offset(b: Seq<u8>, i: int) -> int {
    le_u32(b.subrange(entry_at(b, i), entry_at(b, i) + 4))
}

/// The lump size that directory entry `i` declares, read as unsigned.
pub open spec fn lump_size(b: Seq<u8>, i: int) -> int {
    le_u32(b.subrange(entry_at(b, i) + 4, entry_at(b, i) + 8))
}

/// The eight raw name bytes of directory entry `i`.
pub open spec fn lump_name(b: Seq<u8>, i: int) -> Seq<u8> {
    b.subrange(entry_at(b, i) + 8, entry_at(b, i) + 16)
}

/// Whether the lump of directory entry `i` lies inside the buffer.
pub open spec fn lump_fits(b: Seq<u8>, i: int) -> bool {
    lump_offset(b, i) + lump_size(b, i) <= b.len()
}

/// Whether `i` is the first directory entry whose lump leaves the buffer.
pub open spec fn first_bad_lump(b: Seq<u8>, i: int) -> bool {
    &&& 0 <= i < entry_count(b)
    &&& !lump_fits(b, i)
    &&& forall|j: int| 0 <= j < i ==> lump_fits(b, j)
}

/// Why `b` is not an archive, checked in header order; `None` where it is one.
pub open spec fn fault(b: Seq<u8>) -> Option<WadError> {
    if b.len() < 12 {
        Some(WadError::MissingHeader)
    } else if kind_of_tag(tag(b)) is None {
        Some(WadError::InvalidKind([b[0], b[1], b[2], b[3]]))
    } else if entry_count(b) < 0 || dir_offset(b) < 0 {
        Some(WadError::InvalidDirectory)
    } else if dir_offset(b) + 16 * entry_count(b) > b.len() {
        Some(WadError::DirectoryOutOfBounds)
    } else if exists|i: int| first_bad_lump(b, i) {
        Some(WadError::LumpOutOfBounds((choose|i: int| first_bad_lump(b, i)) as usize))
    } else {
        None
    }
}

/// Whether `b` holds a well-formed archive.
pub open spec fn valid_archive(b: Seq<u8>) -> bool {
    fault(b) is None
}

/// Whether directory entry `i` is named `q` once normalized.
pub open spec fn entry_matches(b: Seq<u8>, i: int, q: Seq<u8>) -> bool {
    normalize(lump_name(b, i)) == q
}

/// The last of the first `n` directory entries that is named `q`.
pub open spec fn last_match(b: Seq<u8>, q: Seq<u8>, n: int) -> Option<int>
    decreases n,
{
    if n <= 0 {
        None
    } else if entry_matches(b, n - 1, q) {
        Some(n - 1)
    } else {
        last_match(b, q, n - 1)
    }
}

/// Every one of the first `n` directory entries that is named `q`, in order.
pub open spec fn all_matches(b: Seq<u8>, q: Seq<u8>, n: int) -> Seq<int>
    decreases n,
{
    if n <= 0 {
        Seq::empty()
    } else if entry_matches(b, n - 1, q) {
        all_matches(b, q, n - 1).push(n - 1)
    } else {
        all_matches(b, q, n - 1)
    }
}

/// The index key of directory entry `i`.
pub open spec fn entry_key(b: Seq<u8>, i: int) -> u64 {
    name_key(normalize(lump_name(b, i)))
}

/// Every one of the first `n` directory entries whose key is `h`, in order.
pub open spec fn keyed(b: Seq<u8>, h: u64, n: int) -> Seq<int>
    decreases n,
{
    if n <= 0 {
        Seq::empty()
    } else if entry_key(b, n - 1) == h {
        keyed(b, h, n - 1).push(n - 1)
    } else {
        keyed(b, h, n - 1)
    }
}

/// Those of the entries at positions `s` that are named `q`, in order.
pub open spec fn named(b: Seq<u8>, q: Seq<u8>, s: Seq<int>) -> Seq<int>
    decreases s.len(),
{
    if s.len() == 0 {
        Seq::empty()
    } else if entry_matches(b, s.last(), q) {
        named(b, q, s.drop_last()).push(s.last())
    } else {
        named(b, q, s.drop_last())
    }
}

/// The positions that an index holds under key `h`.
spec fn positions(m: Map<u64, Vec<usize>>, h: u64) -> Seq<int> {
    if m.contains_key(h) {
        m[h]@.map_values(|k: usize| k as int)
    } else {
        Seq::empty()
    }
}

proof fn lemma_keyed_bounds(b: Seq<u8>, h: u64, n: int)
    ensures
        forall|j: int| 0 <= j < keyed(b, h, n).len() ==> 0 <= #[trigger] keyed(b, h, n)[j] < n,
    decreases n,
{
    if n > 0 {
        lemma_keyed_bounds(b, h, n - 1);
        let prev = keyed(b, h, n - 1);
        assert forall|j: int| 0 <= j < keyed(b, h, n).len() implies 0 <= #[trigger] keyed(
            b,
            h,
            n,
        )[j] < n by {
            if j < prev.len() {
                assert(keyed(b, h, n)[j] == prev[j]);
            }
        }
    }
}

proof fn lemma_named_keyed(b: Seq<u8>, q: Seq<u8>, n: int)
    ensures
        named(b, q, keyed(b, name_key(q), n)) == all_matches(b, q, n),
    decreases n,
{
    if n > 0 {
        lemma_named_keyed(b, q, n - 1);
        let k = keyed(b, name_key(q), n);
        if entry_key(b, n - 1) == name_key(q) {
            assert(k.drop_last() =~= keyed(b, name_key(q), n - 1));
        }
    }
}

proof fn lemma_last_of_all(b: Seq<u8>, q: Seq<u8>, n: int)
    ensures
        last_match(b, q, n) == (if all_matches(b, q, n).len() == 0 {
            None
        } else {
            Some(all_matches(b, q, n).last())
        }),
    decreases n,
{
    if n > 0 {
        lemma_last_of_all(b, q, n - 1);
    }
}

/// Where some entry's lump leaves the buffer, there is a first such entry.
pub proof fn lemma_some_bad_lump(b: Seq<u8>, i: int)
    requires
        0 <= i < entry_count(b),
        !lump_fits(b, i),
    ensures
        exists|k: int| first_bad_lump(b, k),
    decreases i,
{
    if forall|j: int| 0 <= j < i ==> lump_fits(b, j) {
        assert(first_bad_lump(b, i));
    } else {
        let j = choose|j: int| 0 <= j < i && !lump_fits(b, j);
        lemma_some_bad_lump(b, j);
    }
}

proof fn lemma_first_bad_unique(b: Seq<u8>, i: int, k: int)
    requires
        first_bad_lump(b, i),
        first_bad_lump(b, k),
    ensures
        i == k,
{
    if i < k {
        assert(lump_fits(b, i));
    } else if k < i {
        assert(lump_fits(b, k));
    }
}

/// One directory entry: where its lump lies and what it is called.
pub struct Lump {
    /// Byte offset of the lump in the archive.
    pub offset: usize,
    /// Byte length of the lump.
    pub size: usize,
    /// The name as stored, without trailing zero bytes.
    pub name: Vec<u8>,
    /// The name as looked up: trailing zero bytes dropped, upper case.
    pub key: Vec<u8>,
}

impl Lump {
    /// Whether this is the descriptor of directory entry `i` of `b`.
    pub open spec fn describes(&self, b: Seq<u8>, i: int) -> bool {
        &&& self.offset == lump_offset(b, i)
        &&& self.size == lump_size(b, i)
        &&& self.name@ == trim_nulls(lump_name(b, i))
        &&& self.key@ == normalize(lump_name(b, i))
    }
}

/// An archive opened over a buffer that it owns.
pub struct Wad {
    kind: Kind,
    dir_len: usize,
    data: Vec<u8>,
    lumps: Vec<Lump>,
    index: HashMap<u64, Vec<usize>>,
}

impl View for Wad {
    type V = Seq<u8>;

    closed spec fn view(&self) -> Seq<u8> {
        self.data@
    }
}

impl Wad {
    /// The decoded header and directory agree with the buffer.
    pub closed spec fn decoded(&self) -> bool {
        &&& Some(self.kind) == kind_of_tag(tag(self.data@))
        &&& self.dir_len == entry_count(self.data@)
        &&& self.lumps@.len() == self.dir_len
        &&& forall|i: int| 0 <= i < self.dir_len ==> #[trigger] self.lumps@[i].describes(self.data@, i)
        &&& forall|h: u64| #[trigger] positions(self.index@, h) == keyed(self.data@, h, self.dir_len as int)
    }

    /// What every opened archive satisfies.
    pub open spec fn wf(&self) -> bool {
        valid_archive(self@) && self.decoded()
    }

    /// Opens the archive held in `data`, checking the header, the directory
    /// and every lump against the buffer; the buffer is kept, not copied.
    pub fn open(data: Vec<u8>) -> (r: Result<Wad, WadError>)
        ensures
            r is Ok <==> valid_archive(data@),
            r is Ok ==> r->Ok_0.wf() && r->Ok_0@ == data@,
            r is Err ==> fault(data@) == Some(r->Err_0),
    {
        let ghost b = data@;
        if data.len() < HEADER_LEN {
            return Err(WadError::MissingHeader);
        }
        let slice = data.as_slice();
        let mut c = Cursor::at(slice, 0);
        let t = c.read_bytes(4)?;
        let kind = if t[0] == 73 && t[1] == 87 && t[2] == 65 && t[3] == 68 {
            assert(t@ =~= iwad_tag());
            Kind::Iwad
        } else if t[0] == 80 && t[1] == 87 && t[2] == 65 && t[3] == 68 {
            assert(t@ =~= pwad_tag());
            Kind::Pwad
        } else {
            assert(iwad_tag()[0] == 73 && iwad_tag()[1] == 87 && iwad_tag()[2] == 65
                && iwad_tag()[3] == 68);
            assert(pwad_tag()[0] == 80 && pwad_tag()[1] == 87 && pwad_tag()[2] == 65
                && pwad_tag()[3] == 68);
            return Err(WadError::InvalidKind([t[0], t[1], t[2], t[3]]));
        };
        let count = c.read_int()?;
        let offset = c.read_int()?;
        if count < 0 || offset < 0 {
            return Err(WadError::InvalidDirectory);
        }
        let n = count as usize;
        let p = offset as usize;
        if p > slice.len() || n > (slice.len() - p) / ENTRY_LEN {
            return Err(WadError::DirectoryOutOfBounds);
        }
        let len = slice.len();
        let mut lumps: Vec<Lump> = Vec::new();
        let mut index: HashMap<u64, Vec<usize>> = HashMap::new();
        let mut i: usize = 0;
        while i < n
            invariant
                slice@ == b,
                data@ == b,
                len == b.len(),
                b.len() >= 12,
                kind_of_tag(tag(b)) == Some(kind),
                n == entry_count(b),
                p == dir_offset(b),
                p + 16 * n <= b.len(),
                i <= n,
                lumps@.len() == i,
                forall|j: int| 0 <= j < i ==> #[trigger] lumps@[j].describes(b, j),
                forall|j: int| 0 <= j < i ==> lump_fits(b, j),
                forall|h: u64| #[trigger] positions(index@, h) == keyed(b, h, i as int),
            decreases n - i,
        {
            assert(16 * i + 16 <= 16 * n);
            let at: usize = p + 16 * i;
            assert(at == entry_at(b, i as int));
            let mut e = Cursor::at(slice, at);
            let off = e.read_u32()?;
            let size = e.read_u32()?;
            let raw = e.read_bytes(8)?;
            let off = off as usize;
            let size = size as usize;
            if off > slice.len() || size > slice.len() - off {
                proof {
                    assert(first_bad_lump(b, i as int));
                    let k = choose|k: int| first_bad_lump(b, k);
                    lemma_first_bad_unique(b, i as int, k);
                }
                return Err(WadError::LumpOutOfBounds(i));
            }
            let key = normalize_name(raw);
            let h = key_of(key.as_slice());
            let ghost before = index@;
            let mut at_key = match index.remove(&h) {
                Some(v) => v,
                None => Vec::new(),
            };
            assert(at_key@.map_values(|k: usize| k as int) == positions(before, h));
            at_key.push(i);
            index.insert(h, at_key);
            proof {
                assert forall|g: u64| #[trigger] positions(index@, g) == keyed(b, g, i + 1) by {
                    assert(positions(before, g) == keyed(b, g, i as int));
                    if g == h {
                        assert(positions(index@, g) =~= positions(before, g).push(i as int));
                    }
                }
            }
            lumps.push(Lump { offset: off, size, name: trimmed(raw), key });
            i = i + 1;
        }
        assert(!exists|k: int| first_bad_lump(b, k));
        Ok(Wad { kind, dir_len: n, data, lumps, index })
    }

    /// What the header tag declares.
    pub fn kind(&self) -> (r: Kind)
        requires
            self.wf(),
        ensures
            kind_of_tag(tag(self@)) == Some(r),
    {
        self.kind
    }

    /// The number of directory entries.
    pub fn lump_count(&self) -> (r: usize)
        requires
            self.wf(),
        ensures
            r == entry_count(self@),
    {
        self.dir_len
    }

    /// The descriptor of directory entry `index`.
    pub fn lump_at(&self, index: usize) -> (r: Result<&Lump, WadError>)
        requires
            self.wf(),
        ensures
            index < entry_count(self@) ==> r is Ok && r->Ok_0.describes(self@, index as int),
            index >= entry_count(self@) ==> r == Err::<&Lump, WadError>(WadError::IndexOutOfRange),
    {
        if index >= self.dir_len {
            return Err(WadError::IndexOutOfRange);
        }
        Ok(&self.lumps[index])
    }

    /// The bytes of lump `index`, borrowed from the archive's buffer.
    pub fn read_lump(&self, index: usize) -> (r: Result<&[u8], WadError>)
        requires
            self.wf(),
        ensures
            index < entry_count(self@) ==> {
                &&& r is Ok
                &&& r->Ok_0@ == self@.subrange(
                    lump_offset(self@, index as int),
                    lump_offset(self@, index as int) + lump_size(self@, index as int),
                )
            },
            index >= entry_count(self@) ==> r == Err::<&[u8], WadError>(WadError::IndexOutOfRange),
    {
        if index >= self.dir_len {
            return Err(WadError::IndexOutOfRange);
        }
        let lump = &self.lumps[index];
        let len = self.data.len();
        assert(lump.describes(self.data@, index as int));
        assert(lump_fits(self.data@, index as int)) by {
            if !lump_fits(self.data@, index as int) {
                lemma_some_bad_lump(self.data@, index as int);
            }
        }
        Ok(slice_subrange(self.data.as_slice(), lump.offset, lump.offset + lump.size))
    }

    /// The last directory entry named `name`, compared in normalized form.
    pub fn find_lump(&self, name: &str) -> (r: Option<usize>)
        requires
            self.wf(),
        ensures
            r matches Some(k) ==> last_match(self@, normalize(name.spec_bytes()), entry_count(self@))
                == Some(k as int),
            r is None ==> last_match(self@, normalize(name.spec_bytes()), entry_count(self@)) is None,
    {
        let all = self.find_all(name);
        proof {
            lemma_last_of_all(self@, normalize(name.spec_bytes()), entry_count(self@));
        }
        if all.len() == 0 {
            None
        } else {
            Some(all[all.len() - 1])
        }
    }

    /// Every directory entry named `name`, compared in normalized form, in
    /// directory order.
    pub fn find_all(&self, name: &str) -> (r: Vec<usize>)
        requires
            self.wf(),
        ensures
            r@.map_values(|k: usize| k as int) == all_matches(
                self@,
                normalize(name.spec_bytes()),
                entry_count(self@),
            ),
    {
        let q = normalize_name(name.as_bytes());
        let h = key_of(q.as_slice());
        let ghost b = self@;
        let ghost n = self.dir_len as int;
        proof {
            lemma_named_keyed(b, q@, n);
            lemma_keyed_bounds(b, h, n);
            assert(positions(self.index@, h) == keyed(b, h, n));
        }
        let mut r: Vec<usize> = Vec::new();
        match self.index.get(&h) {
            None => {
                assert(r@.map_values(|k: usize| k as int) =~= named(b, q@, keyed(b, h, n)));
            },
            Some(p) => {
                let ghost ps = p@.map_values(|k: usize| k as int);
                assert(ps == keyed(b, h, n));
                let mut j: usize = 0;
                while j < p.len()
                    invariant
                        self.wf(),
                        b == self@,
                        n == self.dir_len,
                        ps == p@.map_values(|k: usize| k as int),
                        ps == keyed(b, h, n),
                        forall|t: int| 0 <= t < ps.len() ==> 0 <= #[trigger] ps[t] < n,
                        j <= p@.len(),
                        r@.map_values(|k: usize| k as int) == named(b, q@, ps.subrange(0, j as int)),
                    decreases p@.len() - j,
                {
                    let i = p[j];
                    assert(ps[j as int] == i);
                    let lump = &self.lumps[i];
                    assert(lump.describes(b, i as int));
                    let ghost done = r@;
                    assert(ps.subrange(0, j + 1).drop_last() =~= ps.subrange(0, j as int));
                    if bytes_eq(lump.key.as_slice(), q.as_slice()) {
                        r.push(i);
                        assert(r@.map_values(|k: usize| k as int) =~= done.map_values(
                            |k: usize| k as int,
                        ).push(i as int));
                    }
                    j = j + 1;
                }
                assert(ps.subrange(0, ps.len() as int) =~= ps);
            },
        }
        r
    }
}

} // verus!

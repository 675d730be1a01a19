use vstd::prelude::*;

use crate::objects::{copy_range, Type};
use crate::oid::{ObjectId, ID_LEN};

verus! {

/// Where the ids start in an index file: after the magic, the version and
/// the 256-entry fan-out table.
pub const IDS_AT: usize = 1032;

/// Smallest index file: header, fan-out and the two trailing checksums.
pub const MIN_INDEX: usize = 1072;

/// Largest weight a seven-bit group of an entry's size field may have; a
/// longer size field marks the entry corrupt.
pub const SIZE_LIMIT: u64 = 0x100000000000000;

/// Big-endian 32-bit word at `pos`.
pub open spec fn be32(b: Seq<u8>, pos: int) -> nat {
    (b[pos] as nat) * 0x1000000 + (b[pos + 1] as nat) * 0x10000 + (b[pos + 2] as nat) * 0x100
        + (b[pos + 3] as nat)
}

/// Big-endian 64-bit word at `pos`.
pub open spec fn be64(b: Seq<u8>, pos: int) -> nat {
    be32(b, pos) * 0x100000000 + be32(b, pos + 4)
}

/// The magic and version 2 that open an index file.
pub open spec fn index_magic() -> Seq<u8> {
    seq![0xffu8, 0x74, 0x4f, 0x63, 0, 0, 0, 2]
}

/// Number of objects an index file lists: the last fan-out entry.
pub open spec fn index_count(b: Seq<u8>) -> nat {
    be32(b, 1028)
}

/// Bytes after the offset table: the table of large offsets and the trailer.
pub open spec fn large_count(b: Seq<u8>) -> int {
    (b.len() - MIN_INDEX - 28 * index_count(b)) / 8
}

/// `b` is a well-formed index file: the magic and version, room for every
/// id, checksum and offset it announces, and a whole table of large offsets.
pub open spec fn index_valid(b: Seq<u8>) -> bool {
    &&& b.len() >= MIN_INDEX
    &&& b.subrange(0, 8) == index_magic()
    &&& MIN_INDEX + 28 * index_count(b) <= b.len()
    &&& (b.len() - MIN_INDEX - 28 * index_count(b)) % 8 == 0
}

/// The `k`-th id listed.
pub open spec fn id_at(b: Seq<u8>, k: int) -> Seq<u8> {
    b.subrange(IDS_AT + 20 * k, IDS_AT + 20 * k + 20)
}

/// The pack offset of the `k`-th object: a 31-bit offset, or, with the top
/// bit set, a slot of the table of large offsets. None for a slot past it.
pub open spec fn offset_at(b: Seq<u8>, k: int) -> Option<nat> {
    let n = index_count(b);
    let w = be32(b, IDS_AT + 24 * n + 4 * k);
    if w < 0x80000000 {
        Some(w)
    } else if w - 0x80000000 < large_count(b) {
        Some(be64(b, IDS_AT + 28 * n + 8 * (w - 0x80000000)))
    } else {
        None
    }
}

/// A pack index: which objects a pack holds, and where.
pub struct PackIndex {
    bytes: Vec<u8>,
    count: usize,
}

/// Errors of the pack backend.
#[derive(Clone, Copy, Debug, PartialEq, Eq, Structural)]
pub enum PackError {
    /// The index file is malformed.
    BadIndex,
    /// The pack file is malformed.
    BadPack,
    /// The entry at a resolved offset is corrupt.
    BadEntry,
    /// The entry is a delta, which this backend does not resolve.
    Delta,
}

pub fn read_be32(b: &[u8], pos: usize) -> (r: u64)
    requires
        pos + 4 <= b@.len(),
    ensures
        r == be32(b@, pos as int),
{
    (b[pos] as u64) * 0x1000000 + (b[pos + 1] as u64) * 0x10000 + (b[pos + 2] as u64) * 0x100
        + (b[pos + 3] as u64)
}

pub fn read_be64(b: &[u8], pos: usize) -> (r: u64)
    requires
        pos + 8 <= b@.len(),
    ensures
        r == be64(b@, pos as int),
{
    let len = b.len();
    let hi = read_be32(b, pos);
    let lo = read_be32(b, pos + 4);
    assert(hi * 0x100000000 + lo <= u64::MAX) by (nonlinear_arith)
        requires
            hi < 0x100000000,
            lo < 0x100000000,
    ;
    hi * 0x100000000 + lo
}

impl PackIndex {
    pub closed spec fn spec_bytes(&self) -> Seq<u8> {
        self.bytes@
    }

    pub closed spec fn wf(&self) -> bool {
        index_valid(self.bytes@) && self.count == index_count(self.bytes@) && self.bytes@.len()
            <= usize::MAX
    }

    /// Number of objects listed.
    pub open spec fn len(&self) -> nat {
        index_count(self.spec_bytes())
    }

    /// The index held in `b`, if `b` is a well-formed index file.
    pub fn parse(b: &[u8]) -> (r: Result<PackIndex, PackError>)
        ensures
            r.is_ok() <==> index_valid(b@),
            r matches Ok(ix) ==> ix.wf() && ix.spec_bytes() == b@,
            r matches Err(e) ==> e == PackError::BadIndex,
    {
        if b.len() < MIN_INDEX {
            return Err(PackError::BadIndex);
        }
        let magic: [u8; 8] = [0xff, 0x74, 0x4f, 0x63, 0, 0, 0, 2];
        assert(magic@ =~= index_magic());
        let mut i: usize = 0;
        while i < 8
            invariant
                i <= 8 <= b@.len(),
                magic@ == index_magic(),
                forall|j: int| 0 <= j < i ==> b@[j] == magic@[j],
            decreases 8 - i,
        {
            if b[i] != magic[i] {
                assert(b@.subrange(0, 8)[i as int] != index_magic()[i as int]);
                return Err(PackError::BadIndex);
            }
            i = i + 1;
        }
        assert(b@.subrange(0, 8) =~= index_magic());
        let n = read_be32(b, 1028);
        let len = b.len() as u64;
        if n > (len - 1072) / 28 {
            return Err(PackError::BadIndex);
        }
        let rest = len - 1072 - 28 * n;
        if rest % 8 != 0 {
            return Err(PackError::BadIndex);
        }
        let bytes = copy_range(b, 0, b.len());
        assert(bytes@ =~= b@);
        Ok(PackIndex { bytes, count: n as usize })
    }

    /// Whether the `k`-th id is `id`.
    fn id_matches(&self, k: usize, id: &ObjectId) -> (r: bool)
        requires
            self.wf(),
            k < self.len(),
            id.wf(),
        ensures
            r <==> id_at(self.spec_bytes(), k as int) == id@,
    {
        let base = IDS_AT + 20 * k;
        let mut j: usize = 0;
        while j < ID_LEN
            invariant
                self.wf(),
                k < self.len(),
                id.wf(),
                base == IDS_AT + 20 * k,
                j <= ID_LEN,
                forall|x: int| 0 <= x < j ==> self.bytes@[base + x] == id@[x],
            decreases ID_LEN - j,
        {
            if self.bytes[base + j] != id.byte(j) {
                assert(id_at(self.bytes@, k as int)[j as int] != id@[j as int]);
                return false;
            }
            j = j + 1;
        }
        assert(id_at(self.bytes@, k as int) =~= id@);
        true
    }

    /// The pack offset of the `k`-th object.
    fn offset(&self, k: usize) -> (r: Option<u64>)
        requires
            self.wf(),
            k < self.len(),
        ensures
            r matches Some(o) ==> offset_at(self.spec_bytes(), k as int) == Some(o as nat),
            r is None ==> offset_at(self.spec_bytes(), k as int) is None,
    {
        let n = self.count;
        let w = read_be32(self.bytes.as_slice(), IDS_AT + 24 * n + 4 * k);
        if w < 0x80000000 {
            return Some(w);
        }
        let slot = w - 0x80000000;
        let large = ((self.bytes.len() - MIN_INDEX - 28 * n) / 8) as u64;
        if slot >= large {
            return None;
        }
        Some(read_be64(self.bytes.as_slice(), IDS_AT + 28 * n + 8 * slot as usize))
    }

    /// Looks `id` up: its pack offset, None when the index does not list it,
    /// or an error when its offset slot points past the table of large offsets.
    pub fn lookup(&self, id: &ObjectId) -> (r: Result<Option<u64>, PackError>)
        requires
            self.wf(),
            id.wf(),
        ensures
            r matches Ok(None) <==> forall|k: int|
                0 <= k < self.len() ==> id_at(self.spec_bytes(), k) != id@,
            r matches Ok(Some(o)) ==> exists|k: int|
                0 <= k < self.len() && id_at(self.spec_bytes(), k) == id@ && offset_at(
                    self.spec_bytes(),
                    k,
                ) == Some(o as nat) && forall|j: int|
                    0 <= j < k ==> id_at(self.spec_bytes(), j) != id@,
            r is Err ==> exists|k: int|
                0 <= k < self.len() && id_at(self.spec_bytes(), k) == id@ && offset_at(
                    self.spec_bytes(),
                    k,
                ) is None && forall|j: int| 0 <= j < k ==> id_at(self.spec_bytes(), j) != id@,
            r matches Err(e) ==> e == PackError::BadIndex,
    {
        let mut k: usize = 0;
        while k < self.count
            invariant
                self.wf(),
                id.wf(),
                k <= self.len(),
                forall|j: int| 0 <= j < k ==> id_at(self.spec_bytes(), j) != id@,
            decreases self.len() - k,
        {
            if self.id_matches(k, id) {
                return match self.offset(k) {
                    Some(o) => Ok(Some(o)),
                    None => Err(PackError::BadIndex),
                };
            }
            k = k + 1;
        }
        Ok(None)
    }
}

/// `k` is the first slot of the index in `b` that lists `id`.
pub open spec fn first_slot(b: Seq<u8>, id: Seq<u8>, k: int) -> bool {
    &&& 0 <= k < index_count(b)
    &&& id_at(b, k) == id
    &&& forall|j: int| 0 <= j < k ==> id_at(b, j) != id
}

/// The kind that a pack entry's type code stands for.
pub open spec fn kind_of_code(c: nat) -> Option<Type> {
    if c == 1 {
        Some(Type::Commit)
    } else if c == 2 {
        Some(Type::Tree)
    } else if c == 3 {
        Some(Type::Blob)
    } else if c == 4 {
        Some(Type::Tag)
    } else {
        None
    }
}

/// The type code of kind `t` in a pack entry's header.
pub open spec fn code_of(t: Type) -> nat {
    match t {
        Type::Commit => 1,
        Type::Tree => 2,
        Type::Blob => 3,
        Type::Tag => 4,
    }
}

/// Reads the rest of an entry's size field from `pos`: seven bits a byte,
/// least significant first, while the top bit is set. Gives the size and
/// where the entry's data starts.
pub open spec fn size_from(b: Seq<u8>, pos: int, acc: nat, mult: nat) -> Option<(nat, int)>
    decreases b.len() - pos,
{
    if pos < 0 || pos >= b.len() || mult > SIZE_LIMIT {
        None
    } else {
        let c = b[pos];
        let acc2 = acc + (c % 128) as nat * mult;
        if c >= 128 {
            size_from(b, pos + 1, acc2, mult * 128)
        } else {
            Some((acc2, pos + 1))
        }
    }
}

/// The header of the entry at `off`: its type code, its size and where its
/// data starts. The first byte holds the code in bits 4 to 6 and the low four
/// bits of the size.
pub open spec fn entry_header(b: Seq<u8>, off: int) -> Option<(nat, nat, int)> {
    if off < 0 || off >= b.len() {
        None
    } else {
        let c = b[off];
        let code = ((c / 16) % 8) as nat;
        if c >= 128 {
            match size_from(b, off + 1, (c % 16) as nat, 16) {
                Some((size, start)) => Some((code, size, start)),
                None => None,
            }
        } else {
            Some((code, (c % 16) as nat, off + 1))
        }
    }
}

/// The entry at `off`: its type code and its data, when the data lies
/// within the pack.
pub open spec fn entry_at(b: Seq<u8>, off: int) -> Option<(nat, Seq<u8>)> {
    match entry_header(b, off) {
        Some((code, size, start)) => if start + size <= b.len() {
            Some((code, b.subrange(start, start + size)))
        } else {
            None
        },
        None => None,
    }
}

/// The entry at `off` is whole and is an object of one of the four kinds.
pub open spec fn entry_readable(b: Seq<u8>, off: int) -> bool {
    entry_at(b, off) matches Some((c, _)) && kind_of_code(c) is Some
}

/// The error that reading the entry at `off` gives.
pub open spec fn entry_error(b: Seq<u8>, off: int) -> PackError {
    if entry_at(b, off) matches Some((c, _)) && (c == 6 || c == 7) {
        PackError::Delta
    } else {
        PackError::BadEntry
    }
}

/// The signature that opens a pack file.
pub open spec fn pack_magic() -> Seq<u8> {
    seq![80u8, 65, 67, 75]
}

/// `p` is a pack file that goes with an index of `n` objects: the signature,
/// version 2 or 3, the same object count, and room for the trailing checksum.
pub open spec fn pack_matches(p: Seq<u8>, n: nat) -> bool {
    &&& p.len() >= 32
    &&& p.subrange(0, 4) == pack_magic()
    &&& (be32(p, 4) == 2 || be32(p, 4) == 3)
    &&& be32(p, 8) == n
}

/// Reads the entry of `data` at `off`.
pub fn read_entry(data: &[u8], off: u64) -> (r: Result<(Type, Vec<u8>), PackError>)
    ensures
        r.is_ok() <==> entry_readable(data@, off as int),
        r matches Ok((t, body)) ==> entry_at(data@, off as int) == Some((code_of(t), body@)),
        r matches Err(e) ==> e == entry_error(data@, off as int),
{
    let n = data.len();
    if off >= n as u64 {
        return Err(PackError::BadEntry);
    }
    let ghost h = entry_header(data@, off as int);
    let first = data[off as usize];
    let code = (first / 16) % 8;
    let mut size: u64 = (first % 16) as u64;
    let mut pos: usize = off as usize + 1;
    let mut mult: u64 = 16;
    let mut more = first >= 128;
    while more
        invariant
            n == data@.len(),
            off < n,
            h == entry_header(data@, off as int),
            (first / 16) % 8 == code,
            pos <= n,
            more ==> size < mult <= SIZE_LIMIT * 128,
            more ==> match size_from(data@, pos as int, size as nat, mult as nat) {
                Some((sz, st)) => h == Some((code as nat, sz, st)),
                None => h is None,
            },
            !more ==> h == Some((code as nat, size as nat, pos as int)),
        decreases n - pos,
    {
        if pos >= n || mult > SIZE_LIMIT {
            return Err(PackError::BadEntry);
        }
        let c = data[pos];
        assert((c % 128) as u64 * mult <= 127 * SIZE_LIMIT) by (nonlinear_arith)
            requires
                c % 128 <= 127,
                mult <= SIZE_LIMIT,
        ;
        assert(size + (c % 128) as u64 * mult < mult * 128) by (nonlinear_arith)
            requires
                c % 128 <= 127,
                size < mult,
        ;
        size = size + (c % 128) as u64 * mult;
        pos = pos + 1;
        if c >= 128 {
            mult = mult * 128;
        } else {
            more = false;
        }
    }
    if size > (n - pos) as u64 {
        return Err(PackError::BadEntry);
    }
    let end = pos + size as usize;
    let t = if code == 1 {
        Type::Commit
    } else if code == 2 {
        Type::Tree
    } else if code == 3 {
        Type::Blob
    } else if code == 4 {
        Type::Tag
    } else if code == 6 || code == 7 {
        return Err(PackError::Delta);
    } else {
        return Err(PackError::BadEntry);
    };
    let body = copy_range(data, pos, end);
    Ok((t, body))
}

/// What looking `id` up in index `ix` and pack `data` gives: nothing when the
/// index does not list it; else the entry at the offset of the first slot
/// that lists it, or the error that offset or entry gives.
pub open spec fn pack_result(ix: Seq<u8>, data: Seq<u8>, id: Seq<u8>) -> Result<
    Option<(Type, Seq<u8>)>,
    PackError,
> {
    if forall|k: int| 0 <= k < index_count(ix) ==> id_at(ix, k) != id {
        Ok(None)
    } else {
        let k = choose|k: int| first_slot(ix, id, k);
        match offset_at(ix, k) {
            None => Err(PackError::BadIndex),
            Some(o) => match entry_at(data, o as int) {
                Some((c, body)) => match kind_of_code(c) {
                    Some(t) => Ok(Some((t, body))),
                    None => Err(entry_error(data, o as int)),
                },
                None => Err(entry_error(data, o as int)),
            },
        }
    }
}

/// A lookup result with its data as a sequence.
pub open spec fn result_view(r: Result<Option<(Type, Vec<u8>)>, PackError>) -> Result<
    Option<(Type, Seq<u8>)>,
    PackError,
> {
    match r {
        Ok(Some((t, body))) => Ok(Some((t, body@))),
        Ok(None) => Ok(None),
        Err(e) => Err(e),
    }
}

/// Only one slot is the first to list an id.
pub proof fn lemma_first_slot_unique(ix: Seq<u8>, id: Seq<u8>, k1: int, k2: int)
    requires
        first_slot(ix, id, k1),
        first_slot(ix, id, k2),
    ensures
        k1 == k2,
{
    if k1 < k2 {
        assert(id_at(ix, k1) != id);
    } else if k2 < k1 {
        assert(id_at(ix, k2) != id);
    }
}

/// The pack backend: one pack file and its index.
pub struct PackStore {
    data: Vec<u8>,
    index: PackIndex,
}

impl PackStore {
    pub closed spec fn spec_data(&self) -> Seq<u8> {
        self.data@
    }

    pub closed spec fn spec_index(&self) -> Seq<u8> {
        self.index.spec_bytes()
    }

    pub closed spec fn wf(&self) -> bool {
        self.index.wf()
    }

    /// Pairs the pack file `pack` with its index. Fails when the pack is not
    /// a pack file for that index.
    pub fn new(pack: &[u8], index: PackIndex) -> (r: Result<PackStore, PackError>)
        requires
            index.wf(),
        ensures
            r.is_ok() <==> pack_matches(pack@, index.len()),
            r matches Ok(s) ==> s.wf() && s.spec_data() == pack@ && s.spec_index()
                == index.spec_bytes(),
            r matches Err(e) ==> e == PackError::BadPack,
    {
        if pack.len() < 32 {
            return Err(PackError::BadPack);
        }
        if !(pack[0] == 80 && pack[1] == 65 && pack[2] == 67 && pack[3] == 75) {
            proof {
                assert(pack@.subrange(0, 4)[0] == pack@[0]);
                assert(pack@.subrange(0, 4)[1] == pack@[1]);
                assert(pack@.subrange(0, 4)[2] == pack@[2]);
                assert(pack@.subrange(0, 4)[3] == pack@[3]);
            }
            return Err(PackError::BadPack);
        }
        assert(pack@.subrange(0, 4) =~= pack_magic());
        let version = read_be32(pack, 4);
        if version != 2 && version != 3 {
            return Err(PackError::BadPack);
        }
        if read_be32(pack, 8) != index.count as u64 {
            return Err(PackError::BadPack);
        }
        let data = copy_range(pack, 0, pack.len());
        assert(data@ =~= pack@);
        Ok(PackStore { data, index })
    }

    /// Looks `id` up: None when the index does not list it; else the kind
    /// and data of the entry at the offset the index gives.
    pub fn find(&self, id: &ObjectId) -> (r: Result<Option<(Type, Vec<u8>)>, PackError>)
        requires
            self.wf(),
            id.wf(),
        ensures
            result_view(r) == pack_result(self.spec_index(), self.spec_data(), id@),
            r matches Ok(None) <==> forall|k: int|
                0 <= k < index_count(self.spec_index()) ==> id_at(self.spec_index(), k) != id@,
            r matches Ok(Some((t, body))) ==> exists|k: int, o: nat|
                #![trigger first_slot(self.spec_index(), id@, k), entry_at(self.spec_data(), o as int)]
                first_slot(self.spec_index(), id@, k) && offset_at(self.spec_index(), k) == Some(o)
                    && entry_at(self.spec_data(), o as int) == Some((code_of(t), body@)),
            r matches Err(e) ==> (e == PackError::BadIndex && exists|k: int|
                first_slot(self.spec_index(), id@, k) && offset_at(self.spec_index(), k) is None)
                || exists|k: int, o: nat|
                #![trigger first_slot(self.spec_index(), id@, k), entry_error(self.spec_data(), o as int)]
                first_slot(self.spec_index(), id@, k) && offset_at(self.spec_index(), k) == Some(o)
                    && !entry_readable(self.spec_data(), o as int) && e == entry_error(
                    self.spec_data(),
                    o as int,
                ),
    {
        let b = Ghost(self.spec_index());
        match self.index.lookup(id) {
            Err(e) => {
                proof {
                    let k = choose|k: int|
                        0 <= k < index_count(b@) && id_at(b@, k) == id@ && offset_at(b@, k) is None
                            && forall|j: int| 0 <= j < k ==> id_at(b@, j) != id@;
                    assert(first_slot(b@, id@, k));
                    let c = choose|k: int| first_slot(b@, id@, k);
                    lemma_first_slot_unique(b@, id@, k, c);
                }
                Err(e)
            },
            Ok(None) => Ok(None),
            Ok(Some(off)) => {
                let ghost k = choose|k: int|
                    0 <= k < index_count(b@) && id_at(b@, k) == id@ && offset_at(b@, k) == Some(
                        off as nat,
                    ) && forall|j: int| 0 <= j < k ==> id_at(b@, j) != id@;
                proof {
                    assert(first_slot(b@, id@, k));
                    assert(id_at(b@, k) == id@);
                    let c = choose|k: int| first_slot(b@, id@, k);
                    lemma_first_slot_unique(b@, id@, k, c);
                }
                match read_entry(self.data.as_slice(), off) {
                    Ok((t, body)) => {
                        assert(offset_at(b@, k) == Some(off as nat));
                        assert(entry_at(self.spec_data(), (off as nat) as int) == Some((code_of(t), body@)));
                        Ok(Some((t, body)))
                    },
                    Err(e) => Err(e),
                }
            },
        }
    }
}

} // verus!

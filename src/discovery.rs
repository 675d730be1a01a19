use vstd::prelude::*;

use crate::loose::LooseStore;
use crate::objects::copy_range;
use crate::pack::{index_valid, pack_matches, index_count, PackError, PackIndex, PackStore};
use crate::store::{Backend, StorageSet};

verus! {

/// The suffix of an index file's name.
pub open spec fn idx_suffix() -> Seq<u8> {
    seq![46u8, 105, 100, 120]
}

/// The suffix of a pack file's name.
pub open spec fn pack_suffix() -> Seq<u8> {
    seq![46u8, 112, 97, 99, 107]
}

/// `s` ends with `p`.
pub open spec fn ends_with(s: Seq<u8>, p: Seq<u8>) -> bool {
    p.len() <= s.len() && s.subrange(s.len() - p.len(), s.len() as int) == p
}

/// The name of the pack file that goes with the index file `name`: the same
/// base name with `.pack` for `.idx`. None when `name` is not an index file.
pub fn pack_name_for(name: &[u8]) -> (r: Option<Vec<u8>>)
    ensures
        r.is_some() <==> ends_with(name@, idx_suffix()),
        r matches Some(p) ==> p@ == name@.subrange(0, name@.len() - 4) + pack_suffix(),
{
    let n = name.len();
    if n < 4 || name[n - 4] != 46 || name[n - 3] != 105 || name[n - 2] != 100 || name[n - 1] != 120 {
        proof {
            if n >= 4 {
                let t = name@.subrange(n - 4, n as int);
                assert(t[0] == name@[n - 4] && t[1] == name@[n - 3] && t[2] == name@[n - 2] && t[3]
                    == name@[n - 1]);
            }
        }
        return None;
    }
    assert(name@.subrange(n - 4, n as int) =~= idx_suffix());
    let mut p = copy_range(name, 0, n - 4);
    p.push(46);
    p.push(112);
    p.push(97);
    p.push(99);
    p.push(107);
    assert(p@ =~= name@.subrange(0, n - 4) + pack_suffix());
    Some(p)
}

/// Builds the pack backend of one index file `idx` and its pack file `pack`
/// (None when the pack file is missing). A malformed index is a hard error;
/// a missing pack file, or one that does not go with the index, leaves the
/// backend out.
pub fn pack_backend_for(idx: &[u8], pack: Option<&[u8]>) -> (r: Result<Option<PackStore>, PackError>)
    ensures
        r is Err <==> !index_valid(idx@),
        r matches Err(e) ==> e == PackError::BadIndex,
        r matches Ok(Some(s)) ==> (s.wf() && s.spec_index() == idx@ && pack is Some
            && s.spec_data() == pack->Some_0@),
        r matches Ok(None) ==> index_valid(idx@) && (pack is None || !pack_matches(
            pack->Some_0@,
            index_count(idx@),
        )),
        (index_valid(idx@) && pack is Some && pack_matches(pack->Some_0@, index_count(idx@)))
            ==> (r is Ok && r->Ok_0 is Some),
{
    let index = match PackIndex::parse(idx) {
        Ok(ix) => ix,
        Err(e) => {
            return Err(e);
        },
    };
    match pack {
        None => Ok(None),
        Some(p) => match PackStore::new(p, index) {
            Ok(s) => Ok(Some(s)),
            Err(_) => Ok(None),
        },
    }
}

/// Assembles the storage set of a repository: the loose backend first, then
/// the pack backends in the order given.
pub fn from(loose: LooseStore, packs: Vec<PackStore>) -> (r: StorageSet)
    ensures
        r.spec_backends().len() == packs@.len() + 1,
        r.spec_backends()[0] == Backend::Loose(loose),
        forall|i: int| 0 <= i < packs@.len() ==> r.spec_backends()[i + 1] == Backend::Pack(#[trigger] packs@[i]),
        loose.wf() && (forall|i: int| 0 <= i < packs@.len() ==> (#[trigger] packs@[i]).wf()) ==> r.wf(),
{
    let mut backends: Vec<Backend> = Vec::new();
    backends.push(Backend::Loose(loose));
    let mut packs = packs;
    let ghost orig = packs@;
    let total = packs.len();
    let mut k: usize = 0;
    while packs.len() > 0
        invariant
            orig.len() == total,
            k + packs@.len() == orig.len(),
            packs@ == orig.subrange(k as int, orig.len() as int),
            backends@.len() == k + 1,
            backends@[0] == Backend::Loose(loose),
            forall|i: int| 0 <= i < k ==> backends@[i + 1] == Backend::Pack(#[trigger] orig[i]),
        decreases packs@.len(),
    {
        let p = packs.remove(0);
        backends.push(Backend::Pack(p));
        k = k + 1;
        assert(packs@ =~= orig.subrange(k as int, orig.len() as int));
    }
    let r = StorageSet::new(backends);
    proof {
        if loose.wf() && (forall|i: int| 0 <= i < orig.len() ==> (#[trigger] orig[i]).wf()) {
            assert forall|i: int| 0 <= i < r.spec_backends().len() implies #[trigger] r.spec_backends()[i].wf() by {
                if i > 0 {
                    assert(r.spec_backends()[(i - 1) + 1] == Backend::Pack(orig[i - 1]));
                }
            }
        }
    }
    r
}

} // verus!

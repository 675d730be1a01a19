use vstd::prelude::*;

use crate::loose::{is_loose_object, parse_loose, LooseError, LooseStore};
use crate::objects::Type;
use crate::oid::{hex_of, ObjectId};
use crate::pack::{pack_result, PackError, PackStore};

verus! {

/// One backend of a storage set.
pub enum Backend {
    Loose(LooseStore),
    Pack(PackStore),
}

impl Backend {
    pub open spec fn wf(&self) -> bool {
        match self {
            Backend::Loose(l) => l.wf(),
            Backend::Pack(p) => p.wf(),
        }
    }
}

/// A hard error from one backend.
#[derive(Clone, Copy, Debug, PartialEq, Eq, Structural)]
pub enum StoreError {
    Loose(LooseError),
    Pack(PackError),
}

/// What a lookup asks for next.
pub enum Step {
    /// Open `<root of loose backend>/<dir>/<file>` and pass what it holds, or
    /// its absence, to `StorageSet::resume`.
    Open { backend: usize, dir: Vec<u8>, file: Vec<u8> },
    /// The lookup is over: the kind and body found, nothing, or an error.
    Done(Result<Option<(Type, Vec<u8>)>, StoreError>),
}

/// The mathematical form of a `Step`.
pub ghost enum Outcome {
    Open(int, Seq<u8>, Seq<u8>),
    Done(Result<Option<(Type, Seq<u8>)>, StoreError>),
}

impl Step {
    pub open spec fn view(&self) -> Outcome {
        match self {
            Step::Open { backend, dir, file } => Outcome::Open(*backend as int, dir@, file@),
            Step::Done(Ok(Some((t, body)))) => Outcome::Done(Ok(Some((*t, body@)))),
            Step::Done(Ok(None)) => Outcome::Done(Ok(None)),
            Step::Done(Err(e)) => Outcome::Done(Err(*e)),
        }
    }
}

/// What a scan of `bs` for `id` gives, from backend `i` on: backends are asked
/// in order; a loose backend whose filter marks the id's bucket is asked to
/// open the object's file; the first pack that lists the id, or the first
/// error, ends the scan; when none is left, the id is not found.
pub open spec fn scan(bs: Seq<Backend>, id: Seq<u8>, i: int) -> Outcome
    decreases bs.len() - i,
{
    if i < 0 || i >= bs.len() {
        Outcome::Done(Ok(None))
    } else {
        match bs[i] {
            Backend::Loose(l) => if l.marks(id[0] as int) {
                Outcome::Open(i, hex_of(id).subrange(0, 2), hex_of(id).subrange(2, hex_of(id).len() as int))
            } else {
                scan(bs, id, i + 1)
            },
            Backend::Pack(p) => match pack_result(p.spec_index(), p.spec_data(), id) {
                Ok(None) => scan(bs, id, i + 1),
                Ok(Some(x)) => Outcome::Done(Ok(Some(x))),
                Err(e) => Outcome::Done(Err(StoreError::Pack(e))),
            },
        }
    }
}

/// An ordered set of backends, asked first to last.
pub struct StorageSet {
    backends: Vec<Backend>,
}

impl StorageSet {
    pub closed spec fn spec_backends(&self) -> Seq<Backend> {
        self.backends@
    }

    pub open spec fn wf(&self) -> bool {
        forall|i: int| 0 <= i < self.spec_backends().len() ==> #[trigger] self.spec_backends()[i].wf()
    }

    /// A storage set asking `backends` in their order.
    pub fn new(backends: Vec<Backend>) -> (r: StorageSet)
        ensures
            r.spec_backends() == backends@,
    {
        StorageSet { backends }
    }

    /// Number of backends.
    pub fn len(&self) -> (r: usize)
        ensures
            r == self.spec_backends().len(),
    {
        self.backends.len()
    }

    /// The backend at position `i`.
    pub fn backend(&self, i: usize) -> (r: &Backend)
        requires
            i < self.spec_backends().len(),
        ensures
            *r == self.spec_backends()[i as int],
    {
        &self.backends[i]
    }

    /// Starts looking `id` up.
    pub fn find(&self, id: &ObjectId) -> (r: Step)
        requires
            self.wf(),
            id.wf(),
        ensures
            r@ == scan(self.spec_backends(), id@, 0),
    {
        self.scan_from(id, 0)
    }

    /// Goes on looking `id` up from backend `start`.
    pub fn scan_from(&self, id: &ObjectId, start: usize) -> (r: Step)
        requires
            self.wf(),
            id.wf(),
        ensures
            r@ == scan(self.spec_backends(), id@, start as int),
    {
        let mut i: usize = start;
        while i < self.backends.len()
            invariant
                self.wf(),
                id.wf(),
                scan(self.spec_backends(), id@, i as int) == scan(
                    self.spec_backends(),
                    id@,
                    start as int,
                ),
            decreases self.spec_backends().len() - i,
        {
            assert(self.backends@[i as int].wf());
            match &self.backends[i] {
                Backend::Loose(l) => {
                    if let Some((dir, file)) = l.find(id) {
                        let ghost h = hex_of(id@);
                        assert(dir@ =~= h.subrange(0, 2));
                        assert(file@ =~= h.subrange(2, h.len() as int));
                        return Step::Open { backend: i, dir, file };
                    }
                },
                Backend::Pack(p) => {
                    match p.find(id) {
                        Ok(None) => {},
                        Ok(Some(x)) => {
                            return Step::Done(Ok(Some(x)));
                        },
                        Err(e) => {
                            return Step::Done(Err(StoreError::Pack(e)));
                        },
                    }
                },
            }
            i = i + 1;
        }
        Step::Done(Ok(None))
    }

    /// Goes on after the loose backend `at` was asked to open the file of
    /// `id`: `file` is what the file holds, or None when there is no such
    /// file. A missing file lets the scan go on with the next backend.
    pub fn resume(&self, id: &ObjectId, at: usize, file: Option<Vec<u8>>) -> (r: Step)
        requires
            self.wf(),
            id.wf(),
            at < self.spec_backends().len(),
        ensures
            file is None ==> r@ == scan(self.spec_backends(), id@, at + 1),
            file matches Some(b) ==> (r@ matches Outcome::Done(Ok(Some((t, body))))
                ==> is_loose_object(b@, t, body)),
            file matches Some(b) ==> (r@ matches Outcome::Done(Ok(Some(_))) || r@
                == Outcome::Done(Err(StoreError::Loose(LooseError::BadHeader)))),
            file matches Some(b) ==> (r@ == Outcome::Done(Err(StoreError::Loose(LooseError::BadHeader)))
                <==> !exists|t: Type, body: Seq<u8>| is_loose_object(b@, t, body)),
    {
        let n = self.backends.len();
        match file {
            None => self.scan_from(id, at + 1),
            Some(b) => match parse_loose(b.as_slice()) {
                Ok((t, body)) => Step::Done(Ok(Some((t, body)))),
                Err(e) => Step::Done(Err(StoreError::Loose(e))),
            },
        }
    }
}

/// A set with no backends finds nothing, and reports that as no error.
pub proof fn lemma_empty_set_not_found(id: Seq<u8>)
    ensures
        scan(Seq::<Backend>::empty(), id, 0) == Outcome::Done(Ok(None)),
{
}

/// Backends are asked in order and the first that answers decides: when a
/// pack at the front of the set holds `id`, the lookup gives that pack's
/// answer, whatever the backends behind it hold.
pub proof fn lemma_first_pack_wins(bs: Seq<Backend>, id: Seq<u8>)
    requires
        bs.len() >= 1,
        bs[0] is Pack,
        pack_result(bs[0]->Pack_0.spec_index(), bs[0]->Pack_0.spec_data(), id) is Ok,
        pack_result(bs[0]->Pack_0.spec_index(), bs[0]->Pack_0.spec_data(), id) != Ok::<
            Option<(Type, Seq<u8>)>,
            PackError,
        >(None),
    ensures
        scan(bs, id, 0) == Outcome::Done(Ok(pack_result(bs[0]->Pack_0.spec_index(), bs[0]->Pack_0.spec_data(), id)->Ok_0)),
{
}

/// When a loose backend at the front of the set has the id's bucket, its
/// file is the first place looked at, whatever the backends behind it hold.
pub proof fn lemma_first_loose_first_asked(bs: Seq<Backend>, id: Seq<u8>)
    requires
        bs.len() >= 1,
        bs[0] is Loose,
        id.len() > 0,
        bs[0]->Loose_0.marks(id[0] as int),
    ensures
        scan(bs, id, 0) == Outcome::Open(0, hex_of(id).subrange(0, 2), hex_of(id).subrange(2, hex_of(id).len() as int)),
{
}

/// Looking up is the same on a set and on the set with backends appended
/// behind the first backend that answers.
pub proof fn lemma_scan_prefix_decides(bs: Seq<Backend>, more: Seq<Backend>, id: Seq<u8>, i: int)
    requires
        0 <= i <= bs.len(),
        !(scan(bs, id, i) matches Outcome::Done(Ok(None))),
    ensures
        scan(bs + more, id, i) == scan(bs, id, i),
    decreases bs.len() - i,
{
    if i < bs.len() {
        assert((bs + more)[i] == bs[i]);
        if scan(bs, id, i) == scan(bs, id, i + 1) && scan(bs + more, id, i) == scan(
            bs + more,
            id,
            i + 1,
        ) {
            lemma_scan_prefix_decides(bs, more, id, i + 1);
        }
    }
}

} // verus!

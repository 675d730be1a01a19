use vstd::prelude::*;

verus! {

/// The four kinds of stored objects.
#[derive(Clone, Copy, Debug, PartialEq, Eq, Structural)]
pub enum Type {
    Commit,
    Tree,
    Blob,
    Tag,
}

/// `p` is a prefix of `s`.
pub open spec fn starts_with(s: Seq<u8>, p: Seq<u8>) -> bool {
    p.len() <= s.len() && s.subrange(0, p.len() as int) == p
}

/// A commit body opens with its tree line: `tree `.
pub open spec fn commit_lead() -> Seq<u8> {
    seq![116u8, 114, 101, 101, 32]
}

/// A tag body opens with the object it names: `object `.
pub open spec fn tag_lead() -> Seq<u8> {
    seq![111u8, 98, 106, 101, 99, 116, 32]
}

/// Whether the decoder of kind `t` accepts the body `b`.
pub open spec fn decodable(t: Type, b: Seq<u8>) -> bool {
    match t {
        Type::Commit => starts_with(b, commit_lead()),
        Type::Tag => starts_with(b, tag_lead()),
        Type::Tree => true,
        Type::Blob => true,
    }
}

/// A decoded commit; its body starts with the tree line.
pub struct Commit {
    pub data: Vec<u8>,
}

/// A decoded tree.
pub struct Tree {
    pub data: Vec<u8>,
}

/// A decoded blob: its content, byte for byte.
pub struct Blob {
    pub data: Vec<u8>,
}

/// A decoded tag; its body starts with the object line.
pub struct Tag {
    pub data: Vec<u8>,
}

/// An object decoded into the variant of its kind.
pub enum Object {
    Commit(Commit),
    Tree(Tree),
    Blob(Blob),
    Tag(Tag),
}

/// A body that the decoder of its kind rejects.
#[derive(Clone, Copy, Debug, PartialEq, Eq, Structural)]
pub enum DecodeError {
    Malformed(Type),
}

impl Object {
    /// The kind of the object.
    pub open spec fn kind(&self) -> Type {
        match self {
            Object::Commit(_) => Type::Commit,
            Object::Tree(_) => Type::Tree,
            Object::Blob(_) => Type::Blob,
            Object::Tag(_) => Type::Tag,
        }
    }

    /// The body the object was decoded from.
    pub open spec fn body(&self) -> Seq<u8> {
        match self {
            Object::Commit(c) => c.data@,
            Object::Tree(t) => t.data@,
            Object::Blob(b) => b.data@,
            Object::Tag(t) => t.data@,
        }
    }

    /// The bytes the object is stored as: writing it back gives what it was
    /// loaded from.
    pub fn to_bytes(&self) -> (r: Vec<u8>)
        ensures
            r@ == self.body(),
    {
        match self {
            Object::Commit(c) => c.data.clone(),
            Object::Tree(t) => t.data.clone(),
            Object::Blob(b) => b.data.clone(),
            Object::Tag(t) => t.data.clone(),
        }
    }

    /// The length of the body.
    pub fn len(&self) -> (r: usize)
        ensures
            r == self.body().len(),
    {
        match self {
            Object::Commit(c) => c.data.len(),
            Object::Tree(t) => t.data.len(),
            Object::Blob(b) => b.data.len(),
            Object::Tag(t) => t.data.len(),
        }
    }
}

/// A vector holding the bytes of `s`.
pub fn copy_bytes(s: &[u8]) -> (r: Vec<u8>)
    ensures
        r@ == s@,
{
    let mut v: Vec<u8> = Vec::new();
    let mut i: usize = 0;
    while i < s.len()
        invariant
            i <= s@.len(),
            v@ == s@.subrange(0, i as int),
        decreases s@.len() - i,
    {
        v.push(s[i]);
        i = i + 1;
        assert(v@ =~= s@.subrange(0, i as int));
    }
    assert(v@ =~= s@);
    v
}

/// A vector holding the bytes of `s` from `lo` up to `hi`.
pub fn copy_range(s: &[u8], lo: usize, hi: usize) -> (r: Vec<u8>)
    requires
        lo <= hi <= s@.len(),
    ensures
        r@ == s@.subrange(lo as int, hi as int),
{
    let mut v: Vec<u8> = Vec::new();
    let mut i: usize = lo;
    while i < hi
        invariant
            lo <= i <= hi <= s@.len(),
            v@ == s@.subrange(lo as int, i as int),
        decreases hi - i,
    {
        v.push(s[i]);
        i = i + 1;
        assert(v@ =~= s@.subrange(lo as int, i as int));
    }
    v
}

/// Whether `s` opens with `p`.
pub fn has_prefix(s: &[u8], p: &[u8]) -> (r: bool)
    ensures
        r <==> starts_with(s@, p@),
{
    if p.len() > s.len() {
        return false;
    }
    let mut i: usize = 0;
    while i < p.len()
        invariant
            p@.len() <= s@.len(),
            i <= p@.len(),
            forall|j: int| 0 <= j < i ==> s@[j] == p@[j],
        decreases p@.len() - i,
    {
        if s[i] != p[i] {
            assert(s@.subrange(0, p@.len() as int)[i as int] != p@[i as int]);
            return false;
        }
        i = i + 1;
    }
    assert(s@.subrange(0, p@.len() as int) =~= p@);
    true
}

impl Type {
    /// Decodes `stream` as an object of this kind.
    pub fn load(&self, stream: &[u8]) -> (r: Result<Object, DecodeError>)
        ensures
            r.is_ok() <==> decodable(*self, stream@),
            r matches Ok(o) ==> o.kind() == *self && o.body() == stream@,
            r matches Err(e) ==> e == DecodeError::Malformed(*self),
    {
        let data = copy_bytes(stream);
        match self {
            Type::Commit => {
                let lead: [u8; 5] = [116, 114, 101, 101, 32];
                assert(lead@ =~= commit_lead());
                if has_prefix(stream, lead.as_slice()) {
                    Ok(Object::Commit(Commit { data }))
                } else {
                    Err(DecodeError::Malformed(Type::Commit))
                }
            },
            Type::Tree => Ok(Object::Tree(Tree { data })),
            Type::Tag => {
                let lead: [u8; 7] = [111, 98, 106, 101, 99, 116, 32];
                assert(lead@ =~= tag_lead());
                if has_prefix(stream, lead.as_slice()) {
                    Ok(Object::Tag(Tag { data }))
                } else {
                    Err(DecodeError::Malformed(Type::Tag))
                }
            },
            Type::Blob => Ok(Object::Blob(Blob { data })),
        }
    }
}


} // verus!

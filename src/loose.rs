use vstd::prelude::*;

use crate::objects::{copy_range, has_prefix, starts_with, Type};
use crate::oid::{
    digit_value, hex_encode, hex_of, hex_value, is_hex_digit, ObjectId, ID_LEN,
};

verus! {

/// Number of first-byte buckets.
pub const BUCKETS: usize = 256;

/// The first-byte bucket that a directory entry named `name` stands for:
/// exactly two hex digits.
pub open spec fn bucket_of(name: Seq<u8>) -> Option<u8> {
    if name.len() == 2 && is_hex_digit(name[0]) && is_hex_digit(name[1]) {
        Some((digit_value(name[0]) * 16 + digit_value(name[1])) as u8)
    } else {
        None
    }
}

/// Some entry of `names` is the bucket directory of first byte `b`.
pub open spec fn bucket_listed(names: Seq<Vec<u8>>, b: int) -> bool {
    exists|i: int| 0 <= i < names.len() && bucket_of(#[trigger] names[i]@) == Some(b as u8)
}

/// The bucket that a directory entry stands for, if any.
pub fn bucket_name(name: &[u8]) -> (r: Option<u8>)
    ensures
        r == bucket_of(name@),
{
    if name.len() != 2 {
        return None;
    }
    match (hex_value(name[0]), hex_value(name[1])) {
        (Some(hi), Some(lo)) => Some(hi * 16 + lo),
        _ => None,
    }
}

/// The presence filter of an object directory whose entries are `names`:
/// slot `b` is set exactly when some entry is the bucket of first byte `b`.
pub fn presence_filter(names: &Vec<Vec<u8>>) -> (r: Vec<bool>)
    ensures
        r@.len() == BUCKETS,
        forall|b: int| 0 <= b < BUCKETS ==> (#[trigger] r@[b] <==> bucket_listed(names@, b)),
{
    let mut filter: Vec<bool> = Vec::new();
    while filter.len() < BUCKETS
        invariant
            filter@.len() <= BUCKETS,
            forall|b: int| 0 <= b < filter@.len() ==> !#[trigger] filter@[b],
        decreases BUCKETS - filter@.len(),
    {
        filter.push(false);
    }
    let mut i: usize = 0;
    while i < names.len()
        invariant
            i <= names@.len(),
            filter@.len() == BUCKETS,
            forall|b: int|
                0 <= b < BUCKETS ==> (#[trigger] filter@[b] <==> bucket_listed(
                    names@.subrange(0, i as int),
                    b,
                )),
        decreases names@.len() - i,
    {
        let got = bucket_name(names[i].as_slice());
        let ghost before = filter@;
        if let Some(k) = got {
            filter.set(k as usize, true);
        }
        proof {
            let pre = names@.subrange(0, i as int);
            let post = names@.subrange(0, i + 1);
            assert forall|b: int| 0 <= b < BUCKETS implies (#[trigger] filter@[b]
                <==> bucket_listed(post, b)) by {
                if bucket_listed(pre, b) {
                    let j = choose|j: int| 0 <= j < pre.len() && bucket_of(#[trigger] pre[j]@) == Some(b as u8);
                    assert(post[j] == pre[j]);
                }
                if bucket_listed(post, b) {
                    let j = choose|j: int| 0 <= j < post.len() && bucket_of(#[trigger] post[j]@) == Some(b as u8);
                    if j < i {
                        assert(post[j] == pre[j]);
                    } else {
                        assert(post[j] == names@[i as int]);
                    }
                }
                if got == Some(b as u8) {
                    assert(post[i as int] == names@[i as int]);
                }
            }
        }
        i = i + 1;
    }
    assert(names@.subrange(0, names@.len() as int) =~= names@);
    filter
}

/// The presence filter has no false negatives and no false positives: a
/// bucket marked absent has no directory among the entries, and every bucket
/// directory among them is marked present.
pub proof fn lemma_presence_filter_sound(names: Seq<Vec<u8>>, filter: Seq<bool>)
    requires
        filter.len() == BUCKETS,
        forall|b: int| 0 <= b < BUCKETS ==> (#[trigger] filter[b] <==> bucket_listed(names, b)),
    ensures
        forall|b: int, i: int|
            #![trigger filter[b], names[i]]
            0 <= b < BUCKETS && 0 <= i < names.len() && !filter[b] ==> bucket_of(names[i]@) != Some(
                b as u8,
            ),
        forall|i: int|
            0 <= i < names.len() && #[trigger] bucket_of(names[i]@) is Some ==> filter[bucket_of(
                names[i]@,
            )->Some_0 as int],
{
    assert forall|i: int| 0 <= i < names.len() && #[trigger] bucket_of(names[i]@) is Some implies filter[bucket_of(
        names[i]@,
    )->Some_0 as int] by {
        let b = bucket_of(names[i]@)->Some_0 as int;
        assert((b as u8) == bucket_of(names[i]@)->Some_0);
        assert(bucket_listed(names, b));
    }
}

/// An entry that is not two hex digits changes no slot of the filter.
pub proof fn lemma_malformed_name_ignored(names: Seq<Vec<u8>>, bad: Vec<u8>)
    requires
        bucket_of(bad@) is None,
    ensures
        forall|b: int| 0 <= b < BUCKETS ==> (bucket_listed(names.push(bad), b) <==> bucket_listed(names, b)),
{
    assert forall|b: int| 0 <= b < BUCKETS implies (bucket_listed(names.push(bad), b) <==> bucket_listed(names, b)) by {
        let ext = names.push(bad);
        if bucket_listed(ext, b) {
            let j = choose|j: int| 0 <= j < ext.len() && bucket_of(#[trigger] ext[j]@) == Some(b as u8);
            assert(j < names.len());
            assert(ext[j] == names[j]);
        }
        if bucket_listed(names, b) {
            let j = choose|j: int| 0 <= j < names.len() && bucket_of(#[trigger] names[j]@) == Some(b as u8);
            assert(ext[j] == names[j]);
        }
    }
}

/// The loose backend: one object directory, split into first-byte buckets.
pub struct LooseStore {
    root: String,
    filter: Vec<bool>,
}

impl LooseStore {
    pub closed spec fn spec_root(&self) -> Seq<char> {
        self.root@
    }

    /// Whether the filter lets lookups of first byte `b` reach the disk.
    pub closed spec fn marks(&self, b: int) -> bool {
        self.filter@[b]
    }

    pub closed spec fn wf(&self) -> bool {
        self.filter@.len() == BUCKETS
    }

    /// A loose backend rooted at `root`, whose directory lists `names`.
    /// Entries that are not two hex digits are ignored.
    pub fn new(root: String, names: &Vec<Vec<u8>>) -> (r: LooseStore)
        ensures
            r.wf(),
            r.spec_root() == root@,
            forall|b: int| 0 <= b < BUCKETS ==> (r.marks(b) <==> bucket_listed(names@, b)),
    {
        let filter = presence_filter(names);
        LooseStore { root, filter }
    }

    /// The object directory.
    pub fn root(&self) -> (r: &String)
        ensures
            r@ == self.spec_root(),
    {
        &self.root
    }

    /// Whether the filter marks first byte `b` present.
    pub fn has_bucket(&self, b: u8) -> (r: bool)
        requires
            self.wf(),
        ensures
            r == self.marks(b as int),
    {
        self.filter[b as usize]
    }

    /// Where the object `id` would lie: the bucket directory name (two hex
    /// digits) and the file name (the other digits). None when the filter
    /// marks the id's bucket absent: the object is then not in this backend.
    pub fn find(&self, id: &ObjectId) -> (r: Option<(Vec<u8>, Vec<u8>)>)
        requires
            self.wf(),
            id.wf(),
        ensures
            r.is_none() <==> !self.marks(id@[0] as int),
            r matches Some((dir, file)) ==> dir@.len() == 2 && dir@ + file@ == hex_of(id@),
    {
        if !self.filter[id.byte(0) as usize] {
            return None;
        }
        let hex = id.to_hex();
        let mut dir: Vec<u8> = Vec::new();
        dir.push(hex[0]);
        dir.push(hex[1]);
        let mut file: Vec<u8> = Vec::new();
        let mut i: usize = 2;
        while i < hex.len()
            invariant
                2 <= i <= hex@.len(),
                file@ == hex@.subrange(2, i as int),
            decreases hex@.len() - i,
        {
            file.push(hex[i]);
            i = i + 1;
            assert(file@ =~= hex@.subrange(2, i as int));
        }
        assert(dir@ + file@ =~= hex@);
        Some((dir, file))
    }
}

/// The word that names kind `t` in a loose object's header.
pub open spec fn kind_name(t: Type) -> Seq<u8> {
    match t {
        Type::Commit => seq![99u8, 111, 109, 109, 105, 116],
        Type::Tree => seq![116u8, 114, 101, 101],
        Type::Blob => seq![98u8, 108, 111, 98],
        Type::Tag => seq![116u8, 97, 103],
    }
}

/// The header's opening: the kind word and a space.
pub open spec fn kind_lead(t: Type) -> Seq<u8> {
    kind_name(t).push(32)
}

/// `d` is ASCII decimal digits.
pub open spec fn all_digits(d: Seq<u8>) -> bool {
    forall|i: int| 0 <= i < d.len() ==> 48 <= #[trigger] d[i] <= 57
}

/// The number that decimal digits `d` write.
pub open spec fn dec_value(d: Seq<u8>) -> nat
    decreases d.len(),
{
    if d.len() == 0 {
        0
    } else {
        dec_value(d.drop_last()) * 10 + (d.last() - 48) as nat
    }
}

/// `b` is a loose object of kind `t` whose size field is `d` and body `body`:
/// `<kind> <size>\0<body>`, the size being the body's length in decimal.
pub open spec fn loose_layout(b: Seq<u8>, t: Type, d: Seq<u8>, body: Seq<u8>) -> bool {
    &&& d.len() > 0
    &&& all_digits(d)
    &&& dec_value(d) == body.len()
    &&& b == kind_lead(t) + d + seq![0u8] + body
}

/// `b` is a loose object of kind `t` with body `body`.
pub open spec fn is_loose_object(b: Seq<u8>, t: Type, body: Seq<u8>) -> bool {
    exists|d: Seq<u8>| loose_layout(b, t, d, body)
}

/// A loose object file that is not `<kind> <size>\0<body>`.
#[derive(Clone, Copy, Debug, PartialEq, Eq, Structural)]
pub enum LooseError {
    BadHeader,
}

/// The kind whose header opening `b` starts with, and the opening's length.
pub fn kind_prefix(b: &[u8]) -> (r: Option<(Type, usize)>)
    ensures
        r matches Some((t, p)) ==> p == kind_lead(t).len() && starts_with(b@, kind_lead(t)),
        forall|t: Type| starts_with(b@, kind_lead(t)) ==> r == Some((t, kind_lead(t).len() as usize)),
{
    let commit: [u8; 7] = [99, 111, 109, 109, 105, 116, 32];
    let tree: [u8; 5] = [116, 114, 101, 101, 32];
    let blob: [u8; 5] = [98, 108, 111, 98, 32];
    let tag: [u8; 4] = [116, 97, 103, 32];
    assert(commit@ =~= kind_lead(Type::Commit));
    assert(tree@ =~= kind_lead(Type::Tree));
    assert(blob@ =~= kind_lead(Type::Blob));
    assert(tag@ =~= kind_lead(Type::Tag));
    proof {
        assert forall|t: Type, u: Type| starts_with(b@, kind_lead(t)) && starts_with(b@, kind_lead(u))
            implies t == u by {
            lemma_kind_lead_unique(b@, t, u);
        }
    }
    if has_prefix(b, commit.as_slice()) {
        Some((Type::Commit, 7))
    } else if has_prefix(b, tree.as_slice()) {
        Some((Type::Tree, 5))
    } else if has_prefix(b, blob.as_slice()) {
        Some((Type::Blob, 5))
    } else if has_prefix(b, tag.as_slice()) {
        Some((Type::Tag, 4))
    } else {
        None
    }
}

/// Dropping digits from the end of a decimal number never makes it larger.
pub proof fn lemma_dec_prefix_le(d: Seq<u8>, k: int)
    requires
        0 <= k <= d.len(),
    ensures
        dec_value(d.subrange(0, k)) <= dec_value(d),
    decreases d.len() - k,
{
    if k < d.len() {
        lemma_dec_prefix_le(d, k + 1);
        assert(d.subrange(0, k + 1).drop_last() =~= d.subrange(0, k));
    } else {
        assert(d.subrange(0, k) =~= d);
    }
}

/// Where the parts of a loose object lie in its bytes.
pub proof fn lemma_loose_parts(b: Seq<u8>, t: Type, d: Seq<u8>, body: Seq<u8>)
    requires
        loose_layout(b, t, d, body),
    ensures
        b.len() == kind_lead(t).len() + d.len() + 1 + body.len(),
        b.subrange(0, kind_lead(t).len() as int) == kind_lead(t),
        forall|k: int| 0 <= k < d.len() ==> b[kind_lead(t).len() + k] == #[trigger] d[k],
        b.subrange(kind_lead(t).len() as int, (kind_lead(t).len() + d.len()) as int) == d,
        b[(kind_lead(t).len() + d.len()) as int] == 0,
        b.subrange((kind_lead(t).len() + d.len() + 1) as int, b.len() as int) == body,
{
    let l = kind_lead(t).len() as int;
    let x = kind_lead(t) + d;
    let y = x + seq![0u8];
    assert(b == y + body);
    assert(y[l + d.len()] == 0);
    assert(b[l + d.len()] == y[l + d.len()]);
    assert forall|k: int| 0 <= k < d.len() implies b[l + k] == #[trigger] d[k] by {
        assert(b[l + k] == y[l + k]);
        assert(y[l + k] == x[l + k]);
    }
    assert(b.subrange(0, l) =~= kind_lead(t));
    assert(b.subrange(l, l + d.len()) =~= d);
    assert(b.subrange(l + d.len() + 1, b.len() as int) =~= body);
}

/// Only one kind's header opening starts a given byte string.
pub proof fn lemma_kind_lead_unique(b: Seq<u8>, t: Type, u: Type)
    requires
        starts_with(b, kind_lead(t)),
        starts_with(b, kind_lead(u)),
    ensures
        t == u,
{
    assert(b[0] == b.subrange(0, kind_lead(t).len() as int)[0]);
    assert(b[0] == b.subrange(0, kind_lead(u).len() as int)[0]);
    assert(b[1] == b.subrange(0, kind_lead(t).len() as int)[1]);
    assert(b[1] == b.subrange(0, kind_lead(u).len() as int)[1]);
}

/// Two size fields that both start at `l` and end at the first zero byte
/// after it are the same.
pub proof fn lemma_size_field_unique(b: Seq<u8>, l: int, d1: Seq<u8>, d2: Seq<u8>)
    requires
        0 <= l,
        all_digits(d1),
        all_digits(d2),
        l + d1.len() < b.len(),
        l + d2.len() < b.len(),
        b[l + d1.len()] == 0,
        b[l + d2.len()] == 0,
        forall|k: int| 0 <= k < d1.len() ==> b[l + k] == #[trigger] d1[k],
        forall|k: int| 0 <= k < d2.len() ==> b[l + k] == #[trigger] d2[k],
    ensures
        d1 == d2,
{
    if d1.len() < d2.len() {
        assert(b[l + d1.len()] == d2[d1.len() as int]);
    } else if d2.len() < d1.len() {
        assert(b[l + d2.len()] == d1[d2.len() as int]);
    }
    assert(d1 =~= d2);
}

/// A loose object file has one reading: its kind and body are fixed by its
/// bytes.
pub proof fn lemma_loose_unique(b: Seq<u8>, t1: Type, body1: Seq<u8>, t2: Type, body2: Seq<u8>)
    requires
        is_loose_object(b, t1, body1),
        is_loose_object(b, t2, body2),
    ensures
        t1 == t2,
        body1 == body2,
{
    let d1 = choose|d: Seq<u8>| loose_layout(b, t1, d, body1);
    let d2 = choose|d: Seq<u8>| loose_layout(b, t2, d, body2);
    lemma_loose_parts(b, t1, d1, body1);
    lemma_loose_parts(b, t2, d2, body2);
    lemma_kind_lead_unique(b, t1, t2);
    lemma_size_field_unique(b, kind_lead(t1).len() as int, d1, d2);
}

/// While the size field is being read, each digit seen lies inside it, and
/// the number read so far is at most the whole file's length.
pub proof fn lemma_digit_step(b: Seq<u8>, t: Type, d: Seq<u8>, body: Seq<u8>, p: int, i: int)
    requires
        loose_layout(b, t, d, body),
        p == kind_lead(t).len(),
        p <= i <= p + d.len(),
        i < b.len(),
        48 <= b[i] <= 57,
    ensures
        i < p + d.len(),
        dec_value(b.subrange(p, i + 1)) <= b.len(),
{
    lemma_loose_parts(b, t, d, body);
    if i == p + d.len() {
        assert(b[i] == 0);
    }
    assert forall|k: int| 0 <= k < i + 1 - p implies #[trigger] b.subrange(p, i + 1)[k] == d.subrange(0, i + 1 - p)[k] by {
        assert(b[p + k] == d[k]);
    }
    assert(b.subrange(p, i + 1) =~= d.subrange(0, i + 1 - p));
    lemma_dec_prefix_le(d, i + 1 - p);
}

/// Reads a loose object file: `<kind> <size>\0<body>`, where the size is the
/// body's length in decimal digits. Gives the kind and the body.
pub fn parse_loose(b: &[u8]) -> (r: Result<(Type, Vec<u8>), LooseError>)
    ensures
        r.is_ok() <==> exists|t: Type, body: Seq<u8>| is_loose_object(b@, t, body),
        r matches Ok((t, body)) ==> is_loose_object(b@, t, body@),
{
    let ghost valid = exists|t: Type, body: Seq<u8>| is_loose_object(b@, t, body);
    let ghost w: (Type, Seq<u8>, Seq<u8>) = if valid {
        let (t, body) = choose|t: Type, body: Seq<u8>| is_loose_object(b@, t, body);
        let d = choose|d: Seq<u8>| loose_layout(b@, t, d, body);
        (t, d, body)
    } else {
        arbitrary()
    };
    proof {
        if valid {
            lemma_loose_parts(b@, w.0, w.1, w.2);
        }
    }
    let (t, p) = match kind_prefix(b) {
        Some(x) => x,
        None => {
            return Err(LooseError::BadHeader);
        },
    };
    let n: usize = b.len();
    let mut i: usize = p;
    let mut acc: usize = 0;
    proof {
        assert(b@.subrange(p as int, p as int) =~= Seq::<u8>::empty());
    }
    while i < b.len() && 48 <= b[i] && b[i] <= 57
        invariant
            valid == exists|t: Type, body: Seq<u8>| is_loose_object(b@, t, body),
            n == b@.len(),
            p <= i <= b@.len(),
            all_digits(b@.subrange(p as int, i as int)),
            acc == dec_value(b@.subrange(p as int, i as int)),
            valid ==> (loose_layout(b@, w.0, w.1, w.2) && t == w.0 && p == kind_lead(w.0).len() && i <= p
                + w.1.len()),
        decreases b@.len() - i,
    {
        let digit = b[i] - 48;
        let ghost next = b@.subrange(p as int, i + 1);
        proof {
            assert(next.drop_last() =~= b@.subrange(p as int, i as int));
            assert(next.last() == b@[i as int]);
            assert(dec_value(next) == acc * 10 + digit);
            if valid {
                lemma_digit_step(b@, w.0, w.1, w.2, p as int, i as int);
                assert(acc * 10 + digit <= n);
            }
        }
        if acc > usize::MAX / 10 {
            proof {
                if valid {
                    let m = usize::MAX as int;
                    assert(false) by (nonlinear_arith)
                        requires
                            acc > m / 10,
                            acc * 10 + digit <= m,
                            m > 0,
                    ;
                }
            }
            return Err(LooseError::BadHeader);
        }
        let m = acc * 10;
        if m > usize::MAX - digit as usize {
            return Err(LooseError::BadHeader);
        }
        acc = m + digit as usize;
        i = i + 1;
        proof {
            assert(all_digits(b@.subrange(p as int, i as int)));
        }
    }
    proof {
        if valid {
            let d = w.1;
            lemma_loose_parts(b@, w.0, w.1, w.2);
            if i < p + d.len() {
                assert(b@[p + (i - p)] == d[i - p]);
            }
            assert(i == p + d.len());
            assert(b@[i as int] == 0);
            assert(b@.subrange(p as int, i as int) =~= d);
        }
    }
    if i == p || i >= b.len() || b[i] != 0 {
        return Err(LooseError::BadHeader);
    }
    if b.len() - (i + 1) != acc {
        return Err(LooseError::BadHeader);
    }
    let body = copy_range(b, i + 1, b.len());
    proof {
        let d = b@.subrange(p as int, i as int);
        assert(b@.subrange(0, p as int) == kind_lead(t));
        assert(b@ =~= kind_lead(t) + d + seq![0u8] + body@);
        assert(loose_layout(b@, t, d, body@));
        assert(is_loose_object(b@, t, body@));
    }
    Ok((t, body))
}

} // verus!
